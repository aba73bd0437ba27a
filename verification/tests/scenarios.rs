use tumu_cdb::uint32::{pack, pack2, unpack, unpack2};
use tumu_cdb::{hash::hash, CDBMake, Error, FileBuffer, CDB};

#[test]
fn hash_of_empty_input_is_5381() {
    assert_eq!(hash(b""), 5381);
}

#[test]
fn hash_is_deterministic() {
    assert_eq!(hash(b"one"), hash(b"one"));
    assert_eq!(hash(b"constant database"), hash(b"constant database"));
}

#[test]
fn codec_round_trip() {
    assert_eq!(unpack(&[0x78, 0x56, 0x34, 0x12]), 0x12345678);
    assert_eq!(
        unpack2(&[0x01, 0x00, 0x00, 0x00, 0xff, 0xff, 0xff, 0xff]),
        (1, 0xffffffff)
    );
    let mut buf = vec![0u8; 4];
    pack(&mut buf, 0x12345678);
    assert_eq!(buf, vec![0x78, 0x56, 0x34, 0x12]);
    let mut buf = vec![0u8; 8];
    pack2(&mut buf, 0x00000800, 0);
    assert_eq!(buf, vec![0, 8, 0, 0, 0, 0, 0, 0]);
    assert_eq!(unpack2(&buf), (2048, 0));
}

#[test]
fn error_messages() {
    assert_eq!(Error::BadFormat.message(), "Invalid file format");
    assert_eq!(Error::RecordTooLarge.message(), "Key or data too big");
    assert_eq!(Error::FileTooBig.message(), "File too big");
}

#[test]
fn filebuffer_bounds() {
    let fb = FileBuffer::copy_from_slice(b"abcdef");
    assert_eq!(fb.len(), 6);
    assert_eq!(fb.slice(1, 4).unwrap(), b"bcd");
    assert_eq!(fb.slice(0, 6).unwrap(), b"abcdef");
    assert!(fb.slice(3, 7).is_none());
    assert!(fb.slice(4, 3).is_none());
}

#[test]
fn empty_build_is_header_only() {
    let w = CDBMake::new();
    let v = w.finish().unwrap();
    assert_eq!(v.len(), 2048);
    for i in 0..256 {
        let slot = unpack2(&v[i * 8..i * 8 + 8]);
        assert_eq!(slot, (2048, 0));
    }
    let cdb = CDB::copy_from_slice(&v).unwrap();
    assert!(cdb.find(b"anything").next().is_none());
    assert!(cdb.iter().next().is_none());
}

#[test]
fn single_record_layout() {
    let mut w = CDBMake::new();
    w.add(b"one", b"Hello").unwrap();
    let v = w.finish().unwrap();
    // 2,048 header + 8 lens + 3 key + 5 data + 2 slots of 8 bytes.
    assert_eq!(v.len(), 2080);
    let cdb = CDB::copy_from_slice(&v).unwrap();
    assert_eq!(cdb.get(b"one").unwrap(), b"Hello");
    assert!(cdb.get(b"two").is_none());
}

#[test]
fn duplicate_keys_in_insertion_order() {
    let mut w = CDBMake::new();
    w.add(b"one", b"Hello").unwrap();
    w.add(b"two", b"Goodbye").unwrap();
    w.add(b"one", b", World!").unwrap();
    let v = w.finish().unwrap();
    let cdb = CDB::copy_from_slice(&v).unwrap();
    let mut i = cdb.find(b"one");
    assert_eq!(i.next().unwrap(), b"Hello");
    assert_eq!(i.next().unwrap(), b", World!");
    assert!(i.next().is_none());
    let mut i = cdb.find(b"two");
    assert_eq!(i.next().unwrap(), b"Goodbye");
    assert!(i.next().is_none());
    let mut it = cdb.iter();
    assert_eq!(
        it.next().unwrap().unwrap(),
        (b"one".to_vec(), b"Hello".to_vec())
    );
    assert_eq!(
        it.next().unwrap().unwrap(),
        (b"two".to_vec(), b"Goodbye".to_vec())
    );
    assert_eq!(
        it.next().unwrap().unwrap(),
        (b"one".to_vec(), b", World!".to_vec())
    );
    assert!(it.next().is_none());
}

#[test]
fn long_key_matches_fully() {
    let mut w = CDBMake::new();
    w.add(b"this key will be split across two reads", b"Got it.")
        .unwrap();
    let v = w.finish().unwrap();
    let cdb = CDB::copy_from_slice(&v).unwrap();
    assert_eq!(
        cdb.get(b"this key will be split across two reads").unwrap(),
        b"Got it."
    );
    // A key agreeing only on a prefix does not match.
    assert!(cdb.get(b"this key will be split").is_none());
}

#[test]
fn absent_key_finds_nothing() {
    let mut w = CDBMake::new();
    w.add(b"one", b"Hello").unwrap();
    w.add(b"two", b"Goodbye").unwrap();
    let v = w.finish().unwrap();
    let cdb = CDB::copy_from_slice(&v).unwrap();
    assert!(cdb.find(b"three").next().is_none());
    assert!(cdb.get(b"three").is_none());
    assert!(cdb.get(b"").is_none());
}

#[test]
fn finish_is_a_function_of_the_records() {
    let build = || {
        let mut w = CDBMake::new();
        w.add(b"one", b"Hello").unwrap();
        w.add(b"two", b"Goodbye").unwrap();
        w.add(b"one", b", World!").unwrap();
        w.finish().unwrap()
    };
    assert_eq!(build(), build());
}

#[test]
fn open_rejects_wrong_sizes() {
    let fb = FileBuffer::copy_from_slice(&[0u8; 1024]);
    assert_eq!(CDB::open(fb).err().unwrap(), Error::BadFormat);
    let fb = FileBuffer::copy_from_slice(&[0u8; 2063]);
    assert_eq!(CDB::open(fb).err().unwrap(), Error::BadFormat);
    let fb = FileBuffer::copy_from_slice(&[0u8; 2064]);
    assert!(CDB::open(fb).is_ok());
}

#[test]
fn truncated_file_is_rejected_or_inert() {
    let mut w = CDBMake::new();
    w.add(b"one", b"Hello").unwrap();
    w.add(b"two", b"Goodbye").unwrap();
    w.add(b"one", b", World!").unwrap();
    w.add(b"this key will be split across two reads", b"Got it.")
        .unwrap();
    let v = w.finish().unwrap();
    assert_eq!(v.len(), 2219);

    // Truncated inside the header: not a CDB at all.
    let fb = FileBuffer::copy_from_slice(&v[..1024]);
    assert_eq!(CDB::open(fb).err().unwrap(), Error::BadFormat);

    // Truncated inside the data region: opens, lookups find nothing,
    // full iteration reports the half record as bad format.
    let fb = FileBuffer::copy_from_slice(&v[..2100]);
    let cdb = CDB::open(fb).unwrap();
    assert!(cdb.find(b"one").next().is_none());
    assert!(cdb.find(b"two").next().is_none());
    let mut it = cdb.iter();
    assert_eq!(
        it.next().unwrap().unwrap(),
        (b"one".to_vec(), b"Hello".to_vec())
    );
    assert_eq!(
        it.next().unwrap().unwrap(),
        (b"two".to_vec(), b"Goodbye".to_vec())
    );
    assert_eq!(it.next().unwrap().err().unwrap(), Error::BadFormat);
    assert!(it.next().is_none());
}

#[test]
fn lookups_over_garbage_terminate() {
    // A deterministic pseudo-random image: lookups and iteration must
    // end without reading out of bounds, whatever the bytes say.
    let mut bytes = vec![0u8; 3000];
    let mut x: u64 = 0x243f6a8885a308d3;
    for b in bytes.iter_mut() {
        x = x.wrapping_mul(6364136223846793005).wrapping_add(1442695040888963407);
        *b = (x >> 56) as u8;
    }
    let cdb = CDB::copy_from_slice(&bytes).unwrap();
    let _ = cdb.get(b"key");
    let mut i = cdb.find(b"key");
    while i.next().is_some() {}
    let mut it = cdb.iter();
    for _ in 0..1000 {
        if it.next().is_none() {
            break;
        }
    }
    // A tiny image finds nothing rather than failing.
    let cdb = CDB::copy_from_slice(b"short").unwrap();
    assert!(cdb.get(b"key").is_none());
    assert!(cdb.iter().next().is_none());
}
