use tumu_cdb::{CDBMake, CDB};

/// The database the read tests look keys up in.
fn test_db() -> Vec<u8> {
    let mut w = CDBMake::new();
    w.add(b"one", b"Hello").unwrap();
    w.add(b"two", b"Goodbye").unwrap();
    w.add(b"one", b", World!").unwrap();
    w.add(b"this key will be split across two reads", b"Got it.")
        .unwrap();
    w.finish().unwrap()
}

#[test]
fn test_one() {
    let bytes = test_db();
    let cdb = CDB::copy_from_slice(&bytes).unwrap();
    let mut i = cdb.find(b"one");
    assert_eq!(i.next().unwrap(), b"Hello");
    assert_eq!(i.next().unwrap(), b", World!");
}

#[test]
fn test_two() {
    let bytes = test_db();
    let cdb = CDB::copy_from_slice(&bytes).unwrap();
    assert_eq!(cdb.find(b"two").next().unwrap(), b"Goodbye");
    assert_eq!(
        cdb.find(b"this key will be split across two reads")
            .next()
            .unwrap(),
        b"Got it."
    );
}
