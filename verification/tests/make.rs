use tumu_cdb::{CDBMake, CDB};

#[test]
fn test_make() {
    let mut cdb = CDBMake::new();
    cdb.add(b"one", b"Hello").unwrap();
    cdb.add(b"two", b"Goodbye").unwrap();
    cdb.add(b"one", b", World!").unwrap();
    cdb.add(b"this key will be split across two reads", b"Got it.")
        .unwrap();
    let v = cdb.finish().unwrap();

    let cdb = CDB::copy_from_slice(&v).unwrap();
    assert_eq!(cdb.find(b"two").next().unwrap(), b"Goodbye");
    assert_eq!(
        cdb.find(b"this key will be split across two reads")
            .next()
            .unwrap(),
        b"Got it."
    );
    let mut i = cdb.find(b"one");
    assert_eq!(i.next().unwrap(), b"Hello");
    assert_eq!(i.next().unwrap(), b", World!");

    let mut i = cdb.iter();
    let next = i.next().unwrap().unwrap();
    assert_eq!(next.0, b"one");
    assert_eq!(next.1, b"Hello");
    let next = i.next().unwrap().unwrap();
    assert_eq!(next.0, b"two");
    assert_eq!(next.1, b"Goodbye");
    let next = i.next().unwrap().unwrap();
    assert_eq!(next.0, b"one");
    assert_eq!(next.1, b", World!");
    let next = i.next().unwrap().unwrap();
    assert_eq!(next.1, b"Got it.");
}
