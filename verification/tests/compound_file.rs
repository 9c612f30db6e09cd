use cfb::{CompoundFile, Error, ErrorKind, Store, Version};

#[test]
#[should_panic(expected = "Invalid CFB file (wrong magic number)")]
fn wrong_magic_number() {
    let store = Store::new(vec![1u8, 2, 3, 4, 5, 6, 7, 8, 9, 10, 11, 12]);
    match CompoundFile::open(store) {
        Ok(_) => {}
        Err(err) => panic!("{}", err.message()),
    }
}

#[test]
fn write_and_read_empty_compound_file() {
    let version = Version::V3;

    let store = Store::new(Vec::new());
    let comp = CompoundFile::create_with_version(store, version).expect("create");
    assert_eq!(comp.version(), version);
    assert_eq!(comp.entry("/").unwrap().name(), "Root Entry");

    let store = comp.into_inner();
    assert_eq!(store.get_ref().len(), 3 * version.sector_len());
    let comp = CompoundFile::open(store).expect("open");
    assert_eq!(comp.version(), version);
    assert_eq!(comp.entry("/").unwrap().name(), "Root Entry");
}

#[test]
fn empty_compound_file_has_no_children() {
    let store = Store::new(Vec::new());
    let comp = CompoundFile::create_with_version(store, Version::V4).expect("create");
    assert!(comp.entry("/").unwrap().is_root());
    assert_eq!(comp.read_storage("/").unwrap().count(), 0);
}

#[test]
fn wrong_magic_is_invalid_data() {
    let store = Store::new(vec![1u8, 2, 3, 4, 5, 6, 7, 8, 9, 10, 11, 12]);
    let err = CompoundFile::open(store).err().unwrap();
    assert_eq!(err, Error::WrongMagic);
    assert_eq!(err.kind(), ErrorKind::InvalidData);
}
