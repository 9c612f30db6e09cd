use cfb::consts::{END_OF_CHAIN, FAT_SECTOR, FREE_SECTOR, NO_STREAM, OBJ_TYPE_ROOT, OBJ_TYPE_STREAM};
use cfb::dir_entry::DirEntry;
use cfb::names::{compare_names, encode_utf16, name_chain_from_path, validate_name, NameOrder};
use cfb::time::{timestamp_before_unix_time, timestamp_from_unix_time, unix_time_from_timestamp};
use cfb::{CompoundFile, Error, ErrorKind, Store, Version};

fn empty_image(version: Version) -> Vec<u8> {
    CompoundFile::create_with_version(Store::new(Vec::new()), version)
        .unwrap()
        .into_inner()
        .into_inner()
}

fn put_u16(image: &mut [u8], at: usize, value: u16) {
    image[at..at + 2].copy_from_slice(&value.to_le_bytes());
}

fn put_u32(image: &mut [u8], at: usize, value: u32) {
    image[at..at + 4].copy_from_slice(&value.to_le_bytes());
}

fn get_u32(image: &[u8], at: usize) -> u32 {
    u32::from_le_bytes([image[at], image[at + 1], image[at + 2], image[at + 3]])
}

fn open_error(image: Vec<u8>) -> Error {
    match CompoundFile::open(Store::new(image)) {
        Ok(_) => panic!("the image was accepted"),
        Err(err) => err,
    }
}

fn units(text: &str) -> Vec<u16> {
    text.encode_utf16().collect()
}

#[test]
fn empty_v3_image_is_1536_bytes_and_reopens() {
    let image = empty_image(Version::V3);
    assert_eq!(image.len(), 1536);
    let comp = CompoundFile::open(Store::new(image)).unwrap();
    assert_eq!(comp.version(), Version::V3);
    let root = comp.entry("/").unwrap();
    assert_eq!(root.name(), "Root Entry");
    assert_eq!(root.path(), "/");
    assert!(root.is_root());
    assert!(root.is_storage());
    assert!(!root.is_stream());
    assert_eq!(root.len(), 0);
    assert_eq!(comp.read_storage("/").unwrap().count(), 0);
    assert!(comp.is_sound());
    assert_eq!(comp.root_dir_entry().name, units("Root Entry"));
    assert_eq!(comp.root_dir_entry().obj_type, OBJ_TYPE_ROOT);
    assert_eq!(comp.root_dir_entry().start_sector, END_OF_CHAIN);
}

#[test]
fn empty_v4_image_layout() {
    let comp = CompoundFile::create(Store::new(Vec::new())).unwrap();
    assert_eq!(comp.version(), Version::V4);
    let image = comp.into_inner().into_inner();
    assert_eq!(image.len(), 12288);
    assert_eq!(&image[..8], &[0xd0, 0xcf, 0x11, 0xe0, 0xa1, 0xb1, 0x1a, 0xe1]);
    assert_eq!(&image[24..36], &[0x3e, 0, 4, 0, 0xfe, 0xff, 12, 0, 6, 0, 0, 0]);
    assert_eq!(get_u32(&image, 44), 1);
    assert_eq!(get_u32(&image, 48), 1);
    assert_eq!(get_u32(&image, 56), 4096);
    assert_eq!(get_u32(&image, 60), END_OF_CHAIN);
    assert_eq!(get_u32(&image, 64), 0);
    assert_eq!(get_u32(&image, 68), END_OF_CHAIN);
    assert_eq!(get_u32(&image, 72), 0);
    assert_eq!(get_u32(&image, 76), 0);
    for i in 1..109 {
        assert_eq!(get_u32(&image, 76 + 4 * i), FREE_SECTOR);
    }
    assert!(image[512..4096].iter().all(|&b| b == 0));
    assert_eq!(get_u32(&image, 4096), FAT_SECTOR);
    assert_eq!(get_u32(&image, 4100), END_OF_CHAIN);
    for i in 2..1024 {
        assert_eq!(get_u32(&image, 4096 + 4 * i), FREE_SECTOR);
    }
    assert_eq!(image[8192 + 64], 22);
    assert_eq!(image[8192 + 66], OBJ_TYPE_ROOT);
    assert_eq!(get_u32(&image, 8192 + 116), END_OF_CHAIN);
}

#[test]
fn empty_file_has_no_missing_entry() {
    let comp = CompoundFile::create(Store::new(Vec::new())).unwrap();
    let err = comp.entry("/Missing").err().unwrap();
    assert_eq!(err, Error::NoSuchObject);
    assert_eq!(err.kind(), ErrorKind::NotFound);
}

#[test]
fn create_writes_over_what_the_store_holds() {
    let comp = CompoundFile::create_with_version(Store::new(vec![9u8; 2000]), Version::V3).unwrap();
    let image = comp.into_inner().into_inner();
    assert_eq!(image.len(), 2000);
    assert_eq!(&image[..1536], &empty_image(Version::V3)[..]);
    assert!(image[1536..].iter().all(|&b| b == 9));
}

#[test]
fn header_faults() {
    assert_eq!(open_error(vec![0xd0, 0xcf, 0x11]), Error::UnexpectedEof);
    assert_eq!(Error::UnexpectedEof.kind(), ErrorKind::UnexpectedEof);
    let good = empty_image(Version::V3);
    assert_eq!(open_error(good[..26].to_vec()), Error::UnexpectedEof);
    assert_eq!(open_error(good[..75].to_vec()), Error::UnexpectedEof);
    assert_eq!(open_error(good[..511].to_vec()), Error::UnexpectedEof);
    assert_eq!(open_error(good[..1535].to_vec()), Error::UnexpectedEof);

    let mut image = good.clone();
    image[7] = 0;
    assert_eq!(open_error(image), Error::WrongMagic);
    let mut image = good.clone();
    put_u16(&mut image, 26, 5);
    assert_eq!(open_error(image), Error::UnsupportedVersion);
    let mut image = good.clone();
    put_u16(&mut image, 28, 0xfffd);
    assert_eq!(open_error(image), Error::ByteOrderMark);
    let mut image = good.clone();
    put_u16(&mut image, 30, 12);
    assert_eq!(open_error(image), Error::SectorShift);
    let mut image = good.clone();
    put_u16(&mut image, 32, 7);
    assert_eq!(open_error(image), Error::MiniSectorShift);
    let mut image = good.clone();
    put_u32(&mut image, 56, 4095);
    assert_eq!(open_error(image), Error::MiniStreamCutoff);
    for err in [
        Error::WrongMagic,
        Error::UnsupportedVersion,
        Error::ByteOrderMark,
        Error::SectorShift,
        Error::MiniSectorShift,
        Error::MiniStreamCutoff,
    ] {
        assert_eq!(err.kind(), ErrorKind::InvalidData);
    }
}

#[test]
fn difat_and_fat_faults() {
    let good = empty_image(Version::V3);
    let mut image = good.clone();
    put_u32(&mut image, 80, 0xffff_fffc);
    assert_eq!(open_error(image), Error::DifatEntry);
    let mut image = good.clone();
    put_u32(&mut image, 72, 1);
    assert_eq!(open_error(image), Error::DifatChainLength);
    let mut image = good.clone();
    put_u32(&mut image, 68, 1);
    assert_eq!(open_error(image), Error::DifatChainLength);
    let mut image = good.clone();
    put_u32(&mut image, 44, 2);
    assert_eq!(open_error(image), Error::FatSectorCount);
    let mut image = good.clone();
    put_u32(&mut image, 76, 2);
    assert_eq!(open_error(image), Error::UnexpectedEof);
    let mut image = good.clone();
    image.extend_from_slice(&[0xffu8; 512]);
    put_u32(&mut image, 76, 2);
    assert_eq!(open_error(image), Error::DifatIndex);
    let mut image = good.clone();
    put_u32(&mut image, 76, 1);
    assert_eq!(open_error(image), Error::FatSectorNotMarked);
    let mut image = good.clone();
    put_u32(&mut image, 512, END_OF_CHAIN);
    assert_eq!(open_error(image), Error::FatSectorNotMarked);
    let mut image = good.clone();
    put_u32(&mut image, 516, 7);
    assert_eq!(open_error(image), Error::FatPointer);
    let mut image = good.clone();
    put_u32(&mut image, 516, 2);
    put_u32(&mut image, 520, 2);
    assert_eq!(open_error(image), Error::FatPointedTwice);
    for err in [
        Error::DifatEntry,
        Error::DifatChainLength,
        Error::FatSectorCount,
        Error::DifatIndex,
        Error::FatSectorNotMarked,
        Error::FatPointer,
        Error::FatPointedTwice,
    ] {
        assert_eq!(err.kind(), ErrorKind::InvalidData);
    }
}

#[test]
fn a_difat_sector_is_read() {
    // The chain of DIFAT sectors has one sector, sector 2, which lists no
    // further FAT sector.
    let mut image = empty_image(Version::V3);
    image.extend_from_slice(&[0xffu8; 508]);
    image.extend_from_slice(&END_OF_CHAIN.to_le_bytes());
    put_u32(&mut image, 68, 2);
    put_u32(&mut image, 72, 1);
    put_u32(&mut image, 512 + 8, 0xffff_fffc);
    for i in 1..109 {
        put_u32(&mut image, 76 + 4 * i, FREE_SECTOR);
    }
    let comp = CompoundFile::open(Store::new(image.clone())).unwrap();
    assert_eq!(comp.entry("/").unwrap().name(), "Root Entry");
    // An entry of a DIFAT sector that is no sector index is a fault.
    put_u32(&mut image, 1536 + 40, 0xffff_fffe);
    assert_eq!(open_error(image), Error::DifatEntry);
}

#[test]
fn minifat_faults() {
    let good = empty_image(Version::V3);
    let mut image = good.clone();
    put_u32(&mut image, 64, 1);
    assert_eq!(open_error(image), Error::MinifatChainLength);
    let mut image = good.clone();
    put_u32(&mut image, 60, 1);
    assert_eq!(open_error(image), Error::MinifatChainLength);
    let mut image = good.clone();
    put_u32(&mut image, 60, 9);
    put_u32(&mut image, 64, 1);
    assert_eq!(open_error(image), Error::BrokenChain);

    // One MiniFAT sector, sector 2.
    let mut with_minifat = good.clone();
    with_minifat.extend_from_slice(&[0xffu8; 512]);
    put_u32(&mut with_minifat, 60, 2);
    put_u32(&mut with_minifat, 64, 1);
    put_u32(&mut with_minifat, 512 + 8, END_OF_CHAIN);
    assert!(CompoundFile::open(Store::new(with_minifat.clone())).is_ok());
    let mut image = with_minifat.clone();
    put_u32(&mut image, 1536, 5);
    assert_eq!(open_error(image), Error::MinifatPointer);
    let mut image = with_minifat.clone();
    put_u32(&mut image, 1536, 2);
    put_u32(&mut image, 1540, 2);
    put_u32(&mut image, 1544, END_OF_CHAIN);
    assert_eq!(open_error(image), Error::MinifatPointedTwice);
    let mut image = with_minifat.clone();
    put_u32(&mut image, 1536, END_OF_CHAIN);
    assert_eq!(open_error(image), Error::RootStreamLen);
}

#[test]
fn directory_faults() {
    let good = empty_image(Version::V3);
    let mut image = good.clone();
    put_u32(&mut image, 48, END_OF_CHAIN);
    assert_eq!(open_error(image), Error::NoRootEntry);
    let mut image = good.clone();
    put_u32(&mut image, 48, 5);
    assert_eq!(open_error(image), Error::BrokenChain);
    let mut image = good.clone();
    put_u32(&mut image, 516, 1);
    assert_eq!(open_error(image), Error::BrokenChain);
    let mut image = good.clone();
    image[1024] = b'r';
    assert_eq!(open_error(image), Error::RootName);
    let mut image = good.clone();
    image[1024 + 120] = 64;
    assert_eq!(open_error(image), Error::RootStreamLen);
    let mut image = good.clone();
    put_u32(&mut image, 1024 + 76, 0);
    assert_eq!(open_error(image), Error::DirectoryLoop);
    let mut image = good.clone();
    put_u32(&mut image, 1024 + 76, 4);
    assert_eq!(open_error(image), Error::ChildIndex);
    let mut image = good.clone();
    put_u32(&mut image, 1024 + 68, 4);
    assert_eq!(open_error(image), Error::SiblingIndex);
    let mut image = good.clone();
    put_u32(&mut image, 1024 + 72, 1);
    assert_eq!(open_error(image), Error::NameOrdering);
}

#[test]
fn siblings_have_to_follow_their_parent() {
    let entry = |name: &str, left: u32, right: u32| DirEntry {
        name: name.encode_utf16().collect(),
        obj_type: OBJ_TYPE_STREAM,
        color: 0,
        left_sibling: left,
        right_sibling: right,
        child: NO_STREAM,
        creation_time: 0,
        modified_time: 0,
        start_sector: END_OF_CHAIN,
        stream_len: 0,
    };
    let mut image = empty_image(Version::V3);
    put_u32(&mut image, 1024 + 76, 1);
    image[1152..1280].copy_from_slice(&entry("m", 2, 3).write());
    image[1280..1408].copy_from_slice(&entry("n", NO_STREAM, NO_STREAM).write());
    image[1408..1536].copy_from_slice(&entry("zz", NO_STREAM, NO_STREAM).write());
    assert!(CompoundFile::open(Store::new(image.clone())).is_ok());
    image[1280..1408].copy_from_slice(&entry("a", NO_STREAM, NO_STREAM).write());
    assert_eq!(open_error(image.clone()), Error::NameOrdering);
    image[1280..1408].copy_from_slice(&entry("M", NO_STREAM, NO_STREAM).write());
    assert_eq!(open_error(image), Error::NameOrdering);
}

#[test]
fn directory_entry_record() {
    let entry = DirEntry {
        name: units("Ab\u{e9}"),
        obj_type: OBJ_TYPE_STREAM,
        color: 1,
        left_sibling: 3,
        right_sibling: NO_STREAM,
        child: 0x0102_0304,
        creation_time: 0x1122_3344_5566_7788,
        modified_time: 2,
        start_sector: 9,
        stream_len: 0x1_0000_0005,
    };
    let record = entry.write();
    assert_eq!(record.len(), 128);
    assert_eq!(&record[..8], &[b'A', 0, b'b', 0, 0xe9, 0, 0, 0]);
    assert!(record[8..64].iter().all(|&b| b == 0));
    assert_eq!(&record[64..68], &[8, 0, 2, 1]);
    assert_eq!(&record[68..80], &[3, 0, 0, 0, 0xff, 0xff, 0xff, 0xff, 4, 3, 2, 1]);
    assert!(record[80..100].iter().all(|&b| b == 0));
    assert_eq!(&record[100..108], &[0x88, 0x77, 0x66, 0x55, 0x44, 0x33, 0x22, 0x11]);
    assert_eq!(&record[108..116], &[2, 0, 0, 0, 0, 0, 0, 0]);
    assert_eq!(&record[116..120], &[9, 0, 0, 0]);
    assert_eq!(&record[120..128], &[5, 0, 0, 0, 1, 0, 0, 0]);

    let back = DirEntry::read(&record, Version::V4).unwrap();
    assert_eq!(back.name, entry.name);
    assert_eq!(back.obj_type, OBJ_TYPE_STREAM);
    assert_eq!(back.color, 1);
    assert_eq!(back.left_sibling, 3);
    assert_eq!(back.right_sibling, NO_STREAM);
    assert_eq!(back.child, 0x0102_0304);
    assert_eq!(back.creation_time, 0x1122_3344_5566_7788);
    assert_eq!(back.modified_time, 2);
    assert_eq!(back.start_sector, 9);
    assert_eq!(back.stream_len, 0x1_0000_0005);
    // Version 3 keeps the low 32 bits of the length.
    assert_eq!(DirEntry::read(&record, Version::V3).unwrap().stream_len, 5);
}

#[test]
fn directory_entry_faults() {
    let good = DirEntry::empty_root().write();
    let fault = |at: usize, bytes: &[u8]| {
        let mut record = good.clone();
        record[at..at + bytes.len()].copy_from_slice(bytes);
        DirEntry::read(&record, Version::V3).err()
    };
    assert_eq!(fault(64, &[66, 0]), Some(Error::NameLength));
    assert_eq!(fault(64, &[21, 0]), Some(Error::NameLength));
    assert_eq!(fault(64, &[20, 0]), Some(Error::NameTerminator));
    assert_eq!(fault(4, &[b'/', 0]), Some(Error::NameCharacter));
    assert_eq!(fault(4, &[b':', 0]), Some(Error::NameCharacter));
    assert_eq!(fault(4, &[7, 0]), Some(Error::NameCharacter));
    assert_eq!(fault(67, &[2]), Some(Error::Color));
    assert_eq!(fault(68, &[0xfb, 0xff, 0xff, 0xff]), Some(Error::LeftSibling));
    assert_eq!(fault(72, &[0xfe, 0xff, 0xff, 0xff]), Some(Error::RightSibling));
    assert_eq!(fault(76, &[0xfc, 0xff, 0xff, 0xff]), Some(Error::Child));
    assert_eq!(fault(64, &[0, 0]), Some(Error::NameTerminator));
    assert!(DirEntry::read(&DirEntry::unallocated().write(), Version::V3).is_ok());
}

#[test]
fn names_are_ordered_by_length_then_without_case() {
    let order = |a: &str, b: &str| compare_names(&units(a), &units(b));
    assert_eq!(order("b", "aa"), NameOrder::Less);
    assert_eq!(order("aaa", "zz"), NameOrder::Greater);
    assert_eq!(order("abc", "ABC"), NameOrder::Equal);
    assert_eq!(order("abc", "ABD"), NameOrder::Less);
    assert_eq!(order("abd", "ABC"), NameOrder::Greater);
    assert_eq!(order("", ""), NameOrder::Equal);
    assert_eq!(order("a{", "A["), NameOrder::Greater);
    assert_eq!(order("\u{e9}", "\u{c9}"), NameOrder::Greater);
    assert_eq!(order("z", "\u{1f600}"), NameOrder::Less);
}

#[test]
fn names_are_validated() {
    assert_eq!(validate_name(&units("Report 2024.doc")), Ok(()));
    assert_eq!(validate_name(&units("")), Err(Error::EmptyName));
    assert_eq!(validate_name(&units(&"x".repeat(31))), Ok(()));
    assert_eq!(validate_name(&units(&"x".repeat(32))), Err(Error::NameTooLong));
    for bad in ["a/b", "a\\b", "a:b", "a!b", "a\u{1}b", "a\u{7f}b", "a\u{9f}b", "\n"] {
        assert_eq!(validate_name(&units(bad)), Err(Error::ForbiddenCharacter));
    }
    assert_eq!(validate_name(&units("a\u{a0}b~")), Ok(()));
    for err in [Error::EmptyName, Error::NameTooLong, Error::ForbiddenCharacter] {
        assert_eq!(err.kind(), ErrorKind::InvalidInput);
    }
}

#[test]
fn paths_are_split_into_names() {
    let chain = |path: &str| name_chain_from_path(&units(path));
    assert_eq!(chain("/"), Ok(vec![]));
    assert_eq!(chain("/a"), Ok(vec![units("a")]));
    assert_eq!(chain("/a/bc/d e"), Ok(vec![units("a"), units("bc"), units("d e")]));
    assert_eq!(chain(""), Err(Error::PathNotAbsolute));
    assert_eq!(chain("a/b"), Err(Error::PathNotAbsolute));
    assert_eq!(Error::PathNotAbsolute.kind(), ErrorKind::InvalidInput);
    assert_eq!(chain("/a/"), Err(Error::EmptyName));
    assert_eq!(chain("//a"), Err(Error::EmptyName));
    assert_eq!(chain("/a/b:c"), Err(Error::ForbiddenCharacter));
    assert_eq!(chain(&format!("/{}", "y".repeat(32))), Err(Error::NameTooLong));
}

#[test]
fn text_is_encoded_as_utf16() {
    assert_eq!(encode_utf16("Root Entry"), units("Root Entry"));
    assert_eq!(encode_utf16(""), Vec::<u16>::new());
    assert_eq!(encode_utf16("\u{e9}\u{20ac}"), vec![0xe9, 0x20ac]);
    assert_eq!(encode_utf16("a\u{1f600}b"), vec![0x61, 0xd83d, 0xde00, 0x62]);
    assert_eq!(encode_utf16("\u{10000}\u{10ffff}"), vec![0xd800, 0xdc00, 0xdbff, 0xdfff]);
}

#[test]
fn names_with_broken_surrogates_are_read_with_a_replacement() {
    let entry = DirEntry {
        name: vec![0x61, 0xd800, 0x62],
        obj_type: OBJ_TYPE_STREAM,
        color: 1,
        left_sibling: NO_STREAM,
        right_sibling: NO_STREAM,
        child: NO_STREAM,
        creation_time: 0,
        modified_time: 0,
        start_sector: END_OF_CHAIN,
        stream_len: 0,
    };
    let mut image = empty_image(Version::V3);
    put_u32(&mut image, 1024 + 76, 1);
    image[1152..1280].copy_from_slice(&entry.write());
    let comp = CompoundFile::open(Store::new(image)).unwrap();
    let found = comp.entry_for_path(&[0x2f, 0x61, 0xd800, 0x62]).unwrap();
    assert_eq!(found.name(), "a\u{fffd}b");
    assert_eq!(found.name_units(), &vec![0x61, 0xd800, 0x62]);
    assert_eq!(found.path_units(), &vec![0x2f, 0x61, 0xd800, 0x62]);
}

#[test]
fn store_reads_and_writes_little_endian() {
    let mut store = Store::new(Vec::new());
    store.write_u16(0x0102).unwrap();
    store.write_u32(0x0304_0506).unwrap();
    store.write_u64(0x0708_090a_0b0c_0d0e).unwrap();
    assert_eq!(store.position(), 14);
    assert_eq!(
        store.get_ref(),
        &vec![2, 1, 6, 5, 4, 3, 0x0e, 0x0d, 0x0c, 0x0b, 0x0a, 9, 8, 7]
    );
    store.seek_to(0);
    assert_eq!(store.read_u16(), Ok(0x0102));
    assert_eq!(store.read_u32(), Ok(0x0304_0506));
    assert_eq!(store.read_u64(), Ok(0x0708_090a_0b0c_0d0e));
    assert_eq!(store.read_u16(), Err(Error::UnexpectedEof));
    assert_eq!(store.position(), 14);
    store.seek_to(13);
    assert_eq!(store.read_u32(), Err(Error::UnexpectedEof));
    assert_eq!(store.read_exact(1), Ok(vec![7]));
}

#[test]
fn store_fills_gaps_with_zeroes() {
    let mut store = Store::new(vec![1, 2, 3]);
    store.seek_to(5);
    store.write_all(&[9, 9]).unwrap();
    assert_eq!(store.get_ref(), &vec![1, 2, 3, 0, 0, 9, 9]);
    store.seek_to(1);
    store.write_all(&[7]).unwrap();
    store.write_zeros(1).unwrap();
    store.write_ones(2).unwrap();
    assert_eq!(store.get_ref(), &vec![1, 7, 0, 0xff, 0xff, 9, 9]);
    store.seek_to(20);
    store.write_all(&[]).unwrap();
    assert_eq!(store.get_ref().len(), 7);
    let mut buf = [0u8; 4];
    assert_eq!(store.read(&mut buf, 0, 4), 0);
    store.seek_to(5);
    assert_eq!(store.read(&mut buf, 1, 3), 2);
    assert_eq!(buf, [0, 9, 9, 0]);
}

#[test]
fn timestamps_count_ticks_since_1601() {
    assert_eq!(timestamp_from_unix_time(0, 0), 116_444_736_000_000_000);
    assert_eq!(timestamp_from_unix_time(1, 0), 116_444_736_010_000_000);
    assert_eq!(timestamp_from_unix_time(1, 999), 116_444_736_010_000_009);
    assert_eq!(timestamp_from_unix_time(1_700_000_000, 123_456_789), 133_444_736_001_234_567);
    assert_eq!(timestamp_from_unix_time(u64::MAX, 0), u64::MAX);
    assert_eq!(unix_time_from_timestamp(116_444_736_000_000_000), (false, 0, 0));
    assert_eq!(
        unix_time_from_timestamp(133_444_736_001_234_567),
        (false, 1_700_000_000, 123_456_700)
    );
    assert_eq!(unix_time_from_timestamp(0), (true, 11_644_473_600, 0));
    assert_eq!(unix_time_from_timestamp(116_444_735_999_999_999), (true, 0, 100));
    assert_eq!(timestamp_before_unix_time(0, 100), 116_444_735_999_999_999);
    assert_eq!(timestamp_before_unix_time(11_644_473_600, 0), 0);
    assert_eq!(timestamp_before_unix_time(11_644_473_600, 100), 0);
    assert_eq!(timestamp_before_unix_time(1, 50), 116_444_735_990_000_000);
}

#[test]
fn version_numbers() {
    assert_eq!(Version::from_number(3), Some(Version::V3));
    assert_eq!(Version::from_number(4), Some(Version::V4));
    assert_eq!(Version::from_number(2), None);
    assert_eq!(Version::V3.number(), 3);
    assert_eq!(Version::V4.number(), 4);
    assert_eq!(Version::V3.sector_shift(), 9);
    assert_eq!(Version::V4.sector_shift(), 12);
    assert_eq!(Version::V3.sector_len(), 512);
    assert_eq!(Version::V4.sector_len(), 4096);
    assert_eq!(Version::V3.stream_len_mask(), 0xffff_ffff);
    assert_eq!(Version::V4.stream_len_mask(), u64::MAX);
}

#[test]
fn a_chain_into_a_free_sector_is_not_sound() {
    let mut image = empty_image(Version::V3);
    image.extend_from_slice(&[0u8; 1536]);
    put_u32(&mut image, 512 + 8, 3);
    put_u32(&mut image, 512 + 16, END_OF_CHAIN);
    let comp = CompoundFile::open(Store::new(image.clone())).unwrap();
    assert!(!comp.is_sound());
    put_u32(&mut image, 512 + 12, END_OF_CHAIN);
    let comp = CompoundFile::open(Store::new(image)).unwrap();
    assert!(comp.is_sound());
}
