use cfb::consts::{END_OF_CHAIN, NO_STREAM, OBJ_TYPE_STREAM};
use cfb::dir_entry::DirEntry;
use cfb::{CompoundFile, Error, ErrorKind, SeekFrom, Store, Version};

fn sector_len(version: Version) -> usize {
    version.sector_len()
}

fn stream_entry(name: &str, left: u32, right: u32) -> DirEntry {
    DirEntry {
        name: name.encode_utf16().collect(),
        obj_type: OBJ_TYPE_STREAM,
        color: 1,
        left_sibling: left,
        right_sibling: right,
        child: NO_STREAM,
        creation_time: 0,
        modified_time: 0,
        start_sector: END_OF_CHAIN,
        stream_len: 0,
    }
}

fn put_u32(image: &mut [u8], at: usize, value: u32) {
    image[at..at + 4].copy_from_slice(&value.to_le_bytes());
}

/// An image whose root storage holds the empty streams "a" and "bb".
fn image_with_streams(version: Version) -> Vec<u8> {
    let comp = CompoundFile::create_with_version(Store::new(Vec::new()), version).unwrap();
    let mut image = comp.into_inner().into_inner();
    let dir = 2 * sector_len(version);
    put_u32(&mut image, dir + 76, 1);
    image[dir + 128..dir + 256].copy_from_slice(&stream_entry("a", NO_STREAM, 2).write());
    image[dir + 256..dir + 384].copy_from_slice(&stream_entry("bb", NO_STREAM, NO_STREAM).write());
    image
}

fn pattern(len: usize) -> Vec<u8> {
    (0..len).map(|i| (i * 7 + 3) as u8).collect()
}

#[test]
fn open_image_with_streams() {
    let comp = CompoundFile::open(Store::new(image_with_streams(Version::V3))).unwrap();
    let a = comp.entry("/a").unwrap();
    assert_eq!(a.name(), "a");
    assert_eq!(a.path(), "/a");
    assert!(a.is_stream());
    assert!(!a.is_storage());
    assert!(!a.is_root());
    assert_eq!(a.len(), 0);
    let bb = comp.entry("/bb").unwrap();
    assert_eq!(bb.name(), "bb");
    assert_eq!(comp.read_storage("/").unwrap().count(), 2);
}

#[test]
fn listing_is_in_tree_order() {
    let comp = CompoundFile::open(Store::new(image_with_streams(Version::V4))).unwrap();
    let mut listing = comp.read_storage("/").unwrap();
    let first = listing.next().unwrap();
    assert_eq!(first.name(), "a");
    assert_eq!(first.path(), "/a");
    let second = listing.next().unwrap();
    assert_eq!(second.name(), "bb");
    assert_eq!(second.path(), "/bb");
    assert!(listing.next().is_none());
    assert!(listing.next().is_none());
}

#[test]
fn lookup_ignores_ascii_case() {
    let comp = CompoundFile::open(Store::new(image_with_streams(Version::V3))).unwrap();
    assert_eq!(comp.entry("/A").unwrap().name(), "a");
    assert_eq!(comp.entry("/Bb").unwrap().name(), "bb");
    assert_eq!(comp.entry("/c").err(), Some(Error::NoSuchObject));
}

#[test]
fn open_stream_wants_a_stream() {
    let mut comp = CompoundFile::open(Store::new(image_with_streams(Version::V3))).unwrap();
    assert_eq!(comp.open_stream("/").err(), Some(Error::NotAStream));
    assert_eq!(Error::NotAStream.kind(), ErrorKind::InvalidInput);
    assert_eq!(comp.open_stream("/zz").err(), Some(Error::NoSuchObject));
    assert_eq!(Error::NoSuchObject.kind(), ErrorKind::NotFound);
    assert!(comp.open_stream("/a").is_ok());
}

#[test]
fn write_then_read_back_within_one_mini_sector() {
    let mut comp = CompoundFile::open(Store::new(image_with_streams(Version::V3))).unwrap();
    let mut stream = comp.open_stream("/a").unwrap();
    let data = pattern(40);
    assert_eq!(stream.write(&data).unwrap(), 40);
    assert_eq!(stream.len(), 40);
    assert_eq!(stream.position(), 40);
    assert_eq!(stream.seek(SeekFrom::Start(0)).unwrap(), 40);
    let mut back = vec![0u8; 40];
    stream.read_exact(&mut back).unwrap();
    assert_eq!(back, data);
}

#[test]
fn one_write_stays_inside_one_sector() {
    let mut comp = CompoundFile::open(Store::new(image_with_streams(Version::V3))).unwrap();
    let mut stream = comp.open_stream("/a").unwrap();
    let data = pattern(100);
    assert_eq!(stream.write(&data).unwrap(), 64);
    assert_eq!(stream.write(&data[64..]).unwrap(), 36);
    assert_eq!(stream.len(), 100);
    stream.seek(SeekFrom::Start(60)).unwrap();
    let mut buf = [0u8; 16];
    assert_eq!(stream.read(&mut buf).unwrap(), 4);
    assert_eq!(&buf[..4], &data[60..64]);
    assert_eq!(stream.read(&mut buf).unwrap(), 16);
    assert_eq!(&buf[..], &data[64..80]);
}

#[test]
fn write_and_read_4000_bytes_in_the_mini_stream() {
    for version in [Version::V3, Version::V4] {
        let mut comp = CompoundFile::open(Store::new(image_with_streams(version))).unwrap();
        let data = pattern(4000);
        {
            let mut stream = comp.open_stream("/a").unwrap();
            assert!(stream.is_intact());
            stream.write_all(&data).unwrap();
            assert!(stream.is_intact());
            assert_eq!(stream.len(), 4000);
            stream.seek(SeekFrom::Start(0)).unwrap();
            let mut back = vec![0u8; 4000];
            stream.read_exact(&mut back).unwrap();
            assert_eq!(back, data);
            stream.flush_at(77).unwrap();
        }
        assert_eq!(comp.entry("/a").unwrap().len(), 4000);
        assert_eq!(comp.entry("/a").unwrap().modified(), 77);
        assert_eq!(comp.entry("/").unwrap().len(), 64 * 63);

        let mut comp = CompoundFile::open(comp.into_inner()).expect("reopen");
        assert_eq!(comp.entry("/a").unwrap().len(), 4000);
        assert_eq!(comp.entry("/a").unwrap().modified(), 77);
        assert_eq!(comp.entry("/").unwrap().len(), 64 * 63);
        let mut stream = comp.open_stream("/a").unwrap();
        let mut back = vec![0u8; 4000];
        stream.read_exact(&mut back).unwrap();
        assert_eq!(back, data);
        let mut more = [0u8; 1];
        assert_eq!(stream.read(&mut more).unwrap(), 0);
        assert_eq!(stream.read_exact(&mut more).err(), Some(Error::UnexpectedEof));
    }
}

#[test]
fn two_streams_do_not_disturb_each_other() {
    let mut comp = CompoundFile::open(Store::new(image_with_streams(Version::V3))).unwrap();
    let first = pattern(1000);
    let second: Vec<u8> = pattern(700).into_iter().map(|b| b ^ 0x55).collect();
    {
        let mut stream = comp.open_stream("/a").unwrap();
        stream.write_all(&first[..300]).unwrap();
        stream.flush_at(1).unwrap();
    }
    {
        let mut stream = comp.open_stream("/bb").unwrap();
        stream.write_all(&second).unwrap();
        stream.flush_at(2).unwrap();
    }
    {
        let mut stream = comp.open_stream("/a").unwrap();
        assert!(stream.is_intact());
        stream.seek(SeekFrom::End(0)).unwrap();
        stream.write_all(&first[300..]).unwrap();
        stream.flush_at(3).unwrap();
        assert!(stream.is_intact());
    }
    let mut comp = CompoundFile::open(comp.into_inner()).expect("reopen");
    let mut back = vec![0u8; 1000];
    comp.open_stream("/a").unwrap().read_exact(&mut back).unwrap();
    assert_eq!(back, first);
    let mut back = vec![0u8; 700];
    comp.open_stream("/bb").unwrap().read_exact(&mut back).unwrap();
    assert_eq!(back, second);
    assert_eq!(comp.entry("/").unwrap().len(), 64 * (16 + 11));
}

#[test]
fn writing_5000_bytes_is_not_supported() {
    let mut comp = CompoundFile::open(Store::new(image_with_streams(Version::V3))).unwrap();
    let mut stream = comp.open_stream("/a").unwrap();
    let err = stream.write_all(&pattern(5000)).err().unwrap();
    assert_eq!(err, Error::MiniStreamMigration);
    assert_eq!(err.kind(), ErrorKind::Unsupported);
    assert_eq!(err.message(), "migrating out of mini stream not supported");
    assert_eq!(stream.len(), 4032);
    assert_eq!(stream.position(), 4032);
}

#[test]
fn overwrite_in_the_middle() {
    let mut comp = CompoundFile::open(Store::new(image_with_streams(Version::V4))).unwrap();
    let mut stream = comp.open_stream("/bb").unwrap();
    let mut data = pattern(500);
    stream.write_all(&data).unwrap();
    stream.seek(SeekFrom::Start(120)).unwrap();
    stream.write_all(&[9u8; 20]).unwrap();
    data[120..140].copy_from_slice(&[9u8; 20]);
    assert_eq!(stream.len(), 500);
    assert_eq!(stream.seek(SeekFrom::Current(-140)).unwrap(), 140);
    let mut back = vec![0u8; 500];
    stream.read_exact(&mut back).unwrap();
    assert_eq!(back, data);
}

#[test]
fn seek_cannot_leave_the_stream() {
    let mut comp = CompoundFile::open(Store::new(image_with_streams(Version::V3))).unwrap();
    let mut stream = comp.open_stream("/a").unwrap();
    stream.write_all(&pattern(10)).unwrap();
    assert_eq!(stream.seek(SeekFrom::Start(11)).err(), Some(Error::SeekOutOfRange));
    assert_eq!(stream.seek(SeekFrom::End(1)).err(), Some(Error::SeekOutOfRange));
    assert_eq!(stream.seek(SeekFrom::Current(-11)).err(), Some(Error::SeekOutOfRange));
    assert_eq!(Error::SeekOutOfRange.kind(), ErrorKind::InvalidInput);
    assert_eq!(stream.position(), 10);
    assert_eq!(stream.seek(SeekFrom::End(-4)).unwrap(), 10);
    assert_eq!(stream.position(), 6);
    assert_eq!(stream.seek(SeekFrom::Start(10)).unwrap(), 6);
}

#[test]
fn seek_then_read_gives_the_bytes_at_that_position() {
    let mut comp = CompoundFile::open(Store::new(image_with_streams(Version::V3))).unwrap();
    let mut stream = comp.open_stream("/a").unwrap();
    let data = pattern(900);
    stream.write_all(&data).unwrap();
    for (k, n) in [(0usize, 900usize), (63, 2), (64, 64), (100, 300), (899, 1), (900, 0)] {
        stream.seek(SeekFrom::Start(k as u64)).unwrap();
        let mut back = vec![0u8; n];
        stream.read_exact(&mut back).unwrap();
        assert_eq!(&back[..], &data[k..k + n]);
    }
}

#[test]
fn touch_sets_the_modified_time() {
    let mut comp = CompoundFile::open(Store::new(image_with_streams(Version::V3))).unwrap();
    comp.touch_at("/bb", 123_456_789).unwrap();
    assert_eq!(comp.entry("/bb").unwrap().modified(), 123_456_789);
    assert_eq!(comp.entry("/a").unwrap().modified(), 0);
    comp.touch_at("/", 5).unwrap();
    assert_eq!(comp.entry("/").unwrap().modified(), 0);
    assert_eq!(comp.touch_at("/nope", 5).err(), Some(Error::NoSuchObject));
    comp.flush().unwrap();
    let comp = CompoundFile::open(comp.into_inner()).expect("reopen");
    assert_eq!(comp.entry("/bb").unwrap().modified(), 123_456_789);
    assert_eq!(comp.entry("/bb").unwrap().created(), 0);
}

#[test]
fn touch_uses_the_clock() {
    let mut comp = CompoundFile::open(Store::new(image_with_streams(Version::V3))).unwrap();
    comp.touch("/a").unwrap();
    // Any moment after the year 2020.
    assert!(comp.entry("/a").unwrap().modified() > 132_000_000_000_000_000);
}

#[test]
fn a_stream_in_the_sectors_of_the_directory_is_not_intact() {
    let mut image = image_with_streams(Version::V3);
    // The mini stream is made to begin in the sector of the directory.
    image.extend_from_slice(&[0xffu8; 512]);
    put_u32(&mut image, 60, 2);
    put_u32(&mut image, 64, 1);
    put_u32(&mut image, 512 + 8, END_OF_CHAIN);
    put_u32(&mut image, 1536, END_OF_CHAIN);
    put_u32(&mut image, 1024 + 116, 1);
    image[1024 + 120] = 64;
    let mut comp = CompoundFile::open(Store::new(image)).unwrap();
    assert!(!comp.open_stream("/a").unwrap().is_intact());
}

#[test]
fn the_minifat_grows_by_a_sector_when_it_is_full() {
    // Three streams of 4000 bytes need 189 mini sectors; one sector of the
    // MiniFAT of version 3 holds 128 entries.
    let mut image = image_with_streams(Version::V3);
    let dir = 2 * sector_len(Version::V3);
    image[dir + 256..dir + 384].copy_from_slice(&stream_entry("bb", NO_STREAM, 3).write());
    image[dir + 384..dir + 512].copy_from_slice(&stream_entry("ccc", NO_STREAM, NO_STREAM).write());
    let mut comp = CompoundFile::open(Store::new(image)).unwrap();
    let contents: Vec<Vec<u8>> = (0..3u8)
        .map(|k| pattern(4000).into_iter().map(|b| b.wrapping_add(k)).collect())
        .collect();
    for (path, data) in ["/a", "/bb", "/ccc"].iter().zip(contents.iter()) {
        let mut stream = comp.open_stream(path).unwrap();
        assert!(stream.is_intact());
        stream.write_all(data).unwrap();
        stream.flush_at(9).unwrap();
        assert!(stream.is_intact());
    }
    assert!(comp.is_sound());
    assert_eq!(comp.entry("/").unwrap().len(), 64 * 189);
    let store = comp.into_inner();
    // The header counts two sectors of the MiniFAT.
    assert_eq!(&store.get_ref()[64..68], &[2, 0, 0, 0]);
    let mut comp = CompoundFile::open(store).expect("reopen");
    assert!(comp.is_sound());
    assert_eq!(comp.entry("/").unwrap().len(), 64 * 189);
    for (path, data) in ["/a", "/bb", "/ccc"].iter().zip(contents.iter()) {
        let mut stream = comp.open_stream(path).unwrap();
        assert!(stream.is_intact());
        let mut back = vec![0u8; 4000];
        stream.read_exact(&mut back).unwrap();
        assert_eq!(&back, data);
    }
}

#[test]
fn a_read_stops_at_the_end_of_a_sector_and_of_the_stream() {
    let mut comp = CompoundFile::open(Store::new(image_with_streams(Version::V4))).unwrap();
    let mut stream = comp.open_stream("/a").unwrap();
    let data = pattern(130);
    stream.write_all(&data).unwrap();
    stream.seek(SeekFrom::Start(0)).unwrap();
    let mut buf = [0u8; 200];
    assert_eq!(stream.read(&mut buf).unwrap(), 64);
    assert_eq!(stream.read(&mut buf[64..]).unwrap(), 64);
    assert_eq!(stream.read(&mut buf[128..]).unwrap(), 2);
    assert_eq!(stream.read(&mut buf[130..]).unwrap(), 0);
    assert_eq!(&buf[..130], &data[..]);
    assert_eq!(stream.read(&mut []).unwrap(), 0);
    assert_eq!(stream.write(&[]).unwrap(), 0);
    assert_eq!(stream.position(), 130);
}

#[test]
fn directory_updates_are_not_supported() {
    let mut comp = CompoundFile::create(Store::new(Vec::new())).unwrap();
    assert_eq!(comp.create_storage("/x").err(), Some(Error::DirectoryUpdate));
    assert_eq!(comp.remove_storage("/x").err(), Some(Error::DirectoryUpdate));
    assert_eq!(comp.create_stream("/x").err(), Some(Error::DirectoryUpdate));
    assert_eq!(comp.remove_stream("/x").err(), Some(Error::DirectoryUpdate));
    assert_eq!(comp.rename("/x", "/y").err(), Some(Error::DirectoryUpdate));
    assert_eq!(Error::DirectoryUpdate.kind(), ErrorKind::Unsupported);
}
