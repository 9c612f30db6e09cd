use cfb::consts::{END_OF_CHAIN, FAT_SECTOR, FREE_SECTOR, NO_STREAM, OBJ_TYPE_STORAGE, OBJ_TYPE_STREAM};
use cfb::dir_entry::DirEntry;
use cfb::{CompoundFile, Error, ErrorKind, SeekFrom, Store, Version};

fn entry(name: &str, obj_type: u8, child: u32, right: u32, start: u32, len: u64) -> DirEntry {
    DirEntry {
        name: name.encode_utf16().collect(),
        obj_type,
        color: 1,
        left_sibling: NO_STREAM,
        right_sibling: right,
        child,
        creation_time: 11,
        modified_time: 22,
        start_sector: start,
        stream_len: len,
    }
}

fn put_u32(image: &mut [u8], at: usize, value: u32) {
    image[at..at + 4].copy_from_slice(&value.to_le_bytes());
}

fn get_u32(image: &[u8], at: usize) -> u32 {
    u32::from_le_bytes([image[at], image[at + 1], image[at + 2], image[at + 3]])
}

fn pattern(len: usize) -> Vec<u8> {
    (0..len).map(|i| (i * 13 + 5) as u8).collect()
}

/// A version 3 image with the storage "dir" in the root, and in it the
/// stream "big" of 5000 bytes in the sectors 2 to 11.
fn image_with_big_stream() -> Vec<u8> {
    let comp = CompoundFile::create_with_version(Store::new(Vec::new()), Version::V3).unwrap();
    let mut image = comp.into_inner().into_inner();
    put_u32(&mut image, 1024 + 76, 1);
    image[1024 + 128..1024 + 256]
        .copy_from_slice(&entry("dir", OBJ_TYPE_STORAGE, 2, NO_STREAM, 0, 0).write());
    image[1024 + 256..1024 + 384]
        .copy_from_slice(&entry("big", OBJ_TYPE_STREAM, NO_STREAM, NO_STREAM, 2, 5000).write());
    for sector in 2u32..12 {
        let next = if sector == 11 { END_OF_CHAIN } else { sector + 1 };
        put_u32(&mut image, 512 + 4 * sector as usize, next);
    }
    let mut data = pattern(5000);
    data.resize(10 * 512, 0);
    image.extend_from_slice(&data);
    image
}

#[test]
fn nested_paths_resolve() {
    let comp = CompoundFile::open(Store::new(image_with_big_stream())).unwrap();
    let dir = comp.entry("/dir").unwrap();
    assert!(dir.is_storage());
    assert!(!dir.is_root());
    assert!(!dir.is_stream());
    let big = comp.entry("/dir/big").unwrap();
    assert_eq!(big.name(), "big");
    assert_eq!(big.path(), "/dir/big");
    assert_eq!(big.len(), 5000);
    assert_eq!(big.created(), 11);
    assert_eq!(big.modified(), 22);
    assert_eq!(comp.entry("/big").err(), Some(Error::NoSuchObject));
    assert_eq!(comp.entry("/dir/big/x").err(), Some(Error::NoSuchObject));
    let mut listing = comp.read_storage("/dir").unwrap();
    assert_eq!(listing.next().unwrap().path(), "/dir/big");
    assert!(listing.next().is_none());
    assert_eq!(comp.read_storage("/").unwrap().count(), 1);
    assert_eq!(comp.read_storage("/dir/big").unwrap().count(), 0);
}

#[test]
fn read_a_stream_in_regular_sectors() {
    let mut comp = CompoundFile::open(Store::new(image_with_big_stream())).unwrap();
    let data = pattern(5000);
    let mut stream = comp.open_stream("/dir/big").unwrap();
    assert_eq!(stream.len(), 5000);
    let mut buf = vec![0u8; 5000];
    assert_eq!(stream.read(&mut buf).unwrap(), 512);
    assert_eq!(&buf[..512], &data[..512]);
    assert_eq!(stream.seek(SeekFrom::Start(0)).unwrap(), 512);
    stream.read_exact(&mut buf).unwrap();
    assert_eq!(buf, data);
    assert_eq!(stream.read(&mut buf).unwrap(), 0);
    stream.seek(SeekFrom::Start(1000)).unwrap();
    let mut part = vec![0u8; 2000];
    stream.read_exact(&mut part).unwrap();
    assert_eq!(&part[..], &data[1000..3000]);
    stream.seek(SeekFrom::End(-1)).unwrap();
    let mut last = [0u8; 2];
    assert_eq!(stream.read(&mut last).unwrap(), 1);
    assert_eq!(last[0], data[4999]);
}

#[test]
fn append_to_a_stream_in_regular_sectors() {
    let mut comp = CompoundFile::open(Store::new(image_with_big_stream())).unwrap();
    assert!(comp.is_sound());
    let mut data = pattern(5000);
    let more: Vec<u8> = (0..3000).map(|i| (i % 251) as u8).collect();
    {
        let mut stream = comp.open_stream("/dir/big").unwrap();
        assert!(stream.is_intact());
        stream.seek(SeekFrom::End(0)).unwrap();
        stream.write_all(&more).unwrap();
        assert!(stream.is_intact());
        assert_eq!(stream.len(), 8000);
        assert_eq!(stream.position(), 8000);
        stream.flush_at(99).unwrap();
    }
    data.extend_from_slice(&more);
    assert!(comp.is_sound());
    let store = comp.into_inner();
    // 16 sectors of data after the header, the FAT and the directory.
    assert_eq!(store.get_ref().len(), 512 * (3 + 16));
    assert_eq!(get_u32(store.get_ref(), 512 + 4 * 11), 12);
    assert_eq!(get_u32(store.get_ref(), 512 + 4 * 17), END_OF_CHAIN);
    assert_eq!(get_u32(store.get_ref(), 512 + 4 * 18), FREE_SECTOR);
    let mut comp = CompoundFile::open(store).expect("reopen");
    assert_eq!(comp.entry("/dir/big").unwrap().len(), 8000);
    assert_eq!(comp.entry("/dir/big").unwrap().modified(), 99);
    let mut back = vec![0u8; 8000];
    comp.open_stream("/dir/big").unwrap().read_exact(&mut back).unwrap();
    assert_eq!(back, data);
}

#[test]
fn the_fat_grows_by_a_sector_when_it_is_full() {
    let mut comp = CompoundFile::open(Store::new(image_with_big_stream())).unwrap();
    let more: Vec<u8> = (0..70_000).map(|i| (i % 253) as u8).collect();
    {
        let mut stream = comp.open_stream("/dir/big").unwrap();
        stream.seek(SeekFrom::Start(5000)).unwrap();
        stream.write_all(&more).unwrap();
        assert_eq!(stream.len(), 75_000);
        stream.flush_at(1).unwrap();
    }
    assert!(comp.is_sound());
    let store = comp.into_inner();
    // Two FAT sectors are listed in the header now, and counted there.
    assert_eq!(get_u32(store.get_ref(), 44), 2);
    assert_eq!(get_u32(store.get_ref(), 76), 0);
    assert_eq!(get_u32(store.get_ref(), 80), 128);
    assert_eq!(get_u32(store.get_ref(), 84), FREE_SECTOR);
    // Sector 128 holds the second part of the FAT and is marked in it.
    assert_eq!(get_u32(store.get_ref(), 512 * 129), FAT_SECTOR);
    let mut comp = CompoundFile::open(store).expect("reopen");
    assert!(comp.is_sound());
    let mut back = vec![0u8; 70_000];
    let mut stream = comp.open_stream("/dir/big").unwrap();
    stream.seek(SeekFrom::Start(5000)).unwrap();
    stream.read_exact(&mut back).unwrap();
    assert_eq!(back, more);
}

#[test]
fn overwrite_across_sector_boundaries() {
    let mut comp = CompoundFile::open(Store::new(image_with_big_stream())).unwrap();
    let mut data = pattern(5000);
    let mut stream = comp.open_stream("/dir/big").unwrap();
    stream.seek(SeekFrom::Start(500)).unwrap();
    assert_eq!(stream.write(&[1u8; 100]).unwrap(), 12);
    assert_eq!(stream.write(&[2u8; 100]).unwrap(), 100);
    data[500..512].copy_from_slice(&[1u8; 12]);
    data[512..612].copy_from_slice(&[2u8; 100]);
    assert_eq!(stream.len(), 5000);
    stream.seek(SeekFrom::Start(0)).unwrap();
    let mut back = vec![0u8; 5000];
    stream.read_exact(&mut back).unwrap();
    assert_eq!(back, data);
}

#[test]
fn a_110th_fat_sector_is_not_supported() {
    let mut comp = CompoundFile::open(Store::new(image_with_big_stream())).unwrap();
    let chunk = vec![7u8; 512 * 1024];
    let mut stream = comp.open_stream("/dir/big").unwrap();
    stream.seek(SeekFrom::End(0)).unwrap();
    let mut failure = None;
    for _ in 0..16 {
        if let Err(err) = stream.write_all(&chunk) {
            failure = Some(err);
            break;
        }
    }
    assert_eq!(failure, Some(Error::DifatOverflow));
    assert_eq!(Error::DifatOverflow.kind(), ErrorKind::Unsupported);
    // 109 FAT sectors of 128 entries each hold 13952 sectors; all but those
    // of the FAT, the directory and the first two belong to the stream.
    assert_eq!(stream.len(), 512 * (13952 - 109 - 1));
}

#[test]
fn a_free_sector_is_used_again() {
    let mut image = image_with_big_stream();
    // Cut the chain of the stream after its tenth sector 11 and leave a
    // hole at sector 12 between it and a sector in use.
    image.extend_from_slice(&[0u8; 1024]);
    put_u32(&mut image, 512 + 4 * 12, FREE_SECTOR);
    put_u32(&mut image, 512 + 4 * 13, END_OF_CHAIN);
    let mut comp = CompoundFile::open(Store::new(image)).unwrap();
    {
        let mut stream = comp.open_stream("/dir/big").unwrap();
        stream.seek(SeekFrom::Start(5000)).unwrap();
        stream.write_all(&[3u8; 200]).unwrap();
        stream.write_all(&[4u8; 600]).unwrap();
    }
    let store = comp.into_inner();
    assert_eq!(get_u32(store.get_ref(), 512 + 4 * 11), 12);
    assert_eq!(get_u32(store.get_ref(), 512 + 4 * 12), 14);
    assert_eq!(get_u32(store.get_ref(), 512 + 4 * 13), END_OF_CHAIN);
    assert_eq!(get_u32(store.get_ref(), 512 + 4 * 14), END_OF_CHAIN);
    assert_eq!(store.get_ref().len(), 512 * 16);
}
