//! The compound file: an image in a backing store, with its tables and its
//! directory held in memory.

use crate::consts::{root_name, DIR_ENTRY_LEN, END_OF_CHAIN, FAT_SECTOR, MINI_SECTOR_LEN};
use crate::dir_entry::{entries_view, DirEntry, EntryView};
use crate::empty::{build_empty_image, empty_image, empty_layout};
use crate::error::Error;
use crate::image::{
    addressable, all_storable, decode_image, indexable, load_difat, load_directory, load_fat,
    load_minifat, read_header, Header, Layout,
};
use crate::round_trip::{lemma_empty_image_decodes, lemma_empty_layout_ok};
use crate::store::{lemma_written_at, written_at, Store};
use crate::tables::{difat_ok, in_bounds, table_ok};
use crate::tree::is_forest;
use crate::version::Version;
use vstd::prelude::*;

verus! {

/// A compound file, backed by a store.
pub struct CompoundFile {
    pub(crate) inner: Store,
    pub(crate) version: Version,
    pub(crate) difat: Vec<u32>,
    pub(crate) fat: Vec<u32>,
    pub(crate) minifat: Vec<u32>,
    pub(crate) minifat_start_sector: u32,
    pub(crate) directory: Vec<DirEntry>,
    pub(crate) directory_start_sector: u32,
}

/// The FAT has room for no more entries than the sectors of the DIFAT hold.
pub open spec fn fat_fits(l: Layout) -> bool {
    match l.version {
        Version::V3 => l.fat.len() <= 128 * l.difat.len(),
        Version::V4 => l.fat.len() <= 1024 * l.difat.len(),
    }
}

/// What holds of the tables and the directory of a compound file at every
/// step of an operation.
pub open spec fn layout_base(l: Layout) -> bool {
    &&& fat_fits(l)
    &&& addressable(l.version, l.fat.len())
    &&& difat_ok(l.difat, l.fat)
    &&& in_bounds(l.fat)
    &&& in_bounds(l.minifat)
    &&& indexable(l.minifat.len())
    &&& (l.minifat_start_sector == END_OF_CHAIN ==> l.minifat.len() == 0)
    &&& l.directory_start_sector < l.fat.len()
    &&& l.directory.len() > 0
    &&& all_storable(l.directory)
    &&& l.directory[0].name == root_name()
    &&& is_forest(l.directory)
}

/// What holds of a compound file between any two operations: the mini
/// stream, which is the stream of the root entry, has 64 bytes for each
/// entry of the MiniFAT.
pub open spec fn layout_ok(l: Layout) -> bool {
    &&& layout_base(l)
    &&& l.directory[0].stream_len == MINI_SECTOR_LEN * l.minifat.len()
}

/// A compound file as a whole: what it holds in memory and the bytes of its
/// image.
pub struct Disk {
    pub layout: Layout,
    pub bytes: Seq<u8>,
}

impl CompoundFile {
    /// The tables and the directory, as the file holds them in memory.
    pub open(crate) spec fn layout(&self) -> Layout {
        Layout {
            version: self.version,
            difat: self.difat@,
            fat: self.fat@,
            minifat: self.minifat@,
            minifat_start_sector: self.minifat_start_sector,
            directory: entries_view(self.directory@),
            directory_start_sector: self.directory_start_sector,
        }
    }

    /// The bytes of the backing store.
    pub open(crate) spec fn bytes(&self) -> Seq<u8> {
        self.inner.data@
    }

    /// The position of the backing store.
    pub open(crate) spec fn position(&self) -> u64 {
        self.inner.pos
    }

    /// What holds of a compound file at every step of an operation.
    pub open(crate) spec fn base(&self) -> bool {
        layout_base(self.layout())
    }

    /// The invariant of a compound file.
    pub open(crate) spec fn wf(&self) -> bool {
        layout_ok(self.layout())
    }

    /// The tables, the directory and the image.
    pub open(crate) spec fn disk(&self) -> Disk {
        Disk { layout: self.layout(), bytes: self.bytes() }
    }

    /// The format version of this compound file.
    pub fn version(&self) -> (r: Version)
        ensures
            r == self.layout().version,
    {
        self.version
    }

    /// Gives up the compound file for its backing store.
    pub fn into_inner(self) -> (r: Store)
        ensures
            r.data@ == self.bytes(),
            r.pos == self.position(),
    {
        self.inner
    }

    /// Sets the start sector of an entry other than the root, in memory.
    pub(crate) fn set_entry_start(&mut self, id: u32, start: u32)
        requires
            old(self).wf(),
            0 < id < old(self).layout().directory.len(),
        ensures
            final(self).wf(),
            final(self).bytes() == old(self).bytes(),
            final(self).position() == old(self).position(),
            final(self).layout() == crate::stream::with_start(old(self).layout(), id, start),
    {
        let ghost l0 = self.layout();
        self.directory[id as usize].start_sector = start;
        proof {
            let e2 = EntryView { start_sector: start, ..l0.directory[id as int] };
            assert(self.layout().directory =~= l0.directory.update(id as int, e2));
            crate::stream::lemma_entry_update(l0, id, e2);
        }
    }

    /// Sets the length of an entry other than the root, in memory.
    pub(crate) fn set_entry_len(&mut self, id: u32, len: u64)
        requires
            old(self).wf(),
            0 < id < old(self).layout().directory.len(),
        ensures
            final(self).wf(),
            final(self).bytes() == old(self).bytes(),
            final(self).position() == old(self).position(),
            final(self).layout() == crate::stream::with_len(old(self).layout(), id, len),
    {
        let ghost l0 = self.layout();
        self.directory[id as usize].stream_len = len;
        proof {
            let e2 = EntryView { stream_len: len, ..l0.directory[id as int] };
            assert(self.layout().directory =~= l0.directory.update(id as int, e2));
            crate::stream::lemma_entry_update(l0, id, e2);
        }
    }

    /// Sets the time of modification of an entry other than the root, in
    /// memory.
    pub(crate) fn set_entry_modified(&mut self, id: u32, time: u64)
        requires
            old(self).wf(),
            0 < id < old(self).layout().directory.len(),
        ensures
            final(self).wf(),
            final(self).bytes() == old(self).bytes(),
            final(self).position() == old(self).position(),
            final(self).layout() == crate::stream::with_modified(old(self).layout(), id, time),
    {
        let ghost l0 = self.layout();
        self.directory[id as usize].modified_time = time;
        proof {
            let e2 = EntryView { modified_time: time, ..l0.directory[id as int] };
            assert(self.layout().directory =~= l0.directory.update(id as int, e2));
            crate::stream::lemma_entry_update(l0, id, e2);
        }
    }

    /// The record of a directory entry.
    pub(crate) fn entry_record(&self, id: u32) -> (r: Vec<u8>)
        requires
            self.wf(),
            id < self.layout().directory.len(),
        ensures
            r@ == crate::dir_entry::encode_entry(self.layout().directory[id as int]),
            r@.len() == DIR_ENTRY_LEN,
    {
        assert(self.layout().directory[id as int] == self.directory@[id as int]@);
        self.directory[id as usize].write()
    }

    /// Hands all changes to the backing store, which holds them already:
    /// every change is written through when it is made.
    pub fn flush(&mut self) -> (r: Result<(), Error>)
        ensures
            r == Ok::<(), Error>(()),
            *final(self) == *old(self),
    {
        Ok(())
    }

    /// The root entry.
    pub fn root_dir_entry(&self) -> (r: &DirEntry)
        requires
            self.wf(),
        ensures
            r@ == self.layout().directory[0],
    {
        &self.directory[0]
    }

    /// Writes an empty compound file of the newest version at the start of
    /// a store, which should be empty.
    pub fn create(inner: Store) -> (r: Result<CompoundFile, Error>)
        ensures
            r is Ok,
            r->Ok_0.wf(),
            crate::sectors::sound(r->Ok_0.layout()),
            r->Ok_0.layout() == empty_layout(Version::V4),
            r->Ok_0.bytes() == written_at(inner.data@, 0, empty_image(Version::V4)),
            inner.data@.len() == 0 ==> {
                &&& r->Ok_0.bytes() == empty_image(Version::V4)
                &&& r->Ok_0.bytes().len() == 3 * Version::V4.sector_len_spec()
                &&& decode_image(r->Ok_0.bytes()) == Ok::<Layout, Error>(r->Ok_0.layout())
            },
    {
        CompoundFile::create_with_version(inner, Version::V4)
    }

    /// Writes an empty compound file of the given version at the start of a
    /// store, which should be empty: a header, one FAT sector and one
    /// directory sector.  On an empty store the image is three sectors long
    /// and reads back as the file that is returned.
    pub fn create_with_version(inner: Store, version: Version) -> (r: Result<CompoundFile, Error>)
        ensures
            r is Ok,
            r->Ok_0.wf(),
            crate::sectors::sound(r->Ok_0.layout()),
            r->Ok_0.layout() == empty_layout(version),
            r->Ok_0.bytes() == written_at(inner.data@, 0, empty_image(version)),
            inner.data@.len() == 0 ==> {
                &&& r->Ok_0.bytes() == empty_image(version)
                &&& r->Ok_0.bytes().len() == 3 * version.sector_len_spec()
                &&& decode_image(r->Ok_0.bytes()) == Ok::<Layout, Error>(r->Ok_0.layout())
            },
    {
        let ghost before = inner.data@;
        let mut inner = inner;
        let image: Vec<u8> = build_empty_image(version);
        inner.seek_to(0);
        match inner.write_all(image.as_slice()) {
            Ok(()) => {},
            Err(e) => {
                return Err(e);
            },
        }
        let mut difat: Vec<u32> = Vec::new();
        difat.push(0);
        let mut fat: Vec<u32> = Vec::new();
        fat.push(FAT_SECTOR);
        fat.push(END_OF_CHAIN);
        let mut directory: Vec<DirEntry> = Vec::new();
        directory.push(DirEntry::empty_root());
        let per: usize = version.sector_len() / DIR_ENTRY_LEN;
        let mut i: usize = 1;
        while i < per
            invariant
                1 <= i <= per,
                per == version.dir_entries_per_sector(),
                directory@.len() == i,
                directory@[0]@ == EntryView::empty_root(),
                forall|j: int| 1 <= j < i ==> (#[trigger] directory@[j])@ == EntryView::unallocated(),
            decreases per - i,
        {
            directory.push(DirEntry::unallocated());
            i = i + 1;
        }
        let comp = CompoundFile {
            inner,
            version,
            difat,
            fat,
            minifat: Vec::new(),
            minifat_start_sector: END_OF_CHAIN,
            directory,
            directory_start_sector: 1,
        };
        proof {
            let l = comp.layout();
            let e = empty_layout(version);
            assert(l.difat =~= e.difat);
            assert(l.fat =~= e.fat);
            assert(l.minifat =~= e.minifat);
            assert(l.directory =~= e.directory);
            lemma_empty_layout_ok(version);
            lemma_empty_image_decodes(version);
            lemma_written_at(before, 0, image@);
            if before.len() == 0 {
                assert(before + image@ =~= image@);
            }
        }
        Ok(comp)
    }

    /// Opens the compound file that a store holds, after checking all of it.
    #[verifier::rlimit(40)]
    pub fn open(inner: Store) -> (r: Result<CompoundFile, Error>)
        ensures
            match r {
                Ok(c) => {
                    &&& c.wf()
                    &&& table_ok(c.layout().fat)
                    &&& table_ok(c.layout().minifat)
                    &&& c.bytes() == inner.data@
                    &&& decode_image(inner.data@) == Ok::<Layout, Error>(c.layout())
                },
                Err(e) => decode_image(inner.data@) == Err::<Layout, Error>(e),
            },
    {
        let mut inner = inner;
        let h: Header = read_header(&mut inner)?;
        let version: Version = h.version;
        let difat: Vec<u32> = load_difat(&mut inner, h)?;
        let fat: Vec<u32> = load_fat(&mut inner, h, &difat)?;
        let minifat: Vec<u32> = load_minifat(&mut inner, h, &fat)?;
        let directory: Vec<DirEntry> = load_directory(&mut inner, h, &fat, minifat.len())?;
        Ok(
            CompoundFile {
                inner,
                version,
                difat,
                fat,
                minifat,
                minifat_start_sector: h.first_minifat_sector,
                directory,
                directory_start_sector: h.first_dir_sector,
            },
        )
    }
}

} // verus!
