//! Finding entries by path.

use crate::compound::{CompoundFile, Disk};
use crate::consts::OBJ_TYPE_STREAM;
use crate::dir_entry::{DirEntry, EntryView};
use crate::endian::u64_to_le;
use crate::error::Error;
use crate::frame::{framed, steady};
use crate::names::{encode_utf16, name_chain_from_path, path_names, utf16};
use crate::seeking::entry_pos;
use crate::storage::{copy_units, metadata, ReadStorage, StorageEntry};
use crate::store::written_at;
use crate::stream::{with_modified, Cursor, Stream, StreamState};
use crate::tree::{children, forest, link_ok, live, resolve, stream_id_for_names};
use vstd::prelude::*;

verus! {

/// The stream ID of the entry at a path, or why there is none: the path is
/// not well formed, or a name along it is not found.
pub open spec fn path_target(dir: Seq<EntryView>, path: Seq<u16>) -> Result<u32, Error> {
    match path_names(path) {
        Err(e) => Err(e),
        Ok(names) => match resolve(dir, names) {
            Some(id) => Ok(id),
            None => Err(Error::NoSuchObject),
        },
    }
}

/// The stream ID of the stream at a path, or why none can be opened: there
/// is no entry at the path, or the entry is not a stream.
pub open spec fn stream_target(dir: Seq<EntryView>, path: Seq<u16>) -> Result<u32, Error> {
    match path_target(dir, path) {
        Err(e) => Err(e),
        Ok(id) => if id == 0 || dir[id as int].obj_type != OBJ_TYPE_STREAM {
            Err(Error::NotAStream)
        } else {
            Ok(id)
        },
    }
}

/// The outcome of touching the entry at a path at the time `now`: the root
/// is left alone; any other entry gets `now` as its time of modification,
/// in memory and in the image.
pub open spec fn touch_outcome(d: Disk, path: Seq<u16>, now: u64) -> (Disk, Result<(), Error>) {
    match path_target(d.layout.directory, path) {
        Err(e) => (d, Err(e)),
        Ok(id) => if id == 0 {
            (d, Ok(()))
        } else {
            match entry_pos(d.layout, id, 108) {
                None => (d, Err(Error::BrokenChain)),
                Some(p) => (
                    Disk {
                        layout: with_modified(d.layout, id, now),
                        bytes: written_at(d.bytes, p, u64_to_le(now)),
                    },
                    Ok(()),
                ),
            }
        },
    }
}

impl CompoundFile {
    /// Opens the stream at a path for reading and writing.
    pub fn open_stream(&mut self, path: &str) -> (r: Result<Stream<'_>, Error>)
        requires
            old(self).wf(),
        ensures
            match stream_target(old(self).layout().directory, utf16(path@)) {
                Ok(id) => {
                    &&& r is Ok
                    &&& r->Ok_0.wf()
                    &&& r->Ok_0.state() == StreamState {
                        disk: old(self).disk(),
                        cursor: Cursor {
                            id,
                            offset: 0,
                            within: 0,
                            sector: old(self).layout().directory[id as int].start_sector,
                        },
                        modified: false,
                    }
                },
                Err(e) => r is Err && r->Err_0 == e && *final(self) == *old(self),
            },
    {
        let units: Vec<u16> = encode_utf16(path);
        self.open_stream_for_path(units.as_slice())
    }

    /// Opens the stream at a path that is given in UTF-16 code units.
    pub fn open_stream_for_path(&mut self, path: &[u16]) -> (r: Result<Stream<'_>, Error>)
        requires
            old(self).wf(),
        ensures
            match stream_target(old(self).layout().directory, path@) {
                Ok(id) => {
                    &&& r is Ok
                    &&& r->Ok_0.wf()
                    &&& r->Ok_0.state() == StreamState {
                        disk: old(self).disk(),
                        cursor: Cursor {
                            id,
                            offset: 0,
                            within: 0,
                            sector: old(self).layout().directory[id as int].start_sector,
                        },
                        modified: false,
                    }
                },
                Err(e) => r is Err && r->Err_0 == e && *final(self) == *old(self),
            },
    {
        let stream_id: u32 = self.stream_id_for_path(path)?;
        assert(self.layout().directory[stream_id as int] == self.directory@[stream_id as int]@);
        if stream_id == 0 || self.directory[stream_id as usize].obj_type != OBJ_TYPE_STREAM {
            return Err(Error::NotAStream);
        }
        Stream::new(self, stream_id)
    }

    /// Sets the time of modification of the object at a path to the present
    /// moment.  The root storage is left alone.
    pub fn touch(&mut self, path: &str) -> (r: Result<(), Error>)
        requires
            old(self).wf(),
        ensures
            final(self).wf(),
            exists|now: u64|
                final(self).disk() == touch_outcome(old(self).disk(), utf16(path@), now).0 && r
                    == touch_outcome(old(self).disk(), utf16(path@), now).1,
    {
        let now: u64 = crate::time::current_timestamp();
        self.touch_at(path, now)
    }

    /// Sets the time of modification of the object at a path to `now`.  The
    /// root storage is left alone.
    pub fn touch_at(&mut self, path: &str, now: u64) -> (r: Result<(), Error>)
        requires
            old(self).wf(),
        ensures
            final(self).wf(),
            final(self).disk() == touch_outcome(old(self).disk(), utf16(path@), now).0,
            r == touch_outcome(old(self).disk(), utf16(path@), now).1,
            framed(old(self).disk(), final(self).disk()),
            steady(old(self).layout(), final(self).layout()),
    {
        let units: Vec<u16> = encode_utf16(path);
        self.touch_with_path(units.as_slice(), now)
    }

    /// Sets the time of modification of the object at a path that is given
    /// in UTF-16 code units.
    pub fn touch_with_path(&mut self, path: &[u16], now: u64) -> (r: Result<(), Error>)
        requires
            old(self).wf(),
        ensures
            final(self).wf(),
            final(self).disk() == touch_outcome(old(self).disk(), path@, now).0,
            r == touch_outcome(old(self).disk(), path@, now).1,
            framed(old(self).disk(), final(self).disk()),
            steady(old(self).layout(), final(self).layout()),
    {
        let ghost d0 = self.disk();
        proof {
            crate::frame::lemma_framed_same(d0);
            crate::frame::lemma_steady_same(d0.layout);
        }
        let stream_id: u32 = self.stream_id_for_path(path)?;
        if stream_id != 0 {
            self.seek_within_dir_entry(stream_id, 108)?;
            self.write_u64(now);
            proof {
                crate::endian::lemma_le_round_trip(0, 0, now);
                crate::frame::lemma_entry_write_framed(
                    d0.layout,
                    d0.bytes,
                    stream_id,
                    108,
                    u64_to_le(now),
                );
            }
            let ghost d1 = self.disk();
            self.set_entry_modified(stream_id, now);
            proof {
                crate::frame::lemma_tables_steady(d0.layout, self.layout());
                crate::frame::lemma_framed_kept(d0, d1);
                crate::frame::lemma_framed_assemble(d0, d1, self.disk());
            }
        }
        Ok(())
    }

    /// Creating a storage is not supported: the directory tree cannot be
    /// changed.
    pub fn create_storage(&mut self, path: &str) -> (r: Result<(), Error>)
        ensures
            r == Err::<(), Error>(Error::DirectoryUpdate),
            *final(self) == *old(self),
    {
        Err(Error::DirectoryUpdate)
    }

    /// Removing a storage is not supported: the directory tree cannot be
    /// changed.
    pub fn remove_storage(&mut self, path: &str) -> (r: Result<(), Error>)
        ensures
            r == Err::<(), Error>(Error::DirectoryUpdate),
            *final(self) == *old(self),
    {
        Err(Error::DirectoryUpdate)
    }

    /// Creating a stream is not supported: the directory tree cannot be
    /// changed.
    pub fn create_stream(&mut self, path: &str) -> (r: Result<(), Error>)
        ensures
            r == Err::<(), Error>(Error::DirectoryUpdate),
            *final(self) == *old(self),
    {
        Err(Error::DirectoryUpdate)
    }

    /// Removing a stream is not supported: the directory tree cannot be
    /// changed.
    pub fn remove_stream(&mut self, path: &str) -> (r: Result<(), Error>)
        ensures
            r == Err::<(), Error>(Error::DirectoryUpdate),
            *final(self) == *old(self),
    {
        Err(Error::DirectoryUpdate)
    }

    /// Renaming an object is not supported: the directory tree cannot be
    /// changed.
    pub fn rename(&mut self, from: &str, to: &str) -> (r: Result<(), Error>)
        ensures
            r == Err::<(), Error>(Error::DirectoryUpdate),
            *final(self) == *old(self),
    {
        Err(Error::DirectoryUpdate)
    }

    /// The stream ID of the entry at a path.
    pub fn stream_id_for_path(&self, path: &[u16]) -> (r: Result<u32, Error>)
        requires
            self.wf(),
        ensures
            r == path_target(self.layout().directory, path@),
            r is Ok ==> live(self.layout().directory, r->Ok_0),
    {
        let names: Vec<Vec<u16>> = name_chain_from_path(path)?;
        stream_id_for_names(&self.directory, &names)
    }

    /// Information about the object at a path.
    pub fn entry(&self, path: &str) -> (r: Result<StorageEntry, Error>)
        requires
            self.wf(),
        ensures
            match path_target(self.layout().directory, utf16(path@)) {
                Ok(id) => r is Ok && r->Ok_0.view() == metadata(
                    self.layout().directory[id as int],
                    utf16(path@),
                ),
                Err(e) => r is Err && r->Err_0 == e,
            },
    {
        let units: Vec<u16> = encode_utf16(path);
        self.entry_for_path(units.as_slice())
    }

    /// Information about the object at a path that is given in UTF-16 code
    /// units.
    pub fn entry_for_path(&self, path: &[u16]) -> (r: Result<StorageEntry, Error>)
        requires
            self.wf(),
        ensures
            match path_target(self.layout().directory, path@) {
                Ok(id) => r is Ok && r->Ok_0.view() == metadata(
                    self.layout().directory[id as int],
                    path@,
                ),
                Err(e) => r is Err && r->Err_0 == e,
            },
    {
        let stream_id: u32 = self.stream_id_for_path(path)?;
        let dir_entry: &DirEntry = &self.directory[stream_id as usize];
        assert(self.layout().directory[stream_id as int] == dir_entry@);
        Ok(StorageEntry::new(dir_entry, copy_units(path)))
    }

    /// A listing of the entries inside the storage at a path.
    pub fn read_storage(&self, path: &str) -> (r: Result<ReadStorage<'_>, Error>)
        requires
            self.wf(),
        ensures
            match path_target(self.layout().directory, utf16(path@)) {
                Ok(id) => {
                    &&& r is Ok
                    &&& r->Ok_0.wf()
                    &&& r->Ok_0.dir() == self.layout().directory
                    &&& r->Ok_0.base() == utf16(path@)
                    &&& r->Ok_0.remaining() == children(self.layout().directory, id)
                },
                Err(e) => r is Err && r->Err_0 == e,
            },
    {
        let units: Vec<u16> = encode_utf16(path);
        self.read_storage_for_path(units.as_slice())
    }

    /// A listing of the entries inside the storage at a path that is given
    /// in UTF-16 code units.
    pub fn read_storage_for_path(&self, path: &[u16]) -> (r: Result<ReadStorage<'_>, Error>)
        requires
            self.wf(),
        ensures
            match path_target(self.layout().directory, path@) {
                Ok(id) => {
                    &&& r is Ok
                    &&& r->Ok_0.wf()
                    &&& r->Ok_0.dir() == self.layout().directory
                    &&& r->Ok_0.base() == path@
                    &&& r->Ok_0.remaining() == children(self.layout().directory, id)
                },
                Err(e) => r is Err && r->Err_0 == e,
            },
    {
        let stream_id: u32 = self.stream_id_for_path(path)?;
        let ghost dir = self.layout().directory;
        let ghost rank = choose|rank: Seq<nat>|
            forest(dir, rank) && stream_id < dir.len() && #[trigger] rank[stream_id as int] > 0;
        let dir_entry: &DirEntry = &self.directory[stream_id as usize];
        assert(dir[stream_id as int] == dir_entry@);
        proof {
            assert(link_ok(dir, rank, stream_id as int, dir_entry@.child));
        }
        let listing = ReadStorage {
            directory: &self.directory,
            path: copy_units(path),
            stack: Vec::new(),
            current: dir_entry.child,
            rank: Ghost(rank),
        };
        proof {
            let none = Seq::<u32>::empty();
            assert(crate::storage::pending(dir, none, 0) =~= none);
            assert(listing.remaining() =~= children(dir, stream_id));
        }
        Ok(listing)
    }
}

} // verus!
