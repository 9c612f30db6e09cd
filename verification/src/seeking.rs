//! Where things stand in the image: sectors, mini sectors and directory
//! entries.

use crate::compound::CompoundFile;
use crate::consts::{DIR_ENTRY_LEN, MINI_SECTOR_LEN};
use crate::error::Error;
use crate::image::{sector_offset, sector_position, Layout};
use crate::tables::{chain_at, walk_chain};
use crate::version::Version;
use vstd::prelude::*;

verus! {

/// Number of whole sectors in `off` bytes.
pub open spec fn sectors_in(v: Version, off: int) -> int {
    match v {
        Version::V3 => off / 512,
        Version::V4 => off / 4096,
    }
}

/// What is left of `off` bytes after the whole sectors in them.
pub open spec fn beyond_sectors(v: Version, off: int) -> int {
    match v {
        Version::V3 => off % 512,
        Version::V4 => off % 4096,
    }
}

/// Splits a number of bytes into whole sectors and the rest.
pub fn split_offset(v: Version, off: u64) -> (r: (u64, u64))
    ensures
        r.0 == sectors_in(v, off as int),
        r.1 == beyond_sectors(v, off as int),
        r.1 < v.sector_len_spec(),
{
    match v {
        Version::V3 => (off / 512, off % 512),
        Version::V4 => (off / 4096, off % 4096),
    }
}

/// Offset in the image of byte `within` of a mini sector: the mini stream is
/// the chain of the root entry, and the mini sector lies where 64 bytes for
/// each mini sector before it lead.
pub open spec fn mini_pos(l: Layout, mini_sector: u32, within: int) -> Option<int> {
    let off = MINI_SECTOR_LEN * mini_sector + within;
    match chain_at(l.fat, l.directory[0].start_sector, sectors_in(l.version, off) as nat) {
        Some(s) => if s < l.fat.len() {
            Some(sector_offset(l.version, s) + beyond_sectors(l.version, off))
        } else {
            None
        },
        None => None,
    }
}

/// Index among the sectors of the directory of the sector that holds entry
/// `id`.
pub open spec fn entry_sector(v: Version, id: int) -> int {
    match v {
        Version::V3 => id / 4,
        Version::V4 => id / 32,
    }
}

/// Index of entry `id` inside the sector that holds it.
pub open spec fn entry_within(v: Version, id: int) -> int {
    match v {
        Version::V3 => id % 4,
        Version::V4 => id % 32,
    }
}

/// Offset in the image of byte `within` of the record of entry `id`.
pub open spec fn entry_pos(l: Layout, id: u32, within: int) -> Option<int> {
    match chain_at(l.fat, l.directory_start_sector, entry_sector(l.version, id as int) as nat) {
        Some(s) => if s < l.fat.len() {
            Some(
                sector_offset(l.version, s) + DIR_ENTRY_LEN * entry_within(l.version, id as int)
                    + within,
            )
        } else {
            None
        },
        None => None,
    }
}

impl CompoundFile {
    /// Offset in the image of byte `within` of a mini sector.
    pub fn mini_sector_position(&self, mini_sector: u32, within: u64) -> (r: Result<u64, Error>)
        requires
            within <= MINI_SECTOR_LEN,
            self.base(),
        ensures
            match mini_pos(self.layout(), mini_sector, within as int) {
                Some(p) => r == Ok::<u64, Error>(p as u64) && p + self.layout().version.sector_len_spec()
                    <= usize::MAX,
                None => r == Err::<u64, Error>(Error::BrokenChain),
            },
    {
        let off: u64 = within + MINI_SECTOR_LEN as u64 * (mini_sector as u64);
        let (steps, rest): (u64, u64) = split_offset(self.version, off);
        assert(self.layout().directory[0] == self.directory@[0]@);
        let sector: u32 = walk_chain(&self.fat, self.directory[0].start_sector, steps)?;
        if sector as usize >= self.fat.len() {
            return Err(Error::BrokenChain);
        }
        Ok(sector_position(self.version, sector) + rest)
    }

    /// Offset in the image of byte `within` of the record of a directory
    /// entry.
    pub fn dir_entry_position(&self, stream_id: u32, within: u64) -> (r: Result<u64, Error>)
        requires
            within <= DIR_ENTRY_LEN,
            self.base(),
        ensures
            match entry_pos(self.layout(), stream_id, within as int) {
                Some(p) => r == Ok::<u64, Error>(p as u64) && p + DIR_ENTRY_LEN <= usize::MAX,
                None => r == Err::<u64, Error>(Error::BrokenChain),
            },
    {
        let (steps, index): (u64, u64) = match self.version {
            Version::V3 => ((stream_id / 4) as u64, (stream_id % 4) as u64),
            Version::V4 => ((stream_id / 32) as u64, (stream_id % 32) as u64),
        };
        let sector: u32 = walk_chain(&self.fat, self.directory_start_sector, steps)?;
        if sector as usize >= self.fat.len() {
            return Err(Error::BrokenChain);
        }
        Ok(sector_position(self.version, sector) + DIR_ENTRY_LEN as u64 * index + within)
    }

    /// Moves the backing store to the start of a sector.
    pub fn seek_to_sector(&mut self, sector: u32)
        ensures
            final(self).disk() == old(self).disk(),
            final(self).position() == sector_offset(old(self).layout().version, sector),
    {
        self.seek_within_sector(sector, 0)
    }

    /// Moves the backing store to a byte of a sector.
    pub fn seek_within_sector(&mut self, sector: u32, offset_within_sector: u64)
        requires
            offset_within_sector <= old(self).layout().version.sector_len_spec(),
        ensures
            final(self).disk() == old(self).disk(),
            final(self).position() == sector_offset(old(self).layout().version, sector)
                + offset_within_sector,
    {
        let pos: u64 = sector_position(self.version, sector) + offset_within_sector;
        self.inner.seek_to(pos);
    }

    /// Moves the backing store to a byte of a mini sector.
    pub fn seek_within_mini_sector(&mut self, mini_sector: u32, offset_within_mini_sector: u64) -> (r:
        Result<(), Error>)
        requires
            offset_within_mini_sector <= MINI_SECTOR_LEN,
            old(self).base(),
        ensures
            final(self).disk() == old(self).disk(),
            match mini_pos(old(self).layout(), mini_sector, offset_within_mini_sector as int) {
                Some(p) => r is Ok && final(self).position() == p && p + old(self).layout().version.sector_len_spec() <= usize::MAX,
                None => r == Err::<(), Error>(Error::BrokenChain) && final(self).position() == old(self).position(),
            },
    {
        let pos: u64 = self.mini_sector_position(mini_sector, offset_within_mini_sector)?;
        self.inner.seek_to(pos);
        Ok(())
    }

    /// Moves the backing store to a byte of the record of a directory
    /// entry.
    pub fn seek_within_dir_entry(&mut self, stream_id: u32, offset_within_dir_entry: u64) -> (r:
        Result<(), Error>)
        requires
            offset_within_dir_entry <= DIR_ENTRY_LEN,
            old(self).base(),
        ensures
            final(self).disk() == old(self).disk(),
            match entry_pos(old(self).layout(), stream_id, offset_within_dir_entry as int) {
                Some(p) => r is Ok && final(self).position() == p && p + DIR_ENTRY_LEN
                    <= usize::MAX,
                None => r == Err::<(), Error>(Error::BrokenChain) && final(self).position() == old(self).position(),
            },
    {
        let pos: u64 = self.dir_entry_position(stream_id, offset_within_dir_entry)?;
        self.inner.seek_to(pos);
        Ok(())
    }
}

} // verus!
