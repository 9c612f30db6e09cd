//! Fixed numbers of the file format.

use vstd::prelude::*;

verus! {

/// Length of the file header, in bytes.
pub const HEADER_LEN: usize = 512;

/// Length of one directory entry, in bytes.
pub const DIR_ENTRY_LEN: usize = 128;

/// Number of DIFAT entries that live in the header.
pub const NUM_DIFAT_ENTRIES_IN_HEADER: usize = 109;

pub const MINOR_VERSION: u16 = 0x3e;

pub const BYTE_ORDER_MARK: u16 = 0xfffe;

pub const MINI_SECTOR_SHIFT: u16 = 6;

/// Length of one mini sector, in bytes.
pub const MINI_SECTOR_LEN: usize = 64;

/// Streams shorter than this live in the mini stream.
pub const MINI_STREAM_CUTOFF: u32 = 4096;

/// Largest value of a table entry that is a sector index.
pub const MAX_REGULAR_SECTOR: u32 = 0xfffffffa;

/// Table entry of a sector that holds FAT entries.
pub const FAT_SECTOR: u32 = 0xfffffffd;

/// Table entry that ends a chain.
pub const END_OF_CHAIN: u32 = 0xfffffffe;

/// Table entry of a sector that is not allocated.
pub const FREE_SECTOR: u32 = 0xffffffff;

pub const OBJ_TYPE_UNALLOCATED: u8 = 0;

pub const OBJ_TYPE_STORAGE: u8 = 1;

pub const OBJ_TYPE_STREAM: u8 = 2;

pub const OBJ_TYPE_ROOT: u8 = 5;

pub const COLOR_RED: u8 = 0;

pub const COLOR_BLACK: u8 = 1;

/// Largest stream ID that names an entry.
pub const MAX_REGULAR_STREAM_ID: u32 = 0xfffffffa;

/// Stream ID that names no entry.
pub const NO_STREAM: u32 = 0xffffffff;

/// Longest name of an entry, in UTF-16 code units.
pub const MAX_NAME_LEN: usize = 31;

/// The eight bytes every compound file starts with.
pub open spec fn magic_number() -> Seq<u8> {
    seq![0xd0u8, 0xcfu8, 0x11u8, 0xe0u8, 0xa1u8, 0xb1u8, 0x1au8, 0xe1u8]
}

/// The name of the root entry, "Root Entry", in UTF-16 code units.
pub open spec fn root_name() -> Seq<u16> {
    seq![0x52u16, 0x6fu16, 0x6fu16, 0x74u16, 0x20u16, 0x45u16, 0x6eu16, 0x74u16, 0x72u16, 0x79u16]
}

} // verus!
