//! The two versions of the format and what each fixes.

use vstd::prelude::*;

verus! {

/// The format version of a compound file.
#[derive(Clone, Copy, Debug, PartialEq, Eq, Structural)]
pub enum Version {
    /// Version 3, which uses 512-byte sectors.
    V3,
    /// Version 4, which uses 4096-byte sectors.
    V4,
}

impl Version {
    pub open spec fn from_number_spec(number: u16) -> Option<Version> {
        if number == 3 {
            Some(Version::V3)
        } else if number == 4 {
            Some(Version::V4)
        } else {
            None
        }
    }

    pub open spec fn number_spec(self) -> u16 {
        match self {
            Version::V3 => 3,
            Version::V4 => 4,
        }
    }

    pub open spec fn sector_shift_spec(self) -> u16 {
        match self {
            Version::V3 => 9,
            Version::V4 => 12,
        }
    }

    pub open spec fn sector_len_spec(self) -> usize {
        match self {
            Version::V3 => 512,
            Version::V4 => 4096,
        }
    }

    pub open spec fn stream_len_mask_spec(self) -> u64 {
        match self {
            Version::V3 => 0xffffffff,
            Version::V4 => 0xffffffffffffffff,
        }
    }

    /// Number of 4-byte table entries in one sector.
    pub open spec fn entries_per_sector(self) -> int {
        match self {
            Version::V3 => 128,
            Version::V4 => 1024,
        }
    }

    /// Number of directory entries in one sector.
    pub open spec fn dir_entries_per_sector(self) -> int {
        match self {
            Version::V3 => 4,
            Version::V4 => 32,
        }
    }

    /// The version that a header's major version field names, if any.
    #[verifier::when_used_as_spec(from_number_spec)]
    pub fn from_number(number: u16) -> (r: Option<Version>)
        ensures
            r == Version::from_number_spec(number),
    {
        if number == 3 {
            Some(Version::V3)
        } else if number == 4 {
            Some(Version::V4)
        } else {
            None
        }
    }

    /// The major version field of a header of this version.
    #[verifier::when_used_as_spec(number_spec)]
    pub fn number(self) -> (r: u16)
        ensures
            r == self.number_spec(),
            Version::from_number_spec(r) == Some(self),
    {
        match self {
            Version::V3 => 3,
            Version::V4 => 4,
        }
    }

    /// Base-two logarithm of the sector length.
    #[verifier::when_used_as_spec(sector_shift_spec)]
    pub fn sector_shift(self) -> (r: u16)
        ensures
            r == self.sector_shift_spec(),
    {
        match self {
            Version::V3 => 9,
            Version::V4 => 12,
        }
    }

    /// Length of one sector, in bytes: two to the power of the sector shift.
    #[verifier::when_used_as_spec(sector_len_spec)]
    pub fn sector_len(self) -> (r: usize)
        ensures
            r == self.sector_len_spec(),
            r == 1usize << (self.sector_shift_spec() as usize),
    {
        assert(1usize << 9usize == 512usize) by (bit_vector);
        assert(1usize << 12usize == 4096usize) by (bit_vector);
        match self {
            Version::V3 => 512,
            Version::V4 => 4096,
        }
    }

    /// The bits of the 64-bit length field that count in this version.
    #[verifier::when_used_as_spec(stream_len_mask_spec)]
    pub fn stream_len_mask(self) -> (r: u64)
        ensures
            r == self.stream_len_mask_spec(),
    {
        match self {
            Version::V3 => 0xffffffff,
            Version::V4 => 0xffffffffffffffff,
        }
    }
}

} // verus!
