//! What the bytes of an image mean: the header, the tables and the directory
//! that they hold.

use crate::consts::{
    magic_number, BYTE_ORDER_MARK, DIR_ENTRY_LEN, END_OF_CHAIN, FREE_SECTOR, MAX_REGULAR_SECTOR,
    MINI_SECTOR_SHIFT, MINI_STREAM_CUTOFF, NUM_DIFAT_ENTRIES_IN_HEADER,
};
use crate::dir_entry::{decode_entry, entries_view, DirEntry, EntryView};
use crate::endian::{get_u32, u16_at, u32_at};
use crate::error::Error;
use crate::names::storable_name;
use crate::store::Store;
use crate::tables::{
    chain, collect_chain, difat_ok, fat_fault, table_fault, table_ok, trim_free, trimmed,
    validate_difat_and_fat, validate_minifat,
};
use crate::tree::{directory_fault, is_forest, validate_directory};
use crate::version::Version;
use vstd::slice::slice_subrange;
use vstd::prelude::*;

verus! {

/// The fields of the header that the rest of the image is found by.
#[derive(Clone, Copy, Debug, PartialEq, Eq, Structural)]
pub struct Header {
    pub version: Version,
    pub num_fat_sectors: u32,
    pub first_dir_sector: u32,
    pub first_minifat_sector: u32,
    pub num_minifat_sectors: u32,
    pub first_difat_sector: u32,
    pub num_difat_sectors: u32,
}

/// What an image holds besides its bytes.
pub struct Layout {
    pub version: Version,
    pub difat: Seq<u32>,
    pub fat: Seq<u32>,
    pub minifat: Seq<u32>,
    pub minifat_start_sector: u32,
    pub directory: Seq<EntryView>,
    pub directory_start_sector: u32,
}

/// Offset in the image of the first byte of a sector.  Sectors are counted
/// from the one after the header.
pub open spec fn sector_offset(v: Version, sector: u32) -> int {
    match v {
        Version::V3 => 512 * (1 + sector),
        Version::V4 => 4096 * (1 + sector),
    }
}

/// Whether a table of `n` entries has no more entries than there are sector
/// indices.
pub open spec fn indexable(n: nat) -> bool {
    n <= MAX_REGULAR_SECTOR + 1
}

/// Whether every sector of a FAT of `n` entries has a sector index, and it
/// and the sector after them can be addressed on this machine.
pub open spec fn addressable(v: Version, n: nat) -> bool {
    indexable(n) && match v {
        Version::V3 => 512 * (n + 2) <= usize::MAX,
        Version::V4 => 4096 * (n + 2) <= usize::MAX,
    }
}

/// The version that the header names; version 3 where it names none.
pub open spec fn header_version(b: Seq<u8>) -> Version {
    match Version::from_number_spec(u16_at(b, 26)) {
        Some(v) => v,
        None => Version::V3,
    }
}

/// The fields of the header of an image.
pub open spec fn header_of(b: Seq<u8>) -> Header {
    Header {
        version: header_version(b),
        num_fat_sectors: u32_at(b, 44),
        first_dir_sector: u32_at(b, 48),
        first_minifat_sector: u32_at(b, 60),
        num_minifat_sectors: u32_at(b, 64),
        first_difat_sector: u32_at(b, 68),
        num_difat_sectors: u32_at(b, 72),
    }
}

/// The first rule that the header of an image breaks, if any.  Each field is
/// looked at in the order of the header, and is missing where the image ends
/// before it.
#[verifier::opaque]
pub open spec fn header_fault(b: Seq<u8>) -> Option<Error> {
    if b.len() < 8 {
        Some(Error::UnexpectedEof)
    } else if b.subrange(0, 8) != magic_number() {
        Some(Error::WrongMagic)
    } else if b.len() < 28 {
        Some(Error::UnexpectedEof)
    } else if Version::from_number_spec(u16_at(b, 26)) is None {
        Some(Error::UnsupportedVersion)
    } else if b.len() < 30 {
        Some(Error::UnexpectedEof)
    } else if u16_at(b, 28) != BYTE_ORDER_MARK {
        Some(Error::ByteOrderMark)
    } else if b.len() < 32 {
        Some(Error::UnexpectedEof)
    } else if u16_at(b, 30) != header_version(b).sector_shift_spec() {
        Some(Error::SectorShift)
    } else if b.len() < 34 {
        Some(Error::UnexpectedEof)
    } else if u16_at(b, 32) != MINI_SECTOR_SHIFT {
        Some(Error::MiniSectorShift)
    } else if b.len() < 60 {
        Some(Error::UnexpectedEof)
    } else if u32_at(b, 56) != MINI_STREAM_CUTOFF {
        Some(Error::MiniStreamCutoff)
    } else if b.len() < 76 {
        Some(Error::UnexpectedEof)
    } else {
        None
    }
}

/// The DIFAT entries of the header from entry `i` on, up to the first free
/// one.
pub open spec fn header_difat(b: Seq<u8>, i: int) -> Result<Seq<u32>, Error>
    decreases NUM_DIFAT_ENTRIES_IN_HEADER - i,
{
    if i < 0 || i >= NUM_DIFAT_ENTRIES_IN_HEADER {
        Ok(Seq::empty())
    } else if b.len() < 76 + 4 * (i + 1) {
        Err(Error::UnexpectedEof)
    } else {
        let e = u32_at(b, 76 + 4 * i);
        if e == FREE_SECTOR {
            Ok(Seq::empty())
        } else if e > MAX_REGULAR_SECTOR {
            Err(Error::DifatEntry)
        } else {
            match header_difat(b, i + 1) {
                Ok(rest) => Ok(seq![e] + rest),
                Err(x) => Err(x),
            }
        }
    }
}

/// The bytes of a sector, where the image holds all of them.
pub open spec fn sector_bytes(b: Seq<u8>, v: Version, sector: u32) -> Option<Seq<u8>> {
    let off = sector_offset(v, sector);
    if off + v.sector_len_spec() <= b.len() {
        Some(b.subrange(off, off + v.sector_len_spec()))
    } else {
        None
    }
}

/// The 32-bit numbers that a block holds, in order.
pub open spec fn words(block: Seq<u8>) -> Seq<u32> {
    Seq::new((block.len() / 4) as nat, |k: int| u32_at(block, 4 * k))
}

/// Whether each of the first `n` numbers is a sector index or free.
pub open spec fn difat_entries_ok(w: Seq<u32>, n: int) -> bool {
    forall|k: int| 0 <= k < n ==> (#[trigger] w[k]) == FREE_SECTOR || w[k] <= MAX_REGULAR_SECTOR
}

/// The DIFAT entries of the chain of DIFAT sectors that begins at `current`
/// and should have `left` sectors.  The last number of a DIFAT sector names
/// the next one.
pub open spec fn difat_chain(b: Seq<u8>, v: Version, current: u32, left: nat) -> Result<
    Seq<u32>,
    Error,
>
    decreases left,
{
    if current == END_OF_CHAIN {
        if left == 0 {
            Ok(Seq::empty())
        } else {
            Err(Error::DifatChainLength)
        }
    } else if left == 0 {
        Err(Error::DifatChainLength)
    } else {
        match sector_bytes(b, v, current) {
            None => Err(Error::UnexpectedEof),
            Some(block) => {
                let w = words(block);
                let last = v.entries_per_sector() - 1;
                if !difat_entries_ok(w, last) {
                    Err(Error::DifatEntry)
                } else {
                    match difat_chain(b, v, w[last], (left - 1) as nat) {
                        Ok(rest) => Ok(w.subrange(0, last) + rest),
                        Err(e) => Err(e),
                    }
                }
            },
        }
    }
}

/// The DIFAT of an image: the entries of the header, then those of the DIFAT
/// sectors, without the free entries at the end.
#[verifier::opaque]
pub open spec fn difat_of(b: Seq<u8>, h: Header) -> Result<Seq<u32>, Error> {
    match header_difat(b, 0) {
        Err(e) => Err(e),
        Ok(head) => match difat_chain(
            b,
            h.version,
            h.first_difat_sector,
            h.num_difat_sectors as nat,
        ) {
            Err(e) => Err(e),
            Ok(tail) => Ok(trimmed(head + tail)),
        },
    }
}

/// The entries of a table that is stored in `sectors`, from sector `i` on.
pub open spec fn table_from_sectors(b: Seq<u8>, v: Version, sectors: Seq<u32>, i: int) -> Result<
    Seq<u32>,
    Error,
>
    decreases sectors.len() - i,
{
    if i < 0 || i >= sectors.len() {
        Ok(Seq::empty())
    } else {
        match sector_bytes(b, v, sectors[i]) {
            None => Err(Error::UnexpectedEof),
            Some(block) => match table_from_sectors(b, v, sectors, i + 1) {
                Ok(rest) => Ok(words(block) + rest),
                Err(e) => Err(e),
            },
        }
    }
}

/// The MiniFAT of an image, read along its chain in the FAT.
#[verifier::opaque]
pub open spec fn minifat_of(b: Seq<u8>, h: Header, fat: Seq<u32>) -> Result<Seq<u32>, Error> {
    match chain(
        fat,
        h.first_minifat_sector,
        h.num_minifat_sectors as nat,
        Error::MinifatChainLength,
    ) {
        Err(e) => Err(e),
        Ok(sectors) => if sectors.len() != h.num_minifat_sectors {
            Err(Error::MinifatChainLength)
        } else {
            match table_from_sectors(b, h.version, sectors, 0) {
                Err(e) => Err(e),
                Ok(raw) => if !indexable(trimmed(raw).len()) {
                    Err(Error::TooLarge)
                } else {
                    match table_fault(
                        trimmed(raw),
                        0,
                        Error::MinifatPointer,
                        Error::MinifatPointedTwice,
                    ) {
                        Some(e) => Err(e),
                        None => Ok(trimmed(raw)),
                    }
                },
            }
        },
    }
}

/// The entries that the records of a block hold, from record `k` on.
pub open spec fn entries_from_block(block: Seq<u8>, v: Version, k: int) -> Result<
    Seq<EntryView>,
    Error,
>
    decreases block.len() - DIR_ENTRY_LEN * k,
{
    if k < 0 || DIR_ENTRY_LEN * (k + 1) > block.len() {
        Ok(Seq::empty())
    } else {
        match decode_entry(block.subrange(DIR_ENTRY_LEN * k, DIR_ENTRY_LEN * (k + 1)), v) {
            Err(e) => Err(e),
            Ok(entry) => match entries_from_block(block, v, k + 1) {
                Ok(rest) => Ok(seq![entry] + rest),
                Err(e) => Err(e),
            },
        }
    }
}

/// The entries of a directory that is stored in `sectors`, from sector `i`
/// on.
pub open spec fn directory_from_sectors(b: Seq<u8>, v: Version, sectors: Seq<u32>, i: int) -> Result<
    Seq<EntryView>,
    Error,
>
    decreases sectors.len() - i,
{
    if i < 0 || i >= sectors.len() {
        Ok(Seq::empty())
    } else {
        match sector_bytes(b, v, sectors[i]) {
            None => Err(Error::UnexpectedEof),
            Some(block) => match entries_from_block(block, v, 0) {
                Err(e) => Err(e),
                Ok(entries) => match directory_from_sectors(b, v, sectors, i + 1) {
                    Ok(rest) => Ok(entries + rest),
                    Err(e) => Err(e),
                },
            },
        }
    }
}

/// The directory of an image, read along its chain in the FAT.
#[verifier::opaque]
pub open spec fn directory_of(b: Seq<u8>, h: Header, fat: Seq<u32>) -> Result<
    Seq<EntryView>,
    Error,
> {
    match chain(fat, h.first_dir_sector, fat.len(), Error::BrokenChain) {
        Err(e) => Err(e),
        Ok(sectors) => directory_from_sectors(b, h.version, sectors, 0),
    }
}

/// The FAT of an image, read from the sectors that the DIFAT lists.
#[verifier::opaque]
pub open spec fn fat_of(b: Seq<u8>, h: Header, difat: Seq<u32>) -> Result<Seq<u32>, Error> {
    if h.num_fat_sectors != difat.len() {
        Err(Error::FatSectorCount)
    } else {
        match table_from_sectors(b, h.version, difat, 0) {
            Err(e) => Err(e),
            Ok(raw) => if !addressable(h.version, trimmed(raw).len()) {
                Err(Error::TooLarge)
            } else {
                match fat_fault(difat, trimmed(raw)) {
                    Some(e) => Err(e),
                    None => Ok(trimmed(raw)),
                }
            },
        }
    }
}

/// What an image holds, or the first rule it breaks: header, DIFAT, FAT,
/// MiniFAT and directory are read and checked in this order.
pub open spec fn decode_image(b: Seq<u8>) -> Result<Layout, Error> {
    match header_fault(b) {
        Some(e) => Err(e),
        None => {
            let h = header_of(b);
            match difat_of(b, h) {
                Err(e) => Err(e),
                Ok(difat) => match fat_of(b, h, difat) {
                    Err(e) => Err(e),
                    Ok(fat) => match minifat_of(b, h, fat) {
                        Err(e) => Err(e),
                        Ok(minifat) => match directory_of(b, h, fat) {
                            Err(e) => Err(e),
                            Ok(directory) => match directory_fault(directory, minifat.len()) {
                                Some(e) => Err(e),
                                None => Ok(
                                    Layout {
                                        version: h.version,
                                        difat,
                                        fat,
                                        minifat,
                                        minifat_start_sector: h.first_minifat_sector,
                                        directory,
                                        directory_start_sector: h.first_dir_sector,
                                    },
                                ),
                            },
                        },
                    },
                },
            }
        },
    }
}

/// Every entry has a name that a record can hold.
pub open spec fn all_storable(dir: Seq<EntryView>) -> bool {
    forall|i: int| 0 <= i < dir.len() ==> storable_name((#[trigger] dir[i]).name)
}

/// Tells whether a FAT of `n` entries can be addressed on this machine.
pub fn is_addressable(v: Version, n: usize) -> (r: bool)
    ensures
        r == addressable(v, n as nat),
{
    let cap: usize = usize::MAX / v.sector_len();
    is_indexable(n) && cap >= 2 && n <= cap - 2
}

/// Tells whether a table of `n` entries has no more entries than there are
/// sector indices.
pub fn is_indexable(n: usize) -> (r: bool)
    ensures
        r == indexable(n as nat),
{
    n as u64 <= MAX_REGULAR_SECTOR as u64 + 1
}

/// The offset of a sector, as a position of the store.
pub fn sector_position(v: Version, sector: u32) -> (r: u64)
    ensures
        r == sector_offset(v, sector),
{
    match v {
        Version::V3 => 512 * (1 + sector as u64),
        Version::V4 => 4096 * (1 + sector as u64),
    }
}

/// Reads the header of an image and checks it.
pub fn read_header(store: &mut Store) -> (r: Result<Header, Error>)
    ensures
        final(store).data@ == old(store).data@,
        match r {
            Ok(h) => header_fault(old(store).data@) is None && h == header_of(old(store).data@)
                && final(store).pos == 76,
            Err(e) => header_fault(old(store).data@) == Some(e),
        },
{
    reveal(header_fault);
    let ghost b = store.data@;
    store.seek_to(0);
    let magic: Vec<u8> = store.read_exact(8)?;
    if magic[0] != 0xd0 || magic[1] != 0xcf || magic[2] != 0x11 || magic[3] != 0xe0 || magic[4]
        != 0xa1 || magic[5] != 0xb1 || magic[6] != 0x1a || magic[7] != 0xe1 {
        assert(magic@ == b.subrange(0, 8));
        return Err(Error::WrongMagic);
    }
    assert(b.subrange(0, 8) =~= magic_number());
    store.seek_to(26);
    let version_number: u16 = store.read_u16()?;
    let version: Version = match Version::from_number(version_number) {
        Some(v) => v,
        None => {
            return Err(Error::UnsupportedVersion);
        },
    };
    if store.read_u16()? != BYTE_ORDER_MARK {
        return Err(Error::ByteOrderMark);
    }
    let sector_shift: u16 = store.read_u16()?;
    if sector_shift != version.sector_shift() {
        return Err(Error::SectorShift);
    }
    let mini_sector_shift: u16 = store.read_u16()?;
    if mini_sector_shift != MINI_SECTOR_SHIFT {
        return Err(Error::MiniSectorShift);
    }
    store.seek_to(44);
    let num_fat_sectors: u32 = match store.read_u32() {
        Ok(x) => x,
        Err(e) => {
            return Err(e);
        },
    };
    let first_dir_sector: u32 = match store.read_u32() {
        Ok(x) => x,
        Err(e) => {
            return Err(e);
        },
    };
    let _transaction_signature: u32 = match store.read_u32() {
        Ok(x) => x,
        Err(e) => {
            return Err(e);
        },
    };
    let mini_stream_cutoff: u32 = store.read_u32()?;
    if mini_stream_cutoff != MINI_STREAM_CUTOFF {
        return Err(Error::MiniStreamCutoff);
    }
    let first_minifat_sector: u32 = store.read_u32()?;
    let num_minifat_sectors: u32 = store.read_u32()?;
    let first_difat_sector: u32 = store.read_u32()?;
    let num_difat_sectors: u32 = store.read_u32()?;
    Ok(
        Header {
            version,
            num_fat_sectors,
            first_dir_sector,
            first_minifat_sector,
            num_minifat_sectors,
            first_difat_sector,
            num_difat_sectors,
        },
    )
}

/// Reads the DIFAT entries of the header, up to the first free one.
pub fn read_header_difat(store: &mut Store) -> (r: Result<Vec<u32>, Error>)
    ensures
        final(store).data@ == old(store).data@,
        match r {
            Ok(d) => header_difat(old(store).data@, 0) == Ok::<Seq<u32>, Error>(d@),
            Err(e) => header_difat(old(store).data@, 0) == Err::<Seq<u32>, Error>(e),
        },
{
    let ghost b = store.data@;
    let mut difat: Vec<u32> = Vec::new();
    store.seek_to(76);
    let mut i: usize = 0;
    while i < NUM_DIFAT_ENTRIES_IN_HEADER
        invariant
            i <= NUM_DIFAT_ENTRIES_IN_HEADER,
            store.data@ == b,
            b == old(store).data@,
            store.pos == 76 + 4 * i,
            header_difat(b, 0) == (match header_difat(b, i as int) {
                Ok(rest) => Ok::<Seq<u32>, Error>(difat@ + rest),
                Err(e) => Err(e),
            }),
        decreases NUM_DIFAT_ENTRIES_IN_HEADER - i,
    {
        let next: u32 = store.read_u32()?;
        if next == FREE_SECTOR {
            assert(difat@ + Seq::<u32>::empty() =~= difat@);
            return Ok(difat);
        } else if next > MAX_REGULAR_SECTOR {
            return Err(Error::DifatEntry);
        }
        let ghost before = difat@;
        difat.push(next);
        proof {
            match header_difat(b, i + 1) {
                Ok(rest) => {
                    assert(before + (seq![next] + rest) =~= difat@ + rest);
                },
                Err(e) => {},
            }
        }
        i = i + 1;
    }
    assert(difat@ + Seq::<u32>::empty() =~= difat@);
    Ok(difat)
}

/// Reads a whole sector.
pub fn read_sector(store: &mut Store, v: Version, sector: u32) -> (r: Result<Vec<u8>, Error>)
    ensures
        final(store).data@ == old(store).data@,
        match r {
            Ok(block) => sector_bytes(old(store).data@, v, sector) == Some(block@) && block@.len()
                == v.sector_len_spec(),
            Err(e) => sector_bytes(old(store).data@, v, sector) is None && e
                == Error::UnexpectedEof,
        },
{
    store.seek_to(sector_position(v, sector));
    store.read_exact(v.sector_len())
}

/// Decodes the 32-bit numbers of a block.
pub fn decode_words(block: &[u8]) -> (r: Vec<u32>)
    ensures
        r@ == words(block@),
{
    let len: usize = block.len();
    let n: usize = len / 4;
    let mut out: Vec<u32> = Vec::new();
    let mut k: usize = 0;
    while k < n
        invariant
            k <= n,
            n == block@.len() / 4,
            len == block@.len(),
            4 * n <= len,
            out@.len() == k,
            forall|j: int| 0 <= j < k ==> out@[j] == u32_at(block@, 4 * j),
        decreases n - k,
    {
        out.push(get_u32(block, 4 * k));
        k = k + 1;
    }
    assert(out@ =~= words(block@));
    out
}

/// Appends the numbers of `src` to `dst`.
pub fn append_words(dst: &mut Vec<u32>, src: &Vec<u32>, count: usize)
    requires
        count <= src@.len(),
    ensures
        final(dst)@ == old(dst)@ + src@.subrange(0, count as int),
{
    let mut k: usize = 0;
    while k < count
        invariant
            k <= count <= src@.len(),
            dst@ == old(dst)@ + src@.subrange(0, k as int),
        decreases count - k,
    {
        dst.push(src[k]);
        assert(dst@ =~= old(dst)@ + src@.subrange(0, k + 1));
        k = k + 1;
    }
}

/// Tells whether each of the first `n` numbers is a sector index or free.
pub fn check_difat_entries(w: &Vec<u32>, n: usize) -> (r: bool)
    requires
        n <= w@.len(),
    ensures
        r == difat_entries_ok(w@, n as int),
{
    let mut k: usize = 0;
    while k < n
        invariant
            k <= n <= w@.len(),
            difat_entries_ok(w@, k as int),
        decreases n - k,
    {
        let next: u32 = w[k];
        if next != FREE_SECTOR && next > MAX_REGULAR_SECTOR {
            assert(!difat_entries_ok(w@, n as int));
            return false;
        }
        k = k + 1;
    }
    true
}

/// Reads the DIFAT entries of the chain of DIFAT sectors.
pub fn read_difat_chain(store: &mut Store, v: Version, first: u32, count: u32) -> (r: Result<
    Vec<u32>,
    Error,
>)
    ensures
        final(store).data@ == old(store).data@,
        match r {
            Ok(d) => difat_chain(old(store).data@, v, first, count as nat) == Ok::<
                Seq<u32>,
                Error,
            >(d@),
            Err(e) => difat_chain(old(store).data@, v, first, count as nat) == Err::<
                Seq<u32>,
                Error,
            >(e),
        },
{
    let ghost b = store.data@;
    let mut difat: Vec<u32> = Vec::new();
    let mut current: u32 = first;
    let mut left: u32 = count;
    let per: usize = v.sector_len() / 4;
    assert(per == v.entries_per_sector());
    loop
        invariant
            store.data@ == b,
            b == old(store).data@,
            per == v.entries_per_sector(),
            difat_chain(b, v, first, count as nat) == (match difat_chain(b, v, current, left as nat) {
                Ok(rest) => Ok::<Seq<u32>, Error>(difat@ + rest),
                Err(e) => Err(e),
            }),
        decreases left,
    {
        if current == END_OF_CHAIN {
            if left == 0 {
                assert(difat@ + Seq::<u32>::empty() =~= difat@);
                return Ok(difat);
            }
            return Err(Error::DifatChainLength);
        }
        if left == 0 {
            return Err(Error::DifatChainLength);
        }
        let block: Vec<u8> = read_sector(store, v, current)?;
        let w: Vec<u32> = decode_words(block.as_slice());
        assert(w@.len() == per);
        if !check_difat_entries(&w, per - 1) {
            return Err(Error::DifatEntry);
        }
        let ghost before = difat@;
        append_words(&mut difat, &w, per - 1);
        let next_sector: u32 = w[per - 1];
        proof {
            match difat_chain(b, v, next_sector, (left - 1) as nat) {
                Ok(rest) => {
                    assert(before + (w@.subrange(0, per - 1) + rest) =~= difat@ + rest);
                },
                Err(e) => {},
            }
        }
        current = next_sector;
        left = left - 1;
    }
}

/// Reads the entries of a table from the sectors that hold it.
pub fn read_table(store: &mut Store, v: Version, sectors: &Vec<u32>) -> (r: Result<
    Vec<u32>,
    Error,
>)
    ensures
        final(store).data@ == old(store).data@,
        match r {
            Ok(t) => table_from_sectors(old(store).data@, v, sectors@, 0) == Ok::<
                Seq<u32>,
                Error,
            >(t@) && t@.len() == sectors@.len() * v.entries_per_sector(),
            Err(e) => table_from_sectors(old(store).data@, v, sectors@, 0) == Err::<
                Seq<u32>,
                Error,
            >(e),
        },
{
    let ghost b = store.data@;
    let mut table: Vec<u32> = Vec::new();
    let mut i: usize = 0;
    while i < sectors.len()
        invariant
            i <= sectors@.len(),
            store.data@ == b,
            b == old(store).data@,
            table@.len() == i * v.entries_per_sector(),
            table_from_sectors(b, v, sectors@, 0) == (match table_from_sectors(
                b,
                v,
                sectors@,
                i as int,
            ) {
                Ok(rest) => Ok::<Seq<u32>, Error>(table@ + rest),
                Err(e) => Err(e),
            }),
        decreases sectors@.len() - i,
    {
        let block: Vec<u8> = read_sector(store, v, sectors[i])?;
        let w: Vec<u32> = decode_words(block.as_slice());
        let ghost before = table@;
        append_words(&mut table, &w, w.len());
        proof {
            assert(w@.subrange(0, w@.len() as int) =~= w@);
            assert(w@.len() == v.entries_per_sector());
            assert((i + 1) * v.entries_per_sector() == i * v.entries_per_sector()
                + v.entries_per_sector()) by (nonlinear_arith);
            match table_from_sectors(b, v, sectors@, i + 1) {
                Ok(rest) => {
                    assert(before + (w@ + rest) =~= table@ + rest);
                },
                Err(e) => {},
            }
        }
        i = i + 1;
    }
    assert(table@ + Seq::<u32>::empty() =~= table@);
    Ok(table)
}

/// Decodes the records of a block.
#[verifier::rlimit(60)]
pub fn read_entries(block: &[u8], v: Version) -> (r: Result<Vec<DirEntry>, Error>)
    ensures
        match r {
            Ok(d) => entries_from_block(block@, v, 0) == Ok::<Seq<EntryView>, Error>(
                entries_view(d@),
            ) && all_storable(entries_view(d@)),
            Err(e) => entries_from_block(block@, v, 0) == Err::<Seq<EntryView>, Error>(e),
        },
{
    let len: usize = block.len();
    let per: usize = len / DIR_ENTRY_LEN;
    let mut entries: Vec<DirEntry> = Vec::new();
    let mut k: usize = 0;
    while k < per
        invariant
            k <= per,
            len == block@.len(),
            128 * per <= len < 128 * (per + 1),
            all_storable(entries_view(entries@)),
            entries_from_block(block@, v, 0) == (match entries_from_block(block@, v, k as int) {
                Ok(rest) => Ok::<Seq<EntryView>, Error>(entries_view(entries@) + rest),
                Err(e) => Err(e),
            }),
        decreases per - k,
    {
        let record: &[u8] = slice_subrange(block, DIR_ENTRY_LEN * k, DIR_ENTRY_LEN * (k + 1));
        let entry: DirEntry = DirEntry::read(record, v)?;
        let ghost before = entries_view(entries@);
        entries.push(entry);
        proof {
            assert(entries_view(entries@) =~= before.push(entry@));
            match entries_from_block(block@, v, k + 1) {
                Ok(rest) => {
                    assert(before + (seq![entry@] + rest) =~= entries_view(entries@) + rest);
                },
                Err(e) => {},
            }
        }
        k = k + 1;
    }
    assert(entries_view(entries@) + Seq::<EntryView>::empty() =~= entries_view(entries@));
    Ok(entries)
}

/// Reads the entries of a directory from the sectors that hold it.
#[verifier::rlimit(60)]
pub fn read_directory(store: &mut Store, v: Version, sectors: &Vec<u32>) -> (r: Result<
    Vec<DirEntry>,
    Error,
>)
    ensures
        final(store).data@ == old(store).data@,
        match r {
            Ok(d) => directory_from_sectors(old(store).data@, v, sectors@, 0) == Ok::<
                Seq<EntryView>,
                Error,
            >(entries_view(d@)) && all_storable(entries_view(d@)),
            Err(e) => directory_from_sectors(old(store).data@, v, sectors@, 0) == Err::<
                Seq<EntryView>,
                Error,
            >(e),
        },
{
    let ghost b = store.data@;
    let mut directory: Vec<DirEntry> = Vec::new();
    let mut i: usize = 0;
    while i < sectors.len()
        invariant
            i <= sectors@.len(),
            store.data@ == b,
            b == old(store).data@,
            all_storable(entries_view(directory@)),
            directory_from_sectors(b, v, sectors@, 0) == (match directory_from_sectors(
                b,
                v,
                sectors@,
                i as int,
            ) {
                Ok(rest) => Ok::<Seq<EntryView>, Error>(entries_view(directory@) + rest),
                Err(e) => Err(e),
            }),
        decreases sectors@.len() - i,
    {
        let block: Vec<u8> = read_sector(store, v, sectors[i])?;
        let mut entries: Vec<DirEntry> = read_entries(block.as_slice(), v)?;
        let ghost before = entries_view(directory@);
        let ghost got = entries_view(entries@);
        directory.append(&mut entries);
        proof {
            assert(entries_view(directory@) =~= before + got);
            assert forall|j: int| 0 <= j < entries_view(directory@).len() implies storable_name(
                (#[trigger] entries_view(directory@)[j]).name,
            ) by {
                if j < before.len() {
                    assert(entries_view(directory@)[j] == before[j]);
                } else {
                    assert(entries_view(directory@)[j] == got[j - before.len()]);
                }
            }
            match directory_from_sectors(b, v, sectors@, i + 1) {
                Ok(rest) => {
                    assert(before + (got + rest) =~= entries_view(directory@) + rest);
                },
                Err(e) => {},
            }
        }
        i = i + 1;
    }
    assert(entries_view(directory@) + Seq::<EntryView>::empty() =~= entries_view(directory@));
    Ok(directory)
}

/// Reads the DIFAT: the entries of the header, then those of the DIFAT
/// sectors, without the free entries at the end.
pub fn load_difat(store: &mut Store, h: Header) -> (r: Result<Vec<u32>, Error>)
    ensures
        final(store).data@ == old(store).data@,
        match r {
            Ok(d) => difat_of(old(store).data@, h) == Ok::<Seq<u32>, Error>(d@),
            Err(e) => difat_of(old(store).data@, h) == Err::<Seq<u32>, Error>(e),
        },
{
    reveal(difat_of);
    let mut difat: Vec<u32> = read_header_difat(store)?;
    let tail: Vec<u32> = read_difat_chain(
        store,
        h.version,
        h.first_difat_sector,
        h.num_difat_sectors,
    )?;
    append_words(&mut difat, &tail, tail.len());
    assert(tail@.subrange(0, tail@.len() as int) =~= tail@);
    trim_free(&mut difat);
    Ok(difat)
}

/// Reads the FAT from the sectors that the DIFAT lists and checks both.
pub fn load_fat(store: &mut Store, h: Header, difat: &Vec<u32>) -> (r: Result<Vec<u32>, Error>)
    ensures
        final(store).data@ == old(store).data@,
        match r {
            Ok(f) => {
                &&& fat_of(old(store).data@, h, difat@) == Ok::<Seq<u32>, Error>(f@)
                &&& f@.len() <= difat@.len() * h.version.entries_per_sector()
                &&& addressable(h.version, f@.len())
                &&& difat_ok(difat@, f@)
                &&& table_ok(f@)
            },
            Err(e) => fat_of(old(store).data@, h, difat@) == Err::<Seq<u32>, Error>(e),
        },
{
    reveal(fat_of);
    if h.num_fat_sectors as usize != difat.len() {
        return Err(Error::FatSectorCount);
    }
    let mut fat: Vec<u32> = read_table(store, h.version, difat)?;
    trim_free(&mut fat);
    if !is_addressable(h.version, fat.len()) {
        return Err(Error::TooLarge);
    }
    validate_difat_and_fat(difat, &fat)?;
    Ok(fat)
}

/// Reads the MiniFAT along its chain in the FAT and checks it.
pub fn load_minifat(store: &mut Store, h: Header, fat: &Vec<u32>) -> (r: Result<Vec<u32>, Error>)
    ensures
        final(store).data@ == old(store).data@,
        match r {
            Ok(m) => {
                &&& minifat_of(old(store).data@, h, fat@) == Ok::<Seq<u32>, Error>(m@)
                &&& indexable(m@.len())
                &&& table_ok(m@)
                &&& h.first_minifat_sector == END_OF_CHAIN ==> m@.len() == 0
            },
            Err(e) => minifat_of(old(store).data@, h, fat@) == Err::<Seq<u32>, Error>(e),
        },
{
    reveal(minifat_of);
    let sectors: Vec<u32> = collect_chain(
        fat,
        h.first_minifat_sector,
        h.num_minifat_sectors as usize,
        Error::MinifatChainLength,
    )?;
    if sectors.len() != h.num_minifat_sectors as usize {
        return Err(Error::MinifatChainLength);
    }
    let mut minifat: Vec<u32> = read_table(store, h.version, &sectors)?;
    trim_free(&mut minifat);
    if !is_indexable(minifat.len()) {
        return Err(Error::TooLarge);
    }
    validate_minifat(&minifat)?;
    Ok(minifat)
}

/// Reads the directory along its chain in the FAT and checks it.
pub fn load_directory(store: &mut Store, h: Header, fat: &Vec<u32>, minifat_len: usize) -> (r:
    Result<Vec<DirEntry>, Error>)
    ensures
        final(store).data@ == old(store).data@,
        match directory_of(old(store).data@, h, fat@) {
            Err(e) => r is Err && r->Err_0 == e,
            Ok(dir) => match directory_fault(dir, minifat_len as nat) {
                Some(e) => r is Err && r->Err_0 == e,
                None => {
                    &&& r is Ok
                    &&& entries_view(r->Ok_0@) == dir
                    &&& all_storable(dir)
                    &&& is_forest(dir)
                    &&& h.first_dir_sector < fat@.len()
                },
            },
        },
{
    reveal(directory_of);
    let sectors: Vec<u32> = collect_chain(fat, h.first_dir_sector, fat.len(), Error::BrokenChain)?;
    let directory: Vec<DirEntry> = read_directory(store, h.version, &sectors)?;
    validate_directory(&directory, minifat_len)?;
    proof {
        crate::tables::lemma_chain_links(fat@, h.first_dir_sector, fat@.len(), Error::BrokenChain);
    }
    Ok(directory)
}

} // verus!
