//! The mini stream: 64-byte mini sectors inside the stream of the root
//! entry, and the MiniFAT that links them.

use crate::compound::{layout_base, CompoundFile, Disk};
use crate::consts::{END_OF_CHAIN, FREE_SECTOR, MAX_REGULAR_SECTOR, MINI_SECTOR_LEN};
use crate::dir_entry::EntryView;
use crate::endian::{u32_to_le, u64_to_le};
use crate::error::Error;
use crate::frame::{
    data_chain, framed, in_chain, lemma_first_data_sector, lemma_first_minifat_sector,
    lemma_framed_assemble, lemma_framed_kept, lemma_framed_same, lemma_framed_then,
    lemma_kept_write, lemma_payload_kept, lemma_steady_same, lemma_steady_then, lemma_tables_steady,
    meta_ok, payload, steady,
};
use crate::image::{all_storable, indexable, is_indexable, sector_offset, Layout};
use crate::sectors::{
    after_alloc, after_extend, alloc_bytes, alloc_fault, alloc_sector, alloc_step, chain_grew,
    chain_tail, extend_bytes, extend_fault, fills_sectors, find_free, find_tail, first_free,
    lemma_after_alloc, lemma_alloc_step_sound, lemma_first_free, lemma_link_sound,
    only_free_changed, slot_sector, slot_within, sound, split_slot, table_set, table_sound,
};
use crate::store::{ones, written_at};
use crate::tables::{chain_at, in_bounds, walk_chain};
use crate::tree::{forest, is_forest, link_ok, siblings_follow};
use crate::version::Version;
use vstd::prelude::*;

verus! {

/// Two directories with the same names and the same links.
pub open spec fn same_tree(d1: Seq<EntryView>, d2: Seq<EntryView>) -> bool {
    &&& d1.len() == d2.len()
    &&& forall|i: int|
        0 <= i < d1.len() ==> {
            &&& (#[trigger] d1[i]).name == d2[i].name
            &&& d1[i].left_sibling == d2[i].left_sibling
            &&& d1[i].right_sibling == d2[i].right_sibling
            &&& d1[i].child == d2[i].child
        }
}

/// What is a forest stays one while names and links stay.
pub proof fn lemma_same_tree(d1: Seq<EntryView>, d2: Seq<EntryView>)
    requires
        same_tree(d1, d2),
    ensures
        is_forest(d1) ==> is_forest(d2),
        all_storable(d1) ==> all_storable(d2),
        forall|rank: Seq<nat>| forest(d1, rank) ==> forest(d2, rank),
{
    assert forall|rank: Seq<nat>| forest(d1, rank) implies forest(d2, rank) by {
        assert forall|i: int| 0 <= i < d2.len() && #[trigger] rank[i] > 0 implies {
            &&& rank[i] <= d2.len()
            &&& link_ok(d2, rank, i, d2[i].left_sibling)
            &&& link_ok(d2, rank, i, d2[i].right_sibling)
            &&& link_ok(d2, rank, i, d2[i].child)
            &&& siblings_follow(d2, i)
        } by {
            assert(d1[i].name == d2[i].name);
            assert(link_ok(d1, rank, i, d1[i].left_sibling));
            assert(link_ok(d1, rank, i, d1[i].right_sibling));
            assert(siblings_follow(d1, i));
            if d1[i].left_sibling != crate::consts::NO_STREAM {
                assert(d1[d1[i].left_sibling as int].name == d2[d1[i].left_sibling as int].name);
            }
            if d1[i].right_sibling != crate::consts::NO_STREAM {
                assert(d1[d1[i].right_sibling as int].name == d2[d1[i].right_sibling as int].name);
            }
        }
    }
    if is_forest(d1) {
        let rank = choose|rank: Seq<nat>| forest(d1, rank);
        assert(forest(d2, rank));
    }
    if all_storable(d1) {
        assert forall|i: int| 0 <= i < d2.len() implies crate::names::storable_name(
            (#[trigger] d2[i]).name,
        ) by {
            assert(d1[i].name == d2[i].name);
        }
    }
}

/// Whether a stream of `len` bytes fills its sectors exactly.
pub open spec fn fills_whole_sectors(v: Version, len: u64) -> bool {
    match v {
        Version::V3 => len % 512 == 0,
        Version::V4 => len % 4096 == 0,
    }
}

/// The tables and the directory with another start sector of the root
/// entry.
pub open spec fn with_root_start(l: Layout, start: u32) -> Layout {
    Layout {
        directory: l.directory.update(0, EntryView { start_sector: start, ..l.directory[0] }),
        ..l
    }
}

/// The tables and the directory with another length of the root entry.
pub open spec fn with_root_len(l: Layout, len: u64) -> Layout {
    Layout {
        directory: l.directory.update(0, EntryView { stream_len: len, ..l.directory[0] }),
        ..l
    }
}

/// Offset in the image of the record of the root entry.
pub open spec fn root_pos(l: Layout) -> int {
    sector_offset(l.version, l.directory_start_sector)
}

/// The sector that holds entry `index` of the MiniFAT: the one that as many
/// links as the entry has sectors before it lead to from the first sector of
/// the MiniFAT.
pub open spec fn minifat_host(l: Layout, index: int) -> Option<u32> {
    match chain_at(l.fat, l.minifat_start_sector, slot_sector(l.version, index) as nat) {
        Some(s) => if s < l.fat.len() {
            Some(s)
        } else {
            None
        },
        None => None,
    }
}

/// A compound file after entry `index` of the MiniFAT was set, in memory and
/// in the image; or the failure to find the sector of the entry.
pub open spec fn mini_set(d: Disk, index: int, value: u32) -> Result<Disk, Error> {
    match minifat_host(d.layout, index) {
        None => Err(Error::BrokenChain),
        Some(host) => Ok(
            Disk {
                layout: Layout { minifat: table_set(d.layout.minifat, index, value), ..d.layout },
                bytes: written_at(
                    d.bytes,
                    sector_offset(d.layout.version, host) + 4 * slot_within(
                        d.layout.version,
                        index,
                    ),
                    u32_to_le(value),
                ),
            },
        ),
    }
}

/// A compound file after the chain through `start` grew by a sector.
pub open spec fn disk_extend(d: Disk, start: u32) -> Disk {
    Disk { layout: after_extend(d.layout, start), bytes: extend_bytes(d.layout, d.bytes, start) }
}

/// Why the mini stream cannot grow by a mini sector, if so.
pub open spec fn grow_fault(l: Layout) -> Option<Error> {
    let root = l.directory[0];
    if root.start_sector == END_OF_CHAIN {
        alloc_fault(l)
    } else if fills_whole_sectors(l.version, root.stream_len) {
        extend_fault(l, root.start_sector)
    } else {
        None
    }
}

/// A compound file after the mini stream grew by a mini sector: its chain
/// gets a first sector where it had none and another where the last is
/// full, and the root entry is 64 bytes longer.
#[verifier::opaque]
pub open spec fn after_grow(d: Disk) -> Disk {
    let l = d.layout;
    let root = l.directory[0];
    let d1 = if root.start_sector == END_OF_CHAIN {
        Disk {
            layout: with_root_start(after_alloc(l, END_OF_CHAIN), alloc_sector(l)),
            bytes: written_at(
                alloc_bytes(l, d.bytes, END_OF_CHAIN),
                root_pos(l) + 116,
                u32_to_le(alloc_sector(l)),
            ),
        }
    } else if fills_whole_sectors(l.version, root.stream_len) {
        disk_extend(d, root.start_sector)
    } else {
        d
    };
    let len = (root.stream_len + MINI_SECTOR_LEN) as u64;
    Disk {
        layout: with_root_len(d1.layout, len),
        bytes: written_at(d1.bytes, root_pos(l) + 120, u64_to_le(len)),
    }
}

/// A compound file after room was made for one more entry of the MiniFAT:
/// a first sector where the MiniFAT had none, another where its sectors
/// are full, each filled with free entries and counted in the header; or
/// the failure to allocate it.
#[verifier::opaque]
pub open spec fn mini_room(d: Disk) -> Result<Disk, Error> {
    let l = d.layout;
    let n = l.minifat.len() as int;
    if l.minifat_start_sector == END_OF_CHAIN {
        match alloc_fault(l) {
            Some(e) => Err(e),
            None => Ok(
                Disk {
                    layout: Layout {
                        minifat_start_sector: alloc_sector(l),
                        ..after_alloc(l, END_OF_CHAIN)
                    },
                    bytes: written_at(
                        written_at(
                            written_at(
                                alloc_bytes(l, d.bytes, END_OF_CHAIN),
                                sector_offset(l.version, alloc_sector(l)),
                                ones(l.version.sector_len_spec() as nat),
                            ),
                            60,
                            u32_to_le(alloc_sector(l)),
                        ),
                        64,
                        u32_to_le(1),
                    ),
                },
            ),
        }
    } else if fills_sectors(l.version, n) {
        match extend_fault(l, l.minifat_start_sector) {
            Some(e) => Err(e),
            None => Ok(
                Disk {
                    layout: after_extend(l, l.minifat_start_sector),
                    bytes: written_at(
                        written_at(
                            extend_bytes(l, d.bytes, l.minifat_start_sector),
                            sector_offset(l.version, alloc_sector(l)),
                            ones(l.version.sector_len_spec() as nat),
                        ),
                        64,
                        u32_to_le((slot_sector(l.version, n) + 1) as u32),
                    ),
                },
            ),
        }
    } else {
        Ok(d)
    }
}

/// The outcome of allocating a mini sector with the entry `value`: the
/// compound file afterwards, and the mini sector or the failure.  A free
/// mini sector is used again.  Else the MiniFAT gets room for one more
/// entry, the entry is added, and the mini stream grows by a mini sector;
/// where that last step fails the entry is taken back in memory.
#[verifier::opaque]
pub open spec fn mini_alloc(d: Disk, value: u32) -> (Disk, Result<u32, Error>) {
    let l = d.layout;
    let n = l.minifat.len() as int;
    let k = first_free(l.minifat, 0);
    if k < n {
        match mini_set(d, k, value) {
            Ok(d1) => (d1, Ok(k as u32)),
            Err(e) => (d, Err(e)),
        }
    } else if !indexable((n + 1) as nat) {
        (d, Err(Error::TooLarge))
    } else {
        match mini_room(d) {
            Err(e) => (d, Err(e)),
            Ok(d1) => match mini_set(d1, n, value) {
                Err(e) => (d1, Err(e)),
                Ok(d2) => match grow_fault(d2.layout) {
                    Some(e) => (Disk { layout: d1.layout, bytes: d2.bytes }, Err(e)),
                    None => (after_grow(d2), Ok(n as u32)),
                },
            },
        }
    }
}

/// The outcome of extending the mini chain through `start` by a mini
/// sector.
#[verifier::opaque]
pub open spec fn mini_extend(d: Disk, start: u32) -> (Disk, Result<u32, Error>) {
    match chain_tail(d.layout.minifat, start, d.layout.minifat.len()) {
        None => (d, Err(Error::BrokenChain)),
        Some(tail) => {
            let (d1, r1) = mini_alloc(d, END_OF_CHAIN);
            match r1 {
                Err(e) => (d1, Err(e)),
                Ok(new) => match mini_set(d1, tail as int, new) {
                    Err(e) => (d1, Err(e)),
                    Ok(d2) => (d2, Ok(new)),
                },
            }
        },
    }
}

/// Tells whether a stream of `len` bytes fills its sectors exactly.
pub fn is_whole_sectors(v: Version, len: u64) -> (r: bool)
    ensures
        r == fills_whole_sectors(v, len),
{
    match v {
        Version::V3 => len % 512 == 0,
        Version::V4 => len % 4096 == 0,
    }
}

impl CompoundFile {
    /// Sets an entry of the MiniFAT, or adds one at its end, in memory and
    /// in the image.  Nothing is changed where this fails.
    pub(crate) fn set_minifat(&mut self, index: u32, value: u32) -> (r: Result<(), Error>)
        requires
            old(self).base(),
            index <= old(self).layout().minifat.len(),
            indexable(table_set(old(self).layout().minifat, index as int, value).len()),
            value <= MAX_REGULAR_SECTOR ==> value < table_set(
                old(self).layout().minifat,
                index as int,
                value,
            ).len(),
            index == old(self).layout().minifat.len() ==> old(self).layout().minifat_start_sector
                != END_OF_CHAIN,
            index < old(self).layout().minifat.len() ==> old(self).layout().minifat[index as int]
                > MAX_REGULAR_SECTOR,
        ensures
            final(self).base(),
            framed(old(self).disk(), final(self).disk()),
            steady(old(self).layout(), final(self).layout()),
            match mini_set(old(self).disk(), index as int, value) {
                Ok(d) => r is Ok && final(self).disk() == d,
                Err(e) => r == Err::<(), Error>(e) && final(self).disk() == old(self).disk(),
            },
    {
        let ghost l0 = self.layout();
        let ghost b0 = self.bytes();
        proof {
            lemma_framed_same(self.disk());
            lemma_steady_same(l0);
        }
        let (slot, within): (usize, usize) = split_slot(self.version, index as usize);
        let host: u32 = walk_chain(&self.fat, self.minifat_start_sector, slot as u64)?;
        if host as usize >= self.fat.len() {
            return Err(Error::BrokenChain);
        }
        proof {
            assert(in_chain(l0.fat, l0.minifat_start_sector, host as int));
            lemma_kept_write(
                l0,
                b0,
                b0,
                sector_offset(l0.version, host) + 4 * within,
                u32_to_le(value),
                host as int,
            );
        }
        self.seek_within_sector(host, 4 * (within as u64));
        self.write_u32(value);
        if index as usize == self.minifat.len() {
            self.minifat.push(value);
        } else {
            self.minifat[index as usize] = value;
        }
        proof {
            let t = self.layout().minifat;
            assert forall|s: int| #[trigger] payload(l0, s) implies payload(self.layout(), s) by {}
            assert(t == table_set(l0.minifat, index as int, value));
            lemma_tables_steady(l0, self.layout());
            assert(in_bounds(t)) by {
                assert forall|i: int| 0 <= i < t.len() && #[trigger] t[i]
                    <= MAX_REGULAR_SECTOR implies t[i] < t.len() by {
                    if i != index {
                        assert(t[i] == l0.minifat[i]);
                    }
                }
            }
        }
        Ok(())
    }

    /// Adds a mini sector to the end of the mini stream.  Nothing is changed
    /// where this fails.
    pub(crate) fn append_mini_sector(&mut self) -> (r: Result<(), Error>)
        requires
            old(self).base(),
            old(self).layout().directory[0].stream_len + MINI_SECTOR_LEN <= u64::MAX,
        ensures
            final(self).base(),
            final(self).layout().minifat == old(self).layout().minifat,
            sound(old(self).layout()) ==> sound(final(self).layout()),
            framed(old(self).disk(), final(self).disk()),
            steady(old(self).layout(), final(self).layout()),
            old(self).layout().directory[0].start_sector != END_OF_CHAIN ==> final(self).layout().directory[0].start_sector == old(self).layout().directory[0].start_sector,
            meta_ok(old(self).layout()) && data_chain(
                old(self).layout(),
                old(self).layout().directory[0].start_sector,
            ) ==> data_chain(final(self).layout(), final(self).layout().directory[0].start_sector),
            match grow_fault(old(self).layout()) {
                Some(e) => r == Err::<(), Error>(e) && final(self).disk() == old(self).disk(),
                None => r is Ok && final(self).disk() == after_grow(old(self).disk()),
            },
    {
        reveal(after_grow);
        let ghost d0 = self.disk();
        let ghost l0 = self.layout();
        let directory_start_sector: u32 = self.directory_start_sector;
        let mini_stream_start_sector: u32 = self.directory[0].start_sector;
        let mini_stream_len: u64 = self.directory[0].stream_len;
        assert(l0.directory[0] == self.directory@[0]@);
        proof {
            lemma_framed_same(d0);
            lemma_steady_same(l0);
        }
        if mini_stream_start_sector == END_OF_CHAIN {
            let sector: u32 = self.allocate_sector(END_OF_CHAIN)?;
            let ghost d1 = self.disk();
            let ghost dir1 = self.layout().directory;
            self.directory[0].start_sector = sector;
            proof {
                lemma_after_alloc(l0, END_OF_CHAIN);
                if meta_ok(l0) {
                    lemma_first_data_sector(l0);
                }
                lemma_tables_steady(d1.layout, self.layout());
                lemma_steady_then(l0, d1.layout, self.layout());
                assert(self.layout().directory =~= dir1.update(
                    0,
                    EntryView { start_sector: sector, ..dir1[0] },
                ));
                lemma_same_tree(dir1, self.layout().directory);
                lemma_framed_kept(d0, d1);
                assert(chain_at(l0.fat, directory_start_sector, 0) == Some(directory_start_sector));
                assert(in_chain(l0.fat, l0.directory_start_sector, directory_start_sector as int));
                lemma_kept_write(
                    l0,
                    d0.bytes,
                    d1.bytes,
                    sector_offset(l0.version, directory_start_sector) + 116,
                    u32_to_le(sector),
                    directory_start_sector as int,
                );
            }
            self.seek_within_sector(directory_start_sector, 116);
            self.write_u32(sector);
            proof {
                lemma_framed_assemble(d0, d1, self.disk());
            }
        } else if is_whole_sectors(self.version, mini_stream_len) {
            self.extend_chain(mini_stream_start_sector)?;
        }
        let ghost d2 = self.disk();
        let ghost dir2 = self.layout().directory;
        let new_len: u64 = mini_stream_len + MINI_SECTOR_LEN as u64;
        self.directory[0].stream_len = new_len;
        proof {
            assert(self.layout().directory =~= dir2.update(
                0,
                EntryView { stream_len: new_len, ..dir2[0] },
            ));
            lemma_same_tree(dir2, self.layout().directory);
            lemma_tables_steady(d2.layout, self.layout());
            lemma_steady_then(l0, d2.layout, self.layout());
            lemma_framed_kept(d0, d2);
            assert(chain_at(l0.fat, directory_start_sector, 0) == Some(directory_start_sector));
            assert(in_chain(l0.fat, l0.directory_start_sector, directory_start_sector as int));
            lemma_kept_write(
                l0,
                d0.bytes,
                d2.bytes,
                sector_offset(l0.version, directory_start_sector) + 120,
                u64_to_le(new_len),
                directory_start_sector as int,
            );
            crate::endian::lemma_le_round_trip(0, 0, new_len);
        }
        self.seek_within_sector(directory_start_sector, 120);
        self.write_u64(new_len);
        proof {
            lemma_framed_assemble(d0, d2, self.disk());
        }
        Ok(())
    }
}

impl CompoundFile {
    /// Makes room for one more entry of the MiniFAT.  Nothing is changed
    /// where this fails.
    pub(crate) fn make_minifat_room(&mut self) -> (r: Result<(), Error>)
        requires
            old(self).wf(),
            indexable(old(self).layout().minifat.len() + 1),
        ensures
            final(self).wf(),
            final(self).layout().minifat == old(self).layout().minifat,
            final(self).layout().directory == old(self).layout().directory,
            final(self).layout().version == old(self).layout().version,
            sound(old(self).layout()) ==> sound(final(self).layout()),
            framed(old(self).disk(), final(self).disk()),
            steady(old(self).layout(), final(self).layout()),
            match mini_room(old(self).disk()) {
                Ok(d) => r is Ok && final(self).disk() == d && d.layout.minifat_start_sector
                    != END_OF_CHAIN,
                Err(e) => r == Err::<(), Error>(e) && final(self).disk() == old(self).disk(),
            },
    {
        reveal(mini_room);
        let ghost d0 = self.disk();
        let ghost l0 = self.layout();
        let ghost v = l0.version;
        let ghost ones_sector = crate::store::ones(v.sector_len_spec() as nat);
        proof {
            lemma_framed_same(d0);
            lemma_steady_same(l0);
        }
        let (slot, within): (usize, usize) = split_slot(self.version, self.minifat.len());
        if self.minifat_start_sector == END_OF_CHAIN {
            let sector: u32 = self.allocate_sector(END_OF_CHAIN)?;
            let ghost d1 = self.disk();
            proof {
                lemma_after_alloc(l0, END_OF_CHAIN);
                lemma_framed_kept(d0, d1);
                lemma_kept_write(
                    l0,
                    d0.bytes,
                    d1.bytes,
                    sector_offset(v, sector),
                    ones_sector,
                    sector as int,
                );
            }
            self.free_sector(sector);
            let ghost b2 = self.bytes();
            self.minifat_start_sector = sector;
            proof {
                lemma_kept_write(l0, d0.bytes, b2, 60, u32_to_le(sector), -1);
                lemma_kept_write(
                    l0,
                    d0.bytes,
                    written_at(b2, 60, u32_to_le(sector)),
                    64,
                    u32_to_le(1),
                    -1,
                );
                lemma_payload_kept(l0, self.layout(), sector);
                lemma_first_minifat_sector(l0);
            }
            self.put_u32(60, sector);
            self.put_u32(64, 1);
        } else if within == 0 {
            let start: u32 = self.minifat_start_sector;
            let sector: u32 = self.extend_chain(start)?;
            let ghost d1 = self.disk();
            proof {
                lemma_after_alloc(l0, END_OF_CHAIN);
                lemma_framed_kept(d0, d1);
                lemma_kept_write(
                    l0,
                    d0.bytes,
                    d1.bytes,
                    sector_offset(v, sector),
                    ones_sector,
                    sector as int,
                );
            }
            self.free_sector(sector);
            proof {
                lemma_kept_write(
                    l0,
                    d0.bytes,
                    self.bytes(),
                    64,
                    u32_to_le((slot + 1) as u32),
                    -1,
                );
            }
            self.put_u32(64, (slot + 1) as u32);
            proof {
                lemma_framed_assemble(d0, d1, self.disk());
            }
        }
        Ok(())
    }

    /// Allocates a mini sector, gives it the entry `value` in the MiniFAT,
    /// and returns its index.
    pub(crate) fn allocate_mini_sector(&mut self, value: u32) -> (r: Result<u32, Error>)
        requires
            old(self).wf(),
            value > MAX_REGULAR_SECTOR,
        ensures
            final(self).wf(),
            final(self).disk() == mini_alloc(old(self).disk(), value).0,
            r == mini_alloc(old(self).disk(), value).1,
            final(self).layout().minifat.len() >= old(self).layout().minifat.len(),
            final(self).layout().version == old(self).layout().version,
            only_free_changed(old(self).layout().minifat, final(self).layout().minifat),
            sound(old(self).layout()) && value == END_OF_CHAIN ==> sound(final(self).layout()),
            framed(old(self).disk(), final(self).disk()),
            value == END_OF_CHAIN ==> steady(old(self).layout(), final(self).layout()),
            old(self).layout().directory[0].start_sector != END_OF_CHAIN ==> final(self).layout().directory[0].start_sector == old(self).layout().directory[0].start_sector,
            value == END_OF_CHAIN && meta_ok(old(self).layout()) && data_chain(
                old(self).layout(),
                old(self).layout().directory[0].start_sector,
            ) ==> data_chain(final(self).layout(), final(self).layout().directory[0].start_sector),
            r is Ok && value == END_OF_CHAIN ==> alloc_step(
                old(self).layout().minifat,
                final(self).layout().minifat,
                r->Ok_0,
            ),
            same_tree(old(self).layout().directory, final(self).layout().directory),
            forall|i: int|
                1 <= i < old(self).layout().directory.len() ==> final(self).layout().directory[i]
                    == old(self).layout().directory[i],
            r is Ok ==> {
                &&& r->Ok_0 < final(self).layout().minifat.len()
                &&& r->Ok_0 <= MAX_REGULAR_SECTOR
                &&& final(self).layout().minifat[r->Ok_0 as int] == value
                &&& r->Ok_0 < old(self).layout().minifat.len() ==> old(self).layout().minifat[r->Ok_0 as int]
                    == FREE_SECTOR
                &&& forall|i: int|
                    0 <= i < old(self).layout().minifat.len() && i != r->Ok_0 ==> final(self).layout().minifat[i] == old(self).layout().minifat[i]
            },
            r is Err ==> final(self).layout().minifat == old(self).layout().minifat && final(self).layout().directory == old(self).layout().directory,
    {
        reveal(mini_alloc);
        let ghost d0 = self.disk();
        let free: usize = find_free(&self.minifat);
        proof {
            lemma_first_free(d0.layout.minifat, 0);
            lemma_framed_same(d0);
            lemma_steady_same(d0.layout);
        }
        if free < self.minifat.len() {
            self.set_minifat(free as u32, value)?;
            proof {
                if sound(d0.layout) && value == END_OF_CHAIN {
                    lemma_alloc_step_sound(d0.layout.minifat, self.layout().minifat, free as u32);
                }
            }
            return Ok(free as u32);
        }
        let n: usize = self.minifat.len();
        if !is_indexable(n + 1) {
            return Err(Error::TooLarge);
        }
        self.make_minifat_room()?;
        let ghost d1 = self.disk();
        match self.set_minifat(n as u32, value) {
            Ok(()) => {},
            Err(e) => {
                return Err(e);
            },
        }
        let ghost d2 = self.disk();
        proof {
            lemma_framed_then(d0, d1, d2);
            if value == END_OF_CHAIN {
                lemma_steady_then(d0.layout, d1.layout, d2.layout);
            }
        }
        match self.append_mini_sector() {
            Ok(()) => {},
            Err(e) => {
                self.minifat.pop();
                proof {
                    assert(self.layout().minifat =~= d1.layout.minifat);
                    lemma_framed_kept(d0, d2);
                    lemma_framed_assemble(d0, d2, self.disk());
                }
                return Err(e);
            },
        }
        proof {
            lemma_framed_then(d0, d2, self.disk());
            if value == END_OF_CHAIN {
                lemma_steady_then(d0.layout, d2.layout, self.layout());
            }
        }
        proof {
            lemma_after_grow(d2);
            if sound(d0.layout) && value == END_OF_CHAIN {
                lemma_alloc_step_sound(d0.layout.minifat, self.layout().minifat, n as u32);
            }
        }
        Ok(n as u32)
    }

    /// Extends the mini chain through `start` by one mini sector and
    /// returns the new mini sector.
    pub fn extend_mini_chain(&mut self, start: u32) -> (r: Result<u32, Error>)
        requires
            old(self).wf(),
        ensures
            final(self).wf(),
            final(self).disk() == mini_extend(old(self).disk(), start).0,
            r == mini_extend(old(self).disk(), start).1,
            final(self).layout().version == old(self).layout().version,
            sound(old(self).layout()) ==> sound(final(self).layout()),
            framed(old(self).disk(), final(self).disk()),
            steady(old(self).layout(), final(self).layout()),
            old(self).layout().directory[0].start_sector != END_OF_CHAIN ==> final(self).layout().directory[0].start_sector == old(self).layout().directory[0].start_sector,
            meta_ok(old(self).layout()) && data_chain(
                old(self).layout(),
                old(self).layout().directory[0].start_sector,
            ) ==> data_chain(final(self).layout(), final(self).layout().directory[0].start_sector),
            same_tree(old(self).layout().directory, final(self).layout().directory),
            forall|i: int|
                1 <= i < old(self).layout().directory.len() ==> final(self).layout().directory[i]
                    == old(self).layout().directory[i],
            r is Ok ==> final(self).layout().minifat[r->Ok_0 as int] == END_OF_CHAIN,
            r is Ok ==> chain_grew(
                old(self).layout().minifat,
                final(self).layout().minifat,
                start,
                r->Ok_0,
            ) && r->Ok_0 < final(self).layout().minifat.len(),
            r is Err ==> only_free_changed(
                old(self).layout().minifat,
                final(self).layout().minifat,
            ),
    {
        reveal(mini_extend);
        let ghost d0 = self.disk();
        let ghost t0 = self.layout().minifat;
        proof {
            lemma_framed_same(d0);
            lemma_steady_same(d0.layout);
        }
        let last: u32 = match find_tail(&self.minifat, start) {
            Some(s) => s,
            None => {
                return Err(Error::BrokenChain);
            },
        };
        let new_mini_sector: u32 = self.allocate_mini_sector(END_OF_CHAIN)?;
        let ghost d1 = self.disk();
        let ghost t1 = self.layout().minifat;
        proof {
            crate::sectors::lemma_tail_kept(t0, t1, start, t0.len(), t0.len());
            crate::sectors::lemma_tail_is_end(t1, start, t0.len());
        }
        self.set_minifat(last, new_mini_sector)?;
        proof {
            lemma_framed_then(d0, d1, self.disk());
            lemma_steady_then(d0.layout, d1.layout, self.layout());
            lemma_tables_steady(d1.layout, self.layout());
        }
        proof {
            let t2 = self.layout().minifat;
            crate::sectors::lemma_tail_kept(t0, t1, start, t0.len(), t0.len());
            crate::sectors::lemma_chain_grown(t1, start, t0.len(), new_mini_sector);
            crate::sectors::lemma_grew_after(t0, t1, t2, start, new_mini_sector);
            if table_sound(t0) {
                lemma_link_sound(t0, t1, new_mini_sector, last);
            }
        }
        Ok(new_mini_sector)
    }
}

/// What growing the mini stream changes in the directory: the start sector
/// and the length of the root entry.
pub proof fn lemma_after_grow(d: Disk)
    requires
        layout_base(d.layout),
        grow_fault(d.layout) is None,
        d.layout.directory[0].stream_len + MINI_SECTOR_LEN <= u64::MAX,
    ensures
        after_grow(d).layout.minifat == d.layout.minifat,
        after_grow(d).layout.version == d.layout.version,
        same_tree(d.layout.directory, after_grow(d).layout.directory),
        forall|i: int|
            1 <= i < d.layout.directory.len() ==> after_grow(d).layout.directory[i]
                == d.layout.directory[i],
        after_grow(d).layout.directory[0].stream_len == (d.layout.directory[0].stream_len
            + MINI_SECTOR_LEN) as u64,
{
    reveal(after_grow);
    if d.layout.directory[0].start_sector == END_OF_CHAIN {
        lemma_after_alloc(d.layout, END_OF_CHAIN);
    }
}

} // verus!
