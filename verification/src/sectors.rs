//! Allocating sectors: the FAT, the DIFAT that locates it, and the chains
//! that grow by a sector at a time.
//!
//! Every change of a table in memory is written to its place in the image
//! before the operation returns.

use crate::compound::CompoundFile;
use crate::consts::{
    END_OF_CHAIN, FAT_SECTOR, FREE_SECTOR, MAX_REGULAR_SECTOR, NUM_DIFAT_ENTRIES_IN_HEADER,
};
use crate::endian::{u32_to_le, u64_to_le};
use crate::error::Error;
use crate::frame::{
    framed, lemma_alloc_framed, lemma_alloc_steady, lemma_extend_framed, lemma_extend_steady,
    lemma_framed_same, lemma_steady_same, steady,
};
use crate::image::{addressable, is_addressable, sector_offset, Layout};
use crate::store::{ones, written_at, zeros};
use crate::tables::{chain_at, difat_ok, in_bounds, lemma_chain_at_none, lemma_chain_at_shift};
use crate::version::Version;
use vstd::prelude::*;

verus! {

/// Index among the sectors of a table of the sector that holds entry
/// `index`.
pub open spec fn slot_sector(v: Version, index: int) -> int {
    match v {
        Version::V3 => index / 128,
        Version::V4 => index / 1024,
    }
}

/// Index of entry `index` of a table inside the sector that holds it.
pub open spec fn slot_within(v: Version, index: int) -> int {
    match v {
        Version::V3 => index % 128,
        Version::V4 => index % 1024,
    }
}

/// Whether a table of `n` entries fills its sectors exactly.
pub open spec fn fills_sectors(v: Version, n: int) -> bool {
    slot_within(v, n) == 0
}

/// Splits the index of a table entry into the index of its sector and its
/// index inside that sector.
pub fn split_slot(v: Version, index: usize) -> (r: (usize, usize))
    ensures
        r.0 == slot_sector(v, index as int),
        r.1 == slot_within(v, index as int),
        r.1 < v.entries_per_sector(),
{
    match v {
        Version::V3 => (index / 128, index % 128),
        Version::V4 => (index / 1024, index % 1024),
    }
}

/// A table after entry `index` was set: the entry is replaced, or added
/// where `index` is the length of the table.
pub open spec fn table_set(t: Seq<u32>, index: int, value: u32) -> Seq<u32> {
    if index == t.len() {
        t.push(value)
    } else {
        t.update(index, value)
    }
}

/// Index of the first free entry of a table at or after `i`, or the length
/// of the table where none is free.
pub open spec fn first_free(t: Seq<u32>, i: int) -> int
    decreases t.len() - i,
{
    if i < 0 || i >= t.len() {
        t.len() as int
    } else if t[i] == FREE_SECTOR {
        i
    } else {
        first_free(t, i + 1)
    }
}

/// No two sectors have the same successor: entries that are equal are free,
/// FAT sectors, or ends of chains.
pub open spec fn chains_disjoint(t: Seq<u32>) -> bool {
    forall|a: int, b: int|
        0 <= a < t.len() && 0 <= b < t.len() && a != b && #[trigger] t[a] == #[trigger] t[b]
            ==> t[a] == FREE_SECTOR || t[a] == FAT_SECTOR || t[a] == END_OF_CHAIN
}

/// No chain leads into a free sector.
pub open spec fn no_free_successor(t: Seq<u32>) -> bool {
    forall|a: int|
        0 <= a < t.len() && #[trigger] t[a] <= MAX_REGULAR_SECTOR ==> t[a] < t.len() && t[t[a] as int]
            != FREE_SECTOR
}

/// A table whose chains are disjoint and will stay so when sectors are
/// allocated.
pub open spec fn table_sound(t: Seq<u32>) -> bool {
    chains_disjoint(t) && no_free_successor(t)
}

/// The FAT and the MiniFAT are sound.
pub open spec fn sound(l: Layout) -> bool {
    table_sound(l.fat) && table_sound(l.minifat)
}

/// What an allocation does to a table: the sector `new` that it hands out
/// was free or lies behind the old end, and now ends a chain; sectors added
/// besides it are FAT sectors; every other entry stays.
pub open spec fn alloc_step(t: Seq<u32>, t2: Seq<u32>, new: u32) -> bool {
    &&& t2.len() >= t.len()
    &&& new < t2.len()
    &&& t2[new as int] == END_OF_CHAIN
    &&& new < t.len() ==> t[new as int] == FREE_SECTOR
    &&& forall|i: int| 0 <= i < t.len() && i != new ==> #[trigger] t2[i] == t[i]
    &&& forall|i: int| t.len() <= i < t2.len() && i != new ==> #[trigger] t2[i] == FAT_SECTOR
}

/// An allocation keeps a table sound.
pub proof fn lemma_alloc_step_sound(t: Seq<u32>, t2: Seq<u32>, new: u32)
    requires
        in_bounds(t),
        table_sound(t),
        alloc_step(t, t2, new),
    ensures
        table_sound(t2),
        only_free_changed(t, t2),
{
    assert forall|a: int, b: int|
        0 <= a < t2.len() && 0 <= b < t2.len() && a != b && #[trigger] t2[a] == #[trigger] t2[b]
        implies t2[a] == FREE_SECTOR || t2[a] == FAT_SECTOR || t2[a] == END_OF_CHAIN by {
        if a != new && b != new && a < t.len() && b < t.len() {
            assert(t[a] == t[b]);
        }
    }
    assert forall|a: int| 0 <= a < t2.len() && #[trigger] t2[a] <= MAX_REGULAR_SECTOR implies t2[a]
        < t2.len() && t2[t2[a] as int] != FREE_SECTOR by {
        assert(a != new && a < t.len());
        assert(t[a] == t2[a]);
        assert(t[a] < t.len() && t[t[a] as int] != FREE_SECTOR);
        assert(t[a] != new);
    }
}

/// Linking the tail of a chain to a sector that was just allocated keeps a
/// table sound.
pub proof fn lemma_link_sound(t: Seq<u32>, t2: Seq<u32>, new: u32, tail: u32)
    requires
        in_bounds(t),
        table_sound(t),
        alloc_step(t, t2, new),
        tail < t.len(),
        t[tail as int] == END_OF_CHAIN,
        new <= MAX_REGULAR_SECTOR,
    ensures
        table_sound(t2.update(tail as int, new)),
{
    lemma_alloc_step_sound(t, t2, new);
    let t3 = t2.update(tail as int, new);
    assert(tail != new);
    assert forall|a: int, b: int|
        0 <= a < t3.len() && 0 <= b < t3.len() && a != b && #[trigger] t3[a] == #[trigger] t3[b]
        implies t3[a] == FREE_SECTOR || t3[a] == FAT_SECTOR || t3[a] == END_OF_CHAIN by {
        if a == tail || b == tail {
            let other = if a == tail {
                b
            } else {
                a
            };
            assert(t3[other] == t2[other]);
            assert(t2[other] == new);
            assert(other != new);
            if other < t.len() {
                assert(t[other] == new);
                assert(t[other] < t.len() && t[t[other] as int] != FREE_SECTOR);
            }
        } else {
            assert(t2[a] == t2[b]);
        }
    }
    assert forall|a: int| 0 <= a < t3.len() && #[trigger] t3[a] <= MAX_REGULAR_SECTOR implies t3[a]
        < t3.len() && t3[t3[a] as int] != FREE_SECTOR by {
        if a != tail {
            assert(t2[a] == t3[a]);
            assert(t2[a] < t2.len() && t2[t2[a] as int] != FREE_SECTOR);
        }
    }
}

/// Offset in the image of entry `index` of the FAT.
pub open spec fn fat_entry_pos(l: Layout, index: int) -> int {
    sector_offset(l.version, l.difat[slot_sector(l.version, index)]) + 4 * slot_within(
        l.version,
        index,
    )
}

/// The tables after a FAT sector was added at the end of the file.
pub open spec fn after_append_fat(l: Layout) -> Layout {
    Layout { difat: l.difat.push(l.fat.len() as u32), fat: l.fat.push(FAT_SECTOR), ..l }
}

/// The image after a FAT sector was added at the end of the file: the new
/// sector is zeroed, as every sector that is new to the file, and filled
/// with free entries; it is listed in the DIFAT of the header, marked in the
/// FAT, and counted in the header.
#[verifier::opaque]
pub open spec fn append_fat_bytes(l: Layout, b: Seq<u8>) -> Seq<u8> {
    let n = l.fat.len() as u32;
    let b0 = written_at(b, sector_offset(l.version, n), zeros(l.version.sector_len_spec() as nat));
    let b1 = written_at(b0, sector_offset(l.version, n), ones(l.version.sector_len_spec() as nat));
    let b2 = written_at(b1, 76 + 4 * (l.difat.len() as int), u32_to_le(n));
    let b3 = written_at(
        b2,
        fat_entry_pos(Layout { difat: l.difat.push(n), ..l }, n as int),
        u32_to_le(FAT_SECTOR),
    );
    written_at(b3, 44, u32_to_le((l.difat.len() + 1) as u32))
}

/// Why no sector can be allocated, if so: a FAT sector would be needed that
/// the header has no room to list, or the file would outgrow what can be
/// addressed.
pub open spec fn alloc_fault(l: Layout) -> Option<Error> {
    let n = l.fat.len();
    if first_free(l.fat, 0) < n {
        None
    } else if fills_sectors(l.version, n as int) {
        if l.difat.len() >= NUM_DIFAT_ENTRIES_IN_HEADER {
            Some(Error::DifatOverflow)
        } else if !addressable(l.version, n + 2) {
            Some(Error::TooLarge)
        } else {
            None
        }
    } else if !addressable(l.version, n + 1) {
        Some(Error::TooLarge)
    } else {
        None
    }
}

/// The sector that an allocation hands out: the first free one, else the
/// one after the end of the FAT, or the one after the FAT sector that has to
/// be added first.
pub open spec fn alloc_sector(l: Layout) -> u32 {
    let n = l.fat.len();
    if first_free(l.fat, 0) < n {
        first_free(l.fat, 0) as u32
    } else if fills_sectors(l.version, n as int) {
        (n + 1) as u32
    } else {
        n as u32
    }
}

/// The tables after a sector was allocated and given the entry `value`.
pub open spec fn after_alloc(l: Layout, value: u32) -> Layout {
    let n = l.fat.len();
    if first_free(l.fat, 0) < n {
        Layout { fat: l.fat.update(first_free(l.fat, 0), value), ..l }
    } else if fills_sectors(l.version, n as int) {
        Layout { fat: after_append_fat(l).fat.push(value), ..after_append_fat(l) }
    } else {
        Layout { fat: l.fat.push(value), ..l }
    }
}

/// The image after a sector was allocated: its entry is written to the FAT,
/// and a sector that is new to the file is zeroed.
#[verifier::opaque]
pub open spec fn alloc_bytes(l: Layout, b: Seq<u8>, value: u32) -> Seq<u8> {
    let n = l.fat.len();
    if first_free(l.fat, 0) < n {
        written_at(b, fat_entry_pos(l, first_free(l.fat, 0)), u32_to_le(value))
    } else {
        let l1 = if fills_sectors(l.version, n as int) {
            after_append_fat(l)
        } else {
            l
        };
        let b1 = if fills_sectors(l.version, n as int) {
            append_fat_bytes(l, b)
        } else {
            b
        };
        let m = l1.fat.len();
        written_at(
            written_at(b1, fat_entry_pos(l1, m as int), u32_to_le(value)),
            sector_offset(l.version, m as u32),
            zeros(l.version.sector_len_spec() as nat),
        )
    }
}

/// The last sector of the chain through `start`: the first one on the way
/// whose entry is the end mark.
pub open spec fn chain_tail(t: Seq<u32>, start: u32, fuel: nat) -> Option<u32>
    decreases fuel,
{
    if start >= t.len() || fuel == 0 {
        None
    } else if t[start as int] == END_OF_CHAIN {
        Some(start)
    } else {
        chain_tail(t, t[start as int], (fuel - 1) as nat)
    }
}

/// Why the chain through `start` cannot grow, if so.
pub open spec fn extend_fault(l: Layout, start: u32) -> Option<Error> {
    if chain_tail(l.fat, start, l.fat.len()) is None {
        Some(Error::BrokenChain)
    } else {
        alloc_fault(l)
    }
}

/// The tables after the chain through `start` grew by a sector.
pub open spec fn after_extend(l: Layout, start: u32) -> Layout {
    let tail = chain_tail(l.fat, start, l.fat.len())->Some_0;
    let l1 = after_alloc(l, END_OF_CHAIN);
    Layout { fat: l1.fat.update(tail as int, alloc_sector(l)), ..l1 }
}

/// The image after the chain through `start` grew by a sector.
#[verifier::opaque]
pub open spec fn extend_bytes(l: Layout, b: Seq<u8>, start: u32) -> Seq<u8> {
    let tail = chain_tail(l.fat, start, l.fat.len())->Some_0;
    written_at(
        alloc_bytes(l, b, END_OF_CHAIN),
        fat_entry_pos(after_alloc(l, END_OF_CHAIN), tail as int),
        u32_to_le(alloc_sector(l)),
    )
}

/// A table changed only where it was free, or grew.
pub open spec fn only_free_changed(t: Seq<u32>, t2: Seq<u32>) -> bool {
    &&& t2.len() >= t.len()
    &&& forall|i: int| 0 <= i < t.len() && #[trigger] t[i] != FREE_SECTOR ==> t2[i] == t[i]
}

/// The chain through `start` ended where it now goes on to `new`.
pub open spec fn chain_grew(t: Seq<u32>, t2: Seq<u32>, start: u32, new: u32) -> bool {
    forall|k: nat|
        #[trigger] chain_at(t, start, k) == Some(END_OF_CHAIN) ==> chain_at(t2, start, k) == Some(
            new,
        )
}

/// A chain is not touched by changes to free entries.
pub proof fn lemma_chain_kept(t: Seq<u32>, t2: Seq<u32>, start: u32, k: nat)
    requires
        t.len() <= MAX_REGULAR_SECTOR + 1,
        only_free_changed(t, t2),
        chain_at(t, start, k) is Some,
        chain_at(t, start, k)->Some_0 != FREE_SECTOR,
    ensures
        chain_at(t2, start, k) == chain_at(t, start, k),
    decreases k,
{
    if k > 0 {
        let prev = chain_at(t, start, (k - 1) as nat)->Some_0;
        assert(prev < t.len());
        lemma_chain_kept(t, t2, start, (k - 1) as nat);
        assert(t[prev as int] != FREE_SECTOR);
    }
}

/// Where the chain through `start` reaches the end mark after `k` links,
/// its tail is the sector before that, and no sector before the tail.
pub proof fn lemma_tail_at(t: Seq<u32>, start: u32, fuel: nat, k: nat)
    requires
        t.len() <= MAX_REGULAR_SECTOR + 1,
        chain_tail(t, start, fuel) is Some,
        chain_at(t, start, k) == Some(END_OF_CHAIN),
    ensures
        k >= 1,
        chain_at(t, start, (k - 1) as nat) == chain_tail(t, start, fuel),
        forall|j: nat| j + 1 < k ==> #[trigger] chain_at(t, start, j) != chain_tail(t, start, fuel),
    decreases fuel,
{
    let tail = chain_tail(t, start, fuel)->Some_0;
    assert(start < t.len() && fuel > 0);
    assert(chain_at(t, start, 0) == Some(start));
    assert(k >= 1);
    lemma_chain_at_shift(t, start, k);
    if t[start as int] == END_OF_CHAIN {
        assert(chain_at(t, start, 1) == Some(END_OF_CHAIN));
        if k > 1 {
            assert(chain_at(t, start, 2) is None);
            lemma_chain_at_none(t, start, 2, k);
        }
    } else {
        let next = t[start as int];
        assert(k >= 2) by {
            if k == 1 {
                assert(chain_at(t, start, 1) == Some(next));
            }
        }
        lemma_tail_at(t, next, (fuel - 1) as nat, (k - 1) as nat);
        lemma_chain_at_shift(t, start, (k - 1) as nat);
        assert forall|j: nat| j + 1 < k implies #[trigger] chain_at(t, start, j) != Some(tail) by {
            if j == 0 {
                assert(t[tail as int] == END_OF_CHAIN) by {
                    lemma_tail_is_end(t, start, fuel);
                }
            } else {
                lemma_chain_at_shift(t, start, j);
                assert(chain_at(t, next, (j - 1) as nat) != Some(tail));
            }
        }
    }
}

/// The tail of a chain is a sector whose entry is the end mark.
pub proof fn lemma_tail_is_end(t: Seq<u32>, start: u32, fuel: nat)
    requires
        chain_tail(t, start, fuel) is Some,
    ensures
        chain_tail(t, start, fuel)->Some_0 < t.len(),
        t[chain_tail(t, start, fuel)->Some_0 as int] == END_OF_CHAIN,
    decreases fuel,
{
    if t[start as int] != END_OF_CHAIN {
        lemma_tail_is_end(t, t[start as int], (fuel - 1) as nat);
    }
}

/// A chain whose tail now points to `new` reaches `new` where it reached
/// the end mark.
pub proof fn lemma_chain_grown(t: Seq<u32>, start: u32, fuel: nat, new: u32)
    requires
        t.len() <= MAX_REGULAR_SECTOR + 1,
        chain_tail(t, start, fuel) is Some,
    ensures
        chain_grew(t, t.update(chain_tail(t, start, fuel)->Some_0 as int, new), start, new),
{
    let tail = chain_tail(t, start, fuel)->Some_0;
    let t2 = t.update(tail as int, new);
    lemma_tail_is_end(t, start, fuel);
    assert forall|k: nat| #[trigger] chain_at(t, start, k) == Some(END_OF_CHAIN) implies chain_at(
        t2,
        start,
        k,
    ) == Some(new) by {
        lemma_tail_at(t, start, fuel, k);
        lemma_prefix_same(t, t2, start, tail, (k - 1) as nat);
        assert(chain_at(t2, start, (k - 1) as nat) == Some(tail));
    }
}

/// Up to the first sector whose entry differs, a chain is the same in two
/// tables.
pub proof fn lemma_prefix_same(t: Seq<u32>, t2: Seq<u32>, start: u32, changed: u32, k: nat)
    requires
        t2.len() == t.len(),
        forall|i: int| 0 <= i < t.len() && i != changed ==> t2[i] == t[i],
        chain_at(t, start, k) is Some,
        forall|j: nat| j < k ==> #[trigger] chain_at(t, start, j) != Some(changed),
    ensures
        chain_at(t2, start, k) == chain_at(t, start, k),
    decreases k,
{
    if k > 0 {
        lemma_prefix_same(t, t2, start, changed, (k - 1) as nat);
    }
}

/// Growth of a chain composes with changes to free entries before it.
pub proof fn lemma_grew_after(t0: Seq<u32>, t1: Seq<u32>, t2: Seq<u32>, start: u32, new: u32)
    requires
        t0.len() <= MAX_REGULAR_SECTOR + 1,
        only_free_changed(t0, t1),
        chain_grew(t1, t2, start, new),
    ensures
        chain_grew(t0, t2, start, new),
{
    assert forall|k: nat| #[trigger] chain_at(t0, start, k) == Some(END_OF_CHAIN) implies chain_at(
        t2,
        start,
        k,
    ) == Some(new) by {
        lemma_chain_kept(t0, t1, start, k);
        assert(chain_at(t1, start, k) == Some(END_OF_CHAIN));
    }
}

/// The tail of a chain is not touched by changes to free entries.
pub proof fn lemma_tail_kept(t: Seq<u32>, t2: Seq<u32>, start: u32, fuel: nat, fuel2: nat)
    requires
        t.len() <= MAX_REGULAR_SECTOR + 1,
        only_free_changed(t, t2),
        chain_tail(t, start, fuel) is Some,
        fuel2 >= fuel,
    ensures
        chain_tail(t2, start, fuel2) == chain_tail(t, start, fuel),
    decreases fuel,
{
    if t[start as int] != END_OF_CHAIN {
        assert(t[start as int] != FREE_SECTOR) by {
            if t[start as int] == FREE_SECTOR {
                assert(chain_tail(t, FREE_SECTOR, (fuel - 1) as nat) is None);
            }
        }
        lemma_tail_kept(t, t2, t[start as int], (fuel - 1) as nat, (fuel2 - 1) as nat);
    }
}

/// Whether an entry is one that many sectors may share: free, FAT sector or
/// end of chain.
pub open spec fn shared_mark(x: u32) -> bool {
    x == FREE_SECTOR || x == FAT_SECTOR || x == END_OF_CHAIN
}

/// Whether an entry before index `i` holds `x`.
pub open spec fn held_before(t: Seq<u32>, i: int, x: u32) -> bool {
    exists|j: int| 0 <= j < i && j < t.len() && #[trigger] t[j] == x
}

/// Tells whether a table is sound: no two sectors have the same successor,
/// and no chain leads into a free sector.
pub fn check_table_sound(t: &Vec<u32>) -> (r: bool)
    ensures
        r == table_sound(t@),
{
    broadcast use vstd::std_specs::hash::group_hash_axioms;

    let mut seen: std::collections::HashSet<u32> = std::collections::HashSet::new();
    let mut i: usize = 0;
    while i < t.len()
        invariant
            i <= t@.len(),
            forall|x: u32| seen@.contains(x) <==> held_before(t@, i as int, x),
            forall|a: int, b: int|
                0 <= a < i && 0 <= b < i && a != b && #[trigger] t@[a] == #[trigger] t@[b]
                    ==> shared_mark(t@[a]),
            forall|a: int|
                0 <= a < i && #[trigger] t@[a] <= MAX_REGULAR_SECTOR ==> t@[a] < t@.len()
                    && t@[t@[a] as int] != FREE_SECTOR,
        decreases t@.len() - i,
    {
        let x: u32 = t[i];
        if x <= MAX_REGULAR_SECTOR {
            if x as usize >= t.len() || t[x as usize] == FREE_SECTOR {
                assert(!no_free_successor(t@));
                return false;
            }
        }
        if x != FREE_SECTOR && x != FAT_SECTOR && x != END_OF_CHAIN {
            if seen.contains(&x) {
                proof {
                    let j = choose|j: int| 0 <= j < i && j < t@.len() && #[trigger] t@[j] == x;
                    assert(t@[j] == t@[i as int]);
                    assert(!chains_disjoint(t@));
                }
                return false;
            }
        }
        seen.insert(x);
        proof {
            assert forall|y: u32| seen@.contains(y) <==> held_before(t@, i + 1, y) by {
                if held_before(t@, i + 1, y) {
                    let j = choose|j: int| 0 <= j < i + 1 && j < t@.len() && #[trigger] t@[j] == y;
                    if j < i {
                        assert(held_before(t@, i as int, y));
                    }
                }
                if seen@.contains(y) {
                    if y == x {
                        assert(t@[i as int] == y);
                    } else {
                        assert(held_before(t@, i as int, y));
                        let j = choose|j: int| 0 <= j < i && j < t@.len() && #[trigger] t@[j] == y;
                        assert(0 <= j < i + 1 && t@[j] == y);
                    }
                }
            }
            assert forall|a: int, b: int|
                0 <= a < i + 1 && 0 <= b < i + 1 && a != b && #[trigger] t@[a] == #[trigger] t@[b]
                implies shared_mark(t@[a]) by {
                if a == i || b == i {
                    let other = if a == i {
                        b
                    } else {
                        a
                    };
                    assert(t@[other] == x);
                    assert(held_before(t@, i as int, x));
                }
            }
        }
        i = i + 1;
    }
    true
}

/// Finds the first free entry of a table.
pub fn find_free(t: &Vec<u32>) -> (r: usize)
    ensures
        r == first_free(t@, 0),
        r <= t@.len(),
        r < t@.len() ==> t@[r as int] == FREE_SECTOR,
{
    let mut i: usize = 0;
    while i < t.len()
        invariant
            i <= t@.len(),
            first_free(t@, 0) == first_free(t@, i as int),
        decreases t@.len() - i,
    {
        if t[i] == FREE_SECTOR {
            return i;
        }
        i = i + 1;
    }
    i
}

/// Finds the last sector of the chain through `start`.
pub fn find_tail(t: &Vec<u32>, start: u32) -> (r: Option<u32>)
    ensures
        r == chain_tail(t@, start, t@.len()),
        r is Some ==> r->Some_0 < t@.len() && t@[r->Some_0 as int] == END_OF_CHAIN,
{
    let mut last: u32 = start;
    let mut steps: usize = 0;
    loop
        invariant
            steps <= t@.len(),
            chain_tail(t@, start, t@.len()) == chain_tail(t@, last, (t@.len() - steps) as nat),
        decreases t@.len() - steps,
    {
        if last as usize >= t.len() || steps >= t.len() {
            return None;
        }
        let next: u32 = t[last as usize];
        if next == END_OF_CHAIN {
            return Some(last);
        }
        last = next;
        steps = steps + 1;
    }
}

impl CompoundFile {
    /// Writes a 32-bit number at an offset of the image.
    pub(crate) fn put_u32(&mut self, pos: u64, value: u32)
        requires
            pos + 4 <= usize::MAX,
        ensures
            final(self).layout() == old(self).layout(),
            final(self).bytes() == written_at(old(self).bytes(), pos as int, u32_to_le(value)),
            final(self).position() == pos + 4,
    {
        self.inner.seek_to(pos);
        self.write_u32(value);
    }

    /// Writes a 32-bit number where the backing store stands.
    pub(crate) fn write_u32(&mut self, value: u32)
        requires
            old(self).position() + 4 <= usize::MAX,
        ensures
            final(self).layout() == old(self).layout(),
            final(self).bytes() == written_at(
                old(self).bytes(),
                old(self).position() as int,
                u32_to_le(value),
            ),
            final(self).position() == old(self).position() + 4,
    {
        match self.inner.write_u32(value) {
            Ok(()) => {},
            Err(_) => {
                assert(false);
            },
        }
    }

    /// Writes a 64-bit number where the backing store stands.
    pub(crate) fn write_u64(&mut self, value: u64)
        requires
            old(self).position() + 8 <= usize::MAX,
        ensures
            final(self).layout() == old(self).layout(),
            final(self).bytes() == written_at(
                old(self).bytes(),
                old(self).position() as int,
                u64_to_le(value),
            ),
            final(self).position() == old(self).position() + 8,
    {
        match self.inner.write_u64(value) {
            Ok(()) => {},
            Err(_) => {
                assert(false);
            },
        }
    }

    /// Writes bytes where the backing store stands.
    pub(crate) fn write_bytes(&mut self, data: &[u8])
        requires
            old(self).position() + data@.len() <= usize::MAX,
        ensures
            final(self).layout() == old(self).layout(),
            final(self).bytes() == written_at(
                old(self).bytes(),
                old(self).position() as int,
                data@,
            ),
            final(self).position() == old(self).position() + data@.len(),
    {
        match self.inner.write_all(data) {
            Ok(()) => {},
            Err(_) => {
                assert(false);
            },
        }
    }

    /// Fills a sector with zeroes.
    pub(crate) fn zero_sector(&mut self, sector: u32)
        requires
            sector_offset(old(self).layout().version, sector) + old(self).layout().version.sector_len_spec() <= usize::MAX,
        ensures
            final(self).layout() == old(self).layout(),
            final(self).bytes() == written_at(
                old(self).bytes(),
                sector_offset(old(self).layout().version, sector),
                zeros(old(self).layout().version.sector_len_spec() as nat),
            ),
    {
        self.seek_to_sector(sector);
        match self.inner.write_zeros(self.version.sector_len()) {
            Ok(()) => {},
            Err(_) => {
                assert(false);
            },
        }
    }

    /// Fills a sector with free table entries.
    pub(crate) fn free_sector(&mut self, sector: u32)
        requires
            sector_offset(old(self).layout().version, sector) + old(self).layout().version.sector_len_spec()
                <= usize::MAX,
        ensures
            final(self).layout() == old(self).layout(),
            final(self).bytes() == written_at(
                old(self).bytes(),
                sector_offset(old(self).layout().version, sector),
                ones(old(self).layout().version.sector_len_spec() as nat),
            ),
    {
        self.seek_to_sector(sector);
        match self.inner.write_ones(self.version.sector_len()) {
            Ok(()) => {},
            Err(_) => {
                assert(false);
            },
        }
    }

    /// Sets an entry of the FAT, or adds one at its end, in memory and in
    /// the image.
    pub(crate) fn set_fat(&mut self, index: u32, value: u32)
        requires
            index <= old(self).layout().fat.len(),
            slot_sector(old(self).layout().version, index as int) < old(self).layout().difat.len(),
            old(self).layout().difat[slot_sector(old(self).layout().version, index as int)] <= old(self).layout().fat.len(),
            addressable(old(self).layout().version, old(self).layout().fat.len()),
        ensures
            final(self).layout() == (Layout {
                fat: table_set(old(self).layout().fat, index as int, value),
                ..old(self).layout()
            }),
            final(self).bytes() == written_at(
                old(self).bytes(),
                fat_entry_pos(old(self).layout(), index as int),
                u32_to_le(value),
            ),
    {
        let (slot, within): (usize, usize) = split_slot(self.version, index as usize);
        let fat_sector: u32 = self.difat[slot];
        self.seek_within_sector(fat_sector, 4 * (within as u64));
        self.write_u32(value);
        if index as usize == self.fat.len() {
            self.fat.push(value);
        } else {
            self.fat[index as usize] = value;
        }
    }

    /// Adds a FAT sector at the end of the file and records it in the
    /// DIFAT, in the FAT and in the header.
    pub(crate) fn append_fat_sector(&mut self)
        requires
            old(self).base(),
            old(self).layout().difat.len() < NUM_DIFAT_ENTRIES_IN_HEADER,
            addressable(old(self).layout().version, old(self).layout().fat.len() + 1),
        ensures
            final(self).base(),
            final(self).layout() == after_append_fat(old(self).layout()),
            final(self).bytes() == append_fat_bytes(old(self).layout(), old(self).bytes()),
    {
        reveal(append_fat_bytes);
        let ghost l0 = self.layout();
        let new_fat_sector: u32 = self.fat.len() as u32;
        self.zero_sector(new_fat_sector);
        self.free_sector(new_fat_sector);
        let difat_index: usize = self.difat.len();
        self.difat.push(new_fat_sector);
        self.put_u32(76 + 4 * (difat_index as u64), new_fat_sector);
        proof {
            let v = l0.version;
            let n = l0.fat.len() as int;
            assert(slot_sector(v, n) <= l0.difat.len());
            if slot_sector(v, n) < l0.difat.len() {
                assert(self.layout().difat[slot_sector(v, n)] == l0.difat[slot_sector(v, n)]);
            }
        }
        self.set_fat(new_fat_sector, FAT_SECTOR);
        self.put_u32(44, self.difat.len() as u32);
        proof {
            let l1 = self.layout();
            assert(l1.difat =~= l0.difat.push(new_fat_sector));
            assert(l1.fat =~= l0.fat.push(FAT_SECTOR));
            assert(difat_ok(l1.difat, l1.fat)) by {
                assert forall|i: int| 0 <= i < l1.difat.len() implies (#[trigger] l1.difat[i])
                    < l1.fat.len() && l1.fat[l1.difat[i] as int] == FAT_SECTOR by {
                    if i < l0.difat.len() {
                        assert(l1.difat[i] == l0.difat[i]);
                    }
                }
            }
            assert(in_bounds(l1.fat)) by {
                assert forall|i: int| 0 <= i < l1.fat.len() && #[trigger] l1.fat[i]
                    <= MAX_REGULAR_SECTOR implies l1.fat[i] < l1.fat.len() by {
                    if i < l0.fat.len() {
                        assert(l1.fat[i] == l0.fat[i]);
                    }
                }
            }
        }
    }
}

impl CompoundFile {
    /// Tells whether the FAT and the MiniFAT are sound.  They stay so under
    /// every operation; a compound file that was opened may hold chains
    /// that lead into free sectors, and is not sound then.
    pub fn is_sound(&self) -> (r: bool)
        ensures
            r == sound(self.layout()),
    {
        check_table_sound(&self.fat) && check_table_sound(&self.minifat)
    }

    /// Allocates a sector, gives it the entry `value` in the FAT, and
    /// returns its index.  A free sector is used again; else the file grows
    /// by a sector, after a FAT sector where the FAT is full.  Nothing is
    /// changed where this fails.
    pub(crate) fn allocate_sector(&mut self, value: u32) -> (r: Result<u32, Error>)
        requires
            old(self).base(),
            value > MAX_REGULAR_SECTOR,
        ensures
            final(self).base(),
            old(self).wf() ==> final(self).wf(),
            only_free_changed(old(self).layout().fat, final(self).layout().fat),
            final(self).layout().minifat == old(self).layout().minifat,
            r is Ok && value == END_OF_CHAIN ==> alloc_step(
                old(self).layout().fat,
                final(self).layout().fat,
                r->Ok_0,
            ),
            value == END_OF_CHAIN && sound(old(self).layout()) ==> sound(final(self).layout()),
            value == END_OF_CHAIN ==> framed(old(self).disk(), final(self).disk()),
            value == END_OF_CHAIN ==> steady(old(self).layout(), final(self).layout()),
            match alloc_fault(old(self).layout()) {
                Some(e) => {
                    &&& r == Err::<u32, Error>(e)
                    &&& final(self).layout() == old(self).layout()
                    &&& final(self).bytes() == old(self).bytes()
                },
                None => {
                    &&& r == Ok::<u32, Error>(alloc_sector(old(self).layout()))
                    &&& final(self).layout() == after_alloc(old(self).layout(), value)
                    &&& final(self).bytes() == alloc_bytes(
                        old(self).layout(),
                        old(self).bytes(),
                        value,
                    )
                },
            },
    {
        reveal(alloc_bytes);
        let ghost l0 = self.layout();
        proof {
            lemma_framed_same(self.disk());
            lemma_steady_same(l0);
            if alloc_fault(l0) is None {
                lemma_alloc_framed(l0, self.bytes());
                lemma_alloc_steady(l0);
            }
        }
        let free: usize = find_free(&self.fat);
        if free < self.fat.len() {
            proof {
                lemma_slot_hosted(l0, free as int);
            }
            self.set_fat(free as u32, value);
            proof {
                lemma_set_keeps_wf(l0, free as int, value);
                lemma_first_free(l0.fat, 0);
                if value == END_OF_CHAIN && sound(l0) {
                    lemma_alloc_step_sound(l0.fat, self.layout().fat, free as u32);
                }
            }
            return Ok(free as u32);
        }
        let (_slot, within): (usize, usize) = split_slot(self.version, self.fat.len());
        if within == 0 {
            if self.difat.len() >= NUM_DIFAT_ENTRIES_IN_HEADER {
                return Err(Error::DifatOverflow);
            }
            if !is_addressable(self.version, self.fat.len() + 2) {
                return Err(Error::TooLarge);
            }
            self.append_fat_sector();
        } else if !is_addressable(self.version, self.fat.len() + 1) {
            return Err(Error::TooLarge);
        }
        let ghost l1 = self.layout();
        let new_sector: u32 = self.fat.len() as u32;
        proof {
            lemma_slot_hosted(l1, new_sector as int);
        }
        self.set_fat(new_sector, value);
        self.zero_sector(new_sector);
        proof {
            lemma_set_keeps_wf(l1, new_sector as int, value);
            lemma_first_free(l0.fat, 0);
            if value == END_OF_CHAIN && sound(l0) {
                lemma_alloc_step_sound(l0.fat, self.layout().fat, new_sector);
            }
        }
        Ok(new_sector)
    }

    /// Extends the chain through `start` by one sector and returns the new
    /// sector.  Nothing is changed where this fails.
    pub fn extend_chain(&mut self, start: u32) -> (r: Result<u32, Error>)
        requires
            old(self).base(),
        ensures
            final(self).base(),
            old(self).wf() ==> final(self).wf(),
            r is Ok ==> chain_grew(
                old(self).layout().fat,
                final(self).layout().fat,
                start,
                r->Ok_0,
            ) && r->Ok_0 < final(self).layout().fat.len(),
            final(self).layout().minifat == old(self).layout().minifat,
            sound(old(self).layout()) ==> sound(final(self).layout()),
            framed(old(self).disk(), final(self).disk()),
            steady(old(self).layout(), final(self).layout()),
            match extend_fault(old(self).layout(), start) {
                Some(e) => {
                    &&& r == Err::<u32, Error>(e)
                    &&& final(self).layout() == old(self).layout()
                    &&& final(self).bytes() == old(self).bytes()
                },
                None => {
                    &&& r == Ok::<u32, Error>(alloc_sector(old(self).layout()))
                    &&& final(self).layout() == after_extend(old(self).layout(), start)
                    &&& final(self).bytes() == extend_bytes(
                        old(self).layout(),
                        old(self).bytes(),
                        start,
                    )
                },
            },
    {
        reveal(extend_bytes);
        let ghost l0 = self.layout();
        proof {
            lemma_framed_same(self.disk());
            lemma_steady_same(l0);
            if extend_fault(l0, start) is None {
                lemma_extend_framed(l0, self.bytes(), start);
                lemma_extend_steady(l0, start);
            }
        }
        let last_sector: u32 = match find_tail(&self.fat, start) {
            Some(s) => s,
            None => {
                return Err(Error::BrokenChain);
            },
        };
        let new_sector: u32 = self.allocate_sector(END_OF_CHAIN)?;
        let ghost l1 = self.layout();
        proof {
            lemma_after_alloc(l0, END_OF_CHAIN);
            lemma_slot_hosted(l1, last_sector as int);
        }
        self.set_fat(last_sector, new_sector);
        proof {
            lemma_set_keeps_wf(l1, last_sector as int, new_sector);
            lemma_tail_kept(l0.fat, l1.fat, start, l0.fat.len(), l0.fat.len());
            lemma_chain_grown(l1.fat, start, l0.fat.len(), new_sector);
            lemma_grew_after(l0.fat, l1.fat, self.layout().fat, start, new_sector);
            if sound(l0) {
                lemma_link_sound(l0.fat, l1.fat, new_sector, last_sector);
            }
        }
        Ok(new_sector)
    }
}

/// The first free entry is free, and no entry before it is.
pub proof fn lemma_first_free(t: Seq<u32>, i: int)
    requires
        0 <= i <= t.len(),
    ensures
        i <= first_free(t, i) <= t.len(),
        first_free(t, i) < t.len() ==> t[first_free(t, i)] == FREE_SECTOR,
        forall|j: int| i <= j < first_free(t, i) ==> t[j] != FREE_SECTOR,
    decreases t.len() - i,
{
    if i < t.len() && t[i] != FREE_SECTOR {
        lemma_first_free(t, i + 1);
    }
}

/// What an allocation changes in the FAT: the sector it hands out gets its
/// entry, a FAT sector that had to be added is marked, and every other entry
/// stays.
pub proof fn lemma_after_alloc(l: Layout, value: u32)
    requires
        crate::compound::layout_base(l),
        alloc_fault(l) is None,
    ensures
        ({
            let a = after_alloc(l, value);
            let s = alloc_sector(l);
            &&& a.fat.len() >= l.fat.len()
            &&& a.fat.len() <= MAX_REGULAR_SECTOR + 1
            &&& a.version == l.version
            &&& a.directory == l.directory
            &&& a.minifat == l.minifat
            &&& s <= MAX_REGULAR_SECTOR
            &&& s < a.fat.len()
            &&& a.fat[s as int] == value
            &&& s < l.fat.len() ==> l.fat[s as int] == FREE_SECTOR
            &&& forall|i: int| 0 <= i < l.fat.len() && i != s ==> a.fat[i] == l.fat[i]
            &&& forall|i: int| l.fat.len() <= i < a.fat.len() && i != s ==> a.fat[i] == FAT_SECTOR
        }),
{
    lemma_first_free(l.fat, 0);
}

/// The sector that holds an entry of a well-formed FAT, or the entry after
/// its end where the FAT does not fill its sectors, is listed in the DIFAT
/// and lies inside the FAT.
pub proof fn lemma_slot_hosted(l: Layout, index: int)
    requires
        crate::compound::layout_base(l),
        0 <= index <= l.fat.len(),
        index == l.fat.len() ==> !fills_sectors(l.version, index) || slot_sector(l.version, index)
            < l.difat.len(),
    ensures
        0 <= slot_sector(l.version, index) < l.difat.len(),
        l.difat[slot_sector(l.version, index)] < l.fat.len(),
{
}

/// Setting an entry that is not that of a FAT sector to a mark, or to a
/// sector inside the FAT, keeps a compound file well formed.
pub proof fn lemma_set_keeps_wf(l: Layout, index: int, value: u32)
    requires
        crate::compound::layout_base(l),
        0 <= index <= l.fat.len(),
        index < l.fat.len() ==> l.fat[index] != FAT_SECTOR,
        index == l.fat.len() ==> addressable(l.version, l.fat.len() + 1) && (!fills_sectors(
            l.version,
            index,
        ) || slot_sector(l.version, index) < l.difat.len()),
        value <= MAX_REGULAR_SECTOR ==> value < table_set(l.fat, index, value).len(),
    ensures
        crate::compound::layout_base(Layout { fat: table_set(l.fat, index, value), ..l }),
{
    let t = table_set(l.fat, index, value);
    let l1 = Layout { fat: t, ..l };
    assert(in_bounds(t)) by {
        assert forall|i: int| 0 <= i < t.len() && #[trigger] t[i] <= MAX_REGULAR_SECTOR implies t[i]
            < t.len() by {
            if i != index {
                assert(t[i] == l.fat[i]);
            }
        }
    }
    assert(difat_ok(l1.difat, t)) by {
        assert forall|i: int| 0 <= i < l1.difat.len() implies (#[trigger] l1.difat[i]) < t.len()
            && t[l1.difat[i] as int] == FAT_SECTOR by {
            assert(l.difat[i] < l.fat.len());
            assert(l.fat[l.difat[i] as int] == FAT_SECTOR);
        }
    }
}

} // verus!
