//! Allocation tables and the chains they link.
//!
//! A table maps a sector to the next sector of its chain, or to a mark: end
//! of chain, free, or FAT sector.  The FAT does this for the sectors of the
//! file, the MiniFAT for the mini sectors of the mini stream.

use crate::consts::{END_OF_CHAIN, FAT_SECTOR, FREE_SECTOR, MAX_REGULAR_SECTOR};
use crate::error::Error;
use std::collections::HashSet;
use vstd::prelude::*;

verus! {

/// Every entry that is a sector index lies inside the table.
pub open spec fn in_bounds(t: Seq<u32>) -> bool {
    forall|i: int| 0 <= i < t.len() && #[trigger] t[i] <= MAX_REGULAR_SECTOR ==> t[i] < t.len()
}

/// No sector is the next sector of two others.
pub open spec fn no_shared_successor(t: Seq<u32>) -> bool {
    forall|i: int, j: int|
        0 <= i < j < t.len() && #[trigger] t[i] <= MAX_REGULAR_SECTOR ==> t[i] != #[trigger] t[j]
}

/// What validation asks of a table.
pub open spec fn table_ok(t: Seq<u32>) -> bool {
    in_bounds(t) && no_shared_successor(t)
}

/// Every sector that the DIFAT lists lies inside the FAT and is marked there
/// as a FAT sector.
pub open spec fn difat_ok(difat: Seq<u32>, fat: Seq<u32>) -> bool {
    forall|i: int|
        0 <= i < difat.len() ==> (#[trigger] difat[i]) < fat.len() && fat[difat[i] as int]
            == FAT_SECTOR
}

/// Whether an entry before index `i` holds `target`.
pub open spec fn pointed_before(t: Seq<u32>, i: int, target: u32) -> bool {
    exists|j: int| 0 <= j < i && j < t.len() && #[trigger] t[j] == target
}

/// What is wrong with entry `i` of a table, given the entries before it.
pub open spec fn table_fault_at(t: Seq<u32>, i: int, outside: Error, twice: Error) -> Option<
    Error,
> {
    if t[i] <= MAX_REGULAR_SECTOR {
        if t[i] >= t.len() {
            Some(outside)
        } else if pointed_before(t, i, t[i]) {
            Some(twice)
        } else {
            None
        }
    } else {
        None
    }
}

/// The fault of the first entry at or after `i` that has one.
pub open spec fn table_fault(t: Seq<u32>, i: int, outside: Error, twice: Error) -> Option<Error>
    decreases t.len() - i,
{
    if i < 0 || i >= t.len() {
        None
    } else {
        match table_fault_at(t, i, outside, twice) {
            Some(e) => Some(e),
            None => table_fault(t, i + 1, outside, twice),
        }
    }
}

/// What is wrong with entry `i` of the DIFAT.
pub open spec fn difat_fault_at(difat: Seq<u32>, fat: Seq<u32>, i: int) -> Option<Error> {
    if difat[i] >= fat.len() {
        Some(Error::DifatIndex)
    } else if fat[difat[i] as int] != FAT_SECTOR {
        Some(Error::FatSectorNotMarked)
    } else {
        None
    }
}

/// The fault of the first DIFAT entry at or after `i` that has one.
pub open spec fn difat_fault(difat: Seq<u32>, fat: Seq<u32>, i: int) -> Option<Error>
    decreases difat.len() - i,
{
    if i < 0 || i >= difat.len() {
        None
    } else {
        match difat_fault_at(difat, fat, i) {
            Some(e) => Some(e),
            None => difat_fault(difat, fat, i + 1),
        }
    }
}

/// What is wrong with the DIFAT and the FAT, if anything: the first fault of
/// the DIFAT, else the first fault of the FAT.
pub open spec fn fat_fault(difat: Seq<u32>, fat: Seq<u32>) -> Option<Error> {
    match difat_fault(difat, fat, 0) {
        Some(e) => Some(e),
        None => table_fault(fat, 0, Error::FatPointer, Error::FatPointedTwice),
    }
}

/// A table without a fault from `i` on has none at any later index.
pub proof fn lemma_table_fault_none(t: Seq<u32>, i: int, outside: Error, twice: Error)
    requires
        0 <= i,
        table_fault(t, i, outside, twice) is None,
    ensures
        forall|k: int| i <= k < t.len() ==> table_fault_at(t, k, outside, twice) is None,
    decreases t.len() - i,
{
    if i < t.len() {
        lemma_table_fault_none(t, i + 1, outside, twice);
    }
}

/// A table has no fault exactly when it is in bounds and no sector has two
/// predecessors.
pub proof fn lemma_table_fault_ok(t: Seq<u32>, outside: Error, twice: Error)
    ensures
        table_fault(t, 0, outside, twice) is None <==> table_ok(t),
{
    if table_fault(t, 0, outside, twice) is None {
        lemma_table_fault_none(t, 0, outside, twice);
        assert forall|i: int, j: int|
            0 <= i < j < t.len() && #[trigger] t[i] <= MAX_REGULAR_SECTOR implies t[i]
            != #[trigger] t[j] by {
            assert(table_fault_at(t, j, outside, twice) is None);
            if t[i] == t[j] {
                assert(pointed_before(t, j, t[j]));
            }
        }
        assert forall|i: int| 0 <= i < t.len() && #[trigger] t[i] <= MAX_REGULAR_SECTOR implies t[i]
            < t.len() by {
            assert(table_fault_at(t, i, outside, twice) is None);
        }
    }
    if table_ok(t) {
        lemma_table_ok_no_fault(t, 0, outside, twice);
    }
}

proof fn lemma_table_ok_no_fault(t: Seq<u32>, i: int, outside: Error, twice: Error)
    requires
        table_ok(t),
        0 <= i,
    ensures
        table_fault(t, i, outside, twice) is None,
    decreases t.len() - i,
{
    if i < t.len() {
        if t[i] <= MAX_REGULAR_SECTOR {
            if pointed_before(t, i, t[i]) {
                let j = choose|j: int| 0 <= j < i && j < t.len() && #[trigger] t[j] == t[i];
                assert(t[j] != t[i]);
            }
        }
        lemma_table_ok_no_fault(t, i + 1, outside, twice);
    }
}

/// A DIFAT without a fault from `i` on has none at any later index.
pub proof fn lemma_difat_fault_none(difat: Seq<u32>, fat: Seq<u32>, i: int)
    requires
        0 <= i,
        difat_fault(difat, fat, i) is None,
    ensures
        forall|k: int| i <= k < difat.len() ==> difat_fault_at(difat, fat, k) is None,
    decreases difat.len() - i,
{
    if i < difat.len() {
        lemma_difat_fault_none(difat, fat, i + 1);
    }
}

proof fn lemma_difat_ok_no_fault(difat: Seq<u32>, fat: Seq<u32>, i: int)
    requires
        difat_ok(difat, fat),
        0 <= i,
    ensures
        difat_fault(difat, fat, i) is None,
    decreases difat.len() - i,
{
    if i < difat.len() {
        assert(difat[i] < fat.len());
        lemma_difat_ok_no_fault(difat, fat, i + 1);
    }
}

/// The DIFAT and the FAT have no fault exactly when they are as validation
/// asks.
pub proof fn lemma_fat_fault_ok(difat: Seq<u32>, fat: Seq<u32>)
    ensures
        fat_fault(difat, fat) is None <==> difat_ok(difat, fat) && table_ok(fat),
{
    lemma_table_fault_ok(fat, Error::FatPointer, Error::FatPointedTwice);
    if difat_fault(difat, fat, 0) is None {
        lemma_difat_fault_none(difat, fat, 0);
        assert forall|i: int| 0 <= i < difat.len() implies (#[trigger] difat[i]) < fat.len()
            && fat[difat[i] as int] == FAT_SECTOR by {
            assert(difat_fault_at(difat, fat, i) is None);
        }
    }
    if difat_ok(difat, fat) {
        lemma_difat_ok_no_fault(difat, fat, 0);
    }
}

/// Checks a table: every entry that is a sector index lies inside the table,
/// and none occurs twice.
pub fn validate_table(t: &Vec<u32>, outside: Error, twice: Error) -> (r: Result<(), Error>)
    ensures
        r == (match table_fault(t@, 0, outside, twice) {
            Some(e) => Err::<(), Error>(e),
            None => Ok(()),
        }),
        r is Ok <==> table_ok(t@),
{
    broadcast use vstd::std_specs::hash::group_hash_axioms;

    proof {
        lemma_table_fault_ok(t@, outside, twice);
    }
    let mut pointees: HashSet<u32> = HashSet::new();
    let mut i: usize = 0;
    while i < t.len()
        invariant
            i <= t@.len(),
            table_fault(t@, 0, outside, twice) == table_fault(t@, i as int, outside, twice),
            forall|x: u32| pointees@.contains(x) <==> pointed_before(t@, i as int, x),
        decreases t@.len() - i,
    {
        let to: u32 = t[i];
        if to <= MAX_REGULAR_SECTOR {
            if to as usize >= t.len() {
                return Err(outside);
            }
            if pointees.contains(&to) {
                return Err(twice);
            }
        }
        pointees.insert(to);
        assert forall|x: u32| pointees@.contains(x) <==> pointed_before(t@, i + 1, x) by {
            if pointed_before(t@, i + 1, x) {
                let j = choose|j: int| 0 <= j < i + 1 && j < t@.len() && #[trigger] t@[j] == x;
                if j < i {
                    assert(pointed_before(t@, i as int, x));
                }
            }
            if pointees@.contains(x) {
                if x == to {
                    assert(t@[i as int] == x);
                } else {
                    assert(pointed_before(t@, i as int, x));
                    let j = choose|j: int| 0 <= j < i && j < t@.len() && #[trigger] t@[j] == x;
                    assert(0 <= j < i + 1 && t@[j] == x);
                }
            }
        }
        i = i + 1;
    }
    Ok(())
}

/// Checks the DIFAT against the FAT, then the FAT itself.
pub fn validate_difat_and_fat(difat: &Vec<u32>, fat: &Vec<u32>) -> (r: Result<(), Error>)
    ensures
        r == (match fat_fault(difat@, fat@) {
            Some(e) => Err::<(), Error>(e),
            None => Ok(()),
        }),
        r is Ok <==> difat_ok(difat@, fat@) && table_ok(fat@),
{
    proof {
        lemma_fat_fault_ok(difat@, fat@);
    }
    let mut i: usize = 0;
    while i < difat.len()
        invariant
            i <= difat@.len(),
            difat_fault(difat@, fat@, 0) == difat_fault(difat@, fat@, i as int),
        decreases difat@.len() - i,
    {
        let fat_sector: u32 = difat[i];
        if fat_sector as usize >= fat.len() {
            return Err(Error::DifatIndex);
        }
        if fat[fat_sector as usize] != FAT_SECTOR {
            return Err(Error::FatSectorNotMarked);
        }
        i = i + 1;
    }
    validate_table(fat, Error::FatPointer, Error::FatPointedTwice)
}

/// Checks the MiniFAT.
pub fn validate_minifat(minifat: &Vec<u32>) -> (r: Result<(), Error>)
    ensures
        r == (match table_fault(minifat@, 0, Error::MinifatPointer, Error::MinifatPointedTwice) {
            Some(e) => Err::<(), Error>(e),
            None => Ok(()),
        }),
        r is Ok <==> table_ok(minifat@),
{
    validate_table(minifat, Error::MinifatPointer, Error::MinifatPointedTwice)
}

/// A table without the free entries at its end.
pub open spec fn trimmed(t: Seq<u32>) -> Seq<u32>
    decreases t.len(),
{
    if t.len() > 0 && t.last() == FREE_SECTOR {
        trimmed(t.drop_last())
    } else {
        t
    }
}

/// Removes the free entries at the end of a table.
pub fn trim_free(t: &mut Vec<u32>)
    ensures
        final(t)@ == trimmed(old(t)@),
        final(t)@.len() <= old(t)@.len(),
{
    while t.len() > 0 && t[t.len() - 1] == FREE_SECTOR
        invariant
            trimmed(t@) == trimmed(old(t)@),
            t@.len() <= old(t)@.len(),
        decreases t@.len(),
    {
        let ghost before = t@;
        t.pop();
        assert(t@ =~= before.drop_last());
    }
}

/// The sector that `steps` links after `start` lead to, if each sector on
/// the way lies inside the table.
pub open spec fn chain_at(t: Seq<u32>, start: u32, steps: nat) -> Option<u32>
    decreases steps,
{
    if steps == 0 {
        Some(start)
    } else {
        match chain_at(t, start, (steps - 1) as nat) {
            Some(s) => if s < t.len() {
                Some(t[s as int])
            } else {
                None
            },
            None => None,
        }
    }
}

/// The sectors of the chain that begins at `start`, up to the end-of-chain
/// mark.  The chain is broken where it leaves the table, and too long where
/// it has more than `limit` sectors.
pub open spec fn chain(t: Seq<u32>, start: u32, limit: nat, too_long: Error) -> Result<
    Seq<u32>,
    Error,
>
    decreases limit,
{
    if start == END_OF_CHAIN {
        Ok(Seq::empty())
    } else if start >= t.len() {
        Err(Error::BrokenChain)
    } else if limit == 0 {
        Err(too_long)
    } else {
        match chain(t, t[start as int], (limit - 1) as nat, too_long) {
            Ok(rest) => Ok(seq![start] + rest),
            Err(e) => Err(e),
        }
    }
}

/// Follows `steps` links from `start`.
pub fn walk_chain(t: &Vec<u32>, start: u32, steps: u64) -> (r: Result<u32, Error>)
    ensures
        match r {
            Ok(s) => chain_at(t@, start, steps as nat) == Some(s),
            Err(e) => chain_at(t@, start, steps as nat) is None && e == Error::BrokenChain,
        },
{
    let mut sector: u32 = start;
    let mut i: u64 = 0;
    while i < steps
        invariant
            i <= steps,
            chain_at(t@, start, i as nat) == Some(sector),
        decreases steps - i,
    {
        if sector as usize >= t.len() {
            proof {
                lemma_chain_at_none(t@, start, (i + 1) as nat, steps as nat);
            }
            return Err(Error::BrokenChain);
        }
        sector = t[sector as usize];
        i = i + 1;
    }
    Ok(sector)
}

/// Once a chain has left the table it does not come back.
pub proof fn lemma_chain_at_none(t: Seq<u32>, start: u32, i: nat, k: nat)
    requires
        chain_at(t, start, i) is None,
        i <= k,
    ensures
        chain_at(t, start, k) is None,
    decreases k,
{
    if i < k {
        lemma_chain_at_none(t, start, i, (k - 1) as nat);
    }
}

/// Collects the sectors of the chain that begins at `start`.
pub fn collect_chain(t: &Vec<u32>, start: u32, limit: usize, too_long: Error) -> (r: Result<
    Vec<u32>,
    Error,
>)
    ensures
        match r {
            Ok(v) => chain(t@, start, limit as nat, too_long) == Ok::<Seq<u32>, Error>(v@),
            Err(e) => chain(t@, start, limit as nat, too_long) == Err::<Seq<u32>, Error>(e),
        },
{
    let mut out: Vec<u32> = Vec::new();
    let mut current: u32 = start;
    loop
        invariant
            out@.len() <= limit,
            chain(t@, start, limit as nat, too_long) == (match chain(
                t@,
                current,
                (limit - out@.len()) as nat,
                too_long,
            ) {
                Ok(rest) => Ok::<Seq<u32>, Error>(out@ + rest),
                Err(e) => Err(e),
            }),
        decreases limit - out@.len(),
    {
        if current == END_OF_CHAIN {
            assert(out@ + Seq::<u32>::empty() =~= out@);
            return Ok(out);
        }
        if current as usize >= t.len() {
            return Err(Error::BrokenChain);
        }
        if out.len() >= limit {
            return Err(too_long);
        }
        let ghost before = out@;
        out.push(current);
        proof {
            match chain(t@, t@[current as int], (limit - out@.len()) as nat, too_long) {
                Ok(rest) => {
                    assert(before + (seq![current] + rest) =~= out@ + rest);
                },
                Err(e) => {},
            }
        }
        current = t[current as usize];
    }
}

/// What a chain is made of: its sectors lie inside the table, each is the
/// successor of the one before, and the last is followed by the end mark.
pub proof fn lemma_chain_links(t: Seq<u32>, start: u32, limit: nat, too_long: Error)
    requires
        chain(t, start, limit, too_long) is Ok,
    ensures
        ({
            let c = chain(t, start, limit, too_long)->Ok_0;
            &&& c.len() <= limit
            &&& (c.len() == 0 <==> start == END_OF_CHAIN)
            &&& (c.len() > 0 ==> c[0] == start && t[c.last() as int] == END_OF_CHAIN)
            &&& forall|k: int| 0 <= k < c.len() ==> (#[trigger] c[k]) < t.len()
            &&& forall|k: int| 0 <= k < c.len() - 1 ==> t[c[k] as int] == #[trigger] c[k + 1]
            &&& forall|k: int| 0 <= k < c.len() ==> chain_at(t, start, k as nat) == Some(#[trigger] c[k])
            &&& chain_at(t, start, c.len()) == Some(END_OF_CHAIN)
        }),
    decreases limit,
{
    if start != END_OF_CHAIN {
        let next = t[start as int];
        lemma_chain_links(t, next, (limit - 1) as nat, too_long);
        let rest = chain(t, next, (limit - 1) as nat, too_long)->Ok_0;
        let c = chain(t, start, limit, too_long)->Ok_0;
        assert(c =~= seq![start] + rest);
        assert forall|k: int| 0 <= k < c.len() - 1 implies t[c[k] as int] == #[trigger] c[k + 1] by {
            if k > 0 {
                assert(c[k] == rest[k - 1]);
                assert(c[k + 1] == rest[k]);
            } else {
                if rest.len() > 0 {
                    assert(rest[0] == next);
                }
            }
        }
        assert forall|k: int| 0 <= k < c.len() implies chain_at(t, start, k as nat) == Some(
            #[trigger] c[k],
        ) by {
            lemma_chain_at_shift(t, start, k as nat);
            if k > 0 {
                assert(c[k] == rest[k - 1]);
            }
        }
        lemma_chain_at_shift(t, start, c.len());
        assert((c.len() - 1) as nat == rest.len());
    }
}

/// Following links from the successor of `start` is following one link more
/// from `start`.
pub proof fn lemma_chain_at_shift(t: Seq<u32>, start: u32, k: nat)
    requires
        start < t.len(),
    ensures
        k > 0 ==> chain_at(t, start, k) == chain_at(t, t[start as int], (k - 1) as nat),
    decreases k,
{
    if k == 1 {
        assert(chain_at(t, start, 0) == Some(start));
        assert(chain_at(t, t[start as int], 0) == Some(t[start as int]));
    } else if k > 1 {
        lemma_chain_at_shift(t, start, (k - 1) as nat);
        assert(chain_at(t, start, (k - 1) as nat) == chain_at(
            t,
            t[start as int],
            (k - 2) as nat,
        ));
    }
}

} // verus!
