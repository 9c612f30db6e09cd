//! What allocation leaves alone: the bytes of the sectors that hold data.
//!
//! Allocating a sector writes to the header, to FAT sectors, to the sectors
//! of the MiniFAT, to the first sector of the directory, and to sectors that
//! were free or lay behind the end of the FAT; other updates write to the
//! sectors of the directory.  A sector that is none of these is payload, and
//! stays as it is.

use crate::compound::{layout_base, Disk};
use crate::consts::{END_OF_CHAIN, FAT_SECTOR, FREE_SECTOR, MAX_REGULAR_SECTOR};
use crate::endian::u32_to_le;
use crate::image::{addressable, sector_offset, Layout};
use crate::sectors::{
    after_alloc, after_append_fat, after_extend, alloc_bytes, alloc_fault, alloc_sector,
    append_fat_bytes, chain_tail, extend_bytes, extend_fault, fat_entry_pos, fills_sectors,
    first_free, lemma_after_alloc, lemma_first_free, lemma_slot_hosted, slot_sector,
};
use crate::store::written_at;
use crate::tables::chain_at;
use crate::version::Version;
use vstd::prelude::*;

verus! {

/// The sector that holds the byte at offset `q` of the image; -1 for the
/// header.
pub open spec fn sector_at(v: Version, q: int) -> int {
    match v {
        Version::V3 => q / 512 - 1,
        Version::V4 => q / 4096 - 1,
    }
}

/// Whether the chain from `start` passes through sector `s`.
pub open spec fn in_chain(t: Seq<u32>, start: u32, s: int) -> bool {
    exists|k: nat| #[trigger] chain_at(t, start, k) == Some(s as u32) && 0 <= s <= u32::MAX
}

/// A sector that holds data and nothing else: it lies inside the FAT, is
/// neither free nor a FAT sector, and is no sector of the directory or of the
/// MiniFAT.
pub open spec fn payload(l: Layout, s: int) -> bool {
    &&& 0 <= s < l.fat.len()
    &&& l.fat[s] != FAT_SECTOR
    &&& l.fat[s] != FREE_SECTOR
    &&& !in_chain(l.fat, l.directory_start_sector, s)
    &&& !in_chain(l.fat, l.minifat_start_sector, s)
}

/// What a step that allocates has left alone: the bytes of every payload
/// sector, and that it is payload.  The entry of a payload sector has
/// changed only where it was the end of a chain.
pub open spec fn framed(d: Disk, d2: Disk) -> bool {
    &&& d2.layout.version == d.layout.version
    &&& d2.layout.directory_start_sector == d.layout.directory_start_sector
    &&& d2.layout.fat.len() >= d.layout.fat.len()
    &&& d2.bytes.len() >= d.bytes.len()
    &&& forall|q: int|
        0 <= q < d.bytes.len() && payload(d.layout, sector_at(d.layout.version, q))
            ==> #[trigger] d2.bytes[q] == d.bytes[q]
    &&& forall|s: int| #[trigger] payload(d.layout, s) ==> payload(d2.layout, s)
    &&& forall|s: int|
        #[trigger] payload(d.layout, s) ==> d2.layout.fat[s] == d.layout.fat[s]
            || d.layout.fat[s] == END_OF_CHAIN
}

/// A step that changes nothing leaves everything alone.
pub proof fn lemma_framed_same(d: Disk)
    ensures
        framed(d, d),
{
}

/// What two steps leave alone, one after the other.
pub proof fn lemma_framed_then(d: Disk, d1: Disk, d2: Disk)
    requires
        framed(d, d1),
        framed(d1, d2),
    ensures
        framed(d, d2),
{
    assert forall|q: int|
        0 <= q < d.bytes.len() && payload(d.layout, sector_at(d.layout.version, q))
        implies #[trigger] d2.bytes[q] == d.bytes[q] by {
        assert(payload(d1.layout, sector_at(d.layout.version, q)));
        assert(d1.bytes[q] == d.bytes[q]);
    }
    assert forall|s: int| #[trigger] payload(d.layout, s) implies payload(d2.layout, s) && (
    d2.layout.fat[s] == d.layout.fat[s] || d.layout.fat[s] == END_OF_CHAIN) by {
        assert(payload(d1.layout, s));
        if d.layout.fat[s] != END_OF_CHAIN {
            assert(d1.layout.fat[s] == d.layout.fat[s]);
        }
    }
}

/// Where a table changed by an allocation and, maybe, by the link from the
/// end of a chain to the new sector: a chain passes through the sectors it
/// passed through before, the new sector, and nothing else inside the old
/// table.
pub proof fn lemma_chain_members(
    t: Seq<u32>,
    t2: Seq<u32>,
    start: u32,
    new: u32,
    k: nat,
)
    requires
        t.len() <= MAX_REGULAR_SECTOR + 1,
        t2.len() >= t.len(),
        new < t.len() ==> t[new as int] == FREE_SECTOR,
        new < t2.len() ==> t2[new as int] > MAX_REGULAR_SECTOR,
        forall|i: int|
            0 <= i < t.len() && i != new ==> #[trigger] t2[i] == t[i] || (t[i] == END_OF_CHAIN
                && t2[i] == new),
        forall|i: int| t.len() <= i < t2.len() && i != new ==> #[trigger] t2[i] > MAX_REGULAR_SECTOR,
        chain_at(t2, start, k) is Some,
    ensures
        chain_at(t2, start, k) == chain_at(t, start, k) || chain_at(t2, start, k) == Some(new)
            || chain_at(t2, start, k)->Some_0 >= t.len(),
    decreases k,
{
    if k > 0 {
        let y = chain_at(t2, start, (k - 1) as nat)->Some_0;
        lemma_chain_members(t, t2, start, new, (k - 1) as nat);
        if y != new && y < t.len() {
            assert(chain_at(t, start, (k - 1) as nat) == Some(y));
        }
    }
}

/// A chain that passes through a sector which is neither free nor new
/// passed through it before the table changed.
pub proof fn lemma_member_before(t: Seq<u32>, t2: Seq<u32>, start: u32, new: u32, s: int)
    requires
        t.len() <= MAX_REGULAR_SECTOR + 1,
        t2.len() >= t.len(),
        new < t.len() ==> t[new as int] == FREE_SECTOR,
        new < t2.len() ==> t2[new as int] > MAX_REGULAR_SECTOR,
        forall|i: int|
            0 <= i < t.len() && i != new ==> #[trigger] t2[i] == t[i] || (t[i] == END_OF_CHAIN
                && t2[i] == new),
        forall|i: int| t.len() <= i < t2.len() && i != new ==> #[trigger] t2[i] > MAX_REGULAR_SECTOR,
        in_chain(t2, start, s),
        0 <= s < t.len(),
        s != new,
    ensures
        in_chain(t, start, s),
{
    let k = choose|k: nat| #[trigger] chain_at(t2, start, k) == Some(s as u32) && 0 <= s <= u32::MAX;
    lemma_chain_members(t, t2, start, new, k);
    assert(chain_at(t, start, k) == Some(s as u32));
}

/// Offset in the image of the first byte of sector `s`.
pub open spec fn sector_start(v: Version, s: int) -> int {
    match v {
        Version::V3 => 512 * (1 + s),
        Version::V4 => 4096 * (1 + s),
    }
}

/// A write inside the header, or inside a sector that is not payload,
/// leaves every payload sector alone.
pub proof fn lemma_write_framed(l: Layout, b: Seq<u8>, pos: int, data: Seq<u8>, s: int)
    requires
        0 <= pos,
        s >= -1,
        !payload(l, s),
        sector_start(l.version, s) <= pos,
        pos + data.len() <= sector_start(l.version, s) + l.version.sector_len_spec(),
    ensures
        framed(Disk { layout: l, bytes: b }, Disk { layout: l, bytes: written_at(b, pos, data) }),
{
    let w = written_at(b, pos, data);
    assert forall|q: int|
        0 <= q < b.len() && payload(l, sector_at(l.version, q)) implies #[trigger] w[q] == b[q] by {
        assert(sector_at(l.version, q) != s);
    }
}

/// A change of the FAT by an allocation, and maybe by a link from the end
/// of a chain to the new sector, keeps payload sectors payload.
pub proof fn lemma_payload_kept(l: Layout, l2: Layout, new: u32)
    requires
        l.fat.len() <= MAX_REGULAR_SECTOR + 1,
        l2.version == l.version,
        l2.directory_start_sector == l.directory_start_sector,
        l2.minifat_start_sector == l.minifat_start_sector || (l.minifat_start_sector
            == END_OF_CHAIN && l2.minifat_start_sector == new),
        l2.fat.len() >= l.fat.len(),
        new < l.fat.len() ==> l.fat[new as int] == FREE_SECTOR,
        new < l2.fat.len() ==> l2.fat[new as int] > MAX_REGULAR_SECTOR,
        forall|i: int|
            0 <= i < l.fat.len() && i != new ==> #[trigger] l2.fat[i] == l.fat[i] || (l.fat[i]
                == END_OF_CHAIN && l2.fat[i] == new),
        forall|i: int|
            l.fat.len() <= i < l2.fat.len() && i != new ==> #[trigger] l2.fat[i]
                > MAX_REGULAR_SECTOR,
        new <= MAX_REGULAR_SECTOR,
    ensures
        forall|s: int| #[trigger] payload(l, s) ==> payload(l2, s),
        forall|s: int|
            #[trigger] payload(l, s) ==> l2.fat[s] == l.fat[s] || l.fat[s] == END_OF_CHAIN,
{
    assert forall|s: int| #[trigger] payload(l, s) implies payload(l2, s) by {
        assert(s != new);
        assert(l2.fat[s] == l.fat[s] || (l.fat[s] == END_OF_CHAIN && l2.fat[s] == new));
        if in_chain(l2.fat, l2.directory_start_sector, s) {
            lemma_member_before(l.fat, l2.fat, l.directory_start_sector, new, s);
        }
        if in_chain(l2.fat, l2.minifat_start_sector, s) {
            if l2.minifat_start_sector == l.minifat_start_sector {
                lemma_member_before(l.fat, l2.fat, l.minifat_start_sector, new, s);
            } else {
                let k = choose|k: nat| #[trigger]
                    chain_at(l2.fat, new, k) == Some(s as u32) && 0 <= s <= u32::MAX;
                lemma_chain_members(l.fat, l2.fat, new, new, k);
                if k == 0 {
                } else {
                    assert(chain_at(l.fat, new, 0) == Some(new));
                    if new < l.fat.len() {
                        assert(chain_at(l.fat, new, 1) == Some(FREE_SECTOR));
                        if k > 1 {
                            assert(chain_at(l.fat, new, 2) is None);
                            crate::tables::lemma_chain_at_none(l.fat, new, 2, k);
                        }
                    } else {
                        assert(chain_at(l.fat, new, 1) is None);
                        crate::tables::lemma_chain_at_none(l.fat, new, 1, k);
                    }
                }
            }
        }
    }
}

/// A write into the record of a directory entry leaves every payload sector
/// alone.
pub proof fn lemma_entry_write_framed(
    l: Layout,
    b: Seq<u8>,
    id: u32,
    within: int,
    data: Seq<u8>,
)
    requires
        0 <= within,
        within + data.len() <= 128,
        crate::seeking::entry_pos(l, id, within) is Some,
    ensures
        framed(
            Disk { layout: l, bytes: b },
            Disk {
                layout: l,
                bytes: written_at(b, crate::seeking::entry_pos(l, id, within)->Some_0, data),
            },
        ),
{
    let k = crate::seeking::entry_sector(l.version, id as int) as nat;
    let r = chain_at(l.fat, l.directory_start_sector, k)->Some_0;
    assert(in_chain(l.fat, l.directory_start_sector, r as int));
    lemma_write_framed(
        l,
        b,
        crate::seeking::entry_pos(l, id, within)->Some_0,
        data,
        r as int,
    );
}

/// What a run of writes has left alone: the bytes of every sector that was
/// payload in `l`.
pub open spec fn kept(l: Layout, b: Seq<u8>, b2: Seq<u8>) -> bool {
    &&& b2.len() >= b.len()
    &&& forall|q: int|
        0 <= q < b.len() && payload(l, sector_at(l.version, q)) ==> #[trigger] b2[q] == b[q]
}

/// What was kept, with a layout whose FAT and whose first sectors of the
/// MiniFAT and of the directory are those of a layout that was framed, is
/// framed.
pub proof fn lemma_framed_assemble(d0: Disk, d1: Disk, d2: Disk)
    requires
        framed(d0, d1),
        d2.layout.version == d1.layout.version,
        d2.layout.fat == d1.layout.fat,
        d2.layout.minifat_start_sector == d1.layout.minifat_start_sector,
        d2.layout.directory_start_sector == d1.layout.directory_start_sector,
        kept(d0.layout, d0.bytes, d2.bytes),
    ensures
        framed(d0, d2),
{
    assert forall|s: int| #[trigger] payload(d0.layout, s) implies payload(d2.layout, s) && (
    d2.layout.fat[s] == d0.layout.fat[s] || d0.layout.fat[s] == END_OF_CHAIN) by {
        assert(payload(d1.layout, s));
    }
}

/// What is framed has kept its bytes.
pub proof fn lemma_framed_kept(d0: Disk, d1: Disk)
    requires
        framed(d0, d1),
    ensures
        kept(d0.layout, d0.bytes, d1.bytes),
{
}

/// A write inside the header, or inside a sector that was not payload in
/// `l`, keeps what was kept.
pub proof fn lemma_kept_write(l: Layout, b: Seq<u8>, b1: Seq<u8>, pos: int, data: Seq<u8>, s: int)
    requires
        kept(l, b, b1),
        0 <= pos,
        s >= -1,
        !payload(l, s),
        sector_start(l.version, s) <= pos,
        pos + data.len() <= sector_start(l.version, s) + l.version.sector_len_spec(),
    ensures
        kept(l, b, written_at(b1, pos, data)),
{
    let w = written_at(b1, pos, data);
    assert forall|q: int|
        0 <= q < b.len() && payload(l, sector_at(l.version, q)) implies #[trigger] w[q] == b[q] by {
        assert(sector_at(l.version, q) != s);
        assert(b1[q] == b[q]);
    }
}

/// A write of an entry of the FAT keeps what was kept, where the sector of
/// the entry was a FAT sector or did not exist.
pub proof fn lemma_kept_fat_entry(
    l: Layout,
    b: Seq<u8>,
    b1: Seq<u8>,
    l1: Layout,
    index: int,
    value: u32,
)
    requires
        kept(l, b, b1),
        l1.version == l.version,
        0 <= index,
        0 <= slot_sector(l1.version, index) < l1.difat.len(),
        !payload(l, l1.difat[slot_sector(l1.version, index)] as int),
    ensures
        kept(l, b, written_at(b1, fat_entry_pos(l1, index), u32_to_le(value))),
{
    let host = l1.difat[slot_sector(l1.version, index)] as int;
    lemma_kept_write(l, b, b1, fat_entry_pos(l1, index), u32_to_le(value), host);
}

/// Adding a FAT sector leaves every payload sector alone.
pub proof fn lemma_append_fat_kept(l: Layout, b: Seq<u8>)
    requires
        layout_base(l),
        l.difat.len() < 109,
        addressable(l.version, l.fat.len() + 1),
    ensures
        kept(l, b, append_fat_bytes(l, b)),
{
    reveal(append_fat_bytes);
    let v = l.version;
    let n = l.fat.len() as u32;
    let sl = v.sector_len_spec() as nat;
    let b0 = written_at(b, sector_offset(v, n), crate::store::zeros(sl));
    lemma_kept_write(l, b, b, sector_offset(v, n), crate::store::zeros(sl), n as int);
    let b1 = written_at(b0, sector_offset(v, n), crate::store::ones(sl));
    lemma_kept_write(l, b, b0, sector_offset(v, n), crate::store::ones(sl), n as int);
    let b2 = written_at(b1, 76 + 4 * (l.difat.len() as int), u32_to_le(n));
    lemma_kept_write(l, b, b1, 76 + 4 * (l.difat.len() as int), u32_to_le(n), -1);
    let l2 = Layout { difat: l.difat.push(n), ..l };
    let slot = slot_sector(v, n as int);
    assert(0 <= slot <= l.difat.len());
    if slot < l.difat.len() {
        assert(l2.difat[slot] == l.difat[slot]);
        assert(l.fat[l.difat[slot] as int] == FAT_SECTOR);
    } else {
        assert(l2.difat[slot] == n);
    }
    lemma_kept_fat_entry(l, b, b2, l2, n as int, FAT_SECTOR);
    let b3 = written_at(b2, fat_entry_pos(l2, n as int), u32_to_le(FAT_SECTOR));
    lemma_kept_write(l, b, b3, 44, u32_to_le((l.difat.len() + 1) as u32), -1);
}

/// Allocating a sector leaves every payload sector alone.
pub proof fn lemma_alloc_framed(l: Layout, b: Seq<u8>)
    requires
        layout_base(l),
        alloc_fault(l) is None,
    ensures
        framed(
            Disk { layout: l, bytes: b },
            Disk {
                layout: after_alloc(l, END_OF_CHAIN),
                bytes: alloc_bytes(l, b, END_OF_CHAIN),
            },
        ),
        kept(l, b, alloc_bytes(l, b, END_OF_CHAIN)),
{
    reveal(alloc_bytes);
    let v = l.version;
    let n = l.fat.len();
    let l2 = after_alloc(l, END_OF_CHAIN);
    let new = alloc_sector(l);
    lemma_after_alloc(l, END_OF_CHAIN);
    lemma_first_free(l.fat, 0);
    lemma_payload_kept(l, l2, new);
    let k = first_free(l.fat, 0);
    if k < n {
        lemma_slot_hosted(l, k);
        lemma_kept_fat_entry(l, b, b, l, k, END_OF_CHAIN);
    } else {
        let l1 = if fills_sectors(v, n as int) {
            after_append_fat(l)
        } else {
            l
        };
        let b1 = if fills_sectors(v, n as int) {
            append_fat_bytes(l, b)
        } else {
            b
        };
        if fills_sectors(v, n as int) {
            lemma_append_fat_kept(l, b);
        }
        let m = l1.fat.len() as int;
        let slot = slot_sector(v, m);
        assert(0 <= slot < l1.difat.len());
        assert(!payload(l, l1.difat[slot] as int)) by {
            if slot < l.difat.len() {
                assert(l1.difat[slot] == l.difat[slot]);
                assert(l.fat[l.difat[slot] as int] == FAT_SECTOR);
            }
        }
        lemma_kept_fat_entry(l, b, b1, l1, m, END_OF_CHAIN);
        let b2 = written_at(b1, fat_entry_pos(l1, m), u32_to_le(END_OF_CHAIN));
        lemma_kept_write(
            l,
            b,
            b2,
            sector_offset(v, m as u32),
            crate::store::zeros(v.sector_len_spec() as nat),
            m,
        );
    }
}

/// Extending a chain leaves every payload sector alone.
pub proof fn lemma_extend_framed(l: Layout, b: Seq<u8>, start: u32)
    requires
        layout_base(l),
        extend_fault(l, start) is None,
    ensures
        framed(
            Disk { layout: l, bytes: b },
            Disk { layout: after_extend(l, start), bytes: extend_bytes(l, b, start) },
        ),
        kept(l, b, extend_bytes(l, b, start)),
{
    reveal(extend_bytes);
    let tail = chain_tail(l.fat, start, l.fat.len())->Some_0;
    let l1 = after_alloc(l, END_OF_CHAIN);
    let new = alloc_sector(l);
    let l2 = after_extend(l, start);
    lemma_alloc_framed(l, b);
    lemma_after_alloc(l, END_OF_CHAIN);
    crate::sectors::lemma_tail_is_end(l.fat, start, l.fat.len());
    assert(tail != new);
    lemma_payload_kept(l, l2, new);
    let slot = slot_sector(l.version, tail as int);
    assert(0 <= slot < l.difat.len());
    assert(l1.difat[slot] == l.difat[slot]);
    assert(l.fat[l.difat[slot] as int] == FAT_SECTOR);
    lemma_kept_fat_entry(l, b, alloc_bytes(l, b, END_OF_CHAIN), l1, tail as int, new);
}

/// The chain from `start` comes to an end.
pub open spec fn reaches_end(t: Seq<u32>, start: u32) -> bool {
    exists|k: nat| #[trigger] chain_at(t, start, k) == Some(END_OF_CHAIN)
}

/// No link between two sectors has changed.
pub open spec fn links_kept(t: Seq<u32>, t2: Seq<u32>) -> bool {
    &&& t2.len() >= t.len()
    &&& forall|i: int| 0 <= i < t.len() && #[trigger] t[i] <= MAX_REGULAR_SECTOR ==> t2[i] == t[i]
}

/// Every chain that came to an end still does.
pub open spec fn ends_stay(t: Seq<u32>, t2: Seq<u32>) -> bool {
    forall|start: u32| #[trigger] reaches_end(t, start) ==> reaches_end(t2, start)
}

/// Links that have not changed lead where they led.
pub proof fn lemma_links_stable(t: Seq<u32>, t2: Seq<u32>, start: u32, k: nat)
    requires
        t.len() <= MAX_REGULAR_SECTOR + 1,
        links_kept(t, t2),
        chain_at(t, start, k) is Some,
        k > 0 ==> chain_at(t, start, k)->Some_0 <= MAX_REGULAR_SECTOR,
    ensures
        chain_at(t2, start, k) == chain_at(t, start, k),
    decreases k,
{
    if k > 0 {
        let prev = chain_at(t, start, (k - 1) as nat)->Some_0;
        assert(prev < t.len());
        lemma_links_stable(t, t2, start, (k - 1) as nat);
    }
}

/// Two chains that meet go on together.
pub proof fn lemma_chains_join(t: Seq<u32>, start: u32, i: nat, j: nat, m: nat)
    requires
        chain_at(t, start, i) == chain_at(t, start, j),
    ensures
        chain_at(t, start, i + m) == chain_at(t, start, j + m),
    decreases m,
{
    if m > 0 {
        lemma_chains_join(t, start, i, j, (m - 1) as nat);
    }
}

/// Before a chain comes to its end it passes through sectors of the table.
pub proof fn lemma_before_end(t: Seq<u32>, start: u32, end: nat, k: nat)
    requires
        t.len() <= MAX_REGULAR_SECTOR + 1,
        chain_at(t, start, end) == Some(END_OF_CHAIN),
        k < end,
    ensures
        chain_at(t, start, k) is Some,
        chain_at(t, start, k)->Some_0 < t.len(),
        t[chain_at(t, start, k)->Some_0 as int] != FREE_SECTOR,
        chain_at(t, start, k + 1) == Some(t[chain_at(t, start, k)->Some_0 as int]),
    decreases end - k,
{
    if chain_at(t, start, k) is None {
        crate::tables::lemma_chain_at_none(t, start, k, end);
    }
    let s = chain_at(t, start, k)->Some_0;
    if s >= t.len() {
        assert(chain_at(t, start, k + 1) is None);
        crate::tables::lemma_chain_at_none(t, start, k + 1, end);
    }
    if k + 1 < end {
        lemma_before_end(t, start, end, k + 1);
    }
}

/// A chain that comes to an end passes through no sector twice.
pub proof fn lemma_distinct(t: Seq<u32>, start: u32, end: nat, i: nat, j: nat)
    requires
        t.len() <= MAX_REGULAR_SECTOR + 1,
        chain_at(t, start, end) == Some(END_OF_CHAIN),
        i < j < end,
    ensures
        chain_at(t, start, i) != chain_at(t, start, j),
{
    if chain_at(t, start, i) == chain_at(t, start, j) {
        let m = (end - j) as nat;
        lemma_chains_join(t, start, i, j, m);
        assert(chain_at(t, start, i + m) == Some(END_OF_CHAIN));
        assert(chain_at(t, start, i + m + 1) is None);
        crate::tables::lemma_chain_at_none(t, start, i + m + 1, end);
    }
}

/// The end of a chain is reached after one number of links only.
pub proof fn lemma_one_end(t: Seq<u32>, start: u32, a: nat, b: nat)
    requires
        t.len() <= MAX_REGULAR_SECTOR + 1,
        chain_at(t, start, a) == Some(END_OF_CHAIN),
        chain_at(t, start, b) == Some(END_OF_CHAIN),
    ensures
        a == b,
{
    if a < b {
        assert(chain_at(t, start, a + 1) is None);
        crate::tables::lemma_chain_at_none(t, start, a + 1, b);
    }
    if b < a {
        assert(chain_at(t, start, b + 1) is None);
        crate::tables::lemma_chain_at_none(t, start, b + 1, a);
    }
}

/// The chain of the directory and the chain of the MiniFAT come to an end.
pub open spec fn meta_ok(l: Layout) -> bool {
    &&& reaches_end(l.fat, l.directory_start_sector)
    &&& reaches_end(l.fat, l.minifat_start_sector)
}

/// The chain from `start` holds data and nothing else: it comes to an end,
/// and every sector on it is payload.
pub open spec fn data_chain(l: Layout, start: u32) -> bool {
    &&& reaches_end(l.fat, start)
    &&& forall|k: nat|
        (#[trigger] chain_at(l.fat, start, k)) is Some && chain_at(l.fat, start, k)->Some_0
            < l.fat.len() ==> payload(l, chain_at(l.fat, start, k)->Some_0 as int)
}

/// Every chain of data is one still.
pub open spec fn data_stays(l: Layout, l2: Layout) -> bool {
    forall|c: u32| #[trigger] data_chain(l, c) ==> data_chain(l2, c)
}

/// A chain that comes to an end is not touched when only entries that were
/// free, and entries behind the end of the table, change.
pub proof fn lemma_free_change_keeps(t: Seq<u32>, t2: Seq<u32>, c: u32, k: nat)
    requires
        t.len() <= MAX_REGULAR_SECTOR + 1,
        t2.len() <= MAX_REGULAR_SECTOR + 1,
        t2.len() >= t.len(),
        forall|i: int| 0 <= i < t.len() && #[trigger] t[i] != FREE_SECTOR ==> t2[i] == t[i],
        reaches_end(t, c),
    ensures
        chain_at(t2, c, k) == chain_at(t, c, k),
    decreases k,
{
    let end = choose|e: nat| #[trigger] chain_at(t, c, e) == Some(END_OF_CHAIN);
    if k > 0 {
        lemma_free_change_keeps(t, t2, c, (k - 1) as nat);
        if k <= end {
            lemma_before_end(t, c, end, (k - 1) as nat);
        } else if k == end + 1 {
        } else {
            assert(chain_at(t, c, end + 1) is None);
            crate::tables::lemma_chain_at_none(t, c, end + 1, (k - 1) as nat);
        }
    }
}

/// A chain that comes to an end is not touched by a new link from a sector
/// that it does not pass through.
pub proof fn lemma_link_keeps(t: Seq<u32>, tail: u32, new: u32, c: u32, k: nat)
    requires
        t.len() <= MAX_REGULAR_SECTOR + 1,
        tail < t.len(),
        reaches_end(t, c),
        !in_chain(t, c, tail as int),
    ensures
        chain_at(t.update(tail as int, new), c, k) == chain_at(t, c, k),
    decreases k,
{
    let t2 = t.update(tail as int, new);
    let end = choose|e: nat| #[trigger] chain_at(t, c, e) == Some(END_OF_CHAIN);
    if k > 0 {
        lemma_link_keeps(t, tail, new, c, (k - 1) as nat);
        if k <= end {
            lemma_before_end(t, c, end, (k - 1) as nat);
            let s = chain_at(t, c, (k - 1) as nat)->Some_0;
            assert(s != tail) by {
                if s == tail {
                    assert(chain_at(t, c, (k - 1) as nat) == Some(tail as int as u32));
                }
            }
        } else if k == end + 1 {
        } else {
            assert(chain_at(t, c, end + 1) is None);
            crate::tables::lemma_chain_at_none(t, c, end + 1, (k - 1) as nat);
        }
    }
}

/// A chain whose last sector gets a link to a sector that ends a chain goes
/// on to that sector and ends there.
pub proof fn lemma_link_grows(t: Seq<u32>, tail: u32, new: u32, c: u32, end: nat)
    requires
        t.len() <= MAX_REGULAR_SECTOR + 1,
        tail < t.len(),
        new < t.len(),
        new != tail,
        t[new as int] == END_OF_CHAIN,
        t[tail as int] == END_OF_CHAIN,
        chain_at(t, c, end) == Some(END_OF_CHAIN),
        in_chain(t, c, tail as int),
        !in_chain(t, c, new as int),
    ensures
        end >= 1,
        chain_at(t, c, (end - 1) as nat) == Some(tail),
        forall|k: nat| k < end ==> #[trigger] chain_at(t.update(tail as int, new), c, k) == chain_at(
            t,
            c,
            k,
        ),
        chain_at(t.update(tail as int, new), c, end) == Some(new),
        chain_at(t.update(tail as int, new), c, end + 1) == Some(END_OF_CHAIN),
{
    let t2 = t.update(tail as int, new);
    let at = choose|k: nat| #[trigger] chain_at(t, c, k) == Some(tail as int as u32) && 0 <= tail
        <= u32::MAX;
    assert(chain_at(t, c, at + 1) == Some(END_OF_CHAIN));
    lemma_one_end(t, c, at + 1, end);
    assert forall|k: nat| k < end implies #[trigger] chain_at(t2, c, k) == chain_at(t, c, k) by {
        lemma_grow_prefix(t, tail, new, c, end, k);
    }
    lemma_grow_prefix(t, tail, new, c, end, (end - 1) as nat);
    assert(chain_at(t2, c, end) == Some(new));
}

proof fn lemma_grow_prefix(t: Seq<u32>, tail: u32, new: u32, c: u32, end: nat, k: nat)
    requires
        t.len() <= MAX_REGULAR_SECTOR + 1,
        tail < t.len(),
        end >= 1,
        chain_at(t, c, end) == Some(END_OF_CHAIN),
        chain_at(t, c, (end - 1) as nat) == Some(tail),
        k < end,
    ensures
        chain_at(t.update(tail as int, new), c, k) == chain_at(t, c, k),
    decreases k,
{
    if k > 0 {
        lemma_grow_prefix(t, tail, new, c, end, (k - 1) as nat);
        lemma_before_end(t, c, end, (k - 1) as nat);
        lemma_distinct(t, c, end, (k - 1) as nat, (end - 1) as nat);
    }
}

/// A chain that comes to an end passes through no sector that is free or
/// lies behind the end of the table.
pub proof fn lemma_not_on_chain(t: Seq<u32>, c: u32, x: u32)
    requires
        t.len() <= MAX_REGULAR_SECTOR + 1,
        reaches_end(t, c),
        x != END_OF_CHAIN,
        x < t.len() ==> t[x as int] == FREE_SECTOR,
    ensures
        !in_chain(t, c, x as int),
{
    if in_chain(t, c, x as int) {
        let end = choose|e: nat| #[trigger] chain_at(t, c, e) == Some(END_OF_CHAIN);
        let k = choose|k: nat| #[trigger] chain_at(t, c, k) == Some(x as int as u32) && 0 <= x
            <= u32::MAX;
        if k < end {
            lemma_before_end(t, c, end, k);
        } else if k > end {
            assert(chain_at(t, c, end + 1) is None);
            crate::tables::lemma_chain_at_none(t, c, end + 1, k);
        }
    }
}

/// A sector of the table that a chain passes through lies before its end.
pub proof fn lemma_member_index(t: Seq<u32>, c: u32, end: nat, k: nat)
    requires
        t.len() <= MAX_REGULAR_SECTOR + 1,
        chain_at(t, c, end) == Some(END_OF_CHAIN),
        chain_at(t, c, k) is Some,
        chain_at(t, c, k)->Some_0 < t.len(),
    ensures
        k < end,
{
    if k > end {
        assert(chain_at(t, c, end + 1) is None);
        crate::tables::lemma_chain_at_none(t, c, end + 1, k);
    }
}

/// What the link from the end of a chain to a sector that was just
/// allocated does to another chain: the other chain stays as it is, or, where
/// it ends in the same sector, goes on to the new one.
pub proof fn lemma_link_other(t: Seq<u32>, tail: u32, new: u32, c: u32, end: nat, k: nat)
    requires
        t.len() <= MAX_REGULAR_SECTOR + 1,
        tail < t.len(),
        new < t.len(),
        new != tail,
        t[new as int] == END_OF_CHAIN,
        t[tail as int] == END_OF_CHAIN,
        chain_at(t, c, end) == Some(END_OF_CHAIN),
        !in_chain(t, c, new as int),
    ensures
        reaches_end(t.update(tail as int, new), c),
        chain_at(t.update(tail as int, new), c, k) is Some && chain_at(
            t.update(tail as int, new),
            c,
            k,
        )->Some_0 < t.len() ==> chain_at(t.update(tail as int, new), c, k) == Some(new) || (
        chain_at(t, c, k) == chain_at(t.update(tail as int, new), c, k) && k < end),
        in_chain(t, c, tail as int) || forall|j: nat|
            #[trigger] chain_at(t.update(tail as int, new), c, j) == chain_at(t, c, j),
{
    let t2 = t.update(tail as int, new);
    if in_chain(t, c, tail as int) {
        lemma_link_grows(t, tail, new, c, end);
        assert(chain_at(t2, c, end + 1) == Some(END_OF_CHAIN));
        if k < end {
            assert(chain_at(t2, c, k) == chain_at(t, c, k));
        } else if k == end {
        } else if k == end + 1 {
        } else {
            assert(chain_at(t2, c, end + 2) is None);
            crate::tables::lemma_chain_at_none(t2, c, end + 2, k);
        }
    } else {
        assert forall|j: nat| #[trigger] chain_at(t2, c, j) == chain_at(t, c, j) by {
            lemma_link_keeps(t, tail, new, c, j);
        }
        assert(chain_at(t2, c, end) == Some(END_OF_CHAIN));
        if chain_at(t2, c, k) is Some && chain_at(t2, c, k)->Some_0 < t.len() {
            lemma_member_index(t, c, end, k);
        }
    }
}

/// What every step that allocates keeps: the links of the FAT and of the
/// MiniFAT, and, where the first sector of the directory is in use and the
/// chain of the MiniFAT comes to an end, these two and every chain of data.
pub open spec fn steady(l: Layout, l2: Layout) -> bool {
    &&& links_kept(l.fat, l2.fat)
    &&& links_kept(l.minifat, l2.minifat)
    &&& meta_ok(l) ==> meta_ok(l2) && data_stays(l, l2)
}

/// A step that changes nothing is steady.
pub proof fn lemma_steady_same(l: Layout)
    ensures
        steady(l, l),
{
}

/// Two steady steps, one after the other, are steady.
pub proof fn lemma_steady_then(l: Layout, l1: Layout, l2: Layout)
    requires
        steady(l, l1),
        steady(l1, l2),
    ensures
        steady(l, l2),
{
    assert forall|i: int| 0 <= i < l.fat.len() && #[trigger] l.fat[i]
        <= MAX_REGULAR_SECTOR implies l2.fat[i] == l.fat[i] by {
        assert(l1.fat[i] == l.fat[i]);
    }
    assert forall|i: int| 0 <= i < l.minifat.len() && #[trigger] l.minifat[i]
        <= MAX_REGULAR_SECTOR implies l2.minifat[i] == l.minifat[i] by {
        assert(l1.minifat[i] == l.minifat[i]);
    }
    if meta_ok(l) {
        assert forall|c: u32| #[trigger] data_chain(l, c) implies data_chain(l2, c) by {
            assert(data_chain(l1, c));
        }
    }
}

/// Allocating a sector is a steady step.
pub proof fn lemma_alloc_steady(l: Layout)
    requires
        layout_base(l),
        alloc_fault(l) is None,
    ensures
        steady(l, after_alloc(l, END_OF_CHAIN)),
{
    lemma_after_alloc(l, END_OF_CHAIN);
    if meta_ok(l) {
        lemma_alloc_data(l);
    }
}

/// Extending a chain is a steady step.
pub proof fn lemma_extend_steady(l: Layout, start: u32)
    requires
        layout_base(l),
        extend_fault(l, start) is None,
    ensures
        steady(l, after_extend(l, start)),
{
    lemma_after_alloc(l, END_OF_CHAIN);
    crate::sectors::lemma_tail_is_end(l.fat, start, l.fat.len());
    if meta_ok(l) {
        lemma_extend_data(l, start);
    }
}

/// Giving the MiniFAT its first sector is a steady step.
pub proof fn lemma_first_minifat_sector(l: Layout)
    requires
        layout_base(l),
        alloc_fault(l) is None,
        l.minifat_start_sector == END_OF_CHAIN,
    ensures
        steady(
            l,
            Layout { minifat_start_sector: alloc_sector(l), ..after_alloc(l, END_OF_CHAIN) },
        ),
{
    let l1 = after_alloc(l, END_OF_CHAIN);
    let new = alloc_sector(l);
    let l2 = Layout { minifat_start_sector: new, ..l1 };
    lemma_after_alloc(l, END_OF_CHAIN);
    if meta_ok(l) {
        lemma_alloc_data(l);
        lemma_payload_kept(l, l2, new);
        assert(chain_at(l2.fat, new, 0) == Some(new));
        assert(chain_at(l2.fat, new, 1) == Some(END_OF_CHAIN));
        assert forall|c: u32| #[trigger] data_chain(l, c) implies data_chain(l2, c) by {
            assert(data_chain(l1, c));
            let end = choose|e: nat| #[trigger] chain_at(l.fat, c, e) == Some(END_OF_CHAIN);
            assert forall|k: nat|
                (#[trigger] chain_at(l2.fat, c, k)) is Some && chain_at(l2.fat, c, k)->Some_0
                    < l2.fat.len() implies payload(l2, chain_at(l2.fat, c, k)->Some_0 as int) by {
                lemma_alloc_chain(l, c, k);
                if k < end {
                    lemma_before_end(l.fat, c, end, k);
                } else if k > end {
                    assert(chain_at(l.fat, c, end + 1) is None);
                    crate::tables::lemma_chain_at_none(l.fat, c, end + 1, k);
                }
            }
        }
    }
}

/// A sector that was just allocated is a chain of data of its own.
pub proof fn lemma_first_data_sector(l: Layout)
    requires
        layout_base(l),
        alloc_fault(l) is None,
        meta_ok(l),
    ensures
        data_chain(after_alloc(l, END_OF_CHAIN), alloc_sector(l)),
{
    let l1 = after_alloc(l, END_OF_CHAIN);
    let new = alloc_sector(l);
    lemma_after_alloc(l, END_OF_CHAIN);
    lemma_new_not_on_chain(l, l.minifat_start_sector);
    lemma_new_not_on_chain(l, l.directory_start_sector);
    assert(chain_at(l1.fat, new, 0) == Some(new));
    assert(chain_at(l1.fat, new, 1) == Some(END_OF_CHAIN));
    assert forall|k: nat|
        (#[trigger] chain_at(l1.fat, new, k)) is Some && chain_at(l1.fat, new, k)->Some_0
            < l1.fat.len() implies payload(l1, chain_at(l1.fat, new, k)->Some_0 as int) by {
        if k > 1 {
            assert(chain_at(l1.fat, new, 2) is None);
            crate::tables::lemma_chain_at_none(l1.fat, new, 2, k);
        }
    }
}

/// A change of the MiniFAT or of the directory alone is a steady step, where
/// no link of the MiniFAT changes.
pub proof fn lemma_tables_steady(l: Layout, l2: Layout)
    requires
        l2.version == l.version,
        l2.fat == l.fat,
        l2.minifat_start_sector == l.minifat_start_sector,
        l2.directory_start_sector == l.directory_start_sector,
        links_kept(l.minifat, l2.minifat),
    ensures
        steady(l, l2),
        forall|c: u32| data_chain(l, c) <==> data_chain(l2, c),
{
    assert forall|c: u32| data_chain(l, c) <==> data_chain(l2, c) by {
        assert forall|s: int| payload(l, s) <==> payload(l2, s) by {}
        if data_chain(l, c) {
            assert forall|k: nat|
                (#[trigger] chain_at(l2.fat, c, k)) is Some && chain_at(l2.fat, c, k)->Some_0
                    < l2.fat.len() implies payload(l2, chain_at(l2.fat, c, k)->Some_0 as int) by {
                assert(payload(l, chain_at(l.fat, c, k)->Some_0 as int));
            }
        }
        if data_chain(l2, c) {
            assert forall|k: nat|
                (#[trigger] chain_at(l.fat, c, k)) is Some && chain_at(l.fat, c, k)->Some_0
                    < l.fat.len() implies payload(l, chain_at(l.fat, c, k)->Some_0 as int) by {
                assert(payload(l2, chain_at(l2.fat, c, k)->Some_0 as int));
            }
        }
    }
}

/// Allocating a sector touches no chain that comes to an end.
pub proof fn lemma_alloc_chain(l: Layout, c: u32, k: nat)
    requires
        layout_base(l),
        alloc_fault(l) is None,
        reaches_end(l.fat, c),
    ensures
        chain_at(after_alloc(l, END_OF_CHAIN).fat, c, k) == chain_at(l.fat, c, k),
{
    lemma_after_alloc(l, END_OF_CHAIN);
    lemma_free_change_keeps(l.fat, after_alloc(l, END_OF_CHAIN).fat, c, k);
}

/// Allocating a sector keeps chains of data what they are.
pub proof fn lemma_alloc_data(l: Layout)
    requires
        layout_base(l),
        alloc_fault(l) is None,
        meta_ok(l),
    ensures
        meta_ok(after_alloc(l, END_OF_CHAIN)),
        data_stays(l, after_alloc(l, END_OF_CHAIN)),
        ends_stay(l.fat, after_alloc(l, END_OF_CHAIN).fat),
{
    let l2 = after_alloc(l, END_OF_CHAIN);
    let new = alloc_sector(l);
    lemma_after_alloc(l, END_OF_CHAIN);
    lemma_payload_kept(l, l2, new);
    assert forall|c: u32| #[trigger] reaches_end(l.fat, c) implies reaches_end(l2.fat, c) by {
        let end = choose|e: nat| #[trigger] chain_at(l.fat, c, e) == Some(END_OF_CHAIN);
        lemma_alloc_chain(l, c, end);
    }
    assert forall|c: u32| #[trigger] data_chain(l, c) implies data_chain(l2, c) by {
        let end = choose|e: nat| #[trigger] chain_at(l.fat, c, e) == Some(END_OF_CHAIN);
        assert forall|k: nat|
            (#[trigger] chain_at(l2.fat, c, k)) is Some && chain_at(l2.fat, c, k)->Some_0
                < l2.fat.len() implies payload(l2, chain_at(l2.fat, c, k)->Some_0 as int) by {
            lemma_alloc_chain(l, c, k);
            if k < end {
                lemma_before_end(l.fat, c, end, k);
            } else if k > end {
                assert(chain_at(l.fat, c, end + 1) is None);
                crate::tables::lemma_chain_at_none(l.fat, c, end + 1, k);
            }
        }
    }
}

/// Where a chain of data went on to a sector that was just allocated,
/// another chain that comes to an end does not pass through that sector,
/// unless it passed through the end of the chain of data.
pub proof fn lemma_new_off_chain(l: Layout, tail: u32, m: u32)
    requires
        layout_base(l),
        alloc_fault(l) is None,
        tail < l.fat.len(),
        l.fat[tail as int] == END_OF_CHAIN,
        reaches_end(l.fat, m),
        !in_chain(l.fat, m, tail as int),
    ensures
        !in_chain(
            after_alloc(l, END_OF_CHAIN).fat.update(tail as int, alloc_sector(l)),
            m,
            alloc_sector(l) as int,
        ),
        reaches_end(after_alloc(l, END_OF_CHAIN).fat.update(tail as int, alloc_sector(l)), m),
{
    let t = l.fat;
    let t1 = after_alloc(l, END_OF_CHAIN).fat;
    let new = alloc_sector(l);
    let t2 = t1.update(tail as int, new);
    lemma_after_alloc(l, END_OF_CHAIN);
    lemma_new_not_on_chain(l, m);
    let end = choose|e: nat| #[trigger] chain_at(t, m, e) == Some(END_OF_CHAIN);
    lemma_alloc_chain(l, m, end);
    assert(!in_chain(t1, m, tail as int)) by {
        if in_chain(t1, m, tail as int) {
            let j = choose|j: nat| #[trigger]
                chain_at(t1, m, j) == Some(tail as int as u32) && 0 <= tail <= u32::MAX;
            lemma_alloc_chain(l, m, j);
        }
    }
    lemma_link_keeps(t1, tail, new, m, end);
    if in_chain(t2, m, new as int) {
        let j = choose|j: nat| #[trigger]
            chain_at(t2, m, j) == Some(new as int as u32) && 0 <= new <= u32::MAX;
        lemma_link_keeps(t1, tail, new, m, j);
        assert(in_chain(t1, m, new as int));
    }
}

/// Extending a chain keeps chains of data what they are: the chain that
/// was extended, where it is one, and every other.
pub proof fn lemma_extend_data(l: Layout, start: u32)
    requires
        layout_base(l),
        extend_fault(l, start) is None,
        meta_ok(l),
    ensures
        meta_ok(after_extend(l, start)),
        data_stays(l, after_extend(l, start)),
{
    let tail = chain_tail(l.fat, start, l.fat.len())->Some_0;
    let l1 = after_alloc(l, END_OF_CHAIN);
    let new = alloc_sector(l);
    let l2 = after_extend(l, start);
    let t = l.fat;
    let t1 = l1.fat;
    let t2 = l2.fat;
    lemma_after_alloc(l, END_OF_CHAIN);
    crate::sectors::lemma_tail_is_end(t, start, t.len());
    assert(tail != new);
    assert(t1[tail as int] == END_OF_CHAIN);
    assert(t2 == t1.update(tail as int, new));
    lemma_payload_kept(l, l2, new);
    lemma_alloc_data(l);
    let m = l.minifat_start_sector;
    let m_end = choose|e: nat| #[trigger] chain_at(t, m, e) == Some(END_OF_CHAIN);
    lemma_alloc_chain(l, m, m_end);
    lemma_new_not_on_chain(l, m);
    lemma_link_other(t1, tail, new, m, m_end, 0);
    let dir = l.directory_start_sector;
    let dir_end = choose|e: nat| #[trigger] chain_at(t, dir, e) == Some(END_OF_CHAIN);
    lemma_alloc_chain(l, dir, dir_end);
    lemma_new_not_on_chain(l, dir);
    lemma_link_other(t1, tail, new, dir, dir_end, 0);
    assert forall|c: u32| #[trigger] data_chain(l, c) implies data_chain(l2, c) by {
        let end = choose|e: nat| #[trigger] chain_at(t, c, e) == Some(END_OF_CHAIN);
        lemma_alloc_chain(l, c, end);
        lemma_new_not_on_chain(l, c);
        lemma_link_other(t1, tail, new, c, end, 0);
        assert forall|k: nat|
            (#[trigger] chain_at(t2, c, k)) is Some && chain_at(t2, c, k)->Some_0
                < t2.len() implies payload(l2, chain_at(t2, c, k)->Some_0 as int) by {
            lemma_link_other(t1, tail, new, c, end, k);
            let s = chain_at(t2, c, k)->Some_0;
            if s == new {
                // the chain went on to the new sector: it passed through the
                // tail, which is payload and so on neither the chain of the
                // directory nor that of the MiniFAT, which are as they were
                if in_chain(t1, c, tail as int) {
                    let at = choose|j: nat| #[trigger]
                        chain_at(t1, c, j) == Some(tail as int as u32) && 0 <= tail <= u32::MAX;
                    lemma_alloc_chain(l, c, at);
                    assert(payload(l, tail as int));
                    lemma_new_off_chain(l, tail, m);
                    lemma_new_off_chain(l, tail, dir);
                    assert(payload(l2, new as int));
                } else {
                    assert(chain_at(t2, c, k) == chain_at(t1, c, k));
                    assert(in_chain(t1, c, new as int));
                }
            } else if s < t1.len() {
                assert(chain_at(t1, c, k) == chain_at(t2, c, k));
                lemma_alloc_chain(l, c, k);
                lemma_member_index(t1, c, end, k);
                lemma_before_end(t, c, end, k);
                assert(payload(l, s as int));
            }
        }
    }
}

/// The sector that an allocation hands out lies on no chain that comes to an
/// end, before the allocation and after it.
pub proof fn lemma_new_not_on_chain(l: Layout, c: u32)
    requires
        layout_base(l),
        alloc_fault(l) is None,
        reaches_end(l.fat, c),
    ensures
        !in_chain(l.fat, c, alloc_sector(l) as int),
        !in_chain(after_alloc(l, END_OF_CHAIN).fat, c, alloc_sector(l) as int),
        reaches_end(after_alloc(l, END_OF_CHAIN).fat, c),
{
    let new = alloc_sector(l);
    let t = l.fat;
    let t1 = after_alloc(l, END_OF_CHAIN).fat;
    lemma_after_alloc(l, END_OF_CHAIN);
    lemma_not_on_chain(t, c, new);
    let end = choose|e: nat| #[trigger] chain_at(t, c, e) == Some(END_OF_CHAIN);
    lemma_alloc_chain(l, c, end);
    if in_chain(t1, c, new as int) {
        let k = choose|k: nat| #[trigger] chain_at(t1, c, k) == Some(new as int as u32) && 0 <= new
            <= u32::MAX;
        lemma_alloc_chain(l, c, k);
        assert(in_chain(t, c, new as int));
    }
}

} // verus!
