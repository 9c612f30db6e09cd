//! Streams whose bytes stay where they are.
//!
//! A stream is intact where the chains that hold its bytes come to an end
//! and pass through payload sectors only.  A write to an intact stream
//! leaves the bytes before the cursor as they are.

use crate::compound::{layout_ok, CompoundFile, Disk};
use crate::consts::{
    END_OF_CHAIN, FAT_SECTOR, FREE_SECTOR, MAX_REGULAR_SECTOR, MINI_SECTOR_LEN, MINI_STREAM_CUTOFF,
};
use crate::dir_entry::EntryView;
use crate::error::Error;
use crate::frame::{
    data_chain, framed, in_chain, lemma_distinct, lemma_links_stable, lemma_member_index,
    lemma_tables_steady, links_kept, meta_ok, payload, reaches_end, sector_at, steady,
};
use crate::image::{sector_offset, Layout};
use crate::seeking::{beyond_sectors, mini_pos, sectors_in};
use crate::store::lemma_written_at;
use crate::stream::{
    beyond_units, cursor_ok, data_pos, in_mini, lemma_mini_pos, put_outcome, readable, stream_byte,
    stream_bytes, stream_pos, stream_valid, table_of, unit_len, units_in, Cursor, StreamState,
};
use crate::tables::{chain, chain_at, collect_chain, lemma_chain_links};
use vstd::prelude::*;
use vstd::set_lib::{lemma_int_range, lemma_len_subset, set_int_range};

verus! {

/// The chains that hold the bytes of stream `id` come to an end and pass
/// through payload sectors only: the chain of the stream where it lives in
/// sectors; its chain in the MiniFAT and the chain of the mini stream where
/// it lives in mini sectors.
pub open spec fn intact(l: Layout, id: u32) -> bool {
    let e = l.directory[id as int];
    &&& meta_ok(l)
    &&& if in_mini(e) {
        reaches_end(l.minifat, e.start_sector) && data_chain(l, l.directory[0].start_sector)
    } else {
        data_chain(l, e.start_sector)
    }
}

/// Byte `j` of a stream is there: its chain leads to it, and the image holds
/// it.
pub open spec fn here(d: Disk, e: EntryView, j: int) -> bool {
    stream_pos(d.layout, e, j) is Some && stream_pos(d.layout, e, j)->Some_0 < d.bytes.len()
}

/// Every byte of a stream before position `upto` that was there is there
/// still, in the same place and with the same value.
pub open spec fn earlier_kept(d: Disk, e: EntryView, d2: Disk, e2: EntryView, upto: int) -> bool {
    forall|j: int|
        0 <= j < upto && #[trigger] here(d, e, j) ==> here(d2, e2, j) && stream_pos(
            d2.layout,
            e2,
            j,
        ) == stream_pos(d.layout, e, j) && stream_byte(d2, e2, j) == stream_byte(d, e, j)
}

/// What was kept by one step and then by another was kept by both.
pub proof fn lemma_earlier_then(
    d: Disk,
    e: EntryView,
    d1: Disk,
    e1: EntryView,
    d2: Disk,
    e2: EntryView,
    upto: int,
)
    requires
        earlier_kept(d, e, d1, e1, upto),
        earlier_kept(d1, e1, d2, e2, upto),
    ensures
        earlier_kept(d, e, d2, e2, upto),
{
    assert forall|j: int| 0 <= j < upto && #[trigger] here(d, e, j) implies here(d2, e2, j)
        && stream_pos(d2.layout, e2, j) == stream_pos(d.layout, e, j) && stream_byte(d2, e2, j)
        == stream_byte(d, e, j) by {
        assert(here(d1, e1, j));
    }
}

/// The byte at offset `w` of a sector lies in that sector.
pub proof fn lemma_sector_at(l: Layout, s: u32, w: int)
    requires
        0 <= w < l.version.sector_len_spec(),
    ensures
        sector_at(l.version, sector_offset(l.version, s) + w) == s,
{
}

/// A step that allocates keeps every byte of an intact stream that was there
/// in its place and with its value.
pub proof fn lemma_step_keeps(d: Disk, d2: Disk, id: u32, j: int)
    requires
        layout_ok(d.layout),
        0 < id < d.layout.directory.len(),
        d2.layout.directory.len() == d.layout.directory.len(),
        d2.layout.minifat.len() <= MAX_REGULAR_SECTOR + 1,
        intact(d.layout, id),
        framed(d, d2),
        links_kept(d.layout.fat, d2.layout.fat),
        links_kept(d.layout.minifat, d2.layout.minifat),
        d.layout.directory[0].start_sector != END_OF_CHAIN ==> d2.layout.directory[0].start_sector
            == d.layout.directory[0].start_sector,
        d.layout.directory[id as int].start_sector != END_OF_CHAIN ==> d2.layout.directory[id as int].start_sector
            == d.layout.directory[id as int].start_sector,
        d2.layout.directory[id as int].stream_len == d.layout.directory[id as int].stream_len,
        0 <= j,
        here(d, d.layout.directory[id as int], j),
    ensures
        here(d2, d2.layout.directory[id as int], j),
        stream_pos(d2.layout, d2.layout.directory[id as int], j) == stream_pos(
            d.layout,
            d.layout.directory[id as int],
            j,
        ),
        stream_byte(d2, d2.layout.directory[id as int], j) == stream_byte(
            d,
            d.layout.directory[id as int],
            j,
        ),
{
    let l = d.layout;
    let l2 = d2.layout;
    let v = l.version;
    let e = l.directory[id as int];
    let e2 = l2.directory[id as int];
    let k = units_in(v, e, j) as nat;
    let w = beyond_units(v, e, j);
    let t = table_of(l, e);
    let t2 = table_of(l2, e2);
    let s = chain_at(t, e.start_sector, k)->Some_0;
    let q = stream_pos(l, e, j)->Some_0;
    assert(in_mini(e2) == in_mini(e));
    assert(s < t.len());
    assert(e.start_sector != END_OF_CHAIN) by {
        if e.start_sector == END_OF_CHAIN {
            assert(t.len() <= MAX_REGULAR_SECTOR + 1);
            assert(chain_at(t, END_OF_CHAIN, 0) == Some(END_OF_CHAIN));
            if k > 0 {
                assert(chain_at(t, END_OF_CHAIN, 1) is None);
                crate::tables::lemma_chain_at_none(t, END_OF_CHAIN, 1, k);
            }
        }
    }
    lemma_links_stable(t, t2, e.start_sector, k);
    assert(chain_at(t2, e2.start_sector, k) == Some(s));
    if in_mini(e) {
        let root = l.directory[0].start_sector;
        let a = MINI_SECTOR_LEN * s + w;
        let idx = sectors_in(v, a) as nat;
        let r = chain_at(l.fat, root, idx)->Some_0;
        assert(r < l.fat.len());
        assert(root != END_OF_CHAIN) by {
            if root == END_OF_CHAIN {
                assert(l.fat.len() <= MAX_REGULAR_SECTOR + 1);
                assert(chain_at(l.fat, END_OF_CHAIN, 0) == Some(END_OF_CHAIN));
                if idx > 0 {
                    assert(chain_at(l.fat, END_OF_CHAIN, 1) is None);
                    crate::tables::lemma_chain_at_none(l.fat, END_OF_CHAIN, 1, idx);
                }
            }
        }
        lemma_links_stable(l.fat, l2.fat, root, idx);
        assert(mini_pos(l2, s, w) == Some(q));
        assert(payload(l, r as int));
        lemma_sector_at(l, r, beyond_sectors(v, a));
    } else {
        assert(payload(l, s as int));
        lemma_sector_at(l, s, w);
    }
    assert(d2.bytes[q] == d.bytes[q]);
}

/// A step that allocates leaves an intact stream intact, and its bytes
/// where they are.
pub proof fn lemma_step_intact(d: Disk, d2: Disk, id: u32, upto: int)
    requires
        layout_ok(d.layout),
        layout_ok(d2.layout),
        0 < id < d.layout.directory.len(),
        d2.layout.directory.len() == d.layout.directory.len(),
        intact(d.layout, id),
        framed(d, d2),
        steady(d.layout, d2.layout),
        d.layout.directory[0].start_sector != END_OF_CHAIN ==> d2.layout.directory[0].start_sector
            == d.layout.directory[0].start_sector,
        data_chain(d.layout, d.layout.directory[0].start_sector) ==> data_chain(
            d2.layout,
            d2.layout.directory[0].start_sector,
        ),
        d2.layout.directory[id as int].stream_len == d.layout.directory[id as int].stream_len,
        in_mini(d.layout.directory[id as int]) ==> reaches_end(
            d2.layout.minifat,
            d2.layout.directory[id as int].start_sector,
        ) && (d.layout.directory[id as int].start_sector != END_OF_CHAIN
            ==> d2.layout.directory[id as int].start_sector
            == d.layout.directory[id as int].start_sector),
        !in_mini(d.layout.directory[id as int]) ==> d2.layout.directory[id as int].start_sector
            == d.layout.directory[id as int].start_sector,
    ensures
        intact(d2.layout, id),
        earlier_kept(
            d,
            d.layout.directory[id as int],
            d2,
            d2.layout.directory[id as int],
            upto,
        ),
{
    let e = d.layout.directory[id as int];
    let e2 = d2.layout.directory[id as int];
    assert(in_mini(e2) == in_mini(e));
    if !in_mini(e) {
        assert(data_chain(d.layout, e.start_sector));
    }
    assert forall|j: int| 0 <= j < upto && #[trigger] here(d, e, j) implies here(d2, e2, j)
        && stream_pos(d2.layout, e2, j) == stream_pos(d.layout, e, j) && stream_byte(d2, e2, j)
        == stream_byte(d, e, j) by {
        lemma_step_keeps(d, d2, id, j);
    }
}

/// Where the MiniFAT and the start sector of a stream have not changed, the
/// chain of the stream in the MiniFAT comes to an end as before.
pub proof fn lemma_minifat_same(l: Layout, l2: Layout, id: u32)
    requires
        l2.minifat == l.minifat,
        l2.directory[id as int].start_sector == l.directory[id as int].start_sector,
        reaches_end(l.minifat, l.directory[id as int].start_sector),
    ensures
        reaches_end(l2.minifat, l2.directory[id as int].start_sector),
{
}

/// A chain that grew by a sector which ends a chain comes to an end.
pub proof fn lemma_grew_reaches(t: Seq<u32>, t2: Seq<u32>, start: u32, new: u32, k: nat)
    requires
        crate::sectors::chain_grew(t, t2, start, new),
        chain_at(t, start, k) == Some(END_OF_CHAIN),
        new < t2.len(),
        t2[new as int] == END_OF_CHAIN,
    ensures
        reaches_end(t2, start),
{
    assert(chain_at(t2, start, k) == Some(new));
    assert(chain_at(t2, start, k + 1) == Some(END_OF_CHAIN));
}

/// A chain that comes to an end does so still when only free entries
/// change.
pub proof fn lemma_free_change_reaches(t: Seq<u32>, t2: Seq<u32>, start: u32)
    requires
        t.len() <= MAX_REGULAR_SECTOR + 1,
        t2.len() <= MAX_REGULAR_SECTOR + 1,
        crate::sectors::only_free_changed(t, t2),
        reaches_end(t, start),
    ensures
        reaches_end(t2, start),
{
    let end = choose|k: nat| #[trigger] chain_at(t, start, k) == Some(END_OF_CHAIN);
    crate::frame::lemma_free_change_keeps(t, t2, start, end);
}

/// What was written before a write is there after it, followed by what the
/// write has put.
pub proof fn lemma_written_so_far(
    d: Disk,
    e: EntryView,
    d2: Disk,
    e2: EntryView,
    from: int,
    done: int,
    n: int,
    buf: Seq<u8>,
)
    requires
        0 <= from,
        0 <= done,
        0 <= n,
        done + n <= buf.len(),
        readable(d, e, from, done),
        stream_bytes(d, e, from, done) == buf.subrange(0, done),
        earlier_kept(d, e, d2, e2, from + done),
        readable(d2, e2, from + done, n),
        stream_bytes(d2, e2, from + done, n) == buf.subrange(done, buf.len() as int).subrange(0, n),
    ensures
        readable(d2, e2, from, done + n),
        stream_bytes(d2, e2, from, done + n) == buf.subrange(0, done + n),
{
    assert forall|j: int| 0 <= j < done + n implies (#[trigger] stream_pos(d2.layout, e2, from + j))
        is Some && stream_pos(d2.layout, e2, from + j)->Some_0 < d2.bytes.len() && stream_byte(
        d2,
        e2,
        from + j,
    ) == buf[j] by {
        if j < done {
            assert(stream_pos(d.layout, e, from + j) is Some);
            assert(here(d, e, from + j));
            assert(stream_bytes(d, e, from, done)[j] == buf.subrange(0, done)[j]);
        } else {
            let i = j - done;
            assert(stream_pos(d2.layout, e2, (from + done) + i) is Some);
            assert(stream_bytes(d2, e2, from + done, n)[i] == buf.subrange(
                done,
                buf.len() as int,
            ).subrange(0, n)[i]);
        }
    }
    assert(stream_bytes(d2, e2, from, done + n) =~= buf.subrange(0, done + n));
    if n == 0 {
        assert(from + done <= e2.stream_len) by {
            assert(readable(d2, e2, from + done, 0));
        }
    }
}

/// A step that changes neither the image nor the chains keeps everything.
pub proof fn lemma_earlier_same(d: Disk, e: EntryView, upto: int)
    ensures
        earlier_kept(d, e, d, e, upto),
{
}

/// Where a mini sector lies in the mini stream: inside one sector, at a
/// multiple of 64 bytes.
pub proof fn lemma_mini_block(l: Layout, m: u32, w: int)
    requires
        0 <= w < MINI_SECTOR_LEN,
    ensures
        sectors_in(l.version, MINI_SECTOR_LEN * m + w) == sectors_in(
            l.version,
            MINI_SECTOR_LEN * m,
        ),
        beyond_sectors(l.version, MINI_SECTOR_LEN * m + w) == beyond_sectors(
            l.version,
            MINI_SECTOR_LEN * m,
        ) + w,
        beyond_sectors(l.version, MINI_SECTOR_LEN * m) + MINI_SECTOR_LEN
            <= l.version.sector_len_spec(),
        MINI_SECTOR_LEN * m == l.version.sector_len_spec() * sectors_in(
            l.version,
            MINI_SECTOR_LEN * m,
        ) + beyond_sectors(l.version, MINI_SECTOR_LEN * m),
{
    let a = MINI_SECTOR_LEN * m;
    let q = m as int / 8;
    let r = m as int % 8;
    assert(a == 512 * q + 64 * r);
    assert(a / 512 == q && a % 512 == 64 * r);
    assert((a + w) / 512 == q && (a + w) % 512 == 64 * r + w);
    let q2 = m as int / 64;
    let r2 = m as int % 64;
    assert(a == 4096 * q2 + 64 * r2);
    assert(a / 4096 == q2 && a % 4096 == 64 * r2);
    assert((a + w) / 4096 == q2 && (a + w) % 4096 == 64 * r2 + w);
}

/// The byte at position `j` of an intact stream does not lie where bytes are
/// put at the cursor, for any `j` before the cursor.
pub proof fn lemma_apart(l: Layout, c: Cursor, n: int, j: int)
    requires
        layout_ok(l),
        0 < c.id < l.directory.len(),
        cursor_ok(l, c),
        intact(l, c.id),
        n > 0,
        c.within + n <= unit_len(l.version, l.directory[c.id as int]),
        0 <= j < c.offset,
        stream_pos(l, l.directory[c.id as int], j) is Some,
        data_pos(l, l.directory[c.id as int], c.sector, c.within as int) is Some,
    ensures
        ({
            let e = l.directory[c.id as int];
            let q = stream_pos(l, e, j)->Some_0;
            let p = data_pos(l, e, c.sector, c.within as int)->Some_0;
            q < p || q >= p + n
        }),
{
    let v = l.version;
    let e = l.directory[c.id as int];
    let t = table_of(l, e);
    let unit = unit_len(v, e);
    let q = stream_pos(l, e, j)->Some_0;
    let p = data_pos(l, e, c.sector, c.within as int)->Some_0;
    let kc = units_in(v, e, c.offset - c.within) as nat;
    let kj = units_in(v, e, j) as nat;
    let wj = beyond_units(v, e, j);
    let sj = chain_at(t, e.start_sector, kj)->Some_0;
    assert(kj <= kc);
    assert(sj < t.len());
    assert(c.sector < t.len());
    if kj == kc {
        assert(sj == c.sector);
        assert(wj < c.within);
        if in_mini(e) {
            lemma_mini_pos(l, sj, wj, c.within - wj);
        }
    } else {
        assert(reaches_end(t, e.start_sector));
        let end = choose|k: nat| #[trigger] chain_at(t, e.start_sector, k) == Some(END_OF_CHAIN);
        lemma_member_index(t, e.start_sector, end, kc);
        lemma_distinct(t, e.start_sector, end, kj, kc);
        assert(sj != c.sector);
        if in_mini(e) {
            let root = l.directory[0].start_sector;
            lemma_mini_block(l, sj, wj);
            lemma_mini_block(l, c.sector, c.within as int);
            let a = MINI_SECTOR_LEN * sj;
            let b = MINI_SECTOR_LEN * c.sector;
            let ia = sectors_in(v, a) as nat;
            let ib = sectors_in(v, b) as nat;
            let ra = chain_at(l.fat, root, ia)->Some_0;
            let rb = chain_at(l.fat, root, ib)->Some_0;
            assert(q == sector_offset(v, ra) + beyond_sectors(v, a) + wj);
            assert(p == sector_offset(v, rb) + beyond_sectors(v, b) + c.within);
            if ia == ib {
                assert(a != b);
            } else {
                assert(reaches_end(l.fat, root));
                let rend = choose|k: nat| #[trigger] chain_at(l.fat, root, k) == Some(END_OF_CHAIN);
                lemma_member_index(l.fat, root, rend, ia);
                lemma_member_index(l.fat, root, rend, ib);
                if ia < ib {
                    lemma_distinct(l.fat, root, rend, ia, ib);
                } else {
                    lemma_distinct(l.fat, root, rend, ib, ia);
                }
                assert(ra != rb);
            }
        }
    }
}

/// Putting bytes at the cursor of an intact stream leaves it intact and
/// keeps every byte before the cursor that was there.
pub proof fn lemma_put_keeps(s: StreamState, data: Seq<u8>)
    requires
        stream_valid(s),
        intact(s.disk.layout, s.cursor.id),
        s.cursor.id < s.disk.layout.directory.len(),
        put_outcome(s, data).1 is Ok,
        data.len() > 0,
        s.cursor.within + data.len() <= unit_len(
            s.disk.layout.version,
            s.disk.layout.directory[s.cursor.id as int],
        ),
        in_mini(s.disk.layout.directory[s.cursor.id as int]) ==> s.cursor.offset + data.len()
            < MINI_STREAM_CUTOFF,
        s.cursor.offset + data.len() <= u64::MAX,
    ensures
        intact(put_outcome(s, data).0.disk.layout, s.cursor.id),
        earlier_kept(
            s.disk,
            s.disk.layout.directory[s.cursor.id as int],
            put_outcome(s, data).0.disk,
            put_outcome(s, data).0.disk.layout.directory[s.cursor.id as int],
            s.cursor.offset as int,
        ),
{
    let l = s.disk.layout;
    let id = s.cursor.id;
    let e = l.directory[id as int];
    let out = put_outcome(s, data).0;
    let l3 = out.disk.layout;
    let e3 = l3.directory[id as int];
    let p = data_pos(l, e, s.cursor.sector, s.cursor.within as int)->Some_0;
    assert(in_mini(e3) == in_mini(e));
    assert(l3.directory[0] == l.directory[0]);
    assert(links_kept(l.minifat, l3.minifat));
    lemma_tables_steady(l, l3);
    lemma_written_at(s.disk.bytes, p, data);
    assert forall|j: int| 0 <= j < s.cursor.offset && #[trigger] here(s.disk, e, j) implies here(
        out.disk,
        e3,
        j,
    ) && stream_pos(l3, e3, j) == stream_pos(l, e, j) && stream_byte(out.disk, e3, j)
        == stream_byte(s.disk, e, j) by {
        let kj = units_in(l.version, e, j) as nat;
        let sj = chain_at(table_of(l, e), e.start_sector, kj)->Some_0;
        assert(mini_pos(l3, sj, beyond_units(l.version, e, j)) == mini_pos(
            l,
            sj,
            beyond_units(l.version, e, j),
        ));
        assert(stream_pos(l3, e3, j) == stream_pos(l, e, j));
        lemma_apart(l, s.cursor, data.len() as int, j);
    }
}

/// The sectors that the chain from `start` passes through on its first `k`
/// links.
pub open spec fn passed(t: Seq<u32>, start: u32, k: nat) -> Set<int>
    decreases k,
{
    if k == 0 {
        Set::empty()
    } else {
        passed(t, start, (k - 1) as nat).insert(
            chain_at(t, start, (k - 1) as nat)->Some_0 as int,
        )
    }
}

/// A chain that comes to an end has passed through as many sectors of the
/// table as it has followed links.
pub proof fn lemma_passed(t: Seq<u32>, start: u32, end: nat, k: nat)
    requires
        t.len() <= MAX_REGULAR_SECTOR + 1,
        chain_at(t, start, end) == Some(END_OF_CHAIN),
        k <= end,
    ensures
        passed(t, start, k).finite(),
        passed(t, start, k).len() == k,
        passed(t, start, k).subset_of(set_int_range(0, t.len() as int)),
        forall|x: int|
            passed(t, start, k).contains(x) ==> exists|j: nat|
                j < k && #[trigger] chain_at(t, start, j) == Some(x as u32) && 0 <= x <= u32::MAX,
    decreases k,
{
    if k > 0 {
        let before = passed(t, start, (k - 1) as nat);
        lemma_passed(t, start, end, (k - 1) as nat);
        crate::frame::lemma_before_end(t, start, end, (k - 1) as nat);
        let s = chain_at(t, start, (k - 1) as nat)->Some_0;
        if before.contains(s as int) {
            let j = choose|j: nat|
                j < k - 1 && #[trigger] chain_at(t, start, j) == Some(s as int as u32) && 0 <= s as int
                    <= u32::MAX;
            lemma_distinct(t, start, end, j, (k - 1) as nat);
        }
        assert forall|x: int| passed(t, start, k).contains(x) implies exists|j: nat|
            j < k && #[trigger] chain_at(t, start, j) == Some(x as u32) && 0 <= x <= u32::MAX by {
            if x == s as int {
                assert(chain_at(t, start, (k - 1) as nat) == Some(x as u32));
            } else {
                let j = choose|j: nat|
                    j < k - 1 && #[trigger] chain_at(t, start, j) == Some(x as u32) && 0 <= x
                        <= u32::MAX;
                assert(j < k);
            }
        }
    }
}

/// A chain that comes to an end does so after no more links than the table
/// has entries.
pub proof fn lemma_chain_short(t: Seq<u32>, start: u32, end: nat)
    requires
        t.len() <= MAX_REGULAR_SECTOR + 1,
        chain_at(t, start, end) == Some(END_OF_CHAIN),
    ensures
        end <= t.len(),
{
    lemma_passed(t, start, end, end);
    lemma_int_range(0, t.len() as int);
    lemma_len_subset(passed(t, start, end), set_int_range(0, t.len() as int));
}

/// A chain that comes to an end within the limit can be collected.
pub proof fn lemma_collectable(t: Seq<u32>, start: u32, end: nat, limit: nat, too_long: Error)
    requires
        t.len() <= MAX_REGULAR_SECTOR + 1,
        chain_at(t, start, end) == Some(END_OF_CHAIN),
        end <= limit,
    ensures
        chain(t, start, limit, too_long) is Ok,
    decreases end,
{
    if start != END_OF_CHAIN {
        assert(chain_at(t, start, 0) == Some(start));
        assert(end >= 1);
        if start >= t.len() {
            assert(chain_at(t, start, 1) is None);
            crate::tables::lemma_chain_at_none(t, start, 1, end);
        }
        crate::tables::lemma_chain_at_shift(t, start, end);
        lemma_collectable(t, t[start as int], (end - 1) as nat, (limit - 1) as nat, too_long);
    }
}

/// A chain can be collected exactly where it comes to an end.
pub proof fn lemma_collect_iff(t: Seq<u32>, start: u32)
    requires
        t.len() <= MAX_REGULAR_SECTOR + 1,
    ensures
        chain(t, start, t.len(), Error::BrokenChain) is Ok <==> reaches_end(t, start),
{
    if chain(t, start, t.len(), Error::BrokenChain) is Ok {
        lemma_chain_links(t, start, t.len(), Error::BrokenChain);
    }
    if reaches_end(t, start) {
        let end = choose|k: nat| #[trigger] chain_at(t, start, k) == Some(END_OF_CHAIN);
        lemma_chain_short(t, start, end);
        lemma_collectable(t, start, end, t.len(), Error::BrokenChain);
    }
}

/// Tells whether a list of sectors holds `s`.
pub fn holds(list: &Vec<u32>, s: u32) -> (r: bool)
    ensures
        r <==> exists|j: int| 0 <= j < list@.len() && #[trigger] list@[j] == s,
{
    let mut i: usize = 0;
    while i < list.len()
        invariant
            i <= list@.len(),
            forall|j: int| 0 <= j < i ==> #[trigger] list@[j] != s,
        decreases list@.len() - i,
    {
        if list[i] == s {
            return true;
        }
        i = i + 1;
    }
    false
}

/// The sectors of the table that the chain from `start` passes through are
/// those of the list `c`, in order, and none of them is free.
pub open spec fn collected(t: Seq<u32>, start: u32, c: Seq<u32>) -> bool {
    forall|k: nat|
        (#[trigger] chain_at(t, start, k)) is Some && chain_at(t, start, k)->Some_0 < t.len() ==> k
            < c.len() && c[k as int] == chain_at(t, start, k)->Some_0 && t[c[k as int] as int]
            != FREE_SECTOR
}

/// A chain that was collected comes to an end, and passes through the
/// sectors that were collected and no other sector of the table.
pub proof fn lemma_collected(t: Seq<u32>, start: u32, c: Seq<u32>)
    requires
        t.len() <= MAX_REGULAR_SECTOR + 1,
        chain(t, start, t.len(), Error::BrokenChain) == Ok::<Seq<u32>, Error>(c),
    ensures
        reaches_end(t, start),
        chain_at(t, start, c.len()) == Some(END_OF_CHAIN),
        collected(t, start, c),
{
    lemma_chain_links(t, start, t.len(), Error::BrokenChain);
    assert forall|k: nat|
        (#[trigger] chain_at(t, start, k)) is Some && chain_at(t, start, k)->Some_0
            < t.len() implies k < c.len() && c[k as int] == chain_at(t, start, k)->Some_0
        && t[c[k as int] as int] != FREE_SECTOR by {
        lemma_member_index(t, start, c.len(), k);
        assert(chain_at(t, start, k) == Some(c[k as int]));
        crate::frame::lemma_before_end(t, start, c.len(), k);
    }
}

impl CompoundFile {
    /// Tells whether the chain of the directory and the chain of the MiniFAT
    /// come to an end; the sectors of both are handed out where they do.
    pub fn meta_sectors(&self) -> (r: Option<(Vec<u32>, Vec<u32>)>)
        requires
            self.wf(),
        ensures
            r is Some <==> meta_ok(self.layout()),
            r is Some ==> {
                &&& chain(
                    self.layout().fat,
                    self.layout().directory_start_sector,
                    self.layout().fat.len(),
                    Error::BrokenChain,
                ) == Ok::<Seq<u32>, Error>(r->Some_0.0@)
                &&& chain(
                    self.layout().fat,
                    self.layout().minifat_start_sector,
                    self.layout().fat.len(),
                    Error::BrokenChain,
                ) == Ok::<Seq<u32>, Error>(r->Some_0.1@)
            },
    {
        proof {
            lemma_collect_iff(self.layout().fat, self.layout().directory_start_sector);
            lemma_collect_iff(self.layout().fat, self.layout().minifat_start_sector);
        }
        let directory: Vec<u32> = match collect_chain(
            &self.fat,
            self.directory_start_sector,
            self.fat.len(),
            Error::BrokenChain,
        ) {
            Ok(sectors) => sectors,
            Err(_) => {
                return None;
            },
        };
        let minifat: Vec<u32> = match collect_chain(
            &self.fat,
            self.minifat_start_sector,
            self.fat.len(),
            Error::BrokenChain,
        ) {
            Ok(sectors) => sectors,
            Err(_) => {
                return None;
            },
        };
        proof {
            lemma_collected(self.layout().fat, self.layout().directory_start_sector, directory@);
            lemma_collected(self.layout().fat, self.layout().minifat_start_sector, minifat@);
        }
        Some((directory, minifat))
    }

    /// Tells whether the chain from `start` is a chain of data, given the
    /// sectors of the directory and of the MiniFAT.
    pub fn holds_data(&self, start: u32, directory: &Vec<u32>, minifat: &Vec<u32>) -> (r: bool)
        requires
            self.wf(),
            chain(
                self.layout().fat,
                self.layout().directory_start_sector,
                self.layout().fat.len(),
                Error::BrokenChain,
            ) == Ok::<Seq<u32>, Error>(directory@),
            chain(
                self.layout().fat,
                self.layout().minifat_start_sector,
                self.layout().fat.len(),
                Error::BrokenChain,
            ) == Ok::<Seq<u32>, Error>(minifat@),
        ensures
            r <==> data_chain(self.layout(), start),
    {
        let ghost l = self.layout();
        proof {
            lemma_collect_iff(l.fat, start);
        }
        let sectors: Vec<u32> = match collect_chain(
            &self.fat,
            start,
            self.fat.len(),
            Error::BrokenChain,
        ) {
            Ok(sectors) => sectors,
            Err(_) => {
                return false;
            },
        };
        proof {
            lemma_collected(l.fat, start, sectors@);
            lemma_collected(l.fat, l.directory_start_sector, directory@);
            lemma_collected(l.fat, l.minifat_start_sector, minifat@);
            lemma_chain_links(l.fat, start, l.fat.len(), Error::BrokenChain);
            lemma_chain_links(l.fat, l.directory_start_sector, l.fat.len(), Error::BrokenChain);
            lemma_chain_links(l.fat, l.minifat_start_sector, l.fat.len(), Error::BrokenChain);
        }
        let mut i: usize = 0;
        while i < sectors.len()
            invariant
                i <= sectors@.len(),
                l == self.layout(),
                self.wf(),
                forall|k: int| 0 <= k < sectors@.len() ==> (#[trigger] sectors@[k]) < l.fat.len(),
                forall|k: int| 0 <= k < i ==> payload(l, (#[trigger] sectors@[k]) as int),
                collected(l.fat, start, sectors@),
                collected(l.fat, l.directory_start_sector, directory@),
                collected(l.fat, l.minifat_start_sector, minifat@),
                forall|k: int|
                    0 <= k < sectors@.len() ==> chain_at(l.fat, start, k as nat) == Some(
                        #[trigger] sectors@[k],
                    ),
                forall|k: int|
                    0 <= k < directory@.len() ==> chain_at(
                        l.fat,
                        l.directory_start_sector,
                        k as nat,
                    ) == Some(#[trigger] directory@[k]),
                forall|k: int|
                    0 <= k < minifat@.len() ==> chain_at(
                        l.fat,
                        l.minifat_start_sector,
                        k as nat,
                    ) == Some(#[trigger] minifat@[k]),
            decreases sectors@.len() - i,
        {
            let s: u32 = sectors[i];
            let in_directory: bool = holds(directory, s);
            let in_minifat: bool = holds(minifat, s);
            if self.fat[s as usize] == FAT_SECTOR || in_directory || in_minifat {
                proof {
                    assert(chain_at(l.fat, start, i as nat) == Some(s));
                    if in_directory {
                        let j = choose|j: int| 0 <= j < directory@.len() && #[trigger] directory@[j] == s;
                        assert(chain_at(l.fat, l.directory_start_sector, j as nat) == Some(
                            s as int as u32,
                        ));
                        assert(in_chain(l.fat, l.directory_start_sector, s as int));
                    }
                    if in_minifat {
                        let j = choose|j: int| 0 <= j < minifat@.len() && #[trigger] minifat@[j] == s;
                        assert(chain_at(l.fat, l.minifat_start_sector, j as nat) == Some(
                            s as int as u32,
                        ));
                        assert(in_chain(l.fat, l.minifat_start_sector, s as int));
                    }
                    assert(!payload(l, s as int));
                }
                return false;
            }
            proof {
                assert(chain_at(l.fat, start, i as nat) == Some(s));
                assert(l.fat[s as int] != FREE_SECTOR);
                if in_chain(l.fat, l.minifat_start_sector, s as int) {
                    let j = choose|j: nat| #[trigger]
                        chain_at(l.fat, l.minifat_start_sector, j) == Some(s as int as u32) && 0
                            <= s as int <= u32::MAX;
                    assert(minifat@[j as int] == s);
                }
                if in_chain(l.fat, l.directory_start_sector, s as int) {
                    let j = choose|j: nat| #[trigger]
                        chain_at(l.fat, l.directory_start_sector, j) == Some(s as int as u32) && 0
                            <= s as int <= u32::MAX;
                    assert(directory@[j as int] == s);
                }
            }
            i = i + 1;
        }
        proof {
            assert forall|k: nat|
                (#[trigger] chain_at(l.fat, start, k)) is Some && chain_at(l.fat, start, k)->Some_0
                    < l.fat.len() implies payload(l, chain_at(l.fat, start, k)->Some_0 as int) by {
                assert(payload(l, sectors@[k as int] as int));
            }
        }
        true
    }
}

} // verus!
