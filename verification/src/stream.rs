//! The stream cursor: seeking, reading and writing the bytes of one stream.
//!
//! A stream shorter than 4096 bytes lives in mini sectors, a longer one in
//! sectors.  The cursor holds a position in the stream and the sector of
//! the chain that the position falls in.

use crate::compound::{layout_ok, CompoundFile, Disk};
use crate::consts::{END_OF_CHAIN, MINI_SECTOR_LEN, MINI_STREAM_CUTOFF};
use crate::dir_entry::{encode_entry, DirEntry, EntryView};
use crate::error::Error;
use crate::frame::{framed, steady};
use crate::image::{sector_offset, Layout};
use crate::intact::{
    earlier_kept, intact, lemma_earlier_same, lemma_earlier_then, lemma_free_change_reaches,
    lemma_grew_reaches, lemma_put_keeps, lemma_step_intact, lemma_written_so_far,
};
use crate::mini::{disk_extend, lemma_same_tree, mini_alloc, mini_extend, same_tree};
use crate::sectors::{alloc_sector, extend_fault, lemma_chain_kept, sound};
use crate::seeking::{entry_pos, mini_pos};
use crate::store::{bytes_at, lemma_written_at, written_at};
use crate::tables::{chain_at, collect_chain, walk_chain};
use crate::version::Version;
use vstd::prelude::*;

verus! {

/// Where a seek starts to count from.
#[derive(Clone, Copy, Debug, PartialEq, Eq, Structural)]
pub enum SeekFrom {
    /// Bytes from the start of the stream.
    Start(u64),
    /// Bytes from the end of the stream, which a seek cannot go beyond.
    End(i64),
    /// Bytes from the current position.
    Current(i64),
}

/// The update of a directory entry that a modified stream owes the image.
#[derive(Clone, Copy, Debug, PartialEq, Eq, Structural)]
pub struct UpdateDirEntry {
    pub stream_id: u32,
}

/// A stream of a compound file, open for reading and writing.
pub struct Stream<'a> {
    pub(crate) comp: &'a mut CompoundFile,
    pub(crate) stream_id: u32,
    pub(crate) offset_from_start: u64,
    pub(crate) offset_within_sector: usize,
    pub(crate) current_sector: u32,
    pub(crate) finisher: Option<UpdateDirEntry>,
}

/// The state of a stream cursor.
pub struct Cursor {
    /// The stream ID of the stream.
    pub id: u32,
    /// The position, in bytes from the start of the stream.
    pub offset: u64,
    /// The position inside the current sector; the length of a sector where
    /// the sector was used up and the next one is not yet entered.
    pub within: usize,
    /// The current sector, or mini sector, of the chain of the stream.
    pub sector: u32,
}

/// Whether the stream with this entry lives in the mini stream.
pub open spec fn in_mini(e: EntryView) -> bool {
    e.stream_len < MINI_STREAM_CUTOFF
}

/// Length of the sectors that hold a stream: mini sectors or sectors.
pub open spec fn unit_len(v: Version, e: EntryView) -> int {
    if in_mini(e) {
        MINI_SECTOR_LEN as int
    } else {
        v.sector_len_spec() as int
    }
}

/// Number of whole sectors of a stream in its first `off` bytes.
pub open spec fn units_in(v: Version, e: EntryView, off: int) -> int {
    if in_mini(e) {
        off / 64
    } else {
        match v {
            Version::V3 => off / 512,
            Version::V4 => off / 4096,
        }
    }
}

/// What is left of the first `off` bytes of a stream after the whole
/// sectors in them.
pub open spec fn beyond_units(v: Version, e: EntryView, off: int) -> int {
    if in_mini(e) {
        off % 64
    } else {
        match v {
            Version::V3 => off % 512,
            Version::V4 => off % 4096,
        }
    }
}

/// The table that links the sectors of a stream.
pub open spec fn table_of(l: Layout, e: EntryView) -> Seq<u32> {
    if in_mini(e) {
        l.minifat
    } else {
        l.fat
    }
}

/// What holds of a cursor: it lies inside the stream, and its sector is the
/// one that the chain of the stream reaches after the whole sectors before
/// the position.
pub open spec fn cursor_ok(l: Layout, c: Cursor) -> bool {
    let e = l.directory[c.id as int];
    let unit = unit_len(l.version, e);
    &&& c.id < l.directory.len()
    &&& c.offset <= e.stream_len
    &&& c.within <= unit
    &&& c.within <= c.offset
    &&& beyond_units(l.version, e, c.offset - c.within) == 0
    &&& chain_at(
        table_of(l, e),
        e.start_sector,
        units_in(l.version, e, c.offset - c.within) as nat,
    ) == Some(c.sector)
}

/// Offset in the image of byte `within` of a sector of a stream.
pub open spec fn data_pos(l: Layout, e: EntryView, sector: u32, within: int) -> Option<int> {
    if sector >= table_of(l, e).len() {
        None
    } else if in_mini(e) {
        mini_pos(l, sector, within)
    } else {
        Some(sector_offset(l.version, sector) + within)
    }
}

/// A stream as a whole: the compound file, the cursor, and whether the
/// stream was written to since it was last flushed.
pub struct StreamState {
    pub disk: Disk,
    pub cursor: Cursor,
    pub modified: bool,
}

/// The position that a seek asks for, if it lies inside the stream.
pub open spec fn seek_target(len: u64, offset: u64, pos: SeekFrom) -> Option<u64> {
    let t: int = match pos {
        SeekFrom::Start(d) => d as int,
        SeekFrom::End(d) => len + d,
        SeekFrom::Current(d) => offset + d,
    };
    if 0 <= t <= len {
        Some(t as u64)
    } else {
        None
    }
}

/// The outcome of a seek: the stream afterwards, and the position before
/// the seek or the failure.  A seek to the position of the cursor changes
/// nothing; any other walks the chain from its start.
pub open spec fn seek_outcome(s: StreamState, pos: SeekFrom) -> (StreamState, Result<u64, Error>) {
    let l = s.disk.layout;
    let e = l.directory[s.cursor.id as int];
    match seek_target(e.stream_len, s.cursor.offset, pos) {
        None => (s, Err(Error::SeekOutOfRange)),
        Some(t) => if t == s.cursor.offset {
            (s, Ok(s.cursor.offset))
        } else {
            match chain_at(table_of(l, e), e.start_sector, units_in(l.version, e, t as int) as nat) {
                None => (s, Err(Error::BrokenChain)),
                Some(sector) => (
                    StreamState {
                        cursor: Cursor {
                            offset: t,
                            within: beyond_units(l.version, e, t as int) as usize,
                            sector,
                            ..s.cursor
                        },
                        ..s
                    },
                    Ok(s.cursor.offset),
                ),
            }
        },
    }
}

/// The cursor after it has entered the next sector of the chain, where it
/// stood at the end of one; nothing where the chain is broken there.
pub open spec fn entered(l: Layout, c: Cursor) -> Option<Cursor> {
    let e = l.directory[c.id as int];
    if c.within == unit_len(l.version, e) {
        if c.sector < table_of(l, e).len() {
            Some(Cursor { within: 0, sector: table_of(l, e)[c.sector as int], ..c })
        } else {
            None
        }
    } else {
        Some(c)
    }
}

/// Splits a number of bytes of a stream into whole sectors and the rest.
pub fn split_units(v: Version, mini: bool, off: u64) -> (r: (u64, u64))
    ensures
        forall|e: EntryView|
            in_mini(e) == mini ==> r.0 == #[trigger] units_in(v, e, off as int) && r.1
                == beyond_units(v, e, off as int) && r.1 < unit_len(v, e),
{
    if mini {
        (off / 64, off % 64)
    } else {
        match v {
            Version::V3 => (off / 512, off % 512),
            Version::V4 => (off / 4096, off % 4096),
        }
    }
}

/// A cursor that enters the next sector of its chain is still as a cursor
/// has to be.
pub proof fn lemma_entered(l: Layout, c: Cursor)
    requires
        cursor_ok(l, c),
        entered(l, c) is Some,
    ensures
        cursor_ok(l, entered(l, c)->Some_0),
        entered(l, c)->Some_0.within < unit_len(l.version, l.directory[c.id as int]),
        entered(l, c)->Some_0.offset == c.offset,
        entered(l, c)->Some_0.id == c.id,
{
    let e = l.directory[c.id as int];
    let unit = unit_len(l.version, e);
    if c.within == unit {
        let k = units_in(l.version, e, c.offset - c.within);
        assert(units_in(l.version, e, c.offset as int) == k + 1);
        assert(beyond_units(l.version, e, c.offset as int) == 0);
        assert(chain_at(table_of(l, e), e.start_sector, (k + 1) as nat) == Some(
            table_of(l, e)[c.sector as int],
        ));
    }
}

/// Offset in the image of byte `i` of a stream.
pub open spec fn stream_pos(l: Layout, e: EntryView, i: int) -> Option<int> {
    match chain_at(table_of(l, e), e.start_sector, units_in(l.version, e, i) as nat) {
        Some(s) => data_pos(l, e, s, beyond_units(l.version, e, i)),
        None => None,
    }
}

/// Byte `i` of a stream.
pub open spec fn stream_byte(d: Disk, e: EntryView, i: int) -> u8 {
    d.bytes[stream_pos(d.layout, e, i)->Some_0]
}

/// The `n` bytes of a stream from byte `from` on.
pub open spec fn stream_bytes(d: Disk, e: EntryView, from: int, n: int) -> Seq<u8> {
    Seq::new(n as nat, |j: int| stream_byte(d, e, from + j))
}

/// Whether the `n` bytes of a stream from byte `from` on are there to be
/// read: they lie inside the stream, its chain reaches each of them, and the
/// image holds each of them.
pub open spec fn readable(d: Disk, e: EntryView, from: int, n: int) -> bool {
    &&& from + n <= e.stream_len
    &&& forall|j: int|
        0 <= j < n ==> (#[trigger] stream_pos(d.layout, e, from + j)) is Some && stream_pos(
            d.layout,
            e,
            from + j,
        )->Some_0 < d.bytes.len()
}

/// The least of three numbers.
pub open spec fn least(a: int, b: int, c: int) -> int {
    if a <= b && a <= c {
        a
    } else if b <= c {
        b
    } else {
        c
    }
}

/// The outcome of reading up to `max` bytes into a buffer from index `at`
/// on: the stream, the buffer, and the number of bytes read or the failure.
/// One read stays inside one sector and inside the stream, and takes what
/// the image holds of that.
pub open spec fn read_outcome(s: StreamState, buf: Seq<u8>, at: int, max: int) -> (
    StreamState,
    Seq<u8>,
    Result<usize, Error>,
) {
    let l = s.disk.layout;
    let e = l.directory[s.cursor.id as int];
    match entered(l, s.cursor) {
        None => (s, buf, Err(Error::BrokenChain)),
        Some(c) => {
            let s1 = StreamState { cursor: c, ..s };
            let m = least(max, e.stream_len - c.offset, unit_len(l.version, e) - c.within);
            if m == 0 {
                (s1, buf, Ok(0))
            } else {
                match data_pos(l, e, c.sector, c.within as int) {
                    None => (s1, buf, Err(Error::BrokenChain)),
                    Some(p) => {
                        let avail = if p <= s.disk.bytes.len() {
                            s.disk.bytes.len() - p
                        } else {
                            0
                        };
                        let n = if m <= avail {
                            m
                        } else {
                            avail
                        };
                        (
                            StreamState {
                                cursor: Cursor {
                                    offset: (c.offset + n) as u64,
                                    within: (c.within + n) as usize,
                                    ..c
                                },
                                ..s1
                            },
                            crate::store::spliced(buf, at, bytes_at(s.disk.bytes, p, n)),
                            Ok(n as usize),
                        )
                    },
                }
            }
        },
    }
}

/// The outcome of filling a buffer from index `at` on, one read after the
/// other: the stream, the buffer, and the failure where the bytes ran out
/// or a chain was broken.
pub open spec fn read_exact_outcome(s: StreamState, buf: Seq<u8>, at: int) -> (
    StreamState,
    Seq<u8>,
    Result<(), Error>,
)
    decreases buf.len() - at,
{
    if at < 0 || at >= buf.len() {
        (s, buf, Ok(()))
    } else {
        let out = read_outcome(s, buf, at, buf.len() - at);
        match out.2 {
            Err(x) => (out.0, out.1, Err(x)),
            Ok(n) => if 0 < n <= buf.len() - at {
                read_exact_outcome(out.0, out.1, at + n)
            } else {
                (out.0, out.1, Err(Error::UnexpectedEof))
            },
        }
    }
}

/// What holds of a stream between any two operations.
pub open spec fn stream_valid(s: StreamState) -> bool {
    &&& layout_ok(s.disk.layout)
    &&& s.cursor.id != 0
    &&& cursor_ok(s.disk.layout, s.cursor)
}

/// A read keeps a stream valid and does not touch the compound file.
pub proof fn lemma_read_keeps(s: StreamState, buf: Seq<u8>, at: int, max: int)
    requires
        stream_valid(s),
        max > 0,
        0 <= at,
        at + max <= buf.len(),
    ensures
        stream_valid(read_outcome(s, buf, at, max).0),
        read_outcome(s, buf, at, max).0.disk == s.disk,
        read_outcome(s, buf, at, max).0.cursor.id == s.cursor.id,
        read_outcome(s, buf, at, max).0.modified == s.modified,
{
    let l = s.disk.layout;
    if entered(l, s.cursor) is Some {
        lemma_entered(l, s.cursor);
    }
}

/// Filling a buffer succeeds exactly where the bytes are there to be read,
/// and then the buffer holds them.
#[verifier::rlimit(80)]
pub proof fn lemma_read_exact(s: StreamState, buf: Seq<u8>, at: int)
    requires
        stream_valid(s),
        0 <= at <= buf.len(),
    ensures
        ({
            let e = s.disk.layout.directory[s.cursor.id as int];
            let off = s.cursor.offset as int;
            let out = read_exact_outcome(s, buf, at);
            &&& out.0.disk == s.disk
            &&& out.0.cursor.id == s.cursor.id
            &&& out.0.modified == s.modified
            &&& stream_valid(out.0)
            &&& out.1.len() == buf.len()
            &&& out.2 is Ok <==> readable(s.disk, e, off, buf.len() - at)
            &&& out.2 is Ok ==> out.0.cursor.offset == off + buf.len() - at
            &&& out.2 is Ok ==> forall|j: int|
                at <= j < buf.len() ==> out.1[j] == stream_byte(s.disk, e, off + j - at)
            &&& forall|j: int| 0 <= j < at ==> out.1[j] == buf[j]
        }),
    decreases buf.len() - at,
{
    let e = s.disk.layout.directory[s.cursor.id as int];
    let off = s.cursor.offset as int;
    if at < buf.len() {
        let max = buf.len() - at;
        lemma_read_step(s, buf, at, max);
        lemma_read_keeps(s, buf, at, max);
        let step = read_outcome(s, buf, at, max);
        match step.2 {
            Err(x) => {
                assert(stream_pos(s.disk.layout, e, off + 0) is None);
            },
            Ok(n) => {
                if 0 < n <= max {
                    lemma_read_exact(step.0, step.1, at + n);
                    let out = read_exact_outcome(s, buf, at);
                    let rest = buf.len() - at - n;
                    if readable(s.disk, e, off, max) {
                        assert forall|j: int| 0 <= j < rest implies (#[trigger] stream_pos(
                            s.disk.layout,
                            e,
                            off + n + j,
                        )) is Some && stream_pos(s.disk.layout, e, off + n + j)->Some_0
                            < s.disk.bytes.len() by {
                            assert(stream_pos(s.disk.layout, e, off + (n + j)) is Some);
                        }
                        assert(readable(s.disk, e, off + n, rest));
                    }
                    if readable(s.disk, e, off + n, rest) {
                        assert forall|j: int| 0 <= j < max implies (#[trigger] stream_pos(
                            s.disk.layout,
                            e,
                            off + j,
                        )) is Some && stream_pos(s.disk.layout, e, off + j)->Some_0
                            < s.disk.bytes.len() by {
                            if j >= n {
                                assert(stream_pos(s.disk.layout, e, (off + n) + (j - n)) is Some);
                            }
                        }
                    }
                    if out.2 is Ok {
                        assert forall|j: int| at <= j < buf.len() implies out.1[j] == stream_byte(
                            s.disk,
                            e,
                            off + j - at,
                        ) by {
                            if j < at + n {
                                assert(step.1[at + (j - at)] == stream_byte(
                                    s.disk,
                                    e,
                                    off + (j - at),
                                ));
                            } else {
                                assert(out.1[j] == stream_byte(
                                    s.disk,
                                    e,
                                    (off + n) + j - (at + n),
                                ));
                            }
                        }
                    }
                } else {
                    assert(n == 0);
                    assert(!readable(s.disk, e, off, max)) by {
                        if off != e.stream_len {
                            assert(!(stream_pos(s.disk.layout, e, off + 0) is Some && stream_pos(
                                s.disk.layout,
                                e,
                                off + 0,
                            )->Some_0 < s.disk.bytes.len()));
                        }
                    }
                }
            },
        }
    } else {
        assert(readable(s.disk, e, off, 0));
    }
}

/// A seek that succeeds leaves a valid stream with its cursor where the
/// seek asked for.
pub proof fn lemma_seek(s: StreamState, pos: SeekFrom)
    requires
        stream_valid(s),
    ensures
        stream_valid(seek_outcome(s, pos).0),
        seek_outcome(s, pos).0.disk == s.disk,
        seek_outcome(s, pos).0.cursor.id == s.cursor.id,
        seek_outcome(s, pos).1 is Ok ==> Some(seek_outcome(s, pos).0.cursor.offset) == seek_target(
            s.disk.layout.directory[s.cursor.id as int].stream_len,
            s.cursor.offset,
            pos,
        ),
{
    let l = s.disk.layout;
    let e = l.directory[s.cursor.id as int];
    match seek_target(e.stream_len, s.cursor.offset, pos) {
        None => {},
        Some(t) => {
            if t != s.cursor.offset {
                let rest = beyond_units(l.version, e, t as int);
                assert(units_in(l.version, e, t - rest) == units_in(l.version, e, t as int));
                assert(beyond_units(l.version, e, t - rest) == 0);
            }
        },
    }
}

/// Inside a sector, the bytes of a mini sector lie one after the other.
pub proof fn lemma_mini_pos(l: Layout, m: u32, w: int, j: int)
    requires
        0 <= w,
        0 <= j,
        w + j < MINI_SECTOR_LEN,
    ensures
        mini_pos(l, m, w + j) == (match mini_pos(l, m, w) {
            Some(p) => Some(p + j),
            None => None,
        }),
{
    let a = MINI_SECTOR_LEN * m + w;
    let q = m as int / 8;
    let r = m as int % 8;
    assert(a == 512 * q + 64 * r + w);
    assert(a / 512 == q && a % 512 == 64 * r + w);
    assert((a + j) / 512 == q && (a + j) % 512 == 64 * r + w + j);
    let q2 = m as int / 64;
    let r2 = m as int % 64;
    assert(a == 4096 * q2 + 64 * r2 + w);
    assert(a / 4096 == q2 && a % 4096 == 64 * r2 + w);
    assert((a + j) / 4096 == q2 && (a + j) % 4096 == 64 * r2 + w + j);
}

/// The bytes from the cursor to the end of its sector are the bytes of the
/// stream from the position of the cursor on.
pub proof fn lemma_cursor_pos(l: Layout, c: Cursor, j: int)
    requires
        cursor_ok(l, c),
        0 <= j,
        c.within + j < unit_len(l.version, l.directory[c.id as int]),
    ensures
        stream_pos(l, l.directory[c.id as int], c.offset + j) == (match data_pos(
            l,
            l.directory[c.id as int],
            c.sector,
            c.within as int,
        ) {
            Some(p) => Some(p + j),
            None => None,
        }),
{
    let e = l.directory[c.id as int];
    let base = c.offset - c.within;
    assert(units_in(l.version, e, c.offset + j) == units_in(l.version, e, base));
    assert(beyond_units(l.version, e, c.offset + j) == c.within + j);
    if in_mini(e) {
        lemma_mini_pos(l, c.sector, c.within as int, j);
    }
}

/// What one read tells about the bytes of the stream at the cursor.
pub proof fn lemma_read_step(s: StreamState, buf: Seq<u8>, at: int, max: int)
    requires
        cursor_ok(s.disk.layout, s.cursor),
        max > 0,
        0 <= at,
        at + max <= buf.len(),
    ensures
        ({
            let l = s.disk.layout;
            let e = l.directory[s.cursor.id as int];
            let off = s.cursor.offset as int;
            let out = read_outcome(s, buf, at, max);
            match out.2 {
                Ok(n) => {
                    &&& n <= max
                    &&& off + n <= e.stream_len
                    &&& out.0.cursor.offset == off + n
                    &&& out.1.len() == buf.len()
                    &&& forall|j: int|
                        0 <= j < n ==> (#[trigger] stream_pos(l, e, off + j)) is Some && stream_pos(
                            l,
                            e,
                            off + j,
                        )->Some_0 < s.disk.bytes.len() && out.1[at + j] == stream_byte(
                            s.disk,
                            e,
                            off + j,
                        )
                    &&& forall|i: int|
                        0 <= i < buf.len() && !(at <= i < at + n) ==> out.1[i] == buf[i]
                    &&& n == 0 ==> off == e.stream_len || !(stream_pos(l, e, off) is Some
                        && stream_pos(l, e, off)->Some_0 < s.disk.bytes.len())
                },
                Err(x) => stream_pos(l, e, off) is None && (x == Error::BrokenChain),
            }
        }),
{
    let l = s.disk.layout;
    let e = l.directory[s.cursor.id as int];
    let off = s.cursor.offset as int;
    let unit = unit_len(l.version, e);
    match entered(l, s.cursor) {
        None => {
            let k = units_in(l.version, e, off - s.cursor.within);
            assert(units_in(l.version, e, off) == k + 1);
            assert(chain_at(table_of(l, e), e.start_sector, (k + 1) as nat) is None);
        },
        Some(c) => {
            lemma_entered(l, s.cursor);
            lemma_cursor_pos(l, c, 0);
            let m = least(max, e.stream_len - c.offset, unit - c.within);
            if m > 0 {
                match data_pos(l, e, c.sector, c.within as int) {
                    None => {},
                    Some(p) => {
                        let out = read_outcome(s, buf, at, max);
                        let n = out.2->Ok_0 as int;
                        assert forall|j: int| 0 <= j < n implies (#[trigger] stream_pos(
                            l,
                            e,
                            off + j,
                        )) is Some && stream_pos(l, e, off + j)->Some_0 < s.disk.bytes.len()
                            && out.1[at + j] == stream_byte(s.disk, e, off + j) by {
                            lemma_cursor_pos(l, c, j);
                        }
                    },
                }
            }
        },
    }
}

/// The tables and the directory with another start sector of entry `id`.
pub open spec fn with_start(l: Layout, id: u32, start: u32) -> Layout {
    Layout {
        directory: l.directory.update(
            id as int,
            EntryView { start_sector: start, ..l.directory[id as int] },
        ),
        ..l
    }
}

/// The tables and the directory with another length of entry `id`.
pub open spec fn with_len(l: Layout, id: u32, len: u64) -> Layout {
    Layout {
        directory: l.directory.update(
            id as int,
            EntryView { stream_len: len, ..l.directory[id as int] },
        ),
        ..l
    }
}

/// The tables and the directory with another time of modification of entry
/// `id`.
pub open spec fn with_modified(l: Layout, id: u32, time: u64) -> Layout {
    Layout {
        directory: l.directory.update(
            id as int,
            EntryView { modified_time: time, ..l.directory[id as int] },
        ),
        ..l
    }
}

/// A cursor is not touched by a new time of modification.
pub proof fn lemma_cursor_modified(l: Layout, c: Cursor, now: u64)
    requires
        cursor_ok(l, c),
    ensures
        cursor_ok(with_modified(l, c.id, now), c),
{
}

/// Changing the start sector, the length or the times of an entry other
/// than the root keeps a compound file well formed.
pub proof fn lemma_entry_update(l: Layout, id: u32, e2: EntryView)
    requires
        layout_ok(l),
        0 < id < l.directory.len(),
        e2.name == l.directory[id as int].name,
        e2.left_sibling == l.directory[id as int].left_sibling,
        e2.right_sibling == l.directory[id as int].right_sibling,
        e2.child == l.directory[id as int].child,
    ensures
        layout_ok(Layout { directory: l.directory.update(id as int, e2), ..l }),
{
    let d2 = l.directory.update(id as int, e2);
    assert(same_tree(l.directory, d2));
    lemma_same_tree(l.directory, d2);
}

/// Number of bytes that one write of `n` bytes takes: no more than the
/// current sector has room for, or a whole sector where the current one is
/// used up.
pub open spec fn write_chunk(l: Layout, c: Cursor, n: int) -> int {
    let unit = unit_len(l.version, l.directory[c.id as int]);
    let room = if c.within == unit {
        unit
    } else {
        unit - c.within
    };
    if n <= room {
        n
    } else {
        room
    }
}

/// The outcome of giving a stream whose chain has ended one more sector:
/// the compound file, the cursor in the new sector, and the failure if
/// there was one.  A stream without a chain gets a first mini sector, which
/// becomes its start sector; any other has its chain extended, in the
/// MiniFAT or in the FAT.
#[verifier::opaque]
pub open spec fn grown(d: Disk, c: Cursor) -> (Disk, Cursor, Option<Error>) {
    let l = d.layout;
    let e = l.directory[c.id as int];
    if in_mini(e) {
        if e.start_sector == END_OF_CHAIN {
            let out = mini_alloc(d, END_OF_CHAIN);
            match out.1 {
                Err(x) => (out.0, c, Some(x)),
                Ok(m) => (
                    Disk { layout: with_start(out.0.layout, c.id, m), ..out.0 },
                    Cursor { sector: m, ..c },
                    None,
                ),
            }
        } else {
            let out = mini_extend(d, e.start_sector);
            match out.1 {
                Err(x) => (out.0, c, Some(x)),
                Ok(m) => (out.0, Cursor { sector: m, ..c }, None),
            }
        }
    } else {
        match extend_fault(l, e.start_sector) {
            Some(x) => (d, c, Some(x)),
            None => (disk_extend(d, e.start_sector), Cursor { sector: alloc_sector(l), ..c }, None),
        }
    }
}

/// The outcome of getting a stream ready for a write: it is marked as
/// modified, the cursor enters the next sector where the current one is used
/// up, and the chain gets one more sector where it has ended.
pub open spec fn prepared(s: StreamState) -> (StreamState, Option<Error>) {
    match entered(s.disk.layout, s.cursor) {
        None => (StreamState { modified: true, ..s }, Some(Error::BrokenChain)),
        Some(c1) => if c1.sector == END_OF_CHAIN {
            let g = grown(s.disk, c1);
            (StreamState { disk: g.0, cursor: g.1, modified: true }, g.2)
        } else {
            (StreamState { cursor: c1, modified: true, ..s }, None)
        },
    }
}

/// The outcome of putting bytes into the current sector at the cursor: they
/// are written to the image, the cursor moves behind them, and the stream
/// becomes as long as the cursor is far.
pub open spec fn put_outcome(s: StreamState, data: Seq<u8>) -> (StreamState, Result<usize, Error>) {
    let l = s.disk.layout;
    let id = s.cursor.id;
    let e = l.directory[id as int];
    match data_pos(l, e, s.cursor.sector, s.cursor.within as int) {
        None => (s, Err(Error::BrokenChain)),
        Some(p) => {
            let far = (s.cursor.offset + data.len()) as u64;
            (
                StreamState {
                    disk: Disk {
                        layout: if far > e.stream_len {
                            with_len(l, id, far)
                        } else {
                            l
                        },
                        bytes: written_at(s.disk.bytes, p, data),
                    },
                    cursor: Cursor {
                        offset: far,
                        within: (s.cursor.within + data.len()) as usize,
                        ..s.cursor
                    },
                    ..s
                },
                Ok(data.len() as usize),
            )
        },
    }
}

/// The outcome of one write: the stream afterwards, and the number of bytes
/// written or the failure.  A write that would make a stream of the mini
/// stream 4096 bytes long or longer fails and changes nothing, and so does
/// one that would take the cursor beyond what 64 bits count.  Any other gets
/// the stream ready and puts as many bytes as the current sector has room
/// for.
pub open spec fn write_outcome(s: StreamState, data: Seq<u8>) -> (StreamState, Result<usize, Error>) {
    let l = s.disk.layout;
    let e = l.directory[s.cursor.id as int];
    let n = write_chunk(l, s.cursor, data.len() as int);
    if data.len() == 0 {
        (s, Ok(0))
    } else if in_mini(e) && s.cursor.offset + n >= MINI_STREAM_CUTOFF {
        (s, Err(Error::MiniStreamMigration))
    } else if s.cursor.offset + n > u64::MAX {
        (s, Err(Error::TooLarge))
    } else {
        match prepared(s).1 {
            Some(x) => (prepared(s).0, Err(x)),
            None => put_outcome(prepared(s).0, data.subrange(0, n)),
        }
    }
}

/// What was put into a sector can be read back from the positions of the
/// stream that the cursor passed.
pub proof fn lemma_put_back(s: StreamState, data: Seq<u8>)
    requires
        layout_ok(s.disk.layout),
        s.cursor.id != 0,
        cursor_ok(s.disk.layout, s.cursor),
        put_outcome(s, data).1 is Ok,
        data.len() > 0,
        s.cursor.within + data.len() <= unit_len(
            s.disk.layout.version,
            s.disk.layout.directory[s.cursor.id as int],
        ),
        in_mini(s.disk.layout.directory[s.cursor.id as int]) ==> s.cursor.offset + data.len()
            < MINI_STREAM_CUTOFF,
        s.cursor.offset + data.len() <= u64::MAX,
    ensures
        ({
            let out = put_outcome(s, data).0;
            let e = out.disk.layout.directory[s.cursor.id as int];
            &&& cursor_ok(out.disk.layout, out.cursor)
            &&& readable(out.disk, e, s.cursor.offset as int, data.len() as int)
            &&& stream_bytes(out.disk, e, s.cursor.offset as int, data.len() as int) == data
        }),
{
    let l = s.disk.layout;
    let id = s.cursor.id;
    let e = l.directory[id as int];
    let out = put_outcome(s, data).0;
    let l3 = out.disk.layout;
    let e3 = l3.directory[id as int];
    let p = data_pos(l, e, s.cursor.sector, s.cursor.within as int)->Some_0;
    let off = s.cursor.offset as int;
    let n = data.len() as int;
    assert(in_mini(e3) == in_mini(e));
    assert(table_of(l3, e3) == table_of(l, e));
    assert(l3.directory[0] == l.directory[0]);
    assert(mini_pos(l3, s.cursor.sector, s.cursor.within as int) == mini_pos(
        l,
        s.cursor.sector,
        s.cursor.within as int,
    ));
    assert(data_pos(l3, e3, s.cursor.sector, s.cursor.within as int) == Some(p));
    assert(cursor_ok(l3, s.cursor));
    lemma_written_at(s.disk.bytes, p, data);
    assert forall|j: int| 0 <= j < n implies (#[trigger] stream_pos(l3, e3, off + j)) == Some(
        p + j,
    ) && p + j < out.disk.bytes.len() && stream_byte(out.disk, e3, off + j) == data[j] by {
        lemma_cursor_pos(l3, s.cursor, j);
        assert(out.disk.bytes[p + j] == bytes_at(out.disk.bytes, p, n)[j]);
    }
    assert(stream_bytes(out.disk, e3, off, n) =~= data);
}

/// The outcome of writing the directory entry `id` with a new time of
/// modification to its place in the image.
pub open spec fn finish_outcome(d: Disk, id: u32, now: u64) -> (Disk, Result<(), Error>) {
    match entry_pos(d.layout, id, 0) {
        None => (d, Err(Error::BrokenChain)),
        Some(p) => (
            Disk {
                layout: with_modified(d.layout, id, now),
                bytes: written_at(
                    d.bytes,
                    p,
                    encode_entry(with_modified(d.layout, id, now).directory[id as int]),
                ),
            },
            Ok(()),
        ),
    }
}

/// The outcome of flushing a stream at the time `now`: a stream that was
/// modified has its directory entry written, and is modified no longer.
pub open spec fn flush_outcome(s: StreamState, now: u64) -> (StreamState, Result<(), Error>) {
    if s.modified {
        let out = finish_outcome(s.disk, s.cursor.id, now);
        (StreamState { disk: out.0, modified: false, ..s }, out.1)
    } else {
        (s, Ok(()))
    }
}

/// The outcome of writing all of `data`, one write after the other.
pub open spec fn write_all_outcome(s: StreamState, data: Seq<u8>) -> (StreamState, Result<(), Error>)
    decreases data.len(),
{
    if data.len() == 0 {
        (s, Ok(()))
    } else {
        let out = write_outcome(s, data);
        match out.1 {
            Err(x) => (out.0, Err(x)),
            Ok(n) => if 0 < n <= data.len() {
                write_all_outcome(out.0, data.subrange(n as int, data.len() as int))
            } else {
                (out.0, Err(Error::UnexpectedEof))
            },
        }
    }
}

impl UpdateDirEntry {
    /// The update that the stream with this ID owes.
    pub fn new(stream_id: u32) -> (r: UpdateDirEntry)
        ensures
            r.stream_id == stream_id,
    {
        UpdateDirEntry { stream_id }
    }

    /// Writes the directory entry of the stream, with `now` as its time of
    /// modification, to its place in the image.  Nothing is changed where
    /// this fails.
    pub fn finish(&self, comp: &mut CompoundFile, now: u64) -> (r: Result<(), Error>)
        requires
            old(comp).wf(),
            0 < self.stream_id < old(comp).layout().directory.len(),
        ensures
            final(comp).wf(),
            final(comp).disk() == finish_outcome(old(comp).disk(), self.stream_id, now).0,
            r == finish_outcome(old(comp).disk(), self.stream_id, now).1,
            framed(old(comp).disk(), final(comp).disk()),
            steady(old(comp).layout(), final(comp).layout()),
    {
        let ghost d0 = comp.disk();
        proof {
            crate::frame::lemma_framed_same(d0);
            crate::frame::lemma_steady_same(d0.layout);
        }
        comp.seek_within_dir_entry(self.stream_id, 0)?;
        comp.set_entry_modified(self.stream_id, now);
        let record: Vec<u8> = comp.entry_record(self.stream_id);
        comp.write_bytes(record.as_slice());
        proof {
            let d1 = Disk { layout: d0.layout, bytes: comp.bytes() };
            crate::frame::lemma_entry_write_framed(
                d0.layout,
                d0.bytes,
                self.stream_id,
                0,
                record@,
            );
            crate::frame::lemma_tables_steady(d0.layout, comp.layout());
            crate::frame::lemma_framed_kept(d0, d1);
            crate::frame::lemma_framed_assemble(d0, d1, comp.disk());
        }
        Ok(())
    }
}

impl<'a> Stream<'a> {
    /// The compound file that the stream is part of.
    pub open(crate) spec fn disk(&self) -> Disk {
        self.comp.disk()
    }

    /// The tables and the directory of the compound file.
    pub open(crate) spec fn layout(&self) -> Layout {
        self.comp.layout()
    }

    /// The state of the cursor.
    pub open(crate) spec fn cursor(&self) -> Cursor {
        Cursor {
            id: self.stream_id,
            offset: self.offset_from_start,
            within: self.offset_within_sector,
            sector: self.current_sector,
        }
    }

    /// The directory entry of the stream.
    pub open(crate) spec fn entry(&self) -> EntryView {
        self.comp.layout().directory[self.stream_id as int]
    }

    /// Whether the stream was written to since it was last flushed.
    pub open(crate) spec fn is_modified(&self) -> bool {
        self.finisher is Some
    }

    /// The position of the backing store.
    pub open(crate) spec fn store_position(&self) -> u64 {
        self.comp.position()
    }

    /// The stream as a whole.
    pub open(crate) spec fn state(&self) -> StreamState {
        StreamState { disk: self.disk(), cursor: self.cursor(), modified: self.is_modified() }
    }

    /// The invariant of a stream.
    pub open(crate) spec fn wf(&self) -> bool {
        &&& self.comp.wf()
        &&& self.stream_id != 0
        &&& cursor_ok(self.comp.layout(), self.cursor())
        &&& self.finisher is Some ==> self.finisher->Some_0.stream_id == self.stream_id
    }

    /// The directory entry of the stream.
    pub fn dir_entry(&self) -> (r: &DirEntry)
        requires
            self.wf(),
        ensures
            r@ == self.entry(),
    {
        &self.comp.directory[self.stream_id as usize]
    }

    /// The current length of the stream, in bytes.
    pub fn len(&self) -> (r: u64)
        requires
            self.wf(),
        ensures
            r == self.entry().stream_len,
    {
        self.dir_entry().stream_len
    }

    /// Whether the stream lives in the mini stream.
    pub fn is_in_mini_stream(&self) -> (r: bool)
        requires
            self.wf(),
        ensures
            r == in_mini(self.entry()),
    {
        self.len() < MINI_STREAM_CUTOFF as u64
    }

    /// Length of the sectors that hold the stream.
    pub fn sector_len(&self) -> (r: usize)
        requires
            self.wf(),
        ensures
            r == unit_len(self.layout().version, self.entry()),
    {
        if self.is_in_mini_stream() {
            MINI_SECTOR_LEN
        } else {
            self.comp.version.sector_len()
        }
    }

    /// The position of the cursor, in bytes from the start of the stream.
    pub fn position(&self) -> (r: u64)
        ensures
            r == self.cursor().offset,
    {
        self.offset_from_start
    }

    /// Opens the stream with the given ID, positioned at its start.
    pub(crate) fn new(comp: &'a mut CompoundFile, stream_id: u32) -> (r: Result<Stream<'a>, Error>)
        requires
            old(comp).wf(),
            stream_id != 0,
            stream_id < old(comp).layout().directory.len(),
        ensures
            match r {
                Ok(s) => {
                    &&& s.wf()
                    &&& s.disk() == old(comp).disk()
                    &&& s.cursor() == (Cursor {
                        id: stream_id,
                        offset: 0,
                        within: 0,
                        sector: s.entry().start_sector,
                    })
                    &&& !s.is_modified()
                },
                Err(e) => false,
            },
    {
        let start_sector: u32 = comp.directory[stream_id as usize].start_sector;
        assert(comp.layout().directory[stream_id as int] == comp.directory@[stream_id as int]@);
        let stream = Stream {
            comp,
            stream_id,
            offset_from_start: 0,
            offset_within_sector: 0,
            current_sector: start_sector,
            finisher: None,
        };
        Ok(stream)
    }
}

impl<'a> Stream<'a> {
    /// Enters the next sector of the chain, from the end of the current
    /// one.
    pub fn advance_to_next_sector(&mut self) -> (r: Result<(), Error>)
        requires
            old(self).wf(),
            old(self).cursor().within == unit_len(old(self).layout().version, old(self).entry()),
        ensures
            final(self).wf(),
            final(self).disk() == old(self).disk(),
            final(self).is_modified() == old(self).is_modified(),
            match entered(old(self).layout(), old(self).cursor()) {
                Some(c) => r is Ok && final(self).cursor() == c,
                None => r == Err::<(), Error>(Error::BrokenChain) && final(self).cursor() == old(self).cursor(),
            },
    {
        let is_mini: bool = self.is_in_mini_stream();
        let current: usize = self.current_sector as usize;
        let next: u32 = if is_mini {
            if current >= self.comp.minifat.len() {
                return Err(Error::BrokenChain);
            }
            self.comp.minifat[current]
        } else {
            if current >= self.comp.fat.len() {
                return Err(Error::BrokenChain);
            }
            self.comp.fat[current]
        };
        proof {
            lemma_entered(self.layout(), self.cursor());
        }
        self.offset_within_sector = 0;
        self.current_sector = next;
        Ok(())
    }

    /// Moves the backing store to the byte at the cursor.  At the end of a
    /// chain there is no such byte, and the store stays where it is.
    pub fn seek_to_current_position(&mut self) -> (r: Result<(), Error>)
        requires
            old(self).wf(),
            old(self).cursor().within < unit_len(old(self).layout().version, old(self).entry()),
        ensures
            final(self).wf(),
            final(self).state() == old(self).state(),
            old(self).cursor().sector != END_OF_CHAIN ==> (match data_pos(
                old(self).layout(),
                old(self).entry(),
                old(self).cursor().sector,
                old(self).cursor().within as int,
            ) {
                Some(p) => r is Ok && final(self).store_position() == p && p + unit_len(
                    old(self).layout().version,
                    old(self).entry(),
                ) - old(self).cursor().within <= usize::MAX,
                None => r == Err::<(), Error>(Error::BrokenChain),
            }),
            old(self).cursor().sector == END_OF_CHAIN ==> r is Ok && data_pos(
                old(self).layout(),
                old(self).entry(),
                old(self).cursor().sector,
                old(self).cursor().within as int,
            ) is None,
    {
        let within: u64 = self.offset_within_sector as u64;
        if self.current_sector == END_OF_CHAIN {
        } else if self.is_in_mini_stream() {
            if self.current_sector as usize >= self.comp.minifat.len() {
                return Err(Error::BrokenChain);
            }
            self.comp.seek_within_mini_sector(self.current_sector, within)?;
        } else {
            if self.current_sector as usize >= self.comp.fat.len() {
                return Err(Error::BrokenChain);
            }
            self.comp.seek_within_sector(self.current_sector, within);
        }
        Ok(())
    }

    /// Reads up to `max` bytes into `buf` from index `at` on.
    #[verifier::rlimit(40)]
    pub fn read_part(&mut self, buf: &mut [u8], at: usize, max: usize) -> (r: Result<usize, Error>)
        requires
            old(self).wf(),
            at + max <= old(buf)@.len(),
        ensures
            final(self).wf(),
            final(self).state() == read_outcome(old(self).state(), old(buf)@, at as int, max as int).0,
            final(buf)@ == read_outcome(old(self).state(), old(buf)@, at as int, max as int).1,
            r == read_outcome(old(self).state(), old(buf)@, at as int, max as int).2,
    {
        let ghost s0 = self.state();
        let ghost l = s0.disk.layout;
        let ghost e = self.entry();
        let total_len: u64 = self.len();
        let remaining_in_file: u64 = total_len - self.offset_from_start;
        let sector_len: usize = self.sector_len();
        if self.offset_within_sector == sector_len {
            self.advance_to_next_sector()?;
        }
        let ghost c1 = self.cursor();
        assert(entered(l, s0.cursor) == Some(c1));
        assert(self.entry() == e);
        proof {
            lemma_entered(l, s0.cursor);
        }
        let remaining_in_sector: usize = sector_len - self.offset_within_sector;
        let mut max_len: usize = max;
        if remaining_in_file < max_len as u64 {
            max_len = remaining_in_file as usize;
        }
        if remaining_in_sector < max_len {
            max_len = remaining_in_sector;
        }
        assert(max_len == least(
            max as int,
            e.stream_len - c1.offset,
            unit_len(l.version, e) - c1.within,
        ));
        if max_len == 0 {
            return Ok(0);
        }
        if self.current_sector == END_OF_CHAIN {
            return Err(Error::BrokenChain);
        }
        self.seek_to_current_position()?;
        let bytes_read: usize = self.comp.inner.read(buf, at, max_len);
        self.offset_within_sector = self.offset_within_sector + bytes_read;
        self.offset_from_start = self.offset_from_start + bytes_read as u64;
        Ok(bytes_read)
    }

    /// Reads up to as many bytes as `buf` holds into it, and returns how
    /// many were read.  Nothing is read at the end of the stream.
    pub fn read(&mut self, buf: &mut [u8]) -> (r: Result<usize, Error>)
        requires
            old(self).wf(),
        ensures
            final(self).wf(),
            final(self).state() == read_outcome(
                old(self).state(),
                old(buf)@,
                0,
                old(buf)@.len() as int,
            ).0,
            final(buf)@ == read_outcome(old(self).state(), old(buf)@, 0, old(buf)@.len() as int).1,
            r == read_outcome(old(self).state(), old(buf)@, 0, old(buf)@.len() as int).2,
    {
        let n: usize = buf.len();
        self.read_part(buf, 0, n)
    }

    /// Reads as many bytes as `buf` holds into it.  This succeeds exactly
    /// where the stream has that many bytes from the cursor on and the image
    /// holds them all.
    pub fn read_exact(&mut self, buf: &mut [u8]) -> (r: Result<(), Error>)
        requires
            old(self).wf(),
        ensures
            final(self).wf(),
            final(self).disk() == old(self).disk(),
            final(self).is_modified() == old(self).is_modified(),
            final(self).cursor().id == old(self).cursor().id,
            final(buf)@.len() == old(buf)@.len(),
            r is Ok <==> readable(
                old(self).disk(),
                old(self).entry(),
                old(self).cursor().offset as int,
                old(buf)@.len() as int,
            ),
            r is Ok ==> final(buf)@ == stream_bytes(
                old(self).disk(),
                old(self).entry(),
                old(self).cursor().offset as int,
                old(buf)@.len() as int,
            ) && final(self).cursor().offset == old(self).cursor().offset + old(buf)@.len(),
            r is Err ==> r->Err_0 == Error::UnexpectedEof || r->Err_0 == Error::BrokenChain,
            final(self).state() == read_exact_outcome(old(self).state(), old(buf)@, 0).0,
            final(buf)@ == read_exact_outcome(old(self).state(), old(buf)@, 0).1,
            r == read_exact_outcome(old(self).state(), old(buf)@, 0).2,
    {
        let total: usize = buf.len();
        let ghost d = self.disk();
        let ghost e = self.entry();
        let ghost off0 = self.cursor().offset as int;
        let mut filled: usize = 0;
        while filled < total
            invariant
                self.wf(),
                self.disk() == d,
                self.entry() == e,
                self.is_modified() == old(self).is_modified(),
                self.cursor().id == old(self).cursor().id,
                d == old(self).disk(),
                e == old(self).entry(),
                off0 == old(self).cursor().offset,
                buf@.len() == total,
                total == old(buf)@.len(),
                filled <= total,
                self.cursor().offset == off0 + filled,
                read_exact_outcome(old(self).state(), old(buf)@, 0) == read_exact_outcome(
                    self.state(),
                    buf@,
                    filled as int,
                ),
                forall|j: int|
                    0 <= j < filled ==> (#[trigger] stream_pos(d.layout, e, off0 + j)) is Some
                        && stream_pos(d.layout, e, off0 + j)->Some_0 < d.bytes.len() && buf@[j]
                        == stream_byte(d, e, off0 + j),
            decreases total - filled,
        {
            let ghost s0 = self.state();
            let ghost buf0 = buf@;
            proof {
                lemma_read_step(s0, buf0, filled as int, total - filled);
            }
            let n: usize = match self.read_part(buf, filled, total - filled) {
                Ok(n) => n,
                Err(x) => {
                    proof {
                        assert(stream_pos(d.layout, e, off0 + filled) is None);
                    }
                    return Err(x);
                },
            };
            if n == 0 {
                proof {
                    assert(off0 + filled == e.stream_len || !(stream_pos(
                        d.layout,
                        e,
                        off0 + filled,
                    ) is Some && stream_pos(d.layout, e, off0 + filled)->Some_0 < d.bytes.len()));
                }
                return Err(Error::UnexpectedEof);
            }
            proof {
                assert forall|j: int| 0 <= j < filled + n implies (#[trigger] stream_pos(
                    d.layout,
                    e,
                    off0 + j,
                )) is Some && stream_pos(d.layout, e, off0 + j)->Some_0 < d.bytes.len() && buf@[j]
                    == stream_byte(d, e, off0 + j) by {
                    if j < filled {
                        assert(buf@[j] == buf0[j]);
                    } else {
                        let i = j - filled;
                        assert(stream_pos(d.layout, e, (off0 + filled) + i) is Some);
                    }
                }
            }
            filled = filled + n;
        }
        proof {
            assert(buf@ =~= stream_bytes(d, e, off0, total as int));
        }
        Ok(())
    }

    /// Tells whether the stream is intact: the chains that hold its bytes
    /// come to an end and pass through sectors that hold data and nothing
    /// else.  An intact stream stays so under every write, and what is
    /// written to it can be read back.
    pub fn is_intact(&self) -> (r: bool)
        requires
            self.wf(),
        ensures
            r <==> intact(self.layout(), self.cursor().id),
    {
        proof {
            crate::intact::lemma_collect_iff(self.layout().minifat, self.entry().start_sector);
        }
        let (directory, minifat): (Vec<u32>, Vec<u32>) = match self.comp.meta_sectors() {
            Some(sectors) => sectors,
            None => {
                return false;
            },
        };
        let start_sector: u32 = self.dir_entry().start_sector;
        if self.is_in_mini_stream() {
            match collect_chain(
                &self.comp.minifat,
                start_sector,
                self.comp.minifat.len(),
                Error::BrokenChain,
            ) {
                Ok(sectors) => {
                    proof {
                        crate::intact::lemma_collected(
                            self.layout().minifat,
                            start_sector,
                            sectors@,
                        );
                    }
                },
                Err(_) => {
                    return false;
                },
            }
            assert(self.layout().directory[0] == self.comp.directory@[0]@);
            let root_start: u32 = self.comp.directory[0].start_sector;
            self.comp.holds_data(root_start, &directory, &minifat)
        } else {
            self.comp.holds_data(start_sector, &directory, &minifat)
        }
    }

    /// Notes that the stream was written to, so that its directory entry is
    /// written when the stream is flushed.
    pub fn mark_modified(&mut self)
        requires
            old(self).wf(),
        ensures
            final(self).wf(),
            final(self).is_modified(),
            final(self).disk() == old(self).disk(),
            final(self).cursor() == old(self).cursor(),
    {
        if self.finisher.is_none() {
            self.finisher = Some(UpdateDirEntry::new(self.stream_id));
        }
    }

    /// Gives a stream of the mini stream that has no chain a first mini
    /// sector, and moves the cursor into it.
    #[verifier::rlimit(80)]
    pub(crate) fn grow_first(&mut self) -> (r: Result<(), Error>)
        requires
            old(self).wf(),
            old(self).cursor().sector == END_OF_CHAIN,
            in_mini(old(self).entry()),
            old(self).entry().start_sector == END_OF_CHAIN,
        ensures
            final(self).wf(),
            final(self).is_modified() == old(self).is_modified(),
            final(self).disk() == grown(old(self).disk(), old(self).cursor()).0,
            final(self).cursor() == grown(old(self).disk(), old(self).cursor()).1,
            r is Ok <==> grown(old(self).disk(), old(self).cursor()).2 is None,
            r is Err ==> Some(r->Err_0) == grown(old(self).disk(), old(self).cursor()).2,
            final(self).entry().stream_len == old(self).entry().stream_len,
            final(self).layout().version == old(self).layout().version,
            sound(old(self).layout()) ==> sound(final(self).layout()),
            intact(old(self).layout(), old(self).cursor().id) ==> intact(
                final(self).layout(),
                old(self).cursor().id,
            ) && earlier_kept(
                old(self).disk(),
                old(self).entry(),
                final(self).disk(),
                final(self).entry(),
                old(self).cursor().offset as int,
            ),
            final(self).cursor().id == old(self).cursor().id,
            final(self).cursor().offset == old(self).cursor().offset,
            final(self).cursor().within == old(self).cursor().within,
    {
        reveal(grown);
        let ghost l0 = self.layout();
        let ghost c0 = self.cursor();
        let ghost e0 = self.entry();
        let ghost k = units_in(l0.version, e0, c0.offset - c0.within) as nat;
        let id: u32 = self.stream_id;
        proof {
            assert(k == 0) by {
                if k > 0 {
                    assert(chain_at(l0.minifat, END_OF_CHAIN, 0) == Some(END_OF_CHAIN));
                    assert(chain_at(l0.minifat, END_OF_CHAIN, 1) is None);
                    crate::tables::lemma_chain_at_none(l0.minifat, END_OF_CHAIN, 1, k);
                }
            }
        }
        let ghost d0 = self.disk();
        let r = self.comp.allocate_mini_sector(END_OF_CHAIN);
        let ghost d1 = self.disk();
        proof {
            assert(chain_at(d1.layout.minifat, END_OF_CHAIN, 0) == Some(END_OF_CHAIN));
            if intact(l0, id) {
                lemma_step_intact(d0, d1, id, c0.offset as int);
            }
        }
        let sector: u32 = r?;
        self.comp.set_entry_start(id, sector);
        self.current_sector = sector;
        proof {
            let d2 = self.disk();
            assert(chain_at(d2.layout.minifat, sector, 0) == Some(sector));
            assert(chain_at(d2.layout.minifat, sector, 1) == Some(END_OF_CHAIN));
            if intact(l0, id) {
                crate::frame::lemma_tables_steady(d1.layout, d2.layout);
                crate::frame::lemma_steady_then(l0, d1.layout, d2.layout);
                crate::frame::lemma_framed_kept(d0, d1);
                crate::frame::lemma_framed_assemble(d0, d1, d2);
                lemma_step_intact(d0, d2, id, c0.offset as int);
            }
        }
        Ok(())
    }

    /// Extends the chain of a stream of the mini stream by a mini sector,
    /// and moves the cursor into it.
    #[verifier::rlimit(80)]
    pub(crate) fn grow_mini(&mut self) -> (r: Result<(), Error>)
        requires
            old(self).wf(),
            old(self).cursor().sector == END_OF_CHAIN,
            in_mini(old(self).entry()),
            old(self).entry().start_sector != END_OF_CHAIN,
        ensures
            final(self).wf(),
            final(self).is_modified() == old(self).is_modified(),
            final(self).disk() == grown(old(self).disk(), old(self).cursor()).0,
            final(self).cursor() == grown(old(self).disk(), old(self).cursor()).1,
            r is Ok <==> grown(old(self).disk(), old(self).cursor()).2 is None,
            r is Err ==> Some(r->Err_0) == grown(old(self).disk(), old(self).cursor()).2,
            final(self).entry().stream_len == old(self).entry().stream_len,
            final(self).layout().version == old(self).layout().version,
            sound(old(self).layout()) ==> sound(final(self).layout()),
            intact(old(self).layout(), old(self).cursor().id) ==> intact(
                final(self).layout(),
                old(self).cursor().id,
            ) && earlier_kept(
                old(self).disk(),
                old(self).entry(),
                final(self).disk(),
                final(self).entry(),
                old(self).cursor().offset as int,
            ),
            final(self).cursor().id == old(self).cursor().id,
            final(self).cursor().offset == old(self).cursor().offset,
            final(self).cursor().within == old(self).cursor().within,
    {
        reveal(grown);
        let ghost l0 = self.layout();
        let ghost c0 = self.cursor();
        let ghost e0 = self.entry();
        let ghost k = units_in(l0.version, e0, c0.offset - c0.within) as nat;
        let start_sector: u32 = self.dir_entry().start_sector;
        let ghost d0 = self.disk();
        let id: u32 = self.stream_id;
        let sector: u32 = match self.comp.extend_mini_chain(start_sector) {
            Ok(s) => s,
            Err(x) => {
                proof {
                    lemma_chain_kept(l0.minifat, self.layout().minifat, start_sector, k);
                    if intact(l0, id) {
                        lemma_free_change_reaches(l0.minifat, self.layout().minifat, start_sector);
                        lemma_step_intact(d0, self.disk(), id, c0.offset as int);
                    }
                }
                return Err(x);
            },
        };
        proof {
            assert(chain_at(l0.minifat, start_sector, k) == Some(END_OF_CHAIN));
            if intact(l0, id) {
                lemma_grew_reaches(l0.minifat, self.layout().minifat, start_sector, sector, k);
                lemma_step_intact(d0, self.disk(), id, c0.offset as int);
            }
        }
        self.current_sector = sector;
        Ok(())
    }

    /// Extends the chain of a stream that lives in sectors by a sector, and
    /// moves the cursor into it.
    #[verifier::rlimit(80)]
    pub(crate) fn grow_regular(&mut self) -> (r: Result<(), Error>)
        requires
            old(self).wf(),
            old(self).cursor().sector == END_OF_CHAIN,
            !in_mini(old(self).entry()),
        ensures
            final(self).wf(),
            final(self).is_modified() == old(self).is_modified(),
            final(self).disk() == grown(old(self).disk(), old(self).cursor()).0,
            final(self).cursor() == grown(old(self).disk(), old(self).cursor()).1,
            r is Ok <==> grown(old(self).disk(), old(self).cursor()).2 is None,
            r is Err ==> Some(r->Err_0) == grown(old(self).disk(), old(self).cursor()).2,
            final(self).entry().stream_len == old(self).entry().stream_len,
            final(self).layout().version == old(self).layout().version,
            sound(old(self).layout()) ==> sound(final(self).layout()),
            intact(old(self).layout(), old(self).cursor().id) ==> intact(
                final(self).layout(),
                old(self).cursor().id,
            ) && earlier_kept(
                old(self).disk(),
                old(self).entry(),
                final(self).disk(),
                final(self).entry(),
                old(self).cursor().offset as int,
            ),
            final(self).cursor().id == old(self).cursor().id,
            final(self).cursor().offset == old(self).cursor().offset,
            final(self).cursor().within == old(self).cursor().within,
    {
        reveal(grown);
        let ghost l0 = self.layout();
        let ghost c0 = self.cursor();
        let ghost e0 = self.entry();
        let ghost k = units_in(l0.version, e0, c0.offset - c0.within) as nat;
        let start_sector: u32 = self.dir_entry().start_sector;
        let ghost d0 = self.disk();
        let id: u32 = self.stream_id;
        let r = self.comp.extend_chain(start_sector);
        proof {
            if intact(l0, id) {
                lemma_step_intact(d0, self.disk(), id, c0.offset as int);
            }
        }
        let sector: u32 = r?;
        proof {
            assert(chain_at(l0.fat, start_sector, k) == Some(END_OF_CHAIN));
        }
        self.current_sector = sector;
        Ok(())
    }

    /// Gives the chain of the stream, which has ended at the cursor, one
    /// more sector, and moves the cursor into it.
    pub(crate) fn grow(&mut self) -> (r: Result<(), Error>)
        requires
            old(self).wf(),
            old(self).cursor().sector == END_OF_CHAIN,
        ensures
            final(self).wf(),
            final(self).is_modified() == old(self).is_modified(),
            final(self).disk() == grown(old(self).disk(), old(self).cursor()).0,
            final(self).cursor() == grown(old(self).disk(), old(self).cursor()).1,
            r is Ok <==> grown(old(self).disk(), old(self).cursor()).2 is None,
            r is Err ==> Some(r->Err_0) == grown(old(self).disk(), old(self).cursor()).2,
            final(self).entry().stream_len == old(self).entry().stream_len,
            final(self).layout().version == old(self).layout().version,
            sound(old(self).layout()) ==> sound(final(self).layout()),
            intact(old(self).layout(), old(self).cursor().id) ==> intact(
                final(self).layout(),
                old(self).cursor().id,
            ) && earlier_kept(
                old(self).disk(),
                old(self).entry(),
                final(self).disk(),
                final(self).entry(),
                old(self).cursor().offset as int,
            ),
            final(self).cursor().id == old(self).cursor().id,
            final(self).cursor().offset == old(self).cursor().offset,
            final(self).cursor().within == old(self).cursor().within,
    {
        if self.is_in_mini_stream() {
            if self.dir_entry().start_sector == END_OF_CHAIN {
                self.grow_first()
            } else {
                self.grow_mini()
            }
        } else {
            self.grow_regular()
        }
    }

    /// Gets the stream ready for a write.
    pub(crate) fn prepare(&mut self) -> (r: Result<(), Error>)
        requires
            old(self).wf(),
        ensures
            final(self).wf(),
            final(self).state() == prepared(old(self).state()).0,
            r is Ok <==> prepared(old(self).state()).1 is None,
            r is Err ==> Some(r->Err_0) == prepared(old(self).state()).1,
            final(self).entry().stream_len == old(self).entry().stream_len,
            final(self).layout().version == old(self).layout().version,
            sound(old(self).layout()) ==> sound(final(self).layout()),
            intact(old(self).layout(), old(self).cursor().id) ==> intact(
                final(self).layout(),
                old(self).cursor().id,
            ) && earlier_kept(
                old(self).disk(),
                old(self).entry(),
                final(self).disk(),
                final(self).entry(),
                old(self).cursor().offset as int,
            ),
            final(self).cursor().id == old(self).cursor().id,
            final(self).cursor().offset == old(self).cursor().offset,
            r is Ok ==> final(self).cursor().within == (if old(self).cursor().within == unit_len(
                old(self).layout().version,
                old(self).entry(),
            ) {
                0
            } else {
                old(self).cursor().within as int
            }),
    {
        let ghost s0 = self.state();
        proof {
            lemma_earlier_same(s0.disk, self.entry(), s0.cursor.offset as int);
        }
        let sector_len: usize = self.sector_len();
        self.mark_modified();
        if self.offset_within_sector == sector_len {
            self.advance_to_next_sector()?;
        }
        if self.current_sector == END_OF_CHAIN {
            self.grow()?;
        }
        Ok(())
    }

    /// Puts bytes into the current sector at the cursor.
    pub(crate) fn put(&mut self, data: &[u8]) -> (r: Result<usize, Error>)
        requires
            old(self).wf(),
            data@.len() > 0,
            old(self).cursor().within + data@.len() <= unit_len(
                old(self).layout().version,
                old(self).entry(),
            ),
            in_mini(old(self).entry()) ==> old(self).cursor().offset + data@.len()
                < MINI_STREAM_CUTOFF,
            old(self).cursor().offset + data@.len() <= u64::MAX,
        ensures
            final(self).wf(),
            final(self).state() == put_outcome(old(self).state(), data@).0,
            r == put_outcome(old(self).state(), data@).1,
            final(self).cursor().id == old(self).cursor().id,
            sound(old(self).layout()) ==> sound(final(self).layout()),
            intact(old(self).layout(), old(self).cursor().id) ==> intact(
                final(self).layout(),
                old(self).cursor().id,
            ) && earlier_kept(
                old(self).disk(),
                old(self).entry(),
                final(self).disk(),
                final(self).entry(),
                old(self).cursor().offset as int,
            ),

            r is Ok ==> {
                &&& readable(
                    final(self).disk(),
                    final(self).entry(),
                    old(self).cursor().offset as int,
                    data@.len() as int,
                )
                &&& stream_bytes(
                    final(self).disk(),
                    final(self).entry(),
                    old(self).cursor().offset as int,
                    data@.len() as int,
                ) == data@
            },
    {
        let ghost s0 = self.state();
        proof {
            lemma_earlier_same(s0.disk, self.entry(), s0.cursor.offset as int);
        }
        let id: u32 = self.stream_id;
        let total_len: u64 = self.len();
        let n: usize = data.len();
        if self.current_sector == END_OF_CHAIN {
            return Err(Error::BrokenChain);
        }
        self.seek_to_current_position()?;
        self.comp.write_bytes(data);
        self.offset_within_sector = self.offset_within_sector + n;
        self.offset_from_start = self.offset_from_start + n as u64;
        if self.offset_from_start > total_len {
            self.comp.set_entry_len(id, self.offset_from_start);
        }
        proof {
            lemma_put_back(s0, data@);
            if intact(s0.disk.layout, id) {
                lemma_put_keeps(s0, data@);
            }
        }
        Ok(n)
    }

    /// Writes bytes from the front of `buf` at the cursor and returns how
    /// many were written: no more than the current sector has room for.
    /// What was written can be read back from the same positions of the
    /// stream.
    #[verifier::rlimit(80)]
    pub fn write(&mut self, buf: &[u8]) -> (r: Result<usize, Error>)
        requires
            old(self).wf(),
        ensures
            final(self).wf(),
            final(self).state() == write_outcome(old(self).state(), buf@).0,
            r == write_outcome(old(self).state(), buf@).1,
            final(self).cursor().id == old(self).cursor().id,
            sound(old(self).layout()) ==> sound(final(self).layout()),
            intact(old(self).layout(), old(self).cursor().id) ==> intact(
                final(self).layout(),
                old(self).cursor().id,
            ) && earlier_kept(
                old(self).disk(),
                old(self).entry(),
                final(self).disk(),
                final(self).entry(),
                old(self).cursor().offset as int,
            ),

            r is Ok ==> {
                &&& r->Ok_0 == write_chunk(
                    old(self).layout(),
                    old(self).cursor(),
                    buf@.len() as int,
                )
                &&& final(self).cursor().offset == old(self).cursor().offset + r->Ok_0
                &&& readable(
                    final(self).disk(),
                    final(self).entry(),
                    old(self).cursor().offset as int,
                    r->Ok_0 as int,
                )
                &&& stream_bytes(
                    final(self).disk(),
                    final(self).entry(),
                    old(self).cursor().offset as int,
                    r->Ok_0 as int,
                ) == buf@.subrange(0, r->Ok_0 as int)
            },
    {
        proof {
            lemma_earlier_same(self.disk(), self.entry(), self.cursor().offset as int);
        }
        if buf.len() == 0 {
            proof {
                assert(stream_bytes(self.disk(), self.entry(), self.cursor().offset as int, 0)
                    =~= buf@.subrange(0, 0));
            }
            return Ok(0);
        }
        let sector_len: usize = self.sector_len();
        let room: usize = if self.offset_within_sector == sector_len {
            sector_len
        } else {
            sector_len - self.offset_within_sector
        };
        let max_len: usize = if buf.len() <= room {
            buf.len()
        } else {
            room
        };
        if self.is_in_mini_stream() && self.offset_from_start + max_len as u64
            >= MINI_STREAM_CUTOFF as u64 {
            return Err(Error::MiniStreamMigration);
        }
        if self.offset_from_start > u64::MAX - max_len as u64 {
            return Err(Error::TooLarge);
        }
        let ghost d0 = self.disk();
        let ghost e0 = self.entry();
        let ghost id = self.cursor().id;
        let ghost off = self.cursor().offset as int;
        self.prepare()?;
        let ghost d1 = self.disk();
        let ghost e1 = self.entry();
        assert(self.cursor().id == id);
        assert(intact(d0.layout, id) ==> intact(d1.layout, id) && earlier_kept(
            d0,
            e0,
            d1,
            e1,
            off,
        ));
        let r = self.put(vstd::slice::slice_subrange(buf, 0, max_len));
        proof {
            if intact(d0.layout, id) {
                lemma_earlier_then(d0, e0, d1, e1, self.disk(), self.entry(), off);
            }
        }
        r
    }

    /// Writes all of `buf` at the cursor, one write after the other.  Where
    /// the stream is intact, all that was written can be read back from the
    /// positions of the stream that the cursor passed.
    #[verifier::rlimit(80)]
    pub fn write_all(&mut self, buf: &[u8]) -> (r: Result<(), Error>)
        requires
            old(self).wf(),
        ensures
            final(self).wf(),
            final(self).state() == write_all_outcome(old(self).state(), buf@).0,
            r == write_all_outcome(old(self).state(), buf@).1,
            sound(old(self).layout()) ==> sound(final(self).layout()),
            final(self).cursor().id == old(self).cursor().id,
            r is Ok ==> final(self).cursor().offset == old(self).cursor().offset + buf@.len(),
            intact(old(self).layout(), old(self).cursor().id) ==> intact(
                final(self).layout(),
                old(self).cursor().id,
            ),
            intact(old(self).layout(), old(self).cursor().id) && r is Ok ==> readable(
                final(self).disk(),
                final(self).entry(),
                old(self).cursor().offset as int,
                buf@.len() as int,
            ) && stream_bytes(
                final(self).disk(),
                final(self).entry(),
                old(self).cursor().offset as int,
                buf@.len() as int,
            ) == buf@,
    {
        let total: usize = buf.len();
        let mut done: usize = 0;
        let ghost s0 = self.state();
        let ghost id = self.cursor().id;
        let ghost off0 = self.cursor().offset as int;
        proof {
            assert(buf@.subrange(0, total as int) =~= buf@);
            assert(stream_bytes(self.disk(), self.entry(), off0, 0) =~= buf@.subrange(0, 0));
        }
        while done < total
            invariant
                self.wf(),
                done <= total,
                total == buf@.len(),
                s0 == old(self).state(),
                id == s0.cursor.id,
                off0 == s0.cursor.offset,
                self.cursor().id == id,
                sound(s0.disk.layout) ==> sound(self.layout()),
                self.cursor().offset == s0.cursor.offset + done,
                write_all_outcome(s0, buf@) == write_all_outcome(
                    self.state(),
                    buf@.subrange(done as int, total as int),
                ),
                intact(s0.disk.layout, id) ==> intact(self.layout(), id) && readable(
                    self.disk(),
                    self.entry(),
                    off0,
                    done as int,
                ) && stream_bytes(self.disk(), self.entry(), off0, done as int) == buf@.subrange(
                    0,
                    done as int,
                ),
            decreases total - done,
        {
            let rest: &[u8] = vstd::slice::slice_subrange(buf, done, total);
            let ghost d1 = self.disk();
            let ghost e1 = self.entry();
            let n: usize = self.write(rest)?;
            proof {
                assert(0 < n <= rest@.len());
                assert(rest@.subrange(n as int, rest@.len() as int) =~= buf@.subrange(
                    done + n,
                    total as int,
                ));
                if intact(s0.disk.layout, id) {
                    lemma_written_so_far(
                        d1,
                        e1,
                        self.disk(),
                        self.entry(),
                        off0,
                        done as int,
                        n as int,
                        buf@,
                    );
                }
            }
            done = done + n;
        }
        proof {
            assert(buf@.subrange(0, total as int) =~= buf@);
        }
        Ok(())
    }

    /// Writes the directory entry of a stream that was modified to the
    /// image, with `now` as its time of modification.  A stream that was
    /// not modified is left alone.
    pub fn flush_at(&mut self, now: u64) -> (r: Result<(), Error>)
        requires
            old(self).wf(),
        ensures
            final(self).wf(),
            final(self).state() == flush_outcome(old(self).state(), now).0,
            r == flush_outcome(old(self).state(), now).1,
            sound(old(self).layout()) ==> sound(final(self).layout()),
            intact(old(self).layout(), old(self).cursor().id) ==> intact(
                final(self).layout(),
                old(self).cursor().id,
            ) && earlier_kept(
                old(self).disk(),
                old(self).entry(),
                final(self).disk(),
                final(self).entry(),
                old(self).entry().stream_len as int,
            ),
    {
        let ghost d0 = self.disk();
        let ghost e0 = self.entry();
        let ghost id = self.cursor().id;
        proof {
            lemma_earlier_same(d0, e0, e0.stream_len as int);
        }
        match self.finisher.take() {
            Some(finisher) => {
                let ghost l0 = self.layout();
                let r = finisher.finish(self.comp, now);
                proof {
                    lemma_cursor_modified(l0, self.cursor(), now);
                    if intact(l0, id) {
                        if in_mini(e0) {
                            crate::intact::lemma_minifat_same(d0.layout, self.layout(), id);
                        }
                        lemma_step_intact(d0, self.disk(), id, e0.stream_len as int);
                    }
                }
                r?;
            },
            None => {},
        }
        self.comp.flush()
    }

    /// Writes the directory entry of a stream that was modified to the
    /// image, with the present moment as its time of modification.
    pub fn flush(&mut self) -> (r: Result<(), Error>)
        requires
            old(self).wf(),
        ensures
            final(self).wf(),
            exists|now: u64|
                final(self).state() == flush_outcome(old(self).state(), now).0 && r
                    == flush_outcome(old(self).state(), now).1,
    {
        let now: u64 = crate::time::current_timestamp();
        self.flush_at(now)
    }

    /// Moves the cursor, and returns the position it had before.  A seek
    /// cannot leave the stream: it goes no further than its end.
    pub fn seek(&mut self, pos: SeekFrom) -> (r: Result<u64, Error>)
        requires
            old(self).wf(),
        ensures
            final(self).wf(),
            final(self).state() == seek_outcome(old(self).state(), pos).0,
            r == seek_outcome(old(self).state(), pos).1,
    {
        let total_len: u64 = self.len();
        let target: i128 = match pos {
            SeekFrom::Start(delta) => delta as i128,
            SeekFrom::End(delta) => delta as i128 + total_len as i128,
            SeekFrom::Current(delta) => delta as i128 + self.offset_from_start as i128,
        };
        if target < 0 || target > total_len as i128 {
            return Err(Error::SeekOutOfRange);
        }
        let old_pos: u64 = self.offset_from_start;
        let new_pos: u64 = target as u64;
        assert(seek_target(total_len, old_pos, pos) == Some(new_pos));
        if new_pos != self.offset_from_start {
            self.move_to(new_pos)?;
        }
        Ok(old_pos)
    }

    /// Moves the cursor to a position inside the stream, along the chain
    /// from its start.
    pub(crate) fn move_to(&mut self, new_pos: u64) -> (r: Result<(), Error>)
        requires
            old(self).wf(),
            new_pos <= old(self).entry().stream_len,
        ensures
            final(self).wf(),
            final(self).disk() == old(self).disk(),
            final(self).is_modified() == old(self).is_modified(),
            match chain_at(
                table_of(old(self).layout(), old(self).entry()),
                old(self).entry().start_sector,
                units_in(old(self).layout().version, old(self).entry(), new_pos as int) as nat,
            ) {
                None => r == Err::<(), Error>(Error::BrokenChain) && final(self).cursor() == old(self).cursor(),
                Some(sector) => r is Ok && final(self).cursor() == (Cursor {
                    offset: new_pos,
                    within: beyond_units(
                        old(self).layout().version,
                        old(self).entry(),
                        new_pos as int,
                    ) as usize,
                    sector,
                    ..old(self).cursor()
                }),
            },
    {
        let ghost e = self.entry();
        let ghost v = self.layout().version;
        let is_mini: bool = self.is_in_mini_stream();
        let (steps, rest): (u64, u64) = split_units(self.comp.version, is_mini, new_pos);
        assert(steps == units_in(v, e, new_pos as int) && rest == beyond_units(
            v,
            e,
            new_pos as int,
        ));
        let start_sector: u32 = self.dir_entry().start_sector;
        let sector: u32 = if is_mini {
            walk_chain(&self.comp.minifat, start_sector, steps)?
        } else {
            walk_chain(&self.comp.fat, start_sector, steps)?
        };
        self.current_sector = sector;
        self.offset_within_sector = rest as usize;
        self.offset_from_start = new_pos;
        proof {
            assert(units_in(v, e, new_pos - rest) == steps);
            assert(beyond_units(v, e, new_pos - rest) == 0);
        }
        Ok(())
    }
}

} // verus!
