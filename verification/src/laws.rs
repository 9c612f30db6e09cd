//! What holds of the library as a whole.

use crate::compound::layout_ok;
use crate::consts::{
    root_name, END_OF_CHAIN, FAT_SECTOR, FREE_SECTOR, MAX_REGULAR_SECTOR, MINI_SECTOR_LEN,
    NO_STREAM,
};
use crate::dir_entry::EntryView;
use crate::empty::{empty_image, empty_layout, lemma_empty_image_len};
use crate::error::Error;
use crate::image::{decode_image, Layout};
use crate::names::{name_order, same_name, NameOrder};
use crate::round_trip::lemma_empty_image_decodes;
use crate::sectors::{chains_disjoint, sound};
use crate::stream::{
    lemma_read_exact, lemma_seek, read_exact_outcome, readable, seek_outcome, stream_bytes,
    stream_valid, SeekFrom, StreamState,
};
use crate::tables::table_ok;
use crate::tree::{
    child_named, forest, lemma_found_by_name, live, resolve, resolve_from, siblings_follow,
};
use crate::version::Version;
use vstd::prelude::*;

verus! {

/// The image of an empty compound file of either version is three sectors
/// long and reads back as a compound file of the same version, in whose
/// directory the root entry, and no other, is named "Root Entry".
pub proof fn law_empty_file_round_trip(v: Version)
    ensures
        empty_image(v).len() == 3 * v.sector_len_spec(),
        decode_image(empty_image(v)) == Ok::<Layout, Error>(empty_layout(v)),
        empty_layout(v).version == v,
        forall|i: int|
            0 <= i < empty_layout(v).directory.len() ==> ((#[trigger] empty_layout(
                v,
            ).directory[i]).name == root_name() <==> i == 0),
{
    lemma_empty_image_len(v);
    lemma_empty_image_decodes(v);
    let dir = empty_layout(v).directory;
    assert forall|i: int| 0 <= i < dir.len() implies ((#[trigger] dir[i]).name == root_name() <==> i
        == 0) by {
        if i != 0 {
            assert(dir[i].name.len() == 0);
            assert(root_name().len() == 10);
        }
    }
}

/// In a sound FAT, two sectors with the same entry are both free, both FAT
/// sectors, or both ends of chains: no sector follows two others.  Every
/// operation keeps a sound compound file sound.
pub proof fn law_chains_are_disjoint(l: Layout, a: int, b: int)
    requires
        sound(l),
        0 <= a < l.fat.len(),
        0 <= b < l.fat.len(),
        a != b,
        l.fat[a] == l.fat[b],
    ensures
        l.fat[a] == FREE_SECTOR || l.fat[a] == FAT_SECTOR || l.fat[a] == END_OF_CHAIN,
{
}

/// In a table that was accepted when the compound file was opened, and that
/// holds no mark but free, FAT sector and end of chain, two sectors with the
/// same entry are both free, both FAT sectors, or both ends of chains.
pub proof fn law_validated_chains_are_disjoint(t: Seq<u32>)
    requires
        table_ok(t),
        forall|i: int|
            0 <= i < t.len() && #[trigger] t[i] > MAX_REGULAR_SECTOR ==> t[i] == FREE_SECTOR || t[i]
                == FAT_SECTOR || t[i] == END_OF_CHAIN,
    ensures
        chains_disjoint(t),
{
    assert forall|a: int, b: int|
        0 <= a < t.len() && 0 <= b < t.len() && a != b && #[trigger] t[a] == #[trigger] t[b]
        implies t[a] == FREE_SECTOR || t[a] == FAT_SECTOR || t[a] == END_OF_CHAIN by {
        if t[a] <= MAX_REGULAR_SECTOR {
            if a < b {
                assert(t[a] != t[b]);
            } else {
                assert(t[b] != t[a]);
            }
        }
    }
}

/// The mini stream, which is the stream of the root entry, is 64 bytes long
/// for each entry of the MiniFAT.
pub proof fn law_mini_stream_length(l: Layout)
    requires
        layout_ok(l),
    ensures
        l.directory[0].stream_len == MINI_SECTOR_LEN * l.minifat.len(),
        l.directory[0].stream_len % 64 == 0,
{
}

/// An entry that can be reached from the root comes before each of its
/// siblings in the order of names, the left one as well as the right one.
pub proof fn law_siblings_follow(dir: Seq<EntryView>, i: u32)
    requires
        live(dir, i),
    ensures
        dir[i as int].right_sibling != NO_STREAM ==> dir[i as int].right_sibling < dir.len()
            && name_order(dir[i as int].name, dir[dir[i as int].right_sibling as int].name)
            == NameOrder::Less,
        dir[i as int].left_sibling != NO_STREAM ==> dir[i as int].left_sibling < dir.len()
            && name_order(dir[i as int].name, dir[dir[i as int].left_sibling as int].name)
            == NameOrder::Less,
{
    let rank = choose|rank: Seq<nat>| forest(dir, rank) && i < dir.len() && #[trigger] rank[i as int]
        > 0;
    assert(siblings_follow(dir, i as int));
    assert(crate::tree::link_ok(dir, rank, i as int, dir[i as int].right_sibling));
    assert(crate::tree::link_ok(dir, rank, i as int, dir[i as int].left_sibling));
}

/// The entry that a path leads to is named as the last name of the path,
/// but for the case of ASCII letters; the slash alone leads to the root.
pub proof fn law_path_leads_to_its_name(dir: Seq<EntryView>, names: Seq<Seq<u16>>)
    requires
        resolve(dir, names) is Some,
    ensures
        names.len() == 0 ==> resolve(dir, names) == Some(0u32),
        names.len() > 0 ==> resolve(dir, names)->Some_0 < dir.len() && same_name(
            names.last(),
            dir[resolve(dir, names)->Some_0 as int].name,
        ),
{
    lemma_resolved(dir, 0, names, 0);
}

proof fn lemma_resolved(dir: Seq<EntryView>, id: u32, names: Seq<Seq<u16>>, i: int)
    requires
        0 <= i <= names.len(),
        resolve_from(dir, id, names, i) is Some,
    ensures
        i == names.len() ==> resolve_from(dir, id, names, i) == Some(id),
        i < names.len() ==> resolve_from(dir, id, names, i)->Some_0 < dir.len() && same_name(
            names.last(),
            dir[resolve_from(dir, id, names, i)->Some_0 as int].name,
        ),
    decreases names.len() - i,
{
    if i < names.len() {
        let next = child_named(dir, id, names[i])->Some_0;
        lemma_found_by_name(dir, dir[id as int].child, names[i], dir.len());
        lemma_resolved(dir, next, names, i + 1);
    }
}

/// What was written comes back.  `Stream::write` leaves a stream in which
/// the bytes it wrote are readable from the position where it began, and so
/// does `Stream::write_all` where the stream is intact; in any such stream,
/// a seek to that position succeeds, and so does filling a buffer of as many
/// bytes, which then holds what was written.
pub proof fn law_written_bytes_come_back(s: StreamState, from: u64, data: Seq<u8>, buf: Seq<u8>)
    requires
        stream_valid(s),
        data.len() > 0,
        buf.len() == data.len(),
        readable(
            s.disk,
            s.disk.layout.directory[s.cursor.id as int],
            from as int,
            data.len() as int,
        ),
        stream_bytes(
            s.disk,
            s.disk.layout.directory[s.cursor.id as int],
            from as int,
            data.len() as int,
        ) == data,
    ensures
        seek_outcome(s, SeekFrom::Start(from)).1 is Ok,
        read_exact_outcome(seek_outcome(s, SeekFrom::Start(from)).0, buf, 0).2 is Ok,
        read_exact_outcome(seek_outcome(s, SeekFrom::Start(from)).0, buf, 0).1 == data,
{
    let e = s.disk.layout.directory[s.cursor.id as int];
    assert(crate::stream::stream_pos(s.disk.layout, e, from + 0) is Some);
    lemma_seek(s, SeekFrom::Start(from));
    let back = seek_outcome(s, SeekFrom::Start(from));
    lemma_read_exact(back.0, buf, 0);
    let read = read_exact_outcome(back.0, buf, 0);
    assert(read.1 =~= stream_bytes(s.disk, e, from as int, data.len() as int));
}

/// Bytes read after a seek to position `k` are the bytes of the stream from
/// position `k` on.
pub proof fn law_seek_then_read(s: StreamState, k: u64, buf: Seq<u8>)
    requires
        stream_valid(s),
        seek_outcome(s, SeekFrom::Start(k)).1 is Ok,
        read_exact_outcome(seek_outcome(s, SeekFrom::Start(k)).0, buf, 0).2 is Ok,
    ensures
        read_exact_outcome(seek_outcome(s, SeekFrom::Start(k)).0, buf, 0).1 == stream_bytes(
            s.disk,
            s.disk.layout.directory[s.cursor.id as int],
            k as int,
            buf.len() as int,
        ),
        read_exact_outcome(seek_outcome(s, SeekFrom::Start(k)).0, buf, 0).0.cursor.offset == k
            + buf.len(),
{
    lemma_seek(s, SeekFrom::Start(k));
    let back = seek_outcome(s, SeekFrom::Start(k));
    lemma_read_exact(back.0, buf, 0);
    let read = read_exact_outcome(back.0, buf, 0);
    let e = s.disk.layout.directory[s.cursor.id as int];
    assert(read.1 =~= stream_bytes(s.disk, e, k as int, buf.len() as int));
}

} // verus!
