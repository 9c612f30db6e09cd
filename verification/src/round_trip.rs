//! An empty compound file reads back as what was written.

use crate::consts::{root_name, END_OF_CHAIN, FAT_SECTOR, FREE_SECTOR};
use crate::dir_entry::{
    decode_entry, encode_entry, lemma_entry_round_trip, lemma_record_layout, EntryView,
};
use crate::empty::{
    empty_dir_sector, empty_directory, empty_fat_sector, empty_header_fields, empty_image,
    empty_layout, free_words, header_counts, header_ident, lemma_empty_image_len,
    lemma_header_counts, lemma_header_ident, lemma_unallocated_records_len, unallocated_records,
};
use crate::endian::{lemma_le_round_trip, u16_at, u32_at, u32_to_le};
use crate::error::Error;
use crate::image::{
    addressable, decode_image, difat_chain, difat_of, directory_from_sectors, directory_of,
    entries_from_block, fat_of, header_difat, header_fault, header_of, header_version, minifat_of,
    sector_bytes, table_from_sectors, words, Header, Layout,
};
use crate::tables::{
    chain, difat_fault, difat_fault_at, fat_fault, table_fault, table_fault_at, trimmed,
};
use crate::tree::{directory_fault, push_links, walk_tree};
use crate::version::Version;
use vstd::prelude::*;

verus! {

/// The header of an empty compound file.
pub open spec fn empty_header(v: Version) -> Header {
    Header {
        version: v,
        num_fat_sectors: 1,
        first_dir_sector: 1,
        first_minifat_sector: END_OF_CHAIN,
        num_minifat_sectors: 0,
        first_difat_sector: END_OF_CHAIN,
        num_difat_sectors: 0,
    }
}

#[verifier::rlimit(60)]
proof fn lemma_prefix_fields(v: Version)
    ensures
        empty_image(v).len() == 3 * v.sector_len_spec(),
        empty_image(v).subrange(0, 76) == empty_header_fields(v),
        empty_image(v).subrange(0, 40) == header_ident(v),
        empty_image(v).subrange(40, 76) == header_counts(),
        u32_at(empty_image(v), 76) == 0,
        u32_at(empty_image(v), 80) == FREE_SECTOR,
{
    reveal(empty_image);
    lemma_empty_image_len(v);
    lemma_header_ident(v);
    lemma_header_counts();
    lemma_le_round_trip(0, 0, 0);
    let b = empty_image(v);
    let f = empty_header_fields(v);
    let h1 = f + u32_to_le(0);
    let h2 = h1 + free_words(108);
    assert(h1.len() == 80);
    assert(h2.len() == 512);
    assert(b.subrange(0, 76) =~= f);
    assert(b.subrange(0, 40) =~= header_ident(v));
    assert(b.subrange(40, 76) =~= header_counts());
    assert(b.subrange(76, 80) =~= u32_to_le(0));
    assert(b.subrange(80, 84) =~= seq![0xffu8, 0xffu8, 0xffu8, 0xffu8]) by {
        assert(b[80] == h2[80]);
        assert(b[81] == h2[81]);
        assert(b[82] == h2[82]);
        assert(b[83] == h2[83]);
    }
}

/// The header of the empty image has no fault and holds the fields of an
/// empty compound file.
pub proof fn lemma_empty_header(v: Version)
    ensures
        header_fault(empty_image(v)) is None,
        header_of(empty_image(v)) == empty_header(v),
{
    reveal(header_fault);
    lemma_prefix_fields(v);
    lemma_header_ident(v);
    lemma_header_counts();
    let b = empty_image(v);
    let id = header_ident(v);
    let c = header_counts();
    assert(b.subrange(0, 8) =~= id.subrange(0, 8));
    assert(b.subrange(26, 28) =~= id.subrange(26, 28));
    assert(b.subrange(28, 30) =~= id.subrange(28, 30));
    assert(b.subrange(30, 32) =~= id.subrange(30, 32));
    assert(b.subrange(32, 34) =~= id.subrange(32, 34));
    assert(b.subrange(44, 48) =~= c.subrange(4, 8));
    assert(b.subrange(48, 52) =~= c.subrange(8, 12));
    assert(b.subrange(56, 60) =~= c.subrange(16, 20));
    assert(b.subrange(60, 64) =~= c.subrange(20, 24));
    assert(b.subrange(64, 68) =~= c.subrange(24, 28));
    assert(b.subrange(68, 72) =~= c.subrange(28, 32));
    assert(b.subrange(72, 76) =~= c.subrange(32, 36));
    assert(u16_at(b, 26) == v.number_spec());
    assert(Version::from_number_spec(v.number_spec()) == Some(v));
    assert(header_version(b) == v);
}

/// The DIFAT of the empty image lists sector 0 and nothing else.
pub proof fn lemma_empty_difat(v: Version)
    ensures
        difat_of(empty_image(v), empty_header(v)) == Ok::<Seq<u32>, Error>(seq![0u32]),
{
    reveal(difat_of);
    lemma_prefix_fields(v);
    let b = empty_image(v);
    assert(header_difat(b, 1) == Ok::<Seq<u32>, Error>(Seq::empty()));
    assert(seq![0u32] + Seq::<u32>::empty() =~= seq![0u32]);
    assert(header_difat(b, 0) == Ok::<Seq<u32>, Error>(seq![0u32]));
    assert(difat_chain(b, v, END_OF_CHAIN, 0) == Ok::<Seq<u32>, Error>(Seq::empty()));
    assert(seq![0u32].drop_last() =~= Seq::<u32>::empty());
    assert(trimmed(seq![0u32]) == seq![0u32]);
}

/// A table that ends in free entries is trimmed to what stands before them.
pub proof fn lemma_trimmed_tail(s: Seq<u32>, t: Seq<u32>)
    requires
        s.len() > 0 ==> s.last() != FREE_SECTOR,
        forall|i: int| 0 <= i < t.len() ==> t[i] == FREE_SECTOR,
    ensures
        trimmed(s + t) == s,
    decreases t.len(),
{
    if t.len() == 0 {
        assert(s + t =~= s);
        if s.len() == 0 {
        }
    } else {
        assert((s + t).last() == FREE_SECTOR);
        assert((s + t).drop_last() =~= s + t.drop_last());
        lemma_trimmed_tail(s, t.drop_last());
    }
}

proof fn lemma_sectors(v: Version)
    ensures
        sector_bytes(empty_image(v), v, 0) == Some(empty_fat_sector(v)),
        sector_bytes(empty_image(v), v, 1) == Some(empty_dir_sector(v)),
{
    reveal(empty_image);
    lemma_empty_image_len(v);
    let b = empty_image(v);
    let n = v.sector_len_spec() as int;
    assert(b.subrange(n, 2 * n) =~= empty_fat_sector(v));
    assert(b.subrange(2 * n, 3 * n) =~= empty_dir_sector(v));
}

proof fn lemma_fat_words(v: Version)
    ensures
        words(empty_fat_sector(v)).len() == v.entries_per_sector(),
        words(empty_fat_sector(v))[0] == FAT_SECTOR,
        words(empty_fat_sector(v))[1] == END_OF_CHAIN,
        forall|k: int|
            2 <= k < v.entries_per_sector() ==> (#[trigger] words(empty_fat_sector(v))[k])
                == FREE_SECTOR,
{
    lemma_empty_image_len(v);
    lemma_le_round_trip(0, FAT_SECTOR, 0);
    lemma_le_round_trip(0, END_OF_CHAIN, 0);
    let s = empty_fat_sector(v);
    let w = words(s);
    assert(s.subrange(0, 4) =~= u32_to_le(FAT_SECTOR));
    assert(s.subrange(4, 8) =~= u32_to_le(END_OF_CHAIN));
    assert forall|k: int| 2 <= k < v.entries_per_sector() implies (#[trigger] w[k])
        == FREE_SECTOR by {
        let r = s.subrange(4 * k, 4 * k + 4);
        assert(r[0] == 0xffu8);
        assert(r[1] == 0xffu8);
        assert(r[2] == 0xffu8);
        assert(r[3] == 0xffu8);
    }
}

proof fn lemma_fat_table(v: Version)
    ensures
        table_from_sectors(empty_image(v), v, seq![0u32], 0) == Ok::<Seq<u32>, Error>(
            words(empty_fat_sector(v)),
        ),
{
    lemma_sectors(v);
    let b = empty_image(v);
    let difat = seq![0u32];
    let w = words(empty_fat_sector(v));
    assert(table_from_sectors(b, v, difat, 1) == Ok::<Seq<u32>, Error>(Seq::empty()));
    assert(w + Seq::<u32>::empty() =~= w);
}

proof fn lemma_fat_trimmed(v: Version)
    ensures
        trimmed(words(empty_fat_sector(v))) == seq![FAT_SECTOR, END_OF_CHAIN],
{
    lemma_fat_words(v);
    let fat = seq![FAT_SECTOR, END_OF_CHAIN];
    let w = words(empty_fat_sector(v));
    let tail = w.subrange(2, w.len() as int);
    assert(w =~= fat + tail);
    lemma_trimmed_tail(fat, tail);
}

proof fn lemma_two_entry_fat_ok()
    ensures
        fat_fault(seq![0u32], seq![FAT_SECTOR, END_OF_CHAIN]) is None,
{
    let difat = seq![0u32];
    let fat = seq![FAT_SECTOR, END_OF_CHAIN];
    assert(difat_fault_at(difat, fat, 0) is None);
    assert(difat_fault(difat, fat, 1) is None);
    assert(difat_fault(difat, fat, 0) is None);
    assert(table_fault_at(fat, 0, Error::FatPointer, Error::FatPointedTwice) is None);
    assert(table_fault_at(fat, 1, Error::FatPointer, Error::FatPointedTwice) is None);
    assert(table_fault(fat, 2, Error::FatPointer, Error::FatPointedTwice) is None);
    assert(table_fault(fat, 1, Error::FatPointer, Error::FatPointedTwice) is None);
    assert(table_fault(fat, 0, Error::FatPointer, Error::FatPointedTwice) is None);
}

/// The FAT of the empty image: sector 0 holds the FAT, and sector 1 is the
/// whole chain of the directory.
pub proof fn lemma_empty_fat(v: Version)
    ensures
        fat_of(empty_image(v), empty_header(v), seq![0u32]) == Ok::<Seq<u32>, Error>(
            seq![FAT_SECTOR, END_OF_CHAIN],
        ),
{
    reveal(fat_of);
    lemma_fat_table(v);
    lemma_fat_trimmed(v);
    lemma_two_entry_fat_ok();
    let fat = seq![FAT_SECTOR, END_OF_CHAIN];
    assert(fat.len() == 2);
    assert(addressable(v, 2));
}

/// The empty image has no MiniFAT.
pub proof fn lemma_empty_minifat(v: Version)
    ensures
        minifat_of(empty_image(v), empty_header(v), seq![FAT_SECTOR, END_OF_CHAIN]) == Ok::<
            Seq<u32>,
            Error,
        >(Seq::empty()),
{
    reveal(minifat_of);
    let b = empty_image(v);
    let fat = seq![FAT_SECTOR, END_OF_CHAIN];
    let none = Seq::<u32>::empty();
    assert(chain(fat, END_OF_CHAIN, 0, Error::MinifatChainLength) == Ok::<Seq<u32>, Error>(none));
    assert(table_from_sectors(b, v, none, 0) == Ok::<Seq<u32>, Error>(none));
    assert(trimmed(none) == none);
    assert(table_fault(none, 0, Error::MinifatPointer, Error::MinifatPointedTwice) is None);
}

proof fn lemma_unallocated_record(n: nat, j: int)
    requires
        0 <= j < n,
    ensures
        unallocated_records(n).subrange(128 * j, 128 * (j + 1)) == encode_entry(
            EntryView::unallocated(),
        ),
    decreases n,
{
    lemma_unallocated_records_len(n);
    lemma_unallocated_records_len((n - 1) as nat);
    lemma_record_len(EntryView::unallocated());
    let r = unallocated_records(n);
    let p = unallocated_records((n - 1) as nat);
    let e = encode_entry(EntryView::unallocated());
    assert(r == p + e);
    if j == n - 1 {
        assert(r.subrange(128 * j, 128 * (j + 1)) =~= e);
    } else {
        lemma_unallocated_record((n - 1) as nat, j);
        assert(r.subrange(128 * j, 128 * (j + 1)) =~= p.subrange(128 * j, 128 * (j + 1)));
    }
}

proof fn lemma_record_len(e: EntryView)
    requires
        e.name.len() <= 31,
    ensures
        encode_entry(e).len() == 128,
{
    lemma_record_layout(e);
}

proof fn lemma_dir_record_bytes(v: Version, k: int)
    requires
        0 <= k < v.dir_entries_per_sector(),
    ensures
        128 * (k + 1) <= empty_dir_sector(v).len(),
        empty_dir_sector(v).subrange(128 * k, 128 * (k + 1)) == encode_entry(
            empty_directory(v)[k],
        ),
{
    let per = v.dir_entries_per_sector();
    let block = empty_dir_sector(v);
    let record = block.subrange(128 * k, 128 * (k + 1));
    let root = encode_entry(EntryView::empty_root());
    lemma_record_len(EntryView::empty_root());
    let fill = unallocated_records((per - 1) as nat);
    lemma_unallocated_records_len((per - 1) as nat);
    assert(block == root + fill);
    assert(block.len() == 128 * per);
    if k == 0 {
        assert(record =~= root);
    } else {
        lemma_unallocated_record((per - 1) as nat, k - 1);
        assert(record =~= fill.subrange(128 * (k - 1), 128 * k));
    }
}

proof fn lemma_filler_round_trip(v: Version)
    ensures
        decode_entry(encode_entry(EntryView::empty_root()), v) == Ok::<EntryView, Error>(
            EntryView::empty_root(),
        ),
        decode_entry(encode_entry(EntryView::unallocated()), v) == Ok::<EntryView, Error>(
            EntryView::unallocated(),
        ),
{
    assert(EntryView::empty_root().valid(v)) by {
        lemma_root_name_storable();
    }
    lemma_entry_round_trip(EntryView::empty_root(), v);
    assert(EntryView::unallocated().valid(v));
    lemma_entry_round_trip(EntryView::unallocated(), v);
}

proof fn lemma_dir_record_at(v: Version, k: int)
    requires
        0 <= k < v.dir_entries_per_sector(),
    ensures
        128 * (k + 1) <= empty_dir_sector(v).len(),
        decode_entry(empty_dir_sector(v).subrange(128 * k, 128 * (k + 1)), v) == Ok::<
            EntryView,
            Error,
        >(empty_directory(v)[k]),
{
    lemma_dir_record_bytes(v, k);
    lemma_filler_round_trip(v);
}

#[verifier::rlimit(60)]
proof fn lemma_dir_records(v: Version, k: int)
    requires
        0 <= k <= v.dir_entries_per_sector(),
    ensures
        entries_from_block(empty_dir_sector(v), v, k) == Ok::<Seq<EntryView>, Error>(
            empty_directory(v).subrange(k, v.dir_entries_per_sector()),
        ),
    decreases v.dir_entries_per_sector() - k,
{
    lemma_empty_image_len(v);
    let per = v.dir_entries_per_sector();
    let dir = empty_directory(v);
    if k == per {
        assert(dir.subrange(k, per) =~= Seq::<EntryView>::empty());
    } else {
        lemma_dir_records(v, k + 1);
        lemma_dir_record_at(v, k);
        assert(seq![dir[k]] + dir.subrange(k + 1, per) =~= dir.subrange(k, per));
    }
}

/// The name of the root entry is one that a record can hold.
pub proof fn lemma_root_name_storable()
    ensures
        crate::names::storable_name(root_name()),
{
    let r = root_name();
    assert(r.len() == 10);
    assert forall|i: int| 0 <= i < r.len() implies crate::names::allowed_unit(#[trigger] r[i]) by {
        if i == 0 {
        } else if i == 1 {
        } else if i == 2 {
        } else if i == 3 {
        } else if i == 4 {
        } else if i == 5 {
        } else if i == 6 {
        } else if i == 7 {
        } else if i == 8 {
        } else {
        }
    }
}

proof fn lemma_dir_chain()
    ensures
        chain(seq![FAT_SECTOR, END_OF_CHAIN], 1, 2, Error::BrokenChain) == Ok::<Seq<u32>, Error>(
            seq![1u32],
        ),
{
    let fat = seq![FAT_SECTOR, END_OF_CHAIN];
    assert(chain(fat, END_OF_CHAIN, 1, Error::BrokenChain) == Ok::<Seq<u32>, Error>(
        Seq::empty(),
    ));
    assert(seq![1u32] + Seq::<u32>::empty() =~= seq![1u32]);
    assert(fat[1] == END_OF_CHAIN);
}

proof fn lemma_dir_block(v: Version)
    ensures
        entries_from_block(empty_dir_sector(v), v, 0) == Ok::<Seq<EntryView>, Error>(
            empty_directory(v),
        ),
{
    lemma_dir_records(v, 0);
    let dir = empty_directory(v);
    assert(dir.subrange(0, v.dir_entries_per_sector()) =~= dir);
}

proof fn lemma_one_sector_directory(b: Seq<u8>, v: Version, sector: u32, block: Seq<u8>, dir: Seq<EntryView>)
    requires
        sector_bytes(b, v, sector) == Some(block),
        entries_from_block(block, v, 0) == Ok::<Seq<EntryView>, Error>(dir),
    ensures
        directory_from_sectors(b, v, seq![sector], 0) == Ok::<Seq<EntryView>, Error>(dir),
{
    assert(directory_from_sectors(b, v, seq![sector], 1) == Ok::<Seq<EntryView>, Error>(
        Seq::empty(),
    ));
    assert(dir + Seq::<EntryView>::empty() =~= dir);
}

proof fn lemma_dir_sectors(v: Version)
    ensures
        directory_from_sectors(empty_image(v), v, seq![1u32], 0) == Ok::<Seq<EntryView>, Error>(
            empty_directory(v),
        ),
{
    lemma_sectors(v);
    lemma_dir_block(v);
    lemma_one_sector_directory(empty_image(v), v, 1, empty_dir_sector(v), empty_directory(v));
}

/// A directory whose root has no links and whose mini stream is empty has no
/// fault.
pub proof fn lemma_lone_root(dir: Seq<EntryView>)
    requires
        dir.len() > 0,
        dir[0] == EntryView::empty_root(),
    ensures
        directory_fault(dir, 0) is None,
{
    let none = Seq::<u32>::empty();
    assert(seq![0u32].drop_last() =~= none);
    assert(seq![0u32].last() == 0);
    assert(push_links(dir, 0, none) == Ok::<Seq<u32>, Error>(none));
    assert(walk_tree(dir, none, Set::<int>::empty().insert(0), (dir.len() - 1) as nat) == Ok::<
        (),
        Error,
    >(()));
    assert(walk_tree(dir, seq![0u32], Set::<int>::empty(), dir.len()) == Ok::<(), Error>(()));
}

proof fn lemma_directory_of(
    b: Seq<u8>,
    h: Header,
    fat: Seq<u32>,
    sectors: Seq<u32>,
    dir: Seq<EntryView>,
)
    requires
        chain(fat, h.first_dir_sector, fat.len(), Error::BrokenChain) == Ok::<Seq<u32>, Error>(
            sectors,
        ),
        directory_from_sectors(b, h.version, sectors, 0) == Ok::<Seq<EntryView>, Error>(dir),
    ensures
        directory_of(b, h, fat) == Ok::<Seq<EntryView>, Error>(dir),
{
    reveal(directory_of);
}

proof fn lemma_directory_read(v: Version)
    ensures
        directory_of(empty_image(v), empty_header(v), seq![FAT_SECTOR, END_OF_CHAIN]) == Ok::<
            Seq<EntryView>,
            Error,
        >(empty_directory(v)),
{
    lemma_dir_chain();
    lemma_dir_sectors(v);
    let fat = seq![FAT_SECTOR, END_OF_CHAIN];
    assert(fat.len() == 2);
    lemma_directory_of(empty_image(v), empty_header(v), fat, seq![1u32], empty_directory(v));
}

/// The directory of the empty image: the root entry, then entries that are
/// not in use.
pub proof fn lemma_empty_directory(v: Version)
    ensures
        directory_of(empty_image(v), empty_header(v), seq![FAT_SECTOR, END_OF_CHAIN]) == Ok::<
            Seq<EntryView>,
            Error,
        >(empty_directory(v)),
        directory_fault(empty_directory(v), 0) is None,
{
    lemma_directory_read(v);
    let dir = empty_directory(v);
    assert(dir.len() > 0);
    assert(dir[0] == EntryView::empty_root());
    lemma_lone_root(dir);
}

/// An empty compound file is well formed.
pub proof fn lemma_empty_layout_ok(v: Version)
    ensures
        crate::compound::layout_ok(empty_layout(v)),
{
    let l = empty_layout(v);
    let dir = l.directory;
    lemma_root_name_storable();
    assert(crate::image::all_storable(dir));
    let rank = Seq::new(dir.len(), |i: int| if i == 0 {
        1nat
    } else {
        0nat
    });
    assert(crate::tree::forest(dir, rank));
    assert(crate::tables::in_bounds(l.fat));
    assert(crate::tables::in_bounds(l.minifat));
    assert(crate::tables::difat_ok(l.difat, l.fat));
}

/// Reading the image of an empty compound file gives an empty compound file
/// of the same version, whose only named entry is the root.
pub proof fn lemma_empty_image_decodes(v: Version)
    ensures
        decode_image(empty_image(v)) == Ok::<Layout, Error>(empty_layout(v)),
{
    lemma_empty_header(v);
    lemma_empty_difat(v);
    lemma_empty_fat(v);
    lemma_empty_minifat(v);
    lemma_empty_directory(v);
}

} // verus!
