//! The image of a compound file without contents: a header, one FAT sector
//! and one directory sector.

use crate::consts::{
    magic_number, BYTE_ORDER_MARK, END_OF_CHAIN, FAT_SECTOR, HEADER_LEN, MINI_SECTOR_SHIFT,
    MINI_STREAM_CUTOFF, MINOR_VERSION,
};
use crate::dir_entry::{encode_entry, lemma_record_layout, DirEntry, EntryView};
use crate::endian::{
    append_bytes, lemma_le_round_trip, u16_at, u16_to_le, u32_at, u32_to_le, write_u16_le,
    write_u32_le,
};
use crate::image::Layout;
use crate::store::zeros;
use crate::version::Version;
use vstd::prelude::*;

verus! {

/// The bytes of `n` free table entries.
pub open spec fn free_words(n: nat) -> Seq<u8> {
    Seq::new(4 * n, |i: int| 0xffu8)
}

/// The bytes of `n` records of entries that are not in use.
pub open spec fn unallocated_records(n: nat) -> Seq<u8>
    decreases n,
{
    if n == 0 {
        Seq::empty()
    } else {
        unallocated_records((n - 1) as nat) + encode_entry(EntryView::unallocated())
    }
}

/// The first 40 bytes of the header of an empty compound file: what the
/// file is and how it is laid out.
pub open spec fn header_ident(v: Version) -> Seq<u8> {
    magic_number() + zeros(16) + u16_to_le(MINOR_VERSION) + u16_to_le(v.number_spec()) + u16_to_le(
        BYTE_ORDER_MARK,
    ) + u16_to_le(v.sector_shift_spec()) + u16_to_le(MINI_SECTOR_SHIFT) + zeros(6)
}

/// The next 36 bytes of the header of an empty compound file: one directory
/// sector, one FAT sector, the directory in sector 1, no transaction, the
/// cutoff, no MiniFAT and no DIFAT sector.
pub open spec fn header_counts() -> Seq<u8> {
    u32_to_le(1) + u32_to_le(1) + u32_to_le(1) + u32_to_le(0) + u32_to_le(MINI_STREAM_CUTOFF)
        + u32_to_le(END_OF_CHAIN) + u32_to_le(0) + u32_to_le(END_OF_CHAIN) + u32_to_le(0)
}

/// The first 76 bytes of the header of an empty compound file: the fields
/// before the DIFAT.
pub open spec fn empty_header_fields(v: Version) -> Seq<u8> {
    header_ident(v) + header_counts()
}

/// The header sector of an empty compound file: the fields, a DIFAT that
/// lists sector 0 and is free after it, and zeroes up to the end of the
/// sector.
pub open spec fn empty_header_sector(v: Version) -> Seq<u8> {
    empty_header_fields(v) + u32_to_le(0) + free_words(108) + zeros(
        (v.sector_len_spec() - HEADER_LEN) as nat,
    )
}

/// The FAT sector of an empty compound file: sector 0 holds the FAT, sector
/// 1 is the whole chain of the directory, and the rest is free.
pub open spec fn empty_fat_sector(v: Version) -> Seq<u8> {
    u32_to_le(FAT_SECTOR) + u32_to_le(END_OF_CHAIN) + free_words(
        (v.entries_per_sector() - 2) as nat,
    )
}

/// The directory sector of an empty compound file: the root entry, then
/// entries that are not in use.
pub open spec fn empty_dir_sector(v: Version) -> Seq<u8> {
    encode_entry(EntryView::empty_root()) + unallocated_records(
        (v.dir_entries_per_sector() - 1) as nat,
    )
}

/// The image of an empty compound file.
#[verifier::opaque]
pub open spec fn empty_image(v: Version) -> Seq<u8> {
    empty_header_sector(v) + empty_fat_sector(v) + empty_dir_sector(v)
}

/// The directory of an empty compound file.
pub open spec fn empty_directory(v: Version) -> Seq<EntryView> {
    Seq::new(
        v.dir_entries_per_sector() as nat,
        |i: int|
            if i == 0 {
                EntryView::empty_root()
            } else {
                EntryView::unallocated()
            },
    )
}

/// What an empty compound file holds.
pub open spec fn empty_layout(v: Version) -> Layout {
    Layout {
        version: v,
        difat: seq![0u32],
        fat: seq![FAT_SECTOR, END_OF_CHAIN],
        minifat: Seq::empty(),
        minifat_start_sector: END_OF_CHAIN,
        directory: empty_directory(v),
        directory_start_sector: 1,
    }
}

pub proof fn lemma_unallocated_records_len(n: nat)
    ensures
        unallocated_records(n).len() == 128 * n,
    decreases n,
{
    if n > 0 {
        lemma_unallocated_records_len((n - 1) as nat);
        lemma_record_layout(EntryView::unallocated());
    }
}

/// Where the fields of the first 40 bytes of the header stand.
pub proof fn lemma_header_ident(v: Version)
    ensures
        header_ident(v).len() == 40,
        header_ident(v).subrange(0, 8) == magic_number(),
        u16_at(header_ident(v), 26) == v.number_spec(),
        u16_at(header_ident(v), 28) == BYTE_ORDER_MARK,
        u16_at(header_ident(v), 30) == v.sector_shift_spec(),
        u16_at(header_ident(v), 32) == MINI_SECTOR_SHIFT,
{
    let b = header_ident(v);
    lemma_le_round_trip(v.number_spec(), 0, 0);
    lemma_le_round_trip(BYTE_ORDER_MARK, 0, 0);
    lemma_le_round_trip(v.sector_shift_spec(), 0, 0);
    lemma_le_round_trip(MINI_SECTOR_SHIFT, 0, 0);
    let head1 = magic_number() + zeros(16);
    assert(head1.len() == 24);
    let head2 = head1 + u16_to_le(MINOR_VERSION);
    assert(head2.len() == 26);
    let head3 = head2 + u16_to_le(v.number_spec());
    assert(head3.len() == 28);
    let head4 = head3 + u16_to_le(BYTE_ORDER_MARK);
    assert(head4.len() == 30);
    let head5 = head4 + u16_to_le(v.sector_shift_spec());
    assert(head5.len() == 32);
    let head6 = head5 + u16_to_le(MINI_SECTOR_SHIFT);
    assert(head6.len() == 34);
    assert(b == head6 + zeros(6));
    assert(b.len() == 40);
    assert(b.subrange(0, 8) =~= magic_number());
    assert(b.subrange(26, 28) =~= u16_to_le(v.number_spec()));
    assert(b.subrange(28, 30) =~= u16_to_le(BYTE_ORDER_MARK));
    assert(b.subrange(30, 32) =~= u16_to_le(v.sector_shift_spec()));
    assert(b.subrange(32, 34) =~= u16_to_le(MINI_SECTOR_SHIFT));
}

/// Where the fields of the next 36 bytes of the header stand.
pub proof fn lemma_header_counts()
    ensures
        header_counts().len() == 36,
        u32_at(header_counts(), 4) == 1,
        u32_at(header_counts(), 8) == 1,
        u32_at(header_counts(), 16) == MINI_STREAM_CUTOFF,
        u32_at(header_counts(), 20) == END_OF_CHAIN,
        u32_at(header_counts(), 24) == 0,
        u32_at(header_counts(), 28) == END_OF_CHAIN,
        u32_at(header_counts(), 32) == 0,
{
    let b = header_counts();
    lemma_le_round_trip(0, 1, 0);
    lemma_le_round_trip(0, 0, 0);
    lemma_le_round_trip(0, MINI_STREAM_CUTOFF, 0);
    lemma_le_round_trip(0, END_OF_CHAIN, 0);
    let count1 = u32_to_le(1) + u32_to_le(1);
    assert(count1.len() == 8);
    let count2 = count1 + u32_to_le(1);
    assert(count2.len() == 12);
    let count3 = count2 + u32_to_le(0);
    assert(count3.len() == 16);
    let count4 = count3 + u32_to_le(MINI_STREAM_CUTOFF);
    assert(count4.len() == 20);
    let count5 = count4 + u32_to_le(END_OF_CHAIN);
    assert(count5.len() == 24);
    let count6 = count5 + u32_to_le(0);
    assert(count6.len() == 28);
    let count7 = count6 + u32_to_le(END_OF_CHAIN);
    assert(count7.len() == 32);
    assert(b == count7 + u32_to_le(0));
    assert(b.len() == 36);
    assert(b.subrange(4, 8) =~= u32_to_le(1));
    assert(b.subrange(8, 12) =~= u32_to_le(1));
    assert(b.subrange(16, 20) =~= u32_to_le(MINI_STREAM_CUTOFF));
    assert(b.subrange(20, 24) =~= u32_to_le(END_OF_CHAIN));
    assert(b.subrange(24, 28) =~= u32_to_le(0));
    assert(b.subrange(28, 32) =~= u32_to_le(END_OF_CHAIN));
    assert(b.subrange(32, 36) =~= u32_to_le(0));
}

/// The lengths of the three sectors of the empty image.
pub proof fn lemma_empty_image_len(v: Version)
    ensures
        empty_header_fields(v).len() == 76,
        empty_header_sector(v).len() == v.sector_len_spec(),
        empty_fat_sector(v).len() == v.sector_len_spec(),
        empty_dir_sector(v).len() == v.sector_len_spec(),
        empty_image(v).len() == 3 * v.sector_len_spec(),
{
    reveal(empty_image);
    lemma_header_ident(v);
    lemma_header_counts();
    lemma_unallocated_records_len((v.dir_entries_per_sector() - 1) as nat);
    lemma_record_layout(EntryView::empty_root());
    lemma_le_round_trip(0, 0, 0);
    lemma_le_round_trip(0, FAT_SECTOR, 0);
    lemma_le_round_trip(0, END_OF_CHAIN, 0);
    assert(empty_header_fields(v).len() == 76);
    let h1 = empty_header_fields(v) + u32_to_le(0);
    assert(h1.len() == 80);
    let h2 = h1 + free_words(108);
    assert(h2.len() == 512);
    assert(empty_header_sector(v).len() == v.sector_len_spec());
    let f1 = u32_to_le(FAT_SECTOR) + u32_to_le(END_OF_CHAIN);
    assert(f1.len() == 8);
    assert(empty_fat_sector(v).len() == v.sector_len_spec());
    assert(empty_dir_sector(v).len() == v.sector_len_spec());
}

/// Builds `n` free table entries.
fn build_free_words(n: usize) -> (r: Vec<u8>)
    requires
        n <= 1024,
    ensures
        r@ == free_words(n as nat),
{
    let mut out: Vec<u8> = Vec::new();
    let mut i: usize = 0;
    while i < 4 * n
        invariant
            i <= 4 * n,
            n <= 1024,
            out@.len() == i,
            forall|j: int| 0 <= j < i ==> out@[j] == 0xffu8,
        decreases 4 * n - i,
    {
        out.push(0xffu8);
        i = i + 1;
    }
    assert(out@ =~= free_words(n as nat));
    out
}

/// Builds `n` zero bytes.
fn build_zeros(n: usize) -> (r: Vec<u8>)
    ensures
        r@ == zeros(n as nat),
{
    let mut out: Vec<u8> = Vec::new();
    let mut i: usize = 0;
    while i < n
        invariant
            i <= n,
            out@.len() == i,
            forall|j: int| 0 <= j < i ==> out@[j] == 0u8,
        decreases n - i,
    {
        out.push(0u8);
        i = i + 1;
    }
    assert(out@ =~= zeros(n as nat));
    out
}

/// Builds the image of an empty compound file.
pub fn build_empty_image(v: Version) -> (r: Vec<u8>)
    ensures
        r@ == empty_image(v),
        r@.len() == 3 * v.sector_len_spec(),
{
    let sector_len: usize = v.sector_len();
    let mut out: Vec<u8> = Vec::new();
    let mut counts: Vec<u8> = write_u32_le(1);
    append_bytes(&mut counts, write_u32_le(1).as_slice());
    append_bytes(&mut counts, write_u32_le(1).as_slice());
    append_bytes(&mut counts, write_u32_le(0).as_slice());
    append_bytes(&mut counts, write_u32_le(MINI_STREAM_CUTOFF).as_slice());
    append_bytes(&mut counts, write_u32_le(END_OF_CHAIN).as_slice());
    append_bytes(&mut counts, write_u32_le(0).as_slice());
    append_bytes(&mut counts, write_u32_le(END_OF_CHAIN).as_slice());
    append_bytes(&mut counts, write_u32_le(0).as_slice());
    assert(counts@ == header_counts());
    out.push(0xd0);
    out.push(0xcf);
    out.push(0x11);
    out.push(0xe0);
    out.push(0xa1);
    out.push(0xb1);
    out.push(0x1a);
    out.push(0xe1);
    assert(out@ =~= magic_number());
    append_bytes(&mut out, build_zeros(16).as_slice());
    append_bytes(&mut out, write_u16_le(MINOR_VERSION).as_slice());
    append_bytes(&mut out, write_u16_le(v.number()).as_slice());
    append_bytes(&mut out, write_u16_le(BYTE_ORDER_MARK).as_slice());
    append_bytes(&mut out, write_u16_le(v.sector_shift()).as_slice());
    append_bytes(&mut out, write_u16_le(MINI_SECTOR_SHIFT).as_slice());
    append_bytes(&mut out, build_zeros(6).as_slice());
    assert(out@ == header_ident(v));
    append_bytes(&mut out, counts.as_slice());
    assert(out@ == empty_header_fields(v));
    append_bytes(&mut out, write_u32_le(0).as_slice());
    append_bytes(&mut out, build_free_words(108).as_slice());
    append_bytes(&mut out, build_zeros(sector_len - HEADER_LEN).as_slice());
    assert(out@ == empty_header_sector(v));

    let mut fat_sector: Vec<u8> = write_u32_le(FAT_SECTOR);
    append_bytes(&mut fat_sector, write_u32_le(END_OF_CHAIN).as_slice());
    append_bytes(&mut fat_sector, build_free_words(sector_len / 4 - 2).as_slice());
    assert(fat_sector@ == empty_fat_sector(v));
    append_bytes(&mut out, fat_sector.as_slice());

    let mut dir_sector: Vec<u8> = DirEntry::empty_root().write();
    let unallocated: Vec<u8> = DirEntry::unallocated().write();
    let fillers: usize = sector_len / 128 - 1;
    let ghost head = dir_sector@;
    let mut i: usize = 0;
    while i < fillers
        invariant
            i <= fillers,
            unallocated@ == encode_entry(EntryView::unallocated()),
            dir_sector@ == head + unallocated_records(i as nat),
        decreases fillers - i,
    {
        append_bytes(&mut dir_sector, unallocated.as_slice());
        assert(dir_sector@ =~= head + unallocated_records((i + 1) as nat));
        i = i + 1;
    }
    assert(dir_sector@ == empty_dir_sector(v));
    append_bytes(&mut out, dir_sector.as_slice());
    proof {
        reveal(empty_image);
        lemma_empty_image_len(v);
    }
    out
}

} // verus!
