//! Directory entries and their 128-byte records.

use crate::consts::{
    root_name, COLOR_BLACK, COLOR_RED, DIR_ENTRY_LEN, END_OF_CHAIN, MAX_NAME_LEN,
    MAX_REGULAR_STREAM_ID, NO_STREAM, OBJ_TYPE_ROOT, OBJ_TYPE_UNALLOCATED,
};
use crate::endian::{
    append_bytes, get_u16, get_u32, get_u64, lemma_le_round_trip, u16_at, u16_to_le, u32_at,
    u32_to_le, u64_at, u64_to_le, write_u16_le, write_u32_le, write_u64_le,
};
use crate::error::Error;
use crate::names::{all_allowed, is_all_allowed, storable_name};
use crate::store::zeros;
use crate::version::Version;
use vstd::prelude::*;

verus! {

/// One entry of the directory: a storage, a stream, the root, or a slot that
/// is not in use.
#[derive(Debug)]
pub struct DirEntry {
    pub name: Vec<u16>,
    pub obj_type: u8,
    pub color: u8,
    pub left_sibling: u32,
    pub right_sibling: u32,
    pub child: u32,
    pub creation_time: u64,
    pub modified_time: u64,
    pub start_sector: u32,
    pub stream_len: u64,
}

/// What a directory entry holds.
pub struct EntryView {
    pub name: Seq<u16>,
    pub obj_type: u8,
    pub color: u8,
    pub left_sibling: u32,
    pub right_sibling: u32,
    pub child: u32,
    pub creation_time: u64,
    pub modified_time: u64,
    pub start_sector: u32,
    pub stream_len: u64,
}

impl View for DirEntry {
    type V = EntryView;

    open spec fn view(&self) -> EntryView {
        EntryView {
            name: self.name@,
            obj_type: self.obj_type,
            color: self.color,
            left_sibling: self.left_sibling,
            right_sibling: self.right_sibling,
            child: self.child,
            creation_time: self.creation_time,
            modified_time: self.modified_time,
            start_sector: self.start_sector,
            stream_len: self.stream_len,
        }
    }
}

/// The views of the entries of a directory.
pub open spec fn entries_view(dir: Seq<DirEntry>) -> Seq<EntryView> {
    Seq::new(dir.len(), |i: int| dir[i]@)
}

/// Whether `id` is a stream ID or stands for none.
pub open spec fn is_link(id: u32) -> bool {
    id == NO_STREAM || id <= MAX_REGULAR_STREAM_ID
}

/// The part of a 64-bit length field that counts in a version: version 3
/// keeps the low 32 bits.
pub open spec fn masked_len(raw: u64, version: Version) -> u64 {
    match version {
        Version::V3 => (raw % 0x1_0000_0000) as u64,
        Version::V4 => raw,
    }
}

impl EntryView {
    /// Whether a record can hold this entry and give it back.
    pub open spec fn valid(self, version: Version) -> bool {
        &&& storable_name(self.name)
        &&& (self.color == COLOR_RED || self.color == COLOR_BLACK)
        &&& is_link(self.left_sibling)
        &&& is_link(self.right_sibling)
        &&& is_link(self.child)
        &&& masked_len(self.stream_len, version) == self.stream_len
    }

    /// The entry of a slot that is not in use.
    pub open spec fn unallocated() -> EntryView {
        EntryView {
            name: Seq::empty(),
            obj_type: OBJ_TYPE_UNALLOCATED,
            color: 0,
            left_sibling: 0,
            right_sibling: 0,
            child: 0,
            creation_time: 0,
            modified_time: 0,
            start_sector: 0,
            stream_len: 0,
        }
    }

    /// The root entry of a compound file without contents.
    pub open spec fn empty_root() -> EntryView {
        EntryView {
            name: root_name(),
            obj_type: OBJ_TYPE_ROOT,
            color: COLOR_BLACK,
            left_sibling: NO_STREAM,
            right_sibling: NO_STREAM,
            child: NO_STREAM,
            creation_time: 0,
            modified_time: 0,
            start_sector: END_OF_CHAIN,
            stream_len: 0,
        }
    }
}

/// The 32 code units of the name field of a record.
pub open spec fn name_field(block: Seq<u8>) -> Seq<u16> {
    Seq::new(32, |k: int| u16_at(block, 2 * k))
}

/// Number of code units of a name whose length field, which counts bytes and
/// the terminator, holds `len_bytes`.
pub open spec fn name_units(len_bytes: u16) -> int {
    if len_bytes > 0 {
        len_bytes / 2 - 1
    } else {
        0
    }
}

/// The entry that a 128-byte record holds, or the rule it breaks.
#[verifier::opaque]
pub open spec fn decode_entry(block: Seq<u8>, version: Version) -> Result<EntryView, Error> {
    let len_bytes = u16_at(block, 64);
    let n = name_units(len_bytes);
    let name = name_field(block).subrange(0, n);
    let color = block[67];
    let left = u32_at(block, 68);
    let right = u32_at(block, 72);
    let child = u32_at(block, 76);
    if len_bytes > 64 || len_bytes % 2 != 0 {
        Err(Error::NameLength)
    } else if name_field(block)[n] != 0 {
        Err(Error::NameTerminator)
    } else if !all_allowed(name) {
        Err(Error::NameCharacter)
    } else if color != COLOR_RED && color != COLOR_BLACK {
        Err(Error::Color)
    } else if !is_link(left) {
        Err(Error::LeftSibling)
    } else if !is_link(right) {
        Err(Error::RightSibling)
    } else if !is_link(child) {
        Err(Error::Child)
    } else {
        Ok(
            EntryView {
                name,
                obj_type: block[66],
                color,
                left_sibling: left,
                right_sibling: right,
                child,
                creation_time: u64_at(block, 100),
                modified_time: u64_at(block, 108),
                start_sector: u32_at(block, 116),
                stream_len: masked_len(u64_at(block, 120), version),
            },
        )
    }
}

/// The 64 bytes of the name field of a record: the name, then zeroes.
pub open spec fn name_bytes(name: Seq<u16>) -> Seq<u8> {
    Seq::new(
        64,
        |i: int|
            {
                let u: u16 = if i / 2 < name.len() {
                    name[i / 2]
                } else {
                    0u16
                };
                u16_to_le(u)[i % 2]
            },
    )
}

/// The first 80 bytes of the record of an entry: name, name length, type,
/// colour and the three links.
pub open spec fn record_head(e: EntryView) -> Seq<u8> {
    name_bytes(e.name) + u16_to_le(((e.name.len() + 1) * 2) as u16) + seq![e.obj_type, e.color]
        + u32_to_le(e.left_sibling) + u32_to_le(e.right_sibling) + u32_to_le(e.child)
}

/// The last 48 bytes of the record of an entry: class ID and state bits,
/// which an entry does not hold and which are zero, then the two times, the
/// start sector and the length.
pub open spec fn record_tail(e: EntryView) -> Seq<u8> {
    zeros(20) + u64_to_le(e.creation_time) + u64_to_le(e.modified_time) + u32_to_le(
        e.start_sector,
    ) + u64_to_le(e.stream_len)
}

/// The 128-byte record of an entry.
#[verifier::opaque]
pub open spec fn encode_entry(e: EntryView) -> Seq<u8> {
    record_head(e) + record_tail(e)
}

proof fn lemma_record_head(e: EntryView)
    requires
        e.name.len() <= MAX_NAME_LEN,
    ensures
        record_head(e).len() == 80,
        name_field(record_head(e)).subrange(0, e.name.len() as int) == e.name,
        name_field(record_head(e))[e.name.len() as int] == 0,
        u16_at(record_head(e), 64) == (e.name.len() + 1) * 2,
        record_head(e)[66] == e.obj_type,
        record_head(e)[67] == e.color,
        u32_at(record_head(e), 68) == e.left_sibling,
        u32_at(record_head(e), 72) == e.right_sibling,
        u32_at(record_head(e), 76) == e.child,
{
    let b = record_head(e);
    let len_bytes: u16 = ((e.name.len() + 1) * 2) as u16;
    lemma_le_round_trip(len_bytes, e.left_sibling, 0);
    lemma_le_round_trip(0, e.right_sibling, 0);
    lemma_le_round_trip(0, e.child, 0);
    assert(b.len() == 80);
    assert(b.subrange(64, 66) =~= u16_to_le(len_bytes));
    assert(b.subrange(68, 72) =~= u32_to_le(e.left_sibling));
    assert(b.subrange(72, 76) =~= u32_to_le(e.right_sibling));
    assert(b.subrange(76, 80) =~= u32_to_le(e.child));
    assert forall|k: int| 0 <= k < 32 implies #[trigger] name_field(b)[k] == (if k < e.name.len() {
        e.name[k]
    } else {
        0u16
    }) by {
        let u: u16 = if k < e.name.len() {
            e.name[k]
        } else {
            0u16
        };
        lemma_le_round_trip(u, 0, 0);
        assert(b[2 * k] == name_bytes(e.name)[2 * k]);
        assert(b[2 * k + 1] == name_bytes(e.name)[2 * k + 1]);
        assert((2 * k) / 2 == k && (2 * k + 1) / 2 == k);
        assert((2 * k) % 2 == 0 && (2 * k + 1) % 2 == 1);
        assert(b.subrange(2 * k, 2 * k + 2) =~= u16_to_le(u));
    }
    assert(name_field(b).subrange(0, e.name.len() as int) =~= e.name);
}

proof fn lemma_record_tail(e: EntryView)
    ensures
        record_tail(e).len() == 48,
        u64_at(record_tail(e), 20) == e.creation_time,
        u64_at(record_tail(e), 28) == e.modified_time,
        u32_at(record_tail(e), 36) == e.start_sector,
        u64_at(record_tail(e), 40) == e.stream_len,
{
    let b = record_tail(e);
    lemma_le_round_trip(0, e.start_sector, e.creation_time);
    lemma_le_round_trip(0, 0, e.modified_time);
    lemma_le_round_trip(0, 0, e.stream_len);
    assert(b.len() == 48);
    assert(b.subrange(20, 28) =~= u64_to_le(e.creation_time));
    assert(b.subrange(28, 36) =~= u64_to_le(e.modified_time));
    assert(b.subrange(36, 40) =~= u32_to_le(e.start_sector));
    assert(b.subrange(40, 48) =~= u64_to_le(e.stream_len));
}

/// Where each field of an entry stands in its record.
pub proof fn lemma_record_layout(e: EntryView)
    requires
        e.name.len() <= MAX_NAME_LEN,
    ensures
        encode_entry(e).len() == DIR_ENTRY_LEN,
        name_field(encode_entry(e)).subrange(0, e.name.len() as int) == e.name,
        name_field(encode_entry(e))[e.name.len() as int] == 0,
        u16_at(encode_entry(e), 64) == (e.name.len() + 1) * 2,
        encode_entry(e)[66] == e.obj_type,
        encode_entry(e)[67] == e.color,
        u32_at(encode_entry(e), 68) == e.left_sibling,
        u32_at(encode_entry(e), 72) == e.right_sibling,
        u32_at(encode_entry(e), 76) == e.child,
        u64_at(encode_entry(e), 100) == e.creation_time,
        u64_at(encode_entry(e), 108) == e.modified_time,
        u32_at(encode_entry(e), 116) == e.start_sector,
        u64_at(encode_entry(e), 120) == e.stream_len,
{
    reveal(encode_entry);
    lemma_record_head(e);
    lemma_record_tail(e);
    let h = record_head(e);
    let t = record_tail(e);
    let b = encode_entry(e);
    assert(b.subrange(64, 66) =~= h.subrange(64, 66));
    assert(b.subrange(68, 72) =~= h.subrange(68, 72));
    assert(b.subrange(72, 76) =~= h.subrange(72, 76));
    assert(b.subrange(76, 80) =~= h.subrange(76, 80));
    assert(b.subrange(100, 108) =~= t.subrange(20, 28));
    assert(b.subrange(108, 116) =~= t.subrange(28, 36));
    assert(b.subrange(116, 120) =~= t.subrange(36, 40));
    assert(b.subrange(120, 128) =~= t.subrange(40, 48));
    assert forall|k: int| 0 <= k < 32 implies #[trigger] name_field(b)[k] == name_field(h)[k] by {
        assert(b.subrange(2 * k, 2 * k + 2) =~= h.subrange(2 * k, 2 * k + 2));
    }
    assert(name_field(b) =~= name_field(h));
}

/// A record is 128 bytes long and gives back the entry it was made from.
pub proof fn lemma_entry_round_trip(e: EntryView, version: Version)
    requires
        e.valid(version),
    ensures
        encode_entry(e).len() == DIR_ENTRY_LEN,
        decode_entry(encode_entry(e), version) == Ok::<EntryView, Error>(e),
{
    reveal(decode_entry);
    lemma_record_layout(e);
    let b = encode_entry(e);
    let len_bytes: u16 = u16_at(b, 64);
    assert(name_units(len_bytes) == e.name.len());
}

impl DirEntry {
    /// The entry of a slot that is not in use.
    pub fn unallocated() -> (r: DirEntry)
        ensures
            r@ == EntryView::unallocated(),
    {
        DirEntry {
            name: Vec::new(),
            obj_type: OBJ_TYPE_UNALLOCATED,
            color: 0,
            left_sibling: 0,
            right_sibling: 0,
            child: 0,
            creation_time: 0,
            modified_time: 0,
            start_sector: 0,
            stream_len: 0,
        }
    }

    /// The root entry of a compound file without contents.
    pub fn empty_root() -> (r: DirEntry)
        ensures
            r@ == EntryView::empty_root(),
    {
        let mut name: Vec<u16> = Vec::new();
        name.push(0x52);
        name.push(0x6f);
        name.push(0x6f);
        name.push(0x74);
        name.push(0x20);
        name.push(0x45);
        name.push(0x6e);
        name.push(0x74);
        name.push(0x72);
        name.push(0x79);
        assert(name@ =~= root_name());
        DirEntry {
            name,
            obj_type: OBJ_TYPE_ROOT,
            color: COLOR_BLACK,
            left_sibling: NO_STREAM,
            right_sibling: NO_STREAM,
            child: NO_STREAM,
            creation_time: 0,
            modified_time: 0,
            start_sector: END_OF_CHAIN,
            stream_len: 0,
        }
    }

    /// Decodes a 128-byte record.
    pub fn read(block: &[u8], version: Version) -> (r: Result<DirEntry, Error>)
        requires
            block@.len() == DIR_ENTRY_LEN,
        ensures
            match r {
                Ok(e) => decode_entry(block@, version) == Ok::<EntryView, Error>(e@)
                    && storable_name(e@.name),
                Err(e) => decode_entry(block@, version) == Err::<EntryView, Error>(e),
            },
    {
        reveal(decode_entry);
        let len_bytes: u16 = get_u16(block, 64);
        if len_bytes > 64 || len_bytes % 2 != 0 {
            return Err(Error::NameLength);
        }
        let n: usize = if len_bytes > 0 {
            (len_bytes / 2 - 1) as usize
        } else {
            0
        };
        let mut name: Vec<u16> = Vec::new();
        let mut k: usize = 0;
        while k < n
            invariant
                k <= n,
                n <= 31,
                block@.len() == 128,
                name@ == name_field(block@).subrange(0, k as int),
            decreases n - k,
        {
            name.push(get_u16(block, 2 * k));
            assert(name@ =~= name_field(block@).subrange(0, k + 1));
            k = k + 1;
        }
        if get_u16(block, 2 * n) != 0 {
            return Err(Error::NameTerminator);
        }
        if !is_all_allowed(name.as_slice()) {
            return Err(Error::NameCharacter);
        }
        let obj_type: u8 = block[66];
        let color: u8 = block[67];
        if color != COLOR_RED && color != COLOR_BLACK {
            return Err(Error::Color);
        }
        let left_sibling: u32 = get_u32(block, 68);
        if left_sibling != NO_STREAM && left_sibling > MAX_REGULAR_STREAM_ID {
            return Err(Error::LeftSibling);
        }
        let right_sibling: u32 = get_u32(block, 72);
        if right_sibling != NO_STREAM && right_sibling > MAX_REGULAR_STREAM_ID {
            return Err(Error::RightSibling);
        }
        let child: u32 = get_u32(block, 76);
        if child != NO_STREAM && child > MAX_REGULAR_STREAM_ID {
            return Err(Error::Child);
        }
        let creation_time: u64 = get_u64(block, 100);
        let modified_time: u64 = get_u64(block, 108);
        let start_sector: u32 = get_u32(block, 116);
        let raw_len: u64 = get_u64(block, 120);
        let stream_len: u64 = raw_len & version.stream_len_mask();
        assert(stream_len == masked_len(raw_len, version)) by {
            assert(raw_len & 0xffffffffu64 == raw_len % 0x1_0000_0000u64) by (bit_vector);
            assert(raw_len & 0xffffffffffffffffu64 == raw_len) by (bit_vector);
        }
        Ok(
            DirEntry {
                name,
                obj_type,
                color,
                left_sibling,
                right_sibling,
                child,
                creation_time,
                modified_time,
                start_sector,
                stream_len,
            },
        )
    }

    /// Encodes this entry as a 128-byte record.
    pub fn write(&self) -> (r: Vec<u8>)
        requires
            self.name@.len() <= MAX_NAME_LEN,
        ensures
            r@ == encode_entry(self@),
            r@.len() == DIR_ENTRY_LEN,
    {
        reveal(encode_entry);
        let mut out: Vec<u8> = Vec::new();
        let mut k: usize = 0;
        while k < 32
            invariant
                k <= 32,
                out@.len() == 2 * k,
                forall|i: int| 0 <= i < 2 * k ==> out@[i] == name_bytes(self.name@)[i],
            decreases 32 - k,
        {
            let u: u16 = if k < self.name.len() {
                self.name[k]
            } else {
                0
            };
            let b: Vec<u8> = write_u16_le(u);
            let ghost before = out@;
            append_bytes(&mut out, b.as_slice());
            assert forall|i: int| 0 <= i < 2 * k + 2 implies out@[i] == name_bytes(self.name@)[i] by {
                if i >= 2 * k {
                    assert(out@[i] == b@[i - 2 * k]);
                    assert(i / 2 == k);
                }
            }
            k = k + 1;
        }
        assert(out@ =~= name_bytes(self.name@));
        let len_bytes: u16 = ((self.name.len() + 1) * 2) as u16;
        append_bytes(&mut out, write_u16_le(len_bytes).as_slice());
        out.push(self.obj_type);
        out.push(self.color);
        assert(out@ =~= name_bytes(self.name@) + u16_to_le(len_bytes) + seq![
            self.obj_type,
            self.color,
        ]);
        append_bytes(&mut out, write_u32_le(self.left_sibling).as_slice());
        append_bytes(&mut out, write_u32_le(self.right_sibling).as_slice());
        append_bytes(&mut out, write_u32_le(self.child).as_slice());
        assert(out@ == record_head(self@));
        let mut tail: Vec<u8> = Vec::new();
        let mut z: usize = 0;
        while z < 20
            invariant
                z <= 20,
                tail@ == zeros(z as nat),
            decreases 20 - z,
        {
            tail.push(0u8);
            assert(tail@ =~= zeros((z + 1) as nat));
            z = z + 1;
        }
        append_bytes(&mut tail, write_u64_le(self.creation_time).as_slice());
        append_bytes(&mut tail, write_u64_le(self.modified_time).as_slice());
        append_bytes(&mut tail, write_u32_le(self.start_sector).as_slice());
        append_bytes(&mut tail, write_u64_le(self.stream_len).as_slice());
        assert(tail@ == record_tail(self@));
        append_bytes(&mut out, tail.as_slice());
        proof {
            lemma_record_layout(self@);
        }
        out
    }
}

} // verus!
