//! What a caller learns about an entry, and the listing of a storage.

use crate::consts::{NO_STREAM, OBJ_TYPE_ROOT, OBJ_TYPE_STORAGE, OBJ_TYPE_STREAM};
use crate::dir_entry::{entries_view, DirEntry, EntryView};
use crate::names::{joined, SLASH};
use crate::tree::{forest, inorder, lemma_inorder_fuel, link_ok};
use vstd::prelude::*;

verus! {

/// The text that a run of UTF-16 code units stands for, with U+FFFD in the
/// place of each code unit that is half of a broken surrogate pair.
pub uninterp spec fn utf16_lossy(units: Seq<u16>) -> Seq<char>;

/// `String::from_utf16_lossy`: decodes UTF-16 and puts the replacement
/// character where the code units are not valid.  The result is named, not
/// spelled out.
#[verifier::external_body]
pub(crate) fn decode_utf16_lossy(units: &[u16]) -> (r: String)
    ensures
        r@ == utf16_lossy(units@),
{
    String::from_utf16_lossy(units)
}

/// Metadata about one object, storage or stream, of a compound file.
#[derive(Clone, Debug)]
pub struct StorageEntry {
    pub(crate) name: Vec<u16>,
    pub(crate) path: Vec<u16>,
    pub(crate) obj_type: u8,
    pub(crate) creation_time: u64,
    pub(crate) modified_time: u64,
    pub(crate) stream_len: u64,
}

/// What a [`StorageEntry`] holds.
pub struct StorageEntryView {
    pub name: Seq<u16>,
    pub path: Seq<u16>,
    pub obj_type: u8,
    pub creation_time: u64,
    pub modified_time: u64,
    pub stream_len: u64,
}

/// The metadata of a directory entry that was found at `path`.
pub open spec fn metadata(e: EntryView, path: Seq<u16>) -> StorageEntryView {
    StorageEntryView {
        name: e.name,
        path,
        obj_type: e.obj_type,
        creation_time: e.creation_time,
        modified_time: e.modified_time,
        stream_len: e.stream_len,
    }
}

/// Copies a run of code units.
pub fn copy_units(units: &[u16]) -> (r: Vec<u16>)
    ensures
        r@ == units@,
{
    let mut out: Vec<u16> = Vec::new();
    let mut i: usize = 0;
    while i < units.len()
        invariant
            i <= units@.len(),
            out@ == units@.subrange(0, i as int),
        decreases units@.len() - i,
    {
        out.push(units[i]);
        assert(out@ =~= units@.subrange(0, i + 1));
        i = i + 1;
    }
    assert(out@ =~= units@);
    out
}

/// The path of the object named `name` inside the storage at `parent`.
pub fn join_path(parent: &[u16], name: &[u16]) -> (r: Vec<u16>)
    ensures
        r@ == joined(parent@, name@),
{
    let mut out: Vec<u16> = copy_units(parent);
    let n: usize = parent.len();
    if !(n > 0 && parent[n - 1] == SLASH) {
        out.push(SLASH);
        assert(out@ =~= parent@ + seq![SLASH]);
    }
    let ghost head = out@;
    let mut i: usize = 0;
    while i < name.len()
        invariant
            i <= name@.len(),
            out@ == head + name@.subrange(0, i as int),
        decreases name@.len() - i,
    {
        out.push(name[i]);
        assert(out@ =~= head + name@.subrange(0, i + 1));
        i = i + 1;
    }
    assert(name@.subrange(0, name@.len() as int) =~= name@);
    out
}

impl StorageEntry {
    /// What this entry holds.
    pub open(crate) spec fn view(&self) -> StorageEntryView {
        StorageEntryView {
            name: self.name@,
            path: self.path@,
            obj_type: self.obj_type,
            creation_time: self.creation_time,
            modified_time: self.modified_time,
            stream_len: self.stream_len,
        }
    }

    /// The metadata of a directory entry that was found at `path`.
    pub fn new(dir_entry: &DirEntry, path: Vec<u16>) -> (r: StorageEntry)
        ensures
            r.view() == metadata(dir_entry@, path@),
    {
        StorageEntry {
            name: copy_units(dir_entry.name.as_slice()),
            path,
            obj_type: dir_entry.obj_type,
            creation_time: dir_entry.creation_time,
            modified_time: dir_entry.modified_time,
            stream_len: dir_entry.stream_len,
        }
    }

    /// The name of the object.
    pub fn name(&self) -> (r: String)
        ensures
            r@ == utf16_lossy(self.view().name),
    {
        decode_utf16_lossy(self.name.as_slice())
    }

    /// The name of the object, in UTF-16 code units.
    pub fn name_units(&self) -> (r: &Vec<u16>)
        ensures
            r@ == self.view().name,
    {
        &self.name
    }

    /// The full path to the object.
    pub fn path(&self) -> (r: String)
        ensures
            r@ == utf16_lossy(self.view().path),
    {
        decode_utf16_lossy(self.path.as_slice())
    }

    /// The full path to the object, in UTF-16 code units.
    pub fn path_units(&self) -> (r: &Vec<u16>)
        ensures
            r@ == self.view().path,
    {
        &self.path
    }

    /// Whether the object is a stream: a file inside the compound file.
    pub fn is_stream(&self) -> (r: bool)
        ensures
            r == (self.view().obj_type == OBJ_TYPE_STREAM),
    {
        self.obj_type == OBJ_TYPE_STREAM
    }

    /// Whether the object is a storage: a directory inside the compound
    /// file, the root or a nested one.
    pub fn is_storage(&self) -> (r: bool)
        ensures
            r == (self.view().obj_type == OBJ_TYPE_STORAGE || self.view().obj_type
                == OBJ_TYPE_ROOT),
    {
        self.obj_type == OBJ_TYPE_STORAGE || self.obj_type == OBJ_TYPE_ROOT
    }

    /// Whether the object is the root storage.
    pub fn is_root(&self) -> (r: bool)
        ensures
            r == (self.view().obj_type == OBJ_TYPE_ROOT),
    {
        self.obj_type == OBJ_TYPE_ROOT
    }

    /// The length of the stream, in bytes.
    pub fn len(&self) -> (r: u64)
        ensures
            r == self.view().stream_len,
    {
        self.stream_len
    }

    /// When the object was created, in 100-nanosecond ticks since the start
    /// of the year 1601.
    pub fn created(&self) -> (r: u64)
        ensures
            r == self.view().creation_time,
    {
        self.creation_time
    }

    /// When the object was last modified, in 100-nanosecond ticks since the
    /// start of the year 1601.
    pub fn modified(&self) -> (r: u64)
        ensures
            r == self.view().modified_time,
    {
        self.modified_time
    }
}

/// The entries that wait on the lowest `k` slots of the stack of a listing:
/// each entry of the stack, top first, followed by what lies to its right.
pub open spec fn pending(dir: Seq<EntryView>, stack: Seq<u32>, k: int) -> Seq<u32>
    decreases k,
{
    if k <= 0 || k > stack.len() {
        Seq::empty()
    } else {
        seq![stack[k - 1]] + inorder(
            dir,
            dir[stack[k - 1] as int].right_sibling,
            dir.len(),
        ) + pending(dir, stack, k - 1)
    }
}

/// What waits on the lowest slots of a stack does not depend on the slots
/// above them.
pub proof fn lemma_pending_prefix(dir: Seq<EntryView>, s1: Seq<u32>, s2: Seq<u32>, k: int)
    requires
        0 <= k <= s1.len(),
        k <= s2.len(),
        forall|j: int| 0 <= j < k ==> s1[j] == s2[j],
    ensures
        pending(dir, s1, k) == pending(dir, s2, k),
    decreases k,
{
    if k > 0 {
        lemma_pending_prefix(dir, s1, s2, k - 1);
    }
}

/// A listing of the entries of a storage, in the order of its tree.
pub struct ReadStorage<'a> {
    pub(crate) directory: &'a Vec<DirEntry>,
    pub(crate) path: Vec<u16>,
    pub(crate) stack: Vec<u32>,
    pub(crate) current: u32,
    pub(crate) rank: Ghost<Seq<nat>>,
}

impl<'a> ReadStorage<'a> {
    /// The directory that is listed.
    pub open(crate) spec fn dir(&self) -> Seq<EntryView> {
        entries_view(self.directory@)
    }

    /// The path of the storage that is listed.
    pub open(crate) spec fn base(&self) -> Seq<u16> {
        self.path@
    }

    /// The stream IDs of the entries still to come, in order.
    pub open(crate) spec fn remaining(&self) -> Seq<u32> {
        inorder(self.dir(), self.current, self.dir().len()) + pending(
            self.dir(),
            self.stack@,
            self.stack@.len() as int,
        )
    }

    /// Whether `id` is an entry that the rank of this listing reaches.
    pub open(crate) spec fn ranked(&self, id: u32) -> bool {
        id < self.dir().len() && self.rank@[id as int] > 0
    }

    /// The invariant of a listing.
    pub open(crate) spec fn wf(&self) -> bool {
        &&& forest(self.dir(), self.rank@)
        &&& self.current != NO_STREAM ==> self.ranked(self.current)
        &&& forall|k: int| 0 <= k < self.stack@.len() ==> self.ranked(#[trigger] self.stack@[k])
    }

    /// The next entry of the listing, if any is left.
    pub fn next(&mut self) -> (r: Option<StorageEntry>)
        requires
            old(self).wf(),
        ensures
            final(self).wf(),
            final(self).dir() == old(self).dir(),
            final(self).base() == old(self).base(),
            match r {
                Some(e) => {
                    let id = old(self).remaining()[0];
                    &&& old(self).remaining().len() > 0
                    &&& id < old(self).dir().len()
                    &&& e.view() == metadata(
                        old(self).dir()[id as int],
                        joined(old(self).base(), old(self).dir()[id as int].name),
                    )
                    &&& final(self).remaining() == old(self).remaining().drop_first()
                },
                None => old(self).remaining().len() == 0 && final(self).remaining().len() == 0,
            },
    {
        let ghost dir = self.dir();
        let ghost all = self.remaining();
        let ghost rank = self.rank@;
        while self.current != NO_STREAM
            invariant
                self.wf(),
                self.dir() == dir,
                self.rank@ == rank,
                self.directory == old(self).directory,
                self.path == old(self).path,
                self.remaining() == all,
            decreases
                    (if self.current == NO_STREAM {
                        0
                    } else {
                        rank[self.current as int]
                    }),
        {
            let ghost stack0 = self.stack@;
            let ghost cur = self.current;
            let entry: &DirEntry = &self.directory[self.current as usize];
            assert(dir[cur as int] == entry@);
            self.stack.push(self.current);
            self.current = entry.left_sibling;
            proof {
                let n = dir.len();
                let left = entry@.left_sibling;
                let right = entry@.right_sibling;
                assert(link_ok(dir, rank, cur as int, left));
                assert(link_ok(dir, rank, cur as int, right));
                lemma_inorder_fuel(dir, rank, left, (n - 1) as nat, n);
                lemma_inorder_fuel(dir, rank, right, (n - 1) as nat, n);
                lemma_pending_prefix(dir, stack0, self.stack@, stack0.len() as int);
                let l = inorder(dir, left, n);
                let r = inorder(dir, right, n);
                let p = pending(dir, stack0, stack0.len() as int);
                assert(inorder(dir, cur, n) == l + seq![cur] + r);
                assert(pending(dir, self.stack@, self.stack@.len() as int) == seq![cur] + r + p);
                assert((l + seq![cur] + r) + p =~= l + (seq![cur] + r + p));
            }
        }
        let ghost stack0 = self.stack@;
        match self.stack.pop() {
            Some(parent) => {
                let entry: &DirEntry = &self.directory[parent as usize];
                assert(dir[parent as int] == entry@);
                self.current = entry.right_sibling;
                let path: Vec<u16> = join_path(self.path.as_slice(), entry.name.as_slice());
                proof {
                    let n = dir.len();
                    let right = entry@.right_sibling;
                    assert(parent == stack0[stack0.len() - 1]);
                    assert(link_ok(dir, rank, parent as int, right));
                    lemma_pending_prefix(dir, stack0, self.stack@, stack0.len() - 1);
                    let r = inorder(dir, right, n);
                    let p = pending(dir, self.stack@, self.stack@.len() as int);
                    assert(inorder(dir, NO_STREAM, n) =~= Seq::<u32>::empty());
                    assert(all =~= seq![parent] + r + p);
                    assert(all.drop_first() =~= r + p);
                }
                Some(StorageEntry::new(entry, path))
            },
            None => {
                proof {
                    assert(inorder(dir, NO_STREAM, dir.len()) =~= Seq::<u32>::empty());
                }
                None
            },
        }
    }

    /// The number of entries still to come, or the largest number there is
    /// where they are more.  The listing is used up.
    pub fn count(self) -> (r: usize)
        requires
            self.wf(),
        ensures
            r == (if self.remaining().len() <= usize::MAX {
                self.remaining().len() as int
            } else {
                usize::MAX as int
            }),
    {
        let mut rest = self;
        let mut n: usize = 0;
        loop
            invariant
                rest.wf(),
                n + rest.remaining().len() == self.remaining().len(),
                n <= usize::MAX,
            decreases rest.remaining().len(),
        {
            let ghost before = rest.remaining();
            let item: Option<StorageEntry> = rest.next();
            match item {
                Some(_) => {
                    assert(before.len() > 0);
                    assert(rest.remaining() == before.drop_first());
                    assert(rest.remaining().len() == before.len() - 1);
                    if n == usize::MAX {
                        return n;
                    }
                    n = n + 1;
                },
                None => {
                    return n;
                },
            }
        }
    }
}

} // verus!
