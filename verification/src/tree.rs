//! The directory as a tree.
//!
//! The root is entry 0.  The children of a storage form a binary tree that
//! hangs from its `child` link and branches by the sibling links; a lookup
//! walks it by the order of names, and a listing walks it in order.

use crate::consts::{root_name, MINI_SECTOR_LEN, NO_STREAM};
use crate::dir_entry::{entries_view, DirEntry, EntryView};
use crate::error::Error;
use crate::names::{compare_names, name_order, NameOrder};
use std::collections::HashSet;
use vstd::set_lib::{lemma_int_range, lemma_subset_equality, set_int_range};
use vstd::prelude::*;

verus! {

/// A link of a ranked entry is either none, or leads to an entry of lower,
/// positive rank.
pub open spec fn link_ok(dir: Seq<EntryView>, rank: Seq<nat>, i: int, link: u32) -> bool {
    link != NO_STREAM ==> link < dir.len() && 0 < rank[link as int] < rank[i]
}

/// Each sibling of entry `i` follows it in the order of names.
pub open spec fn siblings_follow(dir: Seq<EntryView>, i: int) -> bool {
    let e = dir[i];
    &&& e.left_sibling != NO_STREAM && e.left_sibling < dir.len() ==> name_order(
        e.name,
        dir[e.left_sibling as int].name,
    ) == NameOrder::Less
    &&& e.right_sibling != NO_STREAM && e.right_sibling < dir.len() ==> name_order(
        e.name,
        dir[e.right_sibling as int].name,
    ) == NameOrder::Less
}

/// The entries that can be reached from the root form a forest without
/// cycles: `rank` is positive on them, bounded by the size of the directory,
/// and falls along every link.
pub open spec fn forest(dir: Seq<EntryView>, rank: Seq<nat>) -> bool {
    &&& rank.len() == dir.len()
    &&& dir.len() > 0
    &&& rank[0] > 0
    &&& forall|i: int|
        0 <= i < dir.len() && #[trigger] rank[i] > 0 ==> {
            &&& rank[i] <= dir.len()
            &&& link_ok(dir, rank, i, dir[i].left_sibling)
            &&& link_ok(dir, rank, i, dir[i].right_sibling)
            &&& link_ok(dir, rank, i, dir[i].child)
            &&& siblings_follow(dir, i)
        }
}

/// The directory has a rank that makes it a forest.
pub open spec fn is_forest(dir: Seq<EntryView>) -> bool {
    exists|rank: Seq<nat>| forest(dir, rank)
}

/// The stack of entries still to visit after entry `id` was taken from it:
/// its left sibling, its right sibling and its child are put on top, in this
/// order, each after it was checked.
pub open spec fn push_links(dir: Seq<EntryView>, id: int, rest: Seq<u32>) -> Result<
    Seq<u32>,
    Error,
> {
    let e = dir[id];
    let n = dir.len();
    if e.left_sibling != NO_STREAM && e.left_sibling >= n {
        Err(Error::SiblingIndex)
    } else if e.left_sibling != NO_STREAM && name_order(e.name, dir[e.left_sibling as int].name)
        != NameOrder::Less {
        Err(Error::NameOrdering)
    } else if e.right_sibling != NO_STREAM && e.right_sibling >= n {
        Err(Error::SiblingIndex)
    } else if e.right_sibling != NO_STREAM && name_order(e.name, dir[e.right_sibling as int].name)
        != NameOrder::Less {
        Err(Error::NameOrdering)
    } else if e.child != NO_STREAM && e.child >= n {
        Err(Error::ChildIndex)
    } else {
        let s1 = if e.left_sibling != NO_STREAM {
            rest.push(e.left_sibling)
        } else {
            rest
        };
        let s2 = if e.right_sibling != NO_STREAM {
            s1.push(e.right_sibling)
        } else {
            s1
        };
        let s3 = if e.child != NO_STREAM {
            s2.push(e.child)
        } else {
            s2
        };
        Ok(s3)
    }
}

/// The outcome of the depth-first walk that visits the entries on `stack`,
/// top first, and all that they lead to, given the set of entries visited
/// before.  `fuel` is the number of entries not yet visited.
pub open spec fn walk_tree(dir: Seq<EntryView>, stack: Seq<u32>, seen: Set<int>, fuel: nat) -> Result<
    (),
    Error,
>
    decreases fuel,
{
    if stack.len() == 0 {
        Ok(())
    } else if fuel == 0 || seen.contains(stack.last() as int) {
        Err(Error::DirectoryLoop)
    } else {
        match push_links(dir, stack.last() as int, stack.drop_last()) {
            Err(e) => Err(e),
            Ok(next) => walk_tree(dir, next, seen.insert(stack.last() as int), (fuel - 1) as nat),
        }
    }
}

/// What is wrong with a directory, if anything.  `minifat_len` is the number
/// of mini sectors.
pub open spec fn directory_fault(dir: Seq<EntryView>, minifat_len: nat) -> Option<Error> {
    if dir.len() == 0 {
        Some(Error::NoRootEntry)
    } else if dir[0].name != root_name() {
        Some(Error::RootName)
    } else if dir[0].stream_len != MINI_SECTOR_LEN * minifat_len {
        Some(Error::RootStreamLen)
    } else {
        match walk_tree(dir, seq![0u32], Set::empty(), dir.len()) {
            Err(e) => Some(e),
            Ok(()) => None,
        }
    }
}

/// Whether the top of the stack or an entry below it is `id`.
pub open spec fn on_stack(stack: Seq<u32>, id: u32) -> bool {
    exists|k: int| 0 <= k < stack.len() && #[trigger] stack[k] == id
}

/// A link of a visited entry is none, waits on the stack, or leads to an
/// entry that was visited later.
pub open spec fn link_seen(
    dir: Seq<EntryView>,
    stack: Seq<u32>,
    seen: Set<int>,
    time: Seq<nat>,
    u: int,
    link: u32,
) -> bool {
    link != NO_STREAM ==> link < dir.len() && (on_stack(stack, link) || (seen.contains(link as int)
        && time[link as int] > time[u]))
}

/// What holds of every visited entry during the walk.
pub open spec fn walk_inv(
    dir: Seq<EntryView>,
    stack: Seq<u32>,
    seen: Set<int>,
    time: Seq<nat>,
    clock: nat,
) -> bool {
    &&& time.len() == dir.len()
    &&& forall|u: int|
        #![trigger seen.contains(u)]
        seen.contains(u) ==> {
            &&& 0 <= u < dir.len()
            &&& time[u] < clock
            &&& link_seen(dir, stack, seen, time, u, dir[u].left_sibling)
            &&& link_seen(dir, stack, seen, time, u, dir[u].right_sibling)
            &&& link_seen(dir, stack, seen, time, u, dir[u].child)
            &&& siblings_follow(dir, u)
        }
}

/// Tells whether two runs of code units are the same.
pub fn same_units(a: &[u16], b: &[u16]) -> (r: bool)
    ensures
        r == (a@ == b@),
{
    if a.len() != b.len() {
        return false;
    }
    let mut i: usize = 0;
    while i < a.len()
        invariant
            i <= a@.len(),
            a@.len() == b@.len(),
            forall|j: int| 0 <= j < i ==> a@[j] == b@[j],
        decreases a@.len() - i,
    {
        if a[i] != b[i] {
            return false;
        }
        i = i + 1;
    }
    assert(a@ =~= b@);
    true
}

/// Checks a directory: the root has its name and the length of the mini
/// stream, and a walk from the root finds every link inside the directory,
/// every sibling after its parent in the order of names, and no entry twice.
pub fn validate_directory(directory: &Vec<DirEntry>, minifat_len: usize) -> (r: Result<(), Error>)
    ensures
        r == (match directory_fault(entries_view(directory@), minifat_len as nat) {
            Some(e) => Err::<(), Error>(e),
            None => Ok(()),
        }),
        r is Ok ==> is_forest(entries_view(directory@)),
{
    broadcast use vstd::std_specs::hash::group_hash_axioms;

    let ghost dir = entries_view(directory@);
    let n: usize = directory.len();
    if n == 0 {
        return Err(Error::NoRootEntry);
    }
    let root_name_units: Vec<u16> = DirEntry::empty_root().name;
    assert(dir[0] == directory@[0]@);
    if !same_units(directory[0].name.as_slice(), root_name_units.as_slice()) {
        return Err(Error::RootName);
    }
    if minifat_len as u64 > u64::MAX / 64 || directory[0].stream_len != 64 * (minifat_len as u64) {
        return Err(Error::RootStreamLen);
    }
    let mut visited: HashSet<u32> = HashSet::new();
    let mut stack: Vec<u32> = Vec::new();
    stack.push(0u32);
    let mut count: usize = 0;
    let ghost mut seen: Set<int> = Set::empty();
    let ghost mut time: Seq<nat> = Seq::new(n as nat, |i: int| 0nat);
    assert(stack@ =~= seq![0u32]);
    proof {
        lemma_int_range(0, n as int);
    }
    while stack.len() > 0
        invariant
            n == directory@.len(),
            n > 0,
            dir == entries_view(directory@),
            dir[0].name == root_name(),
            dir[0].stream_len == MINI_SECTOR_LEN * minifat_len,
            count <= n,
            seen.finite(),
            seen.len() == count,
            seen.subset_of(set_int_range(0, n as int)),
            set_int_range(0, n as int).finite(),
            set_int_range(0, n as int).len() == n,
            forall|x: u32| visited@.contains(x) <==> seen.contains(x as int),
            forall|k: int| 0 <= k < stack@.len() ==> (#[trigger] stack@[k]) < n,
            walk_tree(dir, seq![0u32], Set::empty(), n as nat) == walk_tree(
                dir,
                stack@,
                seen,
                (n - count) as nat,
            ),
            walk_inv(dir, stack@, seen, time, count as nat),
            seen.contains(0) || on_stack(stack@, 0),
        decreases n - count,
    {
        let ghost stack0 = stack@;
        let ghost seen0 = seen;
        let ghost time0 = time;
        let id: u32 = stack.pop().unwrap();
        assert(id == stack0.last());
        assert(stack@ =~= stack0.drop_last());
        assert(id < n);
        if visited.contains(&id) {
            return Err(Error::DirectoryLoop);
        }
        if count == n {
            proof {
                lemma_subset_equality(seen, set_int_range(0, n as int));
                assert(set_int_range(0, n as int).contains(id as int));
            }
            return Err(Error::DirectoryLoop);
        }
        visited.insert(id);
        proof {
            seen = seen.insert(id as int);
            time = time.update(id as int, count as nat);
        }
        count = count + 1;
        let entry: &DirEntry = &directory[id as usize];
        assert(dir[id as int] == entry@);
        let left: u32 = entry.left_sibling;
        if left != NO_STREAM {
            if left as usize >= n {
                return Err(Error::SiblingIndex);
            }
            let other: &DirEntry = &directory[left as usize];
            assert(dir[left as int] == other@);
            match compare_names(entry.name.as_slice(), other.name.as_slice()) {
                NameOrder::Less => {},
                _ => {
                    return Err(Error::NameOrdering);
                },
            }
            stack.push(left);
        }
        let right: u32 = entry.right_sibling;
        if right != NO_STREAM {
            if right as usize >= n {
                return Err(Error::SiblingIndex);
            }
            let other: &DirEntry = &directory[right as usize];
            assert(dir[right as int] == other@);
            match compare_names(entry.name.as_slice(), other.name.as_slice()) {
                NameOrder::Less => {},
                _ => {
                    return Err(Error::NameOrdering);
                },
            }
            stack.push(right);
        }
        let child: u32 = entry.child;
        if child != NO_STREAM {
            if child as usize >= n {
                return Err(Error::ChildIndex);
            }
            stack.push(child);
        }
        proof {
            assert(push_links(dir, id as int, stack0.drop_last()) == Ok::<Seq<u32>, Error>(
                stack@,
            ));
            assert forall|x: u32| visited@.contains(x) <==> seen.contains(x as int) by {}
            // entries that were on the stack before are still there, but for `id`
            assert forall|v: u32| on_stack(stack0, v) && v != id implies on_stack(stack@, v) by {
                let k = choose|k: int| 0 <= k < stack0.len() && #[trigger] stack0[k] == v;
                assert(k < stack0.len() - 1);
                assert(stack@[k] == v);
            }
            assert(left != NO_STREAM ==> on_stack(stack@, left)) by {
                if left != NO_STREAM {
                    let k = stack0.len() - 1;
                    assert(stack@[k] == left);
                }
            }
            assert(right != NO_STREAM ==> on_stack(stack@, right)) by {
                if right != NO_STREAM {
                    let k: int = if left != NO_STREAM {
                        stack0.len() as int
                    } else {
                        stack0.len() - 1
                    };
                    assert(stack@[k] == right);
                }
            }
            assert(child != NO_STREAM ==> on_stack(stack@, child)) by {
                if child != NO_STREAM {
                    let k = stack@.len() - 1;
                    assert(stack@[k] == child);
                }
            }
            assert forall|u: int| #![trigger seen.contains(u)] seen.contains(u) implies {
                &&& 0 <= u < dir.len()
                &&& time[u] < count
                &&& link_seen(dir, stack@, seen, time, u, dir[u].left_sibling)
                &&& link_seen(dir, stack@, seen, time, u, dir[u].right_sibling)
                &&& link_seen(dir, stack@, seen, time, u, dir[u].child)
                &&& siblings_follow(dir, u)
            } by {
                if u != id as int {
                    assert(seen0.contains(u));
                    lemma_link_kept(dir, stack0, stack@, seen0, seen, time0, time, u, id, dir[u].left_sibling);
                    lemma_link_kept(dir, stack0, stack@, seen0, seen, time0, time, u, id, dir[u].right_sibling);
                    lemma_link_kept(dir, stack0, stack@, seen0, seen, time0, time, u, id, dir[u].child);
                }
            }
            if !seen.contains(0) {
                assert(on_stack(stack0, 0));
                assert(0 != id);
            }
        }
    }
    proof {
        let total: nat = count as nat;
        let rank = Seq::new(
            n as nat,
            |i: int|
                if seen.contains(i) {
                    (total - time[i]) as nat
                } else {
                    0nat
                },
        );
        assert(!on_stack(stack@, 0));
        assert forall|i: int| 0 <= i < dir.len() && #[trigger] rank[i] > 0 implies {
            &&& rank[i] <= dir.len()
            &&& link_ok(dir, rank, i, dir[i].left_sibling)
            &&& link_ok(dir, rank, i, dir[i].right_sibling)
            &&& link_ok(dir, rank, i, dir[i].child)
            &&& siblings_follow(dir, i)
        } by {
            assert(seen.contains(i));
            lemma_link_ranked(dir, stack@, seen, time, total, rank, i, dir[i].left_sibling);
            lemma_link_ranked(dir, stack@, seen, time, total, rank, i, dir[i].right_sibling);
            lemma_link_ranked(dir, stack@, seen, time, total, rank, i, dir[i].child);
        }
        assert(forest(dir, rank));
    }
    Ok(())
}

proof fn lemma_link_kept(
    dir: Seq<EntryView>,
    stack0: Seq<u32>,
    stack1: Seq<u32>,
    seen0: Set<int>,
    seen1: Set<int>,
    time0: Seq<nat>,
    time1: Seq<nat>,
    u: int,
    id: u32,
    link: u32,
)
    requires
        time0.len() == dir.len(),
        seen0.contains(u),
        0 <= u < dir.len(),
        id < dir.len(),
        u != id,
        !seen0.contains(id as int),
        seen1 == seen0.insert(id as int),
        time1 == time0.update(id as int, (time1[id as int])),
        time0[u] < time1[id as int],
        forall|v: u32| on_stack(stack0, v) && v != id ==> on_stack(stack1, v),
        link_seen(dir, stack0, seen0, time0, u, link),
    ensures
        link_seen(dir, stack1, seen1, time1, u, link),
{
    if link != NO_STREAM {
        if link == id {
            assert(seen1.contains(link as int));
            assert(time1[link as int] > time1[u]);
        } else {
            if on_stack(stack0, link) {
                assert(on_stack(stack1, link));
            }
        }
    }
}

proof fn lemma_link_ranked(
    dir: Seq<EntryView>,
    stack: Seq<u32>,
    seen: Set<int>,
    time: Seq<nat>,
    total: nat,
    rank: Seq<nat>,
    i: int,
    link: u32,
)
    requires
        stack.len() == 0,
        time.len() == dir.len(),
        rank.len() == dir.len(),
        0 <= i < dir.len(),
        seen.contains(i),
        time[i] < total,
        forall|u: int| #![trigger seen.contains(u)] seen.contains(u) ==> 0 <= u < dir.len() && time[u] < total,
        forall|k: int|
            0 <= k < dir.len() ==> #[trigger] rank[k] == (if seen.contains(k) {
                (total - time[k]) as nat
            } else {
                0nat
            }),
        link_seen(dir, stack, seen, time, i, link),
    ensures
        link_ok(dir, rank, i, link),
{
    if link != NO_STREAM {
        assert(!on_stack(stack, link));
        assert(seen.contains(link as int));
    }
}

/// An entry that can be reached from the root.
pub open spec fn live(dir: Seq<EntryView>, id: u32) -> bool {
    exists|rank: Seq<nat>| forest(dir, rank) && id < dir.len() && #[trigger] rank[id as int] > 0
}

/// The entry named `name` in the tree of siblings below `node`, found by
/// going left where the name comes before that of an entry and right where
/// it comes after.  No path in a directory is longer than the directory, so
/// `fuel` is the number of its entries.
pub open spec fn find_in(dir: Seq<EntryView>, node: u32, name: Seq<u16>, fuel: nat) -> Option<u32>
    decreases fuel,
{
    if node == NO_STREAM || node >= dir.len() || fuel == 0 {
        None
    } else {
        match name_order(name, dir[node as int].name) {
            NameOrder::Equal => Some(node),
            NameOrder::Less => find_in(dir, dir[node as int].left_sibling, name, (fuel - 1) as nat),
            NameOrder::Greater => find_in(
                dir,
                dir[node as int].right_sibling,
                name,
                (fuel - 1) as nat,
            ),
        }
    }
}

/// The child of entry `id` that is named `name`.
pub open spec fn child_named(dir: Seq<EntryView>, id: u32, name: Seq<u16>) -> Option<u32> {
    if id >= dir.len() {
        None
    } else {
        find_in(dir, dir[id as int].child, name, dir.len())
    }
}

/// The entry that the names from index `i` on lead to, starting at entry
/// `id`.
pub open spec fn resolve_from(dir: Seq<EntryView>, id: u32, names: Seq<Seq<u16>>, i: int) -> Option<
    u32,
>
    decreases names.len() - i,
{
    if i < 0 || i >= names.len() {
        Some(id)
    } else {
        match child_named(dir, id, names[i]) {
            None => None,
            Some(next) => resolve_from(dir, next, names, i + 1),
        }
    }
}

/// The entry that a list of names leads to from the root.
pub open spec fn resolve(dir: Seq<EntryView>, names: Seq<Seq<u16>>) -> Option<u32> {
    resolve_from(dir, 0, names, 0)
}

/// The entries of the tree of siblings below `node`, in order: those to the
/// left of an entry, the entry, those to its right.
pub open spec fn inorder(dir: Seq<EntryView>, node: u32, fuel: nat) -> Seq<u32>
    decreases fuel,
{
    if node == NO_STREAM || node >= dir.len() || fuel == 0 {
        Seq::empty()
    } else {
        inorder(dir, dir[node as int].left_sibling, (fuel - 1) as nat) + seq![node] + inorder(
            dir,
            dir[node as int].right_sibling,
            (fuel - 1) as nat,
        )
    }
}

/// The children of entry `id`, in order.
pub open spec fn children(dir: Seq<EntryView>, id: u32) -> Seq<u32> {
    if id >= dir.len() {
        Seq::empty()
    } else {
        inorder(dir, dir[id as int].child, dir.len())
    }
}

/// An entry that was found by a name has that name, but for the case of
/// ASCII letters.
pub proof fn lemma_found_by_name(dir: Seq<EntryView>, node: u32, name: Seq<u16>, fuel: nat)
    requires
        find_in(dir, node, name, fuel) is Some,
    ensures
        find_in(dir, node, name, fuel)->Some_0 < dir.len(),
        crate::names::same_name(name, dir[find_in(dir, node, name, fuel)->Some_0 as int].name),
    decreases fuel,
{
    crate::names::lemma_name_order(name, dir[node as int].name);
    match name_order(name, dir[node as int].name) {
        NameOrder::Equal => {},
        NameOrder::Less => {
            lemma_found_by_name(dir, dir[node as int].left_sibling, name, (fuel - 1) as nat);
        },
        NameOrder::Greater => {
            lemma_found_by_name(dir, dir[node as int].right_sibling, name, (fuel - 1) as nat);
        },
    }
}

/// In a forest, the fuel of a listing does not matter once it is the rank
/// of the entry it starts at.
pub proof fn lemma_inorder_fuel(dir: Seq<EntryView>, rank: Seq<nat>, node: u32, f1: nat, f2: nat)
    requires
        forest(dir, rank),
        node != NO_STREAM ==> node < dir.len() && 0 < rank[node as int] <= f1 && rank[node as int]
            <= f2,
    ensures
        inorder(dir, node, f1) == inorder(dir, node, f2),
    decreases f1,
{
    if node != NO_STREAM {
        let e = dir[node as int];
        assert(link_ok(dir, rank, node as int, e.left_sibling));
        assert(link_ok(dir, rank, node as int, e.right_sibling));
        lemma_inorder_fuel(dir, rank, e.left_sibling, (f1 - 1) as nat, (f2 - 1) as nat);
        lemma_inorder_fuel(dir, rank, e.right_sibling, (f1 - 1) as nat, (f2 - 1) as nat);
    }
}

/// Finds the child of an entry by its name.
pub fn find_child(directory: &Vec<DirEntry>, parent: u32, name: &[u16]) -> (r: Option<u32>)
    requires
        live(entries_view(directory@), parent),
    ensures
        r == child_named(entries_view(directory@), parent, name@),
        r is Some ==> live(entries_view(directory@), r->Some_0) && crate::names::same_name(
            name@,
            entries_view(directory@)[r->Some_0 as int].name,
        ),
{
    let ghost dir = entries_view(directory@);
    let ghost rank = choose|rank: Seq<nat>|
        forest(dir, rank) && parent < dir.len() && #[trigger] rank[parent as int] > 0;
    assert(dir[parent as int] == directory@[parent as int]@);
    let mut current: u32 = directory[parent as usize].child;
    let ghost mut fuel: nat = dir.len();
    proof {
        assert(link_ok(dir, rank, parent as int, dir[parent as int].child));
    }
    loop
        invariant
            dir == entries_view(directory@),
            forest(dir, rank),
            current != NO_STREAM ==> current < dir.len() && 0 < rank[current as int] <= fuel,
            child_named(dir, parent, name@) == find_in(dir, current, name@, fuel),
        decreases
                (if current == NO_STREAM {
                    0
                } else {
                    rank[current as int]
                }),
    {
        if current == NO_STREAM {
            return None;
        }
        let entry: &DirEntry = &directory[current as usize];
        assert(dir[current as int] == entry@);
        proof {
            assert(link_ok(dir, rank, current as int, entry@.left_sibling));
            assert(link_ok(dir, rank, current as int, entry@.right_sibling));
        }
        match compare_names(name, entry.name.as_slice()) {
            NameOrder::Equal => {
                proof {
                    crate::names::lemma_name_order(name@, entry@.name);
                }
                return Some(current);
            },
            NameOrder::Less => {
                current = entry.left_sibling;
            },
            NameOrder::Greater => {
                current = entry.right_sibling;
            },
        }
        proof {
            fuel = (fuel - 1) as nat;
        }
    }
}

/// Follows a list of names from the root.
pub fn stream_id_for_names(directory: &Vec<DirEntry>, names: &Vec<Vec<u16>>) -> (r: Result<
    u32,
    Error,
>)
    requires
        is_forest(entries_view(directory@)),
    ensures
        match resolve(entries_view(directory@), crate::names::names_view(names@)) {
            Some(id) => r == Ok::<u32, Error>(id) && live(entries_view(directory@), id),
            None => r == Err::<u32, Error>(Error::NoSuchObject),
        },
{
    let ghost dir = entries_view(directory@);
    let ghost list = crate::names::names_view(names@);
    let mut stream_id: u32 = 0;
    let mut i: usize = 0;
    proof {
        let rank = choose|rank: Seq<nat>| forest(dir, rank);
        assert(rank[0] > 0);
    }
    while i < names.len()
        invariant
            i <= names@.len(),
            dir == entries_view(directory@),
            list == crate::names::names_view(names@),
            live(dir, stream_id),
            resolve(dir, list) == resolve_from(dir, stream_id, list, i as int),
        decreases names@.len() - i,
    {
        assert(list[i as int] == names@[i as int]@);
        match find_child(directory, stream_id, names[i].as_slice()) {
            None => {
                return Err(Error::NoSuchObject);
            },
            Some(next) => {
                stream_id = next;
            },
        }
        i = i + 1;
    }
    Ok(stream_id)
}

} // verus!
