//! Names of entries and paths to them, as UTF-16 code units.
//!
//! A name is what the directory stores: up to 31 code units, none of them a
//! slash, a backslash, a colon, an exclamation mark or a control character.
//! A path is a slash followed by names that slashes separate; the slash
//! alone is the root.

use crate::consts::MAX_NAME_LEN;
use crate::error::Error;
use vstd::prelude::*;

verus! {

/// The code unit of the slash that separates the names of a path.
pub const SLASH: u16 = 0x2f;

/// How one name stands to another in the order of a directory.
#[derive(Clone, Copy, Debug, PartialEq, Eq, Structural)]
pub enum NameOrder {
    Less,
    Equal,
    Greater,
}

/// The UTF-16 code units of one character.
pub open spec fn utf16_of_char(c: char) -> Seq<u16> {
    let n = c as u32;
    if n < 0x1_0000 {
        seq![n as u16]
    } else {
        seq![(0xd800 + (n - 0x1_0000) / 0x400) as u16, (0xdc00 + (n - 0x1_0000) % 0x400) as u16]
    }
}

/// The UTF-16 code units of a text.
pub open spec fn utf16(s: Seq<char>) -> Seq<u16>
    decreases s.len(),
{
    if s.len() == 0 {
        Seq::empty()
    } else {
        utf16(s.drop_last()) + utf16_of_char(s.last())
    }
}

/// Whether a name may hold this code unit.
pub open spec fn allowed_unit(u: u16) -> bool {
    &&& u != 0x2f
    &&& u != 0x5c
    &&& u != 0x3a
    &&& u != 0x21
    &&& u >= 0x20
    &&& !(0x7f <= u <= 0x9f)
}

/// Whether every code unit of the name is one that a name may hold.
pub open spec fn all_allowed(name: Seq<u16>) -> bool {
    forall|i: int| 0 <= i < name.len() ==> allowed_unit(#[trigger] name[i])
}

/// Whether the directory may store this name.  The empty name is the one of
/// an entry that is not in use.
pub open spec fn storable_name(name: Seq<u16>) -> bool {
    name.len() <= MAX_NAME_LEN && all_allowed(name)
}

/// What is wrong with a name as a component of a path, if anything.
pub open spec fn name_fault(name: Seq<u16>) -> Option<Error> {
    if name.len() == 0 {
        Some(Error::EmptyName)
    } else if name.len() > MAX_NAME_LEN {
        Some(Error::NameTooLong)
    } else if !all_allowed(name) {
        Some(Error::ForbiddenCharacter)
    } else {
        None
    }
}

/// The code unit with a small ASCII letter turned into its capital.
pub open spec fn upper(u: u16) -> u16 {
    if 0x61 <= u <= 0x7a {
        (u - 0x20) as u16
    } else {
        u
    }
}

/// The order of two names of one length from index `i` on: that of the first
/// pair of code units that differ once capitalised.
pub open spec fn units_order(a: Seq<u16>, b: Seq<u16>, i: int) -> NameOrder
    decreases a.len() - i,
{
    if i < 0 || i >= a.len() || i >= b.len() {
        NameOrder::Equal
    } else if upper(a[i]) < upper(b[i]) {
        NameOrder::Less
    } else if upper(a[i]) > upper(b[i]) {
        NameOrder::Greater
    } else {
        units_order(a, b, i + 1)
    }
}

/// The order of names in a directory: a shorter name comes first; names of
/// one length go by their code units, capitalised.
pub open spec fn name_order(a: Seq<u16>, b: Seq<u16>) -> NameOrder {
    if a.len() < b.len() {
        NameOrder::Less
    } else if a.len() > b.len() {
        NameOrder::Greater
    } else {
        units_order(a, b, 0)
    }
}

/// Whether two names are the same but for the case of ASCII letters.
pub open spec fn same_name(a: Seq<u16>, b: Seq<u16>) -> bool {
    a.len() == b.len() && forall|i: int| 0 <= i < a.len() ==> upper(#[trigger] a[i]) == upper(b[i])
}

/// The order of the code units of two names turns round with the names, and
/// is that of equal names exactly where the names are the same from index
/// `i` on but for the case of ASCII letters.
pub proof fn lemma_units_order(a: Seq<u16>, b: Seq<u16>, i: int)
    requires
        a.len() == b.len(),
        0 <= i <= a.len(),
    ensures
        units_order(a, b, i) == NameOrder::Less <==> units_order(b, a, i) == NameOrder::Greater,
        units_order(a, b, i) == NameOrder::Greater <==> units_order(b, a, i) == NameOrder::Less,
        units_order(a, b, i) == NameOrder::Equal <==> forall|k: int|
            i <= k < a.len() ==> upper(#[trigger] a[k]) == upper(b[k]),
    decreases a.len() - i,
{
    if i < a.len() {
        lemma_units_order(a, b, i + 1);
        if upper(a[i]) == upper(b[i]) {
            if units_order(a, b, i + 1) == NameOrder::Equal {
                assert forall|k: int| i <= k < a.len() implies upper(#[trigger] a[k]) == upper(
                    b[k],
                ) by {}
            }
        }
    }
}

/// The order of names is an order: it turns round with the names, and two
/// names are equal in it exactly where they are the same but for the case of
/// ASCII letters.
pub proof fn lemma_name_order(a: Seq<u16>, b: Seq<u16>)
    ensures
        name_order(a, b) == NameOrder::Less <==> name_order(b, a) == NameOrder::Greater,
        name_order(a, b) == NameOrder::Greater <==> name_order(b, a) == NameOrder::Less,
        name_order(a, b) == NameOrder::Equal <==> same_name(a, b),
{
    if a.len() == b.len() {
        lemma_units_order(a, b, 0);
    }
}

/// Index of the first slash of `p` at or after `i`, or the length of `p`.
pub open spec fn next_slash(p: Seq<u16>, i: int) -> int
    decreases p.len() - i,
{
    if i < 0 || i >= p.len() || p[i] == SLASH {
        i
    } else {
        next_slash(p, i + 1)
    }
}

/// The names of the path whose text from `start` on is a run of names that
/// slashes separate, or the fault of the first name that has one.
pub open spec fn names_from(p: Seq<u16>, start: int) -> Result<Seq<Seq<u16>>, Error>
    decreases p.len() - start,
{
    if start < 0 || start > p.len() {
        Ok(Seq::empty())
    } else {
        let end = next_slash(p, start);
        let head = p.subrange(start, end);
        match name_fault(head) {
            Some(e) => Err(e),
            None => if end >= p.len() || end < start {
                Ok(seq![head])
            } else {
                match names_from(p, end + 1) {
                    Ok(rest) => Ok(seq![head] + rest),
                    Err(e) => Err(e),
                }
            },
        }
    }
}

/// The names along a path, from the root down.
pub open spec fn path_names(p: Seq<u16>) -> Result<Seq<Seq<u16>>, Error> {
    if p.len() == 0 || p[0] != SLASH {
        Err(Error::PathNotAbsolute)
    } else if p.len() == 1 {
        Ok(Seq::empty())
    } else {
        names_from(p, 1)
    }
}

/// The views of a list of names.
pub open spec fn names_view(names: Seq<Vec<u16>>) -> Seq<Seq<u16>> {
    Seq::new(names.len(), |i: int| names[i]@)
}

/// The path of a name directly below the root or below another path.
pub open spec fn joined(parent: Seq<u16>, name: Seq<u16>) -> Seq<u16> {
    if parent.len() > 0 && parent.last() == SLASH {
        parent + name
    } else {
        parent + seq![SLASH] + name
    }
}

/// Turns a text into its UTF-16 code units.
pub fn encode_utf16(s: &str) -> (r: Vec<u16>)
    ensures
        r@ == utf16(s@),
{
    let n: usize = s.unicode_len();
    let mut out: Vec<u16> = Vec::new();
    let mut i: usize = 0;
    while i < n
        invariant
            i <= n,
            n == s@.len(),
            out@ == utf16(s@.subrange(0, i as int)),
        decreases n - i,
    {
        let c: char = s.get_char(i);
        let x: u32 = c as u32;
        proof {
            let t = s@.subrange(0, i + 1);
            assert(t.drop_last() =~= s@.subrange(0, i as int));
            assert(t.last() == c);
        }
        if x < 0x1_0000 {
            out.push(x as u16);
            assert(out@ =~= utf16(s@.subrange(0, i as int)) + utf16_of_char(c));
        } else {
            let y: u32 = x - 0x1_0000;
            assert(y < 0x10_0000) by {
                assert(x <= 0x10_ffff);
            }
            out.push((0xd800 + y / 0x400) as u16);
            out.push((0xdc00 + y % 0x400) as u16);
            assert(out@ =~= utf16(s@.subrange(0, i as int)) + utf16_of_char(c));
        }
        i = i + 1;
    }
    assert(s@.subrange(0, n as int) =~= s@);
    out
}

/// Tells whether every code unit of the name is one that a name may hold.
pub fn is_all_allowed(name: &[u16]) -> (r: bool)
    ensures
        r == all_allowed(name@),
{
    let mut i: usize = 0;
    while i < name.len()
        invariant
            i <= name@.len(),
            forall|j: int| 0 <= j < i ==> allowed_unit(#[trigger] name@[j]),
        decreases name@.len() - i,
    {
        let u: u16 = name[i];
        if u == 0x2f || u == 0x5c || u == 0x3a || u == 0x21 || u < 0x20 || (0x7f <= u && u <= 0x9f) {
            assert(!allowed_unit(name@[i as int]));
            return false;
        }
        i = i + 1;
    }
    true
}

/// Checks a name as a component of a path.
pub fn validate_name(name: &[u16]) -> (r: Result<(), Error>)
    ensures
        r == (match name_fault(name@) {
            Some(e) => Err::<(), Error>(e),
            None => Ok(()),
        }),
{
    if name.len() == 0 {
        Err(Error::EmptyName)
    } else if name.len() > MAX_NAME_LEN {
        Err(Error::NameTooLong)
    } else if !is_all_allowed(name) {
        Err(Error::ForbiddenCharacter)
    } else {
        Ok(())
    }
}

/// Orders two names as a directory does.
pub fn compare_names(a: &[u16], b: &[u16]) -> (r: NameOrder)
    ensures
        r == name_order(a@, b@),
{
    if a.len() < b.len() {
        return NameOrder::Less;
    }
    if a.len() > b.len() {
        return NameOrder::Greater;
    }
    let mut i: usize = 0;
    while i < a.len()
        invariant
            i <= a@.len(),
            a@.len() == b@.len(),
            units_order(a@, b@, 0) == units_order(a@, b@, i as int),
        decreases a@.len() - i,
    {
        let x: u16 = to_upper(a[i]);
        let y: u16 = to_upper(b[i]);
        if x < y {
            return NameOrder::Less;
        }
        if x > y {
            return NameOrder::Greater;
        }
        i = i + 1;
    }
    NameOrder::Equal
}

/// Turns a small ASCII letter into its capital and leaves any other code
/// unit as it is.
pub fn to_upper(u: u16) -> (r: u16)
    ensures
        r == upper(u),
{
    if 0x61 <= u && u <= 0x7a {
        u - 0x20
    } else {
        u
    }
}

/// Splits a path into the names along it, from the root down.
pub fn name_chain_from_path(path: &[u16]) -> (r: Result<Vec<Vec<u16>>, Error>)
    ensures
        match r {
            Ok(names) => path_names(path@) == Ok::<Seq<Seq<u16>>, Error>(names_view(names@)),
            Err(e) => path_names(path@) == Err::<Seq<Seq<u16>>, Error>(e),
        },
{
    let n: usize = path.len();
    if n == 0 || path[0] != SLASH {
        return Err(Error::PathNotAbsolute);
    }
    let mut names: Vec<Vec<u16>> = Vec::new();
    if n == 1 {
        assert(names_view(names@) =~= Seq::<Seq<u16>>::empty());
        return Ok(names);
    }
    let mut start: usize = 1;
    loop
        invariant
            1 <= start <= n,
            n == path@.len(),
            n >= 2,
            path@[0] == SLASH,
            names_from(path@, 1) == (match names_from(path@, start as int) {
                Ok(rest) => Ok::<Seq<Seq<u16>>, Error>(names_view(names@) + rest),
                Err(e) => Err(e),
            }),
        decreases n - start + 1,
    {
        let mut end: usize = start;
        let mut name: Vec<u16> = Vec::new();
        while end < n && path[end] != SLASH
            invariant
                start <= end <= n,
                n == path@.len(),
                next_slash(path@, start as int) == next_slash(path@, end as int),
                name@ == path@.subrange(start as int, end as int),
            decreases n - end,
        {
            name.push(path[end]);
            assert(name@ =~= path@.subrange(start as int, end + 1));
            end = end + 1;
        }
        assert(next_slash(path@, start as int) == end);
        match validate_name(name.as_slice()) {
            Err(e) => {
                return Err(e);
            },
            Ok(()) => {},
        }
        let ghost before = names_view(names@);
        names.push(name);
        assert(names_view(names@) =~= before + seq![path@.subrange(start as int, end as int)]);
        if end >= n {
            assert(names_from(path@, start as int) == Ok::<Seq<Seq<u16>>, Error>(
                seq![path@.subrange(start as int, end as int)],
            ));
            return Ok(names);
        }
        proof {
            let head = path@.subrange(start as int, end as int);
            match names_from(path@, end + 1) {
                Ok(rest) => {
                    assert(before + (seq![head] + rest) =~= names_view(names@) + rest);
                },
                Err(e) => {},
            }
        }
        start = end + 1;
    }
}

} // verus!
