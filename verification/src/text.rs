//! Character-level helpers shared by the parsers.

use vstd::prelude::*;

verus! {

/// The characters of `s`, in order.
pub(crate) fn chars_of(s: &str) -> (v: Vec<char>)
    ensures
        v@ == s@,
{
    let mut v: Vec<char> = Vec::new();
    for c in it: s.chars()
        invariant
            v@ == it.seq().take(it.index()),
    {
        v.push(c);
        assert(v@ =~= it.seq().take(it.index() + 1));
    }
    v
}


/// The characters `v[start..end]`.
pub(crate) fn sub_chars(v: &Vec<char>, start: usize, end: usize) -> (r: Vec<char>)
    requires
        start <= end <= v@.len(),
    ensures
        r@ == v@.subrange(start as int, end as int),
{
    let mut r: Vec<char> = Vec::new();
    let mut i = start;
    while i < end
        invariant
            start <= i <= end <= v@.len(),
            r@ == v@.subrange(start as int, i as int),
        decreases end - i,
    {
        r.push(v[i]);
        i += 1;
        assert(r@ =~= v@.subrange(start as int, i as int));
    }
    r
}

/// Whether the characters `a` spell out `b` exactly.
pub(crate) fn chars_eq_str(a: &Vec<char>, b: &str) -> (r: bool)
    ensures
        r == (a@ == b@),
{
    let bv = chars_of(b);
    if a.len() != bv.len() {
        return false;
    }
    let mut i: usize = 0;
    while i < a.len()
        invariant
            a@.len() == bv@.len(),
            bv@ == b@,
            i <= a@.len(),
            forall|j: int| 0 <= j < i ==> a@[j] == bv@[j],
        decreases a@.len() - i,
    {
        if a[i] != bv[i] {
            assert(a@[i as int] != bv@[i as int]);
            return false;
        }
        i += 1;
    }
    assert(a@ =~= bv@);
    true
}

/// Whether `c` occurs in `v`.
pub(crate) fn chars_contain(v: &Vec<char>, c: char) -> (r: bool)
    ensures
        r == v@.contains(c),
{
    let mut i: usize = 0;
    while i < v.len()
        invariant
            i <= v@.len(),
            forall|j: int| 0 <= j < i ==> v@[j] != c,
        decreases v@.len() - i,
    {
        if v[i] == c {
            assert(v@[i as int] == c);
            return true;
        }
        i += 1;
    }
    false
}

/// A `String` holding the characters of `v`, through `FromIterator<&char>`
/// for `String` in std: the characters are collected in order.
#[verifier::external_body]
pub(crate) fn string_from_chars(v: &Vec<char>) -> (s: String)
    ensures
        s@ == v@,
{
    v.iter().collect()
}

} // verus!
