//! Vertex names as byte strings.

use vstd::prelude::*;

verus! {

/// The byte strings held by a vector of names.
pub open spec fn names_view(v: Seq<Vec<u8>>) -> Seq<Seq<u8>> {
    v.map_values(|x: Vec<u8>| x@)
}

/// Byte equality of two names.
pub fn bytes_eq(a: &[u8], b: &[u8]) -> (r: bool)
    ensures
        r == (a@ == b@),
{
    if a.len() != b.len() {
        return false;
    }
    let mut i: usize = 0;
    while i < a.len()
        invariant
            a@.len() == b@.len(),
            i <= a@.len(),
            forall|k: int| 0 <= k < i ==> a@[k] == b@[k],
        decreases a@.len() - i,
    {
        if a[i] != b[i] {
            return false;
        }
        i = i + 1;
    }
    assert(a@ =~= b@);
    true
}

/// A copy of a name.
pub fn copy_bytes(a: &[u8]) -> (r: Vec<u8>)
    ensures
        r@ == a@,
{
    let mut r: Vec<u8> = Vec::with_capacity(a.len());
    let mut i: usize = 0;
    while i < a.len()
        invariant
            i <= a@.len(),
            r@ == a@.subrange(0, i as int),
        decreases a@.len() - i,
    {
        r.push(a[i]);
        i = i + 1;
        assert(r@ =~= a@.subrange(0, i as int));
    }
    assert(a@.subrange(0, a@.len() as int) =~= a@);
    r
}

/// A copy of a list of names.
pub fn copy_names(a: &Vec<Vec<u8>>) -> (r: Vec<Vec<u8>>)
    ensures
        names_view(r@) == names_view(a@),
{
    let mut r: Vec<Vec<u8>> = Vec::with_capacity(a.len());
    let mut i: usize = 0;
    while i < a.len()
        invariant
            i <= a@.len(),
            names_view(r@) == names_view(a@).subrange(0, i as int),
        decreases a@.len() - i,
    {
        let c = copy_bytes(a[i].as_slice());
        let ghost prev = r@;
        r.push(c);
        proof {
            assert(names_view(r@) =~= names_view(prev).push(a@[i as int]@));
            assert(names_view(a@).subrange(0, i + 1) =~= names_view(a@).subrange(0, i as int).push(
                a@[i as int]@,
            ));
        }
        i = i + 1;
    }
    assert(names_view(a@).subrange(0, a@.len() as int) =~= names_view(a@));
    r
}

/// Position of `v` in `names`, if it is there.
pub fn position(names: &Vec<Vec<u8>>, v: &[u8]) -> (r: Option<usize>)
    ensures
        r matches Some(i) ==> i < names@.len() && names@[i as int]@ == v@,
        r is None ==> !names_view(names@).contains(v@),
{
    let mut i: usize = 0;
    while i < names.len()
        invariant
            i <= names@.len(),
            forall|k: int| 0 <= k < i ==> names@[k]@ != v@,
        decreases names@.len() - i,
    {
        if bytes_eq(names[i].as_slice(), v) {
            return Some(i);
        }
        i = i + 1;
    }
    proof {
        if names_view(names@).contains(v@) {
            let k = choose|k: int| 0 <= k < names_view(names@).len() && names_view(names@)[k] == v@;
            assert(names@[k]@ == v@);
        }
    }
    None
}

} // verus!
