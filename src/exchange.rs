//! The moves that the sorting routines make on a sequence: exchanging two
//! positions, and rotating a range right by one. Both keep the multiset of
//! elements.
use vstd::prelude::*;
use vstd::seq_lib::*;
use vstd::multiset::*;

verus! {

/// The sequence with positions `a` and `b` exchanged.
pub open spec fn swapped<T>(s: Seq<T>, a: int, b: int) -> Seq<T> {
    s.update(a, s[b]).update(b, s[a])
}

/// The sequence with the range `[j, i]` rotated right by one: `s[i]` moves to
/// position `j` and `s[j..i]` moves one place right.
pub open spec fn rotated<T>(s: Seq<T>, j: int, i: int) -> Seq<T> {
    s.subrange(0, j) + seq![s[i]] + s.subrange(j, i) + s.subrange(i + 1, s.len() as int)
}

/// Relies on `<[T]>::swap`: exchanges the elements at `a` and `b` (it panics
/// only when one of them is out of bounds).
#[verifier::external_body]
pub(crate) fn exch<T>(vec: &mut Vec<T>, a: usize, b: usize)
    requires
        a < old(vec).len(),
        b < old(vec).len(),
    ensures
        final(vec)@ == swapped(old(vec)@, a as int, b as int),
{
    vec.swap(a, b);
}

/// Relies on `<[T]>::rotate_right` with a count of one, on the subslice
/// `[j, i]`: its last element moves to its front and the others move one place
/// right (it panics only when the count exceeds the subslice's length).
#[verifier::external_body]
pub(crate) fn rotate_right_one<T>(vec: &mut Vec<T>, j: usize, i: usize)
    requires
        j <= i < old(vec).len(),
    ensures
        final(vec)@ == rotated(old(vec)@, j as int, i as int),
{
    vec[j..=i].rotate_right(1);
}

/// Exchanging two positions keeps the multiset of elements.
pub proof fn lemma_swapped_multiset<T>(s: Seq<T>, a: int, b: int)
    requires
        0 <= a < s.len(),
        0 <= b < s.len(),
    ensures
        swapped(s, a, b).to_multiset() == s.to_multiset(),
        swapped(s, a, b).len() == s.len(),
{
    broadcast use group_multiset_axioms, group_multiset_properties, to_multiset_update, to_multiset_contains;

    let s1 = s.update(a, s[b]);
    assert(s1[b] == s[b] || a == b);
    assert(s1.to_multiset() == s.to_multiset().insert(s[b]).remove(s[a]));
    assert(swapped(s, a, b).to_multiset() == s1.to_multiset().insert(s[a]).remove(s1[b]));
    if a == b {
        assert(swapped(s, a, b) =~= s);
    } else {
        assert(s.to_multiset().count(s[a]) > 0);
        assert(swapped(s, a, b).to_multiset() =~= s.to_multiset());
    }
}

/// Rotating a range keeps the multiset of elements.
pub proof fn lemma_rotated_multiset<T>(s: Seq<T>, j: int, i: int)
    requires
        0 <= j <= i < s.len(),
    ensures
        rotated(s, j, i).to_multiset() == s.to_multiset(),
        rotated(s, j, i).len() == s.len(),
{
    broadcast use group_multiset_axioms, lemma_multiset_commutative;

    let pre = s.subrange(0, j);
    let mid = s.subrange(j, i);
    let one = seq![s[i]];
    let post = s.subrange(i + 1, s.len() as int);
    assert(s =~= pre + mid + one + post);
    assert(rotated(s, j, i) =~= pre + one + mid + post);
    assert((pre + one + mid + post).to_multiset() =~= (pre + mid + one + post).to_multiset());
}

} // verus!
