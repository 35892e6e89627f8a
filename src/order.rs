//! The total order that every sorting routine relies on, stated over the
//! comparison that `Ord` gives, and the sortedness predicate built from it.
use vstd::laws_cmp::*;
use vstd::laws_eq::*;
use vstd::prelude::*;
use vstd::std_specs::cmp::PartialEqSpec;
use vstd::std_specs::cmp::PartialOrdSpec;
use vstd::std_specs::cmp::OrdSpec;
use core::cmp::Ordering;

verus! {

/// `a` strictly precedes `b` in the order of `T`.
pub open spec fn lt<T: Ord>(a: T, b: T) -> bool {
    a.partial_cmp_spec(&b) == Some(Ordering::Less)
}

/// `a` does not follow `b`: the order that a sorted sequence keeps.
pub open spec fn le<T: Ord>(a: T, b: T) -> bool {
    !lt(b, a)
}

/// Every element is `le` every element to its right.
pub open spec fn sorted<T: Ord>(s: Seq<T>) -> bool {
    forall|i: int, j: int| 0 <= i < j < s.len() ==> #[trigger] le(s[i], s[j])
}

/// Every adjacent pair is in order.
pub open spec fn adjacent_sorted<T: Ord>(s: Seq<T>) -> bool {
    forall|i: int| 0 < i < s.len() ==> #[trigger] le(s[i - 1], s[i])
}

/// Strict precedence is asymmetric.
pub proof fn lemma_lt_asymmetric<T: Ord>(a: T, b: T)
    requires
        obeys_cmp::<T>(),
        lt(a, b),
    ensures
        !lt(b, a),
{
    reveal(obeys_partial_cmp_spec_properties);
}

/// `le` is transitive.
pub proof fn lemma_le_transitive<T: Ord>(a: T, b: T, c: T)
    requires
        obeys_cmp::<T>(),
        le(a, b),
        le(b, c),
    ensures
        le(a, c),
{
    reveal(obeys_partial_cmp_spec_properties);
    reveal(obeys_cmp_ord);
    reveal(obeys_eq_spec_properties);
    if lt(c, a) {
        // a is Less or Equal to b, and b is Less or Equal to c.
        let ab = a.cmp_spec(&b);
        let bc = b.cmp_spec(&c);
        assert(a.partial_cmp_spec(&b) == Some(ab));
        assert(b.partial_cmp_spec(&c) == Some(bc));
        assert(c.partial_cmp_spec(&a) == Some(Ordering::Less));
        assert(a.partial_cmp_spec(&c) == Some(Ordering::Greater));
        if ab == Ordering::Greater {
            assert(b.partial_cmp_spec(&a) == Some(Ordering::Less));
        }
        if bc == Ordering::Greater {
            assert(c.partial_cmp_spec(&b) == Some(Ordering::Less));
        }
        if ab == Ordering::Less && bc == Ordering::Less {
            assert(a.partial_cmp_spec(&c) == Some(Ordering::Less));
        } else if ab == Ordering::Less {
            // b equals c, so c < a < b gives c < b
            assert(b.eq_spec(&c));
            assert(c.partial_cmp_spec(&b) == Some(Ordering::Less));
        } else if bc == Ordering::Less {
            assert(a.eq_spec(&b));
            assert(c.partial_cmp_spec(&a) == Some(Ordering::Less));
            let cb = c.cmp_spec(&b);
            assert(c.partial_cmp_spec(&b) == Some(cb));
            if cb == Ordering::Equal {
                assert(c.eq_spec(&b));
                assert(c.eq_spec(&a));
            } else if cb == Ordering::Greater {
                assert(b.partial_cmp_spec(&c) == Some(Ordering::Less));
                assert(b.partial_cmp_spec(&a) == Some(Ordering::Less));
            }
        } else {
            assert(a.eq_spec(&b));
            assert(b.eq_spec(&c));
            assert(a.eq_spec(&c));
        }
    }
}

/// Strict precedence implies `le`.
pub proof fn lemma_lt_le<T: Ord>(a: T, b: T)
    requires
        obeys_cmp::<T>(),
        lt(a, b),
    ensures
        le(a, b),
{
    lemma_lt_asymmetric(a, b);
}

/// Every value is `le` itself.
pub proof fn lemma_le_reflexive<T: Ord>(a: T)
    requires
        obeys_cmp::<T>(),
    ensures
        le(a, a),
{
    reveal(obeys_partial_cmp_spec_properties);
    if lt(a, a) {
        lemma_lt_asymmetric(a, a);
    }
}

/// A sequence whose adjacent pairs are in order is sorted, and back.
pub proof fn lemma_adjacent_sorted_iff_sorted<T: Ord>(s: Seq<T>)
    requires
        obeys_cmp::<T>(),
    ensures
        adjacent_sorted(s) <==> sorted(s),
{
    if adjacent_sorted(s) {
        assert forall|i: int, j: int| 0 <= i < j < s.len() implies #[trigger] le(s[i], s[j]) by {
            lemma_adjacent_chain(s, i, j);
        }
    }
    if sorted(s) {
        assert forall|i: int| 0 < i < s.len() implies #[trigger] le(s[i - 1], s[i]) by {
            assert(le(s[i - 1], s[i]));
        }
    }
}

proof fn lemma_adjacent_chain<T: Ord>(s: Seq<T>, i: int, j: int)
    requires
        obeys_cmp::<T>(),
        adjacent_sorted(s),
        0 <= i < j < s.len(),
    ensures
        le(s[i], s[j]),
    decreases j - i,
{
    assert(le(s[j - 1], s[j]));
    if i < j - 1 {
        lemma_adjacent_chain(s, i, j - 1);
        lemma_le_transitive(s[i], s[j - 1], s[j]);
    }
}

/// Whether `a` strictly precedes `b`.
pub fn less<T: Ord>(a: &T, b: &T) -> (r: bool)
    requires
        obeys_cmp::<T>(),
    ensures
        r == lt(*a, *b),
{
    reveal(obeys_cmp_partial_ord);
    *a < *b
}

/// Scans once from the left and reports whether no adjacent pair is out of order.
pub fn check_sorted<T: Ord>(vec: Vec<T>) -> (r: bool)
    requires
        obeys_cmp::<T>(),
    ensures
        r == sorted(vec@),
{
    let n = vec.len();
    let mut i: usize = 1;
    while i < n
        invariant
            1 <= i,
            obeys_cmp::<T>(),
            n == vec@.len(),
            forall|k: int| 0 < k < i && k < n ==> #[trigger] le(vec@[k - 1], vec@[k]),
        decreases n - i,
    {
        if less(&vec[i], &vec[i - 1]) {
            proof {
                lemma_adjacent_sorted_iff_sorted(vec@);
                assert(!le(vec@[i - 1], vec@[i as int]));
            }
            return false;
        }
        i = i + 1;
    }
    proof {
        lemma_adjacent_sorted_iff_sorted(vec@);
    }
    true
}

} // verus!
