//! Proof facts about one step of insertion: carrying an element leftwards
//! through a sorted prefix.
use crate::exchange::swapped;
use crate::order::{le, lemma_le_transitive, lemma_lt_le, lt, sorted};
use vstd::laws_cmp::*;
use vstd::prelude::*;

verus! {

/// Within `[0, i]`, every pair that does not involve position `j` is in order,
/// and the element at `j` is `le` everything in `(j, i]`.
pub open spec fn carrying<T: Ord>(s: Seq<T>, j: int, i: int) -> bool {
    &&& 0 <= j <= i < s.len()
    &&& forall|a: int, b: int|
        0 <= a < b <= i && a != j && b != j ==> #[trigger] le(s[a], s[b])
    &&& forall|b: int| j < b <= i ==> #[trigger] le(s[j], s[b])
}

/// A sorted prefix `[0, i)` with any element at `i` starts a carry at `i`.
pub proof fn lemma_carry_start<T: Ord>(s: Seq<T>, i: int)
    requires
        0 <= i < s.len(),
        sorted(s.subrange(0, i)),
    ensures
        carrying(s, i, i),
{
    assert forall|a: int, b: int| 0 <= a < b <= i && a != i && b != i implies #[trigger] le(
        s[a],
        s[b],
    ) by {
        assert(le(s.subrange(0, i)[a], s.subrange(0, i)[b]));
    }
}

/// Exchanging the carried element with a larger left neighbour moves the carry
/// one place left.
pub proof fn lemma_carry_step<T: Ord>(s: Seq<T>, j: int, i: int)
    requires
        obeys_cmp::<T>(),
        carrying(s, j, i),
        0 < j,
        lt(s[j], s[j - 1]),
    ensures
        carrying(swapped(s, j, j - 1), j - 1, i),
{
    let t = swapped(s, j, j - 1);
    lemma_lt_le(s[j], s[j - 1]);
    assert forall|a: int, b: int| 0 <= a < b <= i && a != j - 1 && b != j - 1 implies #[trigger] le(
        t[a],
        t[b],
    ) by {
        if b == j {
            assert(le(s[a], s[j - 1]));
        } else if a == j {
            assert(le(s[j - 1], s[b]));
        } else {
            assert(le(s[a], s[b]));
        }
    }
    assert forall|b: int| j - 1 < b <= i implies #[trigger] le(t[j - 1], t[b]) by {
        if b > j {
            assert(le(s[j], s[b]));
        }
    }
}

/// A carry that stops at the start, or next to a left neighbour that is `le`
/// the carried element, leaves `[0, i]` sorted.
pub proof fn lemma_carry_done<T: Ord>(s: Seq<T>, j: int, i: int)
    requires
        obeys_cmp::<T>(),
        carrying(s, j, i),
        j == 0 || le(s[j - 1], s[j]),
    ensures
        sorted(s.subrange(0, i + 1)),
{
    let p = s.subrange(0, i + 1);
    assert forall|a: int, b: int| 0 <= a < b < p.len() implies #[trigger] le(p[a], p[b]) by {
        if b == j {
            if a < j - 1 {
                assert(le(s[a], s[j - 1]));
                lemma_le_transitive(s[a], s[j - 1], s[j]);
            }
        } else if a == j {
            assert(le(s[j], s[b]));
        } else {
            assert(le(s[a], s[b]));
        }
    }
}

} // verus!
