//! Properties that hold of every algorithm, stated over the contract that the
//! algorithms share.
use crate::algorithms::sorted_permutation_of;
use crate::order::{le, lemma_le_reflexive, lemma_le_transitive, lt, sorted};
use vstd::laws_cmp::*;
use vstd::laws_eq::*;
use vstd::multiset::*;
use vstd::prelude::*;
use vstd::seq_lib::*;
use vstd::std_specs::cmp::OrdSpec;
use vstd::std_specs::cmp::PartialEqSpec;
use vstd::std_specs::cmp::PartialOrdSpec;
use core::cmp::Ordering;

verus! {

/// Two values each `le` the other are equal in the order.
pub proof fn lemma_le_antisymmetric<T: Ord>(a: T, b: T)
    requires
        obeys_cmp::<T>(),
        le(a, b),
        le(b, a),
    ensures
        a.eq_spec(&b),
{
    reveal(obeys_partial_cmp_spec_properties);
    reveal(obeys_cmp_ord);
    let o = a.cmp_spec(&b);
    assert(a.partial_cmp_spec(&b) == Some(o));
    if o == Ordering::Less {
        assert(lt(a, b));
    } else if o == Ordering::Greater {
        assert(lt(b, a));
    }
}

/// `a` and `b` are equal in the order: each is `le` the other.
pub open spec fn equivalent<T: Ord>(a: T, b: T) -> bool {
    le(a, b) && le(b, a)
}

proof fn lemma_equivalent_transitive<T: Ord>(a: T, b: T, c: T)
    requires
        obeys_cmp::<T>(),
        equivalent(a, b),
        equivalent(b, c),
    ensures
        equivalent(a, c),
{
    lemma_le_transitive(a, b, c);
    lemma_le_transitive(c, b, a);
}

/// Two sorted sequences that hold the same elements, each as often, agree at
/// every position up to elements that are equal in the order.
pub proof fn lemma_sorted_same_elements_equivalent<T: Ord>(a: Seq<T>, b: Seq<T>)
    requires
        obeys_cmp::<T>(),
        sorted(a),
        sorted(b),
        a.to_multiset() == b.to_multiset(),
    ensures
        a.len() == b.len(),
        forall|i: int| 0 <= i < a.len() ==> #[trigger] equivalent(a[i], b[i]),
    decreases a.len(),
{
    broadcast use group_multiset_axioms, to_multiset_contains, to_multiset_remove, to_multiset_len;

    assert(a.to_multiset().len() == a.len());
    assert(b.to_multiset().len() == b.len());
    if a.len() > 0 {
        assert(a.to_multiset().count(a[0]) > 0);
        assert(b.contains(a[0]));
        let kb = choose|k: int| 0 <= k < b.len() && b[k] == a[0];
        assert(b.to_multiset().count(b[0]) > 0);
        assert(a.contains(b[0]));
        let ka = choose|k: int| 0 <= k < a.len() && a[k] == b[0];
        lemma_le_reflexive(a[0]);
        lemma_le_reflexive(b[0]);
        assert(le(b[0], b[kb]));
        assert(le(a[0], a[ka]));
        let a1 = a.remove(0);
        let b1 = b.remove(kb);
        assert(a1.to_multiset() == a.to_multiset().remove(a[0]));
        assert(b1.to_multiset() == b.to_multiset().remove(b[kb]));
        assert(sorted(a1)) by {
            assert forall|i: int, j: int| 0 <= i < j < a1.len() implies #[trigger] le(a1[i], a1[j]) by {
                assert(le(a[i + 1], a[j + 1]));
            }
        }
        assert(sorted(b1)) by {
            assert forall|i: int, j: int| 0 <= i < j < b1.len() implies #[trigger] le(b1[i], b1[j]) by {
                let bi = if i < kb { i } else { i + 1 };
                let bj = if j < kb { j } else { j + 1 };
                assert(le(b[bi], b[bj]));
            }
        }
        lemma_sorted_same_elements_equivalent(a1, b1);
        assert forall|i: int| 0 <= i < a.len() implies #[trigger] equivalent(a[i], b[i]) by {
            if i > 0 {
                assert(a[i] == a1[i - 1]);
                assert(equivalent(a1[i - 1], b1[i - 1]));
                if i - 1 < kb {
                    assert(b1[i - 1] == b[i - 1]);
                    // b[0] <= b[i - 1] <= b[i] <= b[kb] == a[0] <= b[0]
                    assert(le(b[i - 1], b[i]));
                    assert(le(b[i], b[kb])) by {
                        if i < kb {
                            assert(le(b[i], b[kb]));
                        } else {
                            lemma_le_reflexive(b[i]);
                        }
                    }
                    assert(le(b[0], b[i - 1])) by {
                        if i - 1 > 0 {
                            assert(le(b[0], b[i - 1]));
                        }
                    }
                    lemma_le_transitive(b[i], b[kb], b[0]);
                    lemma_le_transitive(b[i], b[0], b[i - 1]);
                    lemma_equivalent_transitive(a[i], b[i - 1], b[i]);
                } else {
                    assert(b1[i - 1] == b[i]);
                }
            }
        }
    }
}

/// Two sorted sequences that hold the same elements, each as often, are equal,
/// where equality in the order is identity.
pub proof fn lemma_sorted_same_elements_equal<T: Ord>(a: Seq<T>, b: Seq<T>)
    requires
        obeys_cmp::<T>(),
        obeys_concrete_eq::<T>(),
        sorted(a),
        sorted(b),
        a.to_multiset() == b.to_multiset(),
    ensures
        a == b,
{
    reveal(obeys_concrete_eq);
    lemma_sorted_same_elements_equivalent(a, b);
    assert forall|i: int| 0 <= i < a.len() implies a[i] == b[i] by {
        assert(equivalent(a[i], b[i]));
        lemma_le_antisymmetric(a[i], b[i]);
    }
    assert(a =~= b);
}

/// Sorting what a sort returned changes nothing, up to elements that are equal
/// in the order.
pub proof fn lemma_sorting_twice_equivalent_to_once<T: Ord>(
    input: Seq<T>,
    once: Seq<T>,
    twice: Seq<T>,
)
    requires
        obeys_cmp::<T>(),
        sorted_permutation_of(input, once),
        sorted_permutation_of(once, twice),
    ensures
        twice.len() == once.len(),
        forall|i: int| 0 <= i < once.len() ==> #[trigger] equivalent(twice[i], once[i]),
{
    lemma_sorted_same_elements_equivalent(twice, once);
}

/// Sorting what a sort returned changes nothing, where equality in the order
/// is identity (as for the integer types).
pub proof fn lemma_sorting_twice_same_as_once<T: Ord>(input: Seq<T>, once: Seq<T>, twice: Seq<T>)
    requires
        obeys_cmp::<T>(),
        obeys_concrete_eq::<T>(),
        sorted_permutation_of(input, once),
        sorted_permutation_of(once, twice),
    ensures
        twice == once,
{
    lemma_sorted_same_elements_equal(twice, once);
}

/// Sorting an empty or one-element sequence returns it unchanged.
pub proof fn lemma_sort_short_unchanged<T: Ord>(input: Seq<T>, output: Seq<T>)
    requires
        input.len() <= 1,
        sorted_permutation_of(input, output),
    ensures
        output == input,
{
    broadcast use group_multiset_axioms, to_multiset_contains;

    if input.len() == 1 {
        assert(output.to_multiset().count(output[0]) > 0);
        assert(input.contains(output[0]));
    }
    assert(output =~= input);
}

} // verus!
verus! {

/// What any algorithm returns has every adjacent pair in order.
pub proof fn lemma_sorted_output_adjacent_pairs<T: Ord>(input: Seq<T>, output: Seq<T>)
    requires
        obeys_cmp::<T>(),
        sorted_permutation_of(input, output),
    ensures
        forall|i: int| 0 < i < output.len() ==> #[trigger] le(output[i - 1], output[i]),
{
    crate::order::lemma_adjacent_sorted_iff_sorted(output);
}

} // verus!
