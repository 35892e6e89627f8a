//! The sorting algorithms. Each sorts a vector in place and is proved to leave
//! it a sorted permutation of what it held.
use crate::exchange::{exch, lemma_rotated_multiset, lemma_swapped_multiset, rotate_right_one, rotated, swapped};
use crate::insertion::{carrying, lemma_carry_done, lemma_carry_start, lemma_carry_step};
use crate::order::{le, lemma_le_reflexive, lemma_le_transitive, lemma_lt_le, less, lt, sorted};
use vstd::laws_cmp::obeys_cmp;
use vstd::prelude::*;

verus! {

/// `after` holds the elements of `before`, each as often, in sorted order.
pub open spec fn sorted_permutation_of<T: Ord>(before: Seq<T>, after: Seq<T>) -> bool {
    &&& after.len() == before.len()
    &&& after.to_multiset() == before.to_multiset()
    &&& sorted(after)
}

/// An in-place sorting algorithm over any totally ordered element type.
pub trait SortAlgorithm {
    /// Reorders `vec` so that it is non-decreasing, keeping its elements.
    fn sort<T: Ord>(vec: &mut Vec<T>)
        requires
            obeys_cmp::<T>(),
        ensures
            sorted_permutation_of(old(vec)@, final(vec)@),
    ;
}

/// Bubble sort: `n` left-to-right passes, each exchanging every adjacent pair
/// that is out of order. It makes all passes even on sorted input.
pub struct Bubble {}

/// Selection sort: each position in turn receives the first minimum of the
/// unsorted remainder.
pub struct Selection {}

/// Shellsort: gapped insertion passes with the gaps 1, 4, 13, 40, ... taken
/// from the largest below a third of the length down to 1.
pub struct ShellSort {}

/// Insertion sort: each element is exchanged leftwards until it is in order.
pub struct Insertion {}

/// Insertion sort that first moves the minimum to the front, so that the
/// inner loop needs no check for the left end.
pub struct InsertionWithSentinel {}

/// Insertion sort that finds each element's place first and then moves it
/// there with one rotation instead of a run of exchanges.
pub struct InsertionWithoutExchangesSort {}

/// Every pair whose right position is at or after `m` is in order: the suffix
/// from `m` is sorted and holds no element smaller than one before it.
pub open spec fn settled_from<T: Ord>(s: Seq<T>, m: int) -> bool {
    forall|a: int, b: int| 0 <= a < b < s.len() && m <= b ==> #[trigger] le(s[a], s[b])
}

/// Every pair whose left position is before `m` is in order: the prefix up to
/// `m` is sorted and holds no element larger than one after it.
pub open spec fn settled_before<T: Ord>(s: Seq<T>, m: int) -> bool {
    forall|a: int, b: int| 0 <= a < b < s.len() && a < m ==> #[trigger] le(s[a], s[b])
}

impl SortAlgorithm for Bubble {
    fn sort<T: Ord>(vec: &mut Vec<T>) {
        let n = vec.len();
        let mut pass: usize = 0;
        while pass < n
            invariant
                obeys_cmp::<T>(),
                n == vec@.len(),
                pass <= n,
                settled_from(vec@, n - pass),
                vec@.to_multiset() == old(vec)@.to_multiset(),
            decreases n - pass,
        {
            let ghost m = n - pass;
            let mut i: usize = 1;
            proof {
                lemma_le_reflexive(vec@[0]);
            }
            while i < n
                invariant
                    obeys_cmp::<T>(),
                    n == vec@.len(),
                    1 <= i <= n,
                    1 <= m <= n,
                    settled_from(vec@, m),
                    forall|k: int| 0 <= k < i ==> #[trigger] le(vec@[k], vec@[i - 1]),
                    i >= m ==> forall|k: int| 0 <= k < m ==> #[trigger] le(vec@[k], vec@[m - 1]),
                    vec@.to_multiset() == old(vec)@.to_multiset(),
                decreases n - i,
            {
                let ghost s = vec@;
                if less(&vec[i], &vec[i - 1]) {
                    assert(i < m) by {
                        if i >= m {
                            assert(le(s[i - 1], s[i as int]));
                        }
                    }
                    proof {
                        lemma_swapped_multiset(s, i as int, i - 1);
                        lemma_lt_le(s[i as int], s[i - 1]);
                    }
                    exch(vec, i, i - 1);
                    proof {
                        let t = vec@;
                        assert forall|a: int, b: int|
                            0 <= a < b < t.len() && m <= b implies #[trigger] le(t[a], t[b]) by {
                            if a == i {
                                assert(le(s[i - 1], s[b]));
                            } else if a == i - 1 {
                                assert(le(s[i as int], s[b]));
                            } else {
                                assert(le(s[a], s[b]));
                            }
                        }
                        assert forall|k: int| 0 <= k < i + 1 implies #[trigger] le(t[k], t[i as int]) by {
                            if k < i - 1 {
                                assert(le(s[k], s[i - 1]));
                            } else if k == i {
                                lemma_le_reflexive(t[k]);
                            }
                        }
                    }
                } else {
                    proof {
                        assert forall|k: int| 0 <= k < i + 1 implies #[trigger] le(s[k], s[i as int]) by {
                            if k < i - 1 {
                                assert(le(s[k], s[i - 1]));
                                lemma_le_transitive(s[k], s[i - 1], s[i as int]);
                            } else if k == i {
                                lemma_le_reflexive(s[k]);
                            }
                        }
                    }
                }
                i = i + 1;
            }
            proof {
                let t = vec@;
                assert forall|a: int, b: int|
                    0 <= a < b < t.len() && m - 1 <= b implies #[trigger] le(t[a], t[b]) by {
                    if b == m - 1 {
                        assert(le(t[a], t[m - 1]));
                    }
                }
            }
            pass = pass + 1;
        }
        assert(sorted(vec@));
    }
}

impl SortAlgorithm for Selection {
    fn sort<T: Ord>(vec: &mut Vec<T>) {
        let n = vec.len();
        let mut i: usize = 0;
        while i < n
            invariant
                obeys_cmp::<T>(),
                n == vec@.len(),
                i <= n,
                settled_before(vec@, i as int),
                vec@.to_multiset() == old(vec)@.to_multiset(),
            decreases n - i,
        {
            let mut min_index: usize = i;
            let mut j: usize = i + 1;
            proof {
                lemma_le_reflexive(vec@[i as int]);
            }
            while j < n
                invariant
                    obeys_cmp::<T>(),
                    n == vec@.len(),
                    i <= min_index < j <= n,
                    forall|k: int| i <= k < j ==> #[trigger] le(vec@[min_index as int], vec@[k]),
                decreases n - j,
            {
                if less(&vec[j], &vec[min_index]) {
                    proof {
                        lemma_lt_le(vec@[j as int], vec@[min_index as int]);
                        assert forall|k: int| i <= k <= j implies #[trigger] le(vec@[j as int], vec@[k]) by {
                            if k < j {
                                lemma_le_transitive(vec@[j as int], vec@[min_index as int], vec@[k]);
                            } else {
                                lemma_le_reflexive(vec@[k]);
                            }
                        }
                    }
                    min_index = j;
                }
                j = j + 1;
            }
            let ghost s = vec@;
            proof {
                lemma_swapped_multiset(s, min_index as int, i as int);
            }
            exch(vec, min_index, i);
            proof {
                let t = vec@;
                assert forall|a: int, b: int|
                    0 <= a < b < t.len() && a < i + 1 implies #[trigger] le(t[a], t[b]) by {
                    if a == i {
                        if b == min_index {
                            assert(le(s[min_index as int], s[i as int]));
                        } else {
                            assert(le(s[min_index as int], s[b]));
                        }
                    } else if b == min_index {
                        assert(le(s[a], s[i as int]));
                    } else if b == i {
                        assert(le(s[a], s[min_index as int]));
                    } else {
                        assert(le(s[a], s[b]));
                    }
                }
            }
            i = i + 1;
        }
        assert(sorted(vec@));
    }
}

/// The `k`-th gap of shellsort: 1, 4, 13, 40, ...
pub open spec fn knuth_gap(k: nat) -> nat
    decreases k,
{
    if k == 0 {
        1
    } else {
        3 * knuth_gap((k - 1) as nat) + 1
    }
}

/// The gap that shellsort starts from on a sequence of length `n`: the largest
/// gap below `n / 3`, or 1 where none is.
pub open spec fn is_start_gap(n: nat, h: nat) -> bool {
    exists|k: nat|
        h == #[trigger] knuth_gap(k) && (k == 0 || h < n / 3) && knuth_gap(k + 1) >= n / 3
}

/// The gap that shellsort starts from on a sequence of length `n`.
pub fn shell_start_gap(n: usize) -> (h: usize)
    ensures
        is_start_gap(n as nat, h as nat),
{
    let mut h: usize = 1;
    let ghost mut k: nat = 0;
    while 3 * h + 1 < n / 3
        invariant
            h == knuth_gap(k),
            k == 0 || h < n / 3,
            h == 1 || h < n / 3,
        decreases n / 3 - h,
    {
        h = 3 * h + 1;
        proof {
            k = k + 1;
        }
    }
    h
}

/// One gapped insertion pass: every chain of elements `h` apart is sorted by
/// insertion. It keeps the elements.
fn gapped_pass<T: Ord>(vec: &mut Vec<T>, h: usize)
    requires
        obeys_cmp::<T>(),
        h >= 1,
    ensures
        final(vec)@.len() == old(vec)@.len(),
        final(vec)@.to_multiset() == old(vec)@.to_multiset(),
{
    let n = vec.len();
    let mut i: usize = h;
    while i < n
        invariant
            obeys_cmp::<T>(),
            h >= 1,
            n == vec@.len(),
            vec@.to_multiset() == old(vec)@.to_multiset(),
        decreases n - i,
    {
        let mut j: usize = i;
        while j >= h && less(&vec[j], &vec[j - h])
            invariant
                obeys_cmp::<T>(),
                h >= 1,
                j < n,
                n == vec@.len(),
                vec@.to_multiset() == old(vec)@.to_multiset(),
            decreases j,
        {
            proof {
                lemma_swapped_multiset(vec@, j as int, j - h);
            }
            exch(vec, j, j - h);
            j = j - h;
        }
        i = i + 1;
    }
}

impl SortAlgorithm for ShellSort {
    /// The passes with gaps above 1 only prepare the input; the last pass,
    /// with gap 1, is a plain insertion sort and leaves it sorted.
    fn sort<T: Ord>(vec: &mut Vec<T>) {
        let n = vec.len();
        let mut h: usize = shell_start_gap(n);
        let ghost mut k: nat = choose|k: nat| h == #[trigger] knuth_gap(k);
        while h > 1
            invariant
                obeys_cmp::<T>(),
                h == knuth_gap(k),
                vec@.len() == old(vec)@.len(),
                vec@.to_multiset() == old(vec)@.to_multiset(),
            decreases h,
        {
            gapped_pass(vec, h);
            proof {
                assert(k > 0);
                k = (k - 1) as nat;
            }
            h = h / 3;
        }
        Insertion::sort(vec);
    }
}

impl SortAlgorithm for Insertion {
    fn sort<T: Ord>(vec: &mut Vec<T>) {
        let n = vec.len();
        let mut i: usize = 1;
        while i < n
            invariant
                obeys_cmp::<T>(),
                n == vec@.len(),
                1 <= i,
                n > 0 ==> i <= n && sorted(vec@.subrange(0, i as int)),
                vec@.to_multiset() == old(vec)@.to_multiset(),
            decreases n - i,
        {
            let mut j: usize = i;
            proof {
                lemma_carry_start(vec@, i as int);
            }
            while j > 0 && less(&vec[j], &vec[j - 1])
                invariant
                    obeys_cmp::<T>(),
                    n == vec@.len(),
                    j <= i < n,
                    carrying(vec@, j as int, i as int),
                    vec@.to_multiset() == old(vec)@.to_multiset(),
                decreases j,
            {
                proof {
                    lemma_carry_step(vec@, j as int, i as int);
                    lemma_swapped_multiset(vec@, j as int, j - 1);
                }
                exch(vec, j, j - 1);
                j = j - 1;
            }
            proof {
                lemma_carry_done(vec@, j as int, i as int);
            }
            i = i + 1;
        }
        assert(n > 0 ==> vec@.subrange(0, n as int) =~= vec@);
    }
}

impl SortAlgorithm for InsertionWithSentinel {
    fn sort<T: Ord>(vec: &mut Vec<T>) {
        let n = vec.len();
        if n == 0 {
            return;
        }
        let mut min_index: usize = 0;
        let mut i: usize = 1;
        proof {
            lemma_le_reflexive(vec@[0]);
        }
        while i < n
            invariant
                obeys_cmp::<T>(),
                n == vec@.len(),
                min_index < i <= n,
                forall|k: int| 0 <= k < i ==> #[trigger] le(vec@[min_index as int], vec@[k]),
            decreases n - i,
        {
            if less(&vec[i], &vec[min_index]) {
                proof {
                    lemma_lt_le(vec@[i as int], vec@[min_index as int]);
                    assert forall|k: int| 0 <= k <= i implies #[trigger] le(vec@[i as int], vec@[k]) by {
                        if k < i {
                            lemma_le_transitive(vec@[i as int], vec@[min_index as int], vec@[k]);
                        } else {
                            lemma_le_reflexive(vec@[k]);
                        }
                    }
                }
                min_index = i;
            }
            i = i + 1;
        }
        proof {
            lemma_swapped_multiset(vec@, 0, min_index as int);
        }
        exch(vec, 0, min_index);
        assert(forall|k: int| 0 <= k < n ==> #[trigger] le(vec@[0], vec@[k]));
        let mut i: usize = 1;
        while i < n
            invariant
                obeys_cmp::<T>(),
                n == vec@.len(),
                1 <= i <= n,
                sorted(vec@.subrange(0, i as int)),
                forall|k: int| 0 <= k < n ==> #[trigger] le(vec@[0], vec@[k]),
                vec@.to_multiset() == old(vec)@.to_multiset(),
            decreases n - i,
        {
            let mut j: usize = i;
            proof {
                lemma_carry_start(vec@, i as int);
            }
            while less(&vec[j], &vec[j - 1])
                invariant
                    obeys_cmp::<T>(),
                    n == vec@.len(),
                    1 <= j <= i < n,
                    carrying(vec@, j as int, i as int),
                    forall|k: int| 0 <= k < n ==> #[trigger] le(vec@[0], vec@[k]),
                    vec@.to_multiset() == old(vec)@.to_multiset(),
                decreases j,
            {
                let ghost s = vec@;
                assert(le(s[0], s[j as int]));
                proof {
                    lemma_carry_step(s, j as int, i as int);
                    lemma_swapped_multiset(s, j as int, j - 1);
                }
                exch(vec, j, j - 1);
                j = j - 1;
                assert forall|k: int| 0 <= k < n implies #[trigger] le(vec@[0], vec@[k]) by {
                    if k == j {
                        assert(le(s[0], s[j + 1]));
                    } else if k == j + 1 {
                        assert(le(s[0], s[k - 1]));
                    } else {
                        assert(le(s[0], s[k]));
                    }
                }
            }
            proof {
                lemma_carry_done(vec@, j as int, i as int);
            }
            i = i + 1;
        }
        assert(vec@.subrange(0, n as int) =~= vec@);
    }
}

impl SortAlgorithm for InsertionWithoutExchangesSort {
    fn sort<T: Ord>(vec: &mut Vec<T>) {
        let n = vec.len();
        let mut i: usize = 1;
        while i < n
            invariant
                obeys_cmp::<T>(),
                n == vec@.len(),
                1 <= i,
                n > 0 ==> i <= n && sorted(vec@.subrange(0, i as int)),
                vec@.to_multiset() == old(vec)@.to_multiset(),
            decreases n - i,
        {
            let mut j: usize = i;
            while j > 0 && less(&vec[i], &vec[j - 1])
                invariant
                    obeys_cmp::<T>(),
                    n == vec@.len(),
                    j <= i < n,
                    forall|k: int| j <= k < i ==> #[trigger] lt(vec@[i as int], vec@[k]),
                decreases j,
            {
                j = j - 1;
            }
            let ghost s = vec@;
            proof {
                lemma_rotated_multiset(s, j as int, i as int);
            }
            rotate_right_one(vec, j, i);
            proof {
                let t = vec@;
                let p = s.subrange(0, i as int);
                assert forall|a: int, b: int|
                    0 <= a < b <= i && a != j && b != j implies #[trigger] le(t[a], t[b]) by {
                    if b < j {
                        assert(le(p[a], p[b]));
                    } else if a < j {
                        assert(le(p[a], p[b - 1]));
                    } else {
                        assert(le(p[a - 1], p[b - 1]));
                    }
                }
                assert forall|b: int| j < b <= i implies #[trigger] le(t[j as int], t[b]) by {
                    assert(lt(s[i as int], s[b - 1]));
                    lemma_lt_le(s[i as int], s[b - 1]);
                }
                lemma_carry_done(t, j as int, i as int);
            }
            i = i + 1;
        }
        assert(n > 0 ==> vec@.subrange(0, n as int) =~= vec@);
    }
}

} // verus!
