//! Benchmark input: random values interleaved with a descending run.
use crate::order::{le, sorted};
use vstd::prelude::*;

verus! {

/// `v` holds, for each `i < random.len()`, the value `random[i]` followed by
/// `random.len() - i`.
pub open spec fn interleaved_with_descending(random: Seq<i32>, v: Seq<i32>) -> bool {
    &&& v.len() == 2 * random.len()
    &&& forall|i: int| 0 <= i < random.len() ==> #[trigger] v[2 * i] == random[i]
    &&& descending_at_odd(v, random.len())
}

/// The odd positions of `v` hold `n, n - 1, ..., 1`.
pub open spec fn descending_at_odd(v: Seq<i32>, n: nat) -> bool {
    &&& v.len() == 2 * n
    &&& forall|i: int| 0 <= i < n ==> #[trigger] v[2 * i + 1] == n - i
}

/// Relies on `rand::random`: a value drawn from the thread-local generator.
/// Nothing is known of which value comes.
#[verifier::external_body]
fn random_i32() -> (r: i32) {
    rand::random::<i32>()
}

/// Builds the benchmark sequence from the random values it is to hold: each
/// random value is followed by the count of random values from it to the end.
pub fn interleave_with_descending(random: &Vec<i32>) -> (v: Vec<i32>)
    requires
        random.len() <= i32::MAX,
    ensures
        interleaved_with_descending(random@, v@),
{
    let n = random.len();
    let mut v: Vec<i32> = Vec::new();
    let mut i: usize = 0;
    while i < n
        invariant
            n == random@.len(),
            n <= i32::MAX,
            i <= n,
            v@.len() == 2 * i,
            forall|k: int| 0 <= k < i ==> #[trigger] v@[2 * k] == random@[k],
            forall|k: int| 0 <= k < i ==> #[trigger] v@[2 * k + 1] == n - k,
        decreases n - i,
    {
        v.push(random[i]);
        v.push(n as i32 - i as i32);
        i = i + 1;
    }
    v
}

/// A sequence of length `2 * n`: `n` random values, each followed by the
/// descending count `n - i`.
pub fn generate_vec(n: usize) -> (v: Vec<i32>)
    requires
        n <= i32::MAX,
    ensures
        v@.len() == 2 * n,
        descending_at_odd(v@, n as nat),
{
    let mut random: Vec<i32> = Vec::new();
    let mut i: usize = 0;
    while i < n
        invariant
            i <= n,
            random@.len() == i,
        decreases n - i,
    {
        random.push(random_i32());
        i = i + 1;
    }
    interleave_with_descending(&random)
}

/// A sequence that carries the descending run `n, ..., 1` at its odd positions
/// is not sorted once `n` is at least 2, whatever its other values.
pub proof fn lemma_descending_run_not_sorted(v: Seq<i32>, n: nat)
    requires
        n >= 2,
        descending_at_odd(v, n),
    ensures
        !sorted(v),
{
    assert(v[2 * (0 as int) + 1] == n);
    assert(v[2 * (1 as int) + 1] == n - 1);
    assert(!le(v[1], v[3]));
}

} // verus!
