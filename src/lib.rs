//! Elementary in-place sorting algorithms over any totally ordered element
//! type, each proved to leave its input a sorted permutation of itself, with
//! the input generator and the sortedness check of a small benchmark.
pub mod algorithms;
pub mod exchange;
pub mod generate;
pub mod insertion;
pub mod laws;
pub mod order;

pub use algorithms::{
    shell_start_gap, Bubble, Insertion, InsertionWithSentinel, InsertionWithoutExchangesSort,
    Selection, ShellSort, SortAlgorithm,
};
pub use generate::{generate_vec, interleave_with_descending};
pub use order::{check_sorted, less};
