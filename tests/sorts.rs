use elementary_sorts::{
    check_sorted, generate_vec, interleave_with_descending, less, shell_start_gap, Bubble,
    Insertion, InsertionWithSentinel, InsertionWithoutExchangesSort, Selection, ShellSort,
    SortAlgorithm,
};

fn get_vec() -> Vec<i32> {
    let mut v: Vec<i32> = Vec::new();
    v.push(1);
    v.push(2);
    v.push(5);
    v.push(3);
    v.push(0);
    v.push(-2);
    v.push(4);

    v
}

fn check(vec: Vec<i32>) {
    assert_eq!(vec[0], -2);
    assert_eq!(vec[1], 0);
    assert_eq!(vec[2], 1);
    assert_eq!(vec[3], 2);
    assert_eq!(vec[4], 3);
    assert_eq!(vec[5], 4);
    assert_eq!(vec[6], 5);
}

fn sorted_copy(v: &[i32]) -> Vec<i32> {
    let mut w = v.to_vec();
    w.sort();
    w
}

fn sort_with(alg: usize, v: &mut Vec<i32>) {
    match alg {
        0 => Bubble::sort(v),
        1 => Selection::sort(v),
        2 => Insertion::sort(v),
        3 => ShellSort::sort(v),
        4 => InsertionWithoutExchangesSort::sort(v),
        _ => InsertionWithSentinel::sort(v),
    }
}

const ALGORITHMS: usize = 6;

#[test]
fn test_bubble() {
    let mut vec = get_vec();

    Bubble::sort(&mut vec);

    check(vec);
}

#[test]
fn test_insertion() {
    let mut vec = get_vec();

    Insertion::sort(&mut vec);

    check(vec);
}

#[test]
fn test_shell() {
    let mut vec = get_vec();

    ShellSort::sort(&mut vec);

    check(vec);
}

#[test]
fn test_insertion_without_exchanges() {
    let mut vec = get_vec();

    InsertionWithoutExchangesSort::sort(&mut vec);

    check(vec);
}

#[test]
fn test_insertion_with_sentinel() {
    let mut vec = get_vec();

    InsertionWithSentinel::sort(&mut vec);

    check(vec);
}

#[test]
fn test_selection() {
    let mut vec = get_vec();

    Selection::sort(&mut vec);

    check(vec);
}

#[test]
fn empty_and_singleton_unchanged() {
    for alg in 0..ALGORITHMS {
        let mut empty: Vec<i32> = Vec::new();
        sort_with(alg, &mut empty);
        assert!(empty.is_empty());

        let mut one = vec![42];
        sort_with(alg, &mut one);
        assert_eq!(one, vec![42]);
    }
}

#[test]
fn duplicates_and_extremes_sorted_permutation() {
    let input = vec![3, i32::MIN, 3, 7, -1, i32::MAX, 3, -1, 0, i32::MIN];
    for alg in 0..ALGORITHMS {
        let mut v = input.clone();
        sort_with(alg, &mut v);
        assert_eq!(v, sorted_copy(&input));
    }
}

#[test]
fn reverse_and_sorted_inputs() {
    let reverse: Vec<i32> = (0..50).rev().collect();
    let ascending: Vec<i32> = (0..50).collect();
    for alg in 0..ALGORITHMS {
        let mut v = reverse.clone();
        sort_with(alg, &mut v);
        assert_eq!(v, ascending);
        let mut w = ascending.clone();
        sort_with(alg, &mut w);
        assert_eq!(w, ascending);
    }
}

#[test]
fn sorting_twice_same_as_once() {
    let input = vec![9, -4, 9, 0, 12, -4, 5];
    for alg in 0..ALGORITHMS {
        let mut once = input.clone();
        sort_with(alg, &mut once);
        let mut twice = once.clone();
        sort_with(alg, &mut twice);
        assert_eq!(once, twice);
    }
}

#[test]
fn generic_element_types() {
    let mut words = vec!["pear", "apple", "fig", "apple"];
    Selection::sort(&mut words);
    assert_eq!(words, vec!["apple", "apple", "fig", "pear"]);

    let mut bytes: Vec<u8> = vec![200, 1, 77];
    ShellSort::sort(&mut bytes);
    assert_eq!(bytes, vec![1, 77, 200]);
}

#[test]
fn shell_start_gap_values() {
    assert_eq!(shell_start_gap(0), 1);
    assert_eq!(shell_start_gap(10), 1);
    assert_eq!(shell_start_gap(13), 1);
    assert_eq!(shell_start_gap(15), 4);
    assert_eq!(shell_start_gap(42), 13);
    assert_eq!(shell_start_gap(6000), 1093);
}

#[test]
fn shell_sort_ten_elements() {
    let input = vec![10, 3, -7, 3, 8, 0, 1, 9, -1, 2];
    let mut v = input.clone();
    ShellSort::sort(&mut v);
    assert_eq!(v, vec![-7, -1, 0, 1, 2, 3, 3, 8, 9, 10]);
}

#[test]
fn shell_sort_large_input() {
    let input: Vec<i32> = (0..500).map(|i| (i * 7919) % 503 - 250).collect();
    let mut v = input.clone();
    ShellSort::sort(&mut v);
    assert_eq!(v, sorted_copy(&input));
}

#[test]
fn check_sorted_cases() {
    assert!(check_sorted(Vec::<i32>::new()));
    assert!(check_sorted(vec![5]));
    assert!(check_sorted(vec![1, 1, 2, 3]));
    assert!(!check_sorted(vec![1, 3, 2]));
    assert!(!check_sorted(vec![2, 1]));
}

#[test]
fn less_is_strict() {
    assert!(less(&1, &2));
    assert!(!less(&2, &2));
    assert!(!less(&3, &2));
}

#[test]
fn interleave_exact_values() {
    let v = interleave_with_descending(&vec![7, -8, 9]);
    assert_eq!(v, vec![7, 3, -8, 2, 9, 1]);
    assert!(interleave_with_descending(&Vec::new()).is_empty());
}

#[test]
fn generated_length_and_descending_run() {
    for n in 0..6usize {
        let v = generate_vec(n);
        assert_eq!(v.len(), 2 * n);
        for i in 0..n {
            assert_eq!(v[2 * i + 1], (n - i) as i32);
        }
        if n >= 2 {
            assert!(!check_sorted(v.clone()));
        }
    }
}

#[test]
fn generated_input_sorted_by_each() {
    for alg in 0..ALGORITHMS {
        let mut v = generate_vec(300);
        let expected = sorted_copy(&v);
        sort_with(alg, &mut v);
        assert!(check_sorted(v.clone()));
        assert_eq!(v, expected);
    }
}
