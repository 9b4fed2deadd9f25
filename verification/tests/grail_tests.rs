use wikisort::{grail_sort, grail_sort_by, grail_sort_with_dynamic_buffer, grail_sort_with_static_buffer, rec_stable_sort};
use wikisort::grail::{grail_multi_swap, grail_rotate};

fn pseudo_random(n: usize, modulus: u64, seed: u64) -> Vec<u64> {
    let mut state = seed;
    let mut out = Vec::with_capacity(n);
    for _ in 0..n {
        state = state.wrapping_mul(6364136223846793005).wrapping_add(1442695040888963407);
        out.push((state >> 33) % modulus);
    }
    out
}

fn sorted_copy(keys: &[u64]) -> Vec<u64> {
    let mut v = keys.to_vec();
    v.sort();
    v
}

/// Items that compare by their key alone but remember their position.
#[derive(Debug, Clone, Copy)]
struct Tagged {
    key: u64,
    pos: usize,
}

impl PartialEq for Tagged {
    fn eq(&self, other: &Self) -> bool {
        self.key == other.key
    }
}

impl Eq for Tagged {}

impl PartialOrd for Tagged {
    fn partial_cmp(&self, other: &Self) -> Option<std::cmp::Ordering> {
        Some(self.cmp(other))
    }
}

impl Ord for Tagged {
    fn cmp(&self, other: &Self) -> std::cmp::Ordering {
        self.key.cmp(&other.key)
    }
}

fn tagged(keys: &[u64]) -> Vec<Tagged> {
    keys.iter().enumerate().map(|(pos, &key)| Tagged { key, pos }).collect()
}

fn positions(items: &[Tagged]) -> Vec<(u64, usize)> {
    items.iter().map(|t| (t.key, t.pos)).collect()
}

fn stable_reference(keys: &[u64]) -> Vec<(u64, usize)> {
    let mut v = tagged(keys);
    v.sort();
    positions(&v)
}

#[test]
fn grail_sort_sorts_small_vector() {
    let mut data = vec![5, 2, 8, 1, 9, 3, 7, 4, 6, 0];
    grail_sort(&mut data);
    assert_eq!(data, vec![0, 1, 2, 3, 4, 5, 6, 7, 8, 9]);
}

#[test]
fn grail_sort_handles_empty_and_single() {
    let mut empty: Vec<u8> = vec![];
    grail_sort(&mut empty);
    assert!(empty.is_empty());
    let mut one = vec![7u8];
    grail_sort(&mut one);
    assert_eq!(one, vec![7]);
}

#[test]
fn grail_sort_short_slices_are_stable() {
    for n in 0..=16usize {
        let keys = pseudo_random(n, 3, 11 + n as u64);
        let mut items = tagged(&keys);
        grail_sort(&mut items);
        assert_eq!(positions(&items), stable_reference(&keys));
    }
}

#[test]
fn grail_sort_matches_sorted_output() {
    for &(n, m) in &[(17usize, 1000u64), (64, 5), (100, 1 << 30), (1000, 1 << 40), (1000, 3), (4097, 50), (10000, 1 << 20)] {
        let keys = pseudo_random(n, m, n as u64 * 3 + m);
        let mut data = keys.clone();
        grail_sort(&mut data);
        assert_eq!(data, sorted_copy(&keys));
    }
}

#[test]
fn grail_sort_with_few_distinct_keys() {
    for &(n, m) in &[(20usize, 1u64), (50, 2), (300, 3), (1000, 3)] {
        let keys = pseudo_random(n, m, 5 + n as u64);
        let mut data = keys.clone();
        grail_sort(&mut data);
        assert_eq!(data, sorted_copy(&keys));
    }
}

#[test]
fn grail_sort_is_stable_on_tagged_items() {
    for &(n, m) in &[(40usize, 4u64), (500, 10), (2000, 60), (3000, 1000)] {
        let keys = pseudo_random(n, m, 17 * n as u64);
        let mut items = tagged(&keys);
        grail_sort(&mut items);
        assert_eq!(positions(&items), stable_reference(&keys));
    }
}

#[test]
fn grail_sort_by_uses_the_comparator() {
    let keys = pseudo_random(700, 90, 3);
    let mut data = keys.clone();
    grail_sort_by(&mut data, |a: &u64, b: &u64| b.cmp(a));
    let mut expected = sorted_copy(&keys);
    expected.reverse();
    assert_eq!(data, expected);
}

#[test]
fn grail_sort_by_is_stable() {
    let keys = pseudo_random(1500, 25, 99);
    let mut items: Vec<(u64, usize)> = keys.iter().enumerate().map(|(i, &k)| (k, i)).collect();
    grail_sort_by(&mut items, |a: &(u64, usize), b: &(u64, usize)| a.0.cmp(&b.0));
    assert_eq!(items, stable_reference(&keys));
}

#[test]
fn buffered_variants_sort_like_grail_sort() {
    for &(n, m) in &[(10usize, 100u64), (600, 7), (5000, 1 << 32)] {
        let keys = pseudo_random(n, m, 41 + n as u64);
        let mut a = keys.clone();
        let mut b = keys.clone();
        grail_sort_with_static_buffer(&mut a);
        grail_sort_with_dynamic_buffer(&mut b);
        assert_eq!(a, sorted_copy(&keys));
        assert_eq!(b, sorted_copy(&keys));
    }
}

#[test]
fn rec_stable_sort_sorts_small_vector() {
    let mut data = vec![5, 2, 8, 1, 9, 3, 7, 4, 6, 0];
    rec_stable_sort(&mut data);
    assert_eq!(data, vec![0, 1, 2, 3, 4, 5, 6, 7, 8, 9]);
}

#[test]
fn rec_stable_sort_is_stable() {
    for &(n, m) in &[(0usize, 1u64), (1, 1), (2, 1), (3, 2), (33, 4), (1000, 13), (4096, 300), (5001, 1 << 40)] {
        let keys = pseudo_random(n, m, 23 + n as u64);
        let mut items = tagged(&keys);
        rec_stable_sort(&mut items);
        assert_eq!(positions(&items), stable_reference(&keys));
    }
}

#[test]
fn multi_swap_exchanges_blocks() {
    let mut data = vec![0, 1, 2, 3, 4, 5, 6, 7];
    grail_multi_swap(&mut data, 1, 5, 3);
    assert_eq!(data, vec![0, 5, 6, 7, 4, 1, 2, 3]);
}

#[test]
fn rotate_exchanges_adjacent_blocks() {
    let mut data = vec![0, 1, 2, 3, 4, 5, 6, 7, 8];
    grail_rotate(&mut data, 1, 2, 5);
    assert_eq!(data, vec![0, 3, 4, 5, 6, 7, 1, 2, 8]);
    let mut other = vec![1, 2, 3, 4, 5];
    grail_rotate(&mut other, 0, 4, 1);
    assert_eq!(other, vec![5, 1, 2, 3, 4]);
}

#[test]
fn sorting_a_sorted_slice_changes_nothing() {
    let keys = pseudo_random(2000, 40, 77);
    let mut once = tagged(&keys);
    rec_stable_sort(&mut once);
    let mut twice = once.clone();
    rec_stable_sort(&mut twice);
    assert_eq!(positions(&twice), positions(&once));
    let mut by_grail = once.clone();
    grail_sort(&mut by_grail);
    assert_eq!(positions(&by_grail), positions(&once));
}

#[test]
fn stable_sorts_agree() {
    let keys = pseudo_random(3000, 17, 5);
    let mut a = tagged(&keys);
    let mut b = tagged(&keys);
    let mut c: Vec<(u64, usize)> = keys.iter().enumerate().map(|(i, &k)| (k, i)).collect();
    rec_stable_sort(&mut a);
    grail_sort(&mut b);
    wikisort::wikisort(&mut c, |x: &(u64, usize), y: &(u64, usize)| x.0.cmp(&y.0));
    assert_eq!(positions(&a), positions(&b));
    assert_eq!(positions(&a), c);
}

#[test]
fn grail_sort_few_distinct_values_is_stable() {
    for &n in &[17usize, 100, 1000, 4099] {
        let keys = pseudo_random(n, 3, 1 + n as u64);
        let mut items = tagged(&keys);
        grail_sort(&mut items);
        assert_eq!(positions(&items), stable_reference(&keys));
    }
}
