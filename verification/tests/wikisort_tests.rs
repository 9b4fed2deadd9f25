use wikisort::wikisort;

/// A small deterministic generator of test data.
fn pseudo_random(n: usize, modulus: u64, seed: u64) -> Vec<u64> {
    let mut state = seed;
    let mut out = Vec::with_capacity(n);
    for _ in 0..n {
        state = state.wrapping_mul(6364136223846793005).wrapping_add(1442695040888963407);
        out.push((state >> 33) % modulus);
    }
    out
}

/// Items tagged with their original position, compared by the key alone.
fn tagged(keys: &[u64]) -> Vec<(u64, usize)> {
    keys.iter().enumerate().map(|(i, &k)| (k, i)).collect()
}

fn check_like_std(keys: &[u64]) {
    let mut ours = tagged(keys);
    let mut expected = ours.clone();
    expected.sort_by(|a, b| a.0.cmp(&b.0));
    wikisort(&mut ours, |a: &(u64, usize), b: &(u64, usize)| a.0.cmp(&b.0));
    assert_eq!(ours, expected);
}

#[test]
fn sorts_small_vector() {
    let mut data = vec![5, 2, 8, 1, 9, 3, 7, 4, 6, 0];
    wikisort(&mut data, |a: &i32, b: &i32| a.cmp(b));
    assert_eq!(data, vec![0, 1, 2, 3, 4, 5, 6, 7, 8, 9]);
}

#[test]
fn sorts_empty_slice() {
    let mut data: Vec<i32> = vec![];
    wikisort(&mut data, |a: &i32, b: &i32| a.cmp(b));
    assert!(data.is_empty());
}

#[test]
fn sorts_single_item() {
    let mut data = vec![42];
    wikisort(&mut data, |a: &i32, b: &i32| a.cmp(b));
    assert_eq!(data, vec![42]);
}

#[test]
fn sorts_two_and_three_items() {
    let mut two = vec![2, 1];
    wikisort(&mut two, |a: &i32, b: &i32| a.cmp(b));
    assert_eq!(two, vec![1, 2]);
    let mut three = vec![3, 1, 2];
    wikisort(&mut three, |a: &i32, b: &i32| a.cmp(b));
    assert_eq!(three, vec![1, 2, 3]);
}

#[test]
fn tiny_sort_is_stable() {
    let mut data = vec![(1, 'a'), (0, 'b'), (1, 'c')];
    wikisort(&mut data, |a: &(i32, char), b: &(i32, char)| a.0.cmp(&b.0));
    assert_eq!(data, vec![(0, 'b'), (1, 'a'), (1, 'c')]);
}

#[test]
fn sorts_every_permutation_up_to_seven() {
    for n in 0..=7usize {
        let mut perm: Vec<usize> = (0..n).collect();
        // Heap's algorithm, iteratively.
        let mut c = vec![0usize; n];
        let mut all = vec![perm.clone()];
        let mut i = 0;
        while i < n {
            if c[i] < i {
                if i % 2 == 0 { perm.swap(0, i); } else { perm.swap(c[i], i); }
                all.push(perm.clone());
                c[i] += 1;
                i = 0;
            } else {
                c[i] = 0;
                i += 1;
            }
        }
        for p in all {
            let mut data = p.clone();
            wikisort(&mut data, |a: &usize, b: &usize| a.cmp(b));
            assert_eq!(data, (0..n).collect::<Vec<_>>());
        }
    }
}

#[test]
fn sorts_network_sizes_stably() {
    for n in 4..=16usize {
        let keys = pseudo_random(n, 3, n as u64);
        check_like_std(&keys);
    }
}

#[test]
fn sorts_reversed_input() {
    let mut data: Vec<i64> = (0..1000).rev().collect();
    wikisort(&mut data, |a: &i64, b: &i64| a.cmp(b));
    assert_eq!(data, (0..1000).collect::<Vec<_>>());
}

#[test]
fn sorts_already_sorted_input() {
    let mut data: Vec<i64> = (0..777).collect();
    wikisort(&mut data, |a: &i64, b: &i64| a.cmp(b));
    assert_eq!(data, (0..777).collect::<Vec<_>>());
}

#[test]
fn matches_stable_sort_with_many_duplicates() {
    for &(n, m) in &[(50usize, 4u64), (257, 10), (1000, 7), (4096, 100), (5000, 2)] {
        let keys = pseudo_random(n, m, n as u64 + m);
        check_like_std(&keys);
    }
}

#[test]
fn matches_stable_sort_with_distinct_keys() {
    for &n in &[8usize, 9, 31, 32, 33, 100, 1023, 1024, 1025, 3000] {
        let keys = pseudo_random(n, 1 << 40, 7 * n as u64);
        check_like_std(&keys);
    }
}

#[test]
fn all_equal_keys_keep_their_order() {
    let keys = vec![5u64; 300];
    check_like_std(&keys);
}

#[test]
fn sorts_with_a_descending_comparator() {
    let mut data: Vec<i32> = vec![3, 9, -2, 7, 7, 0, 15, 1, 4];
    wikisort(&mut data, |a: &i32, b: &i32| b.cmp(a));
    assert_eq!(data, vec![15, 9, 7, 7, 4, 3, 1, 0, -2]);
}
