use compvec::vector::{CompressedVector, CompressedVectorBuilder};

fn lcg(n: usize, seed: u64) -> Vec<u64> {
    let mut vals = Vec::new();
    let mut x = seed;
    for _ in 0..n {
        x = x.wrapping_mul(6364136223846793005).wrapping_add(1442695040888963407);
        vals.push(x);
    }
    vals
}

fn build(values: &[u64], chunk_size: usize) -> CompressedVector {
    let mut b = CompressedVectorBuilder::new(chunk_size);
    for &v in values {
        b.push(v);
    }
    b.finish()
}

#[test]
fn random_access_matches_original() {
    let original = lcg(1000, 99);
    let v = build(&original, 16);
    assert_eq!(v.len(), original.len());
    for i in 0..original.len() {
        assert_eq!(v.get(i), original[i], "mismatch at {}", i);
    }
}

#[test]
fn full_iteration_matches_original() {
    let original = lcg(777, 5);
    let v = build(&original, 32);
    assert_eq!(v.to_vec(), original);
}

#[test]
fn chunk_size_one() {
    let original = lcg(20, 1);
    let v = build(&original, 1);
    for i in 0..original.len() {
        assert_eq!(v.get(i), original[i]);
    }
    assert_eq!(v.to_vec(), original);
}

#[test]
fn single_partial_chunk() {
    let original = vec![7u64, 0, 7, 0, 9];
    let v = build(&original, 1000);
    assert_eq!(v.len(), 5);
    for i in 0..original.len() {
        assert_eq!(v.get(i), original[i]);
    }
    assert_eq!(v.to_vec(), original);
}

#[test]
fn chunk_boundary_sizes() {
    for n in [7usize, 8, 9, 15, 16, 17] {
        let original = lcg(n, n as u64);
        let v = build(&original, 8);
        for i in 0..n {
            assert_eq!(v.get(i), original[i]);
        }
        assert_eq!(v.to_vec(), original);
    }
}

#[test]
fn empty_vector() {
    let v = build(&[], 8);
    assert_eq!(v.len(), 0);
    assert!(v.is_empty());
    assert!(v.to_vec().is_empty());
}

#[test]
fn small_explicit_values() {
    let original = vec![3u64, 1, 4, 1, 5, 9, 2, 6, 5, 3, 5];
    let v = build(&original, 4);
    assert_eq!(v.get(0), 3);
    assert_eq!(v.get(4), 5);
    assert_eq!(v.get(10), 5);
    assert_eq!(v.to_vec(), original);
}

#[test]
fn cursor_walks_all_values_in_order() {
    let original = lcg(100, 3);
    let v = build(&original, 8);
    let mut cur = v.cursor();
    let mut seen: Vec<u64> = Vec::new();
    while let Some(x) = v.next_value(&mut cur) {
        seen.push(x);
    }
    assert_eq!(seen, original);
    assert_eq!(v.next_value(&mut cur), None);
}

#[test]
fn cursor_restarts_and_stops_early() {
    let original = vec![10u64, 20, 30, 40, 50];
    let v = build(&original, 2);
    let mut cur = v.cursor();
    assert_eq!(v.next_value(&mut cur), Some(10));
    assert_eq!(v.next_value(&mut cur), Some(20));
    assert_eq!(v.next_value(&mut cur), Some(30));
    // Early termination is simply not asking for more; restarting is a
    // fresh cursor.
    cur = v.cursor();
    assert_eq!(v.next_value(&mut cur), Some(10));
}

#[test]
fn builder_len_counts_staged_values() {
    let mut b = CompressedVectorBuilder::new(8);
    for i in 0..5u64 {
        b.push(i);
    }
    assert_eq!(b.len(), 5);
    for i in 0..5u64 {
        b.push(i);
    }
    assert_eq!(b.len(), 10);
    let v = b.finish();
    assert_eq!(v.len(), 10);
}
