use lib::broadcast16::intersection_broadcast16;
use lib::merge::{doc_id, intersection_merge, merge_tail};
use lib::spec::{lists_are_valid, strictly_increasing, Hit};
use lib::vector16::intersection_vector16;

fn hit(doc_id: usize, pos_a: usize, pos_b: usize) -> Hit {
    Hit { doc_id, pos_a, pos_b }
}

/// Every pair of equal values, found by comparing all pairs.
fn reference(a: &[u16], s_a: usize, b: &[u16], s_b: usize, block_id: usize) -> Vec<Hit> {
    let mut out = Vec::new();
    for i in 0..s_a {
        for j in 0..s_b {
            if a[i] == b[j] {
                out.push(hit((block_id << 16) | a[i] as usize, i, j));
            }
        }
    }
    out
}

fn all_three(a: &[u16], s_a: usize, b: &[u16], s_b: usize, block_id: usize) -> Vec<Hit> {
    let v = intersection_vector16(a, s_a, b, s_b, block_id);
    let c = intersection_broadcast16(a, s_a, b, s_b, block_id);
    let m = intersection_merge(a, s_a, b, s_b, block_id);
    assert_eq!(v, m);
    assert_eq!(c, m);
    assert_eq!(m, reference(a, s_a, b, s_b, block_id));
    m
}

/// A strictly increasing list of `n` values: `start`, then steps cycling through `steps`.
fn list(start: u16, steps: &[u16], n: usize) -> Vec<u16> {
    let mut v = Vec::new();
    let mut x = start;
    for k in 0..n {
        v.push(x);
        x += steps[k % steps.len()];
    }
    v
}

#[test]
fn doc_id_joins_block_and_value() {
    assert_eq!(doc_id(0, 0), 0);
    assert_eq!(doc_id(0, 65535), 65535);
    assert_eq!(doc_id(3, 5), 196613);
    assert_eq!(doc_id(1, 0), 65536);
}

#[test]
fn small_lists_exact_hits() {
    let a = [1u16, 3, 5, 7, 9];
    let b = [2u16, 3, 4, 9, 10];
    let hits = all_three(&a, 5, &b, 5, 0);
    assert_eq!(hits, vec![hit(3, 1, 1), hit(9, 4, 3)]);
}

#[test]
fn block_id_goes_into_the_high_bits() {
    let a = [4u16, 8, 15, 16, 23, 42];
    let b = [15u16, 42];
    let hits = all_three(&a, 6, &b, 2, 2);
    assert_eq!(hits, vec![hit(131087, 2, 0), hit(131114, 5, 1)]);
}

#[test]
fn empty_inputs_give_nothing() {
    let a = [1u16, 2, 3];
    let b: [u16; 0] = [];
    assert_eq!(all_three(&a, 3, &b, 0, 0), vec![]);
    assert_eq!(all_three(&b, 0, &a, 3, 0), vec![]);
    assert_eq!(all_three(&a, 0, &a, 0, 7), vec![]);
}

#[test]
fn disjoint_blocks_give_nothing() {
    let a = list(1, &[2], 40);
    let b = list(2, &[2], 40);
    assert_eq!(all_three(&a, 40, &b, 40, 1), vec![]);
}

#[test]
fn equal_lists_match_everywhere() {
    let a = list(100, &[3, 1, 7], 35);
    let hits = all_three(&a, 35, &a, 35, 9);
    assert_eq!(hits.len(), 35);
    for (k, h) in hits.iter().enumerate() {
        assert_eq!(*h, hit((9 << 16) | a[k] as usize, k, k));
    }
}

#[test]
fn counts_below_the_slice_length_are_respected() {
    let a = [1u16, 2, 3, 4, 5, 6, 7, 8, 9, 10];
    let b = [5u16, 9, 10];
    // only the first 6 values of `a` and the first 2 of `b` take part
    let hits = all_three(&a, 6, &b, 2, 0);
    assert_eq!(hits, vec![hit(5, 4, 0)]);
}

#[test]
fn zero_values_at_the_start_are_found() {
    // blocks that start with 0 go through the comparison with explicit lengths
    let a = list(0, &[1], 24);
    let b = list(0, &[3], 24);
    let hits = all_three(&a, 24, &b, 24, 0);
    assert_eq!(hits[0], hit(0, 0, 0));
    assert_eq!(hits.len(), 8);
    assert_eq!(hits[7], hit(21, 21, 7));
}

#[test]
fn zero_only_in_one_list() {
    let a = list(0, &[5], 30);
    let b = list(5, &[5], 30);
    let hits = all_three(&a, 30, &b, 30, 4);
    assert_eq!(hits.len(), 29);
    assert_eq!(hits[0], hit((4 << 16) | 5, 1, 0));
}

#[test]
fn uneven_block_maxima_and_tails() {
    // many blocks of `a` per block of `b` and the other way round, lengths not multiples of 8
    let a = list(1, &[1], 203);
    let b = list(3, &[17, 2, 40, 1], 37);
    let hits = all_three(&a, 203, &b, 37, 0);
    assert!(!hits.is_empty());
    let hits2 = all_three(&b, 37, &a, 203, 0);
    assert_eq!(hits.len(), hits2.len());
}

#[test]
fn many_shapes_agree_with_all_pairs() {
    let steps: [&[u16]; 5] = [&[1], &[2, 3], &[7, 1, 1], &[13], &[1, 1, 30]];
    for (x, sa) in steps.iter().enumerate() {
        for (y, sb) in steps.iter().enumerate() {
            for &(na, nb) in &[(0usize, 9usize), (8, 8), (16, 7), (33, 50), (64, 64)] {
                let a = list((x % 3) as u16, sa, na);
                let b = list((y % 2) as u16, sb, nb);
                all_three(&a, na, &b, nb, x + y);
            }
        }
    }
}

#[test]
fn hits_come_in_ascending_doc_order() {
    let a = list(2, &[3, 5], 60);
    let b = list(1, &[1], 200);
    let hits = all_three(&a, 60, &b, 200, 5);
    for w in hits.windows(2) {
        assert!(w[0].doc_id < w[1].doc_id);
        assert!(w[0].pos_a < w[1].pos_a);
        assert!(w[0].pos_b < w[1].pos_b);
    }
    for h in &hits {
        assert_eq!(h.doc_id & 0xffff, a[h.pos_a] as usize);
    }
}

#[test]
fn swapping_the_lists_swaps_the_indices() {
    let a = list(7, &[2, 9], 41);
    let b = list(3, &[4], 90);
    let ab = all_three(&a, 41, &b, 90, 1);
    let ba = all_three(&b, 90, &a, 41, 1);
    let swapped: Vec<Hit> = ab.iter().map(|h| hit(h.doc_id, h.pos_b, h.pos_a)).collect();
    assert_eq!(ba, swapped);
}

#[test]
fn merge_tail_continues_a_started_intersection() {
    let a = [1u16, 4, 6, 9];
    let b = [1u16, 6, 9, 12];
    // the pair (0, 0) is already out; go on from index 1 in both
    let mut hits = vec![hit(1, 0, 0)];
    merge_tail(&a, 4, &b, 4, 0, 1, 1, &mut hits);
    assert_eq!(hits, vec![hit(1, 0, 0), hit(6, 2, 1), hit(9, 3, 2)]);
}

#[test]
fn lists_are_valid_checks_counts_and_order() {
    let a = [1u16, 2, 5, 5, 9];
    let b = [0u16, 3];
    assert!(lists_are_valid(&a, 3, &b, 2));
    assert!(!lists_are_valid(&a, 4, &b, 2));
    assert!(!lists_are_valid(&a, 6, &b, 2));
    assert!(!lists_are_valid(&a, 3, &b, 3));
    assert!(lists_are_valid(&a, 0, &b, 0));
    assert!(strictly_increasing(&a, 3));
    assert!(!strictly_increasing(&a, 5));
    assert!(strictly_increasing(&[7u16], 1));
}
