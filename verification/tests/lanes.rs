use lib::lanes::{
    equal_any_mask, equal_any_mask_implicit, equal_lanes_mask, lane_set, vector_lanes,
    zero_terminated_len,
};
use lib::vector16::emit_block_hits;
use lib::spec::Hit;

#[test]
fn a_vector_holds_eight_lanes() {
    assert_eq!(vector_lanes(), 8);
}

#[test]
fn lane_set_reads_one_bit() {
    assert!(lane_set(0b1010, 1));
    assert!(!lane_set(0b1010, 2));
    assert!(lane_set(0b1010, 3));
    assert!(!lane_set(0, 0));
}

#[test]
fn equal_any_mask_marks_lanes_found_in_the_other_block() {
    let a = [1u16, 2, 3, 4, 5, 6, 7, 8];
    let b = [2u16, 4, 6, 8, 10, 12, 14, 16];
    assert_eq!(equal_any_mask(&a, 0, 8, &b, 0, 8), 0b1010_1010);
    // explicit lengths cut both blocks
    assert_eq!(equal_any_mask(&a, 0, 4, &b, 0, 8), 0b0000_1010);
    assert_eq!(equal_any_mask(&a, 0, 8, &b, 0, 2), 0b0000_1010);
    assert_eq!(equal_any_mask(&a, 0, 0, &b, 0, 8), 0);
}

#[test]
fn equal_any_mask_reads_at_offsets() {
    let a = [9u16, 9, 10, 11, 12, 13, 14, 15, 16, 17];
    let b = [0u16, 11, 13, 15, 17, 19, 21, 23, 25];
    assert_eq!(equal_any_mask(&a, 2, 8, &b, 1, 8), 0b1010_1010);
}

#[test]
fn zero_terminated_len_stops_at_the_first_zero() {
    let s = [5u16, 6, 0, 7, 8, 9, 10, 11, 0];
    assert_eq!(zero_terminated_len(&s, 0), 2);
    assert_eq!(zero_terminated_len(&s, 1), 1);
    assert_eq!(zero_terminated_len(&s, 2), 0);
    assert_eq!(zero_terminated_len(&s, 3), 5);
    let t = [1u16, 2, 3, 4, 5, 6, 7, 8];
    assert_eq!(zero_terminated_len(&t, 0), 8);
}

#[test]
fn implicit_mask_ignores_lanes_after_a_zero() {
    let a = [3u16, 0, 5, 6, 7, 8, 9, 10];
    let b = [5u16, 3, 10, 1, 2, 4, 11, 12];
    // `a` ends after lane 0, so only 3 is looked up
    assert_eq!(equal_any_mask_implicit(&a, 0, &b, 0), 0b1);
    let c = [5u16, 3, 0, 10, 1, 2, 4, 11];
    let d = [3u16, 4, 5, 6, 7, 8, 9, 10];
    // `c` as the searched block ends after 5 and 3; 10 is not looked at
    assert_eq!(equal_any_mask_implicit(&d, 0, &c, 0), 0b101);
}

#[test]
fn equal_lanes_mask_marks_equal_lanes() {
    let b = [1u16, 7, 3, 7, 5, 6, 7, 8, 7];
    assert_eq!(equal_lanes_mask(7, &b, 0), 0b0100_1010);
    assert_eq!(equal_lanes_mask(7, &b, 1), 0b1010_0101);
    assert_eq!(equal_lanes_mask(2, &b, 0), 0);
}

#[test]
fn emit_block_hits_walks_the_mask_lowest_first() {
    let a = [1u16, 3, 5, 7, 9, 11, 13, 15];
    let b = [3u16, 4, 5, 6, 11, 12, 15, 20];
    let r = equal_any_mask(&a, 0, 8, &b, 0, 8);
    assert_eq!(r, 0b1010_0110);
    let mut hits: Vec<Hit> = Vec::new();
    emit_block_hits(&a, 8, &b, 8, 1, 0, 0, r, &mut hits);
    let want = vec![
        Hit { doc_id: 65536 + 3, pos_a: 1, pos_b: 0 },
        Hit { doc_id: 65536 + 5, pos_a: 2, pos_b: 2 },
        Hit { doc_id: 65536 + 11, pos_a: 5, pos_b: 4 },
        Hit { doc_id: 65536 + 15, pos_a: 7, pos_b: 6 },
    ];
    assert_eq!(hits, want);
}
