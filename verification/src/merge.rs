//! The scalar two-finger merge.
use vstd::prelude::*;
use crate::spec::{Hit, valid_lists, doc_id_of, partial_intersection, is_intersection, lemma_hit_push};

verus! {

/// The full document id of value `value` of block `block_id`.
pub fn doc_id(block_id: usize, value: u16) -> (id: usize)
    ensures
        id == doc_id_of(block_id, value),
        block_id * 65536 + value <= usize::MAX ==> id == block_id * 65536 + value,
        id % 65536 == value,
{
    proof {
        crate::laws::lemma_doc_id_arithmetic(block_id, value);
    }
    (block_id << 16usize) | (value as usize)
}

/// Merges `a[i_a..s_a]` with `b[i_b..s_b]`, appending one hit per pair of
/// equal values, and so completes an intersection that has covered every
/// pair below `i_a` in `a` or below `i_b` in `b`.
pub fn merge_tail(
    a: &[u16],
    s_a: usize,
    b: &[u16],
    s_b: usize,
    block_id: usize,
    i_a: usize,
    i_b: usize,
    hits: &mut Vec<Hit>,
)
    requires
        valid_lists(a@, s_a as int, b@, s_b as int),
        i_a <= s_a,
        i_b <= s_b,
        partial_intersection(
            a@,
            s_a as int,
            b@,
            s_b as int,
            block_id,
            i_a as int,
            i_b as int,
            old(hits)@,
        ),
    ensures
        is_intersection(a@, s_a as int, b@, s_b as int, block_id, final(hits)@),
        old(hits)@.len() <= final(hits)@.len(),
        final(hits)@.subrange(0, old(hits)@.len() as int) == old(hits)@,
{
    let ghost start = hits@;
    let mut i_a = i_a;
    let mut i_b = i_b;
    while i_a < s_a && i_b < s_b
        invariant
            valid_lists(a@, s_a as int, b@, s_b as int),
            i_a <= s_a,
            i_b <= s_b,
            partial_intersection(
                a@,
                s_a as int,
                b@,
                s_b as int,
                block_id,
                i_a as int,
                i_b as int,
                hits@,
            ),
            start.len() <= hits@.len(),
            hits@.subrange(0, start.len() as int) == start,
        decreases (s_a - i_a) + (s_b - i_b),
    {
        let x = a[i_a];
        let y = b[i_b];
        if x < y {
            i_a += 1;
        } else if y < x {
            i_b += 1;
        } else {
            let h = Hit { doc_id: doc_id(block_id, x), pos_a: i_a, pos_b: i_b };
            proof {
                lemma_hit_push(hits@, h);
            }
            hits.push(h);
            i_a += 1;
            i_b += 1;
        }
    }
}

/// The intersection of `a[..s_a]` and `b[..s_b]` by a plain merge: one hit
/// per document found in both, in increasing order.
pub fn intersection_merge(a: &[u16], s_a: usize, b: &[u16], s_b: usize, block_id: usize) -> (hits:
    Vec<Hit>)
    requires
        valid_lists(a@, s_a as int, b@, s_b as int),
    ensures
        is_intersection(a@, s_a as int, b@, s_b as int, block_id, hits@),
{
    let mut hits: Vec<Hit> = Vec::new();
    merge_tail(a, s_a, b, s_b, block_id, 0, 0, &mut hits);
    hits
}

} // verus!
