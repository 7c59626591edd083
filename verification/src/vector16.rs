//! Block-against-block intersection: eight lanes of `a` are compared with
//! eight lanes of `b` at once through an "equal any" lane mask; the set lanes
//! are walked lowest first, and the block with the smaller maximum moves on.
use vstd::prelude::*;
use crate::spec::{
    Hit, valid_lists, increasing_prefix, hit_matches, hits_sound, hits_ordered, hit_at,
    hits_within, partial_intersection, is_intersection, lemma_hit_push, lemma_hit_extend,
};
use crate::lanes::{
    lane_bit, block_has, zero_free_len, lemma_zero_mask, lemma_lowest_lane, lemma_zero_free_len_full,
    equal_any_mask, equal_any_mask_implicit, vector_lanes,
};
use crate::merge::{doc_id, merge_tail};

verus! {

/// Every pair of equal values between the block of `a` at `i_a` and the block
/// of `b` at `i_b` has its hit.
pub open spec fn block_pair_covered(
    a: Seq<u16>,
    b: Seq<u16>,
    i_a: int,
    i_b: int,
    hits: Seq<Hit>,
) -> bool {
    forall|i: int, j: int|
        #![trigger a[i], b[j]]
        i_a <= i < i_a + 8 && i_b <= j < i_b + 8 && a[i] == b[j] ==> hit_at(hits, i, j)
}

/// Emits the hits of one block pair, given the "equal any" mask `r` of the
/// block of `a` at `i_a` against the block of `b` at `i_b`: the set lanes are
/// taken lowest first (`trailing_zeros`, then `m & (m - 1)`), and for each one
/// the index in `b` is found by scanning on from the previous match.
pub fn emit_block_hits(
    a: &[u16],
    s_a: usize,
    b: &[u16],
    s_b: usize,
    block_id: usize,
    i_a: usize,
    i_b: usize,
    r: u32,
    hits: &mut Vec<Hit>,
)
    requires
        valid_lists(a@, s_a as int, b@, s_b as int),
        i_a + 8 <= s_a,
        i_b + 8 <= s_b,
        r < 256,
        forall|k: u32|
            k < 8 ==> (#[trigger] lane_bit(r, k) <==> block_has(b@, i_b as int, 8, a@[i_a + k])),
        partial_intersection(
            a@,
            s_a as int,
            b@,
            s_b as int,
            block_id,
            i_a as int,
            i_b as int,
            old(hits)@,
        ),
    ensures
        old(hits)@.len() <= final(hits)@.len(),
        final(hits)@.subrange(0, old(hits)@.len() as int) == old(hits)@,
        hits_sound(a@, s_a as int, b@, s_b as int, block_id, final(hits)@),
        hits_ordered(final(hits)@),
        forall|k: int|
            old(hits)@.len() <= k < final(hits)@.len() ==> i_a <= #[trigger] final(hits)@[k].pos_a
                < i_a + 8 && i_b <= final(hits)@[k].pos_b < i_b + 8,
        block_pair_covered(a@, b@, i_a as int, i_b as int, final(hits)@),
{
    let ghost start = hits@;
    let mut mask: u32 = r;
    let mut bit_pos2: usize = 0;
    let ghost mut done: u32 = 0;
    while mask != 0
        invariant
            valid_lists(a@, s_a as int, b@, s_b as int),
            i_a + 8 <= s_a,
            i_b + 8 <= s_b,
            r < 256,
            forall|k: u32|
                k < 8 ==> (#[trigger] lane_bit(r, k) <==> block_has(
                    b@,
                    i_b as int,
                    8,
                    a@[i_a + k],
                )),
            partial_intersection(
                a@,
                s_a as int,
                b@,
                s_b as int,
                block_id,
                i_a as int,
                i_b as int,
                start,
            ),
            mask < 256,
            done <= 8,
            bit_pos2 <= 8,
            forall|k: u32| k < 8 ==> (#[trigger] lane_bit(mask, k) <==> (done <= k && lane_bit(r, k))),
            forall|j: int, k: u32|
                #![trigger b@[i_b + j], lane_bit(r, k)]
                0 <= j < bit_pos2 && done <= k < 8 && lane_bit(r, k) ==> b@[i_b + j] < a@[i_a + k],
            start.len() <= hits@.len(),
            hits@.subrange(0, start.len() as int) == start,
            hits_sound(a@, s_a as int, b@, s_b as int, block_id, hits@),
            hits_ordered(hits@),
            forall|k: int|
                start.len() <= k < hits@.len() ==> i_a <= #[trigger] hits@[k].pos_a < i_a + done
                    && i_b <= hits@[k].pos_b < i_b + 8,
            forall|i: int, j: int|
                #![trigger a@[i], b@[j]]
                i_a <= i < i_a + done && i_b <= j < i_b + 8 && a@[i] == b@[j] ==> hit_at(
                    hits@,
                    i,
                    j,
                ),
        decreases mask,
    {
        proof {
            lemma_lowest_lane(mask);
        }
        let t = mask.trailing_zeros();
        let bit_pos = t as usize;
        let item = a[i_a + bit_pos];
        proof {
            assert(lane_bit(r, t));
            assert(block_has(b@, i_b as int, 8, item));
            let w = choose|w: int| 0 <= w < 8 && #[trigger] b@[i_b + w] == item;
            if w < bit_pos2 {
                assert(b@[i_b + w] < a@[i_a + t]);
            }
        }
        while item != b[i_b + bit_pos2]
            invariant
                valid_lists(a@, s_a as int, b@, s_b as int),
                i_b + 8 <= s_b,
                bit_pos2 <= 8,
                exists|w: int| bit_pos2 <= w < 8 && #[trigger] b@[i_b + w] == item,
            decreases 8 - bit_pos2,
        {
            bit_pos2 += 1;
        }
        let h = Hit { doc_id: doc_id(block_id, item), pos_a: i_a + bit_pos, pos_b: i_b + bit_pos2 };
        proof {
            lemma_hit_push(hits@, h);
            let n = hits@.push(h);
            assert forall|k: int| 0 <= k < n.len() implies hit_matches(
                a@,
                s_a as int,
                b@,
                s_b as int,
                block_id,
                #[trigger] n[k],
            ) by {
                if k < hits@.len() {
                    assert(n[k] == hits@[k]);
                }
            }
            assert forall|k: int, l: int| 0 <= k < l < n.len() implies #[trigger] n[k].pos_a
                < #[trigger] n[l].pos_a by {
                if l == hits@.len() {
                    if k < start.len() {
                        assert(hits@[k] == start[k]);
                        assert(start[k].pos_a < i_a + t);
                    }
                }
            }
            assert(n.subrange(0, start.len() as int) =~= start);
            assert forall|i: int, j: int|
                #![trigger a@[i], b@[j]]
                i_a <= i < i_a + t + 1 && i_b <= j < i_b + 8 && a@[i] == b@[j] implies hit_at(
                n,
                i,
                j,
            ) by {
                if i < i_a + done {
                    assert(hit_at(hits@, i, j));
                } else if i < i_a + t {
                    let k = (i - i_a) as u32;
                    assert(!lane_bit(mask, k));
                    assert(b@[i_b + (j - i_b)] == a@[i_a + k]);
                    assert(block_has(b@, i_b as int, 8, a@[i_a + k]));
                    assert(false);
                } else {
                    assert(i == i_a + t);
                    if j < i_b + bit_pos2 {
                        assert(b@[j] < b@[i_b + bit_pos2]);
                    } else if j > i_b + bit_pos2 {
                        assert(b@[j] > b@[i_b + bit_pos2]);
                    }
                }
            }
        }
        hits.push(h);
        bit_pos2 += 1;
        proof {
            assert forall|j: int, k: u32|
                #![trigger b@[i_b + j], lane_bit(r, k)]
                0 <= j < bit_pos2 && t + 1 <= k < 8 && lane_bit(r, k) implies b@[i_b + j] < a@[i_a
                + k] by {
                assert(b@[i_b + j] <= b@[i_b + bit_pos2 - 1]);
                assert(a@[i_a + t] < a@[i_a + k]);
            }
            assert forall|k: u32| k < 8 implies #[trigger] lane_bit(mask & ((mask - 1) as u32), k) <==> (
            t + 1 <= k && lane_bit(r, k)) by {
                if k < t {
                    assert(!lane_bit(mask, k));
                }
            }
            done = (t + 1) as u32;
        }
        mask = mask & (mask - 1);
    }
    proof {
        assert forall|i: int, j: int|
            #![trigger a@[i], b@[j]]
            i_a <= i < i_a + 8 && i_b <= j < i_b + 8 && a@[i] == b@[j] implies hit_at(
            hits@,
            i,
            j,
        ) by {
            if i >= i_a + done {
                let k = (i - i_a) as u32;
                lemma_zero_mask(k);
                assert(!lane_bit(mask, k));
                assert(b@[i_b + (j - i_b)] == a@[i_a + k]);
                assert(block_has(b@, i_b as int, 8, a@[i_a + k]));
            }
        }
    }
}

/// After the hits of a block pair are out, the block with the smaller
/// maximum (or both, when the maxima are equal) has met every value it can
/// equal: moving past it keeps the merge state whole.
pub proof fn lemma_blocks_advance(
    a: Seq<u16>,
    s_a: int,
    b: Seq<u16>,
    s_b: int,
    block_id: usize,
    i_a: int,
    i_b: int,
    before: Seq<Hit>,
    hits: Seq<Hit>,
)
    requires
        valid_lists(a, s_a, b, s_b),
        0 <= i_a,
        i_a + 8 <= s_a,
        0 <= i_b,
        i_b + 8 <= s_b,
        partial_intersection(a, s_a, b, s_b, block_id, i_a, i_b, before),
        hits_within(before, i_a + 8, i_b + 8),
        before.len() <= hits.len(),
        hits.subrange(0, before.len() as int) == before,
        hits_sound(a, s_a, b, s_b, block_id, hits),
        hits_ordered(hits),
        forall|k: int|
            before.len() <= k < hits.len() ==> i_a <= #[trigger] hits[k].pos_a < i_a + 8 && i_b
                <= hits[k].pos_b < i_b + 8,
        block_pair_covered(a, b, i_a, i_b, hits),
    ensures
        hits_within(hits, i_a + 8, i_b + 8),
        a[i_a + 7] <= b[i_b + 7] ==> partial_intersection(
            a,
            s_a,
            b,
            s_b,
            block_id,
            i_a + 8,
            i_b,
            hits,
        ),
        b[i_b + 7] <= a[i_a + 7] ==> partial_intersection(
            a,
            s_a,
            b,
            s_b,
            block_id,
            i_a,
            i_b + 8,
            hits,
        ),
        a[i_a + 7] == b[i_b + 7] ==> partial_intersection(
            a,
            s_a,
            b,
            s_b,
            block_id,
            i_a + 8,
            i_b + 8,
            hits,
        ),
{
    lemma_hit_extend(before, hits);
    assert forall|k: int| 0 <= k < hits.len() implies #[trigger] hits[k].pos_a < i_a + 8
        && hits[k].pos_b < i_b + 8 by {
        if k < before.len() {
            assert(hits[k] == before[k]);
        }
    }
    let a_max = a[i_a + 7];
    let b_max = b[i_b + 7];
    // the pairs met so far, whatever block moves on
    assert forall|i: int, j: int|
        #![trigger a[i], b[j]]
        0 <= i < s_a && 0 <= j < s_b && a[i] == b[j] && (i < i_a || j < i_b) implies hit_at(
        hits,
        i,
        j,
    ) by {
        assert(hit_at(before, i, j));
    }
    if a_max <= b_max {
        assert forall|i: int, j: int|
            #![trigger a[i], b[j]]
            0 <= i < s_a && 0 <= j < s_b && a[i] == b[j] && (i < i_a + 8 || j < i_b) implies hit_at(
            hits,
            i,
            j,
        ) by {
            if i >= i_a && j >= i_b {
                if j >= i_b + 8 {
                    assert(b[j] > b[i_b + 7]);
                    assert(a[i] <= a[i_a + 7]);
                }
            }
        }
        assert forall|k: int, i: int, j: int|
            #![trigger hits[k], a[i], b[j]]
            0 <= k < hits.len() && i_a + 8 <= i < s_a && i_b <= j < s_b && a[i] == b[j] implies hits[k].pos_a
            < i by {}
    }
    if b_max <= a_max {
        assert forall|i: int, j: int|
            #![trigger a[i], b[j]]
            0 <= i < s_a && 0 <= j < s_b && a[i] == b[j] && (i < i_a || j < i_b + 8) implies hit_at(
            hits,
            i,
            j,
        ) by {
            if i >= i_a && j >= i_b {
                if i >= i_a + 8 {
                    assert(a[i] > a[i_a + 7]);
                    assert(b[j] <= b[i_b + 7]);
                }
            }
        }
        assert forall|k: int, i: int, j: int|
            #![trigger hits[k], a[i], b[j]]
            0 <= k < hits.len() && i_a <= i < s_a && i_b + 8 <= j < s_b && a[i] == b[j] implies hits[k].pos_a
            < i by {
            let h = hits[k];
            assert(hit_matches(a, s_a, b, s_b, block_id, h));
            assert(b[h.pos_b as int] < b[j]);
            if h.pos_a >= i {
                assert(a[h.pos_a as int] >= a[i]);
            }
        }
    }
    if a_max == b_max {
        assert forall|i: int, j: int|
            #![trigger a[i], b[j]]
            0 <= i < s_a && 0 <= j < s_b && a[i] == b[j] && (i < i_a + 8 || j < i_b + 8) implies hit_at(
            hits,
            i,
            j,
        ) by {
            if i >= i_a && j >= i_b {
                if j >= i_b + 8 && i < i_a + 8 {
                    assert(b[j] > b[i_b + 7]);
                    assert(a[i] <= a[i_a + 7]);
                }
                if i >= i_a + 8 && j < i_b + 8 {
                    assert(a[i] > a[i_a + 7]);
                    assert(b[j] <= b[i_b + 7]);
                }
            }
        }
        assert forall|k: int, i: int, j: int|
            #![trigger hits[k], a[i], b[j]]
            0 <= k < hits.len() && i_a + 8 <= i < s_a && i_b + 8 <= j < s_b && a[i] == b[j] implies hits[k].pos_a
            < i by {}
    }
}

/// Every lane of the block of `s` at `start` is nonzero when its first lane
/// is and the values increase strictly.
proof fn lemma_block_nonzero(s: Seq<u16>, n: int, start: int)
    requires
        increasing_prefix(s, n),
        0 <= start,
        start + 8 <= n,
        s[start] != 0,
    ensures
        zero_free_len(s, start, 0) == 8,
{
    assert forall|j: int| 0 <= j < 8 implies #[trigger] s[start + j] != 0 by {
        if j > 0 {
            assert(s[start] < s[start + j]);
        }
    }
    lemma_zero_free_len_full(s, start, 0);
}

/// The intersection of `a[..s_a]` and `b[..s_b]`, eight lanes at a time.
///
/// While both lists have whole blocks of eight left, the block of `a` is
/// compared with the block of `b` through an "equal any" lane mask, whose set
/// lanes give the hits; then the block with the smaller maximum moves on (both
/// when the maxima are equal).  As long as a block starts with a zero value
/// the mask takes explicit lengths; after that it takes zero-terminated
/// blocks, which then hold no zero.  The rest is finished by a plain merge.
pub fn intersection_vector16(a: &[u16], s_a: usize, b: &[u16], s_b: usize, block_id: usize) -> (hits:
    Vec<Hit>)
    requires
        valid_lists(a@, s_a as int, b@, s_b as int),
    ensures
        is_intersection(a@, s_a as int, b@, s_b as int, block_id, hits@),
{
    let mut hits: Vec<Hit> = Vec::new();
    let mut i_a: usize = 0;
    let mut i_b: usize = 0;
    let vectorlength = vector_lanes();
    let st_a = (s_a / vectorlength) * vectorlength;
    let st_b = (s_b / vectorlength) * vectorlength;
    if i_a < st_a && i_b < st_b {
        while a[i_a] == 0 || b[i_b] == 0
            invariant_except_break
                i_a < st_a,
                i_b < st_b,
            invariant
                valid_lists(a@, s_a as int, b@, s_b as int),
                vectorlength == 8,
                st_a <= s_a,
                st_b <= s_b,
                st_a % 8 == 0,
                st_b % 8 == 0,
                i_a % 8 == 0,
                i_b % 8 == 0,
                i_a <= st_a,
                i_b <= st_b,
                partial_intersection(
                    a@,
                    s_a as int,
                    b@,
                    s_b as int,
                    block_id,
                    i_a as int,
                    i_b as int,
                    hits@,
                ),
                hits_within(hits@, i_a + 8, i_b + 8),
            ensures
                i_a < st_a && i_b < st_b ==> a@[i_a as int] != 0 && b@[i_b as int] != 0,
            decreases (st_a - i_a) + (st_b - i_b),
        {
            let r = equal_any_mask(a, i_a, vectorlength, b, i_b, vectorlength);
            let ghost before = hits@;
            emit_block_hits(a, s_a, b, s_b, block_id, i_a, i_b, r, &mut hits);
            let a_max = a[i_a + vectorlength - 1];
            let b_max = b[i_b + vectorlength - 1];
            proof {
                lemma_blocks_advance(
                    a@,
                    s_a as int,
                    b@,
                    s_b as int,
                    block_id,
                    i_a as int,
                    i_b as int,
                    before,
                    hits@,
                );
            }
            if a_max <= b_max {
                i_a += vectorlength;
                if i_a == st_a {
                    break ;
                }
            }
            if b_max <= a_max {
                i_b += vectorlength;
                if i_b == st_b {
                    break ;
                }
            }
        }
        if i_a < st_a && i_b < st_b {
            loop
                invariant_except_break
                    i_a < st_a,
                    i_b < st_b,
                    a@[i_a as int] != 0,
                    b@[i_b as int] != 0,
                invariant
                    valid_lists(a@, s_a as int, b@, s_b as int),
                    vectorlength == 8,
                    st_a <= s_a,
                    st_b <= s_b,
                    st_a % 8 == 0,
                    st_b % 8 == 0,
                    i_a % 8 == 0,
                    i_b % 8 == 0,
                    i_a <= st_a,
                    i_b <= st_b,
                    partial_intersection(
                        a@,
                        s_a as int,
                        b@,
                        s_b as int,
                        block_id,
                        i_a as int,
                        i_b as int,
                        hits@,
                    ),
                    hits_within(hits@, i_a + 8, i_b + 8),
                decreases (st_a - i_a) + (st_b - i_b),
            {
                proof {
                    lemma_block_nonzero(a@, s_a as int, i_a as int);
                    lemma_block_nonzero(b@, s_b as int, i_b as int);
                }
                let r = equal_any_mask_implicit(a, i_a, b, i_b);
                let ghost before = hits@;
                emit_block_hits(a, s_a, b, s_b, block_id, i_a, i_b, r, &mut hits);
                let a_max = a[i_a + vectorlength - 1];
                let b_max = b[i_b + vectorlength - 1];
                proof {
                    lemma_blocks_advance(
                        a@,
                        s_a as int,
                        b@,
                        s_b as int,
                        block_id,
                        i_a as int,
                        i_b as int,
                        before,
                        hits@,
                    );
                }
                if a_max <= b_max {
                    i_a += vectorlength;
                    if i_a == st_a {
                        break ;
                    }
                    proof {
                        assert(a@[i_a - 8] < a@[i_a as int]);
                    }
                }
                if b_max <= a_max {
                    i_b += vectorlength;
                    if i_b == st_b {
                        break ;
                    }
                    proof {
                        assert(b@[i_b - 8] < b@[i_b as int]);
                    }
                }
            }
        }
    }
    merge_tail(a, s_a, b, s_b, block_id, i_a, i_b, &mut hits);
    hits
}

} // verus!
