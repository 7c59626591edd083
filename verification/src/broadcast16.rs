//! Value-against-block intersection: one value of `a` is compared with the
//! eight lanes of a block of `b` at once.
use vstd::prelude::*;
use crate::spec::{
    Hit, valid_lists, hit_at, hit_matches, partial_intersection, is_intersection, lemma_hit_push,
};
use crate::lanes::{lane_set, lane_bit, equal_lanes_mask, vector_lanes};
use crate::merge::{doc_id, merge_tail};

verus! {

/// The intersection of `a[..s_a]` and `b[..s_b]`, one value of `a` against
/// eight lanes of `b` at a time.
///
/// While `b` has a whole block of eight left: a value of `a` below the block's
/// first value moves on alone; a value above the block's last value moves the
/// block on; otherwise the value is compared with every lane of the block at
/// once, the first equal lane gives the hit, and the value moves on.  The rest
/// is finished by a plain merge.
pub fn intersection_broadcast16(a: &[u16], s_a: usize, b: &[u16], s_b: usize, block_id: usize) -> (hits:
    Vec<Hit>)
    requires
        valid_lists(a@, s_a as int, b@, s_b as int),
    ensures
        is_intersection(a@, s_a as int, b@, s_b as int, block_id, hits@),
{
    let mut hits: Vec<Hit> = Vec::new();
    let mut i_a: usize = 0;
    let mut i_b: usize = 0;
    let vectorlength = vector_lanes();
    let st_b = (s_b / vectorlength) * vectorlength;
    while i_a < s_a && i_b < st_b
        invariant
            valid_lists(a@, s_a as int, b@, s_b as int),
            vectorlength == 8,
            st_b <= s_b,
            st_b % 8 == 0,
            i_b % 8 == 0,
            i_a <= s_a,
            i_b <= st_b,
            partial_intersection(
                a@,
                s_a as int,
                b@,
                s_b as int,
                block_id,
                i_a as int,
                i_b as int,
                hits@,
            ),
        decreases (s_a - i_a) + (st_b - i_b),
    {
        if a[i_a] < b[i_b] {
            i_a += 1;
            continue ;
        } else if a[i_a] > b[i_b + vectorlength - 1] {
            proof {
                assert forall|i: int, j: int|
                    #![trigger a@[i], b@[j]]
                    i_a <= i < s_a && i_b <= j < i_b + 8 implies a@[i] != b@[j] by {
                    if i > i_a {
                        assert(a@[i_a as int] < a@[i]);
                    }
                    if j < i_b + 7 {
                        assert(b@[j] < b@[i_b + 7]);
                    }
                }
            }
            i_b += vectorlength;
            continue ;
        }
        let value = a[i_a];
        let res = equal_lanes_mask(value, b, i_b);
        let ghost before = hits@;
        let mut i: usize = 0;
        while i < vectorlength
            invariant_except_break
                hits@ == before,
                forall|m: u32| m < i ==> !#[trigger] lane_bit(res, m),
            invariant
                valid_lists(a@, s_a as int, b@, s_b as int),
                vectorlength == 8,
                i <= 8,
                i_a < s_a,
                i_b + 8 <= s_b,
                value == a@[i_a as int],
                b@[i_b as int] <= value <= b@[i_b + 7],
                res < 256,
                forall|k: u32| k < 8 ==> (#[trigger] lane_bit(res, k) <==> b@[i_b + k] == value),
                partial_intersection(
                    a@,
                    s_a as int,
                    b@,
                    s_b as int,
                    block_id,
                    i_a as int,
                    i_b as int,
                    before,
                ),
            ensures
                hits@ == before ==> forall|m: u32| m < 8 ==> !#[trigger] lane_bit(res, m),
                hits@ != before ==> partial_intersection(
                    a@,
                    s_a as int,
                    b@,
                    s_b as int,
                    block_id,
                    i_a + 1,
                    i_b as int,
                    hits@,
                ),
            decreases 8 - i,
        {
            if lane_set(res, i as u32) {
                let h = Hit { doc_id: doc_id(block_id, value), pos_a: i_a, pos_b: i_b + i };
                proof {
                    lemma_hit_push(hits@, h);
                    let n = hits@.push(h);
                    assert forall|k: int| 0 <= k < n.len() implies hit_matches(
                        a@,
                        s_a as int,
                        b@,
                        s_b as int,
                        block_id,
                        #[trigger] n[k],
                    ) by {
                        if k < hits@.len() {
                            assert(n[k] == hits@[k]);
                        }
                    }
                    assert forall|k: int, l: int| 0 <= k < l < n.len() implies #[trigger] n[k].pos_a
                        < #[trigger] n[l].pos_a by {
                        if l == hits@.len() {
                            assert(n[k] == hits@[k]);
                            assert(a@[i_a as int] == b@[i_b + i]);
                        }
                    }
                    assert forall|ii: int, j: int|
                        #![trigger a@[ii], b@[j]]
                        0 <= ii < s_a && 0 <= j < s_b && a@[ii] == b@[j] && (ii < i_a + 1 || j < i_b)
                        implies hit_at(n, ii, j) by {
                        if ii == i_a && j >= i_b {
                            if j < i_b + i {
                                assert(b@[j] < b@[i_b + i]);
                            } else if j > i_b + i {
                                assert(b@[j] > b@[i_b + i]);
                            }
                        }
                    }
                    assert forall|k: int, ii: int, j: int|
                        #![trigger n[k], a@[ii], b@[j]]
                        0 <= k < n.len() && i_a + 1 <= ii < s_a && i_b <= j < s_b && a@[ii] == b@[j]
                        implies n[k].pos_a < ii by {
                        if k < hits@.len() {
                            assert(n[k] == hits@[k]);
                        }
                    }
                }
                hits.push(h);
                assert(hits@.len() == before.len() + 1);
                break ;
            }
            i += 1;
        }
        proof {
            if hits@ == before {
                assert forall|j: int| #![trigger b@[j]] i_b <= j < s_b implies b@[j] != value by {
                    if j < i_b + 8 {
                        let m = (j - i_b) as u32;
                        assert(!lane_bit(res, m));
                        assert(b@[i_b + m] == b@[j]);
                    } else {
                        assert(b@[i_b + 7] < b@[j]);
                    }
                }
                assert forall|ii: int, j: int|
                    #![trigger a@[ii], b@[j]]
                    0 <= ii < s_a && 0 <= j < s_b && a@[ii] == b@[j] && (ii < i_a + 1 || j < i_b)
                    implies hit_at(hits@, ii, j) by {
                    if ii == i_a && j >= i_b {
                        assert(b@[j] != value);
                    }
                }
            }
        }
        i_a += 1;
    }
    merge_tail(a, s_a, b, s_b, block_id, i_a, i_b, &mut hits);
    hits
}

} // verus!
