//! Properties of every block intersection, whichever strategy computed it.
use vstd::prelude::*;
use crate::spec::{
    Hit, valid_lists, increasing_prefix, doc_id_of, hit_matches, hit_at, hits_ordered, is_intersection,
    lemma_intersection_unique,
};

verus! {

/// Document ids of one block grow with the value.
proof fn lemma_doc_id_monotone(block_id: usize, v1: u16, v2: u16)
    by (bit_vector)
    requires
        v1 < v2,
    ensures
        (block_id << 16usize) | (v1 as usize) < (block_id << 16usize) | (v2 as usize),
{
}

/// The low 16 bits of a document id are the value it was made from.
pub proof fn lemma_doc_id_low_bits(block_id: usize, value: u16)
    by (bit_vector)
    ensures
        (doc_id_of(block_id, value) & 0xffffusize) == value as usize,
{
}

/// The hits of an intersection come in strictly increasing order of document
/// id, and in strictly increasing order of their index in `b` as well as in `a`.
pub proof fn lemma_hits_ascending(
    a: Seq<u16>,
    s_a: int,
    b: Seq<u16>,
    s_b: int,
    block_id: usize,
    hits: Seq<Hit>,
)
    requires
        valid_lists(a, s_a, b, s_b),
        is_intersection(a, s_a, b, s_b, block_id, hits),
    ensures
        forall|k: int, l: int|
            0 <= k < l < hits.len() ==> #[trigger] hits[k].doc_id < #[trigger] hits[l].doc_id
                && hits[k].pos_b < hits[l].pos_b,
{
    assert forall|k: int, l: int| 0 <= k < l < hits.len() implies #[trigger] hits[k].doc_id
        < #[trigger] hits[l].doc_id && hits[k].pos_b < hits[l].pos_b by {
        let x = hits[k];
        let y = hits[l];
        assert(hit_matches(a, s_a, b, s_b, block_id, x));
        assert(hit_matches(a, s_a, b, s_b, block_id, y));
        assert(x.pos_a < y.pos_a);
        let vx = a[x.pos_a as int];
        let vy = a[y.pos_a as int];
        assert(vx < vy);
        lemma_doc_id_monotone(block_id, vx, vy);
        if x.pos_b >= y.pos_b {
            assert(b[y.pos_b as int] <= b[x.pos_b as int]);
        }
    }
}

/// A hit with its two indices exchanged.
pub open spec fn swap_hit(h: Hit) -> Hit {
    Hit { doc_id: h.doc_id, pos_a: h.pos_b, pos_b: h.pos_a }
}

/// Intersecting `b` with `a` gives the hits of intersecting `a` with `b`,
/// each with its two indices exchanged: the same documents, in the same order.
pub proof fn lemma_intersection_symmetric(
    a: Seq<u16>,
    s_a: int,
    b: Seq<u16>,
    s_b: int,
    block_id: usize,
    ab: Seq<Hit>,
    ba: Seq<Hit>,
)
    requires
        valid_lists(a, s_a, b, s_b),
        is_intersection(a, s_a, b, s_b, block_id, ab),
        is_intersection(b, s_b, a, s_a, block_id, ba),
    ensures
        ba == ab.map_values(|h: Hit| swap_hit(h)),
{
    let sw = ab.map_values(|h: Hit| swap_hit(h));
    lemma_hits_ascending(a, s_a, b, s_b, block_id, ab);
    assert forall|k: int| 0 <= k < sw.len() implies hit_matches(
        b,
        s_b,
        a,
        s_a,
        block_id,
        #[trigger] sw[k],
    ) by {
        assert(hit_matches(a, s_a, b, s_b, block_id, ab[k]));
    }
    assert(hits_ordered(sw)) by {
        assert forall|k: int, l: int| 0 <= k < l < sw.len() implies #[trigger] sw[k].pos_a
            < #[trigger] sw[l].pos_a by {
            assert(ab[k].pos_b < ab[l].pos_b);
        }
    }
    assert forall|j: int, i: int|
        #![trigger b[j], a[i]]
        0 <= j < s_b && 0 <= i < s_a && b[j] == a[i] implies hit_at(sw, j, i) by {
        assert(hit_at(ab, i, j));
        let k = choose|k: int| #![trigger ab[k]] 0 <= k < ab.len() && ab[k].pos_a == i && ab[k].pos_b
            == j;
        assert(sw[k] == swap_hit(ab[k]));
    }
    lemma_intersection_unique(b, s_b, a, s_a, block_id, sw, ba);
}

/// A document id is its block id times 65536 plus its value, whenever that
/// sum fits in a `usize`, so that dividing it by 65536 gives back the block
/// id; its value is the remainder modulo 65536 in every case.
pub proof fn lemma_doc_id_arithmetic(block_id: usize, value: u16)
    ensures
        block_id * 65536 + value <= usize::MAX ==> doc_id_of(block_id, value) == block_id * 65536
            + value,
        block_id * 65536 + value <= usize::MAX ==> doc_id_of(block_id, value) / 65536 == block_id,
        doc_id_of(block_id, value) % 65536 == value,
{
    lemma_doc_id_bits(block_id, value);
    let sum = block_id * 65536 + value;
    if sum <= usize::MAX {
        assert(sum as usize == sum);
        assert(sum / 65536 == block_id) by (nonlinear_arith)
            requires
                sum == block_id * 65536 + value,
                0 <= value < 65536,
        ;
    }
}

proof fn lemma_doc_id_bits(block_id: usize, value: u16)
    by (bit_vector)
    ensures
        (block_id << 16usize) | (value as usize) == ((block_id * 65536 + value) as usize),
        ((block_id << 16usize) | (value as usize)) % 65536 == value,
{
}

/// Two documents of different blocks, or of different values, never share an
/// id, as long as their ids fit in a `usize` without wrapping.
pub proof fn lemma_doc_id_injective(b1: usize, v1: u16, b2: usize, v2: u16)
    requires
        b1 * 65536 + v1 <= usize::MAX,
        b2 * 65536 + v2 <= usize::MAX,
        doc_id_of(b1, v1) == doc_id_of(b2, v2),
    ensures
        b1 == b2,
        v1 == v2,
{
    lemma_doc_id_arithmetic(b1, v1);
    lemma_doc_id_arithmetic(b2, v2);
}

/// The first `n` values of `s` are accepted exactly when each is smaller than
/// every later one, whatever `n` is.
pub proof fn lemma_increasing_prefix_exact(s: Seq<u16>, n: int)
    ensures
        increasing_prefix(s, n) == (forall|i: int, j: int|
            0 <= i < j < n ==> #[trigger] s[i] < #[trigger] s[j]),
{
}

/// Two blocks are accepted exactly when both counts lie within their slices
/// and both counted prefixes are strictly increasing; their lengths are
/// otherwise free (either may be the longer).
pub proof fn lemma_valid_lists_exact(a: Seq<u16>, s_a: int, b: Seq<u16>, s_b: int)
    ensures
        valid_lists(a, s_a, b, s_b) == (0 <= s_a <= a.len() && 0 <= s_b <= b.len() && (forall|
            i: int,
            j: int,
        | 0 <= i < j < s_a ==> #[trigger] a[i] < #[trigger] a[j]) && (forall|i: int, j: int|
            0 <= i < j < s_b ==> #[trigger] b[i] < #[trigger] b[j])),
{
    lemma_increasing_prefix_exact(a, s_a);
    lemma_increasing_prefix_exact(b, s_b);
}

/// A block whose values are its own indices, of any length up to 65536, is
/// strictly increasing; so is every shorter prefix of a strictly increasing one.
pub proof fn lemma_increasing_prefix_examples(s: Seq<u16>, n: int, m: int)
    ensures
        (n <= 65536 && n <= s.len() && forall|i: int| 0 <= i < n ==> #[trigger] s[i] == i)
            ==> increasing_prefix(s, n),
        (increasing_prefix(s, n) && m <= n) ==> increasing_prefix(s, m),
{
}

/// What it means for `hits` to be the intersection, spelled out: each hit
/// names an index of `a` below `s_a` and an index of `b` below `s_b` holding
/// the same value and carries that value's document id; the hits go up in
/// their index in `a`; and every pair of equal values has a hit.
pub proof fn lemma_intersection_meaning(
    a: Seq<u16>,
    s_a: int,
    b: Seq<u16>,
    s_b: int,
    block_id: usize,
    hits: Seq<Hit>,
)
    ensures
        is_intersection(a, s_a, b, s_b, block_id, hits) == ((forall|k: int|
            0 <= k < hits.len() ==> {
                let h = #[trigger] hits[k];
                &&& h.pos_a < s_a
                &&& h.pos_b < s_b
                &&& a[h.pos_a as int] == b[h.pos_b as int]
                &&& h.doc_id == doc_id_of(block_id, a[h.pos_a as int])
            }) && (forall|k: int, l: int|
            0 <= k < l < hits.len() ==> #[trigger] hits[k].pos_a < #[trigger] hits[l].pos_a) && (
        forall|i: int, j: int|
            #![trigger a[i], b[j]]
            0 <= i < s_a && 0 <= j < s_b && a[i] == b[j] ==> exists|k: int|
                #![trigger hits[k]]
                0 <= k < hits.len() && hits[k].pos_a == i && hits[k].pos_b == j)),
{
}

} // verus!
