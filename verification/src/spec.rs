//! The mathematical model of a block intersection.
use vstd::prelude::*;

verus! {

/// One document found in both lists: its full id, and its index in each list.
#[derive(Clone, Copy, Debug, PartialEq, Eq, Structural)]
pub struct Hit {
    pub doc_id: usize,
    pub pos_a: usize,
    pub pos_b: usize,
}

/// The first `n` values of `s` are strictly increasing.
pub open spec fn increasing_prefix(s: Seq<u16>, n: int) -> bool {
    forall|i: int, j: int| 0 <= i < j < n ==> #[trigger] s[i] < #[trigger] s[j]
}

/// The inputs every intersection accepts: two counts within their slices,
/// each counted prefix strictly increasing (a block of a posting list).
pub open spec fn valid_lists(a: Seq<u16>, s_a: int, b: Seq<u16>, s_b: int) -> bool {
    &&& 0 <= s_a <= a.len()
    &&& 0 <= s_b <= b.len()
    &&& increasing_prefix(a, s_a)
    &&& increasing_prefix(b, s_b)
}

/// Tells whether `a[..s_a]` and `b[..s_b]` are inputs every intersection
/// accepts: counts within the slices, values strictly increasing.
pub fn lists_are_valid(a: &[u16], s_a: usize, b: &[u16], s_b: usize) -> (ok: bool)
    ensures
        ok == valid_lists(a@, s_a as int, b@, s_b as int),
        ok == (s_a <= a.len() && s_b <= b.len() && (forall|i: int, j: int|
            0 <= i < j < s_a ==> #[trigger] a@[i] < #[trigger] a@[j]) && (forall|i: int, j: int|
            0 <= i < j < s_b ==> #[trigger] b@[i] < #[trigger] b@[j])),
{
    proof {
        crate::laws::lemma_valid_lists_exact(a@, s_a as int, b@, s_b as int);
    }
    s_a <= a.len() && s_b <= b.len() && strictly_increasing(a, s_a) && strictly_increasing(b, s_b)
}

/// Tells whether the first `n` values of `s` are strictly increasing.
pub fn strictly_increasing(s: &[u16], n: usize) -> (ok: bool)
    requires
        n <= s.len(),
    ensures
        ok == increasing_prefix(s@, n as int),
        ok == (forall|i: int, j: int| 0 <= i < j < n ==> #[trigger] s@[i] < #[trigger] s@[j]),
{
    proof {
        crate::laws::lemma_increasing_prefix_exact(s@, n as int);
    }
    let mut k: usize = 1;
    while k < n
        invariant
            1 <= k,
            n <= s.len(),
            k <= n || n == 0,
            increasing_prefix(s@, k as int),
        decreases n - k,
    {
        if s[k - 1] >= s[k] {
            return false;
        }
        proof {
            assert forall|i: int, j: int| 0 <= i < j < k + 1 implies #[trigger] s@[i] < #[trigger] s@[j] by {
                if j == k && i < k - 1 {
                    assert(s@[i] < s@[k - 1]);
                }
            }
        }
        k += 1;
    }
    true
}

/// The full document id of the value `value` of block `block_id`.
pub open spec fn doc_id_of(block_id: usize, value: u16) -> usize {
    (block_id << 16usize) | (value as usize)
}

/// `h` names an index of `a` and an index of `b` (within the counts) that
/// hold the same value, and carries that value's document id.
pub open spec fn hit_matches(
    a: Seq<u16>,
    s_a: int,
    b: Seq<u16>,
    s_b: int,
    block_id: usize,
    h: Hit,
) -> bool {
    &&& h.pos_a < s_a
    &&& h.pos_b < s_b
    &&& a[h.pos_a as int] == b[h.pos_b as int]
    &&& h.doc_id == doc_id_of(block_id, a[h.pos_a as int])
}

/// Every hit of `hits` matches.
pub open spec fn hits_sound(
    a: Seq<u16>,
    s_a: int,
    b: Seq<u16>,
    s_b: int,
    block_id: usize,
    hits: Seq<Hit>,
) -> bool {
    forall|k: int| 0 <= k < hits.len() ==> hit_matches(a, s_a, b, s_b, block_id, #[trigger] hits[k])
}

/// The hits come in strictly increasing order of their index in `a`.
pub open spec fn hits_ordered(hits: Seq<Hit>) -> bool {
    forall|k: int, l: int| 0 <= k < l < hits.len() ==> #[trigger] hits[k].pos_a < #[trigger] hits[l].pos_a
}

/// Some hit of `hits` pairs index `i` of `a` with index `j` of `b`.
pub open spec fn hit_at(hits: Seq<Hit>, i: int, j: int) -> bool {
    exists|k: int| #![trigger hits[k]] 0 <= k < hits.len() && hits[k].pos_a == i && hits[k].pos_b == j
}

/// Every pair of equal values with index in `a` below `i_a`, or index in `b`
/// below `i_b`, has its hit.
pub open spec fn covered_below(
    a: Seq<u16>,
    s_a: int,
    b: Seq<u16>,
    s_b: int,
    i_a: int,
    i_b: int,
    hits: Seq<Hit>,
) -> bool {
    forall|i: int, j: int|
        #![trigger a[i], b[j]]
        0 <= i < s_a && 0 <= j < s_b && a[i] == b[j] && (i < i_a || j < i_b) ==> hit_at(hits, i, j)
}

/// What a merge has produced once it stands at index `i_a` of `a` and `i_b`
/// of `b`: sound, ordered hits, all before `i_a`, covering every pair below.
pub open spec fn partial_intersection(
    a: Seq<u16>,
    s_a: int,
    b: Seq<u16>,
    s_b: int,
    block_id: usize,
    i_a: int,
    i_b: int,
    hits: Seq<Hit>,
) -> bool {
    &&& hits_sound(a, s_a, b, s_b, block_id, hits)
    &&& hits_ordered(hits)
    &&& hits_before(a, s_a, b, s_b, i_a, i_b, hits)
    &&& covered_below(a, s_a, b, s_b, i_a, i_b, hits)
}

/// Every hit lies before, in `a`, every pair of equal values not yet
/// covered (index at least `i_a` in `a` and at least `i_b` in `b`).
pub open spec fn hits_before(
    a: Seq<u16>,
    s_a: int,
    b: Seq<u16>,
    s_b: int,
    i_a: int,
    i_b: int,
    hits: Seq<Hit>,
) -> bool {
    forall|k: int, i: int, j: int|
        #![trigger hits[k], a[i], b[j]]
        0 <= k < hits.len() && i_a <= i < s_a && i_b <= j < s_b && a[i] == b[j] ==> hits[k].pos_a
            < i
}

/// Every hit has its index in `a` below `e_a` and its index in `b` below `e_b`.
pub open spec fn hits_within(hits: Seq<Hit>, e_a: int, e_b: int) -> bool {
    forall|k: int| 0 <= k < hits.len() ==> #[trigger] hits[k].pos_a < e_a && hits[k].pos_b < e_b
}

/// `hits` is the intersection of `a[..s_a]` and `b[..s_b]`: one sound hit for
/// every pair of equal values, and nothing else, in the order of `a`.
pub open spec fn is_intersection(
    a: Seq<u16>,
    s_a: int,
    b: Seq<u16>,
    s_b: int,
    block_id: usize,
    hits: Seq<Hit>,
) -> bool {
    &&& hits_sound(a, s_a, b, s_b, block_id, hits)
    &&& hits_ordered(hits)
    &&& forall|i: int, j: int|
        #![trigger a[i], b[j]]
        0 <= i < s_a && 0 <= j < s_b && a[i] == b[j] ==> hit_at(hits, i, j)
}

/// Appending a hit keeps every pair that was there, and adds its own.
pub proof fn lemma_hit_push(hits: Seq<Hit>, h: Hit)
    ensures
        forall|i: int, j: int|
            #![trigger hit_at(hits.push(h), i, j)]
            hit_at(hits, i, j) ==> hit_at(hits.push(h), i, j),
        hit_at(hits.push(h), h.pos_a as int, h.pos_b as int),
{
    let n = hits.push(h);
    assert forall|i: int, j: int| #![trigger hit_at(n, i, j)] hit_at(hits, i, j) implies hit_at(
        n,
        i,
        j,
    ) by {
        let k = choose|k: int| #![trigger hits[k]] 0 <= k < hits.len() && hits[k].pos_a == i
            && hits[k].pos_b == j;
        assert(n[k] == hits[k]);
    }
    assert(n[hits.len() as int] == h);
}

/// A list that extends another keeps every pair of the other.
pub proof fn lemma_hit_extend(h1: Seq<Hit>, h2: Seq<Hit>)
    requires
        h1.len() <= h2.len(),
        h2.subrange(0, h1.len() as int) == h1,
    ensures
        forall|i: int, j: int| #![trigger hit_at(h2, i, j)] hit_at(h1, i, j) ==> hit_at(h2, i, j),
{
    assert forall|i: int, j: int| #![trigger hit_at(h2, i, j)] hit_at(h1, i, j) implies hit_at(
        h2,
        i,
        j,
    ) by {
        let k = choose|k: int| #![trigger h1[k]] 0 <= k < h1.len() && h1[k].pos_a == i && h1[k].pos_b
            == j;
        assert(h2.subrange(0, h1.len() as int)[k] == h2[k]);
    }
}

/// Two hit lists ordered by their index in `a`, each holding every hit of the
/// other, are the same list.
pub proof fn lemma_same_members(h1: Seq<Hit>, h2: Seq<Hit>)
    requires
        hits_ordered(h1),
        hits_ordered(h2),
        forall|k: int| 0 <= k < h1.len() ==> h2.contains(#[trigger] h1[k]),
        forall|k: int| 0 <= k < h2.len() ==> h1.contains(#[trigger] h2[k]),
    ensures
        h1 == h2,
    decreases h1.len() + h2.len(),
{
    if h1.len() == 0 {
        if h2.len() > 0 {
            assert(h1.contains(h2[0]));
        }
        assert(h1 =~= h2);
    } else if h2.len() == 0 {
        assert(h2.contains(h1[0]));
    } else {
        let n1 = h1.len() - 1;
        let n2 = h2.len() - 1;
        assert(h2.contains(h1[n1]));
        assert(h1.contains(h2[n2]));
        let m2 = choose|m: int| 0 <= m < h2.len() && h2[m] == h1[n1];
        let m1 = choose|m: int| 0 <= m < h1.len() && h1[m] == h2[n2];
        assert(m2 == n2) by {
            if m2 < n2 {
                assert(h2[m2].pos_a < h2[n2].pos_a);
                if m1 < n1 {
                    assert(h1[m1].pos_a < h1[n1].pos_a);
                }
            }
        }
        let t1 = h1.drop_last();
        let t2 = h2.drop_last();
        assert forall|k: int| 0 <= k < t1.len() implies t2.contains(#[trigger] t1[k]) by {
            assert(h2.contains(h1[k]));
            let m = choose|m: int| 0 <= m < h2.len() && h2[m] == h1[k];
            assert(h1[k].pos_a < h1[n1].pos_a);
            assert(m != n2);
            assert(t2[m] == h1[k]);
        }
        assert forall|k: int| 0 <= k < t2.len() implies t1.contains(#[trigger] t2[k]) by {
            assert(h1.contains(h2[k]));
            let m = choose|m: int| 0 <= m < h1.len() && h1[m] == h2[k];
            assert(h2[k].pos_a < h2[n2].pos_a);
            assert(m != n1);
            assert(t1[m] == h2[k]);
        }
        lemma_same_members(t1, t2);
        assert(h1 =~= t1.push(h1[n1]));
        assert(h2 =~= t2.push(h2[n2]));
    }
}

/// The intersection of two lists is a single, fixed list of hits: any two hit
/// lists that are both the intersection of the same inputs are equal.  Hence
/// every strategy of this crate returns the very same hits.
pub proof fn lemma_intersection_unique(
    a: Seq<u16>,
    s_a: int,
    b: Seq<u16>,
    s_b: int,
    block_id: usize,
    h1: Seq<Hit>,
    h2: Seq<Hit>,
)
    requires
        is_intersection(a, s_a, b, s_b, block_id, h1),
        is_intersection(a, s_a, b, s_b, block_id, h2),
    ensures
        h1 == h2,
{
    assert forall|k: int| 0 <= k < h1.len() implies h2.contains(#[trigger] h1[k]) by {
        let x = h1[k];
        assert(hit_matches(a, s_a, b, s_b, block_id, x));
        let i = x.pos_a as int;
        let j = x.pos_b as int;
        assert(a[i] == b[j]);
        assert(hit_at(h2, i, j));
        let m = choose|m: int| #![trigger h2[m]] 0 <= m < h2.len() && h2[m].pos_a == i && h2[m].pos_b == j;
        assert(hit_matches(a, s_a, b, s_b, block_id, h2[m]));
        assert(h2[m] == x);
    }
    assert forall|k: int| 0 <= k < h2.len() implies h1.contains(#[trigger] h2[k]) by {
        let x = h2[k];
        assert(hit_matches(a, s_a, b, s_b, block_id, x));
        let i = x.pos_a as int;
        let j = x.pos_b as int;
        assert(a[i] == b[j]);
        assert(hit_at(h1, i, j));
        let m = choose|m: int| #![trigger h1[m]] 0 <= m < h1.len() && h1[m].pos_a == i && h1[m].pos_b == j;
        assert(hit_matches(a, s_a, b, s_b, block_id, h1[m]));
        assert(h1[m] == x);
    }
    lemma_same_members(h1, h2);
}

} // verus!
