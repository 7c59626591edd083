//! Lane masks of one 128-bit vector of eight 16-bit values, and the bit facts
//! that walking such a mask needs.
use vstd::prelude::*;
use vstd::std_specs::bits::{axiom_u32_trailing_zeros, u32_trailing_zeros};

verus! {

/// Lane `k` of mask `m` is set.
pub open spec fn lane_bit(m: u32, k: u32) -> bool {
    (m >> k) & 1u32 == 1u32
}

/// Reads lane `k` of mask `m`.
pub fn lane_set(m: u32, k: u32) -> (set: bool)
    requires
        k < 32,
    ensures
        set == lane_bit(m, k),
{
    (m >> k) & 1u32 == 1u32
}

/// The number of 16-bit lanes in a 128-bit vector register.
pub fn vector_lanes() -> (n: usize)
    ensures
        n == 8,
{
    proof {
        broadcast use vstd::layout::layout_of_primitives;

    }
    core::mem::size_of::<u128>() / core::mem::size_of::<u16>()
}

/// Setting lane `k` sets that lane and leaves the others.
pub proof fn lemma_set_lane(r: u32, k: u32, m: u32)
    by (bit_vector)
    requires
        k < 32,
        m < 32,
    ensures
        lane_bit(r | (1u32 << k), m) == (lane_bit(r, m) || m == k),
{
}

/// A mask of the eight lanes stays below 256 when one of them is set.
pub proof fn lemma_set_lane_small(r: u32, k: u32)
    by (bit_vector)
    requires
        r < 256,
        k < 8,
    ensures
        r | (1u32 << k) < 256,
{
}

/// A mask below 256 has no lane from 8 on.
pub proof fn lemma_small_mask(m: u32, k: u32)
    by (bit_vector)
    requires
        m < 256,
        8 <= k < 32,
    ensures
        !lane_bit(m, k),
{
}

/// The empty mask has no lane.
pub proof fn lemma_zero_mask(k: u32)
    by (bit_vector)
    requires
        k < 32,
    ensures
        !lane_bit(0, k),
{
}

/// Clearing the lowest set lane `t` of `m` (`m & (m - 1)`) clears that lane,
/// keeps every other lane, and makes the mask smaller.
proof fn lemma_clear_lowest_bv(m: u32, t: u32, k: u32)
    by (bit_vector)
    requires
        t < 32,
        k < 32,
        (m >> t) & 1u32 == 1u32,
        m << ((32 - t) as u32) == 0,
    ensures
        lane_bit(m & ((m - 1) as u32), k) == (lane_bit(m, k) && k != t),
        m & ((m - 1) as u32) < m,
        m < 256 ==> m & ((m - 1) as u32) < 256,
{
}

/// What `trailing_zeros` and `m & (m - 1)` do to a nonzero mask of eight
/// lanes: the first is its lowest set lane, the second clears exactly it.
pub proof fn lemma_lowest_lane(m: u32)
    requires
        m != 0,
        m < 256,
    ensures
        u32_trailing_zeros(m) < 8,
        lane_bit(m, u32_trailing_zeros(m)),
        forall|k: u32| k < u32_trailing_zeros(m) ==> !lane_bit(m, k),
        forall|k: u32|
            k < 32 ==> #[trigger] lane_bit(m & ((m - 1) as u32), k) == (lane_bit(m, k) && k
                != u32_trailing_zeros(m)),
        m & ((m - 1) as u32) < m,
        m & ((m - 1) as u32) < 256,
{
    axiom_u32_trailing_zeros(m);
    let t = u32_trailing_zeros(m);
    assert(t < 32);
    assert(lane_bit(m, t));
    if t >= 8 {
        lemma_small_mask(m, t);
    }
    assert forall|k: u32| k < t implies !lane_bit(m, k) by {
        assert((m >> k) & 1u32 == 0u32);
    }
    assert forall|k: u32| k < 32 implies #[trigger] lane_bit(m & ((m - 1) as u32), k) == (
    lane_bit(m, k) && k != t) by {
        lemma_clear_lowest_bv(m, t, k);
    }
    lemma_clear_lowest_bv(m, t, 0);
}

/// Some of the first `len` lanes of the block of `s` at `start` holds `v`.
pub open spec fn block_has(s: Seq<u16>, start: int, len: int, v: u16) -> bool {
    exists|j: int| 0 <= j < len && #[trigger] s[start + j] == v
}

/// The number of lanes of the block of `s` at `start` before its first zero
/// lane (all eight when there is none), counted from lane `k` on.
pub open spec fn zero_free_len(s: Seq<u16>, start: int, k: int) -> int
    decreases 8 - k,
{
    if k >= 8 {
        8
    } else if s[start + k] == 0 {
        k
    } else {
        zero_free_len(s, start, k + 1)
    }
}

/// A block without a zero lane is read whole.
pub proof fn lemma_zero_free_len_full(s: Seq<u16>, start: int, k: int)
    requires
        0 <= k <= 8,
        forall|j: int| k <= j < 8 ==> #[trigger] s[start + j] != 0,
    ensures
        zero_free_len(s, start, k) == 8,
    decreases 8 - k,
{
    if k < 8 {
        assert(s[start + k] != 0);
        lemma_zero_free_len_full(s, start, k + 1);
    }
}

/// "Equal any" lane mask with explicit lengths: lane `k` is set when `k` is
/// below `len_a` and value `k` of the block of `a` at `ia` occurs among the
/// first `len_b` values of the block of `b` at `ib`.
pub fn equal_any_mask(a: &[u16], ia: usize, len_a: usize, b: &[u16], ib: usize, len_b: usize) -> (r:
    u32)
    requires
        len_a <= 8,
        len_b <= 8,
        ia + len_a <= a.len(),
        ib + len_b <= b.len(),
    ensures
        r < 256,
        forall|k: u32|
            k < 8 ==> (#[trigger] lane_bit(r, k) <==> (k < len_a && block_has(
                b@,
                ib as int,
                len_b as int,
                a@[ia + k],
            ))),
{
    let mut r: u32 = 0;
    let mut k: usize = 0;
    proof {
        assert forall|m: u32| m < 8 implies !#[trigger] lane_bit(r, m) by {
            lemma_zero_mask(m);
        }
    }
    while k < len_a
        invariant
            k <= len_a <= 8,
            len_b <= 8,
            ia + len_a <= a.len(),
            ib + len_b <= b.len(),
            r < 256,
            forall|m: u32|
                m < 8 ==> (#[trigger] lane_bit(r, m) <==> (m < k && block_has(
                    b@,
                    ib as int,
                    len_b as int,
                    a@[ia + m],
                ))),
        decreases len_a - k,
    {
        let v = a[ia + k];
        let mut found = false;
        let mut j: usize = 0;
        while j < len_b
            invariant
                j <= len_b <= 8,
                ib + len_b <= b.len(),
                found <==> exists|jj: int| 0 <= jj < j && #[trigger] b@[ib + jj] == v,
            decreases len_b - j,
        {
            if b[ib + j] == v {
                found = true;
            }
            j += 1;
        }
        assert(found <==> block_has(b@, ib as int, len_b as int, v));
        if found {
            let kk = k as u32;
            proof {
                lemma_set_lane_small(r, kk);
                assert forall|m: u32| m < 8 implies #[trigger] lane_bit(r | (1u32 << kk), m) == (
                lane_bit(r, m) || m == kk) by {
                    lemma_set_lane(r, kk, m);
                }
            }
            r = r | (1u32 << kk);
        }
        k += 1;
    }
    r
}

/// Number of lanes of the block of `s` at `start` before its first zero.
pub fn zero_terminated_len(s: &[u16], start: usize) -> (n: usize)
    requires
        start + 8 <= s.len(),
    ensures
        n == zero_free_len(s@, start as int, 0),
        n <= 8,
{
    let mut k: usize = 0;
    while k < 8 && s[start + k] != 0
        invariant
            k <= 8,
            start + 8 <= s.len(),
            zero_free_len(s@, start as int, k as int) == zero_free_len(s@, start as int, 0),
        decreases 8 - k,
    {
        k += 1;
    }
    k
}

/// "Equal any" lane mask with implicit lengths: each block ends at its first
/// zero lane.
pub fn equal_any_mask_implicit(a: &[u16], ia: usize, b: &[u16], ib: usize) -> (r: u32)
    requires
        ia + 8 <= a.len(),
        ib + 8 <= b.len(),
    ensures
        r < 256,
        forall|k: u32|
            k < 8 ==> (#[trigger] lane_bit(r, k) <==> (k < zero_free_len(a@, ia as int, 0)
                && block_has(b@, ib as int, zero_free_len(b@, ib as int, 0), a@[ia + k]))),
{
    let len_a = zero_terminated_len(a, ia);
    let len_b = zero_terminated_len(b, ib);
    equal_any_mask(a, ia, len_a, b, ib, len_b)
}

/// Lane mask of the lanes of the block of `b` at `ib` that equal `value`.
pub fn equal_lanes_mask(value: u16, b: &[u16], ib: usize) -> (r: u32)
    requires
        ib + 8 <= b.len(),
    ensures
        r < 256,
        forall|k: u32| k < 8 ==> (#[trigger] lane_bit(r, k) <==> b@[ib + k] == value),
{
    let mut r: u32 = 0;
    let mut k: usize = 0;
    proof {
        assert forall|m: u32| m < 8 implies !#[trigger] lane_bit(r, m) by {
            lemma_zero_mask(m);
        }
    }
    while k < 8
        invariant
            k <= 8,
            ib + 8 <= b.len(),
            r < 256,
            forall|m: u32| m < 8 ==> (#[trigger] lane_bit(r, m) <==> (m < k && b@[ib + m] == value)),
        decreases 8 - k,
    {
        if b[ib + k] == value {
            let kk = k as u32;
            proof {
                lemma_set_lane_small(r, kk);
                assert forall|m: u32| m < 8 implies #[trigger] lane_bit(r | (1u32 << kk), m) == (
                lane_bit(r, m) || m == kk) by {
                    lemma_set_lane(r, kk, m);
                }
            }
            r = r | (1u32 << kk);
        }
        k += 1;
    }
    r
}

} // verus!
