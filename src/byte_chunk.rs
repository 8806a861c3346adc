//! Chunks of bytes held in a machine word, and the lane-wise operations that
//! the counting routines are built from.
//!
//! A chunk is a `u64` whose eight bytes ("lanes") are the eight consecutive
//! text bytes it was loaded from, the first text byte in the lowest lane.
//! Because chunks are always assembled lane by lane, "lexicographic" order
//! (the order of the text) is the same on every target.
use vstd::prelude::*;

verus! {

/// Number of bytes in a chunk.
pub const SIZE: usize = 8;

/// Number of 0/1 flag chunks that can be added into one accumulator before
/// `sum_bytes` can no longer recover the total (`(256 / SIZE) - 1`).
pub const MAX_ACC: usize = 31;

/// A one in every lane.
pub const ONES: u64 = 0x0101_0101_0101_0101;

/// The high bit of every lane.
pub const ONES_HIGH: u64 = 0x8080_8080_8080_8080;

/// Lane `i` of a chunk, that is the `i`-th of its bytes in text order.
pub open spec fn lane(w: u64, i: u64) -> u8 {
    (w >> ((i * 8) as u64)) as u8
}

/// Sum of the eight lanes of a chunk.
pub open spec fn lane_sum(w: u64) -> int {
    lane(w, 0) + lane(w, 1) + lane(w, 2) + lane(w, 3) + lane(w, 4) + lane(w, 5) + lane(w, 6)
        + lane(w, 7)
}

//------------------------------------------------------------------
// Bit-level facts, one per operation.

proof fn lemma_lane_zero()
    by (bit_vector)
    ensures
        forall|i: u64| i < 8 ==> #[trigger] lane(0, i) == 0,
{
}

proof fn lemma_splat(n: u8)
    by (bit_vector)
    ensures
        forall|i: u64| i < 8 ==> #[trigger] lane((n as u64 * ONES) as u64, i) == n,
{
}

proof fn lemma_is_zero(w: u64)
    by (bit_vector)
    ensures
        w == 0 <==> (lane(w, 0) == 0 && lane(w, 1) == 0 && lane(w, 2) == 0 && lane(w, 3) == 0
            && lane(w, 4) == 0 && lane(w, 5) == 0 && lane(w, 6) == 0 && lane(w, 7) == 0),
{
}

proof fn lemma_cmp_eq(w: u64, b: u8)
    by (bit_vector)
    ensures
        ((w ^ ((b as u64 * ONES) as u64)) & !ONES_HIGH) + !ONES_HIGH < 0x1_0000_0000_0000_0000,
        forall|i: u64|
            #![trigger lane(w, i)]
            i < 8 ==> lane(
                (!((((w ^ ((b as u64 * ONES) as u64)) & !ONES_HIGH) + !ONES_HIGH) as u64 | (w ^ ((
                b as u64 * ONES) as u64))) & ONES_HIGH) >> 7,
                i,
            ) == if lane(w, i) == b {
                1u8
            } else {
                0u8
            },
{
}

proof fn lemma_bitand(a: u64, b: u64)
    by (bit_vector)
    ensures
        forall|i: u64| i < 8 ==> #[trigger] lane(a & b, i) == lane(a, i) & lane(b, i),
{
}

pub proof fn lemma_shr_one_masked(w: u64)
    by (bit_vector)
    ensures
        forall|i: u64|
            i < 8 ==> #[trigger] lane((w >> 1) & 0x7f7f_7f7f_7f7f_7f7f, i) == lane(w, i) >> 1,
{
}

proof fn lemma_shift_back(w: u64, n: u64)
    by (bit_vector)
    requires
        n < 8,
    ensures
        forall|i: u64|
            i < 8 ==> #[trigger] lane(w >> ((n * 8) as u64), i) == if i + n < 8 {
                lane(w, (i + n) as u64)
            } else {
                0u8
            },
{
}

proof fn lemma_shift_across(a: u64, b: u64)
    by (bit_vector)
    ensures
        forall|i: u64|
            i < 8 ==> #[trigger] lane((a >> 56) | (b << 8), i) == if i == 0 {
                lane(a, 7)
            } else {
                lane(b, (i - 1) as u64)
            },
{
}

proof fn lemma_between_127(w: u64, a: u8, b: u8)
    by (bit_vector)
    requires
        a < b <= 127,
    ensures
        ((ONES * (127 + b as u64)) as u64) >= w & ((ONES * 127) as u64),
        (w & ((ONES * 127) as u64)) + ((ONES * (127 - a as u64)) as u64)
            < 0x1_0000_0000_0000_0000,
        forall|i: u64|
            #![trigger lane(w, i)]
            i < 8 ==> lane(
                ((((ONES * (127 + b as u64)) as u64 - (w & ((ONES * 127) as u64))) as u64 & !w & ((
                w & ((ONES * 127) as u64)) + ((ONES * (127 - a as u64)) as u64)) as u64)
                    & ONES_HIGH) >> 7,
                i,
            ) == if a < lane(w, i) < b {
                1u8
            } else {
                0u8
            },
{
}

proof fn lemma_add(a: u64, b: u64)
    by (bit_vector)
    requires
        lane(a, 0) + lane(b, 0) < 256,
        lane(a, 1) + lane(b, 1) < 256,
        lane(a, 2) + lane(b, 2) < 256,
        lane(a, 3) + lane(b, 3) < 256,
        lane(a, 4) + lane(b, 4) < 256,
        lane(a, 5) + lane(b, 5) < 256,
        lane(a, 6) + lane(b, 6) < 256,
        lane(a, 7) + lane(b, 7) < 256,
    ensures
        a + b < 0x1_0000_0000_0000_0000,
        forall|i: u64| i < 8 ==> #[trigger] lane((a + b) as u64, i) == lane(a, i) + lane(b, i),
{
}

proof fn lemma_sub(a: u64, b: u64)
    by (bit_vector)
    requires
        lane(b, 0) <= lane(a, 0),
        lane(b, 1) <= lane(a, 1),
        lane(b, 2) <= lane(a, 2),
        lane(b, 3) <= lane(a, 3),
        lane(b, 4) <= lane(a, 4),
        lane(b, 5) <= lane(a, 5),
        lane(b, 6) <= lane(a, 6),
        lane(b, 7) <= lane(a, 7),
    ensures
        b <= a,
        forall|i: u64| i < 8 ==> #[trigger] lane((a - b) as u64, i) == lane(a, i) - lane(b, i),
{
}

/// The eight copies of `w` shifted by whole lanes, added with wrap-around:
/// what multiplying by `ONES` computes.
spec fn shifted_copies(w: u64) -> u64 {
    let low = ((w + (w << 8)) as u64 + ((w << 16) + (w << 24)) as u64) as u64;
    let high = (((w << 32) + (w << 40)) as u64 + ((w << 48) + (w << 56)) as u64) as u64;
    (low + high) as u64
}

proof fn lemma_mul_ones(w: u64)
    by (bit_vector)
    ensures
        (w * ONES) as u64 == shifted_copies(w),
{
}

#[verifier::rlimit(100)]
proof fn lemma_sum_shifts(w: u64)
    by (bit_vector)
    requires
        lane_sum(w) < 256,
    ensures
        shifted_copies(w) >> 56 == lane_sum(w),
{
}

proof fn lemma_load(b0: u8, b1: u8, b2: u8, b3: u8, b4: u8, b5: u8, b6: u8, b7: u8)
    by (bit_vector)
    ensures
        ({
            let w = b0 as u64 | (b1 as u64) << 8 | (b2 as u64) << 16 | (b3 as u64) << 24 | (
            b4 as u64) << 32 | (b5 as u64) << 40 | (b6 as u64) << 48 | (b7 as u64) << 56;
            &&& lane(w, 0) == b0
            &&& lane(w, 1) == b1
            &&& lane(w, 2) == b2
            &&& lane(w, 3) == b3
            &&& lane(w, 4) == b4
            &&& lane(w, 5) == b5
            &&& lane(w, 6) == b6
            &&& lane(w, 7) == b7
        }),
{
}

proof fn lemma_inc(w: u64, k: u64)
    by (bit_vector)
    requires
        k < 8,
        lane(w, k) < 255,
    ensures
        w + ((1u64 << ((k * 8) as u64)) as u64) < 0x1_0000_0000_0000_0000,
        forall|i: u64|
            #![trigger lane(w, i)]
            i < 8 ==> lane((w + ((1u64 << ((k * 8) as u64)) as u64)) as u64, i) == if i == k {
                (lane(w, i) + 1) as u8
            } else {
                lane(w, i)
            },
{
}

proof fn lemma_dec_last(w: u64)
    by (bit_vector)
    requires
        lane(w, 7) >= 1,
    ensures
        w >= 0x0100_0000_0000_0000,
        forall|i: u64|
            #![trigger lane(w, i)]
            i < 8 ==> lane((w - 0x0100_0000_0000_0000) as u64, i) == if i == 7 {
                (lane(w, i) - 1) as u8
            } else {
                lane(w, i)
            },
{
}

proof fn lemma_wrapping_mul(w: u64)
    by (bit_vector)
    ensures
        w.wrapping_mul(ONES) == (w * ONES) as u64,
{
}

/// Bitwise and of 0/1 flags is their conjunction.
pub proof fn lemma_and_flags()
    by (bit_vector)
    ensures
        forall|x: u8, y: u8|
            x <= 1 && y <= 1 ==> #[trigger] (x & y) == if x == 1 && y == 1 {
                1u8
            } else {
                0u8
            },
{
}

/// Loads the chunk made of `bytes[at..at + SIZE]`.
pub fn load(bytes: &[u8], at: usize) -> (r: u64)
    requires
        at + SIZE <= bytes@.len(),
    ensures
        forall|i: u64| i < 8 ==> #[trigger] lane(r, i) == bytes@[at + i],
{
    let r = bytes[at] as u64 | (bytes[at + 1] as u64) << 8 | (bytes[at + 2] as u64) << 16 | (
    bytes[at + 3] as u64) << 24 | (bytes[at + 4] as u64) << 32 | (bytes[at + 5] as u64) << 40 | (
    bytes[at + 6] as u64) << 48 | (bytes[at + 7] as u64) << 56;
    proof {
        lemma_load(
            bytes@[at as int],
            bytes@[at + 1],
            bytes@[at + 2],
            bytes@[at + 3],
            bytes@[at + 4],
            bytes@[at + 5],
            bytes@[at + 6],
            bytes@[at + 7],
        );
        assert forall|i: u64| i < 8 implies #[trigger] lane(r, i) == bytes@[at + i] by {
            if i == 0 {
            } else if i == 1 {
            } else if i == 2 {
            } else if i == 3 {
            } else if i == 4 {
            } else if i == 5 {
            } else if i == 6 {
            } else {
            }
        }
    }
    r
}

/// The chunk with every lane zero.
pub fn zero() -> (r: u64)
    ensures
        forall|i: u64| i < 8 ==> #[trigger] lane(r, i) == 0,
{
    proof {
        lemma_lane_zero();
    }
    0
}

/// The chunk with every lane `n`.
pub fn splat(n: u8) -> (r: u64)
    ensures
        r == (n as u64 * ONES) as u64,
        forall|i: u64| i < 8 ==> #[trigger] lane(r, i) == n,
{
    proof {
        lemma_splat(n);
    }
    ONES * n as u64
}

/// Whether every lane is zero.
pub fn is_zero(w: u64) -> (r: bool)
    ensures
        r <==> forall|i: u64| i < 8 ==> #[trigger] lane(w, i) == 0,
{
    proof {
        lemma_is_zero(w);
    }
    w == 0
}

/// Moves every lane `n` places towards the start of the text; the last `n`
/// lanes become zero.
pub fn shift_back_lex(w: u64, n: usize) -> (r: u64)
    requires
        n < SIZE,
    ensures
        forall|i: u64|
            i < 8 ==> #[trigger] lane(r, i) == if i + n < 8 {
                lane(w, (i + n) as u64)
            } else {
                0u8
            },
{
    proof {
        lemma_shift_back(w, n as u64);
    }
    w >> (n as u64 * 8)
}

/// The last lane of `w` followed by the first seven lanes of `n`.
pub fn shift_across(w: u64, n: u64) -> (r: u64)
    ensures
        lane(r, 0) == lane(w, 7),
        forall|i: u64| 1 <= i < 8 ==> #[trigger] lane(r, i) == lane(n, (i - 1) as u64),
{
    proof {
        lemma_shift_across(w, n);
        assert(lane((w >> 56) | (n << 8), 0) == lane(w, 7));
    }
    (w >> 56) | (n << 8)
}

/// Shifts the whole word right by `n` bits.
pub fn shr(w: u64, n: u32) -> (r: u64)
    requires
        n < 64,
    ensures
        r == w >> n,
{
    w >> n
}

/// Lanes equal to `byte` become 1, all others 0.
pub fn cmp_eq_byte(w: u64, byte: u8) -> (r: u64)
    ensures
        forall|i: u64| i < 8 ==> #[trigger] lane(r, i) == if lane(w, i) == byte { 1u8 } else { 0u8 },
{
    proof {
        lemma_cmp_eq(w, byte);
    }
    let word = w ^ (byte as u64 * ONES);
    (!(((word & !ONES_HIGH) + !ONES_HIGH) | word) & ONES_HIGH) >> 7
}

/// Lanes strictly between `a` and `b` become 1, all others 0.
pub fn bytes_between_127(w: u64, a: u8, b: u8) -> (r: u64)
    requires
        a < b <= 127,
    ensures
        forall|i: u64| i < 8 ==> #[trigger] lane(r, i) == if a < lane(w, i) < b { 1u8 } else { 0u8 },
{
    proof {
        lemma_between_127(w, a, b);
    }
    let tmp = w & (ONES * 127);
    (((ONES * (127 + b as u64) - tmp) & !w & (tmp + (ONES * (127 - a as u64)))) & ONES_HIGH) >> 7
}

/// Lane-wise bitwise and.
pub fn bitand(w: u64, other: u64) -> (r: u64)
    ensures
        r == w & other,
        forall|i: u64| i < 8 ==> #[trigger] lane(r, i) == lane(w, i) & lane(other, i),
{
    proof {
        lemma_bitand(w, other);
    }
    w & other
}

/// Lane-wise sum, where no lane sum reaches 256.
pub fn add_lanes(w: u64, other: u64) -> (r: u64)
    requires
        forall|i: u64| i < 8 ==> #[trigger] lane(w, i) + lane(other, i) < 256,
    ensures
        forall|i: u64| i < 8 ==> #[trigger] lane(r, i) == lane(w, i) + lane(other, i),
{
    proof {
        lemma_add(w, other);
    }
    w + other
}

/// Lane-wise difference, where no lane of `other` exceeds that of `w`.
pub fn sub_lanes(w: u64, other: u64) -> (r: u64)
    requires
        forall|i: u64| i < 8 ==> #[trigger] lane(other, i) <= lane(w, i),
    ensures
        forall|i: u64| i < 8 ==> #[trigger] lane(r, i) == lane(w, i) - lane(other, i),
{
    proof {
        lemma_sub(w, other);
    }
    w - other
}

/// Adds one to the lane `n` places before the last.
pub fn inc_nth_from_end_lex_byte(w: u64, n: usize) -> (r: u64)
    requires
        n < SIZE,
        lane(w, (7 - n) as u64) < 255,
    ensures
        forall|i: u64|
            i < 8 ==> #[trigger] lane(r, i) == if i == 7 - n {
                (lane(w, i) + 1) as u8
            } else {
                lane(w, i)
            },
{
    proof {
        lemma_inc(w, (7 - n) as u64);
    }
    w + (1u64 << ((SIZE - 1 - n) as u64 * 8))
}

/// Takes one from the last lane.
pub fn dec_last_lex_byte(w: u64) -> (r: u64)
    requires
        lane(w, 7) >= 1,
    ensures
        forall|i: u64|
            i < 8 ==> #[trigger] lane(r, i) == if i == 7 {
                (lane(w, i) - 1) as u8
            } else {
                lane(w, i)
            },
{
    proof {
        lemma_dec_last(w);
    }
    w - 0x0100_0000_0000_0000
}

/// Sum of all lanes.
pub fn sum_bytes(w: u64) -> (r: usize)
    requires
        lane_sum(w) < 256,
    ensures
        r == lane_sum(w),
{
    proof {
        lemma_mul_ones(w);
        lemma_sum_shifts(w);
        lemma_wrapping_mul(w);
    }
    (w.wrapping_mul(ONES) >> 56) as usize
}

} // verus!
