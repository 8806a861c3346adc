//! Index by chars.
use vstd::prelude::*;
use vstd::string::StringSliceAdditionalSpecFns;
use vstd::utf8::*;
use crate::byte_chunk::{self, lane, lane_sum, SIZE};
use crate::model::{
    char_count, continuation, continuation_count, count_bytes, floor_boundary,
    lemma_boundary_le_len, lemma_count_chunk, lemma_count_full, lemma_count_le_len,
    lemma_count_step, lemma_floor_fixed, lemma_floor_is_boundary, lemma_floor_monotone,
    lemma_lane_sum_bound, lemma_utf16_prefix_mono, lemma_utf8_counts,
};

verus! {

broadcast use vstd::utf8::utf8_byte_ranges_bitwise, vstd::utf8::encode_utf8_valid_utf8;

/// `r` is the byte index at which char `char_idx` of `s` starts, or the
/// length of `s` when `s` has no more than `char_idx` chars.
pub open spec fn is_char_start(s: Seq<u8>, char_idx: int, r: int) -> bool {
    &&& 0 <= r <= s.len()
    &&& r < s.len() ==> !is_continuation_byte(s[r]) && char_count(s.subrange(0, r)) == char_idx
    &&& r == s.len() ==> char_count(s) <= char_idx
}

/// Counts the chars in a string slice.
///
/// Runs in O(N) time.
pub fn count(text: &str) -> (r: usize)
    ensures
        r == char_count(text.spec_bytes()),
        r == text@.len(),
{
    proof {
        lemma_count_is_char_len(text);
    }
    count_impl(text.as_bytes())
}

/// Converts from byte-index to char-index in a string slice.
///
/// If the byte is in the middle of a multi-byte char, returns the index of
/// the char that the byte belongs to.
///
/// Any past-the-end index will return the one-past-the-end char index.
///
/// Runs in O(N) time.
pub fn from_byte_idx(text: &str, byte_idx: usize) -> (r: usize)
    ensures
        r == char_count(
            text.spec_bytes().subrange(0, floor_boundary(text.spec_bytes(), byte_idx as int)),
        ),
        r <= char_count(text.spec_bytes()),
{
    let bytes = text.as_bytes();
    let i = round_down_to_boundary(bytes, byte_idx);
    proof {
        lemma_char_count_le_total(bytes@, i as int);
    }
    count_impl(&bytes[0..i])
}

/// Walks `byte_idx` back to the start of the char it falls in (or to the
/// length of the text, when it is past the end).
pub fn round_down_to_boundary(bytes: &[u8], byte_idx: usize) -> (r: usize)
    requires
        valid_utf8(bytes@),
    ensures
        r == floor_boundary(bytes@, byte_idx as int),
        r <= bytes@.len(),
{
    let ghost s = bytes@;
    proof {
        is_char_boundary_start_end_of_seq(s);
        if s.len() > 0 {
            is_char_boundary_iff_not_is_continuation_byte(s, 0);
        }
    }
    let mut i = byte_idx;
    while i < bytes.len() && is_trailing_byte(bytes[i])
        invariant
            s == bytes@,
            floor_boundary(s, i as int) == floor_boundary(s, byte_idx as int),
            s.len() > 0 ==> !is_continuation_byte(s[0]),
        decreases i,
    {
        i -= 1;
    }
    if i < bytes.len() {
        i
    } else {
        bytes.len()
    }
}

/// Converts from char-index to byte-index in a string slice.
///
/// Any past-the-end index will return the one-past-the-end byte index.
///
/// Runs in O(N) time.
pub fn to_byte_idx(text: &str, char_idx: usize) -> (r: usize)
    ensures
        is_char_start(text.spec_bytes(), char_idx as int, r as int),
{
    to_byte_idx_impl(text.as_bytes(), char_idx)
}

fn to_byte_idx_impl(text: &[u8], char_idx: usize) -> (r: usize)
    ensures
        r <= text@.len(),
        r < text@.len() ==> !is_continuation_byte(text@[r as int]) && char_count(
            text@.subrange(0, r as int),
        ) == char_idx,
        r == text@.len() ==> char_count(text@) <= char_idx,
{
    let len = text.len();
    let ghost s = text@;
    proof {
        lemma_count_full(s, continuation());
    }
    let mut byte_count: usize = 0;
    let mut chars_seen: usize = 0;
    if len > SIZE {
        // Whole groups of four chunks that cannot pass the target.
        let fast_path_chunks = if len / SIZE < char_idx / SIZE {
            len / SIZE
        } else {
            char_idx / SIZE
        };
        let mut chunks_done: usize = 0;
        while fast_path_chunks - chunks_done >= 4
            invariant
                s == text@,
                len == s.len(),
                fast_path_chunks * SIZE <= len,
                fast_path_chunks * SIZE <= char_idx,
                chunks_done <= fast_path_chunks,
                byte_count == chunks_done * SIZE,
                chars_seen == char_count(s.subrange(0, byte_count as int)),
            decreases fast_path_chunks - chunks_done,
        {
            let v1 = trailing_flags_at(text, byte_count);
            let v2 = trailing_flags_at(text, byte_count + SIZE);
            let v3 = trailing_flags_at(text, byte_count + 2 * SIZE);
            let v4 = trailing_flags_at(text, byte_count + 3 * SIZE);
            let a = byte_chunk::add_lanes(v1, v2);
            let b = byte_chunk::add_lanes(v3, v4);
            let c = byte_chunk::add_lanes(a, b);
            proof {
                let i = byte_count as int;
                lemma_count_chunk(s, i, continuation(), v1);
                lemma_count_chunk(s, i + 8, continuation(), v2);
                lemma_count_chunk(s, i + 16, continuation(), v3);
                lemma_count_chunk(s, i + 24, continuation(), v4);
                lemma_lane_sum_bound(c, 4);
                lemma_count_le_len(s.subrange(0, i + 32), continuation());
            }
            chars_seen = chars_seen + 4 * SIZE - byte_chunk::sum_bytes(c);
            byte_count += 4 * SIZE;
            chunks_done += 4;
        }
        // The remaining chunks, one at a time, until the target is reached.
        while len - byte_count >= SIZE
            invariant
                s == text@,
                len == s.len(),
                byte_count <= len,
                chars_seen == char_count(s.subrange(0, byte_count as int)),
                chars_seen <= char_idx,
            decreases len - byte_count,
        {
            let v = trailing_flags_at(text, byte_count);
            proof {
                lemma_count_chunk(s, byte_count as int, continuation(), v);
                lemma_lane_sum_bound(v, 1);
                lemma_count_le_len(s.subrange(0, byte_count + 8), continuation());
            }
            let new_char_count = chars_seen + SIZE - byte_chunk::sum_bytes(v);
            if new_char_count >= char_idx {
                break;
            }
            chars_seen = new_char_count;
            byte_count += SIZE;
        }
    }
    // The last bytes, one at a time.
    while byte_count < len
        invariant
            s == text@,
            len == s.len(),
            byte_count <= len,
            chars_seen == char_count(s.subrange(0, byte_count as int)),
            chars_seen <= char_idx,
            count_bytes(s.subrange(0, len as int), continuation()) == continuation_count(s),
        ensures
            byte_count <= len,
            byte_count < len ==> !is_continuation_byte(s[byte_count as int]) && char_count(
                s.subrange(0, byte_count as int),
            ) == char_idx,
            byte_count == len ==> char_count(s) <= char_idx,
        decreases len - byte_count,
    {
        proof {
            lemma_count_step(s, byte_count as int, continuation());
            lemma_count_le_len(s.subrange(0, byte_count as int), continuation());
        }
        let next = if is_leading_byte(text[byte_count]) {
            chars_seen + 1
        } else {
            chars_seen
        };
        if next > char_idx {
            break;
        }
        chars_seen = next;
        byte_count += 1;
    }
    byte_count
}

/// Whether `byte` starts a char (is not a continuation byte).
pub fn is_leading_byte(byte: u8) -> (r: bool)
    ensures
        r == !is_continuation_byte(byte),
{
    (byte & 0xC0) != 0x80
}

/// Whether `byte` is a continuation byte.
pub fn is_trailing_byte(byte: u8) -> (r: bool)
    ensures
        r == is_continuation_byte(byte),
{
    (byte & 0xC0) == 0x80
}

/// Flags the continuation bytes of a chunk.
pub fn count_trailing_chunk(val: u64) -> (r: u64)
    ensures
        forall|i: u64| i < 8 ==> #[trigger] lane(r, i) == if is_continuation_byte(lane(val, i)) {
            1u8
        } else {
            0u8
        },
{
    let m = byte_chunk::bitand(val, byte_chunk::splat(0xc0));
    byte_chunk::cmp_eq_byte(m, 0x80)
}

/// Counts the continuation bytes of the chunk loaded at `at`.
pub(crate) fn trailing_flags_at(text: &[u8], at: usize) -> (r: u64)
    requires
        at + SIZE <= text@.len(),
    ensures
        forall|i: u64| i < 8 ==> #[trigger] lane(r, i) <= 1,
        forall|i: u64| i < 8 ==> #[trigger] lane(r, i) == if continuation()(text@[at + i]) {
            1u8
        } else {
            0u8
        },
{
    let r = count_trailing_chunk(byte_chunk::load(text, at));
    r
}

/// Number of chars in a UTF-8 byte slice: its length less its continuation
/// bytes.
pub fn count_impl(text: &[u8]) -> (r: usize)
    ensures
        r == char_count(text@),
{
    let len = text.len();
    let ghost s = text@;
    proof {
        lemma_count_full(s, continuation());
    }
    if len < SIZE {
        let mut inv: usize = 0;
        let mut i: usize = 0;
        while i < len
            invariant
                i <= len == s.len(),
                s == text@,
                inv == continuation_count(s.subrange(0, i as int)),
                inv <= i,
            decreases len - i,
        {
            proof {
                lemma_count_step(s, i as int, continuation());
            }
            if is_trailing_byte(text[i]) {
                inv += 1;
            }
            i += 1;
        }
        return len - inv;
    }
    let mut inv: usize = 0;
    let mut i: usize = 0;
    while len - i >= 4 * SIZE
        invariant
            i <= len == s.len(),
            s == text@,
            inv == continuation_count(s.subrange(0, i as int)),
            inv <= i,
        decreases len - i,
    {
        let v1 = trailing_flags_at(text, i);
        let v2 = trailing_flags_at(text, i + SIZE);
        let v3 = trailing_flags_at(text, i + 2 * SIZE);
        let v4 = trailing_flags_at(text, i + 3 * SIZE);
        let a = byte_chunk::add_lanes(v1, v2);
        let b = byte_chunk::add_lanes(v3, v4);
        let c = byte_chunk::add_lanes(a, b);
        proof {
            lemma_count_chunk(s, i as int, continuation(), v1);
            lemma_count_chunk(s, i + 8, continuation(), v2);
            lemma_count_chunk(s, i + 16, continuation(), v3);
            lemma_count_chunk(s, i + 24, continuation(), v4);
            lemma_lane_sum_bound(c, 4);
            lemma_count_le_len(s.subrange(0, i + 32), continuation());
        }
        inv += byte_chunk::sum_bytes(c);
        i += 4 * SIZE;
    }
    let mut acc = byte_chunk::zero();
    let ghost start = i;
    let ghost mut k: int = 0;
    while len - i >= SIZE
        invariant
            i <= len == s.len(),
            s == text@,
            start + 32 > len,
            i == start + 8 * k,
            0 <= k <= 3,
            forall|j: u64| j < 8 ==> #[trigger] lane(acc, j) <= k,
            inv + lane_sum(acc) == continuation_count(s.subrange(0, i as int)),
            inv <= start,
        decreases len - i,
    {
        let v = trailing_flags_at(text, i);
        proof {
            lemma_count_chunk(s, i as int, continuation(), v);
        }
        acc = byte_chunk::add_lanes(acc, v);
        i += SIZE;
        proof {
            k = k + 1;
        }
    }
    proof {
        lemma_lane_sum_bound(acc, 3);
        lemma_count_le_len(s.subrange(0, i as int), continuation());
    }
    inv += byte_chunk::sum_bytes(acc);
    while i < len
        invariant
            i <= len == s.len(),
            s == text@,
            inv == continuation_count(s.subrange(0, i as int)),
            inv <= i,
        decreases len - i,
    {
        proof {
            lemma_count_step(s, i as int, continuation());
        }
        if is_trailing_byte(text[i]) {
            inv += 1;
        }
        i += 1;
    }
    len - inv
}

//------------------------------------------------------------------
// Laws.

/// Counting the bytes that start a char gives the number of chars of the
/// string.
pub proof fn lemma_count_is_char_len(text: &str)
    ensures
        char_count(text.spec_bytes()) == text@.len(),
{
    lemma_utf8_counts(text.spec_bytes());
    encode_utf8_decode_utf8(text@);
}

proof fn lemma_char_count_le_total(s: Seq<u8>, i: int)
    requires
        0 <= i <= s.len(),
    ensures
        char_count(s.subrange(0, i)) <= char_count(s),
{
    lemma_utf16_prefix_mono(s, i, s.len() as int);
    lemma_count_full(s, continuation());
}

/// At a byte that starts a char, the char count of the prefix goes up by one.
proof fn lemma_char_count_at_start(s: Seq<u8>, r: int, j: int)
    requires
        0 <= r < s.len(),
        r < j <= s.len(),
        !is_continuation_byte(s[r]),
    ensures
        char_count(s.subrange(0, j)) >= char_count(s.subrange(0, r)) + 1,
{
    lemma_count_step(s, r, continuation());
    lemma_utf16_prefix_mono(s, r + 1, j);
}

/// Converting byte indices to char indices never goes backwards.
pub proof fn lemma_from_byte_idx_monotone(text: &str, a: usize, b: usize)
    requires
        a <= b,
    ensures
        char_count(text.spec_bytes().subrange(0, floor_boundary(text.spec_bytes(), a as int)))
            <= char_count(
            text.spec_bytes().subrange(0, floor_boundary(text.spec_bytes(), b as int)),
        ),
{
    let s = text.spec_bytes();
    lemma_floor_monotone(s, a as int, b as int);
    lemma_floor_is_boundary(s, a as int);
    lemma_floor_is_boundary(s, b as int);
    lemma_utf16_prefix_mono(s, floor_boundary(s, a as int), floor_boundary(s, b as int));
}

/// Converting char indices to byte indices never goes backwards.
pub proof fn lemma_to_byte_idx_monotone(text: &str, a: usize, b: usize, ra: usize, rb: usize)
    requires
        a <= b,
        is_char_start(text.spec_bytes(), a as int, ra as int),
        is_char_start(text.spec_bytes(), b as int, rb as int),
    ensures
        ra <= rb,
{
    let s = text.spec_bytes();
    if ra > rb {
        lemma_char_count_at_start(s, rb as int, ra as int);
        lemma_count_full(s, continuation());
    }
}

/// A byte index that starts a char (or ends the text), converted to a char
/// index and back, is itself.
pub proof fn lemma_round_trip(text: &str, b: usize, r: usize)
    requires
        is_char_boundary(text.spec_bytes(), b as int),
        is_char_start(
            text.spec_bytes(),
            char_count(text.spec_bytes().subrange(0, floor_boundary(text.spec_bytes(), b as int))),
            r as int,
        ),
    ensures
        r == b,
{
    let s = text.spec_bytes();
    lemma_boundary_le_len(s, b as int);
    lemma_floor_fixed(s, b as int);
    lemma_count_full(s, continuation());
    if b < s.len() {
        is_char_boundary_iff_not_is_continuation_byte(s, b as int);
    }
    if r < b {
        lemma_char_count_at_start(s, r as int, b as int);
    } else if b < r {
        lemma_char_count_at_start(s, b as int, r as int);
    }
}

} // verus!
