//! Index by UTF-16 code units.
use vstd::prelude::*;
use vstd::string::StringSliceAdditionalSpecFns;
use vstd::utf8::*;
use crate::byte_chunk::{self, lane, lane_sum, MAX_ACC, SIZE};
use crate::chars::{count_impl, is_leading_byte, trailing_flags_at};
use crate::model::{
    continuation, continuation_count, count_bytes, floor_boundary, is_surrogate_lead,
    lemma_count_chunk, lemma_count_full, lemma_count_step, lemma_floor_is_boundary,
    lemma_floor_monotone,
    lemma_lane_sum_bound, lemma_utf16_le_len, lemma_utf16_prefix_mono, lemma_utf8_counts,
    surrogate_count, surrogate_lead, utf16_count, utf16_len,
};

verus! {

broadcast use vstd::utf8::encode_utf8_valid_utf8;

proof fn lemma_high_nibble(b: u8)
    by (bit_vector)
    ensures
        (b & 0xf0 == 0xf0) == (b >= 0xf0),
{
}

/// Whether `byte` starts a char that takes a surrogate pair.
fn is_surrogate_byte(byte: u8) -> (r: bool)
    ensures
        r == is_surrogate_lead(byte),
{
    proof {
        lemma_high_nibble(byte);
    }
    (byte & 0xf0) == 0xf0
}

/// Flags the bytes of the chunk loaded at `at` that start a char taking a
/// surrogate pair.
fn surrogate_flags_at(text: &[u8], at: usize) -> (r: u64)
    requires
        at + SIZE <= text@.len(),
    ensures
        forall|i: u64| i < 8 ==> #[trigger] lane(r, i) <= 1,
        forall|i: u64| i < 8 ==> #[trigger] lane(r, i) == if surrogate_lead()(text@[at + i]) {
            1u8
        } else {
            0u8
        },
{
    let c = byte_chunk::load(text, at);
    let m = byte_chunk::bitand(c, byte_chunk::splat(0xf0));
    let r = byte_chunk::cmp_eq_byte(m, 0xf0);
    proof {
        assert forall|i: u64| i < 8 implies #[trigger] lane(r, i) == if surrogate_lead()(
            text@[at + i],
        ) {
            1u8
        } else {
            0u8
        } by {
            lemma_high_nibble(lane(c, i));
        }
    }
    r
}

/// `r` is the byte index at which the char holding UTF-16 code unit
/// `utf16_idx` of `s` starts, or the length of `s` when `s` takes no more
/// than `utf16_idx` code units.
pub open spec fn is_utf16_start(s: Seq<u8>, utf16_idx: int, r: int) -> bool {
    &&& 0 <= r <= s.len()
    &&& r < s.len() ==> !is_continuation_byte(s[r]) && utf16_count(s.subrange(0, r)) <= utf16_idx
        < utf16_count(s.subrange(0, r + 1))
    &&& r == s.len() ==> utf16_count(s) <= utf16_idx
}

/// Counts the UTF-16 code units that would be in a string slice if it were
/// encoded as UTF-16.
///
/// Runs in O(N) time.
pub fn count(text: &str) -> (r: usize)
    ensures
        r == utf16_count(text.spec_bytes()),
        r == utf16_len(text@),
{
    proof {
        crate::model::lemma_utf16_count_of_chars(text@);
    }
    let bytes = text.as_bytes();
    let len = bytes.len();
    proof {
        lemma_utf16_le_len(bytes@, 0);
    }
    count_impl(bytes) + count_surrogates_impl(bytes)
}

/// Counts the UTF-16 surrogate pairs that would be in a string slice if it
/// were encoded as UTF-16.
///
/// Runs in O(N) time.
pub fn count_surrogates(text: &str) -> (r: usize)
    ensures
        r == surrogate_count(text.spec_bytes()),
        r == utf16_len(text@) - text@.len(),
{
    proof {
        crate::model::lemma_utf16_count_of_chars(text@);
        crate::chars::lemma_count_is_char_len(text);
    }
    count_surrogates_impl(text.as_bytes())
}

/// Converts from byte-index to UTF-16-code-unit-index in a string slice.
///
/// If the byte is in the middle of a multi-byte char, returns the UTF-16
/// index of the char that the byte belongs to.
///
/// Any past-the-end index will return the one-past-the-end UTF-16 index.
///
/// Runs in O(N) time.
pub fn from_byte_idx(text: &str, byte_idx: usize) -> (r: usize)
    ensures
        r == utf16_count(
            text.spec_bytes().subrange(0, floor_boundary(text.spec_bytes(), byte_idx as int)),
        ),
        r <= utf16_count(text.spec_bytes()),
{
    let i = crate::floor_char_boundary(text, byte_idx);
    let bytes = text.as_bytes();
    let slice = &bytes[0..i];
    proof {
        valid_utf8_split(bytes@, i as int);
        lemma_utf16_le_len(slice@, 0);
        lemma_utf16_le_len(bytes@, i as int);
    }
    count_impl(slice) + count_surrogates_impl(slice)
}

/// Converts from UTF-16-code-unit-index to byte-index in a string slice.
///
/// If the UTF-16 index is in the middle of a char, returns the byte index of
/// the char that UTF-16 code unit belongs to.
///
/// Any past-the-end index will return the one-past-the-end byte index.
///
/// Runs in O(N) time.
pub fn to_byte_idx(text: &str, utf16_idx: usize) -> (r: usize)
    ensures
        is_utf16_start(text.spec_bytes(), utf16_idx as int, r as int),
{
    to_byte_idx_impl(text.as_bytes(), utf16_idx)
}

fn to_byte_idx_impl(text: &[u8], utf16_idx: usize) -> (r: usize)
    requires
        valid_utf8(text@),
    ensures
        r <= text@.len(),
        r < text@.len() ==> !is_continuation_byte(text@[r as int]) && utf16_count(
            text@.subrange(0, r as int),
        ) <= utf16_idx < utf16_count(text@.subrange(0, r + 1)),
        r == text@.len() ==> utf16_count(text@) <= utf16_idx,
{
    let len = text.len();
    let ghost s = text@;
    proof {
        lemma_count_full(s, continuation());
        lemma_count_full(s, surrogate_lead());
        lemma_utf16_le_len(s, 0);
    }
    let mut byte_count: usize = 0;
    let mut utf16_seen: usize = 0;

    // Whole rounds of at most `MAX_ACC` chunks that cannot pass the target:
    // a chunk holds at most `2 * SIZE` code units.
    let mut max_chunks = utf16_idx / (2 * SIZE);
    while max_chunks > 0 && len - byte_count >= SIZE
        invariant
            s == text@,
            len == s.len(),
            valid_utf8(s),
            byte_count <= len,
            utf16_seen == utf16_count(s.subrange(0, byte_count as int)),
            utf16_seen + 16 * max_chunks <= utf16_idx,
        decreases max_chunks,
    {
        let room = (len - byte_count) / SIZE;
        let mut round_len = if MAX_ACC < max_chunks {
            MAX_ACC
        } else {
            max_chunks
        };
        if room < round_len {
            round_len = room;
        }
        max_chunks -= round_len;
        let mut acc_inv_chars = byte_chunk::zero();
        let mut acc_surrogates = byte_chunk::zero();
        let mut n: usize = 0;
        while n < round_len
            invariant
                s == text@,
                len == s.len(),
                round_len <= MAX_ACC,
                byte_count + round_len * SIZE <= len,
                n <= round_len,
                forall|j: u64| j < 8 ==> #[trigger] lane(acc_inv_chars, j) <= n,
                forall|j: u64| j < 8 ==> #[trigger] lane(acc_surrogates, j) <= n,
                count_bytes(s.subrange(0, byte_count + n * SIZE), continuation()) == count_bytes(
                    s.subrange(0, byte_count as int),
                    continuation(),
                ) + lane_sum(acc_inv_chars),
                count_bytes(s.subrange(0, byte_count + n * SIZE), surrogate_lead()) == count_bytes(
                    s.subrange(0, byte_count as int),
                    surrogate_lead(),
                ) + lane_sum(acc_surrogates),
            decreases round_len - n,
        {
            let at = byte_count + n * SIZE;
            let inv = trailing_flags_at(text, at);
            let sur = surrogate_flags_at(text, at);
            proof {
                lemma_count_chunk(s, at as int, continuation(), inv);
                lemma_count_chunk(s, at as int, surrogate_lead(), sur);
            }
            acc_inv_chars = byte_chunk::add_lanes(acc_inv_chars, inv);
            acc_surrogates = byte_chunk::add_lanes(acc_surrogates, sur);
            n += 1;
        }
        proof {
            let end = byte_count + round_len * SIZE;
            lemma_lane_sum_bound(acc_inv_chars, round_len as int);
            lemma_lane_sum_bound(acc_surrogates, round_len as int);
            lemma_utf16_prefix_mono(s, byte_count as int, end);
            lemma_utf16_le_len(s, end);
            lemma_count_le_len_prefix(s, end);
        }
        utf16_seen = utf16_seen + (SIZE * round_len - byte_chunk::sum_bytes(acc_inv_chars))
            + byte_chunk::sum_bytes(acc_surrogates);
        byte_count += SIZE * round_len;
    }

    // The remaining chunks, one at a time, until the target is reached.
    while len - byte_count >= SIZE
        invariant
            s == text@,
            len == s.len(),
            valid_utf8(s),
            byte_count <= len,
            utf16_seen == utf16_count(s.subrange(0, byte_count as int)),
            utf16_seen <= utf16_idx,
        decreases len - byte_count,
    {
        let inv = trailing_flags_at(text, byte_count);
        let sur = surrogate_flags_at(text, byte_count);
        proof {
            lemma_count_chunk(s, byte_count as int, continuation(), inv);
            lemma_count_chunk(s, byte_count as int, surrogate_lead(), sur);
            lemma_lane_sum_bound(inv, 1);
            lemma_lane_sum_bound(sur, 1);
            lemma_utf16_le_len(s, byte_count + 8);
            lemma_count_le_len_prefix(s, byte_count + 8);
        }
        let new_utf16_count = utf16_seen + (SIZE - byte_chunk::sum_bytes(inv))
            + byte_chunk::sum_bytes(sur);
        if new_utf16_count >= utf16_idx {
            break;
        }
        utf16_seen = new_utf16_count;
        byte_count += SIZE;
    }

    // The last bytes, one at a time.
    while byte_count < len
        invariant
            s == text@,
            len == s.len(),
            valid_utf8(s),
            byte_count <= len,
            utf16_seen == utf16_count(s.subrange(0, byte_count as int)),
            utf16_seen <= utf16_idx,
            count_bytes(s.subrange(0, len as int), continuation()) == continuation_count(s),
            count_bytes(s.subrange(0, len as int), surrogate_lead()) == surrogate_count(s),
        ensures
            byte_count <= len,
            byte_count < len ==> !is_continuation_byte(s[byte_count as int]) && utf16_count(
                s.subrange(0, byte_count as int),
            ) <= utf16_idx < utf16_count(s.subrange(0, byte_count + 1)),
            byte_count == len ==> utf16_count(s) <= utf16_idx,
        decreases len - byte_count,
    {
        proof {
            lemma_count_step(s, byte_count as int, continuation());
            lemma_count_step(s, byte_count as int, surrogate_lead());
            lemma_utf16_le_len(s, byte_count + 1);
        }
        let byte = text[byte_count];
        let mut next = utf16_seen;
        if is_leading_byte(byte) {
            next += 1;
        }
        if is_surrogate_byte(byte) {
            next += 1;
        }
        if next > utf16_idx {
            break;
        }
        utf16_seen = next;
        byte_count += 1;
    }
    byte_count
}

proof fn lemma_count_le_len_prefix(s: Seq<u8>, j: int)
    requires
        0 <= j <= s.len(),
    ensures
        continuation_count(s.subrange(0, j)) <= j,
        surrogate_count(s.subrange(0, j)) <= j,
{
    crate::model::lemma_count_le_len(s.subrange(0, j), continuation());
    crate::model::lemma_count_le_len(s.subrange(0, j), surrogate_lead());
}

/// Number of bytes of a valid UTF-8 slice that start a char taking a
/// surrogate pair.
pub fn count_surrogates_impl(text: &[u8]) -> (r: usize)
    requires
        valid_utf8(text@),
    ensures
        r == surrogate_count(text@),
{
    let ghost s = text@;
    proof {
        lemma_utf8_counts(s);
        lemma_count_full(s, surrogate_lead());
    }
    // Such a char is four bytes long, so none starts in the last three
    // bytes: leaving them out keeps every read inside a whole char.
    if text.len() <= 3 {
        proof {
            assert forall|k: int| 0 <= k <= s.len() implies count_bytes(
                s.subrange(0, k),
                surrogate_lead(),
            ) == 0 by {
                lemma_zero_prefix(s, k);
            }
        }
        return 0;
    }
    let end = text.len() - 3;
    let mut count: usize = 0;
    let mut i: usize = 0;
    while end - i >= SIZE
        invariant
            s == text@,
            end + 3 == s.len(),
            i <= end,
            count == count_bytes(s.subrange(0, i as int), surrogate_lead()),
            count <= i,
        decreases end - i,
    {
        let mut acc = byte_chunk::zero();
        let mut n: usize = 0;
        let ghost i0 = i;
        while n < MAX_ACC && end - i >= SIZE
            invariant
                s == text@,
                end + 3 == s.len(),
                i0 <= i <= end,
                i == i0 + n * SIZE,
                n <= MAX_ACC,
                forall|j: u64| j < 8 ==> #[trigger] lane(acc, j) <= n,
                count_bytes(s.subrange(0, i as int), surrogate_lead()) == count_bytes(
                    s.subrange(0, i0 as int),
                    surrogate_lead(),
                ) + lane_sum(acc),
            decreases end - i,
        {
            let sur = surrogate_flags_at(text, i);
            proof {
                lemma_count_chunk(s, i as int, surrogate_lead(), sur);
            }
            acc = byte_chunk::add_lanes(acc, sur);
            i += SIZE;
            n += 1;
        }
        proof {
            lemma_lane_sum_bound(acc, MAX_ACC as int);
            lemma_count_le_len_prefix(s, i as int);
        }
        count += byte_chunk::sum_bytes(acc);
    }
    while i < end
        invariant
            s == text@,
            end + 3 == s.len(),
            i <= end,
            count == count_bytes(s.subrange(0, i as int), surrogate_lead()),
            count <= i,
        decreases end - i,
    {
        proof {
            lemma_count_step(s, i as int, surrogate_lead());
        }
        if is_surrogate_byte(text[i]) {
            count += 1;
        }
        i += 1;
    }
    proof {
        lemma_count_step(s, end as int, surrogate_lead());
        lemma_count_step(s, end + 1, surrogate_lead());
        lemma_count_step(s, end + 2, surrogate_lead());
        assert(!is_surrogate_lead(s[end as int]));
        assert(!is_surrogate_lead(s[end + 1]));
        assert(!is_surrogate_lead(s[end + 2]));
    }
    count
}

proof fn lemma_zero_prefix(s: Seq<u8>, k: int)
    requires
        0 <= k <= s.len(),
        forall|p: int| 0 <= p < s.len() ==> !is_surrogate_lead(#[trigger] s[p]),
    ensures
        count_bytes(s.subrange(0, k), surrogate_lead()) == 0,
    decreases k,
{
    if k > 0 {
        lemma_zero_prefix(s, k - 1);
        lemma_count_step(s, k - 1, surrogate_lead());
    } else {
        assert(s.subrange(0, 0) =~= Seq::<u8>::empty());
    }
}

//------------------------------------------------------------------
// Laws.

/// Converting byte indices to UTF-16 indices never goes backwards.
pub proof fn lemma_from_byte_idx_monotone(text: &str, a: usize, b: usize)
    requires
        a <= b,
    ensures
        utf16_count(text.spec_bytes().subrange(0, floor_boundary(text.spec_bytes(), a as int)))
            <= utf16_count(
            text.spec_bytes().subrange(0, floor_boundary(text.spec_bytes(), b as int)),
        ),
{
    let s = text.spec_bytes();
    lemma_floor_monotone(s, a as int, b as int);
    lemma_floor_is_boundary(s, a as int);
    lemma_floor_is_boundary(s, b as int);
    lemma_utf16_prefix_mono(s, floor_boundary(s, a as int), floor_boundary(s, b as int));
}

/// At a byte that starts a char, the UTF-16 count of the prefix goes up.
proof fn lemma_utf16_at_start(s: Seq<u8>, r: int, j: int)
    requires
        0 <= r < s.len(),
        r < j <= s.len(),
        !is_continuation_byte(s[r]),
    ensures
        utf16_count(s.subrange(0, j)) >= utf16_count(s.subrange(0, r)) + 1,
{
    lemma_count_step(s, r, continuation());
    lemma_count_step(s, r, surrogate_lead());
    lemma_utf16_prefix_mono(s, r + 1, j);
}

/// Converting UTF-16 indices to byte indices never goes backwards.
pub proof fn lemma_to_byte_idx_monotone(text: &str, a: usize, b: usize, ra: usize, rb: usize)
    requires
        a <= b,
        is_utf16_start(text.spec_bytes(), a as int, ra as int),
        is_utf16_start(text.spec_bytes(), b as int, rb as int),
    ensures
        ra <= rb,
{
    let s = text.spec_bytes();
    if ra > rb {
        lemma_utf16_prefix_mono(s, rb + 1, ra as int);
        lemma_count_full(s, continuation());
        lemma_count_full(s, surrogate_lead());
    }
}

/// A byte index that starts a char (or ends the text), converted to a UTF-16
/// index and back, is itself.
pub proof fn lemma_round_trip(text: &str, b: usize, r: usize)
    requires
        is_char_boundary(text.spec_bytes(), b as int),
        is_utf16_start(
            text.spec_bytes(),
            utf16_count(text.spec_bytes().subrange(0, floor_boundary(text.spec_bytes(), b as int))),
            r as int,
        ),
    ensures
        r == b,
{
    let s = text.spec_bytes();
    crate::model::lemma_boundary_le_len(s, b as int);
    crate::model::lemma_floor_fixed(s, b as int);
    lemma_count_full(s, continuation());
    lemma_count_full(s, surrogate_lead());
    if b < s.len() {
        is_char_boundary_iff_not_is_continuation_byte(s, b as int);
    }
    if r < b {
        lemma_utf16_prefix_mono(s, r + 1, b as int);
    } else if b < r {
        lemma_utf16_at_start(s, b as int, b + 1);
        lemma_utf16_prefix_mono(s, b + 1, r as int);
    }
}

} // verus!
