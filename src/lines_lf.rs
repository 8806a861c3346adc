//! Index by lines (line feed only).
//!
//! This module recognizes the following as line breaks:
//!
//! - `U+000A`          &mdash; LF (Line Feed)
//! - `U+000D` `U+000A` &mdash; CRLF (Carriage Return + Line Feed)
//!   &mdash; by coincidence due to ignoring CR.
use vstd::prelude::*;
use vstd::string::StringSliceAdditionalSpecFns;
use crate::byte_chunk::{self, lane, lane_sum, SIZE};
use crate::model::{
    clamp, count_bytes, lemma_count_chunk, lemma_count_full, lemma_count_le_len,
    lemma_count_prefix_mono, lemma_count_step, lemma_lane_sum_bound, lf_count, line_feed,
};

verus! {

/// `r` is the byte index at which line `line_idx` of `s` starts: the first
/// position with `line_idx` line feeds before it, or the length of `s` when
/// `s` has fewer line feeds.
pub open spec fn is_line_start(s: Seq<u8>, line_idx: int, r: int) -> bool {
    &&& 0 <= r <= s.len()
    &&& lf_count(s.subrange(0, r)) == line_idx || (r == s.len() && lf_count(s) < line_idx)
    &&& forall|j: int| 0 <= j < r ==> #[trigger] lf_count(s.subrange(0, j)) < line_idx
}

/// Counts the line breaks in a string slice.
///
/// Runs in O(N) time.
pub fn count_breaks(text: &str) -> (r: usize)
    ensures
        r == lf_count(text.spec_bytes()),
{
    count_breaks_impl(text.as_bytes())
}

/// Converts from byte-index to line-index in a string slice.
///
/// Line break characters are considered to be a part of the line they end.
/// And a string that ends with a line break is considered to have a final
/// empty line.  So this function is equivalent to counting the line breaks
/// before the specified byte.
///
/// Any past-the-end index will return the last line index.
///
/// Runs in O(N) time.
pub fn from_byte_idx(text: &str, byte_idx: usize) -> (r: usize)
    ensures
        r == lf_count(text.spec_bytes().subrange(0, clamp(text.spec_bytes(), byte_idx))),
        r <= lf_count(text.spec_bytes()),
{
    let bytes = text.as_bytes();
    proof {
        lemma_count_prefix_mono(bytes@, clamp(bytes@, byte_idx), bytes@.len() as int, line_feed());
        lemma_count_full(bytes@, line_feed());
    }
    let i = if byte_idx < bytes.len() {
        byte_idx
    } else {
        bytes.len()
    };
    count_breaks_impl(&bytes[0..i])
}

/// Converts from line-index to byte-index in a string slice.
///
/// Returns the byte index of the start of the specified line.  Line 0 is the
/// start of the string, and subsequent lines start immediately *after* each
/// line break character.
///
/// Any past-the-end index will return the one-past-the-end byte index.
///
/// Runs in O(N) time.
pub fn to_byte_idx(text: &str, line_idx: usize) -> (r: usize)
    ensures
        is_line_start(text.spec_bytes(), line_idx as int, r as int),
{
    to_byte_idx_impl(text.as_bytes(), line_idx)
}

/// Flags the line feeds of the chunk loaded at `at`.
fn lf_flags_at(text: &[u8], at: usize) -> (r: u64)
    requires
        at + SIZE <= text@.len(),
    ensures
        forall|i: u64| i < 8 ==> #[trigger] lane(r, i) <= 1,
        forall|i: u64| i < 8 ==> #[trigger] lane(r, i) == if line_feed()(text@[at + i]) {
            1u8
        } else {
            0u8
        },
{
    byte_chunk::cmp_eq_byte(byte_chunk::load(text, at), 0x0A)
}

/// Lines before `j` (a prefix count) are no more than those before `k`.
proof fn lemma_below_target(s: Seq<u8>, k: int, line_idx: int)
    requires
        0 <= k <= s.len(),
        lf_count(s.subrange(0, k)) < line_idx,
    ensures
        forall|j: int| 0 <= j <= k ==> #[trigger] lf_count(s.subrange(0, j)) < line_idx,
{
    assert forall|j: int| 0 <= j <= k implies #[trigger] lf_count(s.subrange(0, j)) < line_idx by {
        lemma_count_prefix_mono(s, j, k, line_feed());
    }
}

fn to_byte_idx_impl(text: &[u8], line_idx: usize) -> (r: usize)
    ensures
        r <= text@.len(),
        lf_count(text@.subrange(0, r as int)) == line_idx || (r == text@.len() && lf_count(text@)
            < line_idx),
        forall|j: int| 0 <= j < r ==> #[trigger] lf_count(text@.subrange(0, j)) < line_idx,
{
    let len = text.len();
    let ghost s = text@;
    proof {
        lemma_count_full(s, line_feed());
        assert(s.subrange(0, 0) =~= Seq::<u8>::empty());
    }
    let mut byte_count: usize = 0;
    let mut lf_seen: usize = 0;

    // Groups of four chunks.
    while len - byte_count >= 4 * SIZE
        invariant
            s == text@,
            len == s.len(),
            byte_count <= len,
            lf_seen == lf_count(s.subrange(0, byte_count as int)),
            lf_seen <= line_idx,
            forall|j: int| 0 <= j < byte_count ==> #[trigger] lf_count(s.subrange(0, j)) < line_idx,
        decreases len - byte_count,
    {
        let v1 = lf_flags_at(text, byte_count);
        let v2 = lf_flags_at(text, byte_count + SIZE);
        let v3 = lf_flags_at(text, byte_count + 2 * SIZE);
        let v4 = lf_flags_at(text, byte_count + 3 * SIZE);
        let a = byte_chunk::add_lanes(v1, v2);
        let b = byte_chunk::add_lanes(v3, v4);
        let c = byte_chunk::add_lanes(a, b);
        proof {
            let i = byte_count as int;
            lemma_count_chunk(s, i, line_feed(), v1);
            lemma_count_chunk(s, i + 8, line_feed(), v2);
            lemma_count_chunk(s, i + 16, line_feed(), v3);
            lemma_count_chunk(s, i + 24, line_feed(), v4);
            lemma_lane_sum_bound(c, 4);
            lemma_count_le_len(s.subrange(0, i + 32), line_feed());
        }
        let new_lf_count = lf_seen + byte_chunk::sum_bytes(c);
        if new_lf_count >= line_idx {
            break;
        }
        proof {
            lemma_below_target(s, byte_count + 32, line_idx as int);
        }
        lf_seen = new_lf_count;
        byte_count += 4 * SIZE;
    }

    // Single chunks.
    while len - byte_count >= SIZE
        invariant
            s == text@,
            len == s.len(),
            byte_count <= len,
            lf_seen == lf_count(s.subrange(0, byte_count as int)),
            lf_seen <= line_idx,
            forall|j: int| 0 <= j < byte_count ==> #[trigger] lf_count(s.subrange(0, j)) < line_idx,
        decreases len - byte_count,
    {
        let v = lf_flags_at(text, byte_count);
        proof {
            lemma_count_chunk(s, byte_count as int, line_feed(), v);
            lemma_lane_sum_bound(v, 1);
            lemma_count_le_len(s.subrange(0, byte_count + 8), line_feed());
        }
        let new_lf_count = lf_seen + byte_chunk::sum_bytes(v);
        if new_lf_count >= line_idx {
            break;
        }
        proof {
            lemma_below_target(s, byte_count + 8, line_idx as int);
        }
        lf_seen = new_lf_count;
        byte_count += SIZE;
    }

    // The last bytes, one at a time.
    while byte_count < len
        invariant
            s == text@,
            len == s.len(),
            byte_count <= len,
            lf_seen == lf_count(s.subrange(0, byte_count as int)),
            lf_seen <= line_idx,
            forall|j: int| 0 <= j < byte_count ==> #[trigger] lf_count(s.subrange(0, j)) < line_idx,
            count_bytes(s.subrange(0, len as int), line_feed()) == lf_count(s),
        ensures
            byte_count <= len,
            lf_count(s.subrange(0, byte_count as int)) == line_idx || (byte_count == len
                && lf_count(s) < line_idx),
            forall|j: int| 0 <= j < byte_count ==> #[trigger] lf_count(s.subrange(0, j)) < line_idx,
        decreases len - byte_count,
    {
        if lf_seen == line_idx {
            break;
        }
        proof {
            lemma_count_step(s, byte_count as int, line_feed());
        }
        if text[byte_count] == 0x0A {
            lf_seen += 1;
        }
        byte_count += 1;
    }
    byte_count
}

/// Counts the line feeds in a byte slice.
fn count_breaks_impl(text: &[u8]) -> (r: usize)
    ensures
        r == lf_count(text@),
{
    let len = text.len();
    let ghost s = text@;
    proof {
        lemma_count_full(s, line_feed());
    }
    let mut count: usize = 0;
    let mut i: usize = 0;
    if len >= SIZE {
        // Groups of four chunks.
        while len - i >= 4 * SIZE
            invariant
                i <= len == s.len(),
                s == text@,
                count == lf_count(s.subrange(0, i as int)),
                count <= i,
            decreases len - i,
        {
            let v1 = lf_flags_at(text, i);
            let v2 = lf_flags_at(text, i + SIZE);
            let v3 = lf_flags_at(text, i + 2 * SIZE);
            let v4 = lf_flags_at(text, i + 3 * SIZE);
            let a = byte_chunk::add_lanes(v1, v2);
            let b = byte_chunk::add_lanes(v3, v4);
            let c = byte_chunk::add_lanes(a, b);
            proof {
                lemma_count_chunk(s, i as int, line_feed(), v1);
                lemma_count_chunk(s, i + 8, line_feed(), v2);
                lemma_count_chunk(s, i + 16, line_feed(), v3);
                lemma_count_chunk(s, i + 24, line_feed(), v4);
                lemma_lane_sum_bound(c, 4);
                lemma_count_le_len(s.subrange(0, i + 32), line_feed());
            }
            count += byte_chunk::sum_bytes(c);
            i += 4 * SIZE;
        }
        // The remaining chunks.
        let mut acc = byte_chunk::zero();
        let ghost start = i;
        let ghost mut k: int = 0;
        while len - i >= SIZE
            invariant
                i <= len == s.len(),
                s == text@,
                start + 32 > len,
                i == start + 8 * k,
                0 <= k <= 3,
                forall|j: u64| j < 8 ==> #[trigger] lane(acc, j) <= k,
                count + lane_sum(acc) == lf_count(s.subrange(0, i as int)),
                count <= start,
            decreases len - i,
        {
            let v = lf_flags_at(text, i);
            proof {
                lemma_count_chunk(s, i as int, line_feed(), v);
            }
            acc = byte_chunk::add_lanes(acc, v);
            i += SIZE;
            proof {
                k = k + 1;
            }
        }
        proof {
            lemma_lane_sum_bound(acc, 3);
            lemma_count_le_len(s.subrange(0, i as int), line_feed());
        }
        count += byte_chunk::sum_bytes(acc);
    }
    // The last bytes, one at a time.
    while i < len
        invariant
            i <= len == s.len(),
            s == text@,
            count == lf_count(s.subrange(0, i as int)),
            count <= i,
        decreases len - i,
    {
        proof {
            lemma_count_step(s, i as int, line_feed());
        }
        if text[i] == 0x0A {
            count += 1;
        }
        i += 1;
    }
    count
}

//------------------------------------------------------------------
// Laws.

/// Converting byte indices to line indices never goes backwards.
pub proof fn lemma_from_byte_idx_monotone(text: &str, a: usize, b: usize)
    requires
        a <= b,
    ensures
        lf_count(text.spec_bytes().subrange(0, clamp(text.spec_bytes(), a))) <= lf_count(
            text.spec_bytes().subrange(0, clamp(text.spec_bytes(), b)),
        ),
{
    let s = text.spec_bytes();
    lemma_count_prefix_mono(s, clamp(s, a), clamp(s, b), line_feed());
}

/// Converting line indices to byte indices never goes backwards.
pub proof fn lemma_to_byte_idx_monotone(text: &str, a: usize, b: usize, ra: usize, rb: usize)
    requires
        a <= b,
        is_line_start(text.spec_bytes(), a as int, ra as int),
        is_line_start(text.spec_bytes(), b as int, rb as int),
    ensures
        ra <= rb,
{
    let s = text.spec_bytes();
    if ra > rb {
        assert(lf_count(s.subrange(0, rb as int)) < a);
    }
}

/// The start of a line, converted back to a line index, is that line, or
/// the last line when the index is past the end.
pub proof fn lemma_line_round_trip(text: &str, line_idx: usize, r: usize)
    requires
        is_line_start(text.spec_bytes(), line_idx as int, r as int),
    ensures
        lf_count(text.spec_bytes().subrange(0, clamp(text.spec_bytes(), r as usize))) == if line_idx
            <= lf_count(text.spec_bytes()) {
            line_idx as int
        } else {
            lf_count(text.spec_bytes()) as int
        },
{
    let s = text.spec_bytes();
    lemma_count_prefix_mono(s, r as int, s.len() as int, line_feed());
    lemma_count_full(s, line_feed());
}

/// A byte index that starts a line (the start of the text, or just after a
/// line feed), converted to a line index and back, is itself.
pub proof fn lemma_round_trip(text: &str, b: usize, r: usize)
    requires
        b <= text.spec_bytes().len(),
        b == 0 || text.spec_bytes()[b - 1] == 0x0A,
        is_line_start(
            text.spec_bytes(),
            lf_count(text.spec_bytes().subrange(0, clamp(text.spec_bytes(), b))) as int,
            r as int,
        ),
    ensures
        r == b,
{
    let s = text.spec_bytes();
    let k = lf_count(s.subrange(0, b as int));
    lemma_count_full(s, line_feed());
    if r < b {
        assert(lf_count(s.subrange(0, r as int)) == k);
        lemma_count_prefix_mono(s, r as int, b - 1, line_feed());
        lemma_count_step(s, b - 1, line_feed());
    } else if b < r {
        assert(lf_count(s.subrange(0, b as int)) < k);
    }
}

} // verus!
