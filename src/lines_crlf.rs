//! Index by lines (carriage return and line feed).
//!
//! This module recognizes the following as line breaks:
//!
//! - `U+000A`          &mdash; LF (Line Feed)
//! - `U+000D`          &mdash; CR (Carriage Return)
//! - `U+000D` `U+000A` &mdash; CRLF (Carriage Return + Line Feed)
//!
//! (Note: if you only want to recognize LF and CRLF, without recognizing CR
//! individually, see the [`lines_lf`](crate::lines_lf) module.)
use vstd::prelude::*;
use vstd::string::StringSliceAdditionalSpecFns;
use crate::byte_chunk::{self, lane, lane_sum, SIZE};
use crate::model::{
    clamp, crlf_break_at, crlf_count, crlf_line_of, is_crlf_middle, lemma_crlf_middle_counted,
    lemma_crlf_prefix_mono, lemma_crlf_step, lemma_lane_sum_bound,
};

verus! {

const LF: u8 = 0x0A;

const CR: u8 = 0x0D;

/// `r` is the byte index at which line `line_idx` of `s` starts: the first
/// position in line `line_idx`, or the length of `s` when `s` has fewer
/// lines.
pub open spec fn is_line_start(s: Seq<u8>, line_idx: int, r: int) -> bool {
    &&& 0 <= r <= s.len()
    &&& crlf_line_of(s, r) == line_idx || (r == s.len() && crlf_line_of(s, r) < line_idx)
    &&& forall|j: int| 0 <= j < r ==> #[trigger] crlf_line_of(s, j) < line_idx
}

/// Counts the line breaks in a string slice.
///
/// Runs in O(N) time.
pub fn count_breaks(text: &str) -> (r: usize)
    ensures
        r == crlf_count(text.spec_bytes()),
{
    count_breaks_impl(text.as_bytes())
}

/// Converts from byte-index to line-index in a string slice.
///
/// Line break characters are considered to be a part of the line they end.
/// And a string that ends with a line break is considered to have a final
/// empty line.  So this function is equivalent to counting the line breaks
/// before the specified byte.
///
/// Any past-the-end index will return the last line index.
///
/// Runs in O(N) time.
pub fn from_byte_idx(text: &str, byte_idx: usize) -> (r: usize)
    ensures
        r == crlf_line_of(text.spec_bytes(), clamp(text.spec_bytes(), byte_idx)),
        r <= crlf_count(text.spec_bytes()),
{
    let bytes = text.as_bytes();
    let i = if byte_idx < bytes.len() {
        byte_idx
    } else {
        bytes.len()
    };
    let nl_count = count_breaks_impl(&bytes[0..i]);
    proof {
        lemma_crlf_middle_counted(bytes@, i as int);
        lemma_line_le_count(bytes@, i as int);
    }
    if crate::is_not_crlf_middle(i, bytes) {
        nl_count
    } else {
        nl_count - 1
    }
}

/// Converts from line-index to byte-index in a string slice.
///
/// Returns the byte index of the start of the specified line.  Line 0 is the
/// start of the string, and subsequent lines start immediately *after* each
/// line break character.
///
/// Any past-the-end index will return the one-past-the-end byte index.
///
/// Runs in O(N) time.
pub fn to_byte_idx(text: &str, line_idx: usize) -> (r: usize)
    ensures
        is_line_start(text.spec_bytes(), line_idx as int, r as int),
{
    to_byte_idx_impl(text.as_bytes(), line_idx)
}

/// Flags the line breaks that end in the chunk loaded at `at`, given the
/// carriage-return flags of the chunk before it; also hands back this chunk's
/// carriage-return flags.
fn break_flags_at(text: &[u8], at: usize, prev_cr: u64) -> (r: (u64, u64))
    requires
        at + SIZE <= text@.len(),
        lane(prev_cr, 7) == if at > 0 && text@[at - 1] == CR { 1u8 } else { 0u8 },
    ensures
        forall|i: u64| i < 8 ==> #[trigger] lane(r.0, i) <= 1,
        forall|i: u64| i < 8 ==> #[trigger] lane(r.0, i) == if crlf_break_at(text@, at + i) {
            1u8
        } else {
            0u8
        },
        lane(r.1, 7) == if text@[at + 7] == CR { 1u8 } else { 0u8 },
{
    let c = byte_chunk::load(text, at);
    let lf_flags = byte_chunk::cmp_eq_byte(c, LF);
    let cr_flags = byte_chunk::cmp_eq_byte(c, CR);
    let prev_shifted = byte_chunk::shift_across(prev_cr, cr_flags);
    let crlf_flags = byte_chunk::bitand(prev_shifted, lf_flags);
    proof {
        assert forall|i: u64| i < 8 implies #[trigger] lane(crlf_flags, i) == if at + i > 0
            && text@[at + i - 1] == CR && text@[at + i] == LF {
            1u8
        } else {
            0u8
        } by {
            if i == 0 {
                assert(lane(prev_cr, 7) <= 1);
            } else {
                assert(text@[at + i - 1] == text@[at + (i - 1) as u64]);
            }
            assert(0u8 & 0u8 == 0u8 && 0u8 & 1u8 == 0u8 && 1u8 & 0u8 == 0u8 && 1u8 & 1u8 == 1u8)
                by (bit_vector);
        }
    }
    let sum = byte_chunk::add_lanes(lf_flags, cr_flags);
    let r = byte_chunk::sub_lanes(sum, crlf_flags);
    (r, cr_flags)
}

/// Breaks before `j` are no more than those before `k`.
proof fn lemma_below_target(s: Seq<u8>, k: int, line_idx: int)
    requires
        0 <= k <= s.len(),
        crlf_count(s.subrange(0, k)) < line_idx,
    ensures
        forall|j: int| 0 <= j <= k ==> #[trigger] crlf_line_of(s, j) < line_idx,
{
    assert forall|j: int| 0 <= j <= k implies #[trigger] crlf_line_of(s, j) < line_idx by {
        lemma_crlf_prefix_mono(s, j, k);
        lemma_crlf_middle_counted(s, j);
    }
}

/// The carriage-return lane that stands for the byte before `at`.
fn prev_cr_of(text: &[u8], at: usize) -> (r: u64)
    requires
        at <= text@.len(),
    ensures
        lane(r, 7) == if at > 0 && text@[at - 1] == CR { 1u8 } else { 0u8 },
{
    let last_was_cr = at > 0 && text[at - 1] == CR;
    byte_chunk::splat(if last_was_cr { 1 } else { 0 })
}

fn to_byte_idx_impl(text: &[u8], line_idx: usize) -> (r: usize)
    ensures
        r <= text@.len(),
        crlf_line_of(text@, r as int) == line_idx || (r == text@.len() && crlf_line_of(
            text@,
            r as int,
        ) < line_idx),
        forall|j: int| 0 <= j < r ==> #[trigger] crlf_line_of(text@, j) < line_idx,
{
    let len = text.len();
    let ghost s = text@;
    proof {
        assert(s.subrange(0, 0) =~= Seq::<u8>::empty());
        assert(s.subrange(0, len as int) =~= s);
    }
    let mut byte_count: usize = 0;
    let mut break_count: usize = 0;

    // Chunks two at a time.
    while len - byte_count >= 2 * SIZE
        invariant
            s == text@,
            len == s.len(),
            byte_count <= len,
            break_count == crlf_count(s.subrange(0, byte_count as int)),
            break_count <= line_idx,
            byte_count > 0 ==> break_count < line_idx,
            forall|j: int| 0 <= j < byte_count ==> #[trigger] crlf_line_of(s, j) < line_idx,
        decreases len - byte_count,
    {
        let prev = prev_cr_of(text, byte_count);
        let (f0, cr0) = break_flags_at(text, byte_count, prev);
        let (f1, _) = break_flags_at(text, byte_count + SIZE, cr0);
        let both = byte_chunk::add_lanes(f0, f1);
        proof {
            lemma_crlf_chunk(s, byte_count as int, f0);
            lemma_crlf_chunk(s, byte_count + 8, f1);
            lemma_lane_sum_bound(both, 2);
            lemma_crlf_prefix_mono(s, 0, byte_count + 16);
            assert(s.subrange(0, 0) =~= Seq::<u8>::empty());
        }
        let new_break_count = break_count + byte_chunk::sum_bytes(both);
        if new_break_count >= line_idx {
            break;
        }
        proof {
            lemma_below_target(s, byte_count + 16, line_idx as int);
        }
        break_count = new_break_count;
        byte_count += 2 * SIZE;
    }

    // The rest of the chunks.
    while len - byte_count >= SIZE
        invariant
            s == text@,
            len == s.len(),
            byte_count <= len,
            break_count == crlf_count(s.subrange(0, byte_count as int)),
            break_count <= line_idx,
            byte_count > 0 ==> break_count < line_idx,
            forall|j: int| 0 <= j < byte_count ==> #[trigger] crlf_line_of(s, j) < line_idx,
        decreases len - byte_count,
    {
        let prev = prev_cr_of(text, byte_count);
        let (f, _) = break_flags_at(text, byte_count, prev);
        proof {
            lemma_crlf_chunk(s, byte_count as int, f);
            lemma_lane_sum_bound(f, 1);
            lemma_crlf_prefix_mono(s, 0, byte_count + 8);
            assert(s.subrange(0, 0) =~= Seq::<u8>::empty());
        }
        let new_break_count = break_count + byte_chunk::sum_bytes(f);
        if new_break_count >= line_idx {
            break;
        }
        proof {
            lemma_below_target(s, byte_count + 8, line_idx as int);
        }
        break_count = new_break_count;
        byte_count += SIZE;
    }

    // The last bytes, one at a time.
    let mut last_was_cr = byte_count > 0 && text[byte_count - 1] == CR;
    while byte_count < len
        invariant_except_break
            last_was_cr == (byte_count > 0 && s[byte_count - 1] == CR),
        invariant
            s == text@,
            len == s.len(),
            byte_count <= len,
            break_count == crlf_count(s.subrange(0, byte_count as int)),
            break_count <= line_idx,
            forall|j: int| 0 <= j < byte_count ==> #[trigger] crlf_line_of(s, j) < line_idx,
            s.subrange(0, len as int) == s,
        ensures
            byte_count <= len,
            crlf_line_of(s, byte_count as int) == line_idx || (byte_count == len && crlf_line_of(
                s,
                byte_count as int,
            ) < line_idx),
            forall|j: int| 0 <= j < byte_count ==> #[trigger] crlf_line_of(s, j) < line_idx,
        decreases len - byte_count,
    {
        let byte = text[byte_count];
        let is_lf = byte == LF;
        let is_cr = byte == CR;
        proof {
            lemma_crlf_step(s, byte_count as int);
            lemma_crlf_middle_counted(s, byte_count as int);
        }
        if break_count == line_idx {
            if last_was_cr && is_lf {
                byte_count += 1;
            }
            break;
        }
        if is_cr || (is_lf && !last_was_cr) {
            break_count += 1;
        }
        last_was_cr = is_cr;
        byte_count += 1;
    }
    proof {
        lemma_crlf_middle_counted(s, byte_count as int);
    }
    byte_count
}

/// The flags of a chunk loaded at `k` add up to the breaks that end in it.
proof fn lemma_crlf_chunk(s: Seq<u8>, k: int, f: u64)
    requires
        0 <= k,
        k + 8 <= s.len(),
        forall|i: u64| i < 8 ==> #[trigger] lane(f, i) == if crlf_break_at(s, k + i) {
            1u8
        } else {
            0u8
        },
    ensures
        crlf_count(s.subrange(0, k + 8)) == crlf_count(s.subrange(0, k)) + lane_sum(f),
{
    lemma_crlf_step(s, k);
    lemma_crlf_step(s, k + 1);
    lemma_crlf_step(s, k + 2);
    lemma_crlf_step(s, k + 3);
    lemma_crlf_step(s, k + 4);
    lemma_crlf_step(s, k + 5);
    lemma_crlf_step(s, k + 6);
    lemma_crlf_step(s, k + 7);
    assert(lane(f, 0) == if crlf_break_at(s, k + 0) { 1u8 } else { 0u8 });
    assert(lane(f, 1) == if crlf_break_at(s, k + 1) { 1u8 } else { 0u8 });
    assert(lane(f, 2) == if crlf_break_at(s, k + 2) { 1u8 } else { 0u8 });
    assert(lane(f, 3) == if crlf_break_at(s, k + 3) { 1u8 } else { 0u8 });
    assert(lane(f, 4) == if crlf_break_at(s, k + 4) { 1u8 } else { 0u8 });
    assert(lane(f, 5) == if crlf_break_at(s, k + 5) { 1u8 } else { 0u8 });
    assert(lane(f, 6) == if crlf_break_at(s, k + 6) { 1u8 } else { 0u8 });
    assert(lane(f, 7) == if crlf_break_at(s, k + 7) { 1u8 } else { 0u8 });
}

/// Counts the CR/LF line breaks in a byte slice.
fn count_breaks_impl(text: &[u8]) -> (r: usize)
    ensures
        r == crlf_count(text@),
{
    let len = text.len();
    let ghost s = text@;
    proof {
        assert(s.subrange(0, 0) =~= Seq::<u8>::empty());
        assert(s.subrange(0, len as int) =~= s);
    }
    let mut count: usize = 0;
    let mut i: usize = 0;
    let mut prev = byte_chunk::zero();
    // Chunks two at a time.
    while len - i >= 2 * SIZE
        invariant
            i <= len == s.len(),
            s == text@,
            count == crlf_count(s.subrange(0, i as int)),
            count <= i,
            lane(prev, 7) == if i > 0 && s[i - 1] == CR { 1u8 } else { 0u8 },
        decreases len - i,
    {
        let (f0, cr0) = break_flags_at(text, i, prev);
        let (f1, cr1) = break_flags_at(text, i + SIZE, cr0);
        let both = byte_chunk::add_lanes(f0, f1);
        proof {
            lemma_crlf_chunk(s, i as int, f0);
            lemma_crlf_chunk(s, i + 8, f1);
            lemma_lane_sum_bound(both, 2);
            lemma_crlf_prefix_mono(s, i as int, i + 16);
        }
        count += byte_chunk::sum_bytes(both);
        prev = cr1;
        i += 2 * SIZE;
    }
    if len - i >= SIZE {
        let (f, _) = break_flags_at(text, i, prev);
        proof {
            lemma_crlf_chunk(s, i as int, f);
            lemma_lane_sum_bound(f, 1);
            lemma_crlf_prefix_mono(s, i as int, i + 8);
        }
        count += byte_chunk::sum_bytes(f);
        i += SIZE;
    }
    // The last bytes, one at a time.
    let mut last_was_cr = i > 0 && text[i - 1] == CR;
    while i < len
        invariant
            i <= len == s.len(),
            s == text@,
            count == crlf_count(s.subrange(0, i as int)),
            count <= i,
            last_was_cr == (i > 0 && s[i - 1] == CR),
        decreases len - i,
    {
        proof {
            lemma_crlf_step(s, i as int);
        }
        let byte = text[i];
        let is_lf = byte == LF;
        let is_cr = byte == CR;
        if is_cr || (is_lf && !last_was_cr) {
            count += 1;
        }
        last_was_cr = is_cr;
        i += 1;
    }
    count
}

//------------------------------------------------------------------
// Laws.

proof fn lemma_line_le_count(s: Seq<u8>, i: int)
    requires
        0 <= i <= s.len(),
    ensures
        crlf_line_of(s, i) <= crlf_count(s),
        crlf_line_of(s, s.len() as int) == crlf_count(s),
{
    lemma_crlf_middle_counted(s, i);
    lemma_crlf_prefix_mono(s, i, s.len() as int);
    assert(s.subrange(0, s.len() as int) =~= s);
}

/// The line of a position is at most one less than the breaks before a later
/// position.
proof fn lemma_line_below_count(s: Seq<u8>, j: int, b: int)
    requires
        0 <= j < b <= s.len(),
    ensures
        crlf_line_of(s, j) <= crlf_count(s.subrange(0, b)),
        is_crlf_middle(s, j) ==> crlf_line_of(s, j) < crlf_count(s.subrange(0, b)),
{
    lemma_crlf_middle_counted(s, j);
    lemma_crlf_prefix_mono(s, j, b);
    if is_crlf_middle(s, j) {
        lemma_crlf_step(s, j - 1);
        lemma_crlf_prefix_mono(s, j, b);
    }
}

/// Converting byte indices to line indices never goes backwards.
pub proof fn lemma_from_byte_idx_monotone(text: &str, a: usize, b: usize)
    requires
        a <= b,
    ensures
        crlf_line_of(text.spec_bytes(), clamp(text.spec_bytes(), a)) <= crlf_line_of(
            text.spec_bytes(),
            clamp(text.spec_bytes(), b),
        ),
{
    let s = text.spec_bytes();
    let i = clamp(s, a);
    let j = clamp(s, b);
    if i < j {
        lemma_line_below_count(s, i, j);
        if is_crlf_middle(s, j) {
            lemma_crlf_step(s, j - 1);
            if i < j - 1 {
                lemma_line_below_count(s, i, j - 1);
            }
        }
    }
}

/// Converting line indices to byte indices never goes backwards.
pub proof fn lemma_to_byte_idx_monotone(text: &str, a: usize, b: usize, ra: usize, rb: usize)
    requires
        a <= b,
        is_line_start(text.spec_bytes(), a as int, ra as int),
        is_line_start(text.spec_bytes(), b as int, rb as int),
    ensures
        ra <= rb,
{
    let s = text.spec_bytes();
    if ra > rb {
        assert(crlf_line_of(s, rb as int) < a);
    }
}

/// The start of a line, converted back to a line index, is that line, or
/// the last line when the index is past the end.
pub proof fn lemma_line_round_trip(text: &str, line_idx: usize, r: usize)
    requires
        is_line_start(text.spec_bytes(), line_idx as int, r as int),
    ensures
        crlf_line_of(text.spec_bytes(), clamp(text.spec_bytes(), r as usize)) == if line_idx
            <= crlf_count(text.spec_bytes()) {
            line_idx as int
        } else {
            crlf_count(text.spec_bytes()) as int
        },
{
    lemma_line_le_count(text.spec_bytes(), r as int);
}

/// A line break (CR, LF, or CRLF) ends just before position `b`.
pub open spec fn ends_break(s: Seq<u8>, b: int) -> bool {
    b > 0 && (s[b - 1] == 0x0A || (s[b - 1] == 0x0D && !is_crlf_middle(s, b)))
}

/// A byte index that starts a line (the start of the text, or just after a
/// line break), converted to a line index and back, is itself.
pub proof fn lemma_round_trip(text: &str, b: usize, r: usize)
    requires
        b <= text.spec_bytes().len(),
        b == 0 || ends_break(text.spec_bytes(), b as int),
        is_line_start(
            text.spec_bytes(),
            crlf_line_of(text.spec_bytes(), clamp(text.spec_bytes(), b)),
            r as int,
        ),
    ensures
        r == b,
{
    let s = text.spec_bytes();
    let k = crlf_line_of(s, b as int);
    assert forall|j: int| 0 <= j < b implies #[trigger] crlf_line_of(s, j) < k by {
        lemma_crlf_step(s, b - 1);
        if s[b - 1] == LF && b >= 2 && s[b - 2] == CR {
            lemma_crlf_step(s, b - 2);
            if j < b - 2 {
                lemma_line_below_count(s, j, b - 2);
            } else {
                lemma_crlf_middle_counted(s, j);
            }
        } else {
            lemma_line_below_count(s, j, b as int);
            if j < b - 1 {
                lemma_line_below_count(s, j, b - 1);
            } else {
                lemma_crlf_middle_counted(s, j);
            }
        }
    }
    if r < b {
        assert(crlf_line_of(s, r as int) == k);
    } else if b < r {
        assert(crlf_line_of(s, b as int) < k);
    }
}

} // verus!
