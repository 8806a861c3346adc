//! Index by lines (all Unicode line breaks).
//!
//! This module recognizes all line breaks defined in
//! [Unicode Annex #14](https://www.unicode.org/reports/tr14/):
//!
//! - `U+000A`          &mdash; LF (Line Feed)
//! - `U+000B`          &mdash; VT (Vertical Tab)
//! - `U+000C`          &mdash; FF (Form Feed)
//! - `U+000D`          &mdash; CR (Carriage Return)
//! - `U+0085`          &mdash; NEL (Next Line)
//! - `U+2028`          &mdash; Line Separator
//! - `U+2029`          &mdash; Paragraph Separator
//! - `U+000D` `U+000A` &mdash; CRLF (Carriage Return + Line Feed)
use vstd::prelude::*;
use vstd::string::StringSliceAdditionalSpecFns;
use vstd::utf8::{
    is_char_boundary, is_char_boundary_iff_not_is_continuation_byte, is_continuation_byte,
    valid_utf8,
};
use crate::byte_chunk::{self, lane, lane_sum, lemma_and_flags, MAX_ACC, SIZE};
use crate::model::{
    floor_boundary, is_control_break_at, is_crlf_at, is_nel_at,
    is_separator_at, lemma_floor_is_boundary, lemma_lane_sum_bound, lemma_unicode_mono,
    lemma_unicode_prefix, lemma_unicode_step, unicode_break_at, unicode_breaks_before,
    unicode_count, unicode_line_of,
};

verus! {

broadcast use vstd::utf8::encode_utf8_valid_utf8;

proof fn lemma_separator_third(b: u8)
    by (bit_vector)
    ensures
        ((b >> 1) == 0x54) == (b == 0xA8 || b == 0xA9),
{
}

/// `r` is the byte index at which line `line_idx` of `s` starts: the first
/// char boundary in line `line_idx`, or the length of `s` when `s` has fewer
/// lines.
pub open spec fn is_line_start(s: Seq<u8>, line_idx: int, r: int) -> bool {
    &&& 0 <= r <= s.len()
    &&& is_char_boundary(s, r)
    &&& unicode_line_of(s, r) == line_idx || (r == s.len() && unicode_line_of(s, r) < line_idx)
    &&& forall|j: int| 0 <= j < r ==> #[trigger] unicode_line_of(s, j) < line_idx
}

/// Counts the line breaks in a string slice.
///
/// Runs in O(N) time.
pub fn count_breaks(text: &str) -> (r: usize)
    ensures
        r == unicode_count(text.spec_bytes()),
{
    count_breaks_impl(text.as_bytes())
}

/// Converts from byte-index to line-index in a string slice.
///
/// Line break characters are considered to be a part of the line they end.
/// And a string that ends with a line break is considered to have a final
/// empty line.  So this function is equivalent to counting the line breaks
/// before the specified byte.
///
/// Any past-the-end index will return the last line index.
///
/// Runs in O(N) time.
pub fn from_byte_idx(text: &str, byte_idx: usize) -> (r: usize)
    ensures
        r == unicode_line_of(text.spec_bytes(), byte_idx as int),
        r <= unicode_count(text.spec_bytes()),
{
    let i = crate::floor_char_boundary(text, byte_idx);
    let bytes = text.as_bytes();
    let nl_count = count_breaks_impl(&bytes[0..i]);
    proof {
        lemma_unicode_prefix(bytes@, i as int, i as int);
        lemma_unicode_mono(bytes@, i as int, bytes@.len() as int);
    }
    if crate::is_not_crlf_middle(i, bytes) {
        nl_count
    } else {
        nl_count - 1
    }
}

/// Converts from line-index to byte-index in a string slice.
///
/// Returns the byte index of the start of the specified line.  Line 0 is the
/// start of the string, and subsequent lines start immediately *after* each
/// line break character.
///
/// Any past-the-end index will return the one-past-the-end byte index.
///
/// Runs in O(N) time.
pub fn to_byte_idx(text: &str, line_idx: usize) -> (r: usize)
    ensures
        is_line_start(text.spec_bytes(), line_idx as int, r as int),
{
    to_byte_idx_impl(text, line_idx)
}

fn to_byte_idx_impl(text: &str, line_idx: usize) -> (r: usize)
    ensures
        r <= text.spec_bytes().len(),
        is_char_boundary(text.spec_bytes(), r as int),
        unicode_line_of(text.spec_bytes(), r as int) == line_idx || (r == text.spec_bytes().len()
            && unicode_line_of(text.spec_bytes(), r as int) < line_idx),
        forall|j: int|
            0 <= j < r ==> #[trigger] unicode_line_of(text.spec_bytes(), j) < line_idx,
{
    let bytes = text.as_bytes();
    let len = bytes.len();
    let ghost s = bytes@;
    let mut pos: usize = 0;
    let mut line_break_count: usize = 0;

    // Count line breaks in whole chunks.
    while len - pos >= SIZE
        invariant
            s == bytes@,
            len == s.len(),
            pos <= len,
            line_break_count == unicode_breaks_before(s, pos as int),
            line_break_count <= line_idx,
            pos > 0 ==> line_break_count < line_idx,
            forall|q: int| 0 <= q < pos ==> #[trigger] unicode_breaks_before(s, q) < line_idx,
        decreases len - pos,
    {
        let f = count_breaks_in_chunk(bytes, pos);
        proof {
            lemma_unicode_chunk(s, pos as int, f);
            lemma_lane_sum_bound(f, 1);
            lemma_unicode_mono(s, 0, pos + 8);
        }
        let tmp = byte_chunk::sum_bytes(f);
        if tmp + line_break_count >= line_idx {
            break;
        }
        line_break_count += tmp;
        pos += SIZE;
    }

    // Handle the remaining bytes one at a time.
    let ghost pos0 = pos;
    let (_, advanced) = count_breaks_up_to(bytes, pos, len - pos, line_idx - line_break_count);
    pos += advanced;
    assert(forall|q: int| 0 <= q < pos ==> #[trigger] unicode_breaks_before(s, q) < line_idx);

    // Finish at the start of the char the scan stopped in.
    let mut byte_idx = pos;
    proof {
        vstd::utf8::is_char_boundary_start_end_of_seq(s);
    }
    while !text.is_char_boundary(byte_idx)
        invariant
            s == bytes@,
            s == text.spec_bytes(),
            len == s.len(),
            pos <= byte_idx <= len,
            is_char_boundary(s, len as int),
            forall|q: int| pos <= q < byte_idx ==> is_continuation_byte(#[trigger] s[q]),
        decreases len - byte_idx,
    {
        proof {
            is_char_boundary_iff_not_is_continuation_byte(s, byte_idx as int);
        }
        byte_idx += 1;
    }
    proof {
        lemma_to_byte_idx_result(s, pos as int, byte_idx as int, line_idx as int);
    }
    byte_idx
}

/// What the forward scan of `to_byte_idx` leaves, rounded up to the next char
/// boundary, is the start of the line asked for.
proof fn lemma_to_byte_idx_result(s: Seq<u8>, pos: int, r: int, line_idx: int)
    requires
        valid_utf8(s),
        0 <= pos <= r <= s.len(),
        is_char_boundary(s, r),
        forall|q: int| pos <= q < r ==> is_continuation_byte(#[trigger] s[q]),
        unicode_breaks_before(s, pos) == line_idx || (pos == s.len() && unicode_breaks_before(
            s,
            pos,
        ) < line_idx),
        forall|q: int| 0 <= q < pos ==> #[trigger] unicode_breaks_before(s, q) < line_idx,
    ensures
        unicode_line_of(s, r) == line_idx || (r == s.len() && unicode_line_of(s, r) < line_idx),
        forall|j: int| 0 <= j < r ==> #[trigger] unicode_line_of(s, j) < line_idx,
{
    assert(unicode_breaks_before(s, r) == unicode_breaks_before(s, pos)) by {
        lemma_no_breaks_in_continuations(s, pos, r);
    }
    lemma_floor_at_boundary(s, r);
    assert forall|j: int| 0 <= j < r implies #[trigger] unicode_line_of(s, j) < line_idx by {
        lemma_floor_is_boundary(s, j);
        let f = floor_boundary(s, j);
        if f >= pos {
            is_char_boundary_iff_not_is_continuation_byte(s, f);
            assert(is_continuation_byte(s[f]));
        }
    }
}

/// Positions that hold continuation bytes start no break.
proof fn lemma_no_breaks_in_continuations(s: Seq<u8>, a: int, b: int)
    requires
        0 <= a <= b <= s.len(),
        forall|q: int| a <= q < b ==> is_continuation_byte(#[trigger] s[q]),
    ensures
        unicode_breaks_before(s, b) == unicode_breaks_before(s, a),
    decreases b - a,
{
    if a < b {
        lemma_no_breaks_in_continuations(s, a, b - 1);
        assert(is_continuation_byte(s[b - 1]));
    }
}

proof fn lemma_floor_at_boundary(s: Seq<u8>, r: int)
    requires
        valid_utf8(s),
        0 <= r <= s.len(),
        is_char_boundary(s, r),
    ensures
        floor_boundary(s, r) == r,
{
    if 0 < r < s.len() {
        is_char_boundary_iff_not_is_continuation_byte(s, r);
    }
}

/// Counts the Unicode line breaks in a byte slice.
fn count_breaks_impl(text: &[u8]) -> (r: usize)
    ensures
        r == unicode_count(text@),
{
    let len = text.len();
    let ghost s = text@;
    let mut count: usize = 0;
    let mut pos: usize = 0;
    let mut i: usize = 0;
    let mut acc = byte_chunk::zero();
    // Whole chunks, flushing the accumulator every `MAX_ACC` chunks.
    while len - pos >= SIZE
        invariant
            s == text@,
            len == s.len(),
            pos <= len,
            i < MAX_ACC,
            forall|j: u64| j < 8 ==> #[trigger] lane(acc, j) <= i,
            count + lane_sum(acc) == unicode_breaks_before(s, pos as int),
            count + 8 * i <= pos,
        decreases len - pos,
    {
        let f = count_breaks_in_chunk(text, pos);
        proof {
            lemma_unicode_chunk(s, pos as int, f);
            lemma_unicode_mono(s, 0, pos + 8);
        }
        acc = byte_chunk::add_lanes(acc, f);
        i += 1;
        if i == MAX_ACC {
            proof {
                lemma_lane_sum_bound(acc, MAX_ACC as int);
            }
            i = 0;
            count += byte_chunk::sum_bytes(acc);
            acc = byte_chunk::zero();
        }
        pos += SIZE;
    }
    proof {
        lemma_lane_sum_bound(acc, i as int);
    }
    count += byte_chunk::sum_bytes(acc);

    // The last bytes, one at a time.
    let (tail, _) = count_breaks_up_to(text, pos, len - pos, len - pos);
    proof {
        lemma_unicode_mono(s, pos as int, len as int);
        lemma_unicode_mono(s, 0, len as int);
    }
    count + tail
}

/// Counts the line breaks that start in `bytes[start..start + max_bytes]`, a
/// byte at a time, stopping early once `max_breaks` have been found; returns
/// the count and the number of bytes it went through.
fn count_breaks_up_to(bytes: &[u8], start: usize, max_bytes: usize, max_breaks: usize) -> (r: (
    usize,
    usize,
))
    requires
        start + max_bytes <= bytes@.len(),
    ensures
        r.1 <= max_bytes,
        r.0 <= max_breaks,
        r.0 <= r.1,
        r.0 == unicode_breaks_before(bytes@, start + r.1) - unicode_breaks_before(
            bytes@,
            start as int,
        ),
        r.1 == max_bytes || r.0 == max_breaks,
        forall|q: int|
            start <= q < start + r.1 ==> #[trigger] unicode_breaks_before(bytes@, q)
                - unicode_breaks_before(bytes@, start as int) < max_breaks,
{
    let ghost s = bytes@;
    let len = bytes.len();
    let mut ptr: usize = 0;
    let mut count: usize = 0;
    while ptr < max_bytes && count < max_breaks
        invariant
            s == bytes@,
            start + max_bytes <= s.len(),
            ptr <= max_bytes,
            count <= max_breaks,
            count <= ptr,
            len == s.len(),
            count == unicode_breaks_before(s, start + ptr) - unicode_breaks_before(s, start as int),
            forall|q: int|
                start <= q < start + ptr ==> #[trigger] unicode_breaks_before(s, q)
                    - unicode_breaks_before(s, start as int) < max_breaks,
        decreases max_bytes - ptr,
    {
        proof {
            lemma_unicode_step(s, start + ptr);
        }
        if is_break_at(bytes, start + ptr) {
            count += 1;
        }
        ptr += 1;
    }
    (count, ptr)
}

/// Whether a line break starts at `p`.
fn is_break_at(bytes: &[u8], p: usize) -> (r: bool)
    requires
        p < bytes@.len(),
    ensures
        r == unicode_break_at(bytes@, p as int),
{
    let len = bytes.len();
    let byte = bytes[p];
    if 0x0A <= byte && byte <= 0x0D {
        // A CR followed by an LF is counted at the LF.
        !(byte == 0x0D && len - p > 1 && bytes[p + 1] == 0x0A)
    } else if byte == 0xC2 {
        len - p > 1 && bytes[p + 1] == 0x85
    } else if byte == 0xE2 {
        proof {
            if p + 2 < bytes@.len() {
                lemma_separator_third(bytes@[p + 2]);
            }
        }
        len - p > 2 && bytes[p + 1] == 0x80 && (bytes[p + 2] >> 1) == 0x54
    } else {
        false
    }
}

/// The flags of a chunk loaded at `k` add up to the breaks that start in it.
proof fn lemma_unicode_chunk(s: Seq<u8>, k: int, f: u64)
    requires
        0 <= k,
        k + 8 <= s.len(),
        forall|i: u64| i < 8 ==> #[trigger] lane(f, i) == if unicode_break_at(s, k + i) {
            1u8
        } else {
            0u8
        },
    ensures
        unicode_breaks_before(s, k + 8) == unicode_breaks_before(s, k) + lane_sum(f),
        forall|q: int|
            k <= q <= k + 8 ==> #[trigger] unicode_breaks_before(s, q) <= unicode_breaks_before(
                s,
                k + 8,
            ),
{
    lemma_unicode_step(s, k);
    lemma_unicode_step(s, k + 1);
    lemma_unicode_step(s, k + 2);
    lemma_unicode_step(s, k + 3);
    lemma_unicode_step(s, k + 4);
    lemma_unicode_step(s, k + 5);
    lemma_unicode_step(s, k + 6);
    lemma_unicode_step(s, k + 7);
    assert(lane(f, 0) == if unicode_break_at(s, k + 0) { 1u8 } else { 0u8 });
    assert(lane(f, 1) == if unicode_break_at(s, k + 1) { 1u8 } else { 0u8 });
    assert(lane(f, 2) == if unicode_break_at(s, k + 2) { 1u8 } else { 0u8 });
    assert(lane(f, 3) == if unicode_break_at(s, k + 3) { 1u8 } else { 0u8 });
    assert(lane(f, 4) == if unicode_break_at(s, k + 4) { 1u8 } else { 0u8 });
    assert(lane(f, 5) == if unicode_break_at(s, k + 5) { 1u8 } else { 0u8 });
    assert(lane(f, 6) == if unicode_break_at(s, k + 6) { 1u8 } else { 0u8 });
    assert(lane(f, 7) == if unicode_break_at(s, k + 7) { 1u8 } else { 0u8 });
    assert forall|q: int| k <= q <= k + 8 implies #[trigger] unicode_breaks_before(s, q)
        <= unicode_breaks_before(s, k + 8) by {
        lemma_unicode_mono(s, q, k + 8);
    }
}

/// Flags the bytes of the chunk at `at` that start a line break.  Breaks that
/// run over the end of the chunk are found by looking at the bytes after it.
fn count_breaks_in_chunk(bytes: &[u8], at: usize) -> (r: u64)
    requires
        at + SIZE <= bytes@.len(),
    ensures
        forall|i: u64| i < 8 ==> #[trigger] lane(r, i) <= 1,
        forall|i: u64| i < 8 ==> #[trigger] lane(r, i) == if unicode_break_at(bytes@, at + i) {
            1u8
        } else {
            0u8
        },
{
    let ghost s = bytes@;
    let len = bytes.len();
    let c = byte_chunk::load(bytes, at);
    let end_i = at + SIZE;
    let mut acc = byte_chunk::zero();
    proof {
        lemma_and_flags();
    }

    // Calculate the flags we're going to be working with.
    let nl_1_flags = byte_chunk::cmp_eq_byte(c, 0xC2);
    let sp_1_flags = byte_chunk::cmp_eq_byte(c, 0xE2);
    let all_flags = byte_chunk::bytes_between_127(c, 0x09, 0x0E);
    let cr_flags = byte_chunk::cmp_eq_byte(c, 0x0D);

    // Next Line: u{0085}
    if !byte_chunk::is_zero(nl_1_flags) {
        let nl_2_byte = byte_chunk::cmp_eq_byte(c, 0x85);
        let nl_2_flags = byte_chunk::shift_back_lex(nl_2_byte, 1);
        let flags = byte_chunk::bitand(nl_1_flags, nl_2_flags);
        proof {
            assert forall|i: u64| i < 8 implies #[trigger] lane(flags, i) == if i < 7 && is_nel_at(
                s,
                at + i,
            ) {
                1u8
            } else {
                0u8
            } by {
                assert(lane(flags, i) == lane(nl_1_flags, i) & lane(nl_2_flags, i));
                if i < 7 {
                    let n = (i + 1) as u64;
                    assert(lane(nl_2_flags, i) == lane(nl_2_byte, n));
                    assert(lane(c, n) == s[at + n]);
                    assert(s[at + i + 1] == s[at + n]);
                }
            }
        }
        acc = byte_chunk::add_lanes(acc, flags);

        // Handle ending boundary
        if len > end_i && bytes[end_i - 1] == 0xC2 && bytes[end_i] == 0x85 {
            acc = byte_chunk::inc_nth_from_end_lex_byte(acc, 0);
        }
    }
    proof {
        assert forall|i: u64| i < 8 implies #[trigger] lane(acc, i) == if is_nel_at(s, at + i) {
            1u8
        } else {
            0u8
        } by {
            assert(lane(c, i) == s[at + i]);
            assert(lane(nl_1_flags, i) == if lane(c, i) == 0xC2 { 1u8 } else { 0u8 });
        }
    }

    // Line Separator:      u{2028}
    // Paragraph Separator: u{2029}
    if !byte_chunk::is_zero(sp_1_flags) {
        let sp_2_byte = byte_chunk::cmp_eq_byte(c, 0x80);
        let sp_2_flags = byte_chunk::bitand(byte_chunk::shift_back_lex(sp_2_byte, 1), sp_1_flags);
        proof {
            assert forall|i: u64| i < 8 implies #[trigger] lane(sp_2_flags, i) == if i < 7 && s[at
                + i] == 0xE2 && s[at + i + 1] == 0x80 {
                1u8
            } else {
                0u8
            } by {
                assert(lane(c, i) == s[at + i]);
                if i < 7 {
                    let n = (i + 1) as u64;
                    assert(lane(c, n) == s[at + n]);
                    assert(s[at + i + 1] == s[at + n]);
                }
            }
        }
        if !byte_chunk::is_zero(sp_2_flags) {
            let halved = byte_chunk::bitand(byte_chunk::shr(c, 1), byte_chunk::splat(0x7f));
            let sp_3_byte = byte_chunk::cmp_eq_byte(halved, 0x54);
            let sp_3_flags = byte_chunk::shift_back_lex(sp_3_byte, 2);
            let sp_flags = byte_chunk::bitand(sp_2_flags, sp_3_flags);
            proof {
                byte_chunk::lemma_shr_one_masked(c);
                assert((0x7f as u64 * byte_chunk::ONES) as u64 == 0x7f7f_7f7f_7f7f_7f7f);
                assert forall|i: u64| i < 8 implies #[trigger] lane(sp_flags, i) == if i < 6
                    && is_separator_at(s, at + i) {
                    1u8
                } else {
                    0u8
                } by {
                    if i < 6 {
                        let n = (i + 2) as u64;
                        assert(lane(halved, n) == lane(c, n) >> 1);
                        assert(lane(c, n) == s[at + n]);
                        assert(s[at + i + 2] == s[at + n]);
                        lemma_separator_third(lane(c, n));
                    }
                }
            }
            acc = byte_chunk::add_lanes(acc, sp_flags);
        }
        proof {
            assert forall|i: u64| i < 8 implies #[trigger] lane(acc, i) == (if is_nel_at(
                s,
                at + i,
            ) {
                1int
            } else {
                0int
            }) + (if i < 6 && is_separator_at(s, at + i) {
                1int
            } else {
                0int
            }) by {
                assert(lane(sp_2_flags, i) == if i < 7 && s[at + i] == 0xE2 && s[at + i + 1]
                    == 0x80 {
                    1u8
                } else {
                    0u8
                });
            }
            if len > end_i {
                lemma_separator_third(s[end_i as int]);
            }
            if len - end_i > 1 {
                lemma_separator_third(s[end_i + 1]);
            }
        }

        // Handle ending boundary
        if len > end_i && bytes[end_i - 2] == 0xE2 && bytes[end_i - 1] == 0x80 && (bytes[end_i]
            >> 1) == 0x54 {
            acc = byte_chunk::inc_nth_from_end_lex_byte(acc, 1);
        } else if len - end_i > 1 && bytes[end_i - 1] == 0xE2 && bytes[end_i] == 0x80 && (bytes[end_i
            + 1] >> 1) == 0x54 {
            acc = byte_chunk::inc_nth_from_end_lex_byte(acc, 0);
        }
    } else {
        proof {
            assert forall|i: u64| i < 8 implies !is_separator_at(s, #[trigger] (at + i)) by {
                assert(lane(c, i) == s[at + i]);
                assert(lane(sp_1_flags, i) == 0);
            }
        }
    }
    proof {
        assert forall|i: u64| i < 8 implies #[trigger] lane(acc, i) == (if is_nel_at(s, at + i) {
            1int
        } else {
            0int
        }) + (if is_separator_at(s, at + i) {
            1int
        } else {
            0int
        }) by {
            assert(lane(c, i) == s[at + i]);
            if i == 6 {
                assert(lane(c, 7) == s[at + 7]);
            }
        }
    }

    // Line Feed:                   u{000A}
    // Vertical Tab:                u{000B}
    // Form Feed:                   u{000C}
    // Carriage Return:             u{000D}
    // Carriage Return + Line Feed: u{000D}u{000A}
    acc = byte_chunk::add_lanes(acc, all_flags);
    proof {
        assert forall|i: u64| i < 8 implies #[trigger] lane(acc, i) == (if is_nel_at(s, at + i) {
            1int
        } else {
            0int
        }) + (if is_separator_at(s, at + i) {
            1int
        } else {
            0int
        }) + (if is_control_break_at(s, at + i) {
            1int
        } else {
            0int
        }) by {
            assert(lane(c, i) == s[at + i]);
        }
    }
    if !byte_chunk::is_zero(cr_flags) {
        // Handle CRLF
        let lf_flags = byte_chunk::cmp_eq_byte(c, 0x0A);
        let crlf_flags = byte_chunk::bitand(cr_flags, byte_chunk::shift_back_lex(lf_flags, 1));
        proof {
            assert forall|i: u64| i < 8 implies #[trigger] lane(crlf_flags, i) == if i < 7
                && is_crlf_at(s, at + i) {
                1u8
            } else {
                0u8
            } by {
                assert(lane(c, i) == s[at + i]);
                if i < 7 {
                    let n = (i + 1) as u64;
                    assert(lane(c, n) == s[at + n]);
                    assert(s[at + i + 1] == s[at + n]);
                }
            }
        }
        acc = byte_chunk::sub_lanes(acc, crlf_flags);
        if len > end_i && bytes[end_i - 1] == 0x0D && bytes[end_i] == 0x0A {
            acc = byte_chunk::dec_last_lex_byte(acc);
        }
    }
    proof {
        assert forall|i: u64| i < 8 implies #[trigger] lane(acc, i) == if unicode_break_at(
            s,
            at + i,
        ) {
            1u8
        } else {
            0u8
        } by {
            assert(lane(c, i) == s[at + i]);
            assert(lane(cr_flags, i) == if lane(c, i) == 0x0D { 1u8 } else { 0u8 });
        }
    }
    acc
}

//------------------------------------------------------------------
// Laws.

/// Converting byte indices to line indices never goes backwards.
pub proof fn lemma_from_byte_idx_monotone(text: &str, a: usize, b: usize)
    requires
        a <= b,
    ensures
        unicode_line_of(text.spec_bytes(), a as int) <= unicode_line_of(text.spec_bytes(), b as int),
{
    let s = text.spec_bytes();
    crate::model::lemma_floor_monotone(s, a as int, b as int);
    lemma_floor_is_boundary(s, a as int);
    lemma_unicode_mono(s, floor_boundary(s, a as int), floor_boundary(s, b as int));
}

/// Converting line indices to byte indices never goes backwards.
pub proof fn lemma_to_byte_idx_monotone(text: &str, a: usize, b: usize, ra: usize, rb: usize)
    requires
        a <= b,
        is_line_start(text.spec_bytes(), a as int, ra as int),
        is_line_start(text.spec_bytes(), b as int, rb as int),
    ensures
        ra <= rb,
{
    let s = text.spec_bytes();
    if ra > rb {
        assert(unicode_line_of(s, rb as int) < a);
    }
}

/// The start of a line, converted back to a line index, is that line, or
/// the last line when the index is past the end.
pub proof fn lemma_line_round_trip(text: &str, line_idx: usize, r: usize)
    requires
        is_line_start(text.spec_bytes(), line_idx as int, r as int),
    ensures
        unicode_line_of(text.spec_bytes(), r as int) == if line_idx <= unicode_count(
            text.spec_bytes(),
        ) {
            line_idx as int
        } else {
            unicode_count(text.spec_bytes()) as int
        },
{
    let s = text.spec_bytes();
    vstd::utf8::is_char_boundary_start_end_of_seq(s);
    lemma_floor_at_boundary(s, r as int);
    lemma_floor_at_boundary(s, s.len() as int);
    lemma_unicode_mono(s, r as int, s.len() as int);
}

/// A line break ends just before position `b`: a control-character break
/// (LF, VT, FF, a lone CR, or the LF of a CRLF pair), a NEL, or a line or
/// paragraph separator.
pub open spec fn ends_break(s: Seq<u8>, b: int) -> bool {
    ||| (b >= 1 && is_control_break_at(s, b - 1) && unicode_break_at(s, b - 1))
    ||| (b >= 2 && is_nel_at(s, b - 2))
    ||| (b >= 3 && is_separator_at(s, b - 3))
}

/// A char boundary that starts a line (the start of the text, or just after
/// a line break), converted to a line index and back, is itself.
pub proof fn lemma_round_trip(text: &str, b: usize, r: usize)
    requires
        is_char_boundary(text.spec_bytes(), b as int),
        b == 0 || ends_break(text.spec_bytes(), b as int),
        is_line_start(
            text.spec_bytes(),
            unicode_line_of(text.spec_bytes(), b as int) as int,
            r as int,
        ),
    ensures
        r == b,
{
    let s = text.spec_bytes();
    crate::model::lemma_boundary_le_len(s, b as int);
    lemma_floor_at_boundary(s, b as int);
    let k = unicode_line_of(s, b as int);
    if b > 0 {
        // `p` is where the break that ends at `b` starts.
        let p = if b >= 1 && is_control_break_at(s, b - 1) && unicode_break_at(s, b - 1) {
            b - 1
        } else if b >= 2 && is_nel_at(s, b - 2) {
            b - 2
        } else {
            b - 3
        };
        assert(forall|q: int| p < q < b ==> is_continuation_byte(#[trigger] s[q]));
        lemma_unicode_step(s, p);
        lemma_no_breaks_in_continuations(s, p + 1, b as int);
        assert forall|j: int| 0 <= j < b implies #[trigger] unicode_line_of(s, j) < k by {
            lemma_floor_is_boundary(s, j);
            let f = floor_boundary(s, j);
            if f > p {
                is_char_boundary_iff_not_is_continuation_byte(s, f);
            }
            lemma_unicode_mono(s, f, p);
        }
    }
    if r < b {
        assert(unicode_line_of(s, r as int) == k);
    } else if b < r {
        assert(unicode_line_of(s, b as int) < k);
    }
}

} // verus!
