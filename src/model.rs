//! The mathematical model that the contracts are stated in: counts of bytes
//! of a UTF-8 byte sequence, and facts about them.
use vstd::prelude::*;
use vstd::utf8::*;
use crate::byte_chunk::{lane, lane_sum};

verus! {

/// Number of bytes of `s` that satisfy `p`.
pub open spec fn count_bytes(s: Seq<u8>, p: spec_fn(u8) -> bool) -> nat
    decreases s.len(),
{
    if s.len() == 0 {
        0
    } else {
        count_bytes(s.drop_last(), p) + if p(s.last()) {
            1nat
        } else {
            0nat
        }
    }
}

/// The predicate "is a UTF-8 continuation byte (`10xxxxxx`)".
pub open spec fn continuation() -> spec_fn(u8) -> bool {
    |b: u8| is_continuation_byte(b)
}

/// Number of UTF-8 continuation bytes in `s`.
pub open spec fn continuation_count(s: Seq<u8>) -> nat {
    count_bytes(s, continuation())
}

/// Number of chars encoded in `s`: its length less its continuation bytes.
pub open spec fn char_count(s: Seq<u8>) -> int {
    s.len() - continuation_count(s)
}

/// A byte that starts a four-byte UTF-8 sequence, that is a char that UTF-16
/// writes as a surrogate pair.
pub open spec fn is_surrogate_lead(b: u8) -> bool {
    b >= 0xF0
}

/// The predicate "starts a char that takes a surrogate pair".
pub open spec fn surrogate_lead() -> spec_fn(u8) -> bool {
    |b: u8| is_surrogate_lead(b)
}

/// Number of chars of `s` that take a surrogate pair in UTF-16.
pub open spec fn surrogate_count(s: Seq<u8>) -> nat {
    count_bytes(s, surrogate_lead())
}

/// Number of UTF-16 code units that the chars encoded in `s` take.
pub open spec fn utf16_count(s: Seq<u8>) -> int {
    char_count(s) + surrogate_count(s)
}

/// Number of UTF-16 code units that `chars` takes: one per char, two for a
/// char beyond the Basic Multilingual Plane.
pub open spec fn utf16_len(chars: Seq<char>) -> nat
    decreases chars.len(),
{
    if chars.len() == 0 {
        0
    } else {
        (if chars[0] as u32 >= 0x10000 {
            2nat
        } else {
            1nat
        }) + utf16_len(chars.drop_first())
    }
}

/// `byte_idx`, or the length of `s` when it is past the end.
pub open spec fn clamp(s: Seq<u8>, byte_idx: usize) -> int {
    if byte_idx < s.len() {
        byte_idx as int
    } else {
        s.len() as int
    }
}

/// The largest `j <= min(i, s.len())` that is not the position of a
/// continuation byte: `i` rounded down to the start of its char.
pub open spec fn floor_boundary(s: Seq<u8>, i: int) -> int
    decreases i,
{
    if i >= s.len() {
        s.len() as int
    } else if i <= 0 || !is_continuation_byte(s[i]) {
        if i < 0 { 0 } else { i }
    } else {
        floor_boundary(s, i - 1)
    }
}

/// The predicate "is a line feed".
pub open spec fn line_feed() -> spec_fn(u8) -> bool {
    |b: u8| b == 0x0A
}

/// Number of line feeds in `s`.
pub open spec fn lf_count(s: Seq<u8>) -> nat {
    count_bytes(s, line_feed())
}

/// Whether position `p` of `s` ends a CR/LF line break: a carriage return,
/// or a line feed that does not follow a carriage return (a CRLF pair is
/// counted once, at its CR).
pub open spec fn crlf_break_at(s: Seq<u8>, p: int) -> bool {
    s[p] == 0x0D || (s[p] == 0x0A && !(p > 0 && s[p - 1] == 0x0D))
}

/// Number of CR/LF line breaks in `s`, a CRLF pair counting once.
pub open spec fn crlf_count(s: Seq<u8>) -> nat
    decreases s.len(),
{
    if s.len() == 0 {
        0
    } else {
        crlf_count(s.drop_last()) + if crlf_break_at(s, s.len() - 1) {
            1nat
        } else {
            0nat
        }
    }
}

/// Position `i` falls between the CR and the LF of a CRLF pair.
pub open spec fn is_crlf_middle(s: Seq<u8>, i: int) -> bool {
    0 < i < s.len() && s[i - 1] == 0x0D && s[i] == 0x0A
}

/// The CR/LF line that byte position `i` (at most the length) falls in: the
/// breaks before it, where a CRLF pair belongs wholly to the line it ends.
pub open spec fn crlf_line_of(s: Seq<u8>, i: int) -> int {
    crlf_count(s.subrange(0, i)) - if is_crlf_middle(s, i) {
        1int
    } else {
        0int
    }
}

/// A control-character break starts at `p`: LF, VT, FF or CR.
pub open spec fn is_control_break_at(s: Seq<u8>, p: int) -> bool {
    0x0A <= s[p] <= 0x0D
}

/// A CR at `p` is followed by an LF.
pub open spec fn is_crlf_at(s: Seq<u8>, p: int) -> bool {
    s[p] == 0x0D && p + 1 < s.len() && s[p + 1] == 0x0A
}

/// A NEL (`C2 85`) starts at `p`.
pub open spec fn is_nel_at(s: Seq<u8>, p: int) -> bool {
    s[p] == 0xC2 && p + 1 < s.len() && s[p + 1] == 0x85
}

/// A line or paragraph separator (`E2 80 A8` / `E2 80 A9`) starts at `p`.
pub open spec fn is_separator_at(s: Seq<u8>, p: int) -> bool {
    s[p] == 0xE2 && p + 2 < s.len() && s[p + 1] == 0x80 && (s[p + 2] == 0xA8 || s[p + 2] == 0xA9)
}

/// A Unicode line break starts at position `p` of `s`: LF, VT, FF, CR (but
/// a CR followed by an LF, whose break is counted at the LF), NEL, LS or PS.
pub open spec fn unicode_break_at(s: Seq<u8>, p: int) -> bool {
    (is_control_break_at(s, p) && !is_crlf_at(s, p)) || is_nel_at(s, p) || is_separator_at(s, p)
}

/// Number of Unicode line breaks that start before position `n` of `s`.
pub open spec fn unicode_breaks_before(s: Seq<u8>, n: int) -> nat
    decreases n,
{
    if n <= 0 {
        0
    } else {
        unicode_breaks_before(s, n - 1) + if unicode_break_at(s, n - 1) {
            1nat
        } else {
            0nat
        }
    }
}

/// Number of Unicode line breaks in `s`.
pub open spec fn unicode_count(s: Seq<u8>) -> nat {
    unicode_breaks_before(s, s.len() as int)
}

/// The Unicode line that byte position `i` falls in: the breaks that start
/// before the char holding it.
pub open spec fn unicode_line_of(s: Seq<u8>, i: int) -> nat {
    unicode_breaks_before(s, floor_boundary(s, i))
}

/// Number of carriage returns before position `n` of `s` that an LF does not
/// follow.
pub open spec fn lone_cr_before(s: Seq<u8>, n: int) -> nat
    decreases n,
{
    if n <= 0 {
        0
    } else {
        lone_cr_before(s, n - 1) + if s[n - 1] == 0x0D && !is_crlf_at(s, n - 1) {
            1nat
        } else {
            0nat
        }
    }
}

//------------------------------------------------------------------

pub proof fn lemma_unicode_step(s: Seq<u8>, n: int)
    requires
        0 <= n,
    ensures
        unicode_breaks_before(s, n + 1) == unicode_breaks_before(s, n) + if unicode_break_at(s, n) {
            1nat
        } else {
            0nat
        },
{
}

pub proof fn lemma_unicode_mono(s: Seq<u8>, i: int, j: int)
    requires
        0 <= i <= j,
    ensures
        unicode_breaks_before(s, i) <= unicode_breaks_before(s, j) <= unicode_breaks_before(s, i)
            + (j - i),
    decreases j - i,
{
    if i < j {
        lemma_unicode_mono(s, i, j - 1);
    }
}

/// Counting the breaks of a prefix that ends at a char boundary finds those
/// of the whole text before that boundary, and the CR of a CRLF pair that
/// the boundary splits.
pub proof fn lemma_unicode_prefix(s: Seq<u8>, i: int, n: int)
    requires
        valid_utf8(s),
        0 <= n <= i <= s.len(),
        is_char_boundary(s, i),
    ensures
        unicode_breaks_before(s.subrange(0, i), n) == unicode_breaks_before(s, n) + if n == i
            && is_crlf_middle(s, i) {
            1int
        } else {
            0int
        },
    decreases n,
{
    let t = s.subrange(0, i);
    if n > 0 {
        lemma_unicode_prefix(s, i, n - 1);
        let p = n - 1;
        if i < s.len() {
            is_char_boundary_iff_not_is_continuation_byte(s, i);
        }
        assert(t[p] == s[p]);
        if p + 1 < i {
            assert(t[p + 1] == s[p + 1]);
        }
        if p + 2 < i {
            assert(t[p + 2] == s[p + 2]);
        }
        assert(unicode_break_at(t, p) == (unicode_break_at(s, p) || (p == i - 1
            && is_crlf_middle(s, i))));
    }
}


pub proof fn lemma_crlf_step(s: Seq<u8>, j: int)
    requires
        0 <= j < s.len(),
    ensures
        crlf_count(s.subrange(0, j + 1)) == crlf_count(s.subrange(0, j)) + if crlf_break_at(s, j) {
            1nat
        } else {
            0nat
        },
{
    let t = s.subrange(0, j + 1);
    assert(t.drop_last() =~= s.subrange(0, j));
    assert(t[j] == s[j]);
    if j > 0 {
        assert(t[j - 1] == s[j - 1]);
    }
}

pub proof fn lemma_crlf_prefix_mono(s: Seq<u8>, i: int, j: int)
    requires
        0 <= i <= j <= s.len(),
    ensures
        crlf_count(s.subrange(0, i)) <= crlf_count(s.subrange(0, j)) <= crlf_count(s.subrange(0, i))
            + (j - i),
    decreases j - i,
{
    if i < j {
        lemma_crlf_prefix_mono(s, i, j - 1);
        lemma_crlf_step(s, j - 1);
    }
}

/// In the middle of a CRLF pair, the CR before it has been counted.
pub proof fn lemma_crlf_middle_counted(s: Seq<u8>, i: int)
    requires
        0 <= i <= s.len(),
    ensures
        crlf_line_of(s, i) >= 0,
        crlf_line_of(s, i) <= crlf_count(s.subrange(0, i)),
{
    if is_crlf_middle(s, i) {
        lemma_crlf_step(s, i - 1);
    }
}


pub proof fn lemma_count_step(s: Seq<u8>, j: int, p: spec_fn(u8) -> bool)
    requires
        0 <= j < s.len(),
    ensures
        count_bytes(s.subrange(0, j + 1), p) == count_bytes(s.subrange(0, j), p) + if p(s[j]) {
            1nat
        } else {
            0nat
        },
{
    assert(s.subrange(0, j + 1).drop_last() =~= s.subrange(0, j));
}

pub proof fn lemma_count_full(s: Seq<u8>, p: spec_fn(u8) -> bool)
    ensures
        count_bytes(s.subrange(0, s.len() as int), p) == count_bytes(s, p),
{
    assert(s.subrange(0, s.len() as int) =~= s);
}

pub proof fn lemma_count_le_len(s: Seq<u8>, p: spec_fn(u8) -> bool)
    ensures
        count_bytes(s, p) <= s.len(),
    decreases s.len(),
{
    if s.len() > 0 {
        lemma_count_le_len(s.drop_last(), p);
    }
}

/// Counting a longer prefix finds at least as many bytes, and at most as many
/// more as the prefix grew.
pub proof fn lemma_count_prefix_mono(s: Seq<u8>, i: int, j: int, p: spec_fn(u8) -> bool)
    requires
        0 <= i <= j <= s.len(),
    ensures
        count_bytes(s.subrange(0, i), p) <= count_bytes(s.subrange(0, j), p),
        count_bytes(s.subrange(0, j), p) <= count_bytes(s.subrange(0, i), p) + (j - i),
    decreases j - i,
{
    if i < j {
        lemma_count_prefix_mono(s, i, j - 1, p);
        lemma_count_step(s, j - 1, p);
    }
}

pub proof fn lemma_count_concat(a: Seq<u8>, b: Seq<u8>, p: spec_fn(u8) -> bool)
    ensures
        count_bytes(a + b, p) == count_bytes(a, p) + count_bytes(b, p),
    decreases b.len(),
{
    if b.len() > 0 {
        assert((a + b).drop_last() =~= a + b.drop_last());
        lemma_count_concat(a, b.drop_last(), p);
    } else {
        assert(a + b =~= a);
    }
}

/// The flags of a chunk loaded at `k` add up to the bytes it holds that
/// satisfy `p`.
pub proof fn lemma_count_chunk(s: Seq<u8>, k: int, p: spec_fn(u8) -> bool, f: u64)
    requires
        0 <= k,
        k + 8 <= s.len(),
        forall|i: u64| i < 8 ==> #[trigger] lane(f, i) == if p(s[k + i]) { 1u8 } else { 0u8 },
    ensures
        count_bytes(s.subrange(0, k + 8), p) == count_bytes(s.subrange(0, k), p) + lane_sum(f),
{
    lemma_count_step(s, k, p);
    lemma_count_step(s, k + 1, p);
    lemma_count_step(s, k + 2, p);
    lemma_count_step(s, k + 3, p);
    lemma_count_step(s, k + 4, p);
    lemma_count_step(s, k + 5, p);
    lemma_count_step(s, k + 6, p);
    lemma_count_step(s, k + 7, p);
    assert(lane(f, 0) == if p(s[k + 0]) { 1u8 } else { 0u8 });
    assert(lane(f, 1) == if p(s[k + 1]) { 1u8 } else { 0u8 });
    assert(lane(f, 2) == if p(s[k + 2]) { 1u8 } else { 0u8 });
    assert(lane(f, 3) == if p(s[k + 3]) { 1u8 } else { 0u8 });
    assert(lane(f, 4) == if p(s[k + 4]) { 1u8 } else { 0u8 });
    assert(lane(f, 5) == if p(s[k + 5]) { 1u8 } else { 0u8 });
    assert(lane(f, 6) == if p(s[k + 6]) { 1u8 } else { 0u8 });
    assert(lane(f, 7) == if p(s[k + 7]) { 1u8 } else { 0u8 });
}

/// Counts over the bytes of one encoded char: its first byte starts it,
/// the others continue it, and it takes a surrogate pair when it is four
/// bytes long.
proof fn lemma_first_scalar_counts(s: Seq<u8>)
    requires
        s.len() > 0,
        valid_first_scalar(s),
    ensures
        ({
            let f = s.subrange(0, length_of_first_scalar(s));
            &&& continuation_count(f) == f.len() - 1
            &&& surrogate_count(f) == if f.len() == 4 { 1int } else { 0int }
            &&& 1 <= f.len() <= 4
        }),
{
    let f = s.subrange(0, length_of_first_scalar(s));
    let l = f.len() as int;
    assert(f.subrange(0, l) =~= f);
    assert(f.subrange(0, 0) =~= Seq::<u8>::empty());
    lemma_count_step(f, 0, continuation());
    lemma_count_step(f, 0, surrogate_lead());
    if l >= 2 {
        lemma_count_step(f, 1, continuation());
        lemma_count_step(f, 1, surrogate_lead());
    }
    if l >= 3 {
        lemma_count_step(f, 2, continuation());
        lemma_count_step(f, 2, surrogate_lead());
    }
    if l >= 4 {
        lemma_count_step(f, 3, continuation());
        lemma_count_step(f, 3, surrogate_lead());
    }
}

/// What a valid UTF-8 sequence shows of its bytes: it holds one char per
/// non-continuation byte, at least three continuation bytes per char that
/// takes a surrogate pair, and each such char is four bytes long.
pub proof fn lemma_utf8_counts(s: Seq<u8>)
    requires
        valid_utf8(s),
    ensures
        char_count(s) == decode_utf8(s).len(),
        3 * surrogate_count(s) <= continuation_count(s),
        forall|p: int| 0 <= p < s.len() && is_surrogate_lead(#[trigger] s[p]) ==> p + 4 <= s.len(),
    decreases s.len(),
{
    if s.len() > 0 {
        let l = length_of_first_scalar(s);
        let f = s.subrange(0, l);
        let r = pop_first_scalar(s);
        lemma_first_scalar_counts(s);
        assert(s =~= f + r);
        lemma_count_concat(f, r, continuation());
        lemma_count_concat(f, r, surrogate_lead());
        lemma_utf8_counts(r);
        assert forall|p: int| 0 <= p < s.len() && is_surrogate_lead(#[trigger] s[p]) implies p + 4
            <= s.len() by {
            if p >= l {
                assert(s[p] == r[p - l]);
            }
        }
    }
}

/// UTF-16 counts of prefixes grow with the prefix, by at most two units a
/// byte, and stay within the UTF-16 count of the whole sequence.
pub proof fn lemma_utf16_prefix_mono(s: Seq<u8>, i: int, j: int)
    requires
        0 <= i <= j <= s.len(),
    ensures
        utf16_count(s.subrange(0, i)) <= utf16_count(s.subrange(0, j)),
        utf16_count(s.subrange(0, j)) <= utf16_count(s.subrange(0, i)) + 2 * (j - i),
        char_count(s.subrange(0, i)) <= char_count(s.subrange(0, j)),
    decreases j - i,
{
    if i < j {
        lemma_utf16_prefix_mono(s, i, j - 1);
        lemma_count_step(s, j - 1, continuation());
        lemma_count_step(s, j - 1, surrogate_lead());
    }
}

/// A valid UTF-8 sequence takes no more UTF-16 code units than it has bytes,
/// and so does each of its prefixes.
pub proof fn lemma_utf16_le_len(s: Seq<u8>, j: int)
    requires
        valid_utf8(s),
        0 <= j <= s.len(),
    ensures
        utf16_count(s.subrange(0, j)) <= utf16_count(s) <= s.len(),
{
    lemma_utf8_counts(s);
    lemma_count_full(s, continuation());
    lemma_count_full(s, surrogate_lead());
    lemma_utf16_prefix_mono(s, j, s.len() as int);
}

/// Rounding down lands on a char boundary.
pub proof fn lemma_floor_is_boundary(s: Seq<u8>, i: int)
    requires
        valid_utf8(s),
    ensures
        0 <= floor_boundary(s, i) <= s.len(),
        floor_boundary(s, i) <= i || i < 0,
        is_char_boundary(s, floor_boundary(s, i)),
    decreases i,
{
    is_char_boundary_start_end_of_seq(s);
    if i >= s.len() {
    } else if i <= 0 || !is_continuation_byte(s[i]) {
        if i > 0 {
            is_char_boundary_iff_not_is_continuation_byte(s, i);
        }
    } else {
        lemma_floor_is_boundary(s, i - 1);
    }
}

/// Rounding down never goes backwards.
pub proof fn lemma_floor_monotone(s: Seq<u8>, a: int, b: int)
    requires
        a <= b,
    ensures
        floor_boundary(s, a) <= floor_boundary(s, b),
    decreases b - a,
{
    if a < b {
        lemma_floor_monotone(s, a, b - 1);
        lemma_floor_step(s, b);
    }
}

proof fn lemma_floor_step(s: Seq<u8>, b: int)
    ensures
        floor_boundary(s, b - 1) <= floor_boundary(s, b),
    decreases b,
{
    if b - 1 >= s.len() {
    } else if b >= s.len() {
        lemma_floor_le(s, b - 1);
    } else if b <= 0 || !is_continuation_byte(s[b]) {
        lemma_floor_le(s, b - 1);
    }
}

proof fn lemma_floor_le(s: Seq<u8>, i: int)
    ensures
        floor_boundary(s, i) <= i || i < 0,
        floor_boundary(s, i) <= s.len(),
    decreases i,
{
    if i < s.len() && i > 0 && is_continuation_byte(s[i]) {
        lemma_floor_le(s, i - 1);
    }
}

/// A char boundary lies within the sequence.
pub proof fn lemma_boundary_le_len(s: Seq<u8>, b: int)
    requires
        valid_utf8(s),
        is_char_boundary(s, b),
    ensures
        0 <= b <= s.len(),
    decreases s.len(),
{
    if b != 0 && s.len() > 0 {
        lemma_boundary_le_len(pop_first_scalar(s), b - length_of_first_scalar(s));
    }
}

/// Rounding down leaves a char boundary where it is.
pub proof fn lemma_floor_fixed(s: Seq<u8>, b: int)
    requires
        valid_utf8(s),
        0 <= b <= s.len(),
        is_char_boundary(s, b),
    ensures
        floor_boundary(s, b) == b,
{
    if 0 < b < s.len() {
        is_char_boundary_iff_not_is_continuation_byte(s, b);
    }
}

proof fn lemma_encoded_bytes(v: u32)
    by (bit_vector)
    ensures
        ((v & 0x7F) as u8) < 0xF0,
        (0xC0 | ((v >> 6) & 0x1F) as u8) < 0xF0,
        (0xE0 | ((v >> 12) & 0x0F) as u8) < 0xF0,
        (0xF0 | ((v >> 18) & 0x7) as u8) >= 0xF0,
        (0x80 | (v & 0x3F) as u8) < 0xF0,
        (0x80 | ((v >> 6) & 0x3F) as u8) < 0xF0,
        (0x80 | ((v >> 12) & 0x3F) as u8) < 0xF0,
{
}

/// The encoding of one char holds a byte that starts a surrogate pair exactly
/// when the char lies beyond the Basic Multilingual Plane.
proof fn lemma_scalar_surrogates(c: char)
    ensures
        surrogate_count(encode_scalar(c as u32)) == if c as u32 >= 0x10000 {
            1int
        } else {
            0int
        },
{
    let v = c as u32;
    char_is_scalar(c);
    lemma_encoded_bytes(v);
    let e = encode_scalar(v);
    assert(e.subrange(0, e.len() as int) =~= e);
    assert(e.subrange(0, 0) =~= Seq::<u8>::empty());
    lemma_count_step(e, 0, surrogate_lead());
    if e.len() >= 2 {
        lemma_count_step(e, 1, surrogate_lead());
    }
    if e.len() >= 3 {
        lemma_count_step(e, 2, surrogate_lead());
    }
    if e.len() >= 4 {
        lemma_count_step(e, 3, surrogate_lead());
    }
}

/// The UTF-16 count of an encoded text is the UTF-16 length of its chars.
pub proof fn lemma_utf16_count_of_chars(chars: Seq<char>)
    ensures
        utf16_count(encode_utf8(chars)) == utf16_len(chars),
    decreases chars.len(),
{
    let s = encode_utf8(chars);
    encode_utf8_valid_utf8(chars);
    encode_utf8_decode_utf8(chars);
    lemma_utf8_counts(s);
    if chars.len() > 0 {
        let e = encode_scalar(chars[0] as u32);
        let rest = encode_utf8(chars.drop_first());
        lemma_count_concat(e, rest, surrogate_lead());
        lemma_scalar_surrogates(chars[0]);
        lemma_utf16_count_of_chars(chars.drop_first());
        encode_utf8_valid_utf8(chars.drop_first());
        encode_utf8_decode_utf8(chars.drop_first());
        lemma_utf8_counts(rest);
    }
}

/// Lane sums of chunks whose lanes are bounded.
pub proof fn lemma_lane_sum_bound(w: u64, m: int)
    requires
        forall|i: u64| i < 8 ==> #[trigger] lane(w, i) <= m,
    ensures
        lane_sum(w) <= 8 * m,
{
    assert(lane(w, 0) <= m);
    assert(lane(w, 1) <= m);
    assert(lane(w, 2) <= m);
    assert(lane(w, 3) <= m);
    assert(lane(w, 4) <= m);
    assert(lane(w, 5) <= m);
    assert(lane(w, 6) <= m);
    assert(lane(w, 7) <= m);
}

} // verus!
