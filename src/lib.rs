//! Counting and converting between the indexing schemes of a UTF-8 string
//! slice: bytes, chars, UTF-16 code units, and lines under three line-break
//! policies.
//!
//! Each scheme has a module with a function that counts in that scheme and
//! functions that convert to and from byte indices. Every function is total:
//! an index past the end is clamped, and no input makes a function panic.
use vstd::prelude::*;

pub mod byte_chunk;
pub mod chars;
pub mod lines;
pub mod lines_crlf;
pub mod lines_lf;
pub mod model;
pub mod utf16;

use vstd::string::StringSliceAdditionalSpecFns;
use vstd::utf8::{
    is_char_boundary, is_char_boundary_iff_not_is_continuation_byte,
    is_char_boundary_start_end_of_seq,
};
use crate::model::{
    crlf_count, floor_boundary, is_crlf_middle, is_nel_at, is_separator_at,
    lemma_count_step, lemma_crlf_step, lemma_unicode_step, lf_count, line_feed, lone_cr_before,
    unicode_breaks_before, unicode_count,
};

verus! {

broadcast use vstd::utf8::encode_utf8_valid_utf8;

/// Clamps `byte_idx` to the length of `text`, then walks it back to the
/// nearest char boundary.
pub fn floor_char_boundary(text: &str, byte_idx: usize) -> (r: usize)
    ensures
        r == floor_boundary(text.spec_bytes(), byte_idx as int),
        r <= text.spec_bytes().len(),
        is_char_boundary(text.spec_bytes(), r as int),
{
    let ghost s = text.spec_bytes();
    proof {
        is_char_boundary_start_end_of_seq(s);
    }
    let len = text.as_bytes().len();
    let mut i = if byte_idx < len {
        byte_idx
    } else {
        len
    };
    while !text.is_char_boundary(i)
        invariant
            s == text.spec_bytes(),
            i <= s.len(),
            floor_boundary(s, i as int) == floor_boundary(s, byte_idx as int),
            is_char_boundary(s, 0),
            is_char_boundary(s, s.len() as int),
        decreases i,
    {
        proof {
            is_char_boundary_iff_not_is_continuation_byte(s, i as int);
        }
        i -= 1;
    }
    proof {
        if i < s.len() && i > 0 {
            is_char_boundary_iff_not_is_continuation_byte(s, i as int);
        }
    }
    i
}

/// Whether `byte_idx` does not fall between the CR and the LF of a CRLF pair.
pub fn is_not_crlf_middle(byte_idx: usize, text: &[u8]) -> (r: bool)
    ensures
        r == !is_crlf_middle(text@, byte_idx as int),
{
    byte_idx == 0 || byte_idx >= text.len() || (text[byte_idx - 1] != 0x0D) || (text[byte_idx]
        != 0x0A)
}

//------------------------------------------------------------------
// How the three line-break policies relate.

proof fn lemma_crlf_lf_prefix(s: Seq<u8>, n: int)
    requires
        0 <= n <= s.len(),
    ensures
        crlf_count(s.subrange(0, n)) == lf_count(s.subrange(0, n)) + lone_cr_before(s, n) + (
        if is_crlf_middle(s, n) {
            1int
        } else {
            0int
        }),
    decreases n,
{
    if n == 0 {
        assert(s.subrange(0, 0) =~= Seq::<u8>::empty());
    } else {
        lemma_crlf_lf_prefix(s, n - 1);
        lemma_crlf_step(s, n - 1);
        lemma_count_step(s, n - 1, line_feed());
    }
}

/// The CR/LF policy finds the line feeds, which are all the LF policy finds,
/// and also every carriage return that no line feed follows: a CRLF pair
/// counts once under both.
pub proof fn lemma_crlf_is_lf_plus_lone_cr(text: &str)
    ensures
        crlf_count(text.spec_bytes()) == lf_count(text.spec_bytes()) + lone_cr_before(
            text.spec_bytes(),
            text.spec_bytes().len() as int,
        ),
{
    let s = text.spec_bytes();
    lemma_crlf_lf_prefix(s, s.len() as int);
    assert(s.subrange(0, s.len() as int) =~= s);
}

proof fn lemma_unicode_crlf_prefix(s: Seq<u8>, n: int)
    requires
        0 <= n <= s.len(),
        forall|p: int|
            0 <= p < s.len() ==> #[trigger] s[p] != 0x0B && s[p] != 0x0C && !is_nel_at(s, p)
                && !is_separator_at(s, p),
    ensures
        unicode_breaks_before(s, n) + (if is_crlf_middle(s, n) {
            1int
        } else {
            0int
        }) == crlf_count(s.subrange(0, n)),
    decreases n,
{
    if n == 0 {
        assert(s.subrange(0, 0) =~= Seq::<u8>::empty());
    } else {
        lemma_unicode_crlf_prefix(s, n - 1);
        lemma_crlf_step(s, n - 1);
        lemma_unicode_step(s, n - 1);
        assert(s[n - 1] != 0x0B && s[n - 1] != 0x0C && !is_nel_at(s, n - 1) && !is_separator_at(
            s,
            n - 1,
        ));
    }
}

/// On a text without VT, FF, NEL, LS or PS, the Unicode policy and the CR/LF
/// policy count the same breaks: a lone CR is one break under both, and a
/// CRLF pair is one break under both.
pub proof fn lemma_unicode_is_crlf(text: &str)
    requires
        forall|p: int|
            0 <= p < text.spec_bytes().len() ==> #[trigger] text.spec_bytes()[p] != 0x0B
                && text.spec_bytes()[p] != 0x0C && !is_nel_at(text.spec_bytes(), p)
                && !is_separator_at(text.spec_bytes(), p),
    ensures
        unicode_count(text.spec_bytes()) == crlf_count(text.spec_bytes()),
{
    let s = text.spec_bytes();
    lemma_unicode_crlf_prefix(s, s.len() as int);
    assert(s.subrange(0, s.len() as int) =~= s);
}

proof fn lemma_no_lone_cr(s: Seq<u8>, n: int)
    requires
        0 <= n <= s.len(),
        forall|p: int| 0 <= p < s.len() ==> #[trigger] s[p] != 0x0D,
    ensures
        lone_cr_before(s, n) == 0,
    decreases n,
{
    if n > 0 {
        lemma_no_lone_cr(s, n - 1);
    }
}

/// On a text whose only line breaks are line feeds, the three policies agree.
pub proof fn lemma_lf_only_agree(text: &str)
    requires
        forall|p: int|
            0 <= p < text.spec_bytes().len() ==> #[trigger] text.spec_bytes()[p] != 0x0B
                && text.spec_bytes()[p] != 0x0C && text.spec_bytes()[p] != 0x0D && !is_nel_at(
                text.spec_bytes(),
                p,
            ) && !is_separator_at(text.spec_bytes(), p),
    ensures
        unicode_count(text.spec_bytes()) == crlf_count(text.spec_bytes()),
        crlf_count(text.spec_bytes()) == lf_count(text.spec_bytes()),
{
    let s = text.spec_bytes();
    lemma_unicode_is_crlf(text);
    lemma_crlf_is_lf_plus_lone_cr(text);
    lemma_no_lone_cr(s, s.len() as int);
}

} // verus!
