// Compares every conversion against slow, char-at-a-time reference
// implementations on many generated texts, including multi-byte line
// breaks that straddle chunk boundaries.
use str_indices::{chars, lines, lines_crlf, lines_lf, utf16};

const PIECES: [&str; 14] = [
    "a", "b", "\n", "\r", "\r\n", "\u{85}", "\u{2028}", "\u{2029}", "\u{0B}", "\u{0C}", "せ", "🐸",
    "é", "\u{2027}",
];

struct Lcg(u64);

impl Lcg {
    fn next(&mut self) -> u64 {
        self.0 = self.0.wrapping_mul(6364136223846793005).wrapping_add(1442695040888963407);
        self.0 >> 33
    }
}

fn texts() -> Vec<String> {
    let mut rng = Lcg(12345);
    let mut out = vec![String::new()];
    for n in 0..300 {
        let len = (n % 90) as usize;
        let mut s = String::new();
        for _ in 0..len {
            let p = PIECES[(rng.next() % PIECES.len() as u64) as usize];
            s.push_str(p);
        }
        out.push(s);
    }
    out
}

fn floor_boundary(text: &str, b: usize) -> usize {
    let mut i = b.min(text.len());
    while !text.is_char_boundary(i) {
        i -= 1;
    }
    i
}

fn ref_char_to_byte(text: &str, k: usize) -> usize {
    text.char_indices().nth(k).map(|(i, _)| i).unwrap_or(text.len())
}

fn ref_utf16_to_byte(text: &str, k: usize) -> usize {
    let mut acc = 0;
    for (i, c) in text.char_indices() {
        acc += c.len_utf16();
        if acc > k {
            return i;
        }
    }
    text.len()
}

/// Start and end of each Unicode line break, in text order.
fn ref_unicode_breaks(text: &str) -> Vec<(usize, usize)> {
    let cs: Vec<(usize, char)> = text.char_indices().collect();
    let mut out = Vec::new();
    for (n, &(i, c)) in cs.iter().enumerate() {
        let next = cs.get(n + 1).map(|p| p.1);
        let is_break = match c {
            '\n' | '\u{0B}' | '\u{0C}' | '\u{85}' | '\u{2028}' | '\u{2029}' => true,
            '\r' => next != Some('\n'),
            _ => false,
        };
        if is_break {
            out.push((i, i + c.len_utf8()));
        }
    }
    out
}

/// Start and end of each CR/LF line break, a CRLF pair being one break.
fn ref_crlf_breaks(text: &str) -> Vec<(usize, usize)> {
    let b = text.as_bytes();
    let mut out = Vec::new();
    let mut i = 0;
    while i < b.len() {
        if b[i] == b'\r' && i + 1 < b.len() && b[i + 1] == b'\n' {
            out.push((i, i + 2));
            i += 2;
        } else {
            if b[i] == b'\r' || b[i] == b'\n' {
                out.push((i, i + 1));
            }
            i += 1;
        }
    }
    out
}

fn ref_lf_breaks(text: &str) -> Vec<(usize, usize)> {
    text.bytes()
        .enumerate()
        .filter(|(_, c)| *c == b'\n')
        .map(|(i, _)| (i, i + 1))
        .collect()
}

/// Line of byte `b`: breaks that end at or before it.
fn ref_line_of(breaks: &[(usize, usize)], b: usize) -> usize {
    breaks.iter().filter(|(_, end)| *end <= b).count()
}

fn ref_line_start(breaks: &[(usize, usize)], len: usize, k: usize) -> usize {
    if k == 0 {
        0
    } else {
        breaks.get(k - 1).map(|p| p.1).unwrap_or(len)
    }
}

#[test]
fn chars_match_reference() {
    for text in texts() {
        assert_eq!(text.chars().count(), chars::count(&text));
        for b in 0..text.len() + 3 {
            let i = floor_boundary(&text, b);
            assert_eq!(text[..i].chars().count(), chars::from_byte_idx(&text, b));
        }
        for k in 0..text.chars().count() + 3 {
            assert_eq!(ref_char_to_byte(&text, k), chars::to_byte_idx(&text, k));
        }
    }
}

#[test]
fn utf16_matches_reference() {
    for text in texts() {
        let n = text.encode_utf16().count();
        assert_eq!(n, utf16::count(&text));
        assert_eq!(n - text.chars().count(), utf16::count_surrogates(&text));
        for b in 0..text.len() + 3 {
            let i = floor_boundary(&text, b);
            assert_eq!(text[..i].encode_utf16().count(), utf16::from_byte_idx(&text, b));
        }
        for k in 0..n + 3 {
            assert_eq!(ref_utf16_to_byte(&text, k), utf16::to_byte_idx(&text, k));
        }
    }
}

#[test]
fn unicode_lines_match_reference() {
    for text in texts() {
        let breaks = ref_unicode_breaks(&text);
        assert_eq!(breaks.len(), lines::count_breaks(&text));
        for b in 0..text.len() + 3 {
            let i = floor_boundary(&text, b);
            assert_eq!(ref_line_of(&breaks, i), lines::from_byte_idx(&text, b));
        }
        for k in 0..breaks.len() + 3 {
            assert_eq!(ref_line_start(&breaks, text.len(), k), lines::to_byte_idx(&text, k));
        }
    }
}

#[test]
fn crlf_lines_match_reference() {
    for text in texts() {
        let breaks = ref_crlf_breaks(&text);
        assert_eq!(breaks.len(), lines_crlf::count_breaks(&text));
        for b in 0..text.len() + 3 {
            let i = b.min(text.len());
            assert_eq!(ref_line_of(&breaks, i), lines_crlf::from_byte_idx(&text, b));
        }
        for k in 0..breaks.len() + 3 {
            assert_eq!(ref_line_start(&breaks, text.len(), k), lines_crlf::to_byte_idx(&text, k));
        }
    }
}

#[test]
fn lf_lines_match_reference() {
    for text in texts() {
        let breaks = ref_lf_breaks(&text);
        assert_eq!(breaks.len(), lines_lf::count_breaks(&text));
        for b in 0..text.len() + 3 {
            let i = b.min(text.len());
            assert_eq!(ref_line_of(&breaks, i), lines_lf::from_byte_idx(&text, b));
        }
        for k in 0..breaks.len() + 3 {
            assert_eq!(ref_line_start(&breaks, text.len(), k), lines_lf::to_byte_idx(&text, k));
        }
    }
}

#[test]
fn conversions_are_monotone_and_total() {
    for text in texts() {
        let mut last = [0usize; 5];
        for b in 0..text.len() + 3 {
            let now = [
                chars::from_byte_idx(&text, b),
                utf16::from_byte_idx(&text, b),
                lines::from_byte_idx(&text, b),
                lines_crlf::from_byte_idx(&text, b),
                lines_lf::from_byte_idx(&text, b),
            ];
            for n in 0..5 {
                assert!(now[n] >= last[n]);
            }
            last = now;
        }
        assert_eq!(last[0], chars::count(&text));
        assert_eq!(last[1], utf16::count(&text));
        assert_eq!(last[2], lines::count_breaks(&text));
        assert_eq!(last[3], lines_crlf::count_breaks(&text));
        assert_eq!(last[4], lines_lf::count_breaks(&text));
        let mut last_to = [0usize; 5];
        for k in 0..text.len() + 3 {
            let now = [
                chars::to_byte_idx(&text, k),
                utf16::to_byte_idx(&text, k),
                lines::to_byte_idx(&text, k),
                lines_crlf::to_byte_idx(&text, k),
                lines_lf::to_byte_idx(&text, k),
            ];
            for n in 0..5 {
                assert!(now[n] >= last_to[n]);
                assert!(now[n] <= text.len());
            }
            last_to = now;
        }
        assert_eq!(chars::to_byte_idx(&text, usize::MAX), text.len());
        assert_eq!(utf16::to_byte_idx(&text, usize::MAX), text.len());
        assert_eq!(lines::to_byte_idx(&text, usize::MAX), text.len());
        assert_eq!(lines_crlf::to_byte_idx(&text, usize::MAX), text.len());
        assert_eq!(lines_lf::to_byte_idx(&text, usize::MAX), text.len());
        assert_eq!(chars::from_byte_idx(&text, usize::MAX), chars::count(&text));
        assert_eq!(lines::from_byte_idx(&text, usize::MAX), lines::count_breaks(&text));
    }
}

#[test]
fn round_trips_on_boundaries() {
    for text in texts() {
        for (b, _) in text.char_indices().chain(std::iter::once((text.len(), ' '))) {
            assert_eq!(b, chars::to_byte_idx(&text, chars::from_byte_idx(&text, b)));
            assert_eq!(b, utf16::to_byte_idx(&text, utf16::from_byte_idx(&text, b)));
        }
        for (_, end) in ref_unicode_breaks(&text) {
            assert_eq!(end, lines::to_byte_idx(&text, lines::from_byte_idx(&text, end)));
        }
        for (_, end) in ref_crlf_breaks(&text) {
            assert_eq!(end, lines_crlf::to_byte_idx(&text, lines_crlf::from_byte_idx(&text, end)));
        }
        for (_, end) in ref_lf_breaks(&text) {
            assert_eq!(end, lines_lf::to_byte_idx(&text, lines_lf::from_byte_idx(&text, end)));
        }
    }
}
