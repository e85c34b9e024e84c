//! Width bookkeeping for centring board lines on a terminal: characters
//! that take no column (colour escape sequences) or two (fullwidth digits).
use vstd::prelude::*;
use vstd::string::*;

verus! {

/// Escape-sequence characters in `s`, with whether one is still open: an
/// ESC opens a sequence and an `m` closes it, both counted, and every
/// character inside one is counted too.
pub open spec fn escape_scan(s: Seq<char>) -> (nat, bool)
    decreases s.len(),
{
    if s.len() == 0 {
        (0, false)
    } else {
        let (n, on) = escape_scan(s.drop_last());
        let c = s.last();
        if c == '\x1b' {
            (n + 1, true)
        } else if c == 'm' {
            (n + 1, false)
        } else if on {
            (n + 1, true)
        } else {
            (n, false)
        }
    }
}

pub open spec fn escape_count(s: Seq<char>) -> nat {
    escape_scan(s).0
}

/// One of the fullwidth digits U+FF10 to U+FF19.
pub open spec fn is_zenkaku_digit(c: char) -> bool {
    c == '\u{ff10}' || c == '\u{ff11}' || c == '\u{ff12}' || c == '\u{ff13}' || c == '\u{ff14}' || c == '\u{ff15}'
        || c == '\u{ff16}' || c == '\u{ff17}' || c == '\u{ff18}' || c == '\u{ff19}'
}

pub open spec fn zenkaku_count(s: Seq<char>) -> nat
    decreases s.len(),
{
    if s.len() == 0 {
        0
    } else {
        zenkaku_count(s.drop_last()) + if is_zenkaku_digit(s.last()) {
            1nat
        } else {
            0nat
        }
    }
}

fn is_zenkaku_digit_exec(c: char) -> (r: bool)
    ensures
        r == is_zenkaku_digit(c),
{
    c == '\u{ff10}' || c == '\u{ff11}' || c == '\u{ff12}' || c == '\u{ff13}' || c == '\u{ff14}' || c == '\u{ff15}'
        || c == '\u{ff16}' || c == '\u{ff17}' || c == '\u{ff18}' || c == '\u{ff19}'
}

/// The characters of colour escape sequences in `text`; see `escape_scan`.
pub fn count_color_escape_sequences(text: &str) -> (r: usize)
    ensures
        r == escape_count(text@),
{
    count_color_escape_sequences_and_zenkaku_number(text).0
}

/// The fullwidth digits in `text`.
pub fn count_zenkaku_number(text: &str) -> (r: usize)
    ensures
        r == zenkaku_count(text@),
{
    count_color_escape_sequences_and_zenkaku_number(text).1
}

/// Both counts in one pass: `(escape characters, fullwidth digits)`.
pub fn count_color_escape_sequences_and_zenkaku_number(text: &str) -> (r: (usize, usize))
    ensures
        r.0 == escape_count(text@),
        r.1 == zenkaku_count(text@),
{
    let n = text.unicode_len();
    let mut color_escape_sequence_count: usize = 0;
    let mut zenkaku_total: usize = 0;
    let mut is_count = false;
    let mut i: usize = 0;
    while i < n
        invariant
            n == text@.len(),
            i <= n,
            color_escape_sequence_count <= i,
            zenkaku_total <= i,
            (color_escape_sequence_count as nat, is_count) == escape_scan(text@.subrange(0, i as int)),
            zenkaku_total == zenkaku_count(text@.subrange(0, i as int)),
        decreases n - i,
    {
        let c = text.get_char(i);
        proof {
            let p = text@.subrange(0, i + 1);
            assert(p.drop_last() =~= text@.subrange(0, i as int));
            assert(p.last() == c);
        }
        if is_zenkaku_digit_exec(c) {
            zenkaku_total = zenkaku_total + 1;
        }
        if c == '\x1b' {
            color_escape_sequence_count = color_escape_sequence_count + 1;
            is_count = true;
        } else if c == 'm' {
            color_escape_sequence_count = color_escape_sequence_count + 1;
            is_count = false;
        } else if is_count {
            color_escape_sequence_count = color_escape_sequence_count + 1;
        }
        i = i + 1;
    }
    proof {
        assert(text@.subrange(0, n as int) =~= text@);
    }
    (color_escape_sequence_count, zenkaku_total)
}

} // verus!
