//! Building blocks for rendered output: repeated glyphs, right-aligned
//! decimal numbers, and styled text fragments, each with a spec-level
//! counterpart that the render contracts are stated over.

use crate::diagnostic::config::spec_sgr_prefix;
use crate::diagnostic::config::spec_sgr_suffix;
use crate::diagnostic::config::sgr_prefix;
use crate::diagnostic::config::sgr_suffix;
use crate::diagnostic::config::Style;
use vstd::prelude::*;
use vstd::string::StringExecFns;

verus! {

/// `n` copies of a character.
pub open spec fn repeat_char(c: char, n: int) -> Seq<char>
    decreases n,
{
    if n <= 0 {
        Seq::<char>::empty()
    } else {
        repeat_char(c, n - 1) + seq![c]
    }
}

/// `n` spaces.
pub open spec fn spaces(n: int) -> Seq<char> {
    repeat_char(' ', n)
}

/// The decimal digit character for a value below ten.
pub open spec fn digit_char(d: int) -> char {
    if d == 0 {
        '0'
    } else if d == 1 {
        '1'
    } else if d == 2 {
        '2'
    } else if d == 3 {
        '3'
    } else if d == 4 {
        '4'
    } else if d == 5 {
        '5'
    } else if d == 6 {
        '6'
    } else if d == 7 {
        '7'
    } else if d == 8 {
        '8'
    } else {
        '9'
    }
}

/// The decimal digits of a non-negative number.
pub open spec fn dec_digits(n: int) -> Seq<char>
    decreases n,
{
    if n < 10 {
        seq![digit_char(n)]
    } else {
        dec_digits(n / 10) + seq![digit_char(n % 10)]
    }
}

/// `s` padded on the left with spaces to at least `w` columns.
pub open spec fn pad_left(s: Seq<char>, w: int) -> Seq<char> {
    if s.len() >= w {
        s
    } else {
        spaces(w - s.len()) + s
    }
}

/// A text fragment under a style: the style's escape prefix, the text, then
/// the reset. Both escapes are empty for the plain style.
pub open spec fn styled(st: Style, s: Seq<char>) -> Seq<char> {
    spec_sgr_prefix(st.fg, st.bold) + s + spec_sgr_suffix(st.fg, st.bold)
}

/// Relies on String::push: it appends the character to the string.
#[verifier::external_body]
pub(crate) fn push_char(out: &mut String, c: char)
    ensures
        final(out)@ == old(out)@ + seq![c],
{
    out.push(c);
}

/// Appends `n` copies of a character.
pub(crate) fn push_repeat(out: &mut String, c: char, n: usize)
    ensures
        final(out)@ == old(out)@ + repeat_char(c, n as int),
{
    let mut i: usize = 0;
    while i < n
        invariant
            0 <= i <= n,
            out@ == old(out)@ + repeat_char(c, i as int),
        decreases n - i,
    {
        push_char(out, c);
        i += 1;
    }
}

/// Appends `n` spaces.
pub(crate) fn push_spaces(out: &mut String, n: usize)
    ensures
        final(out)@ == old(out)@ + spaces(n as int),
{
    push_repeat(out, ' ', n);
}

/// Appends the decimal digits of a number.
pub(crate) fn push_dec(out: &mut String, n: usize)
    ensures
        final(out)@ == old(out)@ + dec_digits(n as int),
    decreases n,
{
    if n < 10 {
        push_char(out, digit_of(n));
    } else {
        push_dec(out, n / 10);
        push_char(out, digit_of(n % 10));
    }
}

/// The decimal digit character for a value below ten.
fn digit_of(d: usize) -> (r: char)
    requires
        d < 10,
    ensures
        r == digit_char(d as int),
{
    if d == 0 {
        '0'
    } else if d == 1 {
        '1'
    } else if d == 2 {
        '2'
    } else if d == 3 {
        '3'
    } else if d == 4 {
        '4'
    } else if d == 5 {
        '5'
    } else if d == 6 {
        '6'
    } else if d == 7 {
        '7'
    } else if d == 8 {
        '8'
    } else {
        '9'
    }
}

/// The number of decimal digits of a number.
pub(crate) fn dec_width(n: usize) -> (r: usize)
    ensures
        r == dec_digits(n as int).len(),
        1 <= r,
    decreases n,
{
    proof {
        lemma_dec_digits_len(n as int);
    }
    if n < 10 {
        1
    } else {
        let w = dec_width(n / 10);
        proof {
            lemma_dec_digits_len(n as int / 10);
        }
        w + 1
    }
}

/// A decimal holds at least one digit and no more digits than its value
/// plus one.
proof fn lemma_dec_digits_len(n: int)
    requires
        0 <= n,
    ensures
        1 <= dec_digits(n).len() <= n + 1,
    decreases n,
{
    if n >= 10 {
        lemma_dec_digits_len(n / 10);
        assert(n / 10 + 1 <= n) by (nonlinear_arith)
            requires
                n >= 10,
        ;
    }
}

/// Appends the decimal digits of a number, right-aligned to `w` columns.
pub(crate) fn push_dec_padded(out: &mut String, n: usize, w: usize)
    ensures
        final(out)@ == old(out)@ + pad_left(dec_digits(n as int), w as int),
{
    let d = dec_width(n);
    if d < w {
        push_spaces(out, w - d);
    }
    push_dec(out, n);
    proof {
        if d < w {
            assert(out@ =~= old(out)@ + pad_left(dec_digits(n as int), w as int));
        }
    }
}

/// Appends one character under a style.
pub(crate) fn push_styled_char(out: &mut String, st: &Style, c: char)
    ensures
        final(out)@ == old(out)@ + styled(*st, seq![c]),
{
    let pre = sgr_prefix(st.fg, st.bold);
    out.append(pre.as_str());
    push_char(out, c);
    let suf = sgr_suffix(st.fg, st.bold);
    out.append(suf.as_str());
    proof {
        assert(out@ =~= old(out)@ + styled(*st, seq![c]));
    }
}

/// Appends a text fragment under a style.
pub(crate) fn push_styled(out: &mut String, st: &Style, s: &str)
    ensures
        final(out)@ == old(out)@ + styled(*st, s@),
{
    let pre = sgr_prefix(st.fg, st.bold);
    out.append(pre.as_str());
    out.append(s);
    let suf = sgr_suffix(st.fg, st.bold);
    out.append(suf.as_str());
    proof {
        assert(out@ =~= old(out)@ + styled(*st, s@));
    }
}

} // verus!
