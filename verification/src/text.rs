//! Text measuring utilities: grapheme-aware display width and leading
//! whitespace (dedent) detection.

use vstd::prelude::*;
use vstd::string::StringSliceAdditionalSpecFns;
use vstd::string::StrSliceExecFns;
use vstd::string::StringExecFns;
use vstd::utf8::decode_utf8;
use vstd::utf8::encode_utf8;
use vstd::utf8::is_ascii_chars;
use vstd::utf8::is_char_boundary;
use vstd::utf8::valid_utf8;

verus! {

/// The grapheme clusters of a character sequence, in order, as produced by
/// unicode-segmentation's extended grapheme cluster rules.
pub uninterp spec fn graphemes_of(s: Seq<char>) -> Seq<Seq<char>>;

/// The terminal-column width of a character sequence under Unicode
/// Standard Annex 11, as computed by unicode-width.
pub uninterp spec fn uni_width_of(s: Seq<char>) -> nat;

/// Relies on unicode_segmentation::UnicodeSegmentation::graphemes: the
/// extended grapheme clusters of a string are consecutive, non-empty
/// substrings that together cover the whole string.
#[verifier::external_body]
fn grapheme_list(s: &str) -> (r: Vec<String>)
    ensures
        r.deep_view() == graphemes_of(s@),
        r.deep_view().flatten() == s@,
        forall|i: int| 0 <= i < r.deep_view().len() ==> r.deep_view()[i].len() > 0,
{
    unicode_segmentation::UnicodeSegmentation::graphemes(s, true)
        .map(|g| g.to_owned())
        .collect()
}

/// Relies on unicode_width::UnicodeWidthStr::width: the width of a string
/// depends on its characters alone, and its per-character fold adds at most
/// three columns for any one character.
#[verifier::external_body]
fn str_width(s: &str) -> (r: usize)
    ensures
        r == uni_width_of(s@),
        r <= 3 * s@.len(),
{
    unicode_width::UnicodeWidthStr::width(s)
}

/// Whether a character is one of the five Unicode skin tone modifiers.
pub open spec fn is_skin_tone(c: char) -> bool {
    c == '\u{1f3fb}' || c == '\u{1f3fc}' || c == '\u{1f3fd}' || c == '\u{1f3fe}' || c
        == '\u{1f3ff}'
}

/// The display width of a single grapheme cluster: a tab counts as four
/// columns; a lone zero width joiner or variation selector-16 as zero; any
/// cluster containing a zero width joiner or a skin tone modifier as two;
/// anything else has its standard Unicode width.
pub open spec fn spec_grapheme_width(g: Seq<char>) -> nat {
    if g == seq!['\t'] {
        4
    } else if g == seq!['\u{200d}'] || g == seq!['\u{fe0f}'] {
        0
    } else if g.contains('\u{200d}') {
        2
    } else if exists|i: int| 0 <= i < g.len() && is_skin_tone(g[i]) {
        2
    } else {
        uni_width_of(g)
    }
}

/// The sum of grapheme widths over a list of grapheme clusters.
pub open spec fn graphemes_width(gs: Seq<Seq<char>>) -> nat
    decreases gs.len(),
{
    if gs.len() == 0 {
        0
    } else {
        spec_grapheme_width(gs[0]) + graphemes_width(gs.drop_first())
    }
}

/// The display width of a string: the sum of the widths of its grapheme
/// clusters.
pub open spec fn display_width_of(s: Seq<char>) -> nat {
    graphemes_width(graphemes_of(s))
}

/// The total character count of a list of grapheme clusters.
pub open spec fn graphemes_chars(gs: Seq<Seq<char>>) -> nat
    decreases gs.len(),
{
    if gs.len() == 0 {
        0
    } else {
        gs[0].len() + graphemes_chars(gs.drop_first())
    }
}

proof fn lemma_flatten_len_is_graphemes_chars(gs: Seq<Seq<char>>)
    ensures
        gs.flatten().len() == graphemes_chars(gs),
    decreases gs.len(),
{
    if gs.len() == 0 {
    } else {
        lemma_flatten_len_is_graphemes_chars(gs.drop_first());
        assert(gs.flatten() == gs[0] + gs.drop_first().flatten());
    }
}

/// Summing grapheme widths one cluster at a time agrees with the recursive
/// definition over the prefix taken so far.
proof fn lemma_graphemes_width_take_succ(gs: Seq<Seq<char>>, i: int)
    requires
        0 <= i < gs.len(),
    ensures
        graphemes_width(gs.take(i + 1)) == graphemes_width(gs.take(i)) + spec_grapheme_width(
            gs[i],
        ),
    decreases i,
{
    if i == 0 {
        assert(gs.take(1).drop_first() =~= Seq::<Seq<char>>::empty());
        assert(gs.take(0) =~= Seq::<Seq<char>>::empty());
    } else {
        lemma_graphemes_width_take_succ(gs.drop_first(), i - 1);
        assert(gs.take(i + 1).drop_first() =~= gs.drop_first().take(i));
        assert(gs.take(i).drop_first() =~= gs.drop_first().take(i - 1));
        assert(gs.drop_first()[i - 1] == gs[i]);
    }
}

proof fn lemma_graphemes_chars_take_succ(gs: Seq<Seq<char>>, i: int)
    requires
        0 <= i < gs.len(),
    ensures
        graphemes_chars(gs.take(i + 1)) == graphemes_chars(gs.take(i)) + gs[i].len(),
    decreases i,
{
    if i == 0 {
        assert(gs.take(1).drop_first() =~= Seq::<Seq<char>>::empty());
        assert(gs.take(0) =~= Seq::<Seq<char>>::empty());
    } else {
        lemma_graphemes_chars_take_succ(gs.drop_first(), i - 1);
        assert(gs.take(i + 1).drop_first() =~= gs.drop_first().take(i));
        assert(gs.take(i).drop_first() =~= gs.drop_first().take(i - 1));
        assert(gs.drop_first()[i - 1] == gs[i]);
    }
}

proof fn lemma_graphemes_chars_bounds(gs: Seq<Seq<char>>, i: int)
    requires
        0 <= i <= gs.len(),
    ensures
        graphemes_chars(gs.take(i)) <= graphemes_chars(gs),
    decreases i,
{
    if i == 0 {
        assert(gs.take(0) =~= Seq::<Seq<char>>::empty());
    } else {
        lemma_graphemes_chars_take_succ(gs, i - 1);
        lemma_graphemes_chars_bounds(gs, i - 1);
        lemma_graphemes_chars_last_bound(gs, i - 1);
    }
}

proof fn lemma_graphemes_chars_last_bound(gs: Seq<Seq<char>>, i: int)
    requires
        0 <= i < gs.len(),
    ensures
        graphemes_chars(gs.take(i)) + gs[i].len() <= graphemes_chars(gs),
    decreases gs.len(),
{
    if i == 0 {
        assert(gs.take(0) =~= Seq::<Seq<char>>::empty());
        assert(graphemes_chars(gs) == gs[0].len() + graphemes_chars(gs.drop_first()));
    } else {
        lemma_graphemes_chars_last_bound(gs.drop_first(), i - 1);
        assert(gs.take(i).drop_first() =~= gs.drop_first().take(i - 1));
        assert(gs.drop_first()[i - 1] == gs[i]);
    }
}

/// Whether a grapheme cluster is a plain space or a tab.
pub open spec fn is_ws_grapheme(g: Seq<char>) -> bool {
    g == seq![' '] || g == seq!['\t']
}

/// The indentation width contributed by one whitespace grapheme: a space is
/// one column, a tab four.
pub open spec fn ws_g_width(g: Seq<char>) -> nat {
    if g == seq!['\t'] {
        4
    } else {
        1
    }
}

/// The number of leading whitespace graphemes of a grapheme list.
pub open spec fn ws_prefix_of(gs: Seq<Seq<char>>) -> int
    decreases gs.len(),
{
    if gs.len() == 0 || !is_ws_grapheme(gs[0]) {
        0
    } else {
        1 + ws_prefix_of(gs.drop_first())
    }
}

/// The indentation width of the first `k` graphemes of a grapheme list.
pub open spec fn ws_width_of(gs: Seq<Seq<char>>, k: int) -> nat
    decreases k,
{
    if k <= 0 {
        0
    } else {
        ws_width_of(gs, k - 1) + ws_g_width(gs[k - 1])
    }
}

/// The byte (and character, and grapheme) offset where the indentation of a
/// line ends: every leading whitespace grapheme is a single one-byte
/// character.
pub open spec fn dedent_offset_of(s: Seq<char>) -> int {
    ws_prefix_of(graphemes_of(s))
}

/// The display width of a line's indentation.
pub open spec fn dedent_width_of(s: Seq<char>) -> nat {
    ws_width_of(graphemes_of(s), ws_prefix_of(graphemes_of(s)))
}

/// A line with its indentation removed.
pub open spec fn dedent_rest_of(s: Seq<char>) -> Seq<char> {
    s.skip(dedent_offset_of(s))
}

proof fn lemma_ws_prefix_value(gs: Seq<Seq<char>>, i: int)
    requires
        0 <= i <= gs.len(),
        forall|j: int| 0 <= j < i ==> is_ws_grapheme(#[trigger] gs[j]),
        i < gs.len() ==> !is_ws_grapheme(gs[i]),
    ensures
        ws_prefix_of(gs) == i,
    decreases i,
{
    if i == 0 {
    } else {
        assert(is_ws_grapheme(gs[0]));
        assert(forall|j: int|
            0 <= j < i - 1 ==> is_ws_grapheme(#[trigger] gs.drop_first()[j]));
        if i - 1 < gs.drop_first().len() {
            assert(gs.drop_first()[i - 1] == gs[i]);
        }
        lemma_ws_prefix_value(gs.drop_first(), i - 1);
    }
}

proof fn lemma_ws_prefix_chars(gs: Seq<Seq<char>>, k: int)
    requires
        0 <= k <= gs.len(),
        forall|j: int| 0 <= j < k ==> (#[trigger] gs[j]).len() == 1,
    ensures
        graphemes_chars(gs.take(k)) == k,
    decreases k,
{
    if k == 0 {
        assert(gs.take(0) =~= Seq::<Seq<char>>::empty());
    } else {
        lemma_ws_prefix_chars(gs, k - 1);
        lemma_graphemes_chars_take_succ(gs, k - 1);
    }
}

proof fn lemma_flatten_split(gs: Seq<Seq<char>>, k: int)
    requires
        0 <= k <= gs.len(),
    ensures
        gs.flatten() == gs.take(k).flatten() + gs.skip(k).flatten(),
    decreases k,
{
    if k == 0 {
        assert(gs.take(0).flatten() =~= Seq::<char>::empty());
        assert(gs.skip(0) =~= gs);
        assert(gs.flatten() =~= gs.take(0).flatten() + gs.skip(0).flatten());
    } else {
        lemma_flatten_split(gs.drop_first(), k - 1);
        assert(gs.take(k).drop_first() =~= gs.drop_first().take(k - 1));
        assert(gs.skip(k) =~= gs.drop_first().skip(k - 1));
        assert(gs.flatten() == gs[0] + gs.drop_first().flatten());
        assert(gs.take(k).flatten() == gs.take(k)[0] + gs.take(k).drop_first().flatten());
        assert(gs.flatten() =~= gs.take(k).flatten() + gs.skip(k).flatten());
    }
}

/// The UTF-8 encoding of a concatenation is the concatenation of the
/// encodings.
proof fn lemma_encode_utf8_concat(a: Seq<char>, b: Seq<char>)
    ensures
        encode_utf8(a + b) == encode_utf8(a) + encode_utf8(b),
    decreases a.len(),
{
    if a.len() == 0 {
        assert(a + b =~= b);
        assert(encode_utf8(a) =~= Seq::<u8>::empty());
        assert(encode_utf8(a + b) =~= encode_utf8(a) + encode_utf8(b));
    } else {
        lemma_encode_utf8_concat(a.drop_first(), b);
        assert((a + b).drop_first() =~= a.drop_first() + b);
        assert((a + b)[0] == a[0]);
        assert(encode_utf8(a + b) =~= encode_utf8(a) + encode_utf8(b));
    }
}

/// In the UTF-8 encoding of a string whose first `k` characters are ASCII,
/// byte position `k` falls on a character boundary.
proof fn lemma_ascii_prefix_boundary(s: Seq<char>, k: int)
    requires
        0 <= k <= s.len(),
        forall|i: int| 0 <= i < k ==> '\0' <= #[trigger] s[i] <= '\u{7f}',
    ensures
        is_char_boundary(encode_utf8(s), k),
        encode_utf8(s.take(k)).len() == k,
{
    broadcast use vstd::utf8::encode_utf8_valid_utf8;

    let bytes = encode_utf8(s);
    lemma_encode_utf8_concat(s.take(k), s.skip(k));
    assert(s.take(k) + s.skip(k) =~= s);
    assert forall|i: int| 0 <= i < s.take(k).len() implies '\0' <= #[trigger] s.take(k)[i]
        <= '\u{7f}' by {
        assert(s.take(k)[i] == s[i]);
        assert('\0' <= s[i] <= '\u{7f}');
    }
    assert(is_ascii_chars(s.take(k)));
    vstd::utf8::is_ascii_chars_encode_utf8(s.take(k));
    if k == bytes.len() {
        vstd::utf8::is_char_boundary_start_end_of_seq(bytes);
    } else {
        let rest = encode_utf8(s.skip(k));
        assert(rest.len() > 0);
        assert(valid_utf8(rest));
        assert(vstd::utf8::valid_first_scalar(rest));
        assert(!vstd::utf8::is_continuation_byte(rest[0]));
        assert(bytes[k] == rest[0]);
        vstd::utf8::is_char_boundary_iff_not_is_continuation_byte(bytes, k);
    }
}

/// Returns the display width of a grapheme. This function does not check that
/// the argument is indeed a single grapheme and therefore isn't reliable if it
/// isn't.
pub fn grapheme_width(grapheme: &str) -> (r: usize)
    ensures
        r == spec_grapheme_width(grapheme@),
        r <= 4 * grapheme@.len() || grapheme@.len() == 0,
{
    let n = grapheme.unicode_len();
    if n == 1 {
        let c = grapheme.get_char(0);
        proof {
            assert(grapheme@ =~= seq![c]);
        }
        if c == '\t' {
            return 4;
        }
        if c == '\u{200d}' || c == '\u{fe0f}' {
            return 0;
        }
        if c == '\u{1f3fb}' || c == '\u{1f3fc}' || c == '\u{1f3fd}' || c == '\u{1f3fe}' || c
            == '\u{1f3ff}' {
            proof {
                assert(exists|j: int| 0 <= j < grapheme@.len() && is_skin_tone(grapheme@[j])) by {
                    assert(is_skin_tone(grapheme@[0]));
                }
            }
            return 2;
        }
        proof {
            assert(!grapheme@.contains('\u{200d}')) by {
                if grapheme@.contains('\u{200d}') {
                    let j = choose|j: int|
                        0 <= j < grapheme@.len() && grapheme@[j] == '\u{200d}';
                    assert(grapheme@[j] == c);
                }
            }
            assert(!(exists|j: int| 0 <= j < grapheme@.len() && is_skin_tone(grapheme@[j])))
                by {
                if exists|j: int| 0 <= j < grapheme@.len() && is_skin_tone(grapheme@[j]) {
                    let j = choose|j: int| 0 <= j < grapheme@.len() && is_skin_tone(grapheme@[j]);
                    assert(grapheme@[j] == c);
                }
            }
            assert(grapheme@ != seq!['\t'] && grapheme@ != seq!['\u{200d}'] && grapheme@
                != seq!['\u{fe0f}']) by {
                assert(seq!['\t'][0] == '\t' && seq!['\u{200d}'][0] == '\u{200d}'
                    && seq!['\u{fe0f}'][0] == '\u{fe0f}');
            }
        }
        return str_width(grapheme);
    }
    let mut i: usize = 0;
    while i < n
        invariant
            n == grapheme@.len(),
            n != 1,
            0 <= i <= n,
            forall|j: int|
                0 <= j < i ==> grapheme@[j] != '\u{200d}' && !is_skin_tone(grapheme@[j]),
        decreases n - i,
    {
        proof {
            assert(grapheme@ != seq!['\t'] && grapheme@ != seq!['\u{200d}'] && grapheme@
                != seq!['\u{fe0f}']) by {
                assert(seq!['\t'].len() == 1 && seq!['\u{200d}'].len() == 1
                    && seq!['\u{fe0f}'].len() == 1);
            }
        }
        let c = grapheme.get_char(i);
        if c == '\u{200d}' {
            proof {
                assert(grapheme@.contains('\u{200d}')) by {
                    assert(grapheme@[i as int] == '\u{200d}');
                }
            }
            return 2;
        }
        if c == '\u{1f3fb}' || c == '\u{1f3fc}' || c == '\u{1f3fd}' || c == '\u{1f3fe}' || c
            == '\u{1f3ff}' {
            proof {
                assert(exists|j: int| 0 <= j < grapheme@.len() && is_skin_tone(grapheme@[j])) by {
                    assert(is_skin_tone(grapheme@[i as int]));
                }
            }
            return 2;
        }
        i += 1;
    }
    str_width(grapheme)
}

/// Returns the display width of a string.
pub fn dislay_width(s: &str) -> (r: usize)
    requires
        4 * s@.len() <= usize::MAX,
    ensures
        r == display_width_of(s@),
        r <= 4 * s@.len(),
{
    let gs = grapheme_list(s);
    let ghost gseq = graphemes_of(s@);
    proof {
        lemma_flatten_len_is_graphemes_chars(gseq);
    }
    let mut total: usize = 0;
    let mut i: usize = 0;
    while i < gs.len()
        invariant
            gs.deep_view() == gseq,
            gseq.flatten() == s@,
            forall|j: int| 0 <= j < gseq.len() ==> gseq[j].len() > 0,
            graphemes_chars(gseq) == s@.len(),
            4 * s@.len() <= usize::MAX,
            0 <= i <= gs.len(),
            total == graphemes_width(gseq.take(i as int)),
            total <= 4 * graphemes_chars(gseq.take(i as int)),
        decreases gs.len() - i,
    {
        proof {
            assert(gs.deep_view()[i as int] == gs@[i as int]@);
            lemma_graphemes_width_take_succ(gseq, i as int);
            lemma_graphemes_chars_take_succ(gseq, i as int);
            lemma_graphemes_chars_bounds(gseq, i as int + 1);
        }
        let w = grapheme_width(gs[i].as_str());
        total += w;
        i += 1;
    }
    proof {
        assert(gseq.take(gs.len() as int) =~= gseq);
    }
    total
}

/// Dedents a string by removing whitespace at the start and returns the byte
/// index of the start of the dedented section, the display width of the
/// removed segment and the dedented slice, respectively.
pub fn dedent(s: &str) -> (r: (usize, usize, &str))
    requires
        4 * s@.len() <= usize::MAX,
    ensures
        r.0 == dedent_offset_of(s@),
        r.1 == dedent_width_of(s@),
        r.2@ == dedent_rest_of(s@),
        0 <= r.0 <= s@.len(),
        r.1 <= 4 * r.0,
        encode_utf8(s@.take(r.0 as int)).len() == r.0,
        r.2.spec_bytes() == s.spec_bytes().skip(r.0 as int),
{
    broadcast use vstd::utf8::encode_utf8_valid_utf8;
    broadcast use vstd::utf8::encode_utf8_decode_utf8;

    let gs = grapheme_list(s);
    let ghost gseq = graphemes_of(s@);
    proof {
        lemma_flatten_len_is_graphemes_chars(gseq);
    }
    let mut width: usize = 0;
    let mut i: usize = 0;
    let mut stopped = false;
    let n = gs.len();
    while !stopped && i < n
        invariant
            gs.deep_view() == gseq,
            gseq.flatten() == s@,
            n == gseq.len(),
            graphemes_chars(gseq) == s@.len(),
            4 * s@.len() <= usize::MAX,
            0 <= i <= n,
            forall|j: int| 0 <= j < i ==> is_ws_grapheme(#[trigger] gseq[j]),
            width == ws_width_of(gseq, i as int),
            i <= s@.len(),
            width <= 4 * i,
            stopped ==> i < n && !is_ws_grapheme(gseq[i as int]),
        decreases n - i, if stopped { 0int } else { 1int },
    {
        proof {
            assert(gs.deep_view()[i as int] == gs@[i as int]@);
        }
        let g = gs[i].as_str();
        let glen = g.unicode_len();
        let is_space = glen == 1 && g.get_char(0) == ' ';
        let is_tab = glen == 1 && g.get_char(0) == '\t';
        if !(is_space || is_tab) {
            proof {
                assert(!is_ws_grapheme(gseq[i as int])) by {
                    if gseq[i as int] == seq![' '] || gseq[i as int] == seq!['\t'] {
                        assert(g@.len() == 1);
                        assert(g@ =~= seq![g@[0]]);
                    }
                }
            }
            stopped = true;
        } else {
        proof {
            assert(gseq[i as int] =~= seq![g@[0]]);
            assert(is_ws_grapheme(gseq[i as int]));
            lemma_ws_prefix_chars(gseq, i + 1);
            lemma_graphemes_chars_bounds(gseq, i + 1);
        }
        if is_tab {
            proof {
                assert(ws_g_width(gseq[i as int]) == 4);
            }
            width += 4;
        } else {
            proof {
                assert(gseq[i as int] != seq!['\t']) by {
                    assert(seq![' '][0] == ' ' && seq!['\t'][0] == '\t');
                }
            }
            width += 1;
        }
        i += 1;
        }
    }
    proof {
        assert(i < gseq.len() ==> !is_ws_grapheme(gseq[i as int]));
        lemma_ws_prefix_value(gseq, i as int);
        lemma_ws_prefix_chars(gseq, i as int);
        lemma_flatten_split(gseq, i as int);
        lemma_flatten_len_is_graphemes_chars(gseq.take(i as int));
        assert(gseq.take(i as int).flatten() =~= s@.take(i as int));
        assert(gseq.skip(i as int).flatten() =~= s@.skip(i as int));
        assert forall|j: int| 0 <= j < i implies '\0' <= #[trigger] s@[j] <= '\u{7f}' by {
            lemma_ws_char_at(gseq, i as int, j);
        }
        lemma_ascii_prefix_boundary(s@, i as int);
        lemma_encode_utf8_concat(s@.take(i as int), s@.skip(i as int));
        assert(s@.take(i as int) + s@.skip(i as int) =~= s@);
    }
    let (_, rest) = s.split_at(i);
    proof {
        assert(rest.spec_bytes() =~= encode_utf8(s@.skip(i as int)));
        assert(decode_utf8(rest.spec_bytes()) == rest@);
        assert(decode_utf8(encode_utf8(s@.skip(i as int))) == s@.skip(i as int));
        assert(rest.spec_bytes() =~= s.spec_bytes().skip(i as int));
    }
    (i, width, rest)
}

/// A whitespace grapheme among the first `k` graphemes puts an ASCII
/// character at the matching position of the string.
proof fn lemma_ws_char_at(gs: Seq<Seq<char>>, k: int, j: int)
    requires
        0 <= j < k <= gs.len(),
        forall|m: int| 0 <= m < k ==> is_ws_grapheme(#[trigger] gs[m]),
    ensures
        gs.flatten()[j] == ' ' || gs.flatten()[j] == '\t',
{
    lemma_flatten_split(gs, k);
    lemma_ws_prefix_chars(gs, k);
    lemma_flatten_len_is_graphemes_chars(gs.take(k));
    lemma_flatten_split(gs.take(k), j);
    lemma_ws_prefix_chars(gs.take(k), j);
    lemma_flatten_len_is_graphemes_chars(gs.take(k).take(j));
    let tk = gs.take(k);
    assert(tk.flatten() == tk.take(j).flatten() + tk.skip(j).flatten());
    assert(tk.skip(j).len() > 0);
    assert(tk.skip(j).flatten() == tk.skip(j)[0] + tk.skip(j).drop_first().flatten());
    assert(tk.skip(j)[0] == gs[j]);
    assert(is_ws_grapheme(gs[j]));
    assert(gs[j].len() == 1);
    assert(tk.flatten()[j] == gs[j][0]);
    assert(gs.flatten()[j] == tk.flatten()[j]);
    assert(gs[j][0] == ' ' || gs[j][0] == '\t');
}


} // verus!
