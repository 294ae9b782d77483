//! Sources of text for diagnostics: byte spans, indexed source lines, and the
//! offset-to-line lookup that anchors labels into a source buffer.

use crate::text::dedent;
use crate::text::dedent_offset_of;
use crate::text::dedent_rest_of;
use crate::text::dedent_width_of;
use vstd::prelude::*;
use vstd::string::StrSliceExecFns;
use vstd::string::StringExecFns;
use vstd::string::StringSliceAdditionalSpecFns;
use vstd::utf8::decode_utf8;
use vstd::utf8::encode_utf8;
use vstd::utf8::is_char_boundary;
use vstd::utf8::valid_utf8;

verus! {

/// Unit struct that represents the absence of a source in a diagnostic.
#[derive(Debug, Clone, Copy)]
pub struct NoSource;

/// A span into the source of a diagnostic: a half-open byte range
/// `[start, end)`.
#[derive(Debug, Clone, Copy, PartialEq, Eq)]
pub struct SourceSpan {
    start: u32,
    end: u32,
}

impl SourceSpan {
    /// A well-formed span never runs backwards.
    pub open spec fn wf(self) -> bool {
        self.spec_start() <= self.spec_end()
    }

    /// The start of this span, as seen by contracts.
    pub closed spec fn spec_start(self) -> u32 {
        self.start
    }

    /// The end of this span, as seen by contracts.
    pub closed spec fn spec_end(self) -> u32 {
        self.end
    }

    /// Creates a new source span. `start` and `end` are byte indexes into the
    /// source.
    pub fn new(start: u32, end: u32) -> (r: Self)
        requires
            start <= end,
        ensures
            r.spec_start() == start,
            r.spec_end() == end,
            r.wf(),
    {
        SourceSpan { start, end }
    }

    /// The start of this span. Inclusive.
    #[inline]
    pub fn start(&self) -> (r: u32)
        ensures
            r == self.spec_start(),
    {
        self.start
    }

    /// The end of this span. Exclusive.
    #[inline]
    pub fn end(&self) -> (r: u32)
        ensures
            r == self.spec_end(),
    {
        self.end
    }

    /// The length of this span.
    #[inline]
    pub fn len(&self) -> (r: u32)
        requires
            self.wf(),
        ensures
            r == self.spec_end() - self.spec_start(),
    {
        self.end - self.start
    }

    /// Whether this span is empty or not.
    #[inline]
    pub fn is_empty(&self) -> (r: bool)
        ensures
            r == (self.spec_start() == self.spec_end()),
    {
        self.start == self.end
    }

    /// Does this span contain the given value?
    #[inline]
    pub fn contains(&self, value: u32) -> (r: bool)
        ensures
            r == self.spec_contains(value),
    {
        (self.start <= value) && (value < self.end)
    }

    /// Whether a byte offset falls inside this span.
    pub open spec fn spec_contains(self, value: u32) -> bool {
        self.spec_start() <= value && value < self.spec_end()
    }

    /// Rebases this span onto a line's dedented span, clamping its end to the
    /// line's end.
    #[inline]
    pub(crate) fn on_dedented_span(&self, dedented_span: SourceSpan) -> (r: SourceSpan)
        requires
            self.wf(),
            dedented_span.wf(),
            dedented_span.spec_start() <= self.spec_start(),
            self.spec_start() <= spec_min(
                self.spec_end() as int,
                dedented_span.spec_end() as int,
            ),
        ensures
            r.spec_start() == self.spec_start() - dedented_span.spec_start(),
            r.spec_end() == spec_min(
                self.spec_end() as int,
                dedented_span.spec_end() as int,
            ) - dedented_span.spec_start(),
            r.wf(),
    {
        let e = if self.end < dedented_span.end {
            self.end
        } else {
            dedented_span.end
        };
        SourceSpan::new(self.start - dedented_span.start, e - dedented_span.start)
    }
}

/// The smaller of two integers.
pub open spec fn spec_min(a: int, b: int) -> int {
    if a <= b {
        a
    } else {
        b
    }
}

/// A line of a text source.
#[derive(Debug)]
pub struct SourceLine {
    index: usize,
    indent_size: usize,
    full_span: SourceSpan,
    dedented_span: SourceSpan,
    text: String,
}

impl SourceLine {
    /// The index of this line in the source, as seen by contracts.
    pub closed spec fn spec_index(self) -> usize {
        self.index
    }

    /// The indentation width of this line, as seen by contracts.
    pub closed spec fn spec_indent_size(self) -> usize {
        self.indent_size
    }

    /// The span of the whole line, as seen by contracts.
    pub closed spec fn spec_full_span(self) -> SourceSpan {
        self.full_span
    }

    /// The span of the dedented line, as seen by contracts.
    pub closed spec fn spec_dedented_span(self) -> SourceSpan {
        self.dedented_span
    }

    /// The dedented text of this line, as seen by contracts.
    pub closed spec fn spec_text(self) -> Seq<char> {
        self.text@
    }

    /// The index of this line in the source.
    pub fn index(&self) -> (r: usize)
        ensures
            r == self.spec_index(),
    {
        self.index
    }

    /// The size of the indentation in this line.
    pub fn indent_size(&self) -> (r: usize)
        ensures
            r == self.spec_indent_size(),
    {
        self.indent_size
    }

    /// The span of the whole line in the source, i.e. including indentation.
    pub fn full_span(&self) -> (r: SourceSpan)
        ensures
            r == self.spec_full_span(),
    {
        self.full_span
    }

    /// The span of the dedented line in the source, i.e. excluding
    /// indentation.
    pub fn dedented_span(&self) -> (r: SourceSpan)
        ensures
            r == self.spec_dedented_span(),
    {
        self.dedented_span
    }

    /// The dedented text of this line.
    pub fn text(&self) -> (r: &str)
        ensures
            r@ == self.spec_text(),
    {
        self.text.as_str()
    }

    /// An owned copy of this line, equal to it.
    pub fn duplicate(&self) -> (r: SourceLine)
        ensures
            r == *self,
    {
        SourceLine {
            index: self.index,
            indent_size: self.indent_size,
            full_span: self.full_span,
            dedented_span: self.dedented_span,
            text: self.text.clone(),
        }
    }
}

/// What a correctly built line's text states about the bytes under its
/// spans: they are valid UTF-8 and the dedent data agree with `dedent` run
/// on the characters under the full span. Kept opaque: these clauses mention
/// recursive codec functions that would otherwise burden every proof that
/// only needs the span layout.
#[verifier::opaque]
pub open spec fn line_content_wf(bytes: Seq<u8>, line: SourceLine) -> bool {
    let a = line.spec_full_span().spec_start() as int;
    let b = line.spec_full_span().spec_end() as int;
    let d = line.spec_dedented_span().spec_start() as int;
    let lchars = decode_utf8(bytes.subrange(a, b));
    &&& valid_utf8(bytes.subrange(a, b))
    &&& d == a + dedent_offset_of(lchars)
    &&& line.spec_indent_size() == dedent_width_of(lchars)
    &&& line.spec_text() == dedent_rest_of(lchars)
    &&& encode_utf8(line.spec_text()) == bytes.subrange(d, b)
    &&& is_char_boundary(bytes, a)
    &&& is_char_boundary(bytes, b)
    &&& lchars.len() <= b - a
}

/// What a correctly built line states about a source buffer: its spans nest
/// and sit inside the buffer, and its text and dedent data agree with the
/// bytes under its spans.
pub open spec fn line_wf(bytes: Seq<u8>, line: SourceLine) -> bool {
    let a = line.spec_full_span().spec_start() as int;
    let b = line.spec_full_span().spec_end() as int;
    let d = line.spec_dedented_span().spec_start() as int;
    &&& 0 <= a <= b <= bytes.len()
    &&& line.spec_dedented_span().spec_end() == line.spec_full_span().spec_end()
    &&& a <= d <= b
    &&& line.spec_text().len() <= b - d
    &&& 4 * line.spec_text().len() <= usize::MAX
    &&& line.spec_indent_size() <= 4 * (d - a)
    &&& line_content_wf(bytes, line)
}

/// No newline byte occurs in `bytes` within `[a, b)`.
pub open spec fn no_newline_in(bytes: Seq<u8>, a: int, b: int) -> bool {
    forall|j: int| a <= j < b ==> bytes[j] != 0x0au8
}

/// What the whole line table states about a source buffer: lines are indexed
/// in order, cover the buffer, are separated by single newline bytes, and
/// contain no newline themselves. Kept opaque so that carrying it through
/// contracts stays cheap; proofs that need its clauses reveal it.
#[verifier::opaque]
pub open spec fn lines_wf(bytes: Seq<u8>, lines: Seq<SourceLine>) -> bool {
    &&& (bytes.len() == 0 <==> lines.len() == 0)
    &&& forall|i: int| 0 <= i < lines.len() ==> (#[trigger] lines[i]).spec_index() == i
    &&& forall|i: int| 0 <= i < lines.len() ==> line_wf(bytes, #[trigger] lines[i])
    &&& (lines.len() > 0 ==> lines[0].spec_full_span().spec_start() == 0)
    &&& forall|i: int|
        0 <= i < lines.len() - 1 ==> {
            let e = (#[trigger] lines[i]).spec_full_span().spec_end() as int;
            &&& e < bytes.len()
            &&& bytes[e] == 0x0au8
            &&& lines[i + 1].spec_full_span().spec_start() == e + 1
        }
    &&& (lines.len() > 0 ==> {
        let e = lines[lines.len() - 1].spec_full_span().spec_end() as int;
        e == bytes.len() || (e == bytes.len() - 1 && bytes[e] == 0x0au8)
    })
    &&& forall|i: int|
        0 <= i < lines.len() ==> no_newline_in(
            bytes,
            (#[trigger] lines[i]).spec_full_span().spec_start() as int,
            lines[i].spec_full_span().spec_end() as int,
        )
}

/// A UTF-8 encoding never has fewer bytes than characters.
proof fn lemma_encode_len_ge(chars: Seq<char>)
    ensures
        encode_utf8(chars).len() >= chars.len(),
    decreases chars.len(),
{
    if chars.len() == 0 {
    } else {
        lemma_encode_len_ge(chars.drop_first());
        assert(vstd::utf8::encode_scalar(chars[0] as u32).len() >= 1);
    }
}

/// The byte right after an ASCII byte of a valid UTF-8 buffer falls on a
/// character boundary.
proof fn lemma_boundary_after_ascii(bytes: Seq<u8>, a: int)
    requires
        valid_utf8(bytes),
        1 <= a <= bytes.len(),
        bytes[a - 1] < 0x80,
    ensures
        is_char_boundary(bytes, a),
{
    assert(!vstd::utf8::is_continuation_byte(bytes[a - 1]));
    vstd::utf8::is_char_boundary_iff_not_is_continuation_byte(bytes, a - 1);
    if a == bytes.len() {
        vstd::utf8::is_char_boundary_start_end_of_seq(bytes);
    } else {
        vstd::utf8::valid_utf8_split(bytes, a - 1);
        let suffix = bytes.subrange(a - 1, bytes.len() as int);
        assert(valid_utf8(suffix));
        assert(suffix.len() >= 2);
        assert(vstd::utf8::valid_first_scalar(suffix));
        assert(vstd::utf8::is_leading_byte_width_1(suffix[0]));
        assert(vstd::utf8::length_of_first_scalar(suffix) == 1);
        let pop = vstd::utf8::pop_first_scalar(suffix);
        assert(valid_utf8(pop));
        assert(pop.len() >= 1);
        assert(vstd::utf8::valid_first_scalar(pop));
        assert(!vstd::utf8::is_continuation_byte(pop[0]));
        assert(pop[0] == bytes[a]);
        vstd::utf8::is_char_boundary_iff_not_is_continuation_byte(bytes, a);
    }
}

/// A character boundary of a buffer is one of any suffix of the buffer that
/// starts at a boundary.
proof fn lemma_boundary_in_suffix(bytes: Seq<u8>, a: int, b: int)
    requires
        valid_utf8(bytes),
        is_char_boundary(bytes, a),
        is_char_boundary(bytes, b),
        0 <= a <= b <= bytes.len(),
    ensures
        is_char_boundary(bytes.subrange(a, bytes.len() as int), b - a),
{
    vstd::utf8::valid_utf8_split(bytes, a);
    let suffix = bytes.subrange(a, bytes.len() as int);
    if b == bytes.len() {
        vstd::utf8::is_char_boundary_start_end_of_seq(suffix);
    } else if b == a {
        assert(is_char_boundary(suffix, 0));
    } else {
        vstd::utf8::is_char_boundary_iff_not_is_continuation_byte(bytes, b);
        assert(suffix[b - a] == bytes[b]);
        vstd::utf8::is_char_boundary_iff_not_is_continuation_byte(suffix, b - a);
    }
}

/// The spans of a well-formed line cut its buffer at character boundaries,
/// including the dedented start, and the text under the dedented span is
/// valid UTF-8.
pub proof fn lemma_line_boundaries(bytes: Seq<u8>, line: SourceLine)
    requires
        valid_utf8(bytes),
        line_wf(bytes, line),
    ensures
        is_char_boundary(bytes, line.spec_full_span().spec_start() as int),
        is_char_boundary(bytes, line.spec_full_span().spec_end() as int),
        is_char_boundary(bytes, line.spec_dedented_span().spec_start() as int),
        encode_utf8(line.spec_text()) == bytes.subrange(
            line.spec_dedented_span().spec_start() as int,
            line.spec_dedented_span().spec_end() as int,
        ),
{
    reveal(line_content_wf);
    let a = line.spec_full_span().spec_start() as int;
    let b = line.spec_full_span().spec_end() as int;
    let d = line.spec_dedented_span().spec_start() as int;
    broadcast use vstd::utf8::encode_utf8_valid_utf8;

    if d == bytes.len() {
        vstd::utf8::is_char_boundary_start_end_of_seq(bytes);
    } else if d == b {
        vstd::utf8::is_char_boundary_iff_not_is_continuation_byte(bytes, b);
        assert(is_char_boundary(bytes, b));
    } else {
        let tb = bytes.subrange(d, b);
        assert(valid_utf8(tb));
        assert(tb.len() > 0);
        assert(vstd::utf8::valid_first_scalar(tb));
        assert(!vstd::utf8::is_continuation_byte(tb[0]));
        assert(bytes[d] == tb[0]);
        vstd::utf8::is_char_boundary_iff_not_is_continuation_byte(bytes, d);
    }
}

/// A character boundary inside a window of a valid UTF-8 buffer, cut at
/// boundaries, is a boundary of the window.
pub proof fn lemma_boundary_in_window(bytes: Seq<u8>, d: int, e: int, p: int)
    requires
        valid_utf8(bytes),
        is_char_boundary(bytes, d),
        is_char_boundary(bytes, e),
        is_char_boundary(bytes, p),
        0 <= d <= p <= e <= bytes.len(),
    ensures
        valid_utf8(bytes.subrange(d, e)),
        is_char_boundary(bytes.subrange(d, e), p - d),
{
    vstd::utf8::valid_utf8_split(bytes, d);
    let suffix = bytes.subrange(d, bytes.len() as int);
    lemma_boundary_in_suffix(bytes, d, e, );
    lemma_boundary_in_suffix(bytes, d, p, );
    vstd::utf8::valid_utf8_split(suffix, e - d);
    assert(bytes.subrange(d, e) =~= suffix.subrange(0, e - d));
    let win = suffix.subrange(0, e - d);
    if p == e {
        vstd::utf8::is_char_boundary_start_end_of_seq(win);
    } else if p == d {
        assert(is_char_boundary(win, 0));
    } else {
        vstd::utf8::is_char_boundary_iff_not_is_continuation_byte(suffix, p - d);
        assert(win[p - d] == suffix[p - d]);
        vstd::utf8::is_char_boundary_iff_not_is_continuation_byte(win, p - d);
    }
}

/// A source of text to use with a diagnostic.
#[derive(Debug)]
pub struct Source {
    src: String,
    name: Option<String>,
    lines: Vec<SourceLine>,
}

impl Source {
    /// The text of this source, as seen by contracts.
    pub closed spec fn spec_src(self) -> Seq<char> {
        self.src@
    }

    /// The UTF-8 bytes of this source; label spans index into these.
    pub open spec fn bytes(self) -> Seq<u8> {
        encode_utf8(self.spec_src())
    }

    /// The name of this source, as seen by contracts.
    pub closed spec fn spec_name(self) -> Option<Seq<char>> {
        match self.name {
            Some(n) => Some(n@),
            None => None,
        }
    }

    /// The line table of this source, as seen by contracts.
    pub closed spec fn spec_lines(self) -> Seq<SourceLine> {
        self.lines@
    }

    /// A well-formed source carries a line table that describes exactly its
    /// own bytes, and is small enough that spans and widths cannot overflow.
    pub open spec fn wf(self) -> bool {
        &&& lines_wf(self.bytes(), self.spec_lines())
        &&& self.bytes().len() < u32::MAX
        &&& 4 * self.spec_src().len() <= usize::MAX
        &&& 4 * self.bytes().len() <= usize::MAX
    }
}

/// Builds the source line holding the byte range `[start, end)`, whose bounds
/// must sit just after and on a line break (or at the buffer's ends).
fn make_line(src: &str, start: usize, end: usize, index: usize) -> (line: SourceLine)
    requires
        start <= end <= src.spec_bytes().len(),
        src.spec_bytes().len() < u32::MAX,
        4 * src@.len() <= usize::MAX,
        start == 0 || src.spec_bytes()[start - 1] == 0x0au8,
        end == src.spec_bytes().len() || src.spec_bytes()[end as int] == 0x0au8,
    ensures
        line.spec_index() == index,
        line.spec_full_span().spec_start() == start,
        line.spec_full_span().spec_end() == end,
        line_wf(src.spec_bytes(), line),
{
    broadcast use vstd::utf8::encode_utf8_valid_utf8;
    broadcast use vstd::utf8::encode_utf8_decode_utf8;
    broadcast use vstd::utf8::decode_utf8_encode_utf8;

    let ghost bytes = src.spec_bytes();
    let ghost n = bytes.len() as int;
    proof {
        assert(valid_utf8(bytes));
        if start == 0 {
            assert(is_char_boundary(bytes, 0));
        } else {
            lemma_boundary_after_ascii(bytes, start as int);
        }
        if end == bytes.len() {
            vstd::utf8::is_char_boundary_start_end_of_seq(bytes);
        } else {
            assert(!vstd::utf8::is_continuation_byte(bytes[end as int]));
            vstd::utf8::is_char_boundary_iff_not_is_continuation_byte(bytes, end as int);
        }
        lemma_boundary_in_suffix(bytes, start as int, end as int);
        vstd::utf8::valid_utf8_split(bytes, start as int);
    }
    let (_, tail) = src.split_at(start);
    let ghost suffix = bytes.subrange(start as int, n);
    proof {
        assert(tail.spec_bytes() =~= suffix);
        vstd::utf8::valid_utf8_split(suffix, end - start);
        assert(suffix.subrange(0, end - start) =~= bytes.subrange(start as int, end as int));
    }
    let line_str = tail.split_at(end - start).0;
    let ghost lbytes = bytes.subrange(start as int, end as int);
    proof {
        assert(line_str.spec_bytes() =~= lbytes);
        assert(valid_utf8(lbytes));
        assert(decode_utf8(line_str.spec_bytes()) == line_str@);
        assert(line_str@ == decode_utf8(lbytes));
        // The line's characters are no more than the whole source's.
        vstd::utf8::decode_utf8_split(bytes, start as int);
        vstd::utf8::decode_utf8_split(suffix, end - start);
        assert(decode_utf8(bytes) == src@);
        assert(decode_utf8(suffix) == decode_utf8(lbytes) + decode_utf8(
            suffix.subrange(end - start, suffix.len() as int),
        ));
        assert(decode_utf8(lbytes).len() <= src@.len());
        lemma_encode_len_ge(line_str@);
    }
    let (doff, width, rest) = dedent(line_str);
    proof {
        assert(rest.spec_bytes() =~= lbytes.subrange(doff as int, lbytes.len() as int));
        assert(lbytes.subrange(doff as int, lbytes.len() as int) =~= bytes.subrange(
            start + doff,
            end as int,
        ));
        assert(encode_utf8(rest@) == bytes.subrange(start + doff, end as int));
    }
    let text = rest.to_owned();
    let line = SourceLine {
        index,
        indent_size: width,
        full_span: SourceSpan::new(start as u32, end as u32),
        dedented_span: SourceSpan::new((start + doff) as u32, end as u32),
        text,
    };
    proof {
        reveal(line_content_wf);
        lemma_encode_len_ge(line.spec_text());
        assert(line_content_wf(bytes, line));
    }
    line
}

/// The line table built so far while scanning a source: every finished line
/// ends on a newline byte, and the next line will start at `start`.
spec fn lines_partial_wf(bytes: Seq<u8>, lines: Seq<SourceLine>, start: int) -> bool {
    &&& forall|i: int| 0 <= i < lines.len() ==> (#[trigger] lines[i]).spec_index() == i
    &&& forall|i: int| 0 <= i < lines.len() ==> line_wf(bytes, #[trigger] lines[i])
    &&& (lines.len() == 0 <==> start == 0)
    &&& (lines.len() > 0 ==> lines[0].spec_full_span().spec_start() == 0)
    &&& forall|i: int|
        0 <= i < lines.len() - 1 ==> {
            let e = (#[trigger] lines[i]).spec_full_span().spec_end() as int;
            &&& e < bytes.len()
            &&& bytes[e] == 0x0au8
            &&& lines[i + 1].spec_full_span().spec_start() == e + 1
        }
    &&& (lines.len() > 0 ==> {
        let e = lines[lines.len() - 1].spec_full_span().spec_end() as int;
        &&& e == start - 1
        &&& e < bytes.len()
        &&& bytes[e] == 0x0au8
    })
    &&& forall|i: int|
        0 <= i < lines.len() ==> no_newline_in(
            bytes,
            (#[trigger] lines[i]).spec_full_span().spec_start() as int,
            lines[i].spec_full_span().spec_end() as int,
        )
}

impl Source {
    /// Creates a new `Source`, splitting the text into indexed, dedented
    /// lines in one pass. The text must be small enough for byte offsets to
    /// fit the span type and for display widths not to overflow.
    pub fn new(src: &str, name: Option<&str>) -> (r: Self)
        requires
            src.spec_bytes().len() < u32::MAX,
            4 * src@.len() <= usize::MAX,
            4 * src.spec_bytes().len() <= usize::MAX,
        ensures
            r.wf(),
            r.spec_src() == src@,
            r.spec_name() == match name {
                Some(n) => Some(n@),
                None => None::<Seq<char>>,
            },
    {
        let ghost bytes_g = src.spec_bytes();
        let bytes = src.as_bytes();
        let nb = bytes.len();
        let mut lines: Vec<SourceLine> = Vec::new();
        let mut start: usize = 0;
        let mut i: usize = 0;
        while i < nb
            invariant
                bytes@ == src.spec_bytes(),
                nb == bytes@.len(),
                nb < u32::MAX,
                4 * src@.len() <= usize::MAX,
                0 <= start <= i <= nb,
                start == 0 || bytes@[start - 1] == 0x0au8,
                forall|j: int| start <= j < i ==> bytes@[j] != 0x0au8,
                lines_partial_wf(bytes@, lines@, start as int),
            decreases nb - i,
        {
            if bytes[i] == 0x0au8 {
                let line = make_line(src, start, i, lines.len());
                lines.push(line);
                start = i + 1;
            }
            i += 1;
        }
        if start < nb {
            let line = make_line(src, start, nb, lines.len());
            lines.push(line);
        }
        proof {
            reveal(lines_wf);
            assert(lines_wf(bytes_g, lines@));
        }
        let name_owned = match name {
            Some(n) => Some(n.to_owned()),
            None => None,
        };
        Source { src: src.to_owned(), name: name_owned, lines }
    }

    /// The text of this source.
    pub fn src(&self) -> (r: &str)
        ensures
            r@ == self.spec_src(),
    {
        self.src.as_str()
    }

    /// The name of this source, if any.
    pub fn name(&self) -> (r: Option<&str>)
        ensures
            match r {
                Some(n) => self.spec_name() == Some(n@),
                None => self.spec_name() is None,
            },
    {
        match &self.name {
            Some(n) => Some(n.as_str()),
            None => None,
        }
    }

    /// One line of this source, by index.
    pub fn line(&self, i: usize) -> (r: &SourceLine)
        requires
            i < self.spec_lines().len(),
        ensures
            *r == self.spec_lines()[i as int],
    {
        &self.lines[i]
    }

    /// The lines of this source.
    pub fn lines(&self) -> (r: &[SourceLine])
        ensures
            r@ == self.spec_lines(),
    {
        self.lines.as_slice()
    }

    /// Whether `k` is the index of the line addressed by byte offset `off`:
    /// the line whose full span starts latest among those starting at or
    /// before `off`.
    pub open spec fn line_at(self, k: int, off: int) -> bool {
        &&& 0 <= k < self.spec_lines().len()
        &&& self.spec_lines()[k].spec_full_span().spec_start() <= off
        &&& (k + 1 < self.spec_lines().len()
            ==> self.spec_lines()[k + 1].spec_full_span().spec_start() > off)
    }

    /// Returns the line index at a given byte index.
    pub fn line_index_at(&self, index: usize) -> (r: Option<usize>)
        requires
            self.wf(),
        ensures
            r is None <==> (index > self.bytes().len() || self.spec_lines().len() == 0),
            match r {
                Some(k) => self.line_at(k as int, index as int),
                None => true,
            },
    {
        if index > self.src.as_str().len() {
            return None;
        }
        let n = self.lines.len();
        if n == 0 {
            return None;
        }
        proof {
            reveal(lines_wf);
            lemma_starts_increasing(self.bytes(), self.spec_lines());
        }
        let mut lo: usize = 0;
        let mut hi: usize = n;
        while lo < hi
            invariant
                self.wf(),
                n == self.spec_lines().len(),
                0 <= lo <= hi <= n,
                forall|j: int|
                    0 <= j < lo
                        ==> (#[trigger] self.spec_lines()[j]).spec_full_span().spec_start()
                        <= index,
                forall|j: int|
                    hi <= j < n
                        ==> (#[trigger] self.spec_lines()[j]).spec_full_span().spec_start()
                        > index,
                forall|i: int, j: int|
                    0 <= i < j < n ==> (#[trigger] self.spec_lines()[i]).spec_full_span().spec_start()
                        < (#[trigger] self.spec_lines()[j]).spec_full_span().spec_start(),
            decreases hi - lo,
        {
            let mid = lo + (hi - lo) / 2;
            if (self.lines[mid].full_span.start as usize) <= index {
                lo = mid + 1;
            } else {
                hi = mid;
            }
        }
        if lo == 0 {
            proof {
                reveal(lines_wf);
                assert(self.spec_lines()[0].spec_full_span().spec_start() == 0);
            }
            return None;
        }
        Some(lo - 1)
    }

    /// The index of the line addressed by a byte offset: the line whose
    /// full span starts latest among those starting at or before it.
    pub open spec fn spec_line_of(self, off: int) -> int {
        choose|k: int| self.line_at(k, off)
    }

    /// The byte offset that decides which line a span's end falls on: the
    /// last byte of the span, or its start where the span is empty.
    pub open spec fn spec_effective_end(span: SourceSpan) -> int {
        if span.spec_end() > span.spec_start() {
            span.spec_end() - 1
        } else {
            span.spec_start() as int
        }
    }

    /// Returns the line range of a span in this source: the index of the line
    /// holding the span's first byte, and one past the index of the line
    /// holding its last byte.
    #[verifier::rlimit(100)]
    pub fn line_range_of_span(&self, span: SourceSpan) -> (r: Option<(usize, usize)>)
        requires
            self.wf(),
            span.wf(),
        ensures
            r is None <==> (self.spec_lines().len() == 0 || Self::spec_effective_end(span)
                > self.bytes().len()),
            match r {
                Some(p) => {
                    &&& self.line_at(p.0 as int, span.spec_start() as int)
                    &&& 0 < p.1 <= self.spec_lines().len()
                    &&& self.line_at(p.1 - 1, Self::spec_effective_end(span))
                    &&& p.0 < p.1
                },
                None => true,
            },
    {
        let eff_end = if span.end() > span.start() {
            span.end() - 1
        } else {
            span.start()
        };
        let first = match self.line_index_at(span.start() as usize) {
            Some(k) => k,
            None => {
                return None;
            },
        };
        let last = match self.line_index_at(eff_end as usize) {
            Some(k) => k,
            None => {
                return None;
            },
        };
        let nl = self.lines.len();
        proof {
            assert((last as int) < self.spec_lines().len());
            assert(self.spec_lines().len() == nl);
            lemma_range_order(
                self.bytes(),
                self.spec_lines(),
                first as int,
                last as int,
                span.spec_start() as int,
                eff_end as int,
            );
        }
        Some((first, last + 1))
    }
}

/// The line addressed by an earlier offset never lies after the line
/// addressed by a later one.
proof fn lemma_range_order(
    bytes: Seq<u8>,
    lines: Seq<SourceLine>,
    first: int,
    last: int,
    s_off: int,
    e_off: int,
)
    requires
        lines_wf(bytes, lines),
        s_off <= e_off,
        0 <= first < lines.len(),
        0 <= last < lines.len(),
        lines[first].spec_full_span().spec_start() <= s_off,
        last + 1 < lines.len() ==> lines[last + 1].spec_full_span().spec_start() > e_off,
    ensures
        first <= last,
{
    reveal(lines_wf);
    if first > last {
        assert(lines[last + 1].spec_full_span().spec_start() > e_off);
        if last + 1 < first {
            lemma_start_lt(bytes, lines, last + 1, first);
        }
        assert(false);
    }
}

/// In a well-formed line table, line starts increase strictly with the line
/// index.
proof fn lemma_starts_increasing(bytes: Seq<u8>, lines: Seq<SourceLine>)
    requires
        lines_wf(bytes, lines),
    ensures
        forall|i: int, j: int|
            0 <= i < j < lines.len() ==> (#[trigger] lines[i]).spec_full_span().spec_start()
                < (#[trigger] lines[j]).spec_full_span().spec_start(),
{
    assert forall|i: int, j: int|
        0 <= i < j < lines.len() implies (#[trigger] lines[i]).spec_full_span().spec_start()
        < (#[trigger] lines[j]).spec_full_span().spec_start() by {
        lemma_start_lt(bytes, lines, i, j);
    }
}

proof fn lemma_start_lt(bytes: Seq<u8>, lines: Seq<SourceLine>, i: int, j: int)
    requires
        lines_wf(bytes, lines),
        0 <= i < j < lines.len(),
    ensures
        lines[i].spec_full_span().spec_start() < lines[j].spec_full_span().spec_start(),
    decreases j - i,
{
    reveal(lines_wf);
    assert(line_wf(bytes, lines[i]));
    assert(lines[i + 1].spec_full_span().spec_start() == lines[i].spec_full_span().spec_end()
        + 1);
    if i + 1 < j {
        lemma_start_lt(bytes, lines, i + 1, j);
    }
}

/// A byte offset addressed to line `k` and not holding a line break lies
/// strictly inside that line's full span.
pub proof fn lemma_line_at_contains(src: Source, k: int, off: int)
    requires
        src.wf(),
        src.line_at(k, off),
        0 <= off < src.bytes().len(),
        src.bytes()[off] != 0x0au8,
    ensures
        src.spec_lines()[k].spec_full_span().spec_start() <= off,
        off < src.spec_lines()[k].spec_full_span().spec_end(),
{
    reveal(lines_wf);
    let lines = src.spec_lines();
    let bytes = src.bytes();
    let e = lines[k].spec_full_span().spec_end() as int;
    if k < lines.len() - 1 {
        assert(lines[k + 1].spec_full_span().spec_start() == e + 1);
        assert(off <= e);
        if off == e {
            assert(bytes[e] == 0x0au8);
        }
    } else {
        assert(e == bytes.len() || (e == bytes.len() - 1 && bytes[e] == 0x0au8));
        if off == e {
            assert(bytes[e] == 0x0au8);
        }
        assert(off <= bytes.len() - 1);
        if off > e {
            assert(e == bytes.len() - 1 && bytes[e] == 0x0au8);
            assert(off >= bytes.len());
        }
    }
}

/// The lines bracketing a span's line range contain the span's first byte and
/// its last byte (its start, for an empty span), whenever neither byte is a
/// line break. The hypotheses on `first` and `lastp1` are what
/// `line_range_of_span` ensures of a range it returns.
pub proof fn lemma_line_range_of_span_bounds(
    src: Source,
    span: SourceSpan,
    first: int,
    lastp1: int,
)
    requires
        src.wf(),
        span.wf(),
        src.line_at(first, span.spec_start() as int),
        src.line_at(lastp1 - 1, Source::spec_effective_end(span)),
        span.spec_start() < src.bytes().len(),
        Source::spec_effective_end(span) < src.bytes().len(),
        src.bytes()[span.spec_start() as int] != 0x0au8,
        src.bytes()[Source::spec_effective_end(span)] != 0x0au8,
    ensures
        src.spec_lines()[first].spec_full_span().spec_start() <= span.spec_start()
            < src.spec_lines()[first].spec_full_span().spec_end(),
        src.spec_lines()[lastp1 - 1].spec_full_span().spec_start() <= Source::spec_effective_end(
            span,
        ) < src.spec_lines()[lastp1 - 1].spec_full_span().spec_end(),
{
    lemma_line_at_contains(src, first, span.spec_start() as int);
    lemma_line_at_contains(src, lastp1 - 1, Source::spec_effective_end(span));
}

/// At most one line is addressed by any byte offset.
pub proof fn lemma_line_at_unique(src: Source, k1: int, k2: int, off: int)
    requires
        src.wf(),
        src.line_at(k1, off),
        src.line_at(k2, off),
    ensures
        k1 == k2,
{
    let ls = src.spec_lines();
    if k1 < k2 {
        assert(ls[k1 + 1].spec_full_span().spec_start() > off);
        if k1 + 1 < k2 {
            lemma_start_lt(src.bytes(), ls, k1 + 1, k2);
        }
        assert(false);
    }
    if k2 < k1 {
        assert(ls[k2 + 1].spec_full_span().spec_start() > off);
        if k2 + 1 < k1 {
            lemma_start_lt(src.bytes(), ls, k2 + 1, k1);
        }
        assert(false);
    }
}

/// `spec_line_of` agrees with any witness of `line_at`.
pub proof fn lemma_spec_line_of(src: Source, k: int, off: int)
    requires
        src.wf(),
        src.line_at(k, off),
    ensures
        src.spec_line_of(off) == k,
{
    let kk = src.spec_line_of(off);
    assert(exists|j: int| src.line_at(j, off)) by {
        assert(src.line_at(k, off));
    }
    assert(src.line_at(kk, off));
    lemma_line_at_unique(src, kk, k, off);
}

/// Every line of a well-formed source sits at its own index and is well
/// formed against the source's bytes.
pub proof fn lemma_lines_index(src: Source, k: int)
    requires
        src.wf(),
        0 <= k < src.spec_lines().len(),
    ensures
        src.spec_lines()[k].spec_index() == k,
        line_wf(src.bytes(), src.spec_lines()[k]),
{
    reveal(lines_wf);
}

/// A line's start offset is at least its index: line starts grow by at
/// least one per line.
pub proof fn lemma_line_index_bound(src: Source, k: int)
    requires
        src.wf(),
        0 <= k < src.spec_lines().len(),
    ensures
        k <= src.spec_lines()[k].spec_full_span().spec_start(),
        src.spec_lines()[k].spec_index() < u32::MAX,
    decreases k,
{
    reveal(lines_wf);
    if k > 0 {
        lemma_line_index_bound(src, k - 1);
        assert(src.spec_lines()[k].spec_full_span().spec_start() == src.spec_lines()[k
            - 1].spec_full_span().spec_end() + 1);
    }
    assert(src.spec_lines()[k].spec_index() == k);
    assert(src.spec_lines()[k].spec_full_span().spec_start() <= src.bytes().len());
}

/// Every byte offset is addressed to some line of a non-empty source, and
/// `spec_line_of` names it.
pub proof fn lemma_line_at_exists(src: Source, off: int)
    requires
        src.wf(),
        src.spec_lines().len() > 0,
        0 <= off,
    ensures
        src.line_at(src.spec_line_of(off), off),
{
    lemma_line_at_exists_upto(src, off, src.spec_lines().len() as int);
    let k = choose|k: int|
        0 <= k < src.spec_lines().len() && (
        #[trigger] src.spec_lines()[k]).spec_full_span().spec_start() <= off && (k + 1
            < src.spec_lines().len() ==> src.spec_lines()[k + 1].spec_full_span().spec_start()
            > off);
    assert(src.line_at(k, off));
    assert(src.line_at(src.spec_line_of(off), off));
}

proof fn lemma_line_at_exists_upto(src: Source, off: int, n: int)
    requires
        src.wf(),
        1 <= n <= src.spec_lines().len(),
        0 <= off,
    ensures
        exists|k: int|
            0 <= k < n && (#[trigger] src.spec_lines()[k]).spec_full_span().spec_start() <= off
                && (k + 1 < n ==> src.spec_lines()[k + 1].spec_full_span().spec_start() > off),
    decreases n,
{
    reveal(lines_wf);
    let lines = src.spec_lines();
    if n == 1 {
        assert(lines[0].spec_full_span().spec_start() == 0);
    } else {
        lemma_line_at_exists_upto(src, off, n - 1);
        let k = choose|k: int|
            0 <= k < n - 1 && (#[trigger] lines[k]).spec_full_span().spec_start() <= off && (k
                + 1 < n - 1 ==> lines[k + 1].spec_full_span().spec_start() > off);
        if lines[n - 1].spec_full_span().spec_start() <= off {
            assert(0 <= n - 1 < n && lines[n - 1].spec_full_span().spec_start() <= off && (n
                < n ==> lines[n].spec_full_span().spec_start() > off));
        } else {
            assert(0 <= k < n && lines[k].spec_full_span().spec_start() <= off && (k + 1 < n
                ==> lines[k + 1].spec_full_span().spec_start() > off));
        }
    }
}

/// The line addressed by a byte offset never precedes the line addressed by
/// a smaller one.
pub proof fn lemma_line_of_mono(src: Source, o1: int, o2: int)
    requires
        src.wf(),
        src.spec_lines().len() > 0,
        0 <= o1 <= o2,
    ensures
        src.spec_line_of(o1) <= src.spec_line_of(o2),
{
    lemma_line_at_exists(src, o1);
    lemma_line_at_exists(src, o2);
    let k1 = src.spec_line_of(o1);
    let k2 = src.spec_line_of(o2);
    if k1 > k2 {
        assert(src.spec_lines()[k2 + 1].spec_full_span().spec_start() > o2);
        if k2 + 1 < k1 {
            lemma_start_lt(src.bytes(), src.spec_lines(), k2 + 1, k1);
        }
        assert(src.spec_lines()[k1].spec_full_span().spec_start() <= o1);
        assert(false);
    }
}

} // verus!
