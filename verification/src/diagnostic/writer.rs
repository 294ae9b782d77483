//! The slot allocator and renderer: walks the chunk stream, assigns
//! rendering lanes to active multi-line labels, and emits the body rows.
//! Every row is pinned by a spec-level counterpart, so the whole body text
//! is a function of the descriptor and the configuration alone.

use crate::diagnostic::body::BodyChunk;
use crate::diagnostic::body::BodyDescriptor;
use crate::diagnostic::config::Charset;
use crate::diagnostic::config::Config;
use crate::diagnostic::config::DefaultStyles;
use crate::diagnostic::config::Style;
use crate::diagnostic::fmt::dec_digits;
use crate::diagnostic::fmt::pad_left;
use crate::diagnostic::fmt::repeat_char;
use crate::diagnostic::fmt::spaces;
use crate::diagnostic::fmt::styled;
use crate::diagnostic::Label;
use crate::source::SourceLine;
use vstd::prelude::*;
use vstd::string::StringSliceAdditionalSpecFns;
use vstd::utf8::decode_utf8;
use vstd::utf8::encode_utf8;

verus! {

/// A rendering lane occupied by one active multi-line label.
#[derive(Debug)]
pub struct ActiveMultiline {
    /// The label's identifier from the event builder.
    pub label_id: usize,
    /// The label itself.
    pub label: Label,
    /// Whether the label started on the chunk being rendered and has not
    /// drawn its start glyph yet.
    pub recently_added: bool,
}

/// The style a lane is drawn with: the label's own indicator style, or the
/// configured default.
pub open spec fn am_style(a: ActiveMultiline, styles: DefaultStyles) -> Style {
    match a.label.indicator_style {
        Some(s) => s,
        None => styles.multiline_indicator,
    }
}

/// The style a single-line underline is drawn with.
pub open spec fn single_style(label: Label, styles: DefaultStyles) -> Style {
    match label.indicator_style {
        Some(s) => s,
        None => styles.singleline_indicator,
    }
}

/// The index of the first empty slot, or the slot count when all are full.
pub open spec fn spec_first_free(s: Seq<Option<ActiveMultiline>>) -> int
    decreases s.len(),
{
    if s.len() == 0 {
        0
    } else if s[0] is None {
        0
    } else {
        1 + spec_first_free(s.drop_first())
    }
}

/// Placing one label into the first empty slot; a full slot table grows by
/// one lane.
pub open spec fn spec_alloc(s: Seq<Option<ActiveMultiline>>, a: ActiveMultiline) -> Seq<
    Option<ActiveMultiline>,
> {
    if spec_first_free(s) < s.len() {
        s.update(spec_first_free(s), Some(a))
    } else {
        s.push(Some(a))
    }
}

/// Opening the starting labels of a chunk, in identifier order.
pub open spec fn spec_start_labels(
    s: Seq<Option<ActiveMultiline>>,
    ls: Seq<Label>,
    nid: int,
) -> Seq<Option<ActiveMultiline>>
    decreases ls.len(),
{
    if ls.len() == 0 {
        s
    } else {
        spec_start_labels(
            spec_alloc(
                s,
                ActiveMultiline { label_id: nid as usize, label: ls[0], recently_added: true },
            ),
            ls.drop_first(),
            nid + 1,
        )
    }
}

/// All start glyphs drawn: every occupied lane loses its recently-added
/// mark.
pub open spec fn clear_flags(s: Seq<Option<ActiveMultiline>>) -> Seq<Option<ActiveMultiline>> {
    s.map_values(
        |o: Option<ActiveMultiline>|
            match o {
                Some(a) => Some(
                    ActiveMultiline {
                        label_id: a.label_id,
                        label: a.label,
                        recently_added: false,
                    },
                ),
                None => None,
            },
    )
}

/// The lane glyph columns from slot `j` on: two blanks for an empty lane; a
/// start corner, an end corner or a vertical bar and a blank for an occupied
/// one.
pub open spec fn lane_seq(
    s: Seq<Option<ActiveMultiline>>,
    cs: Charset,
    styles: DefaultStyles,
    fin: Seq<usize>,
    j: int,
) -> Seq<char>
    decreases s.len() - j,
{
    if j < 0 || j >= s.len() {
        Seq::<char>::empty()
    } else {
        (match s[j] {
            None => "  "@,
            Some(a) => styled(
                am_style(a, styles),
                seq![
                    if a.recently_added {
                        cs.multiline_start
                    } else if fin.contains(a.label_id) {
                        cs.multiline_end
                    } else {
                        cs.vertical_bar
                    },
                ],
            ) + " "@,
        }) + lane_seq(s, cs, styles, fin, j + 1)
    }
}

/// The left column of a row: the right-aligned one-based line number and a
/// vertical bar for a source row, blanks and the separator for other rows.
pub open spec fn left_col(cfg: Config, w: int, idx: Option<int>) -> Seq<char> {
    match idx {
        Some(i) => styled(cfg.styles.left_column, pad_left(dec_digits(i + 1), w)) + " "@
            + styled(cfg.styles.left_column, seq![cfg.charset.vertical_bar]) + " "@,
        None => spaces(w) + " "@ + styled(cfg.styles.left_column, seq![cfg.charset.separator])
            + " "@,
    }
}

/// The rendered left margin of a chunk's line: its indent less the shared
/// trim, and nothing for an empty line.
pub open spec fn margin_of(chunk: crate::diagnostic::body::ChunkModel, trim: int) -> int {
    if chunk.line.spec_text().len() == 0 {
        0
    } else {
        chunk.line.spec_indent_size() - trim
    }
}

/// The source row of a chunk: left column, lane glyphs, margin, then the
/// dedented line text.
pub open spec fn source_row(
    chunk: crate::diagnostic::body::ChunkModel,
    s1: Seq<Option<ActiveMultiline>>,
    cfg: Config,
    w: int,
    trim: int,
) -> Seq<char> {
    left_col(cfg, w, Some(chunk.line.spec_index() as int)) + lane_seq(
        s1,
        cfg.charset,
        cfg.styles,
        chunk.fins,
        0,
    ) + spaces(margin_of(chunk, trim)) + styled(cfg.styles.source, chunk.line.spec_text())
        + "\n"@
}

/// The UTF-8 bytes of a line's dedented text.
pub open spec fn text_bytes(line: SourceLine) -> Seq<u8> {
    encode_utf8(line.spec_text())
}

/// The byte offset of a label's underline within its line's text.
pub open spec fn under_a(line: SourceLine, label: Label) -> int {
    label.span.spec_start() - line.spec_dedented_span().spec_start()
}

/// The byte offset one past a label's underline within its line's text: the
/// span's end, clamped to the line's end.
pub open spec fn under_b(line: SourceLine, label: Label) -> int {
    crate::source::spec_min(
        label.span.spec_end() as int,
        line.spec_dedented_span().spec_end() as int,
    ) - line.spec_dedented_span().spec_start()
}

/// The characters under a byte range of a line's text.
pub open spec fn slice_chars(line: SourceLine, a: int, b: int) -> Seq<char> {
    decode_utf8(text_bytes(line).subrange(a, b))
}

/// The underline row of one single-line label: left column, lane glyphs,
/// margin, spaces as wide as the text before the span, the underline as wide
/// as the text within it, then the label's message.
pub open spec fn single_row(
    chunk: crate::diagnostic::body::ChunkModel,
    label: Label,
    s2: Seq<Option<ActiveMultiline>>,
    cfg: Config,
    w: int,
    trim: int,
) -> Seq<char> {
    let line = chunk.line;
    let st = single_style(label, cfg.styles);
    let before_w = crate::text::display_width_of(slice_chars(line, 0, under_a(line, label)));
    let under_w = crate::text::display_width_of(
        slice_chars(line, under_a(line, label), under_b(line, label)),
    );
    left_col(cfg, w, None::<int>) + lane_seq(
        s2,
        cfg.charset,
        cfg.styles,
        chunk.fins,
        0,
    ) + spaces(margin_of(chunk, trim)) + styled(
        st,
        spaces(before_w as int) + repeat_char(cfg.charset.underliner, under_w as int),
    ) + " "@ + styled(st, label.message@) + "\n"@
}

/// The underline rows for a chunk's single-line labels, from index `i` on.
pub open spec fn single_rows(
    chunk: crate::diagnostic::body::ChunkModel,
    s2: Seq<Option<ActiveMultiline>>,
    cfg: Config,
    w: int,
    trim: int,
    i: int,
) -> Seq<char>
    decreases chunk.singles.len() - i,
{
    if i < 0 || i >= chunk.singles.len() {
        Seq::<char>::empty()
    } else {
        single_row(chunk, chunk.singles[i], s2, cfg, w, trim) + single_rows(
            chunk,
            s2,
            cfg,
            w,
            trim,
            i + 1,
        )
    }
}

/// The lanes left of a closing corner: a vertical bar for an occupied slot,
/// blanks for an empty one.
pub open spec fn close_left(
    s: Seq<Option<ActiveMultiline>>,
    cs: Charset,
    styles: DefaultStyles,
    j: int,
    upto: int,
) -> Seq<char>
    decreases upto - j,
{
    if j < 0 || j >= upto {
        Seq::<char>::empty()
    } else {
        (match s[j] {
            None => "  "@,
            Some(a) => styled(am_style(a, styles), seq![cs.vertical_bar]) + " "@,
        }) + close_left(s, cs, styles, j + 1, upto)
    }
}

/// The lanes right of a closing corner: a crossing glyph where a lane is
/// still active, horizontal filler where it is not, the rule continuing in
/// between.
pub open spec fn close_right(
    s: Seq<Option<ActiveMultiline>>,
    cs: Charset,
    styles: DefaultStyles,
    stc: Style,
    j: int,
) -> Seq<char>
    decreases s.len() - j,
{
    if j < 0 || j >= s.len() {
        Seq::<char>::empty()
    } else {
        (match s[j] {
            None => styled(stc, seq![cs.horizontal_bar, cs.horizontal_bar]),
            Some(a) => styled(am_style(a, styles), seq![cs.multiline_crossing]) + styled(
                stc,
                seq![cs.horizontal_bar],
            ),
        }) + close_right(s, cs, styles, stc, j + 1)
    }
}

/// The length of the horizontal rule a closing row extends under the source
/// line: the rendered margin plus the line text's display width.
pub open spec fn rule_len(chunk: crate::diagnostic::body::ChunkModel, trim: int) -> int {
    margin_of(chunk, trim) + crate::text::display_width_of(chunk.line.spec_text())
}

/// The closing row of the multi-line label occupying slot `j`: left column,
/// bars over the slots left of it, the corner, crossings or filler to the
/// right, a rule under the source line, then the label's message.
pub open spec fn close_row(
    s: Seq<Option<ActiveMultiline>>,
    j: int,
    a: ActiveMultiline,
    chunk: crate::diagnostic::body::ChunkModel,
    cfg: Config,
    w: int,
    trim: int,
) -> Seq<char> {
    let stc = am_style(a, cfg.styles);
    left_col(cfg, w, None::<int>) + close_left(s, cfg.charset, cfg.styles, 0, j) + styled(
        stc,
        seq![cfg.charset.connection_top_to_right, cfg.charset.horizontal_bar],
    ) + close_right(s, cfg.charset, cfg.styles, stc, j + 1) + styled(
        stc,
        repeat_char(cfg.charset.horizontal_bar, rule_len(chunk, trim)),
    ) + " "@ + styled(stc, a.label.message@) + "\n"@
}

/// The closing rows of a chunk, in ascending slot order; each closing frees
/// its slot before the next row is drawn.
pub open spec fn closing_rows(
    s: Seq<Option<ActiveMultiline>>,
    fin: Seq<usize>,
    chunk: crate::diagnostic::body::ChunkModel,
    cfg: Config,
    w: int,
    trim: int,
    j: int,
) -> Seq<char>
    decreases s.len() - j,
{
    if j < 0 || j >= s.len() {
        Seq::<char>::empty()
    } else {
        match s[j] {
            Some(a) => if fin.contains(a.label_id) {
                close_row(s, j, a, chunk, cfg, w, trim) + closing_rows(
                    s.update(j, None),
                    fin,
                    chunk,
                    cfg,
                    w,
                    trim,
                    j + 1,
                )
            } else {
                closing_rows(s, fin, chunk, cfg, w, trim, j + 1)
            },
            None => closing_rows(s, fin, chunk, cfg, w, trim, j + 1),
        }
    }
}

/// The slot table after a chunk's closings: every lane whose label finished
/// there is freed.
pub open spec fn slots_closed(s: Seq<Option<ActiveMultiline>>, fin: Seq<usize>, j: int) -> Seq<
    Option<ActiveMultiline>,
>
    decreases s.len() - j,
{
    if j < 0 || j >= s.len() {
        s
    } else {
        match s[j] {
            Some(a) => if fin.contains(a.label_id) {
                slots_closed(s.update(j, None), fin, j + 1)
            } else {
                slots_closed(s, fin, j + 1)
            },
            None => slots_closed(s, fin, j + 1),
        }
    }
}

/// All rows of one chunk: its starting labels are opened, the source row
/// and the underline rows are drawn, then its finishing labels close.
pub open spec fn chunk_rows(
    chunk: crate::diagnostic::body::ChunkModel,
    s0: Seq<Option<ActiveMultiline>>,
    nid: int,
    cfg: Config,
    w: int,
    trim: int,
) -> Seq<char> {
    let s1 = spec_start_labels(s0, chunk.starts, nid);
    let s2 = clear_flags(s1);
    source_row(chunk, s1, cfg, w, trim) + single_rows(chunk, s2, cfg, w, trim, 0)
        + closing_rows(s2, chunk.fins, chunk, cfg, w, trim, 0)
}

/// The slot table handed to the next chunk.
pub open spec fn chunk_slots_after(
    chunk: crate::diagnostic::body::ChunkModel,
    s0: Seq<Option<ActiveMultiline>>,
    nid: int,
) -> Seq<Option<ActiveMultiline>> {
    slots_closed(clear_flags(spec_start_labels(s0, chunk.starts, nid)), chunk.fins, 0)
}

/// The body rows from chunk `t` on, given the slot state reaching it.
pub open spec fn body_rows(
    chunks: Seq<crate::diagnostic::body::ChunkModel>,
    cfg: Config,
    w: int,
    trim: int,
    t: int,
    s: Seq<Option<ActiveMultiline>>,
    nid: int,
) -> Seq<char>
    decreases chunks.len() - t,
{
    if t < 0 || t >= chunks.len() {
        Seq::<char>::empty()
    } else {
        chunk_rows(chunks[t], s, nid, cfg, w, trim) + body_rows(
            chunks,
            cfg,
            w,
            trim,
            t + 1,
            chunk_slots_after(chunks[t], s, nid),
            nid + chunks[t].starts.len(),
        )
    }
}

/// The whole rendered body over a chunk stream: the rows of all its chunks,
/// starting from as many empty lanes as the given capacity.
pub open spec fn spec_body(
    ms: Seq<crate::diagnostic::body::ChunkModel>,
    cfg: Config,
    w: int,
    trim: int,
    cap: nat,
) -> Seq<char> {
    body_rows(ms, cfg, w, trim, 0, Seq::new(cap, |i: int| None::<ActiveMultiline>), 0)
}

/// Whether a list of identifiers holds one.
fn contains_id(v: &Vec<usize>, x: usize) -> (r: bool)
    ensures
        r == v@.contains(x),
{
    let mut i: usize = 0;
    while i < v.len()
        invariant
            0 <= i <= v@.len(),
            forall|j: int| 0 <= j < i ==> v@[j] != x,
        decreases v@.len() - i,
    {
        if v[i] == x {
            return true;
        }
        i += 1;
    }
    false
}

/// The first free slot index lies within the table or just past it.
proof fn lemma_first_free_bounds(s: Seq<Option<ActiveMultiline>>)
    ensures
        0 <= spec_first_free(s) <= s.len(),
    decreases s.len(),
{
    if s.len() > 0 && !(s[0] is None) {
        lemma_first_free_bounds(s.drop_first());
    }
}

/// The first free slot is right where the leading occupied run ends.
proof fn lemma_first_free_at(s: Seq<Option<ActiveMultiline>>, j: int)
    requires
        0 <= j <= s.len(),
        forall|k: int| 0 <= k < j ==> (#[trigger] s[k]) is Some,
        j < s.len() ==> s[j] is None,
    ensures
        spec_first_free(s) == j,
    decreases j,
{
    if j > 0 {
        assert(forall|k: int|
            0 <= k < j - 1 ==> (#[trigger] s.drop_first()[k]) == s[k + 1]);
        if j - 1 < s.drop_first().len() {
            assert(s.drop_first()[j - 1] == s[j]);
        }
        lemma_first_free_at(s.drop_first(), j - 1);
    }
}

/// Opening one more label after a run opens it at the end.
proof fn lemma_start_labels_push(
    s: Seq<Option<ActiveMultiline>>,
    ls: Seq<Label>,
    x: Label,
    nid: int,
)
    ensures
        spec_start_labels(s, ls.push(x), nid) == spec_alloc(
            spec_start_labels(s, ls, nid),
            ActiveMultiline {
                label_id: (nid + ls.len()) as usize,
                label: x,
                recently_added: true,
            },
        ),
    decreases ls.len(),
{
    if ls.len() == 0 {
        assert(ls.push(x).len() == 1);
        assert(ls.push(x)[0] == x);
        assert(ls.push(x).drop_first() =~= Seq::<Label>::empty());
        let a0 = ActiveMultiline { label_id: nid as usize, label: x, recently_added: true };
        assert(spec_start_labels(s, ls, nid) == s);
        assert(spec_start_labels(s, ls.push(x), nid) == spec_start_labels(
            spec_alloc(s, a0),
            ls.push(x).drop_first(),
            nid + 1,
        ));
        assert(spec_start_labels(spec_alloc(s, a0), ls.push(x).drop_first(), nid + 1)
            == spec_alloc(s, a0));
    } else {
        let a0 = ActiveMultiline { label_id: nid as usize, label: ls[0], recently_added: true };
        lemma_start_labels_push(spec_alloc(s, a0), ls.drop_first(), x, nid + 1);
        assert(ls.push(x).drop_first() =~= ls.drop_first().push(x));
        assert(ls.push(x)[0] == ls[0]);
        assert(spec_start_labels(s, ls.push(x), nid) == spec_start_labels(
            spec_alloc(s, a0),
            ls.drop_first().push(x),
            nid + 1,
        ));
        assert(spec_start_labels(s, ls, nid) == spec_start_labels(
            spec_alloc(s, a0),
            ls.drop_first(),
            nid + 1,
        ));
        assert(nid + 1 + ls.drop_first().len() == nid + ls.len());
    }
}

/// Struct responsible for writing a body described by a `BodyDescriptor`.
pub struct BodyWriter<'a> {
    out: String,
    config: &'a Config,
    slots: Vec<Option<ActiveMultiline>>,
    multiline_id: usize,
    line_number_width: usize,
    current_indent_level: usize,
}

impl<'a> BodyWriter<'a> {
    /// The text written so far, as seen by contracts.
    pub closed spec fn spec_out(self) -> Seq<char> {
        self.out@
    }

    /// The rendering lanes, as seen by contracts.
    pub closed spec fn spec_slots(self) -> Seq<Option<ActiveMultiline>> {
        self.slots@
    }

    /// Prints the right-aligned one-based line number and a vertical bar, or
    /// blanks and a continuation separator for rows that show no source
    /// line.
    fn emit_left_column(&mut self, line_index: Option<usize>)
        requires
            match line_index {
                Some(i) => i < usize::MAX,
                None => true,
            },
        ensures
            final(self).out@ == old(self).out@ + left_col(
                *old(self).config,
                old(self).line_number_width as int,
                match line_index {
                    Some(i) => Some(i as int),
                    None => None::<int>,
                },
            ),
            final(self).slots == old(self).slots,
            final(self).config == old(self).config,
            final(self).multiline_id == old(self).multiline_id,
            final(self).line_number_width == old(self).line_number_width,
            final(self).current_indent_level == old(self).current_indent_level,
    {
        match line_index {
            Some(i) => {
                let num = {
                    let mut n = String::new();
                    crate::diagnostic::fmt::push_dec_padded(
                        &mut n,
                        i + 1,
                        self.line_number_width,
                    );
                    n
                };
                crate::diagnostic::fmt::push_styled(
                    &mut self.out,
                    &self.config.styles.left_column,
                    num.as_str(),
                );
                self.out.append(" ");
                crate::diagnostic::fmt::push_styled_char(
                    &mut self.out,
                    &self.config.styles.left_column,
                    self.config.charset.vertical_bar,
                );
                self.out.append(" ");
            },
            None => {
                crate::diagnostic::fmt::push_spaces(&mut self.out, self.line_number_width);
                self.out.append(" ");
                crate::diagnostic::fmt::push_styled_char(
                    &mut self.out,
                    &self.config.styles.left_column,
                    self.config.charset.separator,
                );
                self.out.append(" ");
            },
        }
        proof {
            assert(self.out@ =~= old(self).out@ + left_col(
                *old(self).config,
                old(self).line_number_width as int,
                match line_index {
                    Some(i) => Some(i as int),
                    None => None::<int>,
                },
            ));
        }
    }

    /// Prints one glyph column per lane: the start corner for a lane opened
    /// on this chunk, the end corner for one finishing here, a vertical bar
    /// otherwise; start corners are drawn once, after which the lane's
    /// recently-added mark is cleared.
    fn emit_multiline_indicators(&mut self, finishing_multiline_labels: &Vec<usize>)
        ensures
            final(self).out@ == old(self).out@ + lane_seq(
                old(self).slots@,
                old(self).config.charset,
                old(self).config.styles,
                finishing_multiline_labels@,
                0,
            ),
            final(self).slots@ == clear_flags(old(self).slots@),
            final(self).config == old(self).config,
            final(self).multiline_id == old(self).multiline_id,
            final(self).line_number_width == old(self).line_number_width,
            final(self).current_indent_level == old(self).current_indent_level,
    {
        let ghost s0 = self.slots@;
        let ghost cs = self.config.charset;
        let ghost styles = self.config.styles;
        let ghost fin = finishing_multiline_labels@;
        let n = self.slots.len();
        let mut j: usize = 0;
        while j < n
            invariant
                n == s0.len(),
                0 <= j <= n,
                self.slots@.len() == s0.len(),
                forall|k: int| j <= k < s0.len() ==> #[trigger] self.slots@[k] == s0[k],
                forall|k: int|
                    0 <= k < j ==> #[trigger] self.slots@[k] == clear_flags(s0)[k],
                self.out@ + lane_seq(s0, cs, styles, fin, j as int) == old(self).out@
                    + lane_seq(s0, cs, styles, fin, 0),
                cs == self.config.charset,
                styles == self.config.styles,
                fin == finishing_multiline_labels@,
                self.config == old(self).config,
                self.multiline_id == old(self).multiline_id,
                self.line_number_width == old(self).line_number_width,
                self.current_indent_level == old(self).current_indent_level,
            decreases n - j,
        {
            let is_some = self.slots[j].is_some();
            if !is_some {
                self.out.append("  ");
            } else {
                let (id, style_opt, rec) = match &self.slots[j] {
                    Some(a) => (a.label_id, a.indicator_style_of(), a.recently_added),
                    None => unreached(),
                };
                let st = match style_opt {
                    Some(s) => s,
                    None => self.config.styles.multiline_indicator,
                };
                let g = if rec {
                    self.config.charset.multiline_start
                } else if contains_id(finishing_multiline_labels, id) {
                    self.config.charset.multiline_end
                } else {
                    self.config.charset.vertical_bar
                };
                crate::diagnostic::fmt::push_styled_char(&mut self.out, &st, g);
                self.out.append(" ");
                if rec {
                    let lab = match &self.slots[j] {
                        Some(a) => a.label.duplicate(),
                        None => unreached(),
                    };
                    self.slots[j] = Some(
                        ActiveMultiline { label_id: id, label: lab, recently_added: false },
                    );
                }
            }
            proof {
                assert(self.slots@[j as int] == clear_flags(s0)[j as int]);
            }
            j += 1;
        }
        proof {
            assert(self.slots@ =~= clear_flags(s0));
            assert(lane_seq(s0, cs, styles, fin, n as int) =~= Seq::<char>::empty());
            assert(self.out@ =~= old(self).out@ + lane_seq(s0, cs, styles, fin, 0));
        }
    }
}

impl ActiveMultiline {
    /// The label's own indicator style, if any.
    fn indicator_style_of(&self) -> (r: Option<Style>)
        ensures
            r == self.label.indicator_style,
    {
        self.label.indicator_style
    }
}

impl<'a> BodyWriter<'a> {
    /// Places a starting multi-line label into the first empty lane under
    /// the next sequential identifier; where every lane is taken, a new one
    /// is opened rather than any output being dropped.
    fn allocate_multiline(&mut self, label: Label)
        requires
            old(self).multiline_id < usize::MAX,
        ensures
            final(self).slots@ == spec_alloc(
                old(self).slots@,
                ActiveMultiline {
                    label_id: old(self).multiline_id,
                    label: label,
                    recently_added: true,
                },
            ),
            final(self).multiline_id == old(self).multiline_id + 1,
            final(self).out == old(self).out,
            final(self).config == old(self).config,
            final(self).line_number_width == old(self).line_number_width,
            final(self).current_indent_level == old(self).current_indent_level,
    {
        let ghost s0 = self.slots@;
        let a = ActiveMultiline {
            label_id: self.multiline_id,
            label,
            recently_added: true,
        };
        let n = self.slots.len();
        let mut j: usize = 0;
        let mut placed = false;
        while !placed && j < n
            invariant
                n == s0.len(),
                0 <= j <= n,
                !placed ==> self.slots@ == s0,
                !placed ==> forall|k: int| 0 <= k < j ==> (#[trigger] s0[k]) is Some,
                placed ==> j < n && s0[j as int] is None && forall|k: int|
                    0 <= k < j ==> (#[trigger] s0[k]) is Some,
                placed ==> self.slots@ == s0.update(
                    j as int,
                    Some(
                        ActiveMultiline {
                            label_id: old(self).multiline_id,
                            label: a.label,
                            recently_added: true,
                        },
                    ),
                ),
                a.label_id == old(self).multiline_id,
                a.recently_added,
                self.multiline_id == old(self).multiline_id,
                self.out == old(self).out,
                self.config == old(self).config,
                self.line_number_width == old(self).line_number_width,
                self.current_indent_level == old(self).current_indent_level,
            decreases n - j, if placed {
                0int
            } else {
                1int
            },
        {
            if self.slots[j].is_none() {
                self.slots[j] = Some(
                    ActiveMultiline {
                        label_id: a.label_id,
                        label: a.label.duplicate(),
                        recently_added: true,
                    },
                );
                placed = true;
            } else {
                j += 1;
            }
        }
        if !placed {
            self.slots.push(
                Some(
                    ActiveMultiline {
                        label_id: a.label_id,
                        label: a.label,
                        recently_added: true,
                    },
                ),
            );
            proof {
                lemma_first_free_at(s0, s0.len() as int);
            }
        } else {
            proof {
                lemma_first_free_at(s0, j as int);
            }
        }
        self.multiline_id = self.multiline_id + 1;
    }

    /// Opens every multi-line label starting on a chunk, in order.
    fn start_multiline_labels(&mut self, chunk: &BodyChunk)
        requires
            old(self).multiline_id + chunk.starting_multiline_labels@.len() <= usize::MAX,
        ensures
            final(self).slots@ == spec_start_labels(
                old(self).slots@,
                chunk.starting_multiline_labels@,
                old(self).multiline_id as int,
            ),
            final(self).multiline_id == old(self).multiline_id
                + chunk.starting_multiline_labels@.len(),
            final(self).out == old(self).out,
            final(self).config == old(self).config,
            final(self).line_number_width == old(self).line_number_width,
            final(self).current_indent_level == old(self).current_indent_level,
    {
        let ghost s0 = self.slots@;
        let ghost ls = chunk.starting_multiline_labels@;
        let ghost nid0 = self.multiline_id as int;
        let n = chunk.starting_multiline_labels.len();
        let mut i: usize = 0;
        while i < n
            invariant
                n == ls.len(),
                ls == chunk.starting_multiline_labels@,
                0 <= i <= n,
                self.slots@ == spec_start_labels(s0, ls.take(i as int), nid0),
                self.multiline_id == nid0 + i,
                nid0 + n <= usize::MAX,
                self.out == old(self).out,
                self.config == old(self).config,
                self.line_number_width == old(self).line_number_width,
                self.current_indent_level == old(self).current_indent_level,
            decreases n - i,
        {
            let ghost prev = self.slots@;
            let lab = chunk.starting_multiline_labels[i].duplicate();
            self.allocate_multiline(lab);
            proof {
                assert(ls.take(i as int + 1) =~= ls.take(i as int).push(ls[i as int]));
                lemma_start_labels_push(s0, ls.take(i as int), ls[i as int], nid0);
                assert(ls.take(i as int).len() == i as int);
                let am = ActiveMultiline {
                    label_id: (nid0 + i) as usize,
                    label: ls[i as int],
                    recently_added: true,
                };
                assert(self.slots@ == spec_alloc(prev, am));
                lemma_first_free_bounds(prev);
                if spec_first_free(prev) < prev.len() {
                    assert(spec_alloc(prev, am) == prev.update(spec_first_free(prev), Some(am)));
                    assert(self.slots@.len() == prev.len());
                } else {
                    assert(spec_alloc(prev, am) == prev.push(Some(am)));
                    assert(self.slots@.len() == prev.len() + 1);
                }
            }
            i += 1;
        }
        proof {
            assert(ls.take(n as int) =~= ls);
        }
    }

    /// Prints the source row of a chunk: the line number column, the lane
    /// glyphs, and the dedented line text behind its trimmed margin.
    fn emit_source_line(&mut self, chunk: &BodyChunk, trim: usize)
        requires
            chunk.line.spec_index() < usize::MAX,
            chunk.line.spec_text().len() > 0 ==> trim <= chunk.line.spec_indent_size(),
        ensures
            final(self).out@ == old(self).out@ + source_row(
                crate::diagnostic::body::model_of(*chunk),
                old(self).slots@,
                *old(self).config,
                old(self).line_number_width as int,
                trim as int,
            ),
            final(self).slots@ == clear_flags(old(self).slots@),
            final(self).current_indent_level == margin_of(
                crate::diagnostic::body::model_of(*chunk),
                trim as int,
            ),
            final(self).config == old(self).config,
            final(self).multiline_id == old(self).multiline_id,
            final(self).line_number_width == old(self).line_number_width,
    {
        self.emit_left_column(Some(chunk.line.index()));
        self.emit_multiline_indicators(&chunk.finishing_multiline_labels);
        let text = chunk.line.text();
        self.current_indent_level = if text.is_empty() {
            0
        } else {
            chunk.line.indent_size() - trim
        };
        crate::diagnostic::fmt::push_spaces(&mut self.out, self.current_indent_level);
        crate::diagnostic::fmt::push_styled(&mut self.out, &self.config.styles.source, text);
        self.out.append("\n");
        proof {
            assert(final(self).out@ =~= old(self).out@ + source_row(
                crate::diagnostic::body::model_of(*chunk),
                old(self).slots@,
                *old(self).config,
                old(self).line_number_width as int,
                trim as int,
            ));
        }
    }
}

impl<'a> BodyWriter<'a> {
    /// Prints one underline row per single-line label of a chunk, each
    /// aligned under the display columns its span covers.
    #[verifier::rlimit(100)]
    fn emit_singleline_labels(&mut self, chunk: &BodyChunk, Ghost(src): Ghost<crate::source::Source>, trim: usize)
        requires
            clear_flags(old(self).slots@) == old(self).slots@,
            old(self).current_indent_level == margin_of(
                crate::diagnostic::body::model_of(*chunk),
                trim as int,
            ),
            crate::source::line_wf(src.bytes(), chunk.line),
            4 * src.bytes().len() <= usize::MAX,
            forall|i: int|
                0 <= i < chunk.singleline_labels@.len()
                    ==> crate::diagnostic::body::singleline_label_on(
                    src,
                    #[trigger] chunk.singleline_labels@[i],
                    chunk.line,
                ),
        ensures
            final(self).out@ == old(self).out@ + single_rows(
                crate::diagnostic::body::model_of(*chunk),
                old(self).slots@,
                *old(self).config,
                old(self).line_number_width as int,
                trim as int,
                0,
            ),
            final(self).slots@ == old(self).slots@,
            final(self).config == old(self).config,
            final(self).multiline_id == old(self).multiline_id,
            final(self).line_number_width == old(self).line_number_width,
            final(self).current_indent_level == old(self).current_indent_level,
    {
        broadcast use vstd::utf8::encode_utf8_valid_utf8;
        broadcast use vstd::utf8::encode_utf8_decode_utf8;

        let ghost s2 = self.slots@;
        let ghost cfg = *self.config;
        let ghost w = self.line_number_width as int;
        let n = chunk.singleline_labels.len();
        let mut i: usize = 0;
        while i < n
            invariant
                n == chunk.singleline_labels@.len(),
                0 <= i <= n,
                clear_flags(s2) == s2,
                self.slots@ == s2,
                s2 == old(self).slots@,
                cfg == *self.config,
                w == self.line_number_width as int,
                self.current_indent_level == margin_of(
                    crate::diagnostic::body::model_of(*chunk),
                    trim as int,
                ),
                crate::source::line_wf(src.bytes(), chunk.line),
                4 * src.bytes().len() <= usize::MAX,
                forall|k: int|
                    0 <= k < chunk.singleline_labels@.len()
                        ==> crate::diagnostic::body::singleline_label_on(
                        src,
                        #[trigger] chunk.singleline_labels@[k],
                        chunk.line,
                    ),
                single_rows(
                    crate::diagnostic::body::model_of(*chunk), s2, cfg, w, trim as int, 0) == self.out@.skip(
                    old(self).out@.len() as int,
                ) + single_rows(
                    crate::diagnostic::body::model_of(*chunk), s2, cfg, w, trim as int, i as int),
                self.out@.len() >= old(self).out@.len(),
                self.out@.take(old(self).out@.len() as int) == old(self).out@,
                self.config == old(self).config,
                self.multiline_id == old(self).multiline_id,
                self.line_number_width == old(self).line_number_width,
            decreases n - i,
        {
            let ghost row_base = self.out@;
            self.emit_left_column(None);
            self.emit_multiline_indicators(&chunk.finishing_multiline_labels);
            crate::diagnostic::fmt::push_spaces(&mut self.out, self.current_indent_level);
            let label = &chunk.singleline_labels[i];
            let line = &chunk.line;
            let d = line.dedented_span().start();
            let e_ded = line.dedented_span().end();
            let local = label.span.on_dedented_span(line.dedented_span());
            let a_rel = local.start() as usize;
            let b_rel = local.end() as usize;
            let text = line.text();
            let ghost lb = crate::diagnostic::body::singleline_label_on(
                src,
                chunk.singleline_labels@[i as int],
                chunk.line,
            );
            proof {
                reveal(crate::source::line_content_wf);
                vstd::utf8::encode_utf8_valid_utf8(src.spec_src());
                assert(vstd::utf8::valid_utf8(src.bytes()));
                crate::source::lemma_line_boundaries(src.bytes(), chunk.line);
                let tb = text_bytes(chunk.line);
                assert(text.spec_bytes() == tb);
                assert(tb == src.bytes().subrange(d as int, e_ded as int));
                assert(tb.len() == e_ded - d);
                // the cut points are character boundaries of the text
                vstd::utf8::encode_utf8_valid_utf8(chunk.line.spec_text());
                if (label.span.spec_end() as int) < e_ded {
                    crate::source::lemma_boundary_in_window(
                        src.bytes(),
                        d as int,
                        e_ded as int,
                        label.span.spec_end() as int,
                    );
                } else {
                    vstd::utf8::is_char_boundary_start_end_of_seq(tb);
                }
                assert(vstd::utf8::is_char_boundary(tb, b_rel as int));
                crate::source::lemma_boundary_in_window(
                    src.bytes(),
                    d as int,
                    e_ded as int,
                    label.span.spec_start() as int,
                );
                assert(vstd::utf8::is_char_boundary(tb, a_rel as int));
            }
            let under_to = text.split_at(b_rel).0;
            proof {
                let tb = text_bytes(chunk.line);
                assert(under_to.spec_bytes() =~= tb.subrange(0, b_rel as int));
                vstd::utf8::is_char_boundary_start_end_of_seq(tb);
                crate::source::lemma_boundary_in_window(
                    tb,
                    0,
                    b_rel as int,
                    a_rel as int,
                );
            }
            let parts = under_to.split_at(a_rel);
            let before = parts.0;
            let under = parts.1;
            proof {
                let tb = text_bytes(chunk.line);
                assert(before.spec_bytes() =~= tb.subrange(0, a_rel as int));
                assert(under.spec_bytes() =~= tb.subrange(a_rel as int, b_rel as int));
                vstd::utf8::encode_utf8_decode_utf8(before@);
                vstd::utf8::encode_utf8_decode_utf8(under@);
                assert(before@ == slice_chars(chunk.line, 0, a_rel as int));
                assert(under@ == slice_chars(
                    chunk.line,
                    a_rel as int,
                    b_rel as int,
                ));
                // the slices hold no more characters than the whole text
                vstd::utf8::decode_utf8_split(tb, a_rel as int);
                crate::source::lemma_boundary_in_window(
                    tb,
                    0,
                    b_rel as int,
                    a_rel as int,
                );
                vstd::utf8::decode_utf8_split(tb.subrange(0, b_rel as int), a_rel as int);
                vstd::utf8::decode_utf8_split(tb, b_rel as int);
                vstd::utf8::encode_utf8_decode_utf8(chunk.line.spec_text());
                assert(decode_utf8(tb) == chunk.line.spec_text());
                assert(before@.len() <= chunk.line.spec_text().len());
                assert(under@.len() <= chunk.line.spec_text().len());
                assert(4 * chunk.line.spec_text().len() <= usize::MAX);
            }
            let bw = crate::text::dislay_width(before);
            let uw = crate::text::dislay_width(under);
            let mut frag = String::new();
            crate::diagnostic::fmt::push_spaces(&mut frag, bw);
            crate::diagnostic::fmt::push_repeat(&mut frag, self.config.charset.underliner, uw);
            let st = match label.indicator_style {
                Some(s) => s,
                None => self.config.styles.singleline_indicator,
            };
            crate::diagnostic::fmt::push_styled(&mut self.out, &st, frag.as_str());
            self.out.append(" ");
            crate::diagnostic::fmt::push_styled(&mut self.out, &st, label.message.as_str());
            self.out.append("\n");
            proof {
                assert(self.out@ =~= row_base + single_row(
                    crate::diagnostic::body::model_of(*chunk),
                    chunk.singleline_labels@[i as int],
                    s2,
                    cfg,
                    w,
                    trim as int,
                ));
                assert(single_rows(
                    crate::diagnostic::body::model_of(*chunk), s2, cfg, w, trim as int, i as int) == single_row(
                    crate::diagnostic::body::model_of(*chunk),
                    chunk.singleline_labels@[i as int],
                    s2,
                    cfg,
                    w,
                    trim as int,
                ) + single_rows(
                    crate::diagnostic::body::model_of(*chunk), s2, cfg, w, trim as int, i as int + 1));
                assert(single_rows(
                    crate::diagnostic::body::model_of(*chunk), s2, cfg, w, trim as int, 0) == self.out@.skip(
                    old(self).out@.len() as int,
                ) + single_rows(
                    crate::diagnostic::body::model_of(*chunk), s2, cfg, w, trim as int, i as int + 1)) by {
                    assert(self.out@.skip(old(self).out@.len() as int) =~= row_base.skip(
                        old(self).out@.len() as int,
                    ) + single_row(
                    crate::diagnostic::body::model_of(*chunk),
                        chunk.singleline_labels@[i as int],
                        s2,
                        cfg,
                        w,
                        trim as int,
                    ));
                }
                assert(self.out@.take(old(self).out@.len() as int) =~= old(self).out@);
            }
            i += 1;
        }
        proof {
            assert(single_rows(
                    crate::diagnostic::body::model_of(*chunk), s2, cfg, w, trim as int, n as int)
                =~= Seq::<char>::empty());
            assert(self.out@ =~= old(self).out@ + single_rows(
                    crate::diagnostic::body::model_of(*chunk),
                s2,
                cfg,
                w,
                trim as int,
                0,
            ));
        }
    }
}

impl<'a> BodyWriter<'a> {
    /// Prints the closing row of the multi-line label occupying slot `j` and
    /// frees the slot: bars over the lanes left of it, its corner, crossings
    /// or filler to the right, and a rule under the source line up to the
    /// label's message.
    #[verifier::rlimit(100)]
    fn emit_multiline_label(&mut self, j: usize, chunk: &BodyChunk, trim: usize)
        requires
            j < old(self).slots@.len(),
            old(self).slots@[j as int] is Some,
            chunk.line.spec_text().len() > 0 ==> trim <= chunk.line.spec_indent_size(),
            margin_of(crate::diagnostic::body::model_of(*chunk), trim as int) + 4
                * chunk.line.spec_text().len() <= usize::MAX,
            4 * chunk.line.spec_text().len() <= usize::MAX,
        ensures
            final(self).out@ == old(self).out@ + close_row(
                old(self).slots@,
                j as int,
                old(self).slots@[j as int]->0,
                crate::diagnostic::body::model_of(*chunk),
                *old(self).config,
                old(self).line_number_width as int,
                trim as int,
            ),
            final(self).slots@ == old(self).slots@.update(j as int, None),
            final(self).config == old(self).config,
            final(self).multiline_id == old(self).multiline_id,
            final(self).line_number_width == old(self).line_number_width,
            final(self).current_indent_level == old(self).current_indent_level,
    {
        let ghost s = self.slots@;
        let ghost cfg = *self.config;
        let ghost a0 = self.slots@[j as int]->0;
        self.emit_left_column(None);
        let mut jj: usize = 0;
        while jj < j
            invariant
                j < s.len(),
                self.slots@ == s,
                0 <= jj <= j,
                cfg == *self.config,
                self.out@ + close_left(s, cfg.charset, cfg.styles, jj as int, j as int)
                    == old(self).out@ + left_col(
                    cfg,
                    old(self).line_number_width as int,
                    None::<int>,
                ) + close_left(s, cfg.charset, cfg.styles, 0, j as int),
                self.config == old(self).config,
                self.multiline_id == old(self).multiline_id,
                self.line_number_width == old(self).line_number_width,
                self.current_indent_level == old(self).current_indent_level,
            decreases j - jj,
        {
            match &self.slots[jj] {
                None => {
                    self.out.append("  ");
                },
                Some(a) => {
                    let st = match a.indicator_style_of() {
                        Some(s) => s,
                        None => self.config.styles.multiline_indicator,
                    };
                    crate::diagnostic::fmt::push_styled_char(
                        &mut self.out,
                        &st,
                        self.config.charset.vertical_bar,
                    );
                    self.out.append(" ");
                },
            }
            jj += 1;
        }
        let (stc, message) = match &self.slots[j] {
            Some(a) => (
                match a.indicator_style_of() {
                    Some(s) => s,
                    None => self.config.styles.multiline_indicator,
                },
                a.label.message.clone(),
            ),
            None => unreached(),
        };
        proof {
            assert(stc == am_style(a0, cfg.styles));
            assert(message@ == a0.label.message@);
        }
        let mut corner = String::new();
        crate::diagnostic::fmt::push_char(&mut corner, self.config.charset.connection_top_to_right);
        crate::diagnostic::fmt::push_char(&mut corner, self.config.charset.horizontal_bar);
        crate::diagnostic::fmt::push_styled(&mut self.out, &stc, corner.as_str());
        let n = self.slots.len();
        let mut jr: usize = j + 1;
        let ghost mid = self.out@;
        while jr < n
            invariant
                j < s.len(),
                n == s.len(),
                self.slots@ == s,
                j + 1 <= jr <= n,
                cfg == *self.config,
                stc == am_style(a0, cfg.styles),
                self.out@ + close_right(s, cfg.charset, cfg.styles, stc, jr as int) == mid
                    + close_right(s, cfg.charset, cfg.styles, stc, j as int + 1),
                self.config == old(self).config,
                self.multiline_id == old(self).multiline_id,
                self.line_number_width == old(self).line_number_width,
                self.current_indent_level == old(self).current_indent_level,
            decreases n - jr,
        {
            match &self.slots[jr] {
                None => {
                    let mut filler = String::new();
                    crate::diagnostic::fmt::push_char(
                        &mut filler,
                        self.config.charset.horizontal_bar,
                    );
                    crate::diagnostic::fmt::push_char(
                        &mut filler,
                        self.config.charset.horizontal_bar,
                    );
                    crate::diagnostic::fmt::push_styled(&mut self.out, &stc, filler.as_str());
                },
                Some(a) => {
                    let st = match a.indicator_style_of() {
                        Some(s) => s,
                        None => self.config.styles.multiline_indicator,
                    };
                    crate::diagnostic::fmt::push_styled_char(
                        &mut self.out,
                        &st,
                        self.config.charset.multiline_crossing,
                    );
                    crate::diagnostic::fmt::push_styled_char(
                        &mut self.out,
                        &stc,
                        self.config.charset.horizontal_bar,
                    );
                },
            }
            jr += 1;
        }
        let margin = if chunk.line.text().is_empty() {
            0
        } else {
            chunk.line.indent_size() - trim
        };
        let width = crate::text::dislay_width(chunk.line.text());
        let mut rule = String::new();
        crate::diagnostic::fmt::push_repeat(
            &mut rule,
            self.config.charset.horizontal_bar,
            margin + width,
        );
        crate::diagnostic::fmt::push_styled(&mut self.out, &stc, rule.as_str());
        self.out.append(" ");
        crate::diagnostic::fmt::push_styled(&mut self.out, &stc, message.as_str());
        self.out.append("\n");
        self.slots[j] = None;
        proof {
            assert(close_right(s, cfg.charset, cfg.styles, stc, n as int)
                =~= Seq::<char>::empty());
            assert(close_left(s, cfg.charset, cfg.styles, j as int, j as int)
                =~= Seq::<char>::empty());
            assert(self.out@ =~= old(self).out@ + close_row(
                s,
                j as int,
                a0,
                crate::diagnostic::body::model_of(*chunk),
                cfg,
                old(self).line_number_width as int,
                trim as int,
            ));
        }
    }

    /// Closes every multi-line label finishing on a chunk, in ascending slot
    /// order, freeing each lane after its row is drawn.
    fn finish_multiline_labels(&mut self, chunk: &BodyChunk, trim: usize)
        requires
            chunk.line.spec_text().len() > 0 ==> trim <= chunk.line.spec_indent_size(),
            margin_of(crate::diagnostic::body::model_of(*chunk), trim as int) + 4
                * chunk.line.spec_text().len() <= usize::MAX,
            4 * chunk.line.spec_text().len() <= usize::MAX,
        ensures
            final(self).out@ == old(self).out@ + closing_rows(
                old(self).slots@,
                chunk.finishing_multiline_labels@,
                crate::diagnostic::body::model_of(*chunk),
                *old(self).config,
                old(self).line_number_width as int,
                trim as int,
                0,
            ),
            final(self).slots@ == slots_closed(
                old(self).slots@,
                chunk.finishing_multiline_labels@,
                0,
            ),
            final(self).config == old(self).config,
            final(self).multiline_id == old(self).multiline_id,
            final(self).line_number_width == old(self).line_number_width,
    {
        let ghost fin = chunk.finishing_multiline_labels@;
        let ghost cfg = *self.config;
        let ghost w = old(self).line_number_width as int;
        let n = self.slots.len();
        let mut j: usize = 0;
        while j < n
            invariant
                n == self.slots@.len(),
                0 <= j <= n,
                cfg == *self.config,
                w == self.line_number_width as int,
                fin == chunk.finishing_multiline_labels@,
                chunk.line.spec_text().len() > 0 ==> trim <= chunk.line.spec_indent_size(),
                margin_of(crate::diagnostic::body::model_of(*chunk), trim as int) + 4 * chunk.line.spec_text().len()
                    <= usize::MAX,
                4 * chunk.line.spec_text().len() <= usize::MAX,
                self.out@ + closing_rows(self.slots@, fin, crate::diagnostic::body::model_of(*chunk), cfg, w, trim as int, j as int)
                    == old(self).out@ + closing_rows(
                    old(self).slots@,
                    fin,
                    crate::diagnostic::body::model_of(*chunk),
                    cfg,
                    w,
                    trim as int,
                    0,
                ),
                slots_closed(self.slots@, fin, j as int) == slots_closed(
                    old(self).slots@,
                    fin,
                    0,
                ),
                self.config == old(self).config,
                self.multiline_id == old(self).multiline_id,
                self.line_number_width == old(self).line_number_width,
            decreases n - j,
        {
            let close_here = match &self.slots[j] {
                Some(a) => contains_id(&chunk.finishing_multiline_labels, a.label_id),
                None => false,
            };
            if close_here {
                self.emit_multiline_label(j, chunk, trim);
            }
            j += 1;
        }
        proof {
            assert(closing_rows(self.slots@, fin, crate::diagnostic::body::model_of(*chunk), cfg, w, trim as int, n as int)
                =~= Seq::<char>::empty());
            assert(slots_closed(self.slots@, fin, n as int) == self.slots@);
        }
    }
}

/// Clearing recently-added marks twice is the same as clearing them once.
proof fn lemma_clear_flags_idem(s: Seq<Option<ActiveMultiline>>)
    ensures
        clear_flags(clear_flags(s)) == clear_flags(s),
{
    assert forall|k: int|
        0 <= k < clear_flags(s).len() implies #[trigger] clear_flags(clear_flags(s))[k]
        == clear_flags(s)[k] by {}
    assert(clear_flags(clear_flags(s)) =~= clear_flags(s));
}

impl<'a> BodyWriter<'a> {
    /// A writer over fresh lanes, as many as the descriptor's capacity.
    fn new(config: &'a Config, descriptor: &BodyDescriptor) -> (r: BodyWriter<'a>)
        ensures
            r.out@ == Seq::<char>::empty(),
            r.slots@ == Seq::new(
                descriptor.maximum_parallel_labels as nat,
                |i: int| None::<ActiveMultiline>,
            ),
            r.multiline_id == 0,
            r.line_number_width == descriptor.line_number_width,
            r.config == config,
    {
        let cap = descriptor.maximum_parallel_labels;
        let mut slots: Vec<Option<ActiveMultiline>> = Vec::new();
        let mut i: usize = 0;
        while i < cap
            invariant
                0 <= i <= cap,
                slots@.len() == i,
                forall|k: int| 0 <= k < i ==> (#[trigger] slots@[k]) is None,
            decreases cap - i,
        {
            slots.push(None);
            i += 1;
        }
        proof {
            assert(slots@ =~= Seq::new(cap as nat, |i: int| None::<ActiveMultiline>));
        }
        BodyWriter {
            out: String::new(),
            config,
            slots,
            multiline_id: 0,
            line_number_width: descriptor.line_number_width,
            current_indent_level: 0,
        }
    }

    /// Writes every chunk of the descriptor: its starting labels claim
    /// lanes, its source row and underline rows are printed, and its
    /// finishing labels close, chunk after chunk.
    #[verifier::rlimit(100)]
    #[verifier::spinoff_prover]
    fn write(&mut self, descriptor: &BodyDescriptor, Ghost(src): Ghost<crate::source::Source>)
        requires
            src.wf(),
            crate::diagnostic::body::descriptor_wf(src, *descriptor),
            old(self).slots@ == Seq::new(
                descriptor.maximum_parallel_labels as nat,
                |i: int| None::<ActiveMultiline>,
            ),
            old(self).multiline_id == 0,
            old(self).line_number_width == descriptor.line_number_width,
        ensures
            final(self).out@ == old(self).out@ + spec_body(
                crate::diagnostic::body::models(descriptor.chunks@),
                *old(self).config,
                descriptor.line_number_width as int,
                descriptor.indent_trim as int,
                descriptor.maximum_parallel_labels as nat,
            ),
            final(self).config == old(self).config,
    {
        let ghost chunks = crate::diagnostic::body::models(descriptor.chunks@);
        let ghost cfg = *self.config;
        let ghost w = descriptor.line_number_width as int;
        let ghost trim_g = descriptor.indent_trim as int;
        let trim = descriptor.indent_trim;
        let n = descriptor.chunks.len();
        proof {
            reveal(crate::diagnostic::body::descriptor_wf);
        }
        let mut t: usize = 0;
        while t < n
            invariant
                src.wf(),
                crate::diagnostic::body::descriptor_wf(src, *descriptor),
                chunks == crate::diagnostic::body::models(descriptor.chunks@),
                n == chunks.len(),
                cfg == *self.config,
                w == self.line_number_width as int,
                trim == descriptor.indent_trim,
                trim_g == trim as int,
                0 <= t <= n,
                self.multiline_id as int == crate::diagnostic::body::starts_count(
                    descriptor.chunks@,
                    t as int,
                ),
                self.out@ + body_rows(
                    chunks,
                    cfg,
                    w,
                    trim_g,
                    t as int,
                    self.slots@,
                    self.multiline_id as int,
                ) == old(self).out@ + spec_body(
                    chunks,
                    cfg,
                    w,
                    trim_g,
                    descriptor.maximum_parallel_labels as nat,
                ),
                self.config == old(self).config,
            decreases n - t,
        {
            let ghost s0 = self.slots@;
            let ghost nid = self.multiline_id as int;
            let chunk = &descriptor.chunks[t];
            proof {
                lemma_chunk_prereqs(src, *descriptor, t as int);
                assert(chunks[t as int] == crate::diagnostic::body::model_of(
                    descriptor.chunks@[t as int],
                ));
            }
            self.start_multiline_labels(chunk);
            let ghost s1 = self.slots@;
            self.emit_source_line(chunk, trim);
            let ghost s2 = self.slots@;
            proof {
                lemma_clear_flags_idem(s1);
            }
            self.emit_singleline_labels(chunk, Ghost(src), trim);
            self.finish_multiline_labels(chunk, trim);
            proof {
                assert(body_rows(chunks, cfg, w, trim_g, t as int, s0, nid) == chunk_rows(
                    chunks[t as int],
                    s0,
                    nid,
                    cfg,
                    w,
                    trim_g,
                ) + body_rows(
                    chunks,
                    cfg,
                    w,
                    trim_g,
                    t as int + 1,
                    chunk_slots_after(chunks[t as int], s0, nid),
                    nid + chunks[t as int].starts.len(),
                ));
                assert(self.slots@ == chunk_slots_after(chunks[t as int], s0, nid));
                assert(crate::diagnostic::body::starts_count(
                    descriptor.chunks@,
                    t as int + 1,
                ) == nid + chunks[t as int].starts.len());
            }
            t += 1;
        }
        proof {
            assert(body_rows(
                chunks,
                cfg,
                w,
                trim_g,
                n as int,
                self.slots@,
                self.multiline_id as int,
            ) =~= Seq::<char>::empty());
            assert(self.out@ =~= old(self).out@ + spec_body(
                chunks,
                cfg,
                w,
                trim_g,
                descriptor.maximum_parallel_labels as nat,
            ));
        }
    }
}

impl BodyDescriptor {
    /// Writes the body described by this descriptor onto a text buffer.
    pub(crate) fn write_to(
        &self,
        out: &mut String,
        config: &Config,
        Ghost(src): Ghost<crate::source::Source>,
    )
        requires
            src.wf(),
            crate::diagnostic::body::descriptor_wf(src, *self),
        ensures
            final(out)@ == old(out)@ + spec_body(
                crate::diagnostic::body::models(self.chunks@),
                *config,
                self.line_number_width as int,
                self.indent_trim as int,
                self.maximum_parallel_labels as nat,
            ),
    {
        let mut writer = BodyWriter::new(config, self);
        writer.write(self, Ghost(src));
        out.append(writer.out.as_str());
    }
}

/// Law: the indent trim of a well-formed descriptor equals the minimum
/// indent width over its non-empty lines, and every rendered left margin
/// equals that line's indent less the trim and is never negative.
pub proof fn lemma_margin_nonneg(src: crate::source::Source, d: BodyDescriptor, t: int)
    requires
        crate::diagnostic::body::descriptor_wf(src, d),
        0 <= t < d.chunks@.len(),
    ensures
        d.indent_trim as int == crate::diagnostic::body::min_indent(
            d.chunks@,
            d.chunks@.len() as int,
        ),
        d.chunks@[t].line.spec_text().len() > 0 ==> {
            &&& d.indent_trim <= d.chunks@[t].line.spec_indent_size()
            &&& margin_of(
                crate::diagnostic::body::model_of(d.chunks@[t]),
                d.indent_trim as int,
            ) == d.chunks@[t].line.spec_indent_size() - d.indent_trim
            &&& margin_of(
                crate::diagnostic::body::model_of(d.chunks@[t]),
                d.indent_trim as int,
            ) >= 0
        },
{
    reveal(crate::diagnostic::body::descriptor_wf);
    if d.chunks@[t].line.spec_text().len() > 0 {
        crate::diagnostic::body::lemma_min_indent_le(d.chunks@, t, d.chunks@.len() as int);
    }
}

/// The number of occupied lanes in a slot table.
pub open spec fn occupied(s: Seq<Option<ActiveMultiline>>) -> int
    decreases s.len(),
{
    if s.len() == 0 {
        0
    } else if s[0] is Some {
        1 + occupied(s.drop_first())
    } else {
        occupied(s.drop_first())
    }
}

/// How many lanes of a slot table hold the given identifier.
pub open spec fn occurrences(s: Seq<Option<ActiveMultiline>>, id: usize) -> int
    decreases s.len(),
{
    if s.len() == 0 {
        0
    } else {
        (match s[0] {
            Some(a) => if a.label_id == id {
                1int
            } else {
                0
            },
            None => 0,
        }) + occurrences(s.drop_first(), id)
    }
}

/// How many lanes of a slot table hold an identifier from the given list.
pub open spec fn matched(s: Seq<Option<ActiveMultiline>>, fin: Seq<usize>) -> int
    decreases s.len(),
{
    if s.len() == 0 {
        0
    } else {
        (match s[0] {
            Some(a) => if fin.contains(a.label_id) {
                1int
            } else {
                0
            },
            None => 0,
        }) + matched(s.drop_first(), fin)
    }
}

proof fn lemma_occupied_bounds(s: Seq<Option<ActiveMultiline>>)
    ensures
        0 <= occupied(s) <= s.len(),
    decreases s.len(),
{
    if s.len() > 0 {
        lemma_occupied_bounds(s.drop_first());
    }
}

/// A slot table with a free lane has its first free lane inside the table.
proof fn lemma_occupied_first_free(s: Seq<Option<ActiveMultiline>>)
    requires
        occupied(s) < s.len(),
    ensures
        0 <= spec_first_free(s) < s.len(),
    decreases s.len(),
{
    lemma_first_free_bounds(s);
    if s.len() > 0 && s[0] is Some {
        lemma_occupied_bounds(s.drop_first());
        if occupied(s.drop_first()) < s.drop_first().len() {
            lemma_occupied_first_free(s.drop_first());
        }
    }
}

/// Filling an empty lane raises the occupancy by one.
proof fn lemma_occupied_update_some(s: Seq<Option<ActiveMultiline>>, j: int, a: ActiveMultiline)
    requires
        0 <= j < s.len(),
        s[j] is None,
    ensures
        occupied(s.update(j, Some(a))) == occupied(s) + 1,
    decreases s.len(),
{
    if j == 0 {
        assert(s.update(0, Some(a)).drop_first() =~= s.drop_first());
    } else {
        assert(s.update(j, Some(a)).drop_first() =~= s.drop_first().update(j - 1, Some(a)));
        lemma_occupied_update_some(s.drop_first(), j - 1, a);
    }
}

/// Appending a single identifier to the finishing list adds exactly the
/// lanes that hold it.
proof fn lemma_matched_push(s: Seq<Option<ActiveMultiline>>, fin: Seq<usize>, x: usize)
    requires
        !fin.contains(x),
    ensures
        matched(s, fin.push(x)) == matched(s, fin) + occurrences(s, x),
    decreases s.len(),
{
    if s.len() > 0 {
        lemma_matched_push(s.drop_first(), fin, x);
        match s[0] {
            Some(a) => {
                if fin.push(x).contains(a.label_id) {
                    let k = choose|k: int|
                        0 <= k < fin.push(x).len() && fin.push(x)[k] == a.label_id;
                    if k < fin.len() {
                        assert(fin[k] == a.label_id);
                        assert(fin.contains(a.label_id));
                    }
                }
                if fin.contains(a.label_id) {
                    let k = choose|k: int| 0 <= k < fin.len() && fin[k] == a.label_id;
                    assert(fin.push(x)[k] == a.label_id);
                    assert(fin.push(x).contains(a.label_id));
                }
                if a.label_id == x {
                    assert(fin.push(x)[fin.len() as int] == x);
                    assert(fin.push(x).contains(a.label_id));
                }
            },
            None => {},
        }
    }
}

/// With pairwise distinct lane identifiers, an identifier held somewhere is
/// held exactly once.
proof fn lemma_occurrences_one(s: Seq<Option<ActiveMultiline>>, k: int)
    requires
        0 <= k < s.len(),
        s[k] is Some,
        forall|i: int, j: int|
            #![trigger s[i], s[j]]
            0 <= i < j < s.len() && s[i] is Some && s[j] is Some ==> s[i]->0.label_id
                != s[j]->0.label_id,
    ensures
        occurrences(s, s[k]->0.label_id) == 1,
    decreases s.len(),
{
    let id = s[k]->0.label_id;
    if k == 0 {
        assert(occurrences(s.drop_first(), id) == 0) by {
            lemma_occurrences_none(s.drop_first(), id);
        }
    } else {
        assert(forall|i: int, j: int|
            #![trigger s.drop_first()[i], s.drop_first()[j]]
            0 <= i < j < s.drop_first().len() && s.drop_first()[i] is Some
                && s.drop_first()[j] is Some ==> s.drop_first()[i]->0.label_id
                != s.drop_first()[j]->0.label_id) by {
            assert(forall|i: int|
                0 <= i < s.drop_first().len() ==> #[trigger] s.drop_first()[i] == s[i + 1]);
        }
        assert(s.drop_first()[k - 1] == s[k]);
        lemma_occurrences_one(s.drop_first(), k - 1);
        match s[0] {
            Some(a) => {
                assert(a.label_id != id);
            },
            None => {},
        }
    }
}

/// An identifier different from every occupied lane's is held nowhere.
proof fn lemma_occurrences_none(s: Seq<Option<ActiveMultiline>>, id: usize)
    requires
        forall|i: int|
            0 <= i < s.len() && (#[trigger] s[i]) is Some ==> s[i]->0.label_id != id,
    ensures
        occurrences(s, id) == 0,
    decreases s.len(),
{
    if s.len() > 0 {
        assert(forall|i: int|
            0 <= i < s.drop_first().len() ==> #[trigger] s.drop_first()[i] == s[i + 1]);
        lemma_occurrences_none(s.drop_first(), id);
    }
}

/// Every identifier of the finishing list held in exactly one lane: the
/// matched lanes number exactly the finishing labels.
proof fn lemma_matched_count(s: Seq<Option<ActiveMultiline>>, fin: Seq<usize>)
    requires
        forall|i: int, j: int|
            #![trigger s[i], s[j]]
            0 <= i < j < s.len() && s[i] is Some && s[j] is Some ==> s[i]->0.label_id
                != s[j]->0.label_id,
        forall|i: int, j: int|
            #![trigger fin[i], fin[j]]
            0 <= i < j < fin.len() ==> fin[i] != fin[j],
        forall|i: int|
            #![trigger fin[i]]
            0 <= i < fin.len() ==> holds_id(s, fin[i] as int),
    ensures
        matched(s, fin) == fin.len(),
    decreases fin.len(),
{
    if fin.len() == 0 {
        lemma_matched_none(s, fin);
    } else {
        let pre = fin.drop_last();
        let x = fin.last();
        assert(forall|i: int| 0 <= i < pre.len() ==> #[trigger] pre[i] == fin[i]);
        assert(!pre.contains(x)) by {
            if pre.contains(x) {
                let k = choose|k: int| 0 <= k < pre.len() && pre[k] == x;
                assert(fin[k] == fin[fin.len() - 1]);
            }
        }
        assert(forall|i: int|
            #![trigger pre[i]]
            0 <= i < pre.len() ==> holds_id(s, pre[i] as int));
        lemma_matched_count(s, pre);
        let last_id = fin[fin.len() - 1];
        assert(holds_id(s, last_id as int));
        let k = choose|k: int|
            0 <= k < s.len() && (#[trigger] s[k]) is Some && s[k]->0.label_id == last_id as int;
        lemma_occurrences_one(s, k);
        lemma_matched_push(s, pre, x);
        assert(fin =~= pre.push(x));
    }
}

/// No lane matches an empty finishing list.
proof fn lemma_matched_none(s: Seq<Option<ActiveMultiline>>, fin: Seq<usize>)
    requires
        fin.len() == 0,
    ensures
        matched(s, fin) == 0,
    decreases s.len(),
{
    if s.len() > 0 {
        lemma_matched_none(s.drop_first(), fin);
    }
}

/// Closing a lane when its identifier finishes, lane by lane.
pub open spec fn point_close(o: Option<ActiveMultiline>, fin: Seq<usize>) -> Option<
    ActiveMultiline,
> {
    match o {
        Some(a) => if fin.contains(a.label_id) {
            None
        } else {
            Some(a)
        },
        None => None,
    }
}

/// The closings change each lane independently.
proof fn lemma_slots_closed_pointwise(s: Seq<Option<ActiveMultiline>>, fin: Seq<usize>, j: int)
    requires
        0 <= j <= s.len(),
    ensures
        slots_closed(s, fin, j).len() == s.len(),
        forall|k: int|
            0 <= k < j ==> #[trigger] slots_closed(s, fin, j)[k] == s[k],
        forall|k: int|
            j <= k < s.len() ==> #[trigger] slots_closed(s, fin, j)[k] == point_close(
                s[k],
                fin,
            ),
    decreases s.len() - j,
{
    if j < s.len() {
        match s[j] {
            Some(a) => {
                if fin.contains(a.label_id) {
                    lemma_slots_closed_pointwise(s.update(j, None), fin, j + 1);
                } else {
                    lemma_slots_closed_pointwise(s, fin, j + 1);
                }
            },
            None => {
                lemma_slots_closed_pointwise(s, fin, j + 1);
            },
        }
    }
}

/// Closing lanes lowers the occupancy by the number of matched lanes.
proof fn lemma_occupied_point_close(s: Seq<Option<ActiveMultiline>>, fin: Seq<usize>)
    ensures
        occupied(Seq::new(s.len(), |k: int| point_close(s[k], fin))) == occupied(s) - matched(
            s,
            fin,
        ),
    decreases s.len(),
{
    let mapped = Seq::new(s.len(), |k: int| point_close(s[k], fin));
    if s.len() > 0 {
        lemma_occupied_point_close(s.drop_first(), fin);
        assert(mapped.drop_first() =~= Seq::new(
            s.drop_first().len(),
            |k: int| point_close(s.drop_first()[k], fin),
        ));
        assert(mapped[0] == point_close(s[0], fin));
    }
}

/// The slot table reaching chunk `t` of a rendering: the empty lanes, with
/// every earlier chunk's labels opened and closed in order.
pub open spec fn sim_slots(
    ms: Seq<crate::diagnostic::body::ChunkModel>,
    cap: nat,
    t: int,
) -> Seq<Option<ActiveMultiline>>
    decreases t,
{
    if t <= 0 {
        Seq::new(cap, |i: int| None::<ActiveMultiline>)
    } else {
        chunk_slots_after(
            ms[t - 1],
            sim_slots(ms, cap, t - 1),
            crate::diagnostic::body::m_starts_count(ms, t - 1),
        )
    }
}

/// Whether identifier `id` finishes in one of the first `t` chunks.
pub open spec fn m_finished_in(
    ms: Seq<crate::diagnostic::body::ChunkModel>,
    t: int,
    id: usize,
) -> bool {
    exists|u: int| 0 <= u < t && ms[u].fins.contains(id)
}

/// What the slot table holds when chunk `t` is reached: exactly the open
/// labels, each in one lane, with its label text from the start table.
pub open spec fn slots_inv(
    ms: Seq<crate::diagnostic::body::ChunkModel>,
    t: int,
    s: Seq<Option<ActiveMultiline>>,
) -> bool {
    &&& forall|k: int|
        0 <= k < s.len() && (#[trigger] s[k]) is Some ==> {
            let a = s[k]->0;
            &&& (a.label_id as int) < crate::diagnostic::body::m_starts_count(ms, t)
            &&& !m_finished_in(ms, t, a.label_id)
            &&& !a.recently_added
        }
    &&& forall|i: int, j: int|
        #![trigger s[i], s[j]]
        0 <= i < j < s.len() && s[i] is Some && s[j] is Some ==> s[i]->0.label_id
            != s[j]->0.label_id
    &&& forall|id: usize|
        0 <= id < crate::diagnostic::body::m_starts_count(ms, t) && !(#[trigger] m_finished_in(
            ms,
            t,
            id,
        )) ==> exists|k: int|
            0 <= k < s.len() && (#[trigger] s[k]) is Some && s[k]->0.label_id == id
}

/// The facts about one chunk that the writer needs, unpacked from the
/// descriptor's well-formedness.
proof fn lemma_chunk_prereqs(
    src: crate::source::Source,
    d: BodyDescriptor,
    t: int,
)
    requires
        src.wf(),
        crate::diagnostic::body::descriptor_wf(src, d),
        0 <= t < d.chunks@.len(),
    ensures
        ({
            let chunk = d.chunks@[t];
            &&& chunk.line.spec_index() < src.spec_lines().len()
            &&& chunk.line == src.spec_lines()[chunk.line.spec_index() as int]
            &&& crate::source::line_wf(src.bytes(), chunk.line)
            &&& chunk.line.spec_index() < u32::MAX
            &&& (chunk.line.spec_text().len() > 0 ==> d.indent_trim
                <= chunk.line.spec_indent_size())
            &&& 4 * chunk.line.spec_text().len() <= usize::MAX
            &&& margin_of(crate::diagnostic::body::model_of(chunk), d.indent_trim as int) + 4
                * chunk.line.spec_text().len() <= usize::MAX
            &&& crate::diagnostic::body::starts_count(d.chunks@, t)
                + chunk.starting_multiline_labels@.len() <= usize::MAX
            &&& crate::diagnostic::body::starts_count(d.chunks@, t + 1)
                == crate::diagnostic::body::starts_count(d.chunks@, t)
                + chunk.starting_multiline_labels@.len()
            &&& forall|i: int|
                0 <= i < chunk.singleline_labels@.len()
                    ==> crate::diagnostic::body::singleline_label_on(
                    src,
                    #[trigger] chunk.singleline_labels@[i],
                    chunk.line,
                )
        }),
{
    reveal(crate::diagnostic::body::descriptor_wf);
    reveal(crate::diagnostic::body::chunks_wf);
    let chunk = d.chunks@[t];
    crate::source::lemma_lines_index(src, chunk.line.spec_index() as int);
    crate::source::lemma_line_index_bound(src, chunk.line.spec_index() as int);
    if chunk.line.spec_text().len() > 0 {
        crate::diagnostic::body::lemma_min_indent_le(d.chunks@, t, d.chunks@.len() as int);
    }
    crate::diagnostic::body::lemma_starts_count_mono(d.chunks@, t + 1, d.chunks@.len() as int);
    crate::diagnostic::body::lemma_starts_count_mono(d.chunks@, 0, t);
}

/// Whether some lane of a slot table holds the given identifier.
pub open spec fn holds_id(s: Seq<Option<ActiveMultiline>>, id: int) -> bool {
    exists|k: int| 0 <= k < s.len() && (#[trigger] s[k]) is Some && s[k]->0.label_id == id
}

/// The first free lane is empty.
proof fn lemma_first_free_none(s: Seq<Option<ActiveMultiline>>)
    requires
        spec_first_free(s) < s.len(),
    ensures
        s[spec_first_free(s)] is None,
    decreases s.len(),
{
    if s.len() > 0 && !(s[0] is None) {
        assert(spec_first_free(s) == 1 + spec_first_free(s.drop_first()));
        lemma_first_free_bounds(s.drop_first());
        lemma_first_free_none(s.drop_first());
        let ffp = spec_first_free(s.drop_first());
        assert(s.drop_first()[ffp] == s[ffp + 1]);
    }
}

/// Opening labels fills empty lanes only: it keeps the table's length and
/// every occupied lane, raises the occupancy by one per label, and places
/// the labels under their sequential identifiers.
proof fn lemma_start_labels_props(s: Seq<Option<ActiveMultiline>>, ls: Seq<Label>, nid: int)
    requires
        occupied(s) + ls.len() <= s.len(),
        0 <= nid,
        nid + ls.len() <= usize::MAX,
        forall|k: int|
            0 <= k < s.len() && (#[trigger] s[k]) is Some ==> (s[k]->0.label_id as int) < nid,
        forall|i: int, j: int|
            #![trigger s[i], s[j]]
            0 <= i < j < s.len() && s[i] is Some && s[j] is Some ==> s[i]->0.label_id
                != s[j]->0.label_id,
    ensures
        forall|k: int|
            0 <= k < s.len() && (#[trigger] spec_start_labels(s, ls, nid)[k]) is Some ==> (
            spec_start_labels(s, ls, nid)[k]->0.label_id as int) < nid + ls.len(),
        forall|i: int, j: int|
            #![trigger spec_start_labels(s, ls, nid)[i], spec_start_labels(s, ls, nid)[j]]
            0 <= i < j < s.len() && spec_start_labels(s, ls, nid)[i] is Some
                && spec_start_labels(s, ls, nid)[j] is Some ==> spec_start_labels(
                s,
                ls,
                nid,
            )[i]->0.label_id != spec_start_labels(s, ls, nid)[j]->0.label_id,
        spec_start_labels(s, ls, nid).len() == s.len(),
        occupied(spec_start_labels(s, ls, nid)) == occupied(s) + ls.len(),
        forall|k: int|
            0 <= k < s.len() && (#[trigger] s[k]) is Some ==> spec_start_labels(s, ls, nid)[k]
                == s[k],
        forall|k: int|
            0 <= k < s.len() && (#[trigger] spec_start_labels(s, ls, nid)[k]) is Some ==> (s[k]
                is Some && spec_start_labels(s, ls, nid)[k] == s[k]) || {
                let a = spec_start_labels(s, ls, nid)[k]->0;
                &&& nid <= a.label_id < nid + ls.len()
                &&& a.label == ls[a.label_id - nid]
                &&& a.recently_added
            },
        forall|id: int|
            nid <= id < nid + ls.len() ==> #[trigger] holds_id(spec_start_labels(s, ls, nid), id),
    decreases ls.len(),
{
    if ls.len() > 0 {
        let a0 = ActiveMultiline { label_id: nid as usize, label: ls[0], recently_added: true };
        lemma_occupied_bounds(s);
        lemma_occupied_first_free(s);
        lemma_first_free_none(s);
        let ff = spec_first_free(s);
        let s1 = s.update(ff, Some(a0));
        assert(spec_alloc(s, a0) == s1);
        lemma_occupied_update_some(s, ff, a0);
        assert(forall|k: int|
            0 <= k < s1.len() && (#[trigger] s1[k]) is Some ==> (s1[k]->0.label_id as int)
                < nid + 1);
        lemma_start_labels_props(s1, ls.drop_first(), nid + 1);
        let r = spec_start_labels(s, ls, nid);
        assert(r == spec_start_labels(s1, ls.drop_first(), nid + 1));
        assert forall|k: int|
            0 <= k < s.len() && (#[trigger] r[k]) is Some implies (s[k] is Some && r[k]
            == s[k]) || {
            let a = r[k]->0;
            &&& nid <= a.label_id < nid + ls.len()
            &&& a.label == ls[a.label_id - nid]
            &&& a.recently_added
        } by {
            if s1[k] is Some && r[k] == s1[k] {
                if k == ff {
                    assert(r[k]->0 == a0);
                    assert(ls.drop_first()[a0.label_id - (nid + 1)] == ls[a0.label_id - nid]
                        || a0.label_id == nid);
                } else {
                    assert(s1[k] == s[k]);
                }
            } else {
                let a = r[k]->0;
                assert(nid + 1 <= a.label_id < nid + 1 + ls.drop_first().len());
                assert(ls.drop_first()[a.label_id - (nid + 1)] == ls[a.label_id - nid]);
            }
        }
        assert forall|id: int| nid <= id < nid + ls.len() implies #[trigger] holds_id(
            r,
            id,
        ) by {
            if id == nid {
                assert(s1[ff] is Some && s1[ff]->0.label_id == nid);
                assert(r[ff] == s1[ff]);
                assert(r[ff] is Some && r[ff]->0.label_id == id);
            } else {
                assert(holds_id(spec_start_labels(s1, ls.drop_first(), nid + 1), id));
            }
        }
    }
}

/// Clearing the recently-added marks keeps the lanes, their identifiers and
/// the occupancy.
proof fn lemma_clear_flags_props(s: Seq<Option<ActiveMultiline>>)
    ensures
        clear_flags(s).len() == s.len(),
        occupied(clear_flags(s)) == occupied(s),
        forall|k: int|
            0 <= k < s.len() ==> ((#[trigger] clear_flags(s)[k]) is Some <==> s[k] is Some),
        forall|k: int|
            0 <= k < s.len() && (#[trigger] s[k]) is Some ==> clear_flags(s)[k]->0.label_id
                == s[k]->0.label_id && clear_flags(s)[k]->0.label == s[k]->0.label && !(
            clear_flags(s)[k]->0.recently_added),
    decreases s.len(),
{
    if s.len() > 0 {
        lemma_clear_flags_props(s.drop_first());
        assert(clear_flags(s).drop_first() =~= clear_flags(s.drop_first()));
        assert(clear_flags(s)[0] == (match s[0] {
            Some(a) => Some(
                ActiveMultiline { label_id: a.label_id, label: a.label, recently_added: false },
            ),
            None => None,
        }));
    }
}

/// The slot table reaching any chunk of a well-formed descriptor stays
/// exactly as long as the precomputed capacity and holds exactly the open
/// labels, one lane each.
proof fn lemma_sim_slots_props(src: crate::source::Source, d: BodyDescriptor, t: int)
    requires
        crate::diagnostic::body::descriptor_wf(src, d),
        0 <= t <= d.chunks@.len(),
    ensures
        ({
            let ms = crate::diagnostic::body::models(d.chunks@);
            let s = sim_slots(ms, d.maximum_parallel_labels as nat, t);
            &&& s.len() == d.maximum_parallel_labels
            &&& occupied(s) == crate::diagnostic::body::starts_count(d.chunks@, t)
                - crate::diagnostic::body::finishes_count(d.chunks@, t)
            &&& slots_inv(ms, t, s)
        }),
    decreases t,
{
    let ms = crate::diagnostic::body::models(d.chunks@);
    let cap = d.maximum_parallel_labels as nat;
    crate::diagnostic::body::lemma_model_folds(d.chunks@, t);
    if t == 0 {
        let s = sim_slots(ms, cap, 0);
        assert(occupied(s) == 0) by {
            lemma_occupied_all_none(s);
        }
    } else {
        lemma_sim_slots_props(src, d, t - 1);
        crate::diagnostic::body::lemma_model_folds(d.chunks@, t - 1);
        let s_prev = sim_slots(ms, cap, t - 1);
        let chunk = d.chunks@[t - 1];
        let m = ms[t - 1];
        assert(m == crate::diagnostic::body::model_of(chunk));
        let nid = crate::diagnostic::body::starts_count(d.chunks@, t - 1);
        let sc_t = crate::diagnostic::body::starts_count(d.chunks@, t);
        let fc_prev = crate::diagnostic::body::finishes_count(d.chunks@, t - 1);
        let fc_t = crate::diagnostic::body::finishes_count(d.chunks@, t);
        // the chunk's new labels fit beside the surviving ones
        crate::diagnostic::body::lemma_parallel_capacity(src, d, t - 1);
        reveal(crate::diagnostic::body::descriptor_wf);
        reveal(crate::diagnostic::body::chunks_wf);
        crate::diagnostic::body::lemma_starts_count_mono(d.chunks@, t, d.chunks@.len() as int);
        crate::diagnostic::body::lemma_starts_count_mono(d.chunks@, 0, t - 1);
        lemma_start_labels_props(s_prev, m.starts, nid);
        let s1 = spec_start_labels(s_prev, m.starts, nid);
        lemma_clear_flags_props(s1);
        let s2 = clear_flags(s1);
        // identifiers in the table stay pairwise distinct
        assert forall|i: int, j: int|
            #![trigger s2[i], s2[j]]
            0 <= i < j < s2.len() && s2[i] is Some && s2[j] is Some implies s2[i]->0.label_id
            != s2[j]->0.label_id by {
            assert(s1[i] is Some && s1[j] is Some);
            assert(s2[i]->0.label_id == s1[i]->0.label_id);
            assert(s2[j]->0.label_id == s1[j]->0.label_id);
        }
        // every finishing identifier is held in some lane
        assert forall|i: int|
            #![trigger m.fins[i]]
            0 <= i < m.fins.len() implies holds_id(s2, m.fins[i] as int) by {
            let f = m.fins[i];
            assert(chunk.finishing_multiline_labels@[i] == f);
            assert((f as int) < sc_t);
            if (f as int) < nid {
                assert(!m_finished_in(ms, t - 1, f)) by {
                    if m_finished_in(ms, t - 1, f) {
                        let u = choose|u: int| 0 <= u < t - 1 && ms[u].fins.contains(f);
                        assert(ms[u] == crate::diagnostic::body::model_of(d.chunks@[u]));
                        let i2 = choose|i2: int|
                            0 <= i2 < d.chunks@[u].finishing_multiline_labels@.len()
                                && d.chunks@[u].finishing_multiline_labels@[i2] == f;
                        assert(d.chunks@[u].finishing_multiline_labels@[i2]
                            != chunk.finishing_multiline_labels@[i]);
                    }
                }
                assert(holds_id(s_prev, f as int));
                let k = choose|k: int|
                    0 <= k < s_prev.len() && (#[trigger] s_prev[k]) is Some
                        && s_prev[k]->0.label_id == f as int;
                assert(s1[k] == s_prev[k]);
                assert(s2[k] is Some && s2[k]->0.label_id == f);
            } else {
                assert(holds_id(s1, f as int));
                let k = choose|k: int|
                    0 <= k < s1.len() && (#[trigger] s1[k]) is Some && s1[k]->0.label_id
                        == f as int;
                assert(s2[k] is Some && s2[k]->0.label_id == f);
            }
        }
        // finishing identifiers are pairwise distinct within the chunk
        assert forall|i: int, j: int|
            #![trigger m.fins[i], m.fins[j]]
            0 <= i < j < m.fins.len() implies m.fins[i] != m.fins[j] by {
            assert(chunk.finishing_multiline_labels@[i]
                != chunk.finishing_multiline_labels@[j]);
        }
        lemma_matched_count(s2, m.fins);
        lemma_slots_closed_pointwise(s2, m.fins, 0);
        let s_t = sim_slots(ms, cap, t);
        assert(s_t == slots_closed(s2, m.fins, 0));
        assert(s_t =~= Seq::new(s2.len(), |k: int| point_close(s2[k], m.fins)));
        lemma_occupied_point_close(s2, m.fins);
        assert(occupied(s_t) == occupied(s2) - m.fins.len());
        assert(fc_t == fc_prev + m.fins.len());
        // the surviving lanes are exactly the still-open labels
        assert forall|k: int|
            0 <= k < s_t.len() && (#[trigger] s_t[k]) is Some implies {
            let a = s_t[k]->0;
            &&& (a.label_id as int) < sc_t
            &&& !m_finished_in(ms, t, a.label_id)
            &&& !a.recently_added
        } by {
            let a = s_t[k]->0;
            assert(s_t[k] == point_close(s2[k], m.fins));
            assert(s2[k] is Some && s2[k]->0 == a && !m.fins.contains(a.label_id));
            assert(s1[k] is Some);
            if s_prev[k] is Some && s1[k] == s_prev[k] {
                assert((a.label_id as int) < nid);
                assert(!m_finished_in(ms, t - 1, a.label_id));
            } else {
                assert(nid <= s1[k]->0.label_id < nid + m.starts.len());
            }
            assert(!m_finished_in(ms, t, a.label_id)) by {
                if m_finished_in(ms, t, a.label_id) {
                    let u = choose|u: int| 0 <= u < t && ms[u].fins.contains(a.label_id);
                    if u == t - 1 {
                        assert(m.fins.contains(a.label_id));
                    } else {
                        assert(m_finished_in(ms, t - 1, a.label_id));
                        if s_prev[k] is Some && s1[k] == s_prev[k] {
                        } else {
                            // a label started on this chunk cannot have
                            // finished earlier: its identifier is too large
                            let i2 = choose|i2: int|
                                0 <= i2 < ms[u].fins.len() && ms[u].fins[i2] == a.label_id;
                            assert(ms[u] == crate::diagnostic::body::model_of(d.chunks@[u]));
                            assert((d.chunks@[u].finishing_multiline_labels@[i2] as int)
                                < crate::diagnostic::body::starts_count(d.chunks@, u + 1));
                            crate::diagnostic::body::lemma_starts_count_mono(
                                d.chunks@,
                                u + 1,
                                t - 1,
                            );
                        }
                    }
                }
            }
        }
        // and every still-open label keeps its lane
        assert forall|id: usize|
            0 <= id < sc_t && !(#[trigger] m_finished_in(ms, t, id)) implies exists|k: int|
            0 <= k < s_t.len() && (#[trigger] s_t[k]) is Some && s_t[k]->0.label_id == id by {
            assert(!m.fins.contains(id)) by {
                if m.fins.contains(id) {
                    let i2 = choose|i2: int| 0 <= i2 < m.fins.len() && m.fins[i2] == id;
                    assert(ms[t - 1].fins.contains(id));
                    assert(m_finished_in(ms, t, id));
                }
            }
            assert(!m_finished_in(ms, t - 1, id)) by {
                if m_finished_in(ms, t - 1, id) {
                    let u = choose|u: int| 0 <= u < t - 1 && ms[u].fins.contains(id);
                    assert(m_finished_in(ms, t, id));
                }
            }
            if (id as int) < nid {
                assert(holds_id(s_prev, id as int));
                let k = choose|k: int|
                    0 <= k < s_prev.len() && (#[trigger] s_prev[k]) is Some
                        && s_prev[k]->0.label_id == id as int;
                assert(s1[k] == s_prev[k]);
                assert(s2[k] is Some && s2[k]->0.label_id == id);
                assert(s_t[k] == point_close(s2[k], m.fins));
                assert(s_t[k] is Some && s_t[k]->0.label_id == id);
            } else {
                assert(holds_id(s1, id as int));
                let k = choose|k: int|
                    0 <= k < s1.len() && (#[trigger] s1[k]) is Some && s1[k]->0.label_id
                        == id as int;
                assert(s2[k] is Some && s2[k]->0.label_id == id);
                assert(s_t[k] == point_close(s2[k], m.fins));
                assert(s_t[k] is Some && s_t[k]->0.label_id == id);
            }
        }
    }
}

/// A table of empty lanes has no occupancy.
proof fn lemma_occupied_all_none(s: Seq<Option<ActiveMultiline>>)
    requires
        forall|k: int| 0 <= k < s.len() ==> (#[trigger] s[k]) is None,
    ensures
        occupied(s) == 0,
    decreases s.len(),
{
    if s.len() > 0 {
        assert(forall|k: int|
            0 <= k < s.drop_first().len() ==> #[trigger] s.drop_first()[k] == s[k + 1]);
        lemma_occupied_all_none(s.drop_first());
    }
}

/// Law: the capacity computed ahead of rendering is never exceeded while
/// rendering: the slot table reaching any chunk keeps exactly
/// `maximum_parallel_labels` lanes, and right after the chunk's labels open
/// their lanes, the occupied lanes number exactly the labels visually
/// present there — never more than the capacity, so no lane beyond it is
/// ever needed.
pub proof fn lemma_slots_capacity(src: crate::source::Source, d: BodyDescriptor, t: int)
    requires
        crate::diagnostic::body::descriptor_wf(src, d),
        0 <= t < d.chunks@.len(),
    ensures
        ({
            let ms = crate::diagnostic::body::models(d.chunks@);
            let s = sim_slots(ms, d.maximum_parallel_labels as nat, t);
            let s1 = spec_start_labels(
                s,
                ms[t].starts,
                crate::diagnostic::body::starts_count(d.chunks@, t),
            );
            &&& s.len() == d.maximum_parallel_labels
            &&& s1.len() == d.maximum_parallel_labels
            &&& occupied(s1) == crate::diagnostic::body::parallel_at(d.chunks@, t)
            &&& occupied(s1) <= d.maximum_parallel_labels
        }),
{
    let ms = crate::diagnostic::body::models(d.chunks@);
    lemma_sim_slots_props(src, d, t);
    crate::diagnostic::body::lemma_model_folds(d.chunks@, t);
    crate::diagnostic::body::lemma_parallel_capacity(src, d, t);
    reveal(crate::diagnostic::body::descriptor_wf);
    reveal(crate::diagnostic::body::chunks_wf);
    let s = sim_slots(ms, d.maximum_parallel_labels as nat, t);
    let nid = crate::diagnostic::body::starts_count(d.chunks@, t);
    assert(ms[t] == crate::diagnostic::body::model_of(d.chunks@[t]));
    crate::diagnostic::body::lemma_wf_counts(src, d.chunks@, t);
    crate::diagnostic::body::lemma_starts_count_mono(d.chunks@, 0, t);
    crate::diagnostic::body::lemma_starts_count_mono(
        d.chunks@,
        t + 1,
        d.chunks@.len() as int,
    );
    lemma_start_labels_props(s, ms[t].starts, nid);
}

} // verus!
