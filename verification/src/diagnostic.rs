//! Diagnostics: a message with labeled spans over a source, rendered either
//! as an annotated source listing or in a compact one-line-per-label form.

/// Module for the diagnostic's body layout.
pub mod body;
/// Module for the body's label classifier and event builder.
pub mod builder;
/// Module for the body's slot allocator and renderer.
pub mod writer;
/// Module for diagnostic configuration related items.
pub mod config;
/// Module for the building blocks of rendered output.
pub mod fmt;

use crate::diagnostic::config::Config;
use crate::diagnostic::config::Style;
use crate::diagnostic::fmt::dec_digits;
use crate::diagnostic::fmt::push_char;
use crate::diagnostic::fmt::push_spaces;
use crate::diagnostic::fmt::push_styled;
use crate::diagnostic::fmt::spaces;
use crate::diagnostic::fmt::styled;
use crate::source::NoSource;
use crate::source::Source;
use crate::source::SourceSpan;
use vstd::pervasive::unreached;
use vstd::prelude::*;
use vstd::string::StringExecFns;

verus! {

/// A label is a message that points to a specific part of the source of a
/// [`Diagnostic`].
#[derive(Debug)]
pub struct Label {
    /// The message of this label.
    pub message: String,
    /// The span this label refers to.
    pub span: SourceSpan,
    /// The indicator style of this label.
    pub indicator_style: Option<Style>,
}

/// Whether a label's span can be resolved to lines of a source: the source
/// has lines and the span's bytes all lie within it.
pub open spec fn label_resolvable(src: Source, label: Label) -> bool {
    &&& label.span.wf()
    &&& src.spec_lines().len() > 0
    &&& Source::spec_effective_end(label.span) <= src.bytes().len()
}

impl Label {
    /// Creates a new label.
    pub fn new(span: SourceSpan, message: &str) -> (r: Self)
        ensures
            r.message@ == message@,
            r.span == span,
            r.indicator_style is None,
    {
        Label { message: message.to_owned(), span, indicator_style: None }
    }

    /// Creates a new label with the given style for it's indicator.
    pub fn styled(span: SourceSpan, message: &str, style: Style) -> (r: Self)
        ensures
            r.message@ == message@,
            r.span == span,
            r.indicator_style == Some(style),
    {
        Label { message: message.to_owned(), span, indicator_style: Some(style) }
    }

    /// An owned copy of this label, equal to it.
    pub fn duplicate(&self) -> (r: Label)
        ensures
            r == *self,
    {
        Label {
            message: self.message.clone(),
            span: self.span,
            indicator_style: self.indicator_style,
        }
    }

    /// Returns the line range of this label in the given source.
    pub(crate) fn line_range(&self, src: &Source) -> (r: (usize, usize))
        requires
            src.wf(),
            label_resolvable(*src, *self),
        ensures
            r.0 as int == src.spec_line_of(self.span.spec_start() as int),
            r.1 as int == src.spec_line_of(Source::spec_effective_end(self.span)) + 1,
            r.0 < r.1 <= src.spec_lines().len(),
            src.line_at(r.0 as int, self.span.spec_start() as int),
            src.line_at(r.1 - 1, Source::spec_effective_end(self.span)),
    {
        match src.line_range_of_span(self.span) {
            Some(p) => {
                proof {
                    crate::source::lemma_spec_line_of(
                        *src,
                        p.0 as int,
                        self.span.spec_start() as int,
                    );
                    crate::source::lemma_spec_line_of(
                        *src,
                        p.1 - 1,
                        Source::spec_effective_end(self.span),
                    );
                }
                p
            },
            None => unreached(),
        }
    }

    /// Returns whether this label is singleline or not.
    pub(crate) fn is_singleline(&self, src: &Source) -> (r: bool)
        requires
            src.wf(),
            label_resolvable(*src, *self),
        ensures
            r == (src.spec_line_of(self.span.spec_start() as int) == src.spec_line_of(
                Source::spec_effective_end(self.span),
            )),
    {
        let range = self.line_range(src);
        range.0 + 1 == range.1
    }
}

/// A diagnostic.
#[derive(Debug)]
pub struct Diagnostic<Src> {
    message: String,
    labels: Vec<Label>,
    footnotes: Vec<String>,
    source: Src,
}

impl<Src> Diagnostic<Src> {
    /// The message of this diagnostic, as seen by contracts.
    pub closed spec fn spec_message(self) -> Seq<char> {
        self.message@
    }

    /// The labels of this diagnostic, as seen by contracts.
    pub closed spec fn spec_labels(self) -> Seq<Label> {
        self.labels@
    }

    /// The footnotes of this diagnostic, as seen by contracts.
    pub closed spec fn spec_footnotes(self) -> Seq<Seq<char>> {
        self.footnotes.deep_view()
    }

    /// The source of this diagnostic, as seen by contracts.
    pub closed spec fn spec_source(self) -> Src {
        self.source
    }

    /// Replaces the message of this diagnostic.
    pub fn with_message(self, message: &str) -> (r: Self)
        ensures
            r.spec_message() == message@,
            r.spec_labels() == self.spec_labels(),
            r.spec_footnotes() == self.spec_footnotes(),
            r.spec_source() == self.spec_source(),
    {
        Diagnostic { message: message.to_owned(), ..self }
    }

    /// Add a [`Label`] to this diagnostic.
    pub fn add_label(&mut self, label: Label)
        ensures
            final(self).spec_labels() == old(self).spec_labels().push(label),
            final(self).spec_message() == old(self).spec_message(),
            final(self).spec_footnotes() == old(self).spec_footnotes(),
            final(self).spec_source() == old(self).spec_source(),
    {
        self.labels.push(label);
    }

    /// Add a [`Label`] to this diagnostic.
    pub fn with_label(self, label: Label) -> (r: Self)
        ensures
            r.spec_labels() == self.spec_labels().push(label),
            r.spec_message() == self.spec_message(),
            r.spec_footnotes() == self.spec_footnotes(),
            r.spec_source() == self.spec_source(),
    {
        let mut this = self;
        this.add_label(label);
        this
    }

    /// Replaces the [`Label`]s of this diagnostic.
    pub fn with_labels(self, labels: Vec<Label>) -> (r: Self)
        ensures
            r.spec_labels() == labels@,
            r.spec_message() == self.spec_message(),
            r.spec_footnotes() == self.spec_footnotes(),
            r.spec_source() == self.spec_source(),
    {
        Diagnostic { labels, ..self }
    }

    /// Add a footnote to this diagnostic. A footnote is a message shown after
    /// the body of a diagnostic.
    pub fn add_footnote(&mut self, footnote: &str)
        ensures
            final(self).spec_footnotes() == old(self).spec_footnotes().push(footnote@),
            final(self).spec_message() == old(self).spec_message(),
            final(self).spec_labels() == old(self).spec_labels(),
            final(self).spec_source() == old(self).spec_source(),
    {
        self.footnotes.push(footnote.to_owned());
        proof {
            assert(self.footnotes.deep_view() =~= old(self).footnotes.deep_view().push(
                footnote@,
            ));
        }
    }

    /// Add a footnote to this diagnostic. A footnote is a message shown after
    /// the body of a diagnostic.
    pub fn with_footnote(self, footnote: &str) -> (r: Self)
        ensures
            r.spec_footnotes() == self.spec_footnotes().push(footnote@),
            r.spec_message() == self.spec_message(),
            r.spec_labels() == self.spec_labels(),
            r.spec_source() == self.spec_source(),
    {
        let mut this = self;
        this.add_footnote(footnote);
        this
    }
}

impl Diagnostic<NoSource> {
    /// Create a new diagnostic without an associated source.
    pub fn new(message: &str) -> (r: Self)
        ensures
            r.spec_message() == message@,
            r.spec_labels() == Seq::<Label>::empty(),
            r.spec_footnotes() == Seq::<Seq<char>>::empty(),
    {
        let r = Diagnostic {
            message: message.to_owned(),
            labels: Vec::new(),
            footnotes: Vec::new(),
            source: NoSource,
        };
        proof {
            assert(r.footnotes.deep_view() =~= Seq::<Seq<char>>::empty());
        }
        r
    }

    /// Attach a source to this diagnostic.
    pub fn with_source(self, source: Source) -> (r: Diagnostic<Source>)
        ensures
            r.spec_message() == self.spec_message(),
            r.spec_labels() == self.spec_labels(),
            r.spec_footnotes() == self.spec_footnotes(),
            r.spec_source() == source,
    {
        Diagnostic {
            message: self.message,
            labels: self.labels,
            footnotes: self.footnotes,
            source,
        }
    }
}

impl Diagnostic<Source> {
    /// Whether every label of this diagnostic resolves to lines of its
    /// source.
    pub open spec fn spec_labels_resolvable(self) -> bool {
        forall|i: int|
            0 <= i < self.spec_labels().len() ==> label_resolvable(
                self.spec_source(),
                #[trigger] self.spec_labels()[i],
            )
    }

    /// Checks whether every label of this diagnostic resolves to lines of
    /// its source; rendering requires it.
    pub fn labels_resolvable(&self) -> (r: bool)
        requires
            self.spec_source().wf(),
        ensures
            r == self.spec_labels_resolvable(),
    {
        let n_lines = self.source.lines().len();
        let src_len = self.source.src().len();
        let mut i: usize = 0;
        while i < self.labels.len()
            invariant
                self.spec_source().wf(),
                n_lines == self.spec_source().spec_lines().len(),
                src_len == self.spec_source().bytes().len(),
                0 <= i <= self.spec_labels().len(),
                forall|j: int|
                    0 <= j < i ==> label_resolvable(
                        self.spec_source(),
                        #[trigger] self.spec_labels()[j],
                    ),
            decreases self.labels.len() - i,
        {
            let span = self.labels[i].span;
            if span.start() > span.end() {
                return false;
            }
            if n_lines == 0 {
                return false;
            }
            let eff = if span.end() > span.start() {
                span.end() - 1
            } else {
                span.start()
            };
            if (eff as usize) > src_len {
                return false;
            }
            i += 1;
        }
        true
    }

    /// The name shown for this diagnostic's source.
    pub open spec fn spec_name_text(self) -> Seq<char> {
        match self.spec_source().spec_name() {
            Some(n) => n,
            None => "unknown"@,
        }
    }

    /// One row of the compact body: the label's line or line range and its
    /// message.
    pub open spec fn spec_compact_row(self, c: Config, label: Label) -> Seq<char> {
        let src = self.spec_source();
        let ls = src.spec_line_of(label.span.spec_start() as int);
        let le = src.spec_line_of(Source::spec_effective_end(label.span)) + 1;
        styled(c.styles.left_column, seq![c.charset.vertical_bar]) + " "@ + styled(
            c.styles.left_column,
            "["@,
        ) + (if ls + 1 == le {
            styled(c.styles.source, "line "@) + styled(c.styles.source, dec_digits(ls))
        } else {
            styled(c.styles.source, "lines "@) + styled(
                c.styles.source,
                dec_digits(ls) + ".."@ + dec_digits(le),
            )
        }) + styled(c.styles.left_column, "]: "@) + label.message@ + "\n"@
    }

    /// The compact body rows for the first `n` labels.
    pub open spec fn spec_compact_rows(self, c: Config, n: int) -> Seq<char>
        decreases n,
    {
        if n <= 0 {
            Seq::<char>::empty()
        } else {
            self.spec_compact_rows(c, n - 1) + self.spec_compact_row(
                c,
                self.spec_labels()[n - 1],
            )
        }
    }

    /// The compact header: the message, then the source name.
    pub open spec fn spec_header_compact(self, c: Config) -> Seq<char> {
        self.spec_message() + "\n"@ + styled(c.styles.left_column, "@"@) + " "@ + styled(
            c.styles.left_column,
            "["@,
        ) + styled(c.styles.source_name, self.spec_name_text()) + styled(
            c.styles.left_column,
            "]:"@,
        ) + "\n"@
    }

    /// One footnote row of the compact form.
    pub open spec fn spec_footnote_row_compact(self, c: Config, note: Seq<char>) -> Seq<char> {
        styled(c.styles.footnote_indicator, ">"@) + " "@ + note + "\n"@
    }

    /// The compact footnote rows for the first `n` footnotes.
    pub open spec fn spec_footnotes_compact(self, c: Config, n: int) -> Seq<char>
        decreases n,
    {
        if n <= 0 {
            Seq::<char>::empty()
        } else {
            self.spec_footnotes_compact(c, n - 1) + self.spec_footnote_row_compact(
                c,
                self.spec_footnotes()[n - 1],
            )
        }
    }

    /// The whole compact rendering: header, one row per label, footnotes,
    /// and a closing blank line.
    pub open spec fn spec_render_compact(self, c: Config) -> Seq<char> {
        self.spec_header_compact(c) + self.spec_compact_rows(c, self.spec_labels().len() as int)
            + self.spec_footnotes_compact(c, self.spec_footnotes().len() as int) + "\n"@
    }

    /// Renders this diagnostic in compact mode: a header, one line per
    /// label, and the footnotes, with no layout logic.
    #[verifier::rlimit(100)]
    pub fn render_compact(&self, config: &Config) -> (r: String)
        requires
            self.spec_source().wf(),
            self.spec_labels_resolvable(),
        ensures
            r@ == self.spec_render_compact(*config),
    {
        let mut out = String::new();
        out.append(self.message.as_str());
        out.append("\n");
        push_styled(&mut out, &config.styles.left_column, "@");
        out.append(" ");
        push_styled(&mut out, &config.styles.left_column, "[");
        match self.source.name() {
            Some(n) => push_styled(&mut out, &config.styles.source_name, n),
            None => push_styled(&mut out, &config.styles.source_name, "unknown"),
        }
        push_styled(&mut out, &config.styles.left_column, "]:");
        out.append("\n");
        proof {
            assert(out@ =~= self.spec_header_compact(*config));
        }
        let ghost header = out@;
        let mut i: usize = 0;
        while i < self.labels.len()
            invariant
                self.spec_source().wf(),
                self.spec_labels_resolvable(),
                0 <= i <= self.spec_labels().len(),
                out@ == header + self.spec_compact_rows(*config, i as int),
                header == self.spec_header_compact(*config),
            decreases self.labels.len() - i,
        {
            let label = &self.labels[i];
            let ghost row_base = out@;
            let range = label.line_range(&self.source);
            push_styled(
                &mut out,
                &config.styles.left_column,
                char_str(config.charset.vertical_bar).as_str(),
            );
            out.append(" ");
            push_styled(&mut out, &config.styles.left_column, "[");
            if range.0 + 1 == range.1 {
                push_styled(&mut out, &config.styles.source, "line ");
                let num = dec_string(range.0);
                push_styled(&mut out, &config.styles.source, num.as_str());
            } else {
                push_styled(&mut out, &config.styles.source, "lines ");
                let mut num = dec_string(range.0);
                num.append("..");
                let num2 = dec_string(range.1);
                num.append(num2.as_str());
                push_styled(&mut out, &config.styles.source, num.as_str());
            }
            push_styled(&mut out, &config.styles.left_column, "]: ");
            out.append(label.message.as_str());
            out.append("\n");
            proof {
                assert(out@ =~= row_base + self.spec_compact_row(
                    *config,
                    self.spec_labels()[i as int],
                ));
                assert(out@ == header + self.spec_compact_rows(*config, i as int + 1));
            }
            i += 1;
        }
        let ghost rows = out@;
        let mut j: usize = 0;
        while j < self.footnotes.len()
            invariant
                0 <= j <= self.spec_footnotes().len(),
                self.spec_footnotes().len() == self.footnotes@.len(),
                out@ == rows + self.spec_footnotes_compact(*config, j as int),
                rows == self.spec_header_compact(*config) + self.spec_compact_rows(
                    *config,
                    self.spec_labels().len() as int,
                ),
            decreases self.footnotes.len() - j,
        {
            push_styled(&mut out, &config.styles.footnote_indicator, ">");
            out.append(" ");
            out.append(self.footnotes[j].as_str());
            out.append("\n");
            proof {
                assert(self.footnotes.deep_view()[j as int] == self.footnotes@[j as int]@);
                assert(out@ =~= rows + self.spec_footnotes_compact(*config, j as int + 1));
            }
            j += 1;
        }
        out.append("\n");
        proof {
            assert(out@ =~= self.spec_render_compact(*config));
        }
        out
    }
}

impl Diagnostic<Source> {
    /// Whether every label of this diagnostic can be rendered in the full
    /// body layout over its source.
    pub open spec fn spec_labels_renderable(self) -> bool {
        forall|i: int|
            0 <= i < self.spec_labels().len()
                ==> crate::diagnostic::body::label_renderable(
                self.spec_source(),
                #[trigger] self.spec_labels()[i],
            )
    }

    /// Checks whether every label of this diagnostic can be rendered in the
    /// full body layout; rendering requires it. A label fails the check when
    /// its span runs past the source, or when it underlines a single line
    /// but starts inside the line's indentation, runs past the line's end,
    /// or cuts the text between character boundaries.
    pub fn labels_renderable(&self) -> (r: bool)
        requires
            self.spec_source().wf(),
        ensures
            r == self.spec_labels_renderable(),
    {
        broadcast use vstd::utf8::encode_utf8_valid_utf8;

        let mut i: usize = 0;
        while i < self.labels.len()
            invariant
                self.spec_source().wf(),
                0 <= i <= self.spec_labels().len(),
                forall|j: int|
                    0 <= j < i ==> crate::diagnostic::body::label_renderable(
                        self.spec_source(),
                        #[trigger] self.spec_labels()[j],
                    ),
            decreases self.labels.len() - i,
        {
            let label = &self.labels[i];
            let span = label.span;
            if span.start() > span.end() {
                return false;
            }
            if self.source.lines().len() == 0 {
                return false;
            }
            let eff = if span.end() > span.start() {
                span.end() - 1
            } else {
                span.start()
            };
            if (eff as usize) > self.source.src().len() {
                return false;
            }
            proof {
                assert(crate::diagnostic::label_resolvable(
                    self.spec_source(),
                    self.spec_labels()[i as int],
                ));
            }
            if label.is_singleline(&self.source) {
                let range = label.line_range(&self.source);
                let line = self.source.line(range.0);
                let d = line.dedented_span().start();
                let e = line.dedented_span().end();
                if !(d <= span.start() && span.start() <= e) {
                    return false;
                }
                if !self.source.src().is_char_boundary(span.start() as usize) {
                    return false;
                }
                if span.end() < e {
                    if !self.source.src().is_char_boundary(span.end() as usize) {
                        return false;
                    }
                }
            }
            i += 1;
        }
        true
    }

    /// The header of the full rendering: the message, then the source name
    /// behind the line number column.
    pub open spec fn spec_header(self, c: Config, w: int) -> Seq<char> {
        self.spec_message() + "\n"@ + spaces(w) + " "@ + styled(c.styles.left_column, "@"@)
            + " "@ + styled(c.styles.left_column, "["@) + styled(
            c.styles.source_name,
            self.spec_name_text(),
        ) + styled(c.styles.left_column, "]"@) + "\n"@
    }

    /// One footnote row of the full rendering.
    pub open spec fn spec_footnote_row(self, c: Config, w: int, note: Seq<char>) -> Seq<char> {
        spaces(w) + " "@ + styled(c.styles.footnote_indicator, ">"@) + " "@ + note + "\n"@
    }

    /// The footnote rows of the full rendering, for the first `n` footnotes.
    pub open spec fn spec_footnote_rows(self, c: Config, w: int, n: int) -> Seq<char>
        decreases n,
    {
        if n <= 0 {
            Seq::<char>::empty()
        } else {
            self.spec_footnote_rows(c, w, n - 1) + self.spec_footnote_row(
                c,
                w,
                self.spec_footnotes()[n - 1],
            )
        }
    }

    /// The whole full rendering: the header, the laid-out body of the sweep
    /// over this diagnostic's labels, the footnotes, and a closing blank
    /// line. This pins the output as a function of the diagnostic and the
    /// configuration alone.
    pub open spec fn spec_render(self, c: Config) -> Seq<char> {
        let ms = crate::diagnostic::builder::sweep(
            self.spec_source(),
            crate::diagnostic::builder::sort_desc(self.spec_labels()),
            Seq::<(usize, SourceSpan)>::empty(),
            0,
            -1,
        );
        let w = crate::diagnostic::body::m_width(ms);
        let trim = crate::diagnostic::body::m_min_indent(ms, ms.len() as int);
        let cap = crate::diagnostic::body::m_high_water(ms, ms.len() as int);
        self.spec_header(c, w) + crate::diagnostic::writer::spec_body(ms, c, w, trim, cap as nat)
            + self.spec_footnote_rows(c, w, self.spec_footnotes().len() as int) + "\n"@
    }

    /// Renders this diagnostic as an annotated source listing: a header, the
    /// laid-out body with underlines and multi-line connectors, and the
    /// footnotes.
    #[verifier::rlimit(100)]
    pub fn render(&self, config: &Config) -> (r: String)
        requires
            self.spec_source().wf(),
            self.spec_labels_renderable(),
        ensures
            r@ == self.spec_render(*config),
    {
        let mut labels: Vec<Label> = Vec::new();
        let mut i: usize = 0;
        while i < self.labels.len()
            invariant
                0 <= i <= self.spec_labels().len(),
                labels@ =~= self.spec_labels().take(i as int),
            decreases self.labels.len() - i,
        {
            labels.push(self.labels[i].duplicate());
            proof {
                assert(labels@ =~= self.spec_labels().take(i as int + 1));
            }
            i += 1;
        }
        proof {
            assert(labels@ =~= self.spec_labels());
        }
        let descriptor = crate::diagnostic::body::BodyDescriptor::new(&self.source, labels);
        let ghost ms = crate::diagnostic::body::models(descriptor.chunks@);
        proof {
            reveal(crate::diagnostic::body::descriptor_wf);
            crate::diagnostic::body::lemma_model_folds(
                descriptor.chunks@,
                descriptor.chunks@.len() as int,
            );
            assert(descriptor.line_number_width as int
                == crate::diagnostic::body::m_width(ms)) by {
                if descriptor.chunks@.len() > 0 {
                    assert(ms[ms.len() - 1] == crate::diagnostic::body::model_of(
                        descriptor.chunks@[descriptor.chunks@.len() - 1],
                    ));
                }
            }
        }
        let w = descriptor.line_number_width;
        let mut out = String::new();
        out.append(self.message.as_str());
        out.append("\n");
        crate::diagnostic::fmt::push_spaces(&mut out, w);
        out.append(" ");
        push_styled(&mut out, &config.styles.left_column, "@");
        out.append(" ");
        push_styled(&mut out, &config.styles.left_column, "[");
        match self.source.name() {
            Some(n) => push_styled(&mut out, &config.styles.source_name, n),
            None => push_styled(&mut out, &config.styles.source_name, "unknown"),
        }
        push_styled(&mut out, &config.styles.left_column, "]");
        out.append("\n");
        proof {
            assert(out@ =~= self.spec_header(*config, w as int));
        }
        let ghost header = out@;
        descriptor.write_to(&mut out, config, Ghost(self.source));
        let ghost with_body = out@;
        let mut j: usize = 0;
        while j < self.footnotes.len()
            invariant
                0 <= j <= self.spec_footnotes().len(),
                self.spec_footnotes().len() == self.footnotes@.len(),
                w == descriptor.line_number_width,
                out@ == with_body + self.spec_footnote_rows(*config, w as int, j as int),
            decreases self.footnotes.len() - j,
        {
            let ghost row_base = out@;
            crate::diagnostic::fmt::push_spaces(&mut out, w);
            out.append(" ");
            push_styled(&mut out, &config.styles.footnote_indicator, ">");
            out.append(" ");
            out.append(self.footnotes[j].as_str());
            out.append("\n");
            proof {
                assert(self.footnotes.deep_view()[j as int] == self.footnotes@[j as int]@);
                assert(out@ =~= row_base + self.spec_footnote_row(
                    *config,
                    w as int,
                    self.spec_footnotes()[j as int],
                ));
            }
            j += 1;
        }
        out.append("\n");
        proof {
            assert(out@ =~= self.spec_render(*config));
        }
        out
    }
}

/// A one-character string.
fn char_str(c: char) -> (r: String)
    ensures
        r@ == seq![c],
{
    let mut s = String::new();
    push_char(&mut s, c);
    s
}

/// The decimal digits of a number, as a string.
fn dec_string(n: usize) -> (r: String)
    ensures
        r@ == dec_digits(n as int),
{
    let mut s = String::new();
    crate::diagnostic::fmt::push_dec(&mut s, n);
    s
}

} // verus!
