//! The layout of a diagnostic's body: one chunk per emitted source line,
//! carrying the labels that start, continue and end there, plus the
//! precomputed capacities the renderer relies on.

use crate::diagnostic::Label;
use crate::source::Source;
use crate::source::SourceLine;
use vstd::prelude::*;

verus! {

/// A chunk of a diagnostic's body: one emitted source line and the label
/// events attached to it.
#[derive(Debug)]
pub struct BodyChunk {
    /// The source line this chunk renders.
    pub line: SourceLine,
    /// The single-line labels underlining parts of this line.
    pub singleline_labels: Vec<Label>,
    /// The multi-line labels whose first line this is, in the order their
    /// identifiers were assigned.
    pub starting_multiline_labels: Vec<Label>,
    /// The identifiers of multi-line labels whose last line this is.
    pub finishing_multiline_labels: Vec<usize>,
}

/// Describes a body and contains some cached useful information about it.
#[derive(Debug)]
pub struct BodyDescriptor {
    /// The chunks of this body.
    pub chunks: Vec<BodyChunk>,
    /// How much indentation can be trimmed off in every line.
    pub indent_trim: usize,
    /// The width needed to display all line numbers in the body.
    pub line_number_width: usize,
    /// The maximum number of parallel labels that happen in the body.
    pub maximum_parallel_labels: usize,
}

/// The mathematical content of a chunk, for stating what the sweep
/// produces.
pub struct ChunkModel {
    /// The source line of the chunk.
    pub line: SourceLine,
    /// The single-line labels of the chunk.
    pub singles: Seq<Label>,
    /// The starting multi-line labels of the chunk.
    pub starts: Seq<Label>,
    /// The finishing multi-line label identifiers of the chunk.
    pub fins: Seq<usize>,
}

/// The mathematical content of a chunk.
pub open spec fn model_of(c: BodyChunk) -> ChunkModel {
    ChunkModel {
        line: c.line,
        singles: c.singleline_labels@,
        starts: c.starting_multiline_labels@,
        fins: c.finishing_multiline_labels@,
    }
}

/// The mathematical content of a chunk sequence.
pub open spec fn models(chunks: Seq<BodyChunk>) -> Seq<ChunkModel> {
    chunks.map_values(|c: BodyChunk| model_of(c))
}

/// The total number of multi-line labels starting in the first `t` chunks.
/// A starting label's identifier is its position in this count.
pub open spec fn starts_count(chunks: Seq<BodyChunk>, t: int) -> int
    decreases t,
{
    if t <= 0 {
        0
    } else {
        starts_count(chunks, t - 1) + chunks[t - 1].starting_multiline_labels@.len()
    }
}

/// The total number of multi-line labels finishing in the first `t` chunks.
pub open spec fn finishes_count(chunks: Seq<BodyChunk>, t: int) -> int
    decreases t,
{
    if t <= 0 {
        0
    } else {
        finishes_count(chunks, t - 1) + chunks[t - 1].finishing_multiline_labels@.len()
    }
}

/// Whether identifier `id` finishes in one of the first `t` chunks.
pub open spec fn finished_in(chunks: Seq<BodyChunk>, t: int, id: usize) -> bool {
    exists|u: int| 0 <= u < t && chunks[u].finishing_multiline_labels@.contains(id)
}

/// The number of multi-line labels visually present on chunk `t`: those
/// started up to and including it, minus those finished strictly before it.
/// A label finishing on a line is still shown on it.
pub open spec fn parallel_at(chunks: Seq<BodyChunk>, t: int) -> int {
    starts_count(chunks, t + 1) - finishes_count(chunks, t)
}

/// The high-water mark of `parallel_at` over the first `t` chunks.
pub open spec fn high_water(chunks: Seq<BodyChunk>, t: int) -> int
    decreases t,
{
    if t <= 0 {
        0
    } else if high_water(chunks, t - 1) >= parallel_at(chunks, t - 1) {
        high_water(chunks, t - 1)
    } else {
        parallel_at(chunks, t - 1)
    }
}

/// The running minimum indent width over the non-empty lines of the first
/// `t` chunks, starting from the no-lines-seen sentinel.
pub open spec fn min_indent(chunks: Seq<BodyChunk>, t: int) -> int
    decreases t,
{
    if t <= 0 {
        usize::MAX as int
    } else if chunks[t - 1].line.spec_text().len() == 0 {
        min_indent(chunks, t - 1)
    } else if min_indent(chunks, t - 1) <= chunks[t - 1].line.spec_indent_size() {
        min_indent(chunks, t - 1)
    } else {
        chunks[t - 1].line.spec_indent_size() as int
    }
}

/// Whether a label underlines a part of one source line: both its first and
/// its deciding last byte fall on that line, its start does not fall inside
/// the line's indentation, and its cut points into the line's text sit on
/// character boundaries.
pub open spec fn singleline_label_on(src: Source, label: Label, line: SourceLine) -> bool {
    let k = line.spec_index() as int;
    let d = line.spec_dedented_span().spec_start() as int;
    let e = line.spec_dedented_span().spec_end() as int;
    &&& label.span.wf()
    &&& src.line_at(k, label.span.spec_start() as int)
    &&& src.line_at(k, Source::spec_effective_end(label.span))
    &&& d <= label.span.spec_start()
    &&& label.span.spec_start() <= e
    &&& vstd::utf8::is_char_boundary(src.bytes(), label.span.spec_start() as int)
    &&& (label.span.spec_end() < e ==> vstd::utf8::is_char_boundary(
        src.bytes(),
        label.span.spec_end() as int,
    ))
}

/// What a correctly built chunk sequence states about its source and labels.
#[verifier::opaque]
pub open spec fn chunks_wf(src: Source, chunks: Seq<BodyChunk>) -> bool {
    &&& forall|t: int|
        0 <= t < chunks.len() ==> {
            let line = (#[trigger] chunks[t]).line;
            &&& line.spec_index() < src.spec_lines().len()
            &&& line == src.spec_lines()[line.spec_index() as int]
        }
    &&& forall|t: int|
        0 <= t < chunks.len() - 1 ==> (#[trigger] chunks[t]).line.spec_index() < chunks[t
            + 1].line.spec_index()
    &&& forall|t: int, i: int|
        #![trigger chunks[t].singleline_labels@[i]]
        0 <= t < chunks.len() && 0 <= i < chunks[t].singleline_labels@.len()
            ==> singleline_label_on(src, chunks[t].singleline_labels@[i], chunks[t].line)
    &&& forall|t: int, i: int|
        #![trigger chunks[t].finishing_multiline_labels@[i]]
        0 <= t < chunks.len() && 0 <= i < chunks[t].finishing_multiline_labels@.len()
            ==> (chunks[t].finishing_multiline_labels@[i] as int) < starts_count(chunks, t + 1)
    &&& forall|t: int|
        0 <= t <= chunks.len() ==> #[trigger] finishes_count(chunks, t) <= starts_count(
            chunks,
            t,
        )
    &&& forall|t1: int, i1: int, t2: int, i2: int|
        #![trigger chunks[t1].finishing_multiline_labels@[i1], chunks[t2].finishing_multiline_labels@[i2]]
        0 <= t1 < chunks.len() && 0 <= i1 < chunks[t1].finishing_multiline_labels@.len() && 0
            <= t2 < chunks.len() && 0 <= i2 < chunks[t2].finishing_multiline_labels@.len() && (t1
            != t2 || i1 != i2) ==> chunks[t1].finishing_multiline_labels@[i1]
            != chunks[t2].finishing_multiline_labels@[i2]
}

/// What a correctly built descriptor states: its chunks are well formed and
/// its cached numbers are what the chunks determine.
#[verifier::opaque]
pub open spec fn descriptor_wf(src: Source, d: BodyDescriptor) -> bool {
    let chunks = d.chunks@;
    &&& chunks_wf(src, chunks)
    &&& d.indent_trim == min_indent(chunks, chunks.len() as int)
    &&& d.maximum_parallel_labels == high_water(chunks, chunks.len() as int)
    &&& starts_count(chunks, chunks.len() as int) <= usize::MAX
    &&& d.line_number_width == if chunks.len() == 0 {
        0int
    } else {
        crate::diagnostic::fmt::dec_digits(
            chunks[chunks.len() - 1].line.spec_index() + 1,
        ).len() as int
    }
}

/// Whether a label's span starts and ends (by its deciding last byte) on
/// the same source line.
pub open spec fn is_single(src: Source, label: Label) -> bool {
    src.spec_line_of(label.span.spec_start() as int) == src.spec_line_of(
        Source::spec_effective_end(label.span),
    )
}

/// Whether a label can be rendered in a body over a source: its span
/// resolves to lines, and, where it underlines a single line, its start does
/// not fall inside the line's indentation and its cut points into the source
/// sit on character boundaries.
pub open spec fn label_renderable(src: Source, label: Label) -> bool {
    &&& crate::diagnostic::label_resolvable(src, label)
    &&& (is_single(src, label) ==> {
        let k = src.spec_line_of(label.span.spec_start() as int);
        &&& 0 <= k < src.spec_lines().len()
        &&& src.spec_lines()[k].spec_dedented_span().spec_start() <= label.span.spec_start()
        &&& label.span.spec_start() <= src.spec_lines()[k].spec_dedented_span().spec_end()
        &&& vstd::utf8::is_char_boundary(src.bytes(), label.span.spec_start() as int)
        &&& (label.span.spec_end() < src.spec_lines()[k].spec_dedented_span().spec_end()
            ==> vstd::utf8::is_char_boundary(src.bytes(), label.span.spec_end() as int))
    })
}

/// Appending a chunk leaves every count and fold over a shorter prefix as it
/// was.
pub proof fn lemma_folds_push(chunks: Seq<BodyChunk>, c: BodyChunk, t: int)
    requires
        t <= chunks.len(),
    ensures
        starts_count(chunks.push(c), t) == starts_count(chunks, t),
        finishes_count(chunks.push(c), t) == finishes_count(chunks, t),
        min_indent(chunks.push(c), t) == min_indent(chunks, t),
        high_water(chunks.push(c), t) == high_water(chunks, t),
    decreases t,
{
    if t > 0 {
        lemma_folds_push(chunks, c, t - 1);
        assert(chunks.push(c)[t - 1] == chunks[t - 1]);
    }
}

/// The started-label count of a chunk stream, at the model level.
pub open spec fn m_starts_count(ms: Seq<ChunkModel>, t: int) -> int
    decreases t,
{
    if t <= 0 {
        0
    } else {
        m_starts_count(ms, t - 1) + ms[t - 1].starts.len()
    }
}

/// The finished-label count of a chunk stream, at the model level.
pub open spec fn m_fins_count(ms: Seq<ChunkModel>, t: int) -> int
    decreases t,
{
    if t <= 0 {
        0
    } else {
        m_fins_count(ms, t - 1) + ms[t - 1].fins.len()
    }
}

/// The labels visually present on chunk `t`, at the model level.
pub open spec fn m_parallel_at(ms: Seq<ChunkModel>, t: int) -> int {
    m_starts_count(ms, t + 1) - m_fins_count(ms, t)
}

/// The high-water mark of `m_parallel_at`, at the model level.
pub open spec fn m_high_water(ms: Seq<ChunkModel>, t: int) -> int
    decreases t,
{
    if t <= 0 {
        0
    } else if m_high_water(ms, t - 1) >= m_parallel_at(ms, t - 1) {
        m_high_water(ms, t - 1)
    } else {
        m_parallel_at(ms, t - 1)
    }
}

/// The running minimum indent over non-empty chunk lines, at the model
/// level.
pub open spec fn m_min_indent(ms: Seq<ChunkModel>, t: int) -> int
    decreases t,
{
    if t <= 0 {
        usize::MAX as int
    } else if ms[t - 1].line.spec_text().len() == 0 {
        m_min_indent(ms, t - 1)
    } else if m_min_indent(ms, t - 1) <= ms[t - 1].line.spec_indent_size() {
        m_min_indent(ms, t - 1)
    } else {
        ms[t - 1].line.spec_indent_size() as int
    }
}

/// The line-number column width a chunk stream needs, at the model level.
pub open spec fn m_width(ms: Seq<ChunkModel>) -> int {
    if ms.len() == 0 {
        0
    } else {
        crate::diagnostic::fmt::dec_digits(ms[ms.len() - 1].line.spec_index() + 1).len() as int
    }
}

/// The model-level folds agree with the chunk-level ones.
pub proof fn lemma_model_folds(chunks: Seq<BodyChunk>, t: int)
    requires
        0 <= t <= chunks.len(),
    ensures
        m_starts_count(models(chunks), t) == starts_count(chunks, t),
        m_fins_count(models(chunks), t) == finishes_count(chunks, t),
        m_min_indent(models(chunks), t) == min_indent(chunks, t),
        m_high_water(models(chunks), t) == high_water(chunks, t),
    decreases t,
{
    if t > 0 {
        lemma_model_folds(chunks, t - 1);
        assert(models(chunks)[t - 1] == model_of(chunks[t - 1]));
    }
}

/// In a well-formed chunk table no prefix finishes more labels than it
/// starts.
pub proof fn lemma_wf_counts(src: Source, chunks: Seq<BodyChunk>, t: int)
    requires
        chunks_wf(src, chunks),
        0 <= t <= chunks.len(),
    ensures
        finishes_count(chunks, t) <= starts_count(chunks, t),
{
    reveal(chunks_wf);
}

/// The number of labels visually present on any chunk never exceeds the
/// descriptor's precomputed capacity.
pub proof fn lemma_parallel_at_most_high_water(chunks: Seq<BodyChunk>, t: int, n: int)
    requires
        0 <= t < n <= chunks.len(),
    ensures
        parallel_at(chunks, t) <= high_water(chunks, n),
    decreases n,
{
    if t < n - 1 {
        lemma_parallel_at_most_high_water(chunks, t, n - 1);
    }
}

/// The trimmed indent never exceeds the indent of any non-empty chunk line.
pub proof fn lemma_min_indent_le(chunks: Seq<BodyChunk>, t: int, n: int)
    requires
        0 <= t < n <= chunks.len(),
        chunks[t].line.spec_text().len() > 0,
    ensures
        min_indent(chunks, n) <= chunks[t].line.spec_indent_size(),
    decreases n,
{
    if t < n - 1 {
        lemma_min_indent_le(chunks, t, n - 1);
    }
}

/// Starting counts grow with the chunk prefix.
pub proof fn lemma_starts_count_mono(chunks: Seq<BodyChunk>, t1: int, t2: int)
    requires
        t1 <= t2,
    ensures
        starts_count(chunks, t1) <= starts_count(chunks, t2),
        finishes_count(chunks, t1) <= finishes_count(chunks, t2),
    decreases t2 - t1,
{
    if t1 < t2 {
        lemma_starts_count_mono(chunks, t1, t2 - 1);
    }
}

impl BodyDescriptor {
    /// Builds a new `BodyDescriptor` for a label set over a source: the
    /// chunk stream of the sweep over the labels sorted by start, plus the
    /// cached numbers the chunks determine.
    pub fn new(source: &Source, labels: Vec<Label>) -> (d: BodyDescriptor)
        requires
            source.wf(),
            forall|i: int|
                0 <= i < labels@.len() ==> label_renderable(*source, #[trigger] labels@[i]),
        ensures
            descriptor_wf(*source, d),
            models(d.chunks@) == crate::diagnostic::builder::sweep(
                *source,
                crate::diagnostic::builder::sort_desc(labels@),
                Seq::<(usize, crate::source::SourceSpan)>::empty(),
                0,
                -1,
            ),
    {
        let b = crate::diagnostic::builder::DescriptorBuilder::new(source, labels);
        let d = b.build();
        proof {
            assert(models(Seq::<BodyChunk>::empty()) =~= Seq::<ChunkModel>::empty());
        }
        d
    }
}

/// Law: the precomputed capacity of a well-formed descriptor is never
/// exceeded — on every chunk, the number of multi-line labels visually
/// present (those started up to and including it, less those finished on
/// earlier chunks) is at most `maximum_parallel_labels`, so lane allocation
/// cannot overflow for any valid label set.
pub proof fn lemma_parallel_capacity(src: Source, d: BodyDescriptor, t: int)
    requires
        descriptor_wf(src, d),
        0 <= t < d.chunks@.len(),
    ensures
        parallel_at(d.chunks@, t) <= d.maximum_parallel_labels,
        0 <= parallel_at(d.chunks@, t),
{
    reveal(descriptor_wf);
    lemma_parallel_at_most_high_water(d.chunks@, t, d.chunks@.len() as int);
    lemma_wf_counts(src, d.chunks@, t);
    lemma_starts_count_mono(d.chunks@, t, t + 1);
}

} // verus!
