use linediag::diagnostic::body::BodyDescriptor;
use linediag::Label;
use linediag::Source;
use linediag::SourceSpan;

const RUST_SNIPPET: &str = "enum List {\n    Cons(i32, Box<List>),\n    Nil,\n}";
const FOUR_LINES: &str = "aaaa\nbbbb\ncccc\ndddd";
const GRID: &str = "0123456789\nabcdefghij\nklmnopqrst\nuvwxyz";

#[test]
fn test_build_singleline() {
    let src = Source::new(RUST_SNIPPET, Some("src/lib.rs"));
    let labels = vec![
        Label::new(SourceSpan::new(5, 9), ""),
        Label::new(SourceSpan::new(16, 20), "recursive without indirection"),
    ];

    let d = BodyDescriptor::new(&src, labels);
    assert_eq!(d.chunks.len(), 2);
    assert_eq!(d.chunks[0].line.index(), 0);
    assert_eq!(d.chunks[0].singleline_labels.len(), 1);
    assert_eq!(d.chunks[0].starting_multiline_labels.len(), 0);
    assert_eq!(d.chunks[0].finishing_multiline_labels.len(), 0);
    assert_eq!(d.chunks[1].line.index(), 1);
    assert_eq!(d.chunks[1].singleline_labels.len(), 1);
    assert_eq!(
        d.chunks[1].singleline_labels[0].message,
        "recursive without indirection"
    );
    assert_eq!(d.indent_trim, 0);
    assert_eq!(d.line_number_width, 1);
    assert_eq!(d.maximum_parallel_labels, 0);
}

#[test]
fn test_build_multiline_1() {
    let src = Source::new(FOUR_LINES, Some("src/main.rs"));
    let labels = vec![
        Label::new(SourceSpan::new(0, 14), "first"),
        Label::new(SourceSpan::new(5, 19), "second"),
    ];

    let d = BodyDescriptor::new(&src, labels);
    assert_eq!(d.chunks.len(), 4);
    assert_eq!(d.chunks[0].starting_multiline_labels.len(), 1);
    assert_eq!(d.chunks[0].starting_multiline_labels[0].message, "first");
    assert_eq!(d.chunks[1].starting_multiline_labels.len(), 1);
    assert_eq!(d.chunks[1].starting_multiline_labels[0].message, "second");
    assert_eq!(d.chunks[2].finishing_multiline_labels, vec![0]);
    assert_eq!(d.chunks[3].finishing_multiline_labels, vec![1]);
    assert_eq!(d.maximum_parallel_labels, 2);
    assert_eq!(d.line_number_width, 1);
}

#[test]
fn test_build_multiline_2() {
    let src = Source::new(GRID, Some("just testing"));
    let labels = vec![
        Label::new(SourceSpan::new(0, 36), "just testing two multilines"),
        Label::new(SourceSpan::new(11, 24), "hi"),
        Label::new(SourceSpan::new(25, 31), "hello"),
    ];

    let d = BodyDescriptor::new(&src, labels);
    assert_eq!(d.chunks.len(), 4);
    // the widest label starts first and takes identifier zero
    assert_eq!(d.chunks[0].starting_multiline_labels.len(), 1);
    assert_eq!(
        d.chunks[0].starting_multiline_labels[0].message,
        "just testing two multilines"
    );
    assert_eq!(d.chunks[1].starting_multiline_labels.len(), 1);
    assert_eq!(d.chunks[1].starting_multiline_labels[0].message, "hi");
    // the single-line label sits on the third line, where `hi` also ends
    assert_eq!(d.chunks[2].singleline_labels.len(), 1);
    assert_eq!(d.chunks[2].singleline_labels[0].message, "hello");
    assert_eq!(d.chunks[2].finishing_multiline_labels, vec![1]);
    assert_eq!(d.chunks[3].finishing_multiline_labels, vec![0]);
    assert_eq!(d.maximum_parallel_labels, 2);
}

#[test]
fn test_build_skips_untouched_lines() {
    let src = Source::new("one\ntwo\nthree\nfour\nfive", None);
    let labels = vec![
        Label::new(SourceSpan::new(0, 3), "a"),
        Label::new(SourceSpan::new(14, 18), "b"),
    ];
    let d = BodyDescriptor::new(&src, labels);
    assert_eq!(d.chunks.len(), 2);
    assert_eq!(d.chunks[0].line.index(), 0);
    assert_eq!(d.chunks[1].line.index(), 3);
}

#[test]
fn test_build_indent_trim_ignores_empty_lines() {
    let src = Source::new("    aa\n\n        bb", None);
    let labels = vec![Label::new(SourceSpan::new(4, 18), "over all")];
    let d = BodyDescriptor::new(&src, labels);
    // the empty middle line is emitted but does not force zero trimming
    assert_eq!(d.chunks.len(), 3);
    assert_eq!(d.indent_trim, 4);
}

#[test]
fn test_build_empty_label_set() {
    let src = Source::new("abc", None);
    let d = BodyDescriptor::new(&src, Vec::new());
    assert_eq!(d.chunks.len(), 0);
    assert_eq!(d.line_number_width, 0);
    assert_eq!(d.maximum_parallel_labels, 0);
    assert_eq!(d.indent_trim, usize::MAX);
}
