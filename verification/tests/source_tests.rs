use linediag::Source;
use linediag::SourceSpan;

const TEXT_SAMPLE_1: &str = "hello there darling!\nthis is\n\na sample text :)";

#[test]
fn test_lines() {
    let src = Source::new(TEXT_SAMPLE_1, None);
    let mut lines = src.lines().iter();

    let line = lines.next().unwrap();
    assert_eq!(line.index(), 0);
    assert_eq!(line.indent_size(), 0);
    assert_eq!(line.full_span(), SourceSpan::new(0, 20));
    assert_eq!(line.dedented_span(), SourceSpan::new(0, 20));
    assert_eq!(line.text(), "hello there darling!");

    // notice how index 20 is not included in any line
    // since it is the \n character!

    let line = lines.next().unwrap();
    assert_eq!(line.index(), 1);
    assert_eq!(line.indent_size(), 0);
    assert_eq!(line.full_span(), SourceSpan::new(21, 28));
    assert_eq!(line.dedented_span(), SourceSpan::new(21, 28));
    assert_eq!(line.text(), "this is");

    // the same goes for 28

    let line = lines.next().unwrap();
    assert_eq!(line.index(), 2);
    assert_eq!(line.indent_size(), 0);
    assert_eq!(line.full_span(), SourceSpan::new(29, 29));
    assert_eq!(line.dedented_span(), SourceSpan::new(29, 29));
    assert_eq!(line.text(), "");

    // index 29 is the \n! but it is also not included since
    // the line is empty (29..29)

    let line = lines.next().unwrap();
    assert_eq!(line.index(), 3);
    assert_eq!(line.indent_size(), 0);
    assert_eq!(line.full_span(), SourceSpan::new(30, 46));
    assert_eq!(line.dedented_span(), SourceSpan::new(30, 46));
    assert_eq!(line.text(), "a sample text :)");

    assert!(lines.next().is_none());
}

#[test]
pub fn test_line_range() {
    let src = Source::new(TEXT_SAMPLE_1, None);

    assert_eq!(Some((1, 2)), src.line_range_of_span(SourceSpan::new(21, 28)));
    assert_eq!(Some((1, 2)), src.line_range_of_span(SourceSpan::new(21, 29)));
    assert_eq!(Some((1, 3)), src.line_range_of_span(SourceSpan::new(21, 30)));
    assert_eq!(Some((1, 4)), src.line_range_of_span(SourceSpan::new(21, 31)));
}

#[test]
fn test_line_range_out_of_bounds() {
    let src = Source::new(TEXT_SAMPLE_1, None);
    // one past the end still resolves; further out does not
    assert_eq!(Some((3, 4)), src.line_range_of_span(SourceSpan::new(46, 46)));
    assert_eq!(None, src.line_range_of_span(SourceSpan::new(46, 48)));
    assert_eq!(None, src.line_range_of_span(SourceSpan::new(47, 47)));
}

#[test]
fn test_line_range_empty_source() {
    let src = Source::new("", None);
    assert_eq!(0, src.lines().len());
    assert_eq!(None, src.line_range_of_span(SourceSpan::new(0, 0)));
}

#[test]
fn test_lines_with_indentation() {
    let src = Source::new("fn f() {\n    let x = 1;\n\tdone\n}", None);
    let lines = src.lines();
    assert_eq!(lines[0].indent_size(), 0);
    assert_eq!(lines[1].indent_size(), 4);
    assert_eq!(lines[1].text(), "let x = 1;");
    assert_eq!(lines[1].full_span(), SourceSpan::new(9, 23));
    assert_eq!(lines[1].dedented_span(), SourceSpan::new(13, 23));
    assert_eq!(lines[2].indent_size(), 4);
    assert_eq!(lines[2].text(), "done");
}

#[test]
fn test_span_accessors() {
    let span = SourceSpan::new(3, 9);
    assert_eq!(span.start(), 3);
    assert_eq!(span.end(), 9);
    assert_eq!(span.len(), 6);
    assert!(!span.is_empty());
    assert!(span.contains(3));
    assert!(span.contains(8));
    assert!(!span.contains(9));
    assert!(SourceSpan::new(4, 4).is_empty());
}

#[test]
fn test_source_name() {
    let src = Source::new("abc", Some("a.txt"));
    assert_eq!(src.name(), Some("a.txt"));
    assert_eq!(src.src(), "abc");
    let unnamed = Source::new("abc", None);
    assert_eq!(unnamed.name(), None);
}
