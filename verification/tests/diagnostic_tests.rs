use linediag::diagnostic::body::BodyDescriptor;
use linediag::Charset;
use linediag::Config;
use linediag::DefaultStyles;
use linediag::Diagnostic;
use linediag::Label;
use linediag::Source;
use linediag::SourceSpan;
use linediag::Style;

fn plain_config() -> Config {
    Config {
        charset: Charset::default(),
        styles: DefaultStyles {
            source_name: Style::new(),
            source: Style::new(),
            left_column: Style::new(),
            multiline_indicator: Style::new(),
            singleline_indicator: Style::new(),
            footnote_indicator: Style::new(),
        },
    }
}

const RUST_SNIPPET: &str = "enum List {\n    Cons(i32, Box<List>),\n    Nil,\n}";
const FOUR_LINES: &str = "aaaa\nbbbb\ncccc\ndddd";

#[test]
fn test_singleline() {
    let src = Source::new(RUST_SNIPPET, Some("src/lib.rs"));
    let diagnostic = Diagnostic::new("error[E0072]: recursive type `List` has infinite size")
        .with_label(Label::new(SourceSpan::new(5, 9), ""))
        .with_label(Label::new(SourceSpan::new(16, 20), "recursive without indirection"))
        .with_footnote("error: could not compile `playground` (lib) due to previous error")
        .with_source(src);

    assert!(diagnostic.labels_renderable());
    let out = diagnostic.render(&plain_config());
    let expected = "error[E0072]: recursive type `List` has infinite size\n  \
                    @ [src/lib.rs]\n\
                    1 │ enum List {\n  \
                      :      ^^^^ \n\
                    2 │     Cons(i32, Box<List>),\n  \
                      :     ^^^^ recursive without indirection\n  \
                      > error: could not compile `playground` (lib) due to previous error\n\n";
    assert_eq!(out, expected);
}

#[test]
fn test_multiline_1() {
    let src = Source::new(FOUR_LINES, None);
    let diagnostic = Diagnostic::new("two regions")
        .with_label(Label::new(SourceSpan::new(0, 14), "first"))
        .with_label(Label::new(SourceSpan::new(5, 19), "second"))
        .with_source(src);

    assert!(diagnostic.labels_renderable());
    let out = diagnostic.render(&plain_config());
    let expected = "two regions\n  \
                      @ [unknown]\n\
                    1 │ ┬   aaaa\n\
                    2 │ │ ┬ bbbb\n\
                    3 │ ┼ │ cccc\n  \
                      : ╰╶┼╶╶╶╶╶ first\n\
                    4 │   ┼ dddd\n  \
                      :   ╰╶╶╶╶╶ second\n\n";
    assert_eq!(out, expected);
}

#[test]
fn test_multiline_2() {
    // a styled label renders with escape sequences under the default styles
    let src = Source::new(FOUR_LINES, Some("just testing"));
    let diagnostic = Diagnostic::new("note: this is a test")
        .with_label(Label::new(SourceSpan::new(0, 19), "just testing two multilines"))
        .with_label(Label::styled(SourceSpan::new(5, 9), "hello", Style::default().red()))
        .with_source(src);

    assert!(diagnostic.labels_renderable());
    let out = diagnostic.render(&Config::default());
    assert!(out.contains("\u{1b}[38;5;1m"));
    assert!(out.contains("\u{1b}[0m"));
    assert!(out.contains("hello"));
    assert!(out.contains("just testing two multilines"));
    let compact = diagnostic.render_compact(&Config::default());
    assert!(compact.contains("just testing"));
}

#[test]
fn test_single_label_layout() {
    // one label over the word at the start of the first line
    let src = Source::new("hello there darling!\n\nworld", None);
    let diagnostic = Diagnostic::new("greeting")
        .with_label(Label::new(SourceSpan::new(0, 5), "hello"))
        .with_source(src);

    let d = BodyDescriptor::new(
        &Source::new("hello there darling!\n\nworld", None),
        vec![Label::new(SourceSpan::new(0, 5), "hello")],
    );
    assert_eq!(d.chunks.len(), 1);
    assert_eq!(d.chunks[0].line.index(), 0);
    assert_eq!(d.chunks[0].singleline_labels.len(), 1);
    assert_eq!(d.maximum_parallel_labels, 0);

    let out = diagnostic.render(&plain_config());
    let expected = "greeting\n  \
                      @ [unknown]\n\
                    1 │ hello there darling!\n  \
                      : ^^^^^ hello\n\n";
    assert_eq!(out, expected);
    // the underline is exactly five columns wide
    assert!(out.contains("^^^^^ hello"));
    assert!(!out.contains("^^^^^^"));
}

#[test]
fn test_nested_multiline_crossing() {
    // the second label's line range nests within the first's; both close on
    // the last line, so the outer's closing rule crosses the inner's lane
    let src = Source::new(FOUR_LINES, None);
    let outer = Label::new(SourceSpan::new(0, 19), "outer");
    let inner = Label::new(SourceSpan::new(5, 19), "inner");
    let diagnostic = Diagnostic::new("note")
        .with_label(outer)
        .with_label(inner)
        .with_source(src);

    let d = BodyDescriptor::new(
        &Source::new(FOUR_LINES, None),
        vec![
            Label::new(SourceSpan::new(0, 19), "outer"),
            Label::new(SourceSpan::new(5, 19), "inner"),
        ],
    );
    assert_eq!(d.maximum_parallel_labels, 2);
    // the outer label occupies slot zero, the inner slot one
    assert_eq!(d.chunks[0].starting_multiline_labels[0].message, "outer");
    assert_eq!(d.chunks[1].starting_multiline_labels[0].message, "inner");

    let out = diagnostic.render(&plain_config());
    let expected = "note\n  \
                      @ [unknown]\n\
                    1 │ ┬   aaaa\n\
                    2 │ │ ┬ bbbb\n\
                    3 │ │ │ cccc\n\
                    4 │ ┼ ┼ dddd\n  \
                      : ╰╶┼╶╶╶╶╶ outer\n  \
                      :   ╰╶╶╶╶╶ inner\n\n";
    assert_eq!(out, expected);
    // the crossing glyph sits on the outer label's closing row
    assert!(out.contains("╰╶┼"));
}

#[test]
fn test_span_ending_on_newline() {
    // byte three is the newline closing the first line: the label is
    // single-line and its underline stops before the newline
    let src = Source::new("abc\ndef", None);
    let label = Label::new(SourceSpan::new(0, 4), "first line");
    let diagnostic = Diagnostic::new("edge").with_label(label).with_source(src);

    let d = BodyDescriptor::new(
        &Source::new("abc\ndef", None),
        vec![Label::new(SourceSpan::new(0, 4), "first line")],
    );
    assert_eq!(d.chunks.len(), 1);
    assert_eq!(d.chunks[0].singleline_labels.len(), 1);
    assert_eq!(d.maximum_parallel_labels, 0);

    let out = diagnostic.render(&plain_config());
    assert!(out.contains("^^^ first line"));
    assert!(!out.contains("^^^^"));
}

#[test]
fn test_compact_two_multilines() {
    // the compact form prints one line per label with exclusive end lines
    let src = Source::new(FOUR_LINES, Some("x"));
    let diagnostic = Diagnostic::new("note")
        .with_label(Label::new(SourceSpan::new(0, 19), "outer"))
        .with_label(Label::new(SourceSpan::new(5, 19), "inner"))
        .with_source(src);

    let out = diagnostic.render_compact(&plain_config());
    let expected = "note\n\
                    @ [x]:\n\
                    │ [lines 0..4]: outer\n\
                    │ [lines 1..4]: inner\n\n";
    assert_eq!(out, expected);
}

#[test]
fn test_compact_singleline() {
    let src = Source::new(RUST_SNIPPET, Some("src/lib.rs"));
    let diagnostic = Diagnostic::new("msg")
        .with_label(Label::new(SourceSpan::new(16, 20), "here"))
        .with_footnote("note")
        .with_source(src);

    let out = diagnostic.render_compact(&plain_config());
    let expected = "msg\n\
                    @ [src/lib.rs]:\n\
                    │ [line 1]: here\n\
                    > note\n\n";
    assert_eq!(out, expected);
}

#[test]
fn test_render_is_deterministic() {
    let src = Source::new(FOUR_LINES, Some("f"));
    let diagnostic = Diagnostic::new("note")
        .with_label(Label::new(SourceSpan::new(0, 14), "first"))
        .with_label(Label::new(SourceSpan::new(5, 19), "second"))
        .with_source(src);
    let cfg = Config::default();
    assert_eq!(diagnostic.render(&cfg), diagnostic.render(&cfg));
    assert_eq!(
        diagnostic.render_compact(&cfg),
        diagnostic.render_compact(&cfg)
    );
}

#[test]
fn test_builder_methods() {
    let mut diagnostic = Diagnostic::new("first");
    diagnostic.add_label(Label::new(SourceSpan::new(0, 1), "a"));
    diagnostic.add_footnote("f1");
    let diagnostic = diagnostic
        .with_message("second")
        .with_footnote("f2")
        .with_labels(vec![Label::new(SourceSpan::new(1, 2), "b")]);
    let src = Source::new("xyz", None);
    let diagnostic = diagnostic.with_source(src);
    let out = diagnostic.render_compact(&plain_config());
    let expected = "second\n\
                    @ [unknown]:\n\
                    │ [line 0]: b\n\
                    > f1\n\
                    > f2\n\n";
    assert_eq!(out, expected);
}

#[test]
fn test_labels_renderable_rejects_out_of_bounds() {
    let src = Source::new("abc", None);
    let diagnostic = Diagnostic::new("m")
        .with_label(Label::new(SourceSpan::new(0, 9), "too far"))
        .with_source(src);
    assert!(!diagnostic.labels_renderable());
}

#[test]
fn test_labels_renderable_rejects_mid_character_cut() {
    // a span cutting the two-byte character in half cannot be underlined
    let src = Source::new("\u{e9}x", None);
    let diagnostic = Diagnostic::new("m")
        .with_label(Label::new(SourceSpan::new(1, 2), "inside"))
        .with_source(src);
    assert!(!diagnostic.labels_renderable());
}

#[test]
fn test_labels_renderable_rejects_start_in_indent() {
    let src = Source::new("    abc", None);
    let diagnostic = Diagnostic::new("m")
        .with_label(Label::new(SourceSpan::new(1, 6), "in the indent"))
        .with_source(src);
    assert!(!diagnostic.labels_renderable());
}

#[test]
fn test_default_charset() {
    let cs = Charset::default();
    assert_eq!(cs.vertical_bar, '│');
    assert_eq!(cs.horizontal_bar, '╶');
    assert_eq!(cs.underliner, '^');
    assert_eq!(cs.separator, ':');
    assert_eq!(cs.connection_top_to_right, '╰');
    assert_eq!(cs.multiline_start, '┬');
    assert_eq!(cs.multiline_end, '┼');
    assert_eq!(cs.multiline_crossing, '┼');
}

#[test]
fn test_default_styles() {
    let st = DefaultStyles::default();
    assert_eq!(st.source_name, Style::new().white().bold());
    assert_eq!(st.source, Style::new().white());
    assert_eq!(st.left_column, Style::new().bright_blue().bold());
    assert_eq!(st.multiline_indicator, Style::new().yellow());
    assert_eq!(st.singleline_indicator, Style::new().yellow());
    assert_eq!(st.footnote_indicator, Style::new().bright_blue().bold());
    assert_eq!(Style::default(), Style::new());
}

#[test]
fn test_wide_text_underline_alignment() {
    // the underline offset counts display columns, not bytes: the fullwidth
    // character before the span is two columns wide
    let src = Source::new("\u{65e5}x", None);
    let diagnostic = Diagnostic::new("m")
        .with_label(Label::new(SourceSpan::new(3, 4), "the x"))
        .with_source(src);
    assert!(diagnostic.labels_renderable());
    let out = diagnostic.render(&plain_config());
    assert!(out.contains("  ^ the x"));
}

#[test]
fn test_tab_indent_margin() {
    // a tab counts four columns of indentation; the shared trim removes it
    let src = Source::new("\tabc\n\tdef", None);
    let diagnostic = Diagnostic::new("m")
        .with_label(Label::new(SourceSpan::new(1, 4), "abc"))
        .with_label(Label::new(SourceSpan::new(6, 9), "def"))
        .with_source(src);
    assert!(diagnostic.labels_renderable());
    let out = diagnostic.render(&plain_config());
    assert!(out.contains("1 │ abc\n"));
    assert!(out.contains("2 │ def\n"));
}
