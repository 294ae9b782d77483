//! Configuration for rendering a diagnostic: the glyph set, the style table,
//! and the ANSI styling escapes.

use crate::diagnostic::fmt::dec_digits;
use vstd::prelude::*;

verus! {

/// A terminal text style: an optional foreground color, given as an index
/// into the 256-color terminal palette, and a bold flag.
#[derive(Debug, Clone, Copy, PartialEq, Eq)]
pub struct Style {
    /// The foreground color, as a 256-color palette index, if any.
    pub fg: Option<u8>,
    /// Whether the text is bold.
    pub bold: bool,
}

impl Style {
    /// A style that applies no formatting.
    pub fn new() -> (r: Self)
        ensures
            r == (Style { fg: None, bold: false }),
    {
        Style { fg: None, bold: false }
    }

    /// This style with the given palette color as foreground.
    pub fn color(self, fg: u8) -> (r: Self)
        ensures
            r == (Style { fg: Some(fg), ..self }),
    {
        Style { fg: Some(fg), ..self }
    }

    /// This style in bold.
    pub fn bold(self) -> (r: Self)
        ensures
            r == (Style { bold: true, ..self }),
    {
        Style { bold: true, ..self }
    }

    /// This style with a red foreground.
    pub fn red(self) -> (r: Self)
        ensures
            r == (Style { fg: Some(1u8), ..self }),
    {
        self.color(1)
    }

    /// This style with a green foreground.
    pub fn green(self) -> (r: Self)
        ensures
            r == (Style { fg: Some(2u8), ..self }),
    {
        self.color(2)
    }

    /// This style with a yellow foreground.
    pub fn yellow(self) -> (r: Self)
        ensures
            r == (Style { fg: Some(3u8), ..self }),
    {
        self.color(3)
    }

    /// This style with a white foreground.
    pub fn white(self) -> (r: Self)
        ensures
            r == (Style { fg: Some(7u8), ..self }),
    {
        self.color(7)
    }

    /// This style with a bright blue foreground.
    pub fn bright_blue(self) -> (r: Self)
        ensures
            r == (Style { fg: Some(12u8), ..self }),
    {
        self.color(12)
    }
}

impl Default for Style {
    /// The default style applies no formatting.
    fn default() -> (r: Self)
        ensures
            r == (Style { fg: None, bold: false }),
    {
        Style::new()
    }
}

/// The ANSI escape that switches a terminal to the given style: empty for the
/// plain style, else a select-graphic-rendition sequence naming the palette
/// color and the bold flag.
pub open spec fn spec_sgr_prefix(fg: Option<u8>, bold: bool) -> Seq<char> {
    match fg {
        Some(c) => seq!['\u{1b}', '[', '3', '8', ';', '5', ';'] + dec_digits(c as int) + (
        if bold {
            seq![';', '1']
        } else {
            Seq::<char>::empty()
        }) + seq!['m'],
        None => if bold {
            seq!['\u{1b}', '[', '1', 'm']
        } else {
            Seq::<char>::empty()
        },
    }
}

/// The ANSI escape that resets a terminal after the given style: empty for
/// the plain style, else the reset sequence.
pub open spec fn spec_sgr_suffix(fg: Option<u8>, bold: bool) -> Seq<char> {
    if fg is None && !bold {
        Seq::<char>::empty()
    } else {
        seq!['\u{1b}', '[', '0', 'm']
    }
}

/// Relies on owo_colors::Style::prefix_formatter: for a style with at most a
/// 256-palette foreground color and a bold flag, the prefix is empty when the
/// style is plain, and otherwise an escape holding `38;5;`, the decimal color
/// index, and `1` for bold, in that order.
#[verifier::external_body]
pub(crate) fn sgr_prefix(fg: Option<u8>, bold: bool) -> (r: String)
    ensures
        r@ == spec_sgr_prefix(fg, bold),
{
    let mut st = owo_colors::Style::new();
    if let Some(c) = fg {
        st = st.color(owo_colors::DynColors::Xterm(owo_colors::XtermColors::from(c)));
    }
    if bold {
        st = st.bold();
    }
    format!("{}", st.prefix_formatter())
}

/// Relies on owo_colors::Style::suffix_formatter: the suffix is empty when
/// the style is plain and the reset escape otherwise.
#[verifier::external_body]
pub(crate) fn sgr_suffix(fg: Option<u8>, bold: bool) -> (r: String)
    ensures
        r@ == spec_sgr_suffix(fg, bold),
{
    let mut st = owo_colors::Style::new();
    if let Some(c) = fg {
        st = st.color(owo_colors::DynColors::Xterm(owo_colors::XtermColors::from(c)));
    }
    if bold {
        st = st.bold();
    }
    format!("{}", st.suffix_formatter())
}

/// The charset to use when rendering a diagnostic.
#[derive(Debug, Clone, Copy, PartialEq, Eq)]
pub struct Charset {
    /// A vertical bar.
    pub vertical_bar: char,
    /// An horizontal bar.
    pub horizontal_bar: char,
    /// The character used to underline the source in single-line labels.
    pub underliner: char,
    /// The character that's used instead of the vertical bar when not in a
    /// source line.
    pub separator: char,
    /// The character that connects the vertical bar to the connector in
    /// multiline labels.
    pub connection_top_to_right: char,
    /// The character for when a multiline label starts.
    pub multiline_start: char,
    /// The character for when a multiline label ends.
    pub multiline_end: char,
    /// The character for when two multiline labels cross.
    pub multiline_crossing: char,
}

impl Default for Charset {
    /// The default charset draws with box-drawing glyphs.
    fn default() -> (r: Self)
        ensures
            r == (Charset {
                vertical_bar: '│',
                horizontal_bar: '╶',
                underliner: '^',
                separator: ':',
                connection_top_to_right: '╰',
                multiline_start: '┬',
                multiline_end: '┼',
                multiline_crossing: '┼',
            }),
    {
        Charset {
            vertical_bar: '│',
            horizontal_bar: '╶',
            underliner: '^',
            separator: ':',
            connection_top_to_right: '╰',
            multiline_start: '┬',
            multiline_end: '┼',
            multiline_crossing: '┼',
        }
    }
}

/// Default styles to use for each part of a diagnostic.
#[derive(Debug, Clone, Copy, PartialEq, Eq)]
pub struct DefaultStyles {
    /// The style of the source's name in the header.
    pub source_name: Style,
    /// The style of the source text itself.
    pub source: Style,
    /// The style of the line-number column.
    pub left_column: Style,
    /// The style of multi-line label connectors without a style of their own.
    pub multiline_indicator: Style,
    /// The style of single-line underlines without a style of their own.
    pub singleline_indicator: Style,
    /// The style of the footnote marker.
    pub footnote_indicator: Style,
}

impl Default for DefaultStyles {
    /// The default style table.
    fn default() -> (r: Self)
        ensures
            r == (DefaultStyles {
                source_name: Style { fg: Some(7u8), bold: true },
                source: Style { fg: Some(7u8), bold: false },
                left_column: Style { fg: Some(12u8), bold: true },
                multiline_indicator: Style { fg: Some(3u8), bold: false },
                singleline_indicator: Style { fg: Some(3u8), bold: false },
                footnote_indicator: Style { fg: Some(12u8), bold: true },
            }),
    {
        DefaultStyles {
            source_name: Style::new().white().bold(),
            source: Style::new().white(),
            left_column: Style::new().bright_blue().bold(),
            multiline_indicator: Style::new().yellow(),
            singleline_indicator: Style::new().yellow(),
            footnote_indicator: Style::new().bright_blue().bold(),
        }
    }
}

/// Configuration used to render a diagnostic.
#[derive(Debug, Clone, Copy, PartialEq, Eq)]
pub struct Config {
    /// The glyphs to draw with.
    pub charset: Charset,
    /// The styles for each part of the output.
    pub styles: DefaultStyles,
}

impl Default for Config {
    /// The default configuration.
    fn default() -> (r: Self)
        ensures
            r.charset == (Charset {
                vertical_bar: '│',
                horizontal_bar: '╶',
                underliner: '^',
                separator: ':',
                connection_top_to_right: '╰',
                multiline_start: '┬',
                multiline_end: '┼',
                multiline_crossing: '┼',
            }),
            r.styles == (DefaultStyles {
                source_name: Style { fg: Some(7u8), bold: true },
                source: Style { fg: Some(7u8), bold: false },
                left_column: Style { fg: Some(12u8), bold: true },
                multiline_indicator: Style { fg: Some(3u8), bold: false },
                singleline_indicator: Style { fg: Some(3u8), bold: false },
                footnote_indicator: Style { fg: Some(12u8), bold: true },
            }),
    {
        Config { charset: Charset::default(), styles: DefaultStyles::default() }
    }
}

} // verus!
