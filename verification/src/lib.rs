//! Compiler-style diagnostics: a message plus labeled byte spans anchored into
//! a source text, rendered as an annotated source listing.

pub mod diagnostic;
pub mod source;
pub mod text;

pub use diagnostic::config::Charset;
pub use diagnostic::config::Config;
pub use diagnostic::config::DefaultStyles;
pub use diagnostic::config::Style;
pub use diagnostic::Diagnostic;
pub use diagnostic::Label;
pub use source::NoSource;
pub use source::Source;
pub use source::SourceLine;
pub use source::SourceSpan;
