//! A line-oriented calculator for time values.
//!
//! Each line of a document is parsed independently into an absolute
//! timestamp, a signed duration, a UTC-offset directive, or nothing at all.
//! Lines may reference earlier lines, an active UTC offset is threaded
//! through the document, and results can be rendered back as date-time and
//! numeric strings.

pub mod calendar;
pub mod directive;
pub mod display;
pub mod document;
pub mod expr;
pub mod format;
pub mod grammar;
pub mod laws;
pub mod scan;

pub use display::ClipboardError;
pub use display::Container;
pub use display::Rendered;
pub use document::parse;
pub use document::Record;
pub use expr::Duration;
pub use expr::Expression;
pub use format::ToFormattedString;
pub use grammar::parse_expression;
pub use grammar::ParseError;
pub use grammar::State;
