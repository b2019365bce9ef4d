//! A small language-testing core: expectations about a command's exit status
//! and captured output are written in an indentation-based text format, parsed
//! into named test groups, and checked against the text a command actually
//! produced with a line-oriented fuzzy matcher.
//!
//! The matching language is deliberately minimal. A pattern is a sequence of
//! trimmed lines; the token `...` on a line of its own skips zero or more
//! actual lines, while `...text` and `text...` match a single line by its
//! suffix or prefix. Matching ignores leading and trailing whitespace of the
//! whole captured stream and of each line, and is case sensitive.

pub mod fuzzy;
pub mod outcome;
pub mod parser;
pub mod pattern;
pub mod status;
pub mod text;
