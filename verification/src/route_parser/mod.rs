//! Parsers that locate headings in plain text and in Markdown/Org text.

pub mod parse_md;
pub mod parse_text;
