//! Heading extraction for plain-text, Markdown/Org and EPUB documents, the
//! heading tree built from them, and the annotation and account rules of the
//! reader that displays them.

pub mod text;
pub mod format;
pub mod pattern;
pub mod route_parser;
pub mod heading_tree;
pub mod parse_text;
pub mod parse_docx;
pub mod parse_epub;
pub mod extract;
pub mod reader;
