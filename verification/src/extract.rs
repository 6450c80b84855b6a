//! Choosing the heading parser by file name.

use vstd::prelude::*;
use vstd::utf8::{decode_utf8, encode_utf8, valid_utf8};
use crate::format::{DocumentError, HeadingView, RawStructruedText, heading_views};
use crate::parse_epub::{book_build, epub_book_chapters, epub_returns, parse_epub};
use crate::route_parser::parse_md::{mark_headings, parse_md};
use crate::route_parser::parse_text::{parse_text, text_headings};
use crate::text::{chars_of, ends_with_chars, ends_with_seq};

verus! {

/// The kinds of document whose headings can be extracted.
#[derive(Clone, Copy, Debug, PartialEq, Eq, Structural)]
pub enum DocumentKind {
    /// `.txt`: plain text.
    Text,
    /// `.epub`: an EPUB book.
    Epub,
    /// `.md` and `.org`: both read with the Markdown heading mark `#`.
    Markdown,
    /// Anything else: no headings.
    Other,
}

/// The kind of a document by the end of its file name.
pub open spec fn kind_of(fname: Seq<char>) -> DocumentKind {
    if ends_with_seq(fname, seq!['.', 't', 'x', 't']) {
        DocumentKind::Text
    } else if ends_with_seq(fname, seq!['.', 'e', 'p', 'u', 'b']) {
        DocumentKind::Epub
    } else if ends_with_seq(fname, seq!['.', 'm', 'd']) {
        DocumentKind::Markdown
    } else if ends_with_seq(fname, seq!['.', 'o', 'r', 'g']) {
        DocumentKind::Markdown
    } else {
        DocumentKind::Other
    }
}

/// The kind of the document named `fname`.
pub fn document_kind(fname: &str) -> (k: DocumentKind)
    ensures
        k == kind_of(fname@),
{
    let f = chars_of(fname);
    let txt = vec!['.', 't', 'x', 't'];
    let epub = vec!['.', 'e', 'p', 'u', 'b'];
    let md = vec!['.', 'm', 'd'];
    let org = vec!['.', 'o', 'r', 'g'];
    assert(txt@ =~= seq!['.', 't', 'x', 't']);
    assert(epub@ =~= seq!['.', 'e', 'p', 'u', 'b']);
    assert(md@ =~= seq!['.', 'm', 'd']);
    assert(org@ =~= seq!['.', 'o', 'r', 'g']);
    if ends_with_chars(&f, &txt) {
        DocumentKind::Text
    } else if ends_with_chars(&f, &epub) {
        DocumentKind::Epub
    } else if ends_with_chars(&f, &md) {
        DocumentKind::Markdown
    } else if ends_with_chars(&f, &org) {
        DocumentKind::Markdown
    } else {
        DocumentKind::Other
    }
}

/// `std::str::from_utf8`: succeeds exactly on valid UTF-8, and then the
/// text's UTF-8 encoding is the given bytes.
#[verifier::external_body]
fn str_from_utf8(bytes: &[u8]) -> (r: Option<&str>)
    ensures
        r is Some <==> valid_utf8(bytes@),
        r matches Some(s) ==> encode_utf8(s@) == bytes@,
{
    std::str::from_utf8(bytes).ok()
}

/// The headings and text that [`ExtractHeadline`] gives for a document of
/// kind `kind` with file contents `bytes`.
pub open spec fn extracted(kind: DocumentKind, bytes: Seq<u8>) -> Result<(Seq<HeadingView>, Seq<char>), DocumentError> {
    match kind {
        DocumentKind::Text => if valid_utf8(bytes) {
            Ok((text_headings(decode_utf8(bytes), true), decode_utf8(bytes)))
        } else {
            Err(DocumentError::InvalidUtf8)
        },
        DocumentKind::Markdown => if valid_utf8(bytes) {
            Ok((mark_headings(decode_utf8(bytes), seq!['#']), decode_utf8(bytes)))
        } else {
            Err(DocumentError::InvalidUtf8)
        },
        DocumentKind::Epub => match epub_book_chapters(bytes) {
            Some(cs) => Ok((book_build(cs).heads, book_build(cs).text)),
            None => Err(DocumentError::InvalidEpub),
        },
        DocumentKind::Other => Ok((Seq::empty(), Seq::empty())),
    }
}

/// Extracts the headings of the document named `fname` whose file holds
/// `bytes`: `.txt` files by the plain-text parser with every short framed
/// line a heading, `.epub` files by their chapters, `.md` and `.org` files
/// by the `#` mark; other files give no headings and no text. Text files
/// that are not UTF-8 and EPUB files that cannot be read are refused. An
/// EPUB file must be one on which `epubparse` returns.
#[allow(non_snake_case)]
pub fn ExtractHeadline(fname: &str, bytes: &[u8]) -> (r: Result<RawStructruedText, DocumentError>)
    requires
        kind_of(fname@) == DocumentKind::Epub ==> epub_returns(bytes@),
    ensures
        match (r, extracted(kind_of(fname@), bytes@)) {
            (Ok(t), Ok((hs, text))) => heading_views(t.heads@) == hs && t.raw_text@ == text,
            (Err(e), Err(e2)) => e == e2,
            _ => false,
        },
{
    match document_kind(fname) {
        DocumentKind::Text => match str_from_utf8(bytes) {
            Some(s) => {
                proof {
                    vstd::utf8::encode_utf8_decode_utf8(s@);
                }
                let (heads, raw_text) = parse_text(s.to_owned(), true);
                Ok(RawStructruedText { heads, raw_text })
            },
            None => Err(DocumentError::InvalidUtf8),
        },
        DocumentKind::Epub => parse_epub(bytes),
        DocumentKind::Markdown => match str_from_utf8(bytes) {
            Some(s) => {
                proof {
                    vstd::utf8::encode_utf8_decode_utf8(s@);
                }
                Ok(parse_md(s.to_owned()))
            },
            None => Err(DocumentError::InvalidUtf8),
        },
        DocumentKind::Other => {
            let r = RawStructruedText::default();
            assert(heading_views(r.heads@) =~= Seq::<HeadingView>::empty());
            Ok(r)
        },
    }
}

} // verus!
