//! Word documents: read with `docx_rust`; no headings are taken from them.

use vstd::prelude::*;
use crate::format::{DocumentError, RawStructruedText};

verus! {

/// Whether `docx_rust` can open the bytes of a Word file as an archive
/// (`DocxFile::from_reader`) and parse its content (`DocxFile::parse`).
pub uninterp spec fn docx_readable(bytes: Seq<u8>) -> bool;

/// Opens `bytes` with `docx_rust::DocxFile::from_reader` and parses the
/// result with `DocxFile::parse`. The claim: it answers `true` exactly when
/// both succeed, which depends on the bytes alone.
#[verifier::external_body]
fn docx_parses(bytes: &[u8]) -> (r: bool)
    ensures
        r == docx_readable(bytes@),
{
    match docx_rust::DocxFile::from_reader(std::io::Cursor::new(bytes)) {
        Ok(file) => file.parse().is_ok(),
        Err(_) => false,
    }
}

/// Reads the Word file `bytes`: its headings are not extracted, so a
/// readable file gives no headings and no text; an unreadable one is
/// refused as `InvalidDocx`.
pub fn parse_docx(bytes: &[u8]) -> (r: Result<RawStructruedText, DocumentError>)
    ensures
        r is Ok <==> docx_readable(bytes@),
        r matches Ok(t) ==> t.heads@.len() == 0 && t.raw_text@.len() == 0,
        r matches Err(e) ==> e == DocumentError::InvalidDocx,
{
    if docx_parses(bytes) {
        Ok(RawStructruedText::default())
    } else {
        Err(DocumentError::InvalidDocx)
    }
}

} // verus!
