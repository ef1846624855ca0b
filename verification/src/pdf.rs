//! Markdown from PDF bytes.
use vstd::prelude::*;
use crate::error::ArxivError;

verus! {

/// `bytes` holds the PDF header marker `%PDF-` somewhere.
pub open spec fn has_pdf_marker(bytes: Seq<u8>) -> bool {
    exists|i: int|
        0 <= i && i + 5 <= bytes.len() && #[trigger] bytes[i] == 0x25u8 && bytes[i + 1] == 0x50u8 && bytes[i
            + 2] == 0x44u8 && bytes[i + 3] == 0x46u8 && bytes[i + 4] == 0x2du8
}

/// Calls `pdf_inspector::process_pdf_mem`, keeping the markdown it produced (if any)
/// or the text of its error. The crate looks for a `%PDF-` header before anything
/// else and fails when there is none, which is all the contract states; what the
/// markdown holds is not stated.
#[verifier::external_body]
fn process_pdf_markdown(bytes: &[u8]) -> (r: Result<Option<String>, String>)
    ensures
        !has_pdf_marker(bytes@) ==> r is Err,
{
    match pdf_inspector::process_pdf_mem(bytes) {
        Ok(result) => Ok(result.markdown),
        Err(e) => Err(e.to_string()),
    }
}

/// Turn the outcome of PDF processing into the library's result: the markdown, a
/// parse error carrying the processor's message, or "no content" when the document
/// produced no markdown.
pub fn markdown_or_error(outcome: Result<Option<String>, String>) -> (r: Result<String, ArxivError>)
    ensures
        match (outcome, r) {
            (Ok(Some(md)), Ok(s)) => s@ == md@,
            (Ok(None), Err(ArxivError::NoContentAvailable(m))) => m@
                == "PDF produced no markdown output"@,
            (Err(msg), Err(ArxivError::ParseError(m))) => m@ == msg@,
            _ => false,
        },
{
    match outcome {
        Ok(Some(md)) => Ok(md),
        Ok(None) => Err(
            ArxivError::NoContentAvailable(String::from_str("PDF produced no markdown output")),
        ),
        Err(msg) => Err(ArxivError::ParseError(msg)),
    }
}

/// Extract the text of a PDF as markdown. Bytes without a `%PDF-` header always give
/// an error.
pub fn extract_text(bytes: &[u8]) -> (r: Result<String, ArxivError>)
    ensures
        !has_pdf_marker(bytes@) ==> r matches Err(ArxivError::ParseError(_)),
        r matches Err(ArxivError::NoContentAvailable(m)) ==> m@ == "PDF produced no markdown output"@,
        !(r matches Err(ArxivError::InvalidPaperId(_))),
{
    let outcome = process_pdf_markdown(bytes);
    markdown_or_error(outcome)
}

} // verus!
