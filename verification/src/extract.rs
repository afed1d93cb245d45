//! The text of a document, by its kind.

use crate::extract_error;
use crate::extract_error::ExtractError;
use crate::extract_error::Failure;
use crate::language::AppLanguage;
use crate::office;
use crate::path::FilePath;
use crate::pdf;
use crate::plain_text;
use crate::scan::DocumentKind;
use vstd::prelude::*;

verus! {

/// The contents of a document of that kind and size are read. Others are told by their size.
pub open spec fn is_read(kind: DocumentKind, file_size: u64) -> bool {
    match kind {
        DocumentKind::Pdf => 0 < file_size <= pdf::MAX_PDF_FILE_SIZE,
        DocumentKind::PlainText => 0 < file_size <= plain_text::MAX_PLAIN_TEXT_FILE_SIZE,
        _ => true,
    }
}

/// Whether the contents of a document of that kind and size are read.
pub fn reads_contents(kind: DocumentKind, file_size: u64) -> (r: bool)
    ensures
        r == is_read(kind, file_size),
{
    match kind {
        DocumentKind::Pdf => pdf::pdf_readable(file_size),
        DocumentKind::PlainText => plain_text::plain_text_readable(file_size),
        _ => true,
    }
}

/// Why there is no text of a document of that kind that can be opened and not be read.
pub open spec fn reading_failure(kind: DocumentKind) -> Failure {
    match kind {
        DocumentKind::Docx | DocumentKind::Odt => Failure::NoArchive,
        DocumentKind::FlatOdt => Failure::FlatMalformed,
        DocumentKind::Pdf | DocumentKind::PlainText => Failure::NotRead,
    }
}

/// Why there is no text of a document of that kind that can be opened and not be read.
pub fn failure_of_reading(kind: DocumentKind) -> (r: ExtractError)
    ensures
        r@ == reading_failure(kind),
{
    match kind {
        DocumentKind::Docx | DocumentKind::Odt => ExtractError::NoArchive,
        DocumentKind::FlatOdt => ExtractError::FlatMalformed,
        DocumentKind::Pdf | DocumentKind::PlainText => ExtractError::NotRead,
    }
}

/// `r` is the text of a document, or the message of a failure.
pub open spec fn is_document_text(
    kind: DocumentKind,
    p: Seq<u8>,
    file_size: u64,
    s: Seq<u8>,
    parsed: Option<Seq<char>>,
    lang: AppLanguage,
    r: Result<Seq<char>, Seq<char>>,
) -> bool {
    match kind {
        DocumentKind::Docx => exists|came: Result<Seq<char>, Failure>| #[trigger]
            office::docx_outcome(s, came) && r == extract_error::reported(came, p, lang),
        DocumentKind::Odt => r == extract_error::reported(office::odt_outcome(s), p, lang),
        DocumentKind::FlatOdt => r == extract_error::reported(office::flat_outcome(s), p, lang),
        DocumentKind::Pdf => r == extract_error::reported(
            pdf::pdf_outcome(file_size, s, parsed),
            p,
            lang,
        ),
        DocumentKind::PlainText => r == extract_error::reported(
            plain_text::plain_text_outcome(file_size, s),
            p,
            lang,
        ),
    }
}

/// The text of a document, or a message. `s` is what the file holds, or nothing where its
/// size keeps it from being read. `parsed` is what a full reading of a PDF document gave; it
/// counts for PDF documents only.
pub fn extract_document(
    kind: DocumentKind,
    file: &FilePath,
    file_size: u64,
    s: &[u8],
    parsed: Option<String>,
    lang: AppLanguage,
) -> (r: Result<String, String>)
    ensures
        is_document_text(
            kind,
            file@,
            file_size,
            s@,
            pdf::optional_text(parsed),
            lang,
            extract_error::texts(r),
        ),
{
    let r = match kind {
        DocumentKind::Docx => office::docx_text(s),
        DocumentKind::Odt => office::odt_text(s),
        DocumentKind::FlatOdt => office::flat_text(s),
        DocumentKind::Pdf => pdf::pdf_text(file_size, s, parsed),
        DocumentKind::PlainText => plain_text::plain_text(file_size, s),
    };
    extract_error::report(r, file, lang)
}

/// A document is read by its kind alone: which of the readers sees its contents does not
/// depend on its path, its size or the language. What the reader gives is reported.
pub proof fn documents_are_read_by_kind(
    p: Seq<u8>,
    file_size: u64,
    s: Seq<u8>,
    parsed: Option<Seq<char>>,
    lang: AppLanguage,
    t: Seq<char>,
    r: Result<Seq<char>, Seq<char>>,
)
    ensures
        is_document_text(DocumentKind::Odt, p, file_size, s, parsed, lang, r) <==> r
            == extract_error::reported(office::odt_outcome(s), p, lang),
        is_document_text(DocumentKind::FlatOdt, p, file_size, s, parsed, lang, r) <==> r
            == extract_error::reported(office::flat_outcome(s), p, lang),
        is_document_text(DocumentKind::Pdf, p, file_size, s, parsed, lang, r) <==> r
            == extract_error::reported(pdf::pdf_outcome(file_size, s, parsed), p, lang),
        is_document_text(DocumentKind::PlainText, p, file_size, s, parsed, lang, r) <==> r
            == extract_error::reported(plain_text::plain_text_outcome(file_size, s), p, lang),
        is_document_text(DocumentKind::Docx, p, file_size, s, parsed, lang, Ok(t))
            <==> office::docx_outcome(s, Ok(t)),
{
    if is_document_text(DocumentKind::Docx, p, file_size, s, parsed, lang, Ok(t)) {
        let came = choose|came: Result<Seq<char>, Failure>| #[trigger]
            office::docx_outcome(s, came) && Ok::<Seq<char>, Seq<char>>(t)
                == extract_error::reported(came, p, lang);
        assert(came == Ok::<Seq<char>, Failure>(t));
    }
    if office::docx_outcome(s, Ok(t)) {
        assert(extract_error::reported(Ok(t), p, lang) == Ok::<Seq<char>, Seq<char>>(t));
    }
}

/// A WordprocessingML file that has no text fails with the message of what its parts failed
/// with.
pub proof fn failures_of_word_documents_are_reported(
    p: Seq<u8>,
    file_size: u64,
    s: Seq<u8>,
    parsed: Option<Seq<char>>,
    lang: AppLanguage,
    failure: Failure,
)
    requires
        office::docx_outcome(s, Err(failure)),
    ensures
        is_document_text(
            DocumentKind::Docx,
            p,
            file_size,
            s,
            parsed,
            lang,
            Err(extract_error::failure_message(failure, p, lang)),
        ),
{
    let came = Err::<Seq<char>, Failure>(failure);
    assert(office::docx_outcome(s, came) && extract_error::reported(came, p, lang) == Err::<
        Seq<char>,
        Seq<char>,
    >(extract_error::failure_message(failure, p, lang)));
}

/// Why there is no text of a document that was opened and could not be read: packed documents
/// are no archives then, flat ones not well formed, and others were not read.
pub proof fn unread_documents_fail_by_kind(kind: DocumentKind)
    ensures
        reading_failure(kind) == Failure::NoArchive <==> kind == DocumentKind::Docx || kind
            == DocumentKind::Odt,
        reading_failure(kind) == Failure::FlatMalformed <==> kind == DocumentKind::FlatOdt,
        reading_failure(kind) == Failure::NotRead <==> kind == DocumentKind::Pdf || kind
            == DocumentKind::PlainText,
{
}

/// Of PDF and plain text files those are not read that are empty or too large: of more than
/// 100 megabytes the ones, and of more than 25 megabytes the others.
pub proof fn files_are_read_up_to_a_size(file_size: u64)
    ensures
        is_read(DocumentKind::Pdf, file_size) <==> 0 < file_size <= 100 * 1024 * 1024,
        is_read(DocumentKind::PlainText, file_size) <==> 0 < file_size <= 25 * 1024 * 1024,
        is_read(DocumentKind::Docx, file_size),
        is_read(DocumentKind::Odt, file_size),
        is_read(DocumentKind::FlatOdt, file_size),
{
}

} // verus!
