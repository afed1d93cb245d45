//! Why the text of a document cannot be had.

use crate::language::AppLanguage;
use crate::language;
use crate::path::FilePath;
use crate::path;
use vstd::prelude::*;

verus! {

/// A reason why the text of a document cannot be had.
#[derive(Debug)]
pub enum ExtractError {
    /// The size of the file cannot be told.
    NoMetadata,
    /// The file cannot be opened.
    NotOpened,
    /// The file cannot be read.
    NotRead,
    /// A plain text file is beyond its size limit.
    TextTooLarge,
    /// A plain text file holds zero bytes.
    NullBytes,
    /// A plain text file holds too many control characters.
    ControlBytes,
    /// The file is no ZIP archive.
    NoArchive,
    /// A word processor file has no part that holds text.
    DocumentMissing,
    /// A part of a word processor file cannot be opened.
    PartUnreadable(String),
    /// A part of a word processor file is not well formed.
    PartMalformed(String),
    /// An OpenDocument file has no contents.
    ContentMissing,
    /// The contents of an OpenDocument file are not well formed.
    ContentMalformed,
    /// A flat OpenDocument file is not well formed.
    FlatMalformed,
    /// A PDF file is beyond its size limit.
    PdfTooLarge,
    /// A PDF file is empty.
    PdfEmpty,
    /// A PDF file has neither a header nor text in its streams.
    PdfHeaderMissing,
    /// No text can be had from a PDF file.
    PdfUnreadable,
}

/// The mathematical view of an `ExtractError`.
pub enum Failure {
    NoMetadata,
    NotOpened,
    NotRead,
    TextTooLarge,
    NullBytes,
    ControlBytes,
    NoArchive,
    DocumentMissing,
    PartUnreadable(Seq<char>),
    PartMalformed(Seq<char>),
    ContentMissing,
    ContentMalformed,
    FlatMalformed,
    PdfTooLarge,
    PdfEmpty,
    PdfHeaderMissing,
    PdfUnreadable,
}

impl View for ExtractError {
    type V = Failure;

    open spec fn view(&self) -> Failure {
        match *self {
            ExtractError::NoMetadata => Failure::NoMetadata,
            ExtractError::NotOpened => Failure::NotOpened,
            ExtractError::NotRead => Failure::NotRead,
            ExtractError::TextTooLarge => Failure::TextTooLarge,
            ExtractError::NullBytes => Failure::NullBytes,
            ExtractError::ControlBytes => Failure::ControlBytes,
            ExtractError::NoArchive => Failure::NoArchive,
            ExtractError::DocumentMissing => Failure::DocumentMissing,
            ExtractError::PartUnreadable(name) => Failure::PartUnreadable(name@),
            ExtractError::PartMalformed(name) => Failure::PartMalformed(name@),
            ExtractError::ContentMissing => Failure::ContentMissing,
            ExtractError::ContentMalformed => Failure::ContentMalformed,
            ExtractError::FlatMalformed => Failure::FlatMalformed,
            ExtractError::PdfTooLarge => Failure::PdfTooLarge,
            ExtractError::PdfEmpty => Failure::PdfEmpty,
            ExtractError::PdfHeaderMissing => Failure::PdfHeaderMissing,
            ExtractError::PdfUnreadable => Failure::PdfUnreadable,
        }
    }
}

/// What came of an extraction: a text, or the reason why there is none.
pub open spec fn outcome(r: Result<String, ExtractError>) -> Result<Seq<char>, Failure> {
    match r {
        Ok(s) => Ok(s@),
        Err(e) => Err(e@),
    }
}

/// What came of an extraction, with a message in place of the reason.
pub open spec fn reported(
    r: Result<Seq<char>, Failure>,
    p: Seq<u8>,
    lang: AppLanguage,
) -> Result<Seq<char>, Seq<char>> {
    match r {
        Ok(s) => Ok(s),
        Err(failure) => Err(failure_message(failure, p, lang)),
    }
}

/// A result of texts.
pub open spec fn texts(r: Result<String, String>) -> Result<Seq<char>, Seq<char>> {
    match r {
        Ok(s) => Ok(s@),
        Err(e) => Err(e@),
    }
}

/// Puts a message for the user in place of the reason of a failure.
pub fn report(r: Result<String, ExtractError>, file: &FilePath, lang: AppLanguage) -> (t: Result<
    String,
    String,
>)
    ensures
        texts(t) == reported(outcome(r), file@, lang),
{
    match r {
        Ok(s) => Ok(s),
        Err(e) => Err(e.message(file, lang)),
    }
}

/// The message of a failure on the file at `p`, for the user.
pub open spec fn failure_message(failure: Failure, p: Seq<u8>, lang: AppLanguage) -> Seq<char> {
    let file = path::path_text(p);
    match failure {
        Failure::NoMetadata => "Could not get file metadata: "@ + file,
        Failure::NotOpened => "Could not open file: "@ + file,
        Failure::NotRead => "Could not read file: "@ + file,
        Failure::TextTooLarge => language::localized_text(
            lang,
            "Tekstitiedosto on liian suuri (>25 MB): "@,
            "Text file is too large (>25 MB): "@,
        ) + file,
        Failure::NullBytes => language::localized_text(
            lang,
            "Tiedosto sisältää binääridataa (nollatavuja): "@,
            "File contains binary data (null bytes): "@,
        ) + file,
        Failure::ControlBytes => "Tiedosto näyttää olevan binääritiedosto: "@ + file,
        Failure::NoArchive => "Could not read ZIP archive: "@ + file,
        Failure::DocumentMissing => "word/document.xml missing from docx: "@ + file,
        Failure::PartUnreadable(name) => "Could not read part "@ + name + " in docx: "@ + file,
        Failure::PartMalformed(name) => "Error parsing XML in "@ + name + " in docx: "@ + file,
        Failure::ContentMissing => "content.xml missing from odt: "@ + file,
        Failure::ContentMalformed => "Error reading content.xml in odt: "@ + file,
        Failure::FlatMalformed => "Error reading XML in: "@ + file,
        Failure::PdfTooLarge => language::localized_text(
            lang,
            "PDF-tiedosto on liian suuri (>100 MB): "@,
            "PDF file is too large (>100 MB): "@,
        ) + file,
        Failure::PdfEmpty => language::localized_text(
            lang,
            "Tiedosto on tyhjä (0 tavua)"@,
            "File is empty (0 bytes)"@,
        ),
        Failure::PdfHeaderMissing => "Tiedosto ei ole kelvollinen PDF (puuttuva %PDF-otsake)"@,
        Failure::PdfUnreadable => "PDF-tiedoston tekstirakenne on vioittunut tai suojattu"@,
    }
}

fn with_path(before: &str, file: &FilePath) -> (r: String)
    ensures
        r@ == before@ + path::path_text(file@),
{
    let mut r = before.to_owned();
    r.push_str(file.to_text().as_str());
    r
}

fn with_part(before: &str, name: &str, file: &FilePath) -> (r: String)
    ensures
        r@ == before@ + name@ + " in docx: "@ + path::path_text(file@),
{
    let mut r = before.to_owned();
    r.push_str(name);
    r.push_str(" in docx: ");
    r.push_str(file.to_text().as_str());
    r
}

impl ExtractError {
    /// The message for the user.
    pub fn message(&self, file: &FilePath, lang: AppLanguage) -> (r: String)
        ensures
            r@ == failure_message(self@, file@, lang),
    {
        match self {
            ExtractError::NoMetadata => with_path("Could not get file metadata: ", file),
            ExtractError::NotOpened => with_path("Could not open file: ", file),
            ExtractError::NotRead => with_path("Could not read file: ", file),
            ExtractError::TextTooLarge => with_path(
                language::localized(
                    lang,
                    "Tekstitiedosto on liian suuri (>25 MB): ",
                    "Text file is too large (>25 MB): ",
                ),
                file,
            ),
            ExtractError::NullBytes => with_path(
                language::localized(
                    lang,
                    "Tiedosto sisältää binääridataa (nollatavuja): ",
                    "File contains binary data (null bytes): ",
                ),
                file,
            ),
            ExtractError::ControlBytes => with_path(
                "Tiedosto näyttää olevan binääritiedosto: ",
                file,
            ),
            ExtractError::NoArchive => with_path("Could not read ZIP archive: ", file),
            ExtractError::DocumentMissing => with_path(
                "word/document.xml missing from docx: ",
                file,
            ),
            ExtractError::PartUnreadable(name) => with_part(
                "Could not read part ",
                name.as_str(),
                file,
            ),
            ExtractError::PartMalformed(name) => with_part(
                "Error parsing XML in ",
                name.as_str(),
                file,
            ),
            ExtractError::ContentMissing => with_path("content.xml missing from odt: ", file),
            ExtractError::ContentMalformed => with_path(
                "Error reading content.xml in odt: ",
                file,
            ),
            ExtractError::FlatMalformed => with_path("Error reading XML in: ", file),
            ExtractError::PdfTooLarge => with_path(
                language::localized(
                    lang,
                    "PDF-tiedosto on liian suuri (>100 MB): ",
                    "PDF file is too large (>100 MB): ",
                ),
                file,
            ),
            ExtractError::PdfEmpty => language::localized(
                lang,
                "Tiedosto on tyhjä (0 tavua)",
                "File is empty (0 bytes)",
            ).to_owned(),
            ExtractError::PdfHeaderMissing => {
                "Tiedosto ei ole kelvollinen PDF (puuttuva %PDF-otsake)".to_owned()
            },
            ExtractError::PdfUnreadable => {
                "PDF-tiedoston tekstirakenne on vioittunut tai suojattu".to_owned()
            },
        }
    }
}

/// A text that was had is reported as it is, and a failure by a message that names the file,
/// but for the messages on the contents of PDF files.
pub proof fn messages_name_the_file(
    t: Seq<char>,
    failure: Failure,
    p: Seq<u8>,
    lang: AppLanguage,
)
    requires
        !(failure is PdfEmpty),
        !(failure is PdfHeaderMissing),
        !(failure is PdfUnreadable),
    ensures
        reported(Ok(t), p, lang) == Ok::<Seq<char>, Seq<char>>(t),
        reported(Err(failure), p, lang) matches Err(message) && path::path_text(p).is_suffix_of(
            message,
        ) && message.len() > path::path_text(p).len(),
{
    let file = path::path_text(p);
    let message = failure_message(failure, p, lang);
    reveal_strlit("Could not get file metadata: ");
    reveal_strlit("Could not open file: ");
    reveal_strlit("Could not read file: ");
    reveal_strlit("Tekstitiedosto on liian suuri (>25 MB): ");
    reveal_strlit("Text file is too large (>25 MB): ");
    reveal_strlit("Tiedosto sisältää binääridataa (nollatavuja): ");
    reveal_strlit("File contains binary data (null bytes): ");
    reveal_strlit("Tiedosto näyttää olevan binääritiedosto: ");
    reveal_strlit("Could not read ZIP archive: ");
    reveal_strlit("word/document.xml missing from docx: ");
    reveal_strlit("Could not read part ");
    reveal_strlit("Error parsing XML in ");
    reveal_strlit(" in docx: ");
    reveal_strlit("content.xml missing from odt: ");
    reveal_strlit("Error reading content.xml in odt: ");
    reveal_strlit("Error reading XML in: ");
    reveal_strlit("PDF-tiedosto on liian suuri (>100 MB): ");
    reveal_strlit("PDF file is too large (>100 MB): ");
    assert(message.len() > file.len());
    assert(message.skip(message.len() - file.len()) =~= file);
}

/// A part that fails is named in the message, before the file.
pub proof fn messages_name_the_part(name: Seq<char>, p: Seq<u8>, lang: AppLanguage)
    ensures
        (name + seq![' ', 'i', 'n', ' ', 'd', 'o', 'c', 'x', ':', ' '] + path::path_text(
            p,
        )).is_suffix_of(failure_message(Failure::PartUnreadable(name), p, lang)),
        (name + seq![' ', 'i', 'n', ' ', 'd', 'o', 'c', 'x', ':', ' '] + path::path_text(
            p,
        )).is_suffix_of(failure_message(Failure::PartMalformed(name), p, lang)),
        failure_message(Failure::PartUnreadable(name), p, lang) != failure_message(
            Failure::PartMalformed(name),
            p,
            lang,
        ),
{
    reveal_strlit("Could not read part ");
    reveal_strlit("Error parsing XML in ");
    reveal_strlit(" in docx: ");
    let end = name + seq![' ', 'i', 'n', ' ', 'd', 'o', 'c', 'x', ':', ' '] + path::path_text(p);
    let one = failure_message(Failure::PartUnreadable(name), p, lang);
    let other = failure_message(Failure::PartMalformed(name), p, lang);
    assert(one.skip(one.len() - end.len()) =~= end);
    assert(other.skip(other.len() - end.len()) =~= end);
    assert(one[0] != other[0]);
}

/// Messages do not depend on the language but for files that are too large, with null bytes or
/// empty; these have two.
pub proof fn few_messages_are_in_two_languages(
    failure: Failure,
    p: Seq<u8>,
    one: AppLanguage,
    other: AppLanguage,
)
    requires
        !(failure is TextTooLarge),
        !(failure is NullBytes),
        !(failure is PdfTooLarge),
        !(failure is PdfEmpty),
    ensures
        failure_message(failure, p, one) == failure_message(failure, p, other),
{
}

/// What messages say, before the name of the file or without it.
pub proof fn messages_say_what_failed(p: Seq<u8>, lang: AppLanguage)
    ensures
        ({
            let file = path::path_text(p);
            let says = |failure: Failure| failure_message(failure, p, lang);
            &&& says(Failure::NoMetadata) == "Could not get file metadata: "@ + file
            &&& says(Failure::NotOpened) == "Could not open file: "@ + file
            &&& says(Failure::NotRead) == "Could not read file: "@ + file
            &&& says(Failure::TextTooLarge) == language::localized_text(
                lang,
                "Tekstitiedosto on liian suuri (>25 MB): "@,
                "Text file is too large (>25 MB): "@,
            ) + file
            &&& says(Failure::NullBytes) == language::localized_text(
                lang,
                "Tiedosto sisältää binääridataa (nollatavuja): "@,
                "File contains binary data (null bytes): "@,
            ) + file
            &&& says(Failure::ControlBytes) == "Tiedosto näyttää olevan binääritiedosto: "@ + file
            &&& says(Failure::NoArchive) == "Could not read ZIP archive: "@ + file
            &&& says(Failure::DocumentMissing) == "word/document.xml missing from docx: "@ + file
            &&& says(Failure::ContentMissing) == "content.xml missing from odt: "@ + file
            &&& says(Failure::ContentMalformed) == "Error reading content.xml in odt: "@ + file
            &&& says(Failure::FlatMalformed) == "Error reading XML in: "@ + file
            &&& says(Failure::PdfTooLarge) == language::localized_text(
                lang,
                "PDF-tiedosto on liian suuri (>100 MB): "@,
                "PDF file is too large (>100 MB): "@,
            ) + file
            &&& says(Failure::PdfEmpty) == language::localized_text(
                lang,
                "Tiedosto on tyhjä (0 tavua)"@,
                "File is empty (0 bytes)"@,
            )
            &&& says(Failure::PdfHeaderMissing)
                == "Tiedosto ei ole kelvollinen PDF (puuttuva %PDF-otsake)"@
            &&& says(Failure::PdfUnreadable)
                == "PDF-tiedoston tekstirakenne on vioittunut tai suojattu"@
        }),
{
}

} // verus!
