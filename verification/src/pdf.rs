//! Text of PDF files.

use crate::bytes;
use crate::extract_error;
use crate::extract_error::ExtractError;
use crate::language::AppLanguage;
use crate::path::FilePath;
use crate::pdf_stream;
use crate::text;
use std::io::Read;
use vstd::prelude::*;
use vstd::string::*;
use vstd::utf8::*;

verus! {

/// The size up to which PDF files are read: 100 MB.
pub const MAX_PDF_FILE_SIZE: u64 = 104_857_600;

/// The number of bytes up to which one stream is decompressed: 8 MB.
pub const MAX_STREAM_BYTES: u64 = 8_388_608;

/// The number of bytes of text after which no more streams are read: 10 MB.
pub const MAX_COLLECTED_BYTES: usize = 10_485_760;

/// The first `limit` bytes that `flate2::read::ZlibDecoder` reads from a zlib stream, where
/// it reads them without an error.
pub uninterp spec fn zlib_contents(stream: Seq<u8>, limit: u64) -> Option<Seq<u8>>;

/// The first `limit` bytes that `flate2::read::DeflateDecoder` reads from a raw deflate
/// stream, where it reads them without an error.
pub uninterp spec fn deflate_contents(stream: Seq<u8>, limit: u64) -> Option<Seq<u8>>;

/// Reads a `flate2::read::ZlibDecoder` to its end or to `limit` bytes. Trusted: the result
/// depends on the stream and the limit alone, and is no longer than the limit.
#[verifier::external_body]
fn inflate_zlib(stream: &[u8], limit: u64) -> (r: Option<Vec<u8>>)
    ensures
        match r {
            Some(contents) => zlib_contents(stream@, limit) == Some(contents@) && contents@.len()
                <= limit,
            None => zlib_contents(stream@, limit) is None,
        },
{
    let mut contents = Vec::new();
    match flate2::read::ZlibDecoder::new(stream).take(limit).read_to_end(&mut contents) {
        Ok(_) => Some(contents),
        Err(_) => None,
    }
}

/// Reads a `flate2::read::DeflateDecoder` to its end or to `limit` bytes. Trusted: the result
/// depends on the stream and the limit alone, and is no longer than the limit.
#[verifier::external_body]
fn inflate_deflate(stream: &[u8], limit: u64) -> (r: Option<Vec<u8>>)
    ensures
        match r {
            Some(contents) => deflate_contents(stream@, limit) == Some(contents@) && contents@.len()
                <= limit,
            None => deflate_contents(stream@, limit) is None,
        },
{
    let mut contents = Vec::new();
    match flate2::read::DeflateDecoder::new(stream).take(limit).read_to_end(&mut contents) {
        Ok(_) => Some(contents),
        Err(_) => None,
    }
}

/// The contents, unless there are none.
pub open spec fn not_empty(contents: Option<Seq<u8>>) -> Option<Seq<u8>> {
    match contents {
        Some(s) => if s.len() > 0 {
            Some(s)
        } else {
            None
        },
        None => None,
    }
}

/// What a stream holds once decompressed: as a zlib stream where that gives anything, else
/// as a raw deflate stream.
pub open spec fn decompressed(stream: Seq<u8>) -> Option<Seq<u8>> {
    match not_empty(zlib_contents(stream, MAX_STREAM_BYTES)) {
        Some(s) => Some(s),
        None => not_empty(deflate_contents(stream, MAX_STREAM_BYTES)),
    }
}

/// The text of a stream, given what it holds once decompressed. Where that shows nothing,
/// the stream is read as it stands.
pub open spec fn text_of_stream(stream: Seq<u8>, contents: Option<Seq<u8>>) -> Seq<char> {
    let shown = match contents {
        Some(s) => pdf_stream::stream_text(s),
        None => Seq::empty(),
    };
    if text::is_blank(shown) {
        shown + pdf_stream::stream_text(stream)
    } else {
        shown
    }
}

/// What a stream's text adds to the text of a file.
pub open spec fn with_space(t: Seq<char>) -> Seq<char> {
    if text::is_blank(t) {
        Seq::empty()
    } else {
        t.push(' ')
    }
}

/// Where a stream begins whose keyword ends at `at`: past one line end.
pub open spec fn stream_start(s: Seq<u8>, at: int) -> int {
    let past_cr = if at < s.len() && s[at] == 0x0d {
        at + 1
    } else {
        at
    };
    if past_cr < s.len() && s[past_cr] == 0x0a {
        past_cr + 1
    } else {
        past_cr
    }
}

/// The text of the streams from `i` on, after the text collected so far. Reading stops at a
/// stream that does not end, and once enough text was collected.
pub open spec fn streams_text(s: Seq<u8>, i: int, before: Seq<char>) -> Seq<char>
    decreases s.len() - i,
{
    if i < 0 || i >= s.len() {
        before
    } else {
        match bytes::run_from(s, i, "stream".spec_bytes()) {
            None => before,
            Some(k) => {
                let start = stream_start(s, k + 6);
                match bytes::run_from(s, start, "endstream".spec_bytes()) {
                    None => before,
                    Some(end) => {
                        proof {
                            lemma_keywords();
                            bytes::lemma_run_from(s, i, "stream".spec_bytes());
                            bytes::lemma_run_from(s, start, "endstream".spec_bytes());
                        }
                        let stream = s.subrange(start, end);
                        let all = before + with_space(text_of_stream(stream, decompressed(stream)));
                        if encode_utf8(all).len() >= MAX_COLLECTED_BYTES {
                            all
                        } else {
                            streams_text(s, end + 9, all)
                        }
                    },
                }
            },
        }
    }
}

/// The text that the streams of a file show, unless it is blank.
pub open spec fn fallback_text(s: Seq<u8>) -> Option<Seq<char>> {
    let t = streams_text(s, 0, Seq::empty());
    if text::is_blank(t) {
        None
    } else {
        Some(t)
    }
}

/// The text of a stream, given what it holds once decompressed.
pub fn extract_stream(stream: &[u8], contents: &Option<Vec<u8>>) -> (r: String)
    ensures
        r@ == text_of_stream(
            stream@,
            match *contents {
                Some(v) => Some(v@),
                None => None,
            },
        ),
{
    let mut r = String::new();
    if let Some(v) = contents {
        pdf_stream::extract_text_from_pdf_stream(v.as_slice(), &mut r);
        assert(r@ =~= pdf_stream::stream_text(v@));
    } else {
        assert(r@ =~= Seq::<char>::empty());
    }
    if text::blank(r.as_str()) {
        pdf_stream::extract_text_from_pdf_stream(stream, &mut r);
    }
    r
}

fn decompress(stream: &[u8]) -> (r: Option<Vec<u8>>)
    ensures
        match r {
            Some(v) => decompressed(stream@) == Some(v@),
            None => decompressed(stream@) is None,
        },
{
    if let Some(v) = inflate_zlib(stream, MAX_STREAM_BYTES) {
        if v.len() > 0 {
            return Some(v);
        }
    }
    match inflate_deflate(stream, MAX_STREAM_BYTES) {
        Some(v) => if v.len() > 0 {
            Some(v)
        } else {
            None
        },
        None => None,
    }
}

fn find_stream_start(s: &[u8], at: usize) -> (r: usize)
    requires
        at <= s@.len(),
    ensures
        r == stream_start(s@, at as int),
        at <= r <= s@.len(),
{
    let mut start: usize = at;
    if start < s.len() && s[start] == 0x0d {
        start = start + 1;
    }
    if start < s.len() && s[start] == 0x0a {
        start = start + 1;
    }
    start
}

/// The lengths of the keywords that enclose a stream.
pub proof fn lemma_keywords()
    ensures
        "stream".spec_bytes().len() == 6,
        "endstream".spec_bytes().len() == 9,
        "endstream".spec_bytes()[0] == 0x65,
{
    reveal_strlit("stream");
    reveal_strlit("endstream");
    text::lemma_ascii_len("stream"@);
    text::lemma_ascii_len("endstream"@);
    is_ascii_chars_encode_utf8("endstream"@);
}

/// The text that the streams of a PDF file show, for files whose structure is broken.
pub fn extract_pdf_fallback(s: &[u8]) -> (r: Option<String>)
    ensures
        match r {
            Some(t) => fallback_text(s@) == Some(t@),
            None => fallback_text(s@) is None,
        },
{
    let mut collected = String::new();
    let mut i: usize = 0;
    let mut more = true;
    assert(collected@ =~= Seq::<char>::empty());
    proof {
        lemma_keywords();
    }
    while more && i < s.len()
        invariant
            i <= s@.len(),
            "stream".spec_bytes().len() == 6,
            "endstream".spec_bytes().len() == 9,
            more ==> streams_text(s@, i as int, collected@) == streams_text(s@, 0, Seq::empty()),
            !more ==> collected@ == streams_text(s@, 0, Seq::empty()),
        decreases s@.len() - i + if more { 1int } else { 0int },
    {
        match bytes::find_run(s, i, "stream".as_bytes()) {
            Some(k) => {
                let start = find_stream_start(s, k + 6);
                match bytes::find_run(s, start, "endstream".as_bytes()) {
                    Some(end) => {
                        let stream = &s[start..end];
                        let contents = decompress(stream);
                        let shown = extract_stream(stream, &contents);
                        let ghost before = collected@;
                        if !text::blank(shown.as_str()) {
                            collected.push_str(shown.as_str());
                            collected.push(' ');
                        }
                        assert(collected@ =~= before + with_space(shown@));
                        if text::byte_len(collected.as_str()) >= MAX_COLLECTED_BYTES {
                            more = false;
                        } else {
                            i = end + 9;
                        }
                    },
                    None => {
                        more = false;
                    },
                }
            },
            None => {
                more = false;
            },
        }
    }
    if text::blank(collected.as_str()) {
        None
    } else {
        Some(collected)
    }
}

/// Whether the size of a PDF file lets it be read.
pub fn pdf_readable(file_size: u64) -> (r: bool)
    ensures
        r == (0 < file_size <= MAX_PDF_FILE_SIZE),
{
    0 < file_size && file_size <= MAX_PDF_FILE_SIZE
}

/// Where the header of a PDF file begins.
pub open spec fn header_at(s: Seq<u8>) -> Option<int> {
    bytes::run_from(s, 0, "%PDF-".spec_bytes())
}

/// Where the header of a PDF file begins. What stands before it is no part of the document.
pub fn find_pdf_header(s: &[u8]) -> (r: Option<usize>)
    ensures
        match r {
            Some(k) => header_at(s@) == Some(k as int) && k <= s@.len(),
            None => header_at(s@) is None,
        },
{
    bytes::find_run(s, 0, "%PDF-".as_bytes())
}

/// The text of a PDF file, given the text that a full reading of the document from its
/// header on gave, if any.
pub open spec fn pdf_outcome(
    file_size: u64,
    s: Seq<u8>,
    parsed: Option<Seq<char>>,
) -> Result<Seq<char>, extract_error::Failure> {
    if file_size > MAX_PDF_FILE_SIZE {
        Err(extract_error::Failure::PdfTooLarge)
    } else if file_size == 0 {
        Err(extract_error::Failure::PdfEmpty)
    } else {
        match header_at(s) {
            None => match fallback_text(s) {
                Some(t) => Ok(t),
                None => Err(extract_error::Failure::PdfHeaderMissing),
            },
            Some(k) => match parsed {
                Some(t) if !text::is_blank(t) => Ok(t),
                _ => match fallback_text(s.skip(k)) {
                    Some(t) => Ok(t),
                    None => Err(extract_error::Failure::PdfUnreadable),
                },
            },
        }
    }
}

/// The text of an optional string.
pub open spec fn optional_text(s: Option<String>) -> Option<Seq<char>> {
    match s {
        Some(t) => Some(t@),
        None => None,
    }
}

/// The text of a PDF file of `file_size` bytes. `parsed` is what a full reading of the
/// document, from its header on, gave; it is `None` where that reading failed. A file that
/// is empty or too large is not looked into, so `s` may be empty then.
pub fn pdf_text(file_size: u64, s: &[u8], parsed: Option<String>) -> (r: Result<
    String,
    ExtractError,
>)
    ensures
        extract_error::outcome(r) == pdf_outcome(
            file_size,
            s@,
            optional_text(parsed),
        ),
{
    if file_size > MAX_PDF_FILE_SIZE {
        return Err(ExtractError::PdfTooLarge);
    }
    if file_size == 0 {
        return Err(ExtractError::PdfEmpty);
    }
    match find_pdf_header(s) {
        None => match extract_pdf_fallback(s) {
            Some(t) => Ok(t),
            None => Err(ExtractError::PdfHeaderMissing),
        },
        Some(k) => {
            if let Some(t) = parsed {
                if !text::blank(t.as_str()) {
                    return Ok(t);
                }
            }
            let document = &s[k..s.len()];
            assert(document@ =~= s@.skip(k as int));
            match extract_pdf_fallback(document) {
                Some(t) => Ok(t),
                None => Err(ExtractError::PdfUnreadable),
            }
        },
    }
}

/// The text of a PDF file, or a message in the given language.
pub fn extract_pdf_with_lang(
    file: &FilePath,
    file_size: u64,
    s: &[u8],
    parsed: Option<String>,
    lang: AppLanguage,
) -> (r: Result<String, String>)
    ensures
        extract_error::texts(r) == extract_error::reported(
            pdf_outcome(file_size, s@, optional_text(parsed)),
            file@,
            lang,
        ),
{
    extract_error::report(pdf_text(file_size, s, parsed), file, lang)
}

/// The text of a PDF file, or a message in English.
pub fn extract_pdf(file: &FilePath, file_size: u64, s: &[u8], parsed: Option<String>) -> (r: Result<
    String,
    String,
>)
    ensures
        extract_error::texts(r) == extract_error::reported(
            pdf_outcome(file_size, s@, optional_text(parsed)),
            file@,
            AppLanguage::English,
        ),
{
    extract_pdf_with_lang(file, file_size, s, parsed, AppLanguage::English)
}

proof fn lemma_enough_collected(s: Seq<u8>, more: Seq<u8>, i: int, before: Seq<char>)
    requires
        0 <= i,
        encode_utf8(before).len() < MAX_COLLECTED_BYTES,
        encode_utf8(streams_text(s, i, before)).len() >= MAX_COLLECTED_BYTES,
    ensures
        streams_text(s + more, i, before) == streams_text(s, i, before),
    decreases s.len() - i,
{
    lemma_keywords();
    let keyword = "stream".spec_bytes();
    let closing = "endstream".spec_bytes();
    let k = bytes::run_from(s, i, keyword)->0;
    bytes::lemma_run_from(s, i, keyword);
    bytes::lemma_run_extends(s, more, i, keyword);
    let start = stream_start(s, k + 6);
    let end = bytes::run_from(s, start, closing)->0;
    bytes::lemma_run_from(s, start, closing);
    bytes::lemma_run_extends(s, more, start, closing);
    assert(stream_start(s + more, k + 6) == start);
    let stream = s.subrange(start, end);
    assert((s + more).subrange(start, end) =~= stream);
    let all = before + with_space(text_of_stream(stream, decompressed(stream)));
    if encode_utf8(all).len() < MAX_COLLECTED_BYTES {
        lemma_enough_collected(s, more, end + 9, all);
    }
}

/// Once enough text was collected, nothing that follows in the file adds to it.
pub proof fn enough_text_is_enough(s: Seq<u8>, more: Seq<u8>, t: Seq<char>)
    requires
        fallback_text(s) == Some(t),
        encode_utf8(t).len() >= MAX_COLLECTED_BYTES,
    ensures
        fallback_text(s + more) == Some(t),
{
    assert(encode_utf8(Seq::<char>::empty()).len() == 0);
    lemma_enough_collected(s, more, 0, Seq::empty());
}

/// Which text a PDF file of up to 100 megabytes gives: what the full reading found from the
/// header on, where that is not blank, and else what its streams show from the header on.
/// Without a header the streams of the whole file are read.
pub proof fn full_reading_comes_first(
    file_size: u64,
    s: Seq<u8>,
    parsed: Option<Seq<char>>,
    k: int,
)
    requires
        0 < file_size <= 104_857_600,
        header_at(s) == Some(k),
    ensures
        parsed matches Some(t) ==> !text::is_blank(t) ==> pdf_outcome(file_size, s, parsed) == Ok::<
            Seq<char>,
            extract_error::Failure,
        >(t),
        parsed is None || text::is_blank(parsed->0) ==> pdf_outcome(file_size, s, parsed)
            == match fallback_text(s.skip(k)) {
            Some(t) => Ok::<Seq<char>, extract_error::Failure>(t),
            None => Err(extract_error::Failure::PdfUnreadable),
        },
        s.subrange(k, k + 5) == seq![0x25u8, 0x50u8, 0x44u8, 0x46u8, 0x2du8],
{
    lemma_header();
    bytes::lemma_run_from(s, 0, "%PDF-".spec_bytes());
}

proof fn lemma_header()
    ensures
        "%PDF-".spec_bytes() == seq![0x25u8, 0x50u8, 0x44u8, 0x46u8, 0x2du8],
{
    reveal_strlit("%PDF-");
    is_ascii_chars_encode_utf8("%PDF-"@);
    assert("%PDF-".spec_bytes() =~= seq![0x25u8, 0x50u8, 0x44u8, 0x46u8, 0x2du8]);
}

/// Which PDF files are refused by their size alone, and what comes of one without a header:
/// the text of its streams, and where these show none an error.
pub proof fn refused_pdf_files(
    file_size: u64,
    s: Seq<u8>,
    parsed: Option<Seq<char>>,
)
    ensures
        pdf_outcome(file_size, s, parsed) == Err::<Seq<char>, extract_error::Failure>(
            extract_error::Failure::PdfTooLarge,
        ) <==> file_size > 104_857_600,
        pdf_outcome(file_size, s, parsed) == Err::<Seq<char>, extract_error::Failure>(
            extract_error::Failure::PdfEmpty,
        ) <==> file_size == 0,
        0 < file_size <= 104_857_600 && (forall|j: int|
            0 <= j && j + 5 <= s.len() ==> #[trigger] s.subrange(j, j + 5) != seq![
                0x25u8,
                0x50u8,
                0x44u8,
                0x46u8,
                0x2du8,
            ]) ==> pdf_outcome(file_size, s, parsed) == match fallback_text(s) {
            Some(t) => Ok::<Seq<char>, extract_error::Failure>(t),
            None => Err(extract_error::Failure::PdfHeaderMissing),
        },
{
    lemma_header();
    bytes::lemma_run_from(s, 0, "%PDF-".spec_bytes());
    if let Some(k) = header_at(s) {
        assert(bytes::run_at(s, k, "%PDF-".spec_bytes()));
        assert(s.subrange(k, k + 5) == seq![0x25u8, 0x50u8, 0x44u8, 0x46u8, 0x2du8]);
    }
}

/// A stream shows what it holds once decompressed, and nothing else; where that is blank, or
/// nothing could be decompressed, it shows what it holds as it stands.
pub proof fn decompressed_text_comes_first(stream: Seq<u8>, contents: Seq<u8>)
    ensures
        !text::is_blank(pdf_stream::stream_text(contents)) ==> text_of_stream(
            stream,
            Some(contents),
        ) == pdf_stream::stream_text(contents),
        text_of_stream(stream, None) == pdf_stream::stream_text(stream),
        text::is_blank(pdf_stream::stream_text(contents)) ==> pdf_stream::stream_text(
            stream,
        ).is_suffix_of(text_of_stream(stream, Some(contents))),
{
    let raw = pdf_stream::stream_text(stream);
    assert(Seq::<char>::empty() + raw =~= raw);
    let first = pdf_stream::stream_text(contents);
    let all = first + raw;
    assert(all.skip(all.len() - raw.len()) =~= raw);
}

/// A stream is taken for a zlib stream where that gives anything within 8 megabytes, and for a
/// raw deflate stream otherwise; nothing comes of nothing.
pub proof fn zlib_comes_before_deflate(stream: Seq<u8>)
    ensures
        zlib_contents(stream, 8_388_608) matches Some(v) ==> v.len() > 0 ==> decompressed(stream)
            == Some(v),
        zlib_contents(stream, 8_388_608) is None ==> (deflate_contents(stream, 8_388_608) matches Some(
            v,
        ) ==> v.len() > 0 ==> decompressed(stream) == Some(v)),
        decompressed(stream) matches Some(v) ==> v.len() > 0,
        zlib_contents(stream, 8_388_608) is None && deflate_contents(stream, 8_388_608) is None
            ==> decompressed(stream) is None,
{
}

/// Bytes are one line end, or none, where another byte follows: a line feed, a carriage
/// return, or both.
pub open spec fn is_line_end(line_end: Seq<u8>, next: u8) -> bool {
    ||| line_end == seq![0x0au8]
    ||| line_end == seq![0x0du8, 0x0au8]
    ||| line_end == seq![0x0du8] && next != 0x0a
    ||| line_end == Seq::<u8>::empty() && next != 0x0a && next != 0x0d
}

/// A stream begins behind the line end that follows its keyword.
proof fn lemma_line_end(s: Seq<u8>, at: int, line_end: Seq<u8>)
    requires
        0 <= at,
        at + line_end.len() < s.len(),
        s.subrange(at, at + line_end.len()) == line_end,
        is_line_end(line_end, s[at + line_end.len()]),
    ensures
        stream_start(s, at) == at + line_end.len(),
{
    if line_end.len() > 0 {
        assert(s.subrange(at, at + line_end.len())[0] == s[at]);
    }
    if line_end.len() > 1 {
        assert(s.subrange(at, at + line_end.len())[1] == s[at + 1]);
    }
}

/// Where the keywords and the data of a stream lie.
proof fn lemma_stream_placed(
    front: Seq<u8>,
    word: Seq<u8>,
    line_end: Seq<u8>,
    data: Seq<u8>,
    closing: Seq<u8>,
    rest: Seq<u8>,
)
    requires
        word.len() == 6,
        closing.len() == 9,
    ensures
        ({
            let s = front + word + line_end + data + closing + rest;
            let k = front.len() as int;
            let start = k + 6 + line_end.len();
            let end = start + data.len();
            &&& end + 9 <= s.len()
            &&& s.subrange(k, k + 6) == word
            &&& s.subrange(k + 6, start) == line_end
            &&& s.subrange(start, end) == data
            &&& s.subrange(end, end + 9) == closing
            &&& s[start] == if data.len() > 0 {
                data[0]
            } else {
                closing[0]
            }
        }),
{
    let s = front + word + line_end + data + closing + rest;
    let k = front.len() as int;
    let start = k + 6 + line_end.len();
    let end = start + data.len();
    assert(s.subrange(k, k + 6) =~= word);
    assert(s.subrange(k + 6, start) =~= line_end);
    assert(s.subrange(start, end) =~= data);
    assert(s.subrange(end, end + 9) =~= closing);
}

/// The streams of a file are read one after the other: the first lies between the first
/// `stream`, with the line end behind it, if any, and the `endstream` that comes next, and its
/// text is followed by a space. What stands around streams counts for nothing.
pub proof fn streams_are_read_in_order(
    s: Seq<u8>,
    front: Seq<u8>,
    line_end: Seq<u8>,
    data: Seq<u8>,
    rest: Seq<u8>,
    before: Seq<char>,
)
    requires
        s == front + "stream".spec_bytes() + line_end + data + "endstream".spec_bytes() + rest,
        is_line_end(
            line_end,
            if data.len() > 0 {
                data[0]
            } else {
                0x65
            },
        ),
        forall|j: int|
            0 <= j < front.len() ==> !#[trigger] bytes::run_at(s, j, "stream".spec_bytes()),
        forall|j: int|
            front.len() + 6 + line_end.len() <= j < front.len() + 6 + line_end.len() + data.len()
                ==> !#[trigger] bytes::run_at(s, j, "endstream".spec_bytes()),
    ensures
        ({
            let t = text_of_stream(data, decompressed(data));
            let all = if text::is_blank(t) {
                before
            } else {
                before + t + seq![' ']
            };
            streams_text(s, 0, before) == if encode_utf8(all).len() >= 10_485_760 {
                all
            } else {
                streams_text(
                    s,
                    (front.len() + 6 + line_end.len() + data.len() + 9) as int,
                    all,
                )
            }
        }),
{
    lemma_keywords();
    let word = "stream".spec_bytes();
    let closing = "endstream".spec_bytes();
    lemma_stream_placed(front, word, line_end, data, closing, rest);
    let k = front.len() as int;
    let start = k + 6 + line_end.len();
    let end = start + data.len();
    bytes::lemma_first_run(s, 0, k, word);
    lemma_line_end(s, k + 6, line_end);
    bytes::lemma_first_run(s, start, end, closing);
    lemma_first_stream(s, k, start, end, before);
}

proof fn lemma_first_stream(s: Seq<u8>, k: int, start: int, end: int, before: Seq<char>)
    requires
        s.len() > 0,
        bytes::run_from(s, 0, "stream".spec_bytes()) == Some(k),
        stream_start(s, k + 6) == start,
        bytes::run_from(s, start, "endstream".spec_bytes()) == Some(end),
    ensures
        ({
            let data = s.subrange(start, end);
            let t = text_of_stream(data, decompressed(data));
            let all = if text::is_blank(t) {
                before
            } else {
                before + t + seq![' ']
            };
            streams_text(s, 0, before) == if encode_utf8(all).len() >= 10_485_760 {
                all
            } else {
                streams_text(s, end + 9, all)
            }
        }),
{
    let data = s.subrange(start, end);
    let t = text_of_stream(data, decompressed(data));
    if text::is_blank(t) {
        assert(before + with_space(t) =~= before);
    } else {
        assert(before + with_space(t) =~= before + t + seq![' ']);
    }
}

/// The streams of a file give a text exactly where that is not blank.
pub proof fn blank_streams_give_no_text(s: Seq<u8>)
    ensures
        fallback_text(s) matches Some(t) ==> !text::is_blank(t) && t == streams_text(
            s,
            0,
            Seq::empty(),
        ),
        fallback_text(s) is None <==> text::is_blank(streams_text(s, 0, Seq::empty())),
{
}

/// A file without a stream, or with one that does not end, adds nothing more to what was
/// collected.
pub proof fn open_streams_add_nothing(s: Seq<u8>, before: Seq<char>)
    requires
        (forall|j: int| !#[trigger] bytes::run_at(s, j, "stream".spec_bytes())) || (forall|j: int|
            !#[trigger] bytes::run_at(s, j, "endstream".spec_bytes())),
    ensures
        streams_text(s, 0, before) == before,
        fallback_text(s) is None,
{
    bytes::lemma_run_from(s, 0, "stream".spec_bytes());
    if let Some(k) = bytes::run_from(s, 0, "stream".spec_bytes()) {
        bytes::lemma_run_from(s, stream_start(s, k + 6), "endstream".spec_bytes());
    }
}

} // verus!
