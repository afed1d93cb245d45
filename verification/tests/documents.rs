use doxsearch::archive::PartContents;
use doxsearch::extract::extract_document;
use doxsearch::extract::failure_of_reading;
use doxsearch::extract::reads_contents;
use doxsearch::extract_error::ExtractError;
use doxsearch::language::AppLanguage;
use doxsearch::office::append_part;
use doxsearch::office::docx_text;
use doxsearch::office::extract_docx;
use doxsearch::office::extract_flat_xml;
use doxsearch::office::extract_odt;
use doxsearch::office::is_text_part;
use doxsearch::office::normalize_part_name;
use doxsearch::office::odt_parts_text;
use doxsearch::office::sorted_text_parts;
use doxsearch::path::FilePath;
use doxsearch::pdf::extract_pdf;
use doxsearch::pdf::extract_pdf_fallback;
use doxsearch::pdf::extract_pdf_with_lang;
use doxsearch::pdf::extract_stream;
use doxsearch::pdf::find_pdf_header;
use doxsearch::pdf_stream::extract_text_from_pdf_stream;
use doxsearch::plain_text::extract_plain_text;
use doxsearch::plain_text::extract_plain_text_with_lang;
use doxsearch::scan::DocumentKind;
use std::io::BufRead;
use std::io::Write;

fn path() -> FilePath {
    FilePath::from_text("/d/f")
}

fn archive(parts: &[(&str, &[u8])], method: zip::CompressionMethod) -> Vec<u8> {
    let mut writer = zip::ZipWriter::new(std::io::Cursor::new(Vec::new()));
    let how = zip::write::FileOptions::default().compression_method(method);
    for (name, contents) in parts {
        writer.start_file(*name, how).unwrap();
        writer.write_all(contents).unwrap();
    }
    writer.finish().unwrap().into_inner()
}

fn stored(parts: &[(&str, &[u8])]) -> Vec<u8> {
    archive(parts, zip::CompressionMethod::Stored)
}

fn zlib(bytes: &[u8]) -> Vec<u8> {
    let mut encoder = flate2::write::ZlibEncoder::new(Vec::new(), flate2::Compression::default());
    encoder.write_all(bytes).unwrap();
    encoder.finish().unwrap()
}

fn deflate(bytes: &[u8]) -> Vec<u8> {
    let mut encoder =
        flate2::write::DeflateEncoder::new(Vec::new(), flate2::Compression::default());
    encoder.write_all(bytes).unwrap();
    encoder.finish().unwrap()
}

fn streams(contents: &[&[u8]]) -> Vec<u8> {
    let mut out = Vec::new();
    for c in contents {
        out.extend_from_slice(b"<< >> stream\r\n");
        out.extend_from_slice(c);
        out.extend_from_slice(b"endstream\n");
    }
    out
}

fn stream_text(stream: &[u8]) -> String {
    let mut out = String::new();
    extract_text_from_pdf_stream(stream, &mut out);
    out
}

#[test]
fn strings_of_content_streams() {
    assert_eq!(stream_text(b""), "");
    assert_eq!(stream_text(b"(a)(b)"), "a b ");
    assert_eq!(stream_text(b"(a\\)b\\(c\\\\d\\n\\t\\r\\q)"), "a)b(c\\d\n\t\rq ");
    assert_eq!(stream_text(b"( \\n )"), "");
    assert_eq!(stream_text(b"(open"), "");
    assert_eq!(stream_text(b"(open\\)"), "");
    assert_eq!(stream_text(b"<4 1 zz 42>"), "AB ");
    assert_eq!(stream_text(b"<414>"), "A ");
    assert_eq!(stream_text(b"<410042>"), "AB ");
    assert_eq!(stream_text(b"<C3A4>"), "ä ");
    assert_eq!(stream_text(b"<E4>"), "ä ");
    assert_eq!(stream_text(b"(\xe4)"), "ä ");
    assert_eq!(stream_text(b"<41"), "");
    assert_eq!(stream_text(b"<(41)>(x<41>)"), "A x<41> ");
    let mut out = String::from("x");
    extract_text_from_pdf_stream(b"(y)", &mut out);
    assert_eq!(out, "xy ");
}

#[test]
fn streams_are_read_decompressed_or_as_they_stand() {
    let contents = b"BT (hello) Tj ET";
    assert_eq!(extract_pdf_fallback(&streams(&[&zlib(contents)])).unwrap(), "hello  ");
    assert_eq!(extract_pdf_fallback(&streams(&[&deflate(contents)])).unwrap(), "hello  ");
    assert_eq!(extract_pdf_fallback(&streams(&[contents])).unwrap(), "hello  ");
    assert_eq!(
        extract_pdf_fallback(&streams(&[&zlib(b"(a)"), b"nothing", b"(b)"])).unwrap(),
        "a  b  "
    );
    assert!(extract_pdf_fallback(b"stream (a)").is_none());
    assert!(extract_pdf_fallback(b"(a)").is_none());
    assert!(extract_pdf_fallback(b"").is_none());
    assert_eq!(extract_pdf_fallback(b"stream(a)endstream stream(b)").unwrap(), "a  ");
}

#[test]
fn a_stream_that_shows_nothing_is_read_as_it_stands() {
    assert_eq!(extract_stream(b"(raw)", &None), "raw ");
    assert_eq!(extract_stream(b"(raw)", &Some(b"(shown)".to_vec())), "shown ");
    assert_eq!(extract_stream(b"(raw)", &Some(b"nothing".to_vec())), "raw ");
}

#[test]
fn enough_text_ends_the_reading_of_streams() {
    let mut large = vec![b'('];
    large.extend(std::iter::repeat(b'a').take(10 * 1024 * 1024));
    large.push(b')');
    let text = extract_pdf_fallback(&streams(&[&large, b"(more)"])).unwrap();
    assert_eq!(text.len(), 10 * 1024 * 1024 + 2);
    assert!(!text.contains("more"));
}

#[test]
fn pdf_files_by_their_header() {
    assert_eq!(find_pdf_header(b"junk%PDF-1.4"), Some(4));
    assert_eq!(find_pdf_header(b"%PDF"), None);
    let document = b"junk(x)%PDF-1.4 stream(text)endstream";
    let size = document.len() as u64;
    assert_eq!(extract_pdf(&path(), size, document, None).unwrap(), "text  ");
    assert_eq!(
        extract_pdf(&path(), size, document, Some("parsed".to_string())).unwrap(),
        "parsed"
    );
    assert_eq!(extract_pdf(&path(), size, document, Some(" \n".to_string())).unwrap(), "text  ");
    let headless = b"stream(text)endstream";
    assert_eq!(
        extract_pdf(&path(), headless.len() as u64, headless, Some("parsed".to_string())).unwrap(),
        "text  "
    );
}

#[test]
fn pdf_errors() {
    let finnish = |size: u64, s: &[u8]| {
        extract_pdf_with_lang(&path(), size, s, None, AppLanguage::Finnish).unwrap_err()
    };
    let english = |size: u64, s: &[u8]| extract_pdf(&path(), size, s, None).unwrap_err();
    let too_large = 100 * 1024 * 1024 + 1;
    assert_eq!(finnish(too_large, b""), "PDF-tiedosto on liian suuri (>100 MB): /d/f");
    assert_eq!(english(too_large, b""), "PDF file is too large (>100 MB): /d/f");
    assert_eq!(finnish(0, b""), "Tiedosto on tyhjä (0 tavua)");
    assert_eq!(english(0, b""), "File is empty (0 bytes)");
    let no_header = "Tiedosto ei ole kelvollinen PDF (puuttuva %PDF-otsake)";
    assert_eq!(finnish(3, b"abc"), no_header);
    assert_eq!(english(3, b"abc"), no_header);
    let broken = "PDF-tiedoston tekstirakenne on vioittunut tai suojattu";
    assert_eq!(english(8, b"%PDF-1.4"), broken);
}

#[test]
fn plain_text_is_sanitized() {
    let shown = |s: &[u8]| extract_plain_text(&path(), s.len() as u64, s).unwrap();
    assert_eq!(shown(b"a\tb\r\nc\x01d\x7f"), "a\tb\r\nc d ");
    assert_eq!(shown("\u{85}ä".as_bytes()), " ä");
    assert_eq!(shown(b"\xe4\x85"), "ä ");
    assert_eq!(extract_plain_text(&path(), 0, b"ignored").unwrap(), "");
}

#[test]
fn plain_text_errors() {
    let fail = |s: &[u8], lang: AppLanguage| {
        extract_plain_text_with_lang(&path(), s.len() as u64, s, lang).unwrap_err()
    };
    assert_eq!(
        fail(b"a\0b", AppLanguage::Finnish),
        "Tiedosto sisältää binääridataa (nollatavuja): /d/f"
    );
    assert_eq!(
        fail(b"a\0b", AppLanguage::English),
        "File contains binary data (null bytes): /d/f"
    );
    let mut heavy = vec![1u8; 4];
    heavy.extend(vec![b'a'; 29]);
    assert_eq!(heavy.len(), 33);
    assert_eq!(
        fail(&heavy, AppLanguage::English),
        "Tiedosto näyttää olevan binääritiedosto: /d/f"
    );
    // One byte in ten is not too many, and short files are not looked at.
    let mut tenth = vec![1u8; 4];
    tenth.extend(vec![b'a'; 36]);
    assert!(extract_plain_text(&path(), 40, &tenth).is_ok());
    assert!(extract_plain_text(&path(), 32, &vec![1u8; 32]).is_ok());
    // Only the first bytes tell.
    let mut late = vec![b'a'; 4096];
    late.push(0);
    assert!(extract_plain_text(&path(), 4097, &late).is_ok());
    let too_large = 25 * 1024 * 1024 + 1;
    assert_eq!(
        extract_plain_text_with_lang(&path(), too_large, b"", AppLanguage::Finnish).unwrap_err(),
        "Tekstitiedosto on liian suuri (>25 MB): /d/f"
    );
    assert_eq!(
        extract_plain_text(&path(), too_large, b"").unwrap_err(),
        "Text file is too large (>25 MB): /d/f"
    );
}

#[test]
fn parts_of_documents_by_name() {
    assert_eq!(normalize_part_name("Word\\HEADER1.xml"), "word/header1.xml");
    for name in [
        "word/document.xml",
        "word/header1.xml",
        "word/footer.xml",
        "word/footnotes.xml",
        "word/endnotes.xml",
        "word/comments.xml",
        "word/header/x.xml",
    ] {
        assert!(is_text_part(name), "{}", name);
    }
    for name in ["word/styles.xml", "document.xml", "word/document.xml.rels", "xl/header.xml"] {
        assert!(!is_text_part(name), "{}", name);
    }
    let names: Vec<String> = [
        "word/header2.xml",
        "[Content_Types].xml",
        "WORD\\Document.xml",
        "word/comments.xml",
        "word/header10.xml",
        "word/comments-document.xml",
    ]
    .iter()
    .map(|s| s.to_string())
    .collect();
    assert_eq!(
        sorted_text_parts(&names),
        vec![
            "WORD\\Document.xml",
            "word/comments-document.xml",
            "word/comments.xml",
            "word/header10.xml",
            "word/header2.xml",
        ]
    );
}

#[test]
fn documents_with_several_parts() {
    let parts: [(&str, &[u8]); 4] = [
        ("word/footer1.xml", b"<w:ftr><w:p><w:t>foot</w:t></w:p></w:ftr>"),
        ("word/comments.xml", b"<w:comments/>"),
        ("word\\document.xml", b"<w:document><w:t>body</w:t></w:document>"),
        ("word/styles.xml", b"<w:t>no</w:t>"),
    ];
    for method in [zip::CompressionMethod::Stored, zip::CompressionMethod::Deflated] {
        let docx = archive(&parts, method);
        assert_eq!(extract_docx(&path(), &docx).unwrap(), "body\nfoot\n");
    }
    let docx = stored(&[
        ("word/comments-document.xml", b"<w:t>remark</w:t>"),
        ("word/document.xml", b"<w:t>body</w:t>"),
    ]);
    assert_eq!(extract_docx(&path(), &docx).unwrap(), "body\nremark\n");
}

#[test]
fn docx_errors() {
    assert_eq!(
        extract_docx(&path(), b"no archive").unwrap_err(),
        "Could not read ZIP archive: /d/f"
    );
    let empty = stored(&[("word/styles.xml", b"<a/>")]);
    assert_eq!(
        extract_docx(&path(), &empty).unwrap_err(),
        "word/document.xml missing from docx: /d/f"
    );
    let malformed = stored(&[("word/document.xml", b"<a></b>")]);
    assert_eq!(
        extract_docx(&path(), &malformed).unwrap_err(),
        "Error parsing XML in word/document.xml in docx: /d/f"
    );
    assert!(matches!(docx_text(&malformed), Err(ExtractError::PartMalformed(_))));
    // The checksum of the part does not fit.
    let mut damaged = stored(&[("word/document.xml", b"<w:t>sound</w:t>")]);
    let at = find(&damaged, b"sound");
    damaged[at] = b'b';
    assert_eq!(
        extract_docx(&path(), &damaged).unwrap_err(),
        "Error parsing XML in word/document.xml in docx: /d/f"
    );
    // The local header of the part is gone.
    let mut unreadable = stored(&[("word/document.xml", b"<w:t>sound</w:t>")]);
    unreadable[0] = b'X';
    assert_eq!(
        extract_docx(&path(), &unreadable).unwrap_err(),
        "Could not read part word/document.xml in docx: /d/f"
    );
}

fn find(bytes: &[u8], needle: &[u8]) -> usize {
    bytes.windows(needle.len()).position(|w| w == needle).unwrap()
}

/// An archive whose only part is marked as encrypted by its extra field, but not by its flags.
fn half_encrypted(name: &str) -> Vec<u8> {
    let mut bytes = stored(&[(name, b"<p/>")]);
    let directory = find(&bytes, b"PK\x01\x02");
    let extra: [u8; 11] = [0x01, 0x99, 7, 0, 2, 0, 0x41, 0x45, 3, 0, 0];
    let name_end = directory + 46 + name.len();
    bytes[directory + 30] = extra.len() as u8;
    for (i, b) in extra.iter().enumerate() {
        bytes.insert(name_end + i, *b);
    }
    let end = find(&bytes, b"PK\x05\x06");
    bytes[end + 12] += extra.len() as u8;
    bytes
}

#[test]
fn a_part_that_is_half_encrypted_cannot_be_opened() {
    assert_eq!(
        extract_docx(&path(), &half_encrypted("word/document.xml")).unwrap_err(),
        "Could not read part word/document.xml in docx: /d/f"
    );
    assert_eq!(
        extract_odt(&path(), &half_encrypted("content.xml")).unwrap_err(),
        "content.xml missing from odt: /d/f"
    );
}

#[test]
fn opendocument_files() {
    let content: (&str, &[u8]) = ("content.xml", b"<d><text:p>body</text:p></d>");
    assert_eq!(extract_odt(&path(), &stored(&[content])).unwrap(), "body\n");
    let styles: (&str, &[u8]) = ("styles.xml", b"<d><text:h>head</text:h></d>");
    assert_eq!(extract_odt(&path(), &stored(&[styles, content])).unwrap(), "body\nhead\n");
    // Errors in the styles count for nothing; what was read before them stays.
    let broken: (&str, &[u8]) = ("styles.xml", b"<d><text:p>head</text:p></e>");
    assert_eq!(extract_odt(&path(), &stored(&[broken, content])).unwrap(), "body\nhead\n");
    assert_eq!(
        extract_odt(&path(), b"").unwrap_err(),
        "Could not read ZIP archive: /d/f"
    );
    assert_eq!(
        extract_odt(&path(), &stored(&[styles])).unwrap_err(),
        "content.xml missing from odt: /d/f"
    );
    assert_eq!(
        extract_odt(&path(), &stored(&[("content.xml", b"<a></b>")])).unwrap_err(),
        "Error reading content.xml in odt: /d/f"
    );
    assert_eq!(
        extract_flat_xml(&path(), b"<a></b>").unwrap_err(),
        "Error reading XML in: /d/f"
    );
    assert_eq!(extract_flat_xml(&path(), b"<p>x</p>").unwrap(), "x\n");
}

fn part(bytes: &[u8], intact: bool) -> Option<PartContents> {
    Some(PartContents { bytes: bytes.to_vec(), intact })
}

#[test]
fn parts_are_joined_line_by_line() {
    let mut text = String::from("a\n");
    assert!(append_part("x", &part(b"<t>b</t>", true), &mut text).is_ok());
    assert_eq!(text, "a\nb\n");
    assert!(append_part("x", &part(b"<q/>", true), &mut text).is_ok());
    assert_eq!(text, "a\nb\n");
    let mut unfinished = String::from("a");
    assert!(append_part("x", &part(b"<q/>", true), &mut unfinished).is_ok());
    assert_eq!(unfinished, "a");
    assert!(matches!(
        append_part("x", &part(b"<t>b</t>", false), &mut text),
        Err(ExtractError::PartMalformed(name)) if name == "x"
    ));
    assert!(matches!(
        append_part("y", &None, &mut text),
        Err(ExtractError::PartUnreadable(name)) if name == "y"
    ));
    let content = part(b"<p>a<br/>b</p>", true);
    assert_eq!(odt_parts_text(&content, &part(b"<p>c</p>", false)).unwrap(), "a\nb\nc\n");
    assert_eq!(odt_parts_text(&content, &part(b"<p>c</p><p>d", false)).unwrap(), "a\nb\nc\n");
    assert_eq!(odt_parts_text(&content, &part(b"<p>c</p><p>d", true)).unwrap(), "a\nb\nc\nd");
    assert_eq!(odt_parts_text(&content, &part(b"<p>c<br/>", false)).unwrap(), "a\nb\nc\n");
    assert_eq!(odt_parts_text(&content, &part(b"<p>c<br/", false)).unwrap(), "a\nb\nc");
    assert_eq!(odt_parts_text(&content, &part(b"<p>c</p", false)).unwrap(), "a\nb\nc");
    assert_eq!(odt_parts_text(&content, &part(b"<p>c<tab/", false)).unwrap(), "a\nb\nc");
    assert_eq!(odt_parts_text(&content, &part(b"<p>c<b", false)).unwrap(), "a\nb\nc");
    assert_eq!(odt_parts_text(&content, &part(b"", false)).unwrap(), "a\nb\n");
    assert_eq!(odt_parts_text(&content, &None).unwrap(), "a\nb\n");
    let unbroken = part(b"<t>a</t>", true);
    assert_eq!(odt_parts_text(&unbroken, &part(b"<t>c</t>", true)).unwrap(), "a\nc");
    assert!(matches!(
        odt_parts_text(&part(b"<p>a</p>", false), &None),
        Err(ExtractError::ContentMalformed)
    ));
    assert!(matches!(odt_parts_text(&None, &None), Err(ExtractError::ContentMissing)));
}

#[test]
fn documents_by_kind() {
    let english = AppLanguage::English;
    let read = |kind: DocumentKind, s: &[u8]| {
        extract_document(kind, &path(), s.len() as u64, s, None, english)
    };
    assert_eq!(read(DocumentKind::PlainText, b"t").unwrap(), "t");
    assert_eq!(read(DocumentKind::FlatOdt, b"<p>f</p>").unwrap(), "f\n");
    assert_eq!(read(DocumentKind::Pdf, b"stream(p)endstream").unwrap(), "p  ");
    let docx = stored(&[("word/document.xml", b"<w:t>d</w:t>")]);
    assert_eq!(read(DocumentKind::Docx, &docx).unwrap(), "d\n");
    let odt = stored(&[("content.xml", b"<p>o</p>")]);
    assert_eq!(read(DocumentKind::Odt, &odt).unwrap(), "o\n");
    assert_eq!(
        read(DocumentKind::Odt, &docx).unwrap_err(),
        "content.xml missing from odt: /d/f"
    );
    assert!(reads_contents(DocumentKind::Docx, u64::MAX));
    assert!(reads_contents(DocumentKind::PlainText, 25 * 1024 * 1024));
    assert!(!reads_contents(DocumentKind::PlainText, 25 * 1024 * 1024 + 1));
    assert!(!reads_contents(DocumentKind::Pdf, 0));
    assert!(reads_contents(DocumentKind::Pdf, 100 * 1024 * 1024));
}

#[test]
fn messages_of_what_the_file_system_refuses() {
    let say = |e: ExtractError| e.message(&path(), AppLanguage::Finnish);
    assert_eq!(say(ExtractError::NoMetadata), "Could not get file metadata: /d/f");
    assert_eq!(say(ExtractError::NotOpened), "Could not open file: /d/f");
    assert_eq!(say(ExtractError::NotRead), "Could not read file: /d/f");
    assert!(matches!(failure_of_reading(DocumentKind::Docx), ExtractError::NoArchive));
    assert!(matches!(failure_of_reading(DocumentKind::Odt), ExtractError::NoArchive));
    assert!(matches!(failure_of_reading(DocumentKind::FlatOdt), ExtractError::FlatMalformed));
    assert!(matches!(failure_of_reading(DocumentKind::Pdf), ExtractError::NotRead));
    assert!(matches!(failure_of_reading(DocumentKind::PlainText), ExtractError::NotRead));
}

#[test]
fn parts_that_do_not_match_their_checksum() {
    let spoil = |mut bytes: Vec<u8>, from: &[u8], to: &[u8]| {
        let at = bytes.windows(from.len()).position(|w| w == from).unwrap();
        bytes[at..at + to.len()].copy_from_slice(to);
        bytes
    };
    let odt = stored(&[("content.xml", b"<p>body</p>"), ("styles.xml", b"<p>foot</p><p>end")]);
    assert_eq!(extract_odt(&path(), &odt).unwrap(), "body\nfoot\nend");
    let broken_styles = spoil(odt.clone(), b"foot", b"food");
    assert_eq!(extract_odt(&path(), &broken_styles).unwrap(), "body\nfood\n");
    let broken_content = spoil(odt, b"body", b"bold");
    assert_eq!(
        extract_odt(&path(), &broken_content).unwrap_err(),
        "Error reading content.xml in odt: /d/f"
    );
    let docx = stored(&[("word/document.xml", b"<w:t>text</w:t>")]);
    assert_eq!(extract_docx(&path(), &docx).unwrap(), "text\n");
    assert_eq!(
        extract_docx(&path(), &spoil(docx, b"text", b"test")).unwrap_err(),
        "Error parsing XML in word/document.xml in docx: /d/f"
    );
}

#[test]
fn enough_text_of_broken_documents() {
    let long = [b"(".as_slice(), "a".repeat(6_000_000).as_bytes(), b")"].concat();
    let two = streams(&[long.as_slice(), long.as_slice()]);
    let text = extract_pdf_fallback(&two).unwrap();
    assert!(text.len() >= 10 * 1024 * 1024);
    let more = [two.as_slice(), streams(&[b"(more)".as_slice()]).as_slice()].concat();
    assert!(extract_pdf_fallback(&more).unwrap() == text);
    let one = streams(&[long.as_slice(), b"(more)".as_slice()]);
    assert!(extract_pdf_fallback(&one).unwrap().contains("more"));
}

#[test]
fn text_before_the_damage_of_a_compressed_part() {
    let mut styles = Vec::new();
    for i in 0..20_000u64 {
        let n = i.wrapping_mul(6_364_136_223_846_793_005).rotate_left(17);
        styles.extend_from_slice(format!("<p>{:x}</p>", n).as_bytes());
    }
    let mut odt = archive(
        &[("content.xml", b"<p>body</p>"), ("styles.xml", &styles)],
        zip::CompressionMethod::Deflated,
    );
    let whole = extract_odt(&path(), &odt).unwrap();
    let middle = odt.len() / 2;
    let end = odt.len() - 1_000;
    for b in &mut odt[middle..end] {
        *b = 0;
    }
    // What a buffered reader gives before it fails.
    let mut opened = zip::ZipArchive::new(std::io::Cursor::new(odt.as_slice())).unwrap();
    let mut reader = std::io::BufReader::new(opened.by_name("styles.xml").unwrap());
    let mut bytes = Vec::new();
    let failed = loop {
        match reader.fill_buf() {
            Ok(chunk) if chunk.is_empty() => break false,
            Ok(chunk) => bytes.extend_from_slice(chunk),
            Err(_) => break true,
        }
        let read = reader.buffer().len();
        reader.consume(read);
    };
    assert!(failed && !bytes.is_empty() && bytes.len() < styles.len());
    let expected = odt_parts_text(&part(b"<p>body</p>", true), &part(&bytes, false)).unwrap();
    let text = extract_odt(&path(), &odt).unwrap();
    assert!(text == expected);
    assert!(text.len() > 1_000 && text.len() < whole.len());
    assert!(whole.starts_with("body\n") && text.starts_with("body\n"));
}

#[test]
fn strings_at_the_front_of_a_stream() {
    let rest = b" Tj (more) <4142> Tj";
    let alone = stream_text(rest);
    for (written, shown) in [
        (b"(plain)".as_slice(), "plain "),
        (b"(a\\)b\\\\c\\nd(e)".as_slice(), "a)b\\c\nd(e "),
        (b"( )".as_slice(), ""),
        (b"<48 69>".as_slice(), "Hi "),
        (b"<4>".as_slice(), ""),
    ] {
        let all = [written, rest.as_slice()].concat();
        assert_eq!(stream_text(&all), format!("{}{}", shown, alone));
    }
}
