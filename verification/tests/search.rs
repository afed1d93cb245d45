use doxsearch::cache::DocumentCache;
use doxsearch::cache::MAX_CACHE_ENTRIES;
use doxsearch::cache::MAX_CACHE_TOTAL_BYTES;
use doxsearch::cache_shard::CacheKey;
use doxsearch::cache_shard::MAX_SHARD_ENTRIES;
use doxsearch::extract::extract_document;
use doxsearch::matching::find_match_spans;
use doxsearch::matching::find_matches;
use doxsearch::matching::MAX_MATCHES_PER_FILE;
use doxsearch::office::extract_docx;
use doxsearch::office::extract_flat_xml;
use doxsearch::office::extract_odt;
use doxsearch::office::sorted_text_parts;
use doxsearch::options::SearchOptions;
use doxsearch::options::SearchStats;
use doxsearch::path::FilePath;
use doxsearch::pdf::extract_pdf;
use doxsearch::pdf_stream::extract_text_from_pdf_stream;
use doxsearch::plain_text::extract_plain_text;
use doxsearch::process::begin_candidate;
use doxsearch::process::conclude_candidate;
use doxsearch::process::keep_text;
use doxsearch::process::FileState;
use doxsearch::process::Outcome;
use doxsearch::process::Task;
use doxsearch::results::SearchResult;
use doxsearch::scan::bytes_of_megabytes;
use doxsearch::scan::keeps_entry;
use doxsearch::scan::scan_candidates;
use doxsearch::scan::EntryType;
use doxsearch::scan::WalkedEntry;
use doxsearch::semaphore::Acquisition;
use doxsearch::semaphore::HeavyTaskSemaphore;
use doxsearch::time::Timestamp;
use doxsearch::xml_reader::extract_text_from_xml;
use doxsearch::xml_reader::extract_text_from_xml_reader;
use doxsearch::xml_text::unescape_xml_into;
use std::io::Write;
use std::sync::Arc;

/// A file in memory: its path below the directory that is searched, when it was changed, and
/// what it holds.
struct MemoryFile {
    path: String,
    modified: Option<Timestamp>,
    contents: Vec<u8>,
}

fn file(path: &str, contents: &str) -> MemoryFile {
    MemoryFile {
        path: path.to_string(),
        modified: Some(at(1_000)),
        contents: contents.as_bytes().to_vec(),
    }
}

fn at(secs: i64) -> Timestamp {
    Timestamp { secs, nanos: 0 }
}

fn plain_file() -> EntryType {
    EntryType {
        is_dir: false,
        is_file: true,
        is_symlink: false,
        leads_to_dir: false,
        leads_to_file: false,
    }
}

fn directory() -> EntryType {
    EntryType {
        is_dir: true,
        is_file: false,
        is_symlink: false,
        leads_to_dir: false,
        leads_to_file: false,
    }
}

/// Whether every step of a path is walked to.
fn is_walked(path: &str, opts: &SearchOptions) -> bool {
    let steps: Vec<&str> = path.split('/').collect();
    let last = steps.len() - 1;
    steps.iter().enumerate().all(|(i, step)| {
        let kind = if i == last { plain_file() } else { directory() };
        keeps_entry(&FilePath::from_text(step), kind, opts)
    })
}

/// Searches files in memory, as a directory would be searched.
fn search(
    files: &[MemoryFile],
    opts: &SearchOptions,
    cache: &mut DocumentCache,
    cancelled: bool,
) -> (Vec<SearchResult>, Vec<String>, SearchStats) {
    let mut entries = Vec::new();
    for f in files {
        if is_walked(&f.path, opts) && !cancelled {
            entries.push(WalkedEntry {
                path: FilePath::from_text(&format!("/root/{}", f.path)),
                entry_type: plain_file(),
                size: Some(f.contents.len() as u64),
            });
        }
    }
    let candidates = scan_candidates(&entries, opts);
    let mut found = Vec::new();
    let mut errors = Vec::new();
    let mut cached = 0;
    for candidate in &candidates {
        let name = candidate.path.to_text();
        let f = files.iter().find(|f| format!("/root/{}", f.path) == name).expect("file");
        let state = FileState { size: f.contents.len() as u64, modified: f.modified };
        let text = match begin_candidate(candidate, opts, cancelled, Some(state), cache) {
            Task::Skip => continue,
            Task::Known(t) => {
                cached += 1;
                Ok(t)
            }
            Task::Read { kind, .. } => {
                let r = extract_document(
                    kind,
                    &candidate.path,
                    state.size,
                    &f.contents,
                    None,
                    opts.lang,
                );
                match r {
                    Ok(t) => Ok(keep_text(candidate, opts, state, t, cache)),
                    Err(e) => Err(e),
                }
            }
        };
        match conclude_candidate(candidate, opts, state.modified, text) {
            Outcome::Nothing => {}
            Outcome::Found(r) => found.push(r),
            Outcome::Failed(e) => errors.push(e.error),
        }
    }
    let stats = SearchStats { cached_count: cached, total_count: candidates.len(), millis: 0 };
    (found, errors, stats)
}

fn options(query: &str) -> SearchOptions {
    let mut opts = SearchOptions::default();
    opts.query = query.to_string();
    opts
}

fn key(path: &str, size: u64, modified: Option<Timestamp>) -> CacheKey {
    CacheKey { path: FilePath::from_text(path), size, modified }
}

fn archive(parts: &[(&str, &[u8])]) -> Vec<u8> {
    let mut writer = zip::ZipWriter::new(std::io::Cursor::new(Vec::new()));
    let stored =
        zip::write::FileOptions::default().compression_method(zip::CompressionMethod::Stored);
    for (name, contents) in parts {
        writer.start_file(*name, stored).unwrap();
        writer.write_all(contents).unwrap();
    }
    writer.finish().unwrap().into_inner()
}

#[test]
fn test_multibyte_search() {
    let text = "Äiti on kiva";
    let query = "Ä";
    let matches = find_matches(text, query, false, 10);
    assert_eq!(matches.len(), 1);
}

#[test]
fn test_case_insensitive_multibyte_lowercase_size_change() {
    let text = "GROẞE";
    let query = "große";
    let matches = find_matches(text, query, true, 10);
    assert_eq!(matches.len(), 1);
}

#[test]
fn test_overlap_avoidance() {
    let text = "aaaaa";
    let query = "aa";
    let matches = find_matches(text, query, false, 10);
    assert_eq!(matches.len(), 2);
}

#[test]
fn test_boundary_panic_prevention() {
    let text = "🦀🦀🦀";
    let query = "🦀";
    let matches = find_matches(text, query, false, 10);
    assert_eq!(matches.len(), 3);
}

#[test]
fn test_xml_multi_run_phrase_matching() {
    let xml = r#"<w:document xmlns:w="http://schemas.openxmlformats.org/wordprocessingml/2006/main">
            <w:body>
                <w:p>
                    <w:r><w:t>Tämä on </w:t></w:r>
                    <w:r><w:rPr><w:b/></w:rPr><w:t>tärkeä</w:t></w:r>
                    <w:r><w:t> asiakirja.</w:t></w:r>
                </w:p>
                <w:p>
                    <w:r><w:t>Toinen kappale.</w:t></w:r>
                </w:p>
            </w:body>
        </w:document>"#;
    let extracted = extract_text_from_xml(xml).expect("XML extraction failed");
    assert_eq!(extracted, "Tämä on tärkeä asiakirja.\nToinen kappale.\n");

    let matches = find_matches(&extracted, "tärkeä asiakirja", false, 50);
    assert_eq!(matches.len(), 1);
}

#[test]
fn test_odt_xml_extraction() {
    let xml = r#"<office:document-content xmlns:text="urn:oasis:names:tc:opendocument:xmlns:text:1.0">
            <text:p>Ensimmäinen<text:s text:c="3"/>kohta</text:p>
            <text:h>Otsikko</text:h>
        </office:document-content>"#;
    let extracted = extract_text_from_xml(xml).expect("XML extraction failed");
    assert_eq!(extracted, "Ensimmäinen   kohta\nOtsikko\n");
}

#[test]
fn test_find_match_spans_accuracy() {
    let text = "Öljy ja Vesi öljy";
    let spans = find_match_spans(text, "öljy", true);
    assert_eq!(spans.len(), 2);
    assert_eq!(&text[spans[0].0..spans[0].1], "Öljy");
    assert_eq!(&text[spans[1].0..spans[1].1], "öljy");
}

#[test]
fn test_streaming_xml_reader() {
    let xml = "<w:document><w:body><w:p><w:r><w:t>Streaming XML Test</w:t></w:r></w:p></w:body></w:document>";
    let extracted = extract_text_from_xml_reader(xml.as_bytes(), true)
        .expect("Streaming XML extraction failed");
    assert_eq!(extracted, "Streaming XML Test\n");
}

#[test]
fn test_search_options_default() {
    let opts = SearchOptions::default();
    assert!(!opts.search_hidden);
    assert!(opts.use_cache);
    assert!(opts.search_docx);
    assert!(opts.search_odt);
    assert!(opts.search_pdf);
    assert!(opts.search_txt);
    assert!(opts.max_file_size_mb.is_none());
    assert!(opts.modified_after.is_none());
    assert_eq!(opts.directory.to_text(), ".");
    assert_eq!(opts.context_size, 150);
    assert!(opts.recursive);
    assert!(!opts.ignore_case);
}

#[test]
fn test_extract_plain_text_from_tempfile() {
    let contents = "Tämä on puhdasta tekstiä testiin.\nToinen rivi.".as_bytes();
    let path = FilePath::from_text("doxsearch_test_plain.txt");
    let extracted =
        extract_plain_text(&path, contents.len() as u64, contents).expect("extract failed");
    assert!(extracted.contains("puhdasta tekstiä"));
}

#[test]
fn test_cache_insert_and_get() {
    let mut cache = DocumentCache::new();
    let key = key("/tmp/test.docx", 1024, None);
    assert!(cache.get(&key).is_none());
    assert_eq!(cache.len(), 0);
    assert!(cache.is_empty());

    let text: Arc<str> = "Tämä on testisisältöä".into();
    cache.insert(key.duplicate(), text.clone());

    assert_eq!(cache.len(), 1);
    assert!(!cache.is_empty());
    assert_eq!(cache.get(&key), Some(text));
}

#[test]
fn test_cache_invalidation_on_modified_or_size() {
    let mut cache = DocumentCache::new();
    let key1 = key("/tmp/doc.docx", 1000, Some(at(0)));
    cache.insert(key1.duplicate(), "Version 1".into());

    // Same path, different size
    let key2 = key("/tmp/doc.docx", 1050, Some(at(0)));
    assert!(cache.get(&key2).is_none());

    // Same path, different modified time
    let key3 = key("/tmp/doc.docx", 1000, Some(at(10)));
    assert!(cache.get(&key3).is_none());
}

#[test]
fn test_cache_clear_and_memory() {
    let mut cache = DocumentCache::new();
    cache.insert(key("/tmp/doc.docx", 500, None), "Content".into());
    assert!(cache.memory_usage_bytes() > 0);

    cache.clear();
    assert_eq!(cache.len(), 0);
    assert_eq!(cache.memory_usage_bytes(), 0);
}

#[test]
fn test_pdf_stream_fallback_extraction() {
    let mock_stream = b"BT /F1 12 Tf (Hello World) Tj ET (Verokortti 2025) Tj";
    let mut out = String::new();
    extract_text_from_pdf_stream(mock_stream, &mut out);
    assert!(out.contains("Hello World"));
    assert!(out.contains("Verokortti 2025"));
}

#[test]
fn test_repeated_search_uses_cache() {
    let files = [file("sample.txt", "Tämä on välimuistitestitiedosto hakua varten.")];
    let mut cache = DocumentCache::new();

    // First search: cache miss -> loads from file
    let (_, _, stats1) = search(&files, &options("välimuistitesti"), &mut cache, false);
    assert_eq!(stats1.total_count, 1);
    assert_eq!(stats1.cached_count, 0);
    assert_eq!(cache.len(), 1);

    // Second search with different query: cache hit
    let (_, _, stats2) = search(&files, &options("toinen_haku"), &mut cache, false);
    assert_eq!(stats2.total_count, 1);
    assert_eq!(stats2.cached_count, 1);
    // The cache does not grow
    assert_eq!(cache.len(), 1);
}

#[test]
fn test_extract_plain_text_latin1_fallback() {
    // ISO-8859-1 encoded string: "Sähköposti ja Päivämäärä"
    let latin1_bytes: Vec<u8> = vec![
        b'S', 0xE4, b'h', b'k', 0xF6, b'p', b'o', b's', b't', b'i', b' ', b'j', b'a', b' ', b'P',
        0xE4, b'i', b'v', 0xE4, b'm', 0xE4, 0xE4, b'r', 0xE4,
    ];
    let path = FilePath::from_text("doxsearch_test_latin1.txt");
    let extracted = extract_plain_text(&path, latin1_bytes.len() as u64, &latin1_bytes)
        .expect("extract failed");
    assert_eq!(extracted, "Sähköposti ja Päivämäärä");

    let matches = find_matches(&extracted, "sähköposti", true, 20);
    assert_eq!(matches.len(), 1);
}

#[test]
fn test_search_cancellation() {
    let files: Vec<MemoryFile> = (0..5)
        .map(|i| file(&format!("doc{}.txt", i), &format!("Tiedosto numero {}", i)))
        .collect();
    let mut cache = DocumentCache::new();
    let (found, _, _) = search(&files, &options("Tiedosto"), &mut cache, true);
    assert_eq!(found.len(), 0);
}

#[test]
fn test_pdf_stream_hex_extraction() {
    let mock_stream = b"BT /F1 12 Tf <48656C6C6F20576F726C64> Tj ET";
    let mut out = String::new();
    extract_text_from_pdf_stream(mock_stream, &mut out);
    assert!(out.contains("Hello World"));
}

#[test]
fn test_cache_partial_eviction_over_capacity() {
    let mut cache = DocumentCache::new();
    for i in 0..600 {
        let key = key(&format!("/tmp/doc_{}.docx", i), 100, None);
        cache.insert(key, format!("Content {}", i).into());
    }
    assert!(cache.len() >= 200);
    assert!(cache.len() <= MAX_CACHE_ENTRIES);
}

#[test]
fn test_find_matches_max_limit_capping() {
    // A string with 1000 occurrences of "test"
    let text = "test ".repeat(1000);
    let matches = find_matches(&text, "test", false, 10);
    assert_eq!(matches.len(), MAX_MATCHES_PER_FILE);
}

#[test]
fn test_binary_file_detection_in_plain_text() {
    let mut binary_data = b"Hello world! This looks like text initially...".to_vec();
    binary_data.push(0x00);
    binary_data.extend_from_slice(b"Some binary trailer data");
    let path = FilePath::from_text("doxsearch_fake_text_with_nulls.txt");
    let result = extract_plain_text(&path, binary_data.len() as u64, &binary_data);
    assert!(result.is_err(), "Binary file containing null bytes must be rejected");
}

#[test]
fn test_cache_memory_budget_enforcement() {
    let mut cache = DocumentCache::new();
    for i in 0..100 {
        let key = key(&format!("/tmp/doc_budget_{}.txt", i), 500_000, None);
        // 500 KB each * 100 = 50 MB
        let data: Arc<str> = "A".repeat(500_000).into();
        cache.insert(key, data);
    }
    assert!(cache.memory_usage_bytes() <= MAX_CACHE_TOTAL_BYTES);
}

#[test]
fn test_xml_malformed_returns_error() {
    let malformed_xml = "<w:document><w:body><w:p><w:t>Hello</w:wrong></w:p></w:body></w:document>";
    let res = extract_text_from_xml(malformed_xml);
    assert!(res.is_err(), "Malformed XML should return an error");
}

#[test]
fn test_max_file_size_overflow_safety() {
    let max_mb: u64 = u64::MAX;
    let max_bytes = max_mb.saturating_mul(1024 * 1024);
    assert_eq!(max_bytes, u64::MAX);
    assert_eq!(bytes_of_megabytes(max_mb), max_bytes);
}

#[test]
fn test_multi_format_directory_search_finds_all_types() {
    let xml_content = r#"<?xml version="1.0" encoding="UTF-8"?>
        <office:document xmlns:office="urn:oasis:names:tc:opendocument:xmlns:office:1.0"
                         xmlns:text="urn:oasis:names:tc:opendocument:xmlns:text:1.0">
            <office:body><office:text><text:p>Tämä on hakutermi ODF-dokumentissa</text:p></office:text></office:body>
        </office:document>"#;
    let files = [
        file("sample.txt", "Tämä on hakutermi tekstissä"),
        file("notes.text", "Muistiinpanot: hakutermi löytyy täältä"),
        file("document.fodt", xml_content),
        file(
            "doc.pdf",
            "%PDF-1.4\n1 0 obj\n<< /Length 50 >>\nstream\nBT (hakutermi pdf-tiedostossa) Tj ET\nendstream\nendobj\n%%EOF",
        ),
        file("config.json", "{\"data\": \"hakutermi jsonissa\"}"),
        file("readme.md", "# hakutermi markdownissa"),
    ];
    let mut cache = DocumentCache::new();
    let (results, _, stats) = search(&files, &options("hakutermi"), &mut cache, false);
    assert_eq!(
        results.len(),
        4,
        "Should only find 4 supported files (2 TXT, 1 FODT, 1 PDF), ignoring .json and .md"
    );
    let types: Vec<&str> = results.iter().map(|r| r.file_type.as_str()).collect();
    assert_eq!(types.iter().filter(|t| **t == "TXT").count(), 2);
    assert!(types.contains(&"PDF"));
    assert!(types.contains(&"FODT"));
    assert_eq!(stats.total_count, 4);
}

#[test]
fn test_repeated_search_with_changing_file_type_options() {
    let files = [
        file("sample.txt", "UniikkiHakusana tekstissä"),
        file(
            "doc.pdf",
            "%PDF-1.4\n1 0 obj\n<< /Length 50 >>\nstream\nBT (UniikkiHakusana pdf-tiedostossa) Tj ET\nendstream\nendobj\n%%EOF",
        ),
    ];
    let mut cache = DocumentCache::new();

    // 1st search: only TXT
    let mut opts1 = options("UniikkiHakusana");
    opts1.search_docx = false;
    opts1.search_odt = false;
    opts1.search_pdf = false;
    let (matches1, _, _) = search(&files, &opts1, &mut cache, false);
    assert_eq!(matches1.len(), 1);
    assert_eq!(matches1[0].file_type, "TXT");

    // 2nd search: only PDF
    let mut opts2 = options("UniikkiHakusana");
    opts2.search_docx = false;
    opts2.search_odt = false;
    opts2.search_txt = false;
    let (matches2, _, _) = search(&files, &opts2, &mut cache, false);
    assert_eq!(matches2.len(), 1);
    assert_eq!(matches2[0].file_type, "PDF");

    // 3rd search: both TXT and PDF
    let (matches3, _, _) = search(&files, &options("UniikkiHakusana"), &mut cache, false);
    assert_eq!(matches3.len(), 2);
}

#[test]
fn test_extract_flat_xml_fodt() {
    let xml_content = r#"<?xml version="1.0" encoding="UTF-8"?>
        <office:document xmlns:office="urn:oasis:names:tc:opendocument:xmlns:office:1.0"
                         xmlns:text="urn:oasis:names:tc:opendocument:xmlns:text:1.0">
            <office:body>
                <office:text>
                    <text:p>Tämä on suora Flat ODF XML tiedosto.</text:p>
                </office:text>
            </office:body>
        </office:document>"#;
    let path = FilePath::from_text("sample.fodt");
    let extracted =
        extract_flat_xml(&path, xml_content.as_bytes()).expect("Flat XML extract failed");
    assert!(extracted.contains("suora Flat ODF XML tiedosto"));
}

#[test]
fn test_multiword_whitespace_and_newline_matching() {
    let text = "Tämä on tärkeä\nasiakirja jossa on   useita   välejä.";
    // Search with standard space
    let matches = find_matches(text, "tärkeä asiakirja", true, 30);
    assert_eq!(matches.len(), 1, "Should match across newline");

    // Search with multiple spaces in query
    let matches2 = find_matches(text, "useita       välejä", true, 30);
    assert_eq!(
        matches2.len(),
        1,
        "Should match multiple spaces in query to multiple spaces in text"
    );

    // Exact case search
    let matches3 = find_matches(text, "tärkeä asiakirja", false, 30);
    assert_eq!(matches3.len(), 1);
}

#[test]
fn test_docx_sort_by_strict_weak_ordering() {
    let names = vec![
        "word/document.xml".to_string(),
        "word/document.xml".to_string(),
        "word/header1.xml".to_string(),
        "word/footer1.xml".to_string(),
    ];
    let sorted = sorted_text_parts(&names);
    assert_eq!(sorted[0], "word/document.xml");
    assert_eq!(sorted[1], "word/document.xml");
    assert_eq!(sorted[2], "word/footer1.xml");
    assert_eq!(sorted[3], "word/header1.xml");
}

#[test]
fn test_date_filter_excludes_none_and_respects_after() {
    let files = [file("recent.txt", "Tämä on tuore tiedosto")];
    let mut cache = DocumentCache::new();

    // Filter requiring file modified in the future (no files should match)
    let mut opts = options("tuore");
    opts.modified_after = Some(at(1_000 + 3600));
    let (found, _, _) = search(&files, &opts, &mut cache, false);
    assert_eq!(found.len(), 0);

    // A file whose time of change is not known
    let undated = [MemoryFile {
        path: "recent.txt".to_string(),
        modified: None,
        contents: "Tämä on tuore tiedosto".as_bytes().to_vec(),
    }];
    opts.modified_after = Some(at(0));
    let (found, _, _) = search(&undated, &opts, &mut cache, false);
    assert_eq!(found.len(), 0);
}

#[test]
fn test_directory_change_searches_all_supported_types() {
    let dir_a = [
        file(
            "folder_a/report_a.pdf",
            "%PDF-1.4\n1 0 obj\n<< /Length 50 >>\nstream\nBT (etsittava_termi pdf A) Tj ET\nendstream\nendobj\n%%EOF",
        ),
        file("folder_a/notes_a.txt", "etsittava_termi teksti A"),
    ];
    let fodt_content = r#"<?xml version="1.0" encoding="UTF-8"?>
        <office:document xmlns:office="urn:oasis:names:tc:opendocument:xmlns:office:1.0"
                         xmlns:text="urn:oasis:names:tc:opendocument:xmlns:text:1.0">
            <office:body><office:text><text:p>etsittava_termi fodt B</text:p></office:text></office:body>
        </office:document>"#;
    let dir_b = [
        file(
            "folder_b/doc_b.pdf",
            "%PDF-1.4\n1 0 obj\n<< /Length 50 >>\nstream\nBT (etsittava_termi pdf B) Tj ET\nendstream\nendobj\n%%EOF",
        ),
        file("folder_b/readme_b.txt", "etsittava_termi teksti B"),
        file("folder_b/letter_b.fodt", fodt_content),
    ];
    let mut cache = DocumentCache::new();
    let opts = options("etsittava_termi");

    let (results_a, _, stats_a) = search(&dir_a, &opts, &mut cache, false);
    assert_eq!(results_a.len(), 2, "Dir A should find both PDF and TXT");
    assert_eq!(stats_a.total_count, 2);

    let (results_b, _, stats_b) = search(&dir_b, &opts, &mut cache, false);
    assert_eq!(results_b.len(), 3, "Dir B should find PDF, TXT, and FODT");
    let types_b: Vec<&str> = results_b.iter().map(|r| r.file_type.as_str()).collect();
    assert!(types_b.contains(&"PDF"));
    assert!(types_b.contains(&"TXT"));
    assert!(types_b.contains(&"FODT"));
    assert_eq!(stats_b.total_count, 3);
}

#[test]
fn test_non_txt_files_are_strictly_ignored() {
    let extensions = [
        "json", "toml", "yaml", "yml", "xml", "html", "htm", "csv", "tsv", "log", "md", "markdown",
        "ini", "conf", "cfg", "rst", "rs", "py", "sh",
    ];
    let mut files: Vec<MemoryFile> =
        extensions.iter().map(|ext| file(&format!("file.{}", ext), "salasana123")).collect();
    files.push(file("actual_doc.txt", "salasana123 tekstissä"));
    let mut cache = DocumentCache::new();
    let (results, _, stats) = search(&files, &options("salasana123"), &mut cache, false);
    assert_eq!(
        results.len(),
        1,
        "Only actual_doc.txt should match, all other extensions must be ignored"
    );
    assert_eq!(results[0].file_type, "TXT");
    assert_eq!(stats.total_count, 1);
}

#[test]
fn test_repeated_search_multi_file_directory_never_wipes_cache() {
    let files: Vec<MemoryFile> = (0..60)
        .map(|i| {
            file(
                &format!("file_{}.txt", i),
                &format!("Dokumentti {} sisältää hakusanan ja uniikkia tekstiä", i),
            )
        })
        .collect();
    let mut cache = DocumentCache::new();

    // First search: 60 misses, 0 hits
    let (_, _, stats1) = search(&files, &options("hakusanan"), &mut cache, false);
    assert_eq!(stats1.total_count, 60);
    assert_eq!(stats1.cached_count, 0);
    assert_eq!(cache.len(), 60, "All 60 files must be stored in cache");

    // Second search with different query: 60 hits, 0 misses
    let (_, _, stats2) = search(&files, &options("uniikkia"), &mut cache, false);
    assert_eq!(stats2.total_count, 60);
    assert_eq!(stats2.cached_count, 60, "All 60 files must be served directly from cache");
    assert_eq!(cache.len(), 60, "Cache must not be wiped or pruned");

    // Third search with third query
    let (_, _, stats3) = search(&files, &options("Dokumentti"), &mut cache, false);
    assert_eq!(stats3.total_count, 60);
    assert_eq!(stats3.cached_count, 60);
    assert_eq!(cache.len(), 60);
}

#[test]
fn test_jwalk_deep_nested_traversal_and_ignored_dir_pruning() {
    let files = [
        file("a/b/c/d/deep_doc.txt", "Etsittävä termi syvällä"),
        file("web/node_modules/package/ignored.txt", "Etsittävä termi node_modulesissa"),
        file("rust_proj/target/debug/ignored.txt", "Etsittävä termi targetissa"),
        file(".hidden_folder/hidden.txt", "Etsittävä termi piilossa"),
    ];
    let mut cache = DocumentCache::new();
    let (results, _, stats) = search(&files, &options("Etsittävä"), &mut cache, false);
    assert_eq!(
        results.len(),
        1,
        "Only deep_doc.txt should be found; node_modules, target, and hidden dirs must be pruned"
    );
    assert_eq!(stats.total_count, 1);
    assert!(results[0].file.to_text().ends_with("deep_doc.txt"));
}

#[test]
fn test_heavy_task_semaphore_cancellation() {
    let mut semaphore = HeavyTaskSemaphore::new(1);
    let permit = semaphore.acquire_cancellable(false);
    assert!(matches!(permit, Acquisition::Granted(_)));

    // Now semaphore is exhausted (0 permits)
    let cancelled_permit = semaphore.acquire_cancellable(true);
    assert!(
        matches!(cancelled_permit, Acquisition::Cancelled),
        "Cancelled request must abort and return None immediately"
    );
}

#[test]
fn test_extract_pdf_oversized_metadata_rejection() {
    let path = FilePath::from_text("doxsearch_test_huge.pdf");
    let result = extract_pdf(&path, 105 * 1024 * 1024, &[], None);
    assert!(
        result.is_err(),
        "Oversized PDF (>100MB) must be rejected immediately via metadata"
    );
    let err_msg = result.err().unwrap();
    assert!(err_msg.contains(">100 MB"));
}

#[test]
fn test_extract_plain_text_oversized_rejection() {
    let path = FilePath::from_text("doxsearch_test_huge.txt");
    let result = extract_plain_text(&path, 30 * 1024 * 1024, &[]);
    assert!(
        result.is_err(),
        "Oversized text file (>25MB) must be rejected immediately via metadata"
    );
    let err_msg = result.err().unwrap();
    assert!(err_msg.contains(">25 MB"));
}

#[test]
fn test_parallel_pdf_search_with_semaphore() {
    let files: Vec<MemoryFile> = (0..8)
        .map(|i| {
            file(
                &format!("test_doc_{}.pdf", i),
                &format!(
                    "%PDF-1.4\n1 0 obj\n<< /Length 60 >>\nstream\nBT (EtsittavaPDFSisalto tiedostossa {}) Tj ET\nendstream\nendobj\n%%EOF",
                    i
                ),
            )
        })
        .collect();
    let mut cache = DocumentCache::new();
    let mut opts = options("EtsittavaPDFSisalto");
    opts.search_docx = false;
    opts.search_odt = false;
    opts.search_txt = false;
    let (found, _, stats) = search(&files, &opts, &mut cache, false);
    assert_eq!(stats.total_count, 8);
    assert_eq!(found.len(), 8);
}

#[test]
fn test_cache_lru_eviction_order() {
    let mut cache = DocumentCache::new();

    // 1. Create a cold key and a hot key in shard 0
    let mut cold_key = None;
    let mut hot_key = None;

    for i in 0..100_000 {
        let k = key(&format!("/tmp/doc_shard0_{}.txt", i), 100, None);
        if DocumentCache::shard_index(&k) == 0 {
            if cold_key.is_none() {
                cold_key = Some(k);
            } else if hot_key.is_none() {
                hot_key = Some(k);
                break;
            }
        }
    }

    let cold_key = cold_key.expect("Found cold key");
    let hot_key = hot_key.expect("Found hot key");

    // Insert cold key (will not be accessed again)
    cache.insert(cold_key.duplicate(), "Cold content".into());

    // Insert hot key
    cache.insert(hot_key.duplicate(), "Hot content".into());

    // 2. Generate and insert 700+ keys mapping specifically to shard 0
    let mut inserted_same_shard = 0;
    let mut i = 1000;
    while inserted_same_shard < MAX_SHARD_ENTRIES + 100 {
        let key = key(&format!("/tmp/doc_filler_{}.txt", i), 100, None);
        i += 1;
        if DocumentCache::shard_index(&key) == 0 {
            cache.insert(key, format!("Filler {}", i).into());
            inserted_same_shard += 1;
            // Keep hot_key fresh by touching it on every iteration
            let _ = cache.get(&hot_key);
        }
    }

    // 3. Verify LRU eviction results
    assert!(
        cache.get(&cold_key).is_none(),
        "Untouched cold key must be evicted when shard exceeds capacity"
    );
    assert!(
        cache.get(&hot_key).is_some(),
        "Frequently accessed hot key must be preserved by LRU eviction"
    );
}

#[test]
fn test_unescape_xml_into_entities_and_numeric() {
    let mut out = String::new();

    // 1. Fast path without escape entities
    unescape_xml_into(b"Simple plain text without escapes", &mut out);
    assert_eq!(out, "Simple plain text without escapes");

    // 2. Standard XML entities
    out.clear();
    unescape_xml_into(
        b"Alpha &amp; Beta &lt; Gamma &gt; Delta &quot; Epsilon &apos; Zeta",
        &mut out,
    );
    assert_eq!(out, "Alpha & Beta < Gamma > Delta \" Epsilon ' Zeta");

    // 3. Hexadecimal and decimal numeric character references
    out.clear();
    unescape_xml_into(b"Price: 100 &#x20AC; or &#8364; (Letter: &#x41; / &#65;)", &mut out);
    assert_eq!(out, "Price: 100 € or € (Letter: A / A)");

    // 4. Malformed entities and standalone ampersands
    out.clear();
    unescape_xml_into(b"Rock & Roll &unknown; &amp; End", &mut out);
    assert_eq!(out, "Rock & Roll &unknown; & End");
}

#[test]
fn test_extract_docx_and_odt_archives() {
    // 1. A docx (ZIP archive with word/document.xml and word/header1.xml)
    let docx = archive(&[
        ("word/header1.xml", b"<w:hdr xmlns:w=\"http://schemas.openxmlformats.org/wordprocessingml/2006/main\"><w:p><w:r><w:t>Header Text</w:t></w:r></w:p></w:hdr>"),
        ("word/document.xml", b"<w:document xmlns:w=\"http://schemas.openxmlformats.org/wordprocessingml/2006/main\"><w:body><w:p><w:r><w:t>Main Document Content</w:t></w:r></w:p></w:body></w:document>"),
    ]);
    let docx_text = extract_docx(&FilePath::from_text("test_sample.docx"), &docx)
        .expect("Failed to extract docx");
    assert!(docx_text.contains("Main Document Content"));
    assert!(docx_text.contains("Header Text"));
    assert_eq!(docx_text, "Main Document Content\nHeader Text\n");

    // 2. An odt (ZIP archive with content.xml and styles.xml)
    let odt = archive(&[
        ("content.xml", b"<office:document-content xmlns:text=\"urn:oasis:names:tc:opendocument:xmlns:text:1.0\"><text:p>ODT Main Content</text:p></office:document-content>"),
        ("styles.xml", b"<office:document-styles xmlns:text=\"urn:oasis:names:tc:opendocument:xmlns:text:1.0\"><text:p>ODT Header Styles</text:p></office:document-styles>"),
    ]);
    let odt_text = extract_odt(&FilePath::from_text("test_sample.odt"), &odt)
        .expect("Failed to extract odt");
    assert!(odt_text.contains("ODT Main Content"));
    assert!(odt_text.contains("ODT Header Styles"));
    assert_eq!(odt_text, "ODT Main Content\nODT Header Styles\n");
}

#[test]
fn test_new_file_immediately_discovered_on_repeated_search() {
    let mut files = vec![file("file1.txt", "Ensimmäinen tiedosto sisältää EtsittavaTeksti")];
    let mut cache = DocumentCache::new();
    let opts = options("EtsittavaTeksti");

    let (hits, _, stats1) = search(&files, &opts, &mut cache, false);
    assert_eq!(stats1.total_count, 1);
    assert_eq!(hits.len(), 1);

    files.push(file("file2.txt", "Toinen tiedosto sisältää myös EtsittavaTeksti"));
    let (hits, _, stats2) = search(&files, &opts, &mut cache, false);
    assert_eq!(stats2.total_count, 2, "Both files must be found immediately");
    assert_eq!(hits.len(), 2, "Newly added file must produce match immediately");
}

#[test]
fn test_date_filter_strictly_uses_live_modified() {
    let files = [file("file1.txt", "Sisältö Hakusana")];
    let mut cache = DocumentCache::new();

    let mut opts_future = options("Hakusana");
    opts_future.modified_after = Some(at(1_000 + 3600));
    let (hits, _, _) = search(&files, &opts_future, &mut cache, false);
    assert_eq!(hits.len(), 0, "Future modified_after must exclude current file");

    let mut opts_past = options("Hakusana");
    opts_past.modified_after = Some(at(1_000 - 3600));
    let (hits, _, _) = search(&files, &opts_past, &mut cache, false);
    assert_eq!(hits.len(), 1, "Past modified_after must include current file");
}

#[test]
fn test_deleted_and_modified_files_in_repeated_searches() {
    let mut files = vec![
        file("file1.txt", "TiedostoYksi sisältää AvainsanaAlkuperainen"),
        file("file2.txt", "TiedostoKaksi sisältää AvainsanaKaksi"),
    ];
    let mut cache = DocumentCache::new();

    // 1. Initial search caches contents
    let (hits, _, stats1) = search(&files, &options("Avainsana"), &mut cache, false);
    assert_eq!(stats1.total_count, 2);
    assert_eq!(hits.len(), 2);

    // 2. Delete file2, and modify file1 with new content, 10 ms later
    files.pop();
    files[0].contents = "TiedostoYksi on nyt päivitetty: AvainsanaPaivitetty".as_bytes().to_vec();
    files[0].modified = Some(Timestamp { secs: 1_000, nanos: 10_000_000 });

    // 3. The first keyword must not match because file1 was modified
    let (hits, _, stats_old) = search(&files, &options("AvainsanaAlkuperainen"), &mut cache, false);
    assert_eq!(stats_old.total_count, 1, "Deleted file must not be counted in total_count");
    assert_eq!(hits.len(), 0, "Modified file must not hit stale cached content");

    // 4. The keyword of file2 must not match because file2 was deleted
    let (hits, _, stats_del) = search(&files, &options("AvainsanaKaksi"), &mut cache, false);
    assert_eq!(stats_del.total_count, 1, "Deleted file must not be counted in total_count");
    assert_eq!(hits.len(), 0, "Deleted file must not produce match");

    // 5. The updated keyword must match file1
    let (hits, _, stats_new) = search(&files, &options("AvainsanaPaivitetty"), &mut cache, false);
    assert_eq!(stats_new.total_count, 1, "Deleted file must not be counted in total_count");
    assert_eq!(hits.len(), 1, "Modified file must be parsed and found");
}

#[test]
fn a_file_that_is_gone_since_it_was_listed_is_skipped() {
    let entries = [WalkedEntry {
        path: FilePath::from_text("/root/gone.txt"),
        entry_type: plain_file(),
        size: Some(3),
    }];
    let opts = options("abc");
    let mut cache = DocumentCache::new();
    let candidates = scan_candidates(&entries.into_iter().collect(), &opts);
    assert_eq!(candidates.len(), 1);
    assert!(matches!(
        begin_candidate(&candidates[0], &opts, false, None, &mut cache),
        Task::Skip
    ));
}

#[test]
fn a_document_that_cannot_be_read_is_reported() {
    let files = [file("broken.docx", "no archive"), file("broken.pdf", "no document")];
    let mut cache = DocumentCache::new();
    let (found, errors, stats) = search(&files, &options("x"), &mut cache, false);
    assert_eq!(found.len(), 0);
    assert_eq!(stats.total_count, 2);
    assert_eq!(
        errors,
        vec![
            "Could not read ZIP archive: /root/broken.docx".to_string(),
            "Tiedosto ei ole kelvollinen PDF (puuttuva %PDF-otsake)".to_string(),
        ]
    );
    assert_eq!(cache.len(), 0);
}

#[test]
fn without_the_cache_texts_are_read_again_and_not_kept() {
    let files = [file("sample.txt", "sana")];
    let mut cache = DocumentCache::new();
    let mut opts = options("sana");
    opts.use_cache = false;
    for _ in 0..2 {
        let (found, _, stats) = search(&files, &opts, &mut cache, false);
        assert_eq!(found.len(), 1);
        assert_eq!(stats.cached_count, 0);
        assert!(cache.is_empty());
    }
}

#[test]
fn heavy_files_are_read_with_a_permit() {
    let opts = options("x");
    let mut cache = DocumentCache::new();
    let entry = |name: &str| WalkedEntry {
        path: FilePath::from_text(name),
        entry_type: plain_file(),
        size: Some(1),
    };
    let candidates = scan_candidates(&vec![entry("/a.pdf"), entry("/a.TXT")], &opts);
    assert_eq!(candidates.len(), 2);
    assert_eq!(candidates[1].ext, "txt");
    let mut heavy = |i: usize, size: u64| {
        let state = FileState { size, modified: None };
        match begin_candidate(&candidates[i], &opts, false, Some(state), &mut cache) {
            Task::Read { heavy, .. } => heavy,
            _ => panic!("the file is to be read"),
        }
    };
    assert!(heavy(0, 1));
    assert!(!heavy(1, 4 * 1024 * 1024 - 1));
    assert!(heavy(1, 4 * 1024 * 1024));
}

#[test]
fn a_filled_cache_changes_no_report() {
    let shown = |found: &[SearchResult]| {
        found
            .iter()
            .map(|r| {
                let contexts: Vec<String> = r.matches.iter().map(|m| m.context.clone()).collect();
                format!("{} {} {:?}", r.file.to_text(), r.file_type, contexts)
            })
            .collect::<Vec<String>>()
    };
    let mut cache = DocumentCache::new();
    let opts = options("sana");
    let before = [file("a.txt", "sana yksi"), file("b.txt", "sana kaksi"), file("c.txt", "muu")];
    search(&before, &opts, &mut cache, false);
    assert_eq!(cache.len(), 3);
    // One file is gone, one is longer, one is new and one cannot be read.
    let after = [
        file("a.txt", "sana yksi"),
        file("c.txt", "muu sana"),
        file("d.txt", "uusi sana"),
        file("e.pdf", "sana"),
    ];
    let (filled, errors, stats) = search(&after, &opts, &mut cache, false);
    assert_eq!((stats.cached_count, stats.total_count), (1, 4));
    let (fresh, fresh_errors, _) = search(&after, &opts, &mut DocumentCache::new(), false);
    let mut uncached = options("sana");
    uncached.use_cache = false;
    let (plain, plain_errors, _) = search(&after, &uncached, &mut cache, false);
    assert_eq!(shown(&filled), shown(&fresh));
    assert_eq!(shown(&filled), shown(&plain));
    assert_eq!(errors, fresh_errors);
    assert_eq!(errors, plain_errors);
    assert_eq!((filled.len(), errors.len()), (3, 1));
}
