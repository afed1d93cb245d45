use doxsearch::boundary::ceil_char_boundary;
use doxsearch::boundary::floor_char_boundary;
use doxsearch::boundary::slice;
use doxsearch::bytes::find_run;
use doxsearch::bytes::has_run;
use doxsearch::language::AppLanguage;
use doxsearch::matching::build_search_regex;
use doxsearch::matching::context_of;
use doxsearch::matching::find_match_spans;
use doxsearch::matching::find_match_spans_limit;
use doxsearch::matching::find_matches;
use doxsearch::matching::find_matches_limit;
use doxsearch::numbers::parse_number;
use doxsearch::numbers::push_decimal;
use doxsearch::prefix::folded_fit;
use doxsearch::prefix::starts_with_exact;
use doxsearch::prefix::starts_with_ignore_case;
use doxsearch::text::at_line_start;
use doxsearch::text::blank;
use doxsearch::text::contains_text;
use doxsearch::text::control;
use doxsearch::text::decode_utf8_or_latin1;
use doxsearch::text::ends_with;
use doxsearch::text::push_bytes;
use doxsearch::text::white_space;
use doxsearch::text::width_of;
use doxsearch::xml_reader::apply_event;
use doxsearch::xml_reader::extract_text_from_xml;
use doxsearch::xml_reader::extract_text_from_xml_reader;
use doxsearch::xml_reader::TextPosition;
use doxsearch::xml_reader::XmlEvent;
use doxsearch::xml_text::unescape_xml_into;

fn unescaped(raw: &[u8]) -> String {
    let mut out = String::new();
    unescape_xml_into(raw, &mut out);
    out
}

#[test]
fn characters_are_classed_as_the_standard_library_does() {
    for code in 0..=0x10ffffu32 {
        if let Some(c) = char::from_u32(code) {
            assert_eq!(white_space(c), c.is_whitespace(), "{:x}", code);
            assert_eq!(control(c), c.is_control(), "{:x}", code);
            assert_eq!(width_of(c), c.len_utf8(), "{:x}", code);
        }
    }
}

#[test]
fn blank_texts() {
    assert!(blank(""));
    assert!(blank(" \t\r\n\u{a0}\u{3000}"));
    assert!(!blank(" . "));
    assert!(at_line_start(""));
    assert!(at_line_start("a\n"));
    assert!(!at_line_start("a\nä"));
}

#[test]
fn bytes_that_are_not_utf8_are_read_in_two_ways() {
    let broken = b"a\xe4b";
    let mut lossy = String::new();
    push_bytes(&mut lossy, broken);
    assert_eq!(lossy, "a\u{fffd}b");
    assert_eq!(decode_utf8_or_latin1(broken), "aäb");
    assert_eq!(decode_utf8_or_latin1("aäb".as_bytes()), "aäb");
    let mut whole = String::from("x");
    push_bytes(&mut whole, "äö".as_bytes());
    assert_eq!(whole, "xäö");
}

#[test]
fn runs_are_found_from_an_index_on() {
    assert_eq!(find_run(b"endstream stream", 4, b"stream"), Some(10));
    assert_eq!(find_run(b"endstream", 0, b"stream"), Some(3));
    assert_eq!(find_run(b"abc", 3, b"c"), None);
    assert!(has_run(b"abc", b""));
    assert!(!has_run(b"ab", b"abc"));
    assert!(contains_text("KDE Plasma", "Plasma"));
    assert!(ends_with("word/document.xml", "document.xml"));
    assert!(!ends_with("xml", "document.xml"));
}

#[test]
fn numbers_are_read_and_written() {
    assert_eq!(parse_number(b"0042", 10, 100), Some(42));
    assert_eq!(parse_number(b"+7", 10, 100), Some(7));
    assert_eq!(parse_number(b"ff", 16, 0xff), Some(255));
    assert_eq!(parse_number(b"100", 16, 0xff), None);
    assert_eq!(parse_number(b"", 10, 9), None);
    assert_eq!(parse_number(b"+", 10, 9), None);
    assert_eq!(parse_number(b"-1", 10, 9), None);
    assert_eq!(parse_number(b"18446744073709551615", 10, u64::MAX), Some(u64::MAX));
    assert_eq!(parse_number(b"18446744073709551616", 10, u64::MAX), None);
    let mut out = String::from("n=");
    push_decimal(&mut out, 0);
    push_decimal(&mut out, 1_203);
    push_decimal(&mut out, u64::MAX);
    assert_eq!(out, "n=0120318446744073709551615");
}

#[test]
fn entities_at_the_edges() {
    assert_eq!(unescaped(b""), "");
    assert_eq!(unescaped(b"&"), "&");
    assert_eq!(unescaped(b"&;"), "&;");
    assert_eq!(unescaped(b"&#;"), "&#;");
    assert_eq!(unescaped(b"&#x;"), "&#x;");
    assert_eq!(unescaped(b"&#X41;"), "A");
    assert_eq!(unescaped(b"&#+65;"), "A");
    assert_eq!(unescaped(b"&#xD800;"), "\u{fffd}");
    assert_eq!(unescaped(b"&#x110000;"), "\u{fffd}");
    assert_eq!(unescaped(b"&#4294967296;"), "&#4294967296;");
    assert_eq!(unescaped(b"&#xzz;"), "&#xzz;");
    assert_eq!(unescaped(b"&AMP;"), "&AMP;");
    assert_eq!(unescaped(b"a&amp"), "a&amp");
    assert_eq!(unescaped(b"&amp;&lt;"), "&<");
    // The semicolon has to stand within fifteen bytes of the ampersand.
    assert_eq!(unescaped(b"&12345678901234;"), "&12345678901234;");
    assert_eq!(unescaped(b"&123456789012345;&lt;"), "&123456789012345;<");
    // Bytes that are not UTF-8: around entities they are replaced, within them left out.
    assert_eq!(unescaped(b"\xff&lt;\xff"), "\u{fffd}<\u{fffd}");
    assert_eq!(unescaped(b"&\xff;"), "&;");
    assert_eq!(unescaped(b"&#x\xff;"), "");
    assert_eq!(unescaped(b"&#\xff;"), "");
}

#[test]
fn text_stays_before_what_is_unescaped() {
    let mut out = String::from("before ");
    unescape_xml_into(b"&quot;x&apos;", &mut out);
    assert_eq!(out, "before \"x'");
}

#[test]
fn xml_events_one_by_one() {
    let outside = TextPosition { in_text_node: false, in_paragraph: false };
    let mut out = String::new();
    let at = apply_event(outside, false, &XmlEvent::Start(b"text:p".to_vec()), &mut out);
    assert!(at.in_paragraph && !at.in_text_node);
    let at = apply_event(at, false, &XmlEvent::Text(b"a&lt;".to_vec()), &mut out);
    let at = apply_event(at, false, &XmlEvent::CData(b"&lt;".to_vec()), &mut out);
    let at = apply_event(at, false, &XmlEvent::Empty(b"text:tab".to_vec(), vec![]), &mut out);
    let spaces = XmlEvent::Empty(
        b"text:s".to_vec(),
        vec![None, Some((b"x".to_vec(), b"9".to_vec())), Some((b"t:c".to_vec(), b"2".to_vec()))],
    );
    let at = apply_event(at, false, &spaces, &mut out);
    let one = XmlEvent::Empty(b"s".to_vec(), vec![Some((b"c".to_vec(), b"many".to_vec()))]);
    let at = apply_event(at, false, &one, &mut out);
    let at = apply_event(at, false, &XmlEvent::Empty(b"line-break".to_vec(), vec![]), &mut out);
    let at = apply_event(at, false, &XmlEvent::Other, &mut out);
    assert_eq!(out, "a<&lt;\t   \n");
    let at = apply_event(at, false, &XmlEvent::End(b"text:p".to_vec()), &mut out);
    assert!(!at.in_paragraph);
    assert_eq!(out, "a<&lt;\t   \n");
    let at = apply_event(at, false, &XmlEvent::Text(b"outside".to_vec()), &mut out);
    let at = apply_event(at, false, &XmlEvent::Empty(b"tab".to_vec(), vec![]), &mut out);
    assert!(!at.in_paragraph);
    assert_eq!(out, "a<&lt;\t   \n");
}

#[test]
fn wordprocessing_text_stands_in_runs_only() {
    let xml = b"<w:p>no<w:t>yes</w:t><w:delText>, too</w:delText><w:br/>no</w:p>";
    assert_eq!(extract_text_from_xml_reader(xml, true).unwrap(), "yes, too\n");
    assert_eq!(extract_text_from_xml_reader(xml, false).unwrap(), "noyes, too\nno\n");
}

#[test]
fn xml_comments_declarations_and_sections() {
    let xml = "<?xml version=\"1.0\"?><!-- no --><p>a<!-- no -->b<![CDATA[<c>]]></p><h/>";
    assert_eq!(extract_text_from_xml(xml).unwrap(), "ab<c>\n");
}

#[test]
fn xml_errors_say_what_the_reader_says() {
    let error = extract_text_from_xml("<p>a</q>").unwrap_err();
    assert!(error.message.starts_with("XML parse error: "));
    assert!(error.message.len() > "XML parse error: ".len());
}

#[test]
fn boundaries_around_wide_characters() {
    let text = "aä🦀";
    let floors: Vec<usize> = (0..9).map(|i| floor_char_boundary(text, i)).collect();
    assert_eq!(floors, vec![0, 1, 1, 3, 3, 3, 3, 7, 7]);
    let ceils: Vec<usize> = (0..9).map(|i| ceil_char_boundary(text, i)).collect();
    assert_eq!(ceils, vec![0, 1, 3, 3, 7, 7, 7, 7, 7]);
    assert_eq!(slice(text, 1, 7), "ä🦀");
    assert_eq!(slice(text, 3, 3), "");
}

#[test]
fn beginnings_that_a_query_describes() {
    assert_eq!(starts_with_exact("Äiti on", "Äiti"), Some(5));
    assert_eq!(starts_with_exact("a \n b", "a b"), Some(5));
    assert_eq!(starts_with_exact("ab", "a b"), None);
    assert_eq!(starts_with_exact("a", "ab"), None);
    assert_eq!(starts_with_exact("a", ""), Some(0));
    assert_eq!(starts_with_exact("a ", "a "), Some(2));
    assert_eq!(starts_with_exact("A", "a"), None);
    assert_eq!(starts_with_ignore_case("ÖLJY  ja", "öljy JA"), Some(9));
    assert_eq!(starts_with_ignore_case("öljy", "vesi"), None);
    assert_eq!(starts_with_ignore_case("x", "xy"), None);
    // The lower case of this letter has two characters.
    assert_eq!(starts_with_ignore_case("İ", "i"), Some(2));
    assert_eq!(starts_with_ignore_case("i", "İ"), None);
    assert!(folded_fit(&['a', 'b'], &['a', 'b']));
    assert!(folded_fit(&['a', 'b'], &['a']));
    assert!(!folded_fit(&['a', 'b', 'c'], &['a']));
    assert!(!folded_fit(&['a'], &['a', 'b']));
    assert!(!folded_fit(&['a'], &[]));
}

#[test]
fn a_text_begins_with_itself() {
    for text in ["", "sana", " a  b\tc ", "🦀 İ"] {
        assert_eq!(starts_with_exact(text, text), Some(text.len()));
        assert_eq!(starts_with_ignore_case(text, text), Some(text.len()));
    }
}

#[test]
fn patterns_stand_for_the_query_itself() {
    let query = "a.b*c(d)[e]{f}^$|\\?+#&-~";
    let text = format!("x{}y", query);
    assert_eq!(find_match_spans(&text, query, false), vec![(1, 1 + query.len())]);
    assert_eq!(
        build_search_regex("a.b  c-d", false).unwrap().as_str(),
        "a\\.b\\s+c\\-d"
    );
    assert!(build_search_regex("A", true).unwrap().is_match("a"));
    assert!(!build_search_regex("A", false).unwrap().is_match("a"));
    assert!(build_search_regex(" \t\n", false).is_none());
}

#[test]
fn queries_with_the_same_words_find_the_same() {
    let text = "yksi  kaksi yksi\nkaksi";
    let expected = vec![(0, 11), (12, 22)];
    for query in ["yksi kaksi", "  yksi \t kaksi\n"] {
        assert_eq!(find_match_spans(text, query, false), expected);
    }
    assert!(find_match_spans(text, "  ", false).is_empty());
    assert!(find_match_spans(text, "", true).is_empty());
}

#[test]
fn limits_keep_the_first_matches() {
    let text = "aXaXaXa";
    let all = find_match_spans_limit(text, "a", false, None);
    assert_eq!(all, vec![(0, 1), (2, 3), (4, 5), (6, 7)]);
    assert_eq!(find_match_spans_limit(text, "a", false, Some(2)), all[..2].to_vec());
    assert_eq!(find_match_spans_limit(text, "a", false, Some(9)), all);
    assert!(find_match_spans_limit(text, "a", false, Some(0)).is_empty());
    assert_eq!(find_matches_limit(text, "a", false, 3, Some(1)).len(), 1);
}

#[test]
fn contexts_are_cut_between_characters_and_set_in_one_line() {
    let text = "alku ääkkösiä\n\n  osuma \tloppu ääkkösiä";
    let found = find_matches(text, "osuma", false, 5);
    assert_eq!(found.len(), 1);
    assert_eq!(found[0].context, "… ä osuma lop …");
    let whole = find_matches(text, "osuma", false, 1000);
    assert_eq!(whole[0].context, "alku ääkkösiä osuma loppu ääkkösiä");
    let bare = find_matches(text, "osuma", false, 0);
    assert_eq!(bare[0].context, "… osuma …");
    let huge = find_matches(text, "osuma", false, usize::MAX);
    assert_eq!(huge[0].context, whole[0].context);
    assert_eq!(context_of("🦀x🦀", 4, 5, 1), "🦀x🦀");
}

#[test]
fn languages_are_told_by_the_locale() {
    let detect = AppLanguage::detect_from_system;
    assert_eq!(detect(Some("fi_FI.UTF-8"), None, None), AppLanguage::Finnish);
    assert_eq!(detect(Some("FI"), Some("en"), Some("en")), AppLanguage::Finnish);
    assert_eq!(detect(Some(""), Some("fi"), Some("fi")), AppLanguage::English);
    assert_eq!(detect(None, Some("fi"), Some("en")), AppLanguage::Finnish);
    assert_eq!(detect(None, None, Some("fi_FI")), AppLanguage::Finnish);
    assert_eq!(detect(None, None, None), AppLanguage::English);
    assert_eq!(AppLanguage::Finnish.label(), "Suomi");
    assert_eq!(AppLanguage::English.label(), "English");
    for lang in [AppLanguage::Finnish, AppLanguage::English] {
        assert_eq!(AppLanguage::from_label(lang.label()), lang);
    }
}

#[test]
fn escaped_text_comes_back() {
    let text = "a<b> & \"ä\" 'ö' €😀;";
    let entities: String = text
        .chars()
        .map(|c| match c {
            '&' => "&amp;".to_string(),
            '<' => "&lt;".to_string(),
            '>' => "&gt;".to_string(),
            '"' => "&quot;".to_string(),
            '\'' => "&apos;".to_string(),
            c => c.to_string(),
        })
        .collect();
    let hexadecimal: String = text.chars().map(|c| format!("&#x{:X};", c as u32)).collect();
    let decimal: String = text.chars().map(|c| format!("&#{};", c as u32)).collect();
    let mixed: String = text
        .chars()
        .enumerate()
        .map(|(i, c)| if i % 2 == 0 || c == '&' { format!("&#{};", c as u32) } else { c.to_string() })
        .collect();
    for raw in [entities, hexadecimal, decimal, mixed] {
        let mut out = String::new();
        unescape_xml_into(raw.as_bytes(), &mut out);
        assert_eq!(out, text, "{}", raw);
    }
}
