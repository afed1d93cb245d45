//! What is shown of results.

use crate::language;
use crate::language::AppLanguage;
use crate::locations;
use crate::matching;
use crate::matching::Match;
use crate::numbers;
use crate::options::SearchStats;
use crate::path;
use crate::path::FilePath;
use crate::results::SearchError;
use crate::results::SearchResult;
use crate::text;
use vstd::prelude::*;
use vstd::utf8::*;

verus! {

/// A colour: red, green and blue.
pub type Rgb = (u8, u8, u8);

/// The colours of the badge of a type of file: background and text.
pub open spec fn badge_colors(file_type: Seq<char>) -> (Rgb, Rgb) {
    if file_type == "DOCX"@ {
        ((219, 234, 254), (29, 78, 216))
    } else if file_type == "ODT"@ || file_type == "FODT"@ {
        ((220, 252, 231), (21, 128, 61))
    } else if file_type == "PDF"@ {
        ((255, 237, 213), (194, 65, 12))
    } else if file_type == "TXT"@ {
        ((243, 232, 255), (126, 34, 206))
    } else {
        ((241, 245, 249), (71, 85, 105))
    }
}

/// The colours of the badge of a type of file: background and text.
pub fn type_badge_colors(file_type: &str) -> (r: (Rgb, Rgb))
    ensures
        r == badge_colors(file_type@),
{
    if text::same_text(file_type, "DOCX") {
        ((219, 234, 254), (29, 78, 216))
    } else if text::same_text(file_type, "ODT") || text::same_text(file_type, "FODT") {
        ((220, 252, 231), (21, 128, 61))
    } else if text::same_text(file_type, "PDF") {
        ((255, 237, 213), (194, 65, 12))
    } else if text::same_text(file_type, "TXT") {
        ((243, 232, 255), (126, 34, 206))
    } else {
        ((241, 245, 249), (71, 85, 105))
    }
}

/// The word for matches, after their number.
pub open spec fn matches_word(lang: AppLanguage) -> Seq<char> {
    language::localized_text(lang, " osumaa"@, " matches"@)
}

/// How many matches a file has, with a plus sign where the search for more was given up.
pub open spec fn matches_label(count: nat, lang: AppLanguage) -> Seq<char> {
    if count >= matching::MAX_MATCHES_PER_FILE {
        numbers::decimal(matching::MAX_MATCHES_PER_FILE as nat) + seq!['+'] + matches_word(lang)
    } else {
        numbers::decimal(count) + matches_word(lang)
    }
}

/// The heading of the matches of a file.
pub open spec fn matches_header(count: nat, lang: AppLanguage) -> Seq<char> {
    "— "@ + numbers::decimal(count) + matches_word(lang)
}

/// The label of the match at an index.
pub open spec fn match_label(index: nat, lang: AppLanguage) -> Seq<char> {
    language::localized_text(lang, "Osuma #"@, "Match #"@) + numbers::decimal(index + 1)
}

/// The heading of errors.
pub open spec fn errors_header(count: nat, lang: AppLanguage) -> Seq<char> {
    language::localized_text(lang, "Virheet ("@, "Errors ("@) + numbers::decimal(count) + seq![')']
}

/// How many matches a file has.
pub fn label_of_matches(count: usize, lang: AppLanguage) -> (r: String)
    ensures
        r@ == matches_label(count as nat, lang),
{
    let mut r = String::new();
    if count >= matching::MAX_MATCHES_PER_FILE {
        numbers::push_decimal(&mut r, matching::MAX_MATCHES_PER_FILE as u64);
        r.push('+');
    } else {
        numbers::push_decimal(&mut r, count as u64);
    }
    r.push_str(language::localized(lang, " osumaa", " matches"));
    assert(r@ =~= matches_label(count as nat, lang));
    r
}

/// The heading of the matches of a file.
pub fn header_of_matches(count: usize, lang: AppLanguage) -> (r: String)
    ensures
        r@ == matches_header(count as nat, lang),
{
    let mut r = "— ".to_owned();
    numbers::push_decimal(&mut r, count as u64);
    r.push_str(language::localized(lang, " osumaa", " matches"));
    r
}

/// The label of the match at an index.
pub fn label_of_match(index: usize, lang: AppLanguage) -> (r: String)
    requires
        index < usize::MAX,
    ensures
        r@ == match_label(index as nat, lang),
{
    let mut r = language::localized(lang, "Osuma #", "Match #").to_owned();
    numbers::push_decimal(&mut r, (index + 1) as u64);
    r
}

/// The heading of errors.
pub fn header_of_errors(count: usize, lang: AppLanguage) -> (r: String)
    ensures
        r@ == errors_header(count as nat, lang),
{
    let mut r = language::localized(lang, "Virheet (", "Errors (").to_owned();
    numbers::push_decimal(&mut r, count as u64);
    r.push(')');
    assert(r@ =~= errors_header(count as nat, lang));
    r
}

/// The number of matches of all results.
pub open spec fn match_count(results: Seq<SearchResult>) -> nat
    decreases results.len(),
{
    if results.len() == 0 {
        0
    } else {
        match_count(results.drop_last()) + results.last().matches@.len()
    }
}

/// What came of a search, in a few words.
pub open spec fn summary_text(matches: nat, files: nat, lang: AppLanguage) -> Seq<char> {
    if matches > 0 {
        match lang {
            AppLanguage::Finnish => numbers::decimal(matches) + " osumaa "@ + numbers::decimal(
                files,
            ) + " tiedostossa"@,
            AppLanguage::English => numbers::decimal(matches) + " matches in "@ + numbers::decimal(
                files,
            ) + " files"@,
        }
    } else {
        language::localized_text(lang, "Ei osumia"@, "No matches"@)
    }
}

proof fn lemma_count_prefix(results: Seq<SearchResult>, k: int)
    requires
        0 <= k <= results.len(),
    ensures
        match_count(results.take(k)) <= match_count(results),
    decreases results.len() - k,
{
    if k == results.len() {
        assert(results.take(k) =~= results);
    } else {
        lemma_count_prefix(results, k + 1);
        assert(results.take(k + 1).drop_last() =~= results.take(k));
    }
}

/// The number of matches of all results.
pub fn count_matches(results: &Vec<SearchResult>) -> (r: u64)
    requires
        match_count(results@) <= u64::MAX,
    ensures
        r == match_count(results@),
{
    let mut n: u64 = 0;
    let mut i: usize = 0;
    assert(results@.take(0) =~= Seq::empty());
    while i < results.len()
        invariant
            i <= results@.len(),
            n == match_count(results@.take(i as int)),
            match_count(results@) <= u64::MAX,
        decreases results@.len() - i,
    {
        proof {
            lemma_count_prefix(results@, i + 1);
            assert(results@.take(i + 1).drop_last() =~= results@.take(i as int));
        }
        n = n + results[i].matches.len() as u64;
        i = i + 1;
    }
    assert(results@.take(i as int) =~= results@);
    n
}

/// What came of a search, in a few words.
pub fn summary(matches: u64, files: usize, lang: AppLanguage) -> (r: String)
    ensures
        r@ == summary_text(matches as nat, files as nat, lang),
{
    if matches == 0 {
        return language::localized(lang, "Ei osumia", "No matches").to_owned();
    }
    let mut r = String::new();
    numbers::push_decimal(&mut r, matches);
    r.push_str(language::localized(lang, " osumaa ", " matches in "));
    numbers::push_decimal(&mut r, files as u64);
    r.push_str(language::localized(lang, " tiedostossa", " files"));
    assert(r@ =~= summary_text(matches as nat, files as nat, lang));
    r
}

/// How long a search took, and how many files it knew from the cache.
pub open spec fn timing_text(stats: SearchStats, lang: AppLanguage) -> Seq<char> {
    let first = language::localized_text(lang, "Haettu "@, "Searched "@) + numbers::decimal(
        stats.total_count as nat,
    ) + language::localized_text(lang, " tiedostoa ("@, " files ("@) + numbers::decimal(
        stats.millis as nat,
    ) + " ms)"@;
    if stats.cached_count > 0 {
        first + " • ⚡ "@ + numbers::decimal(stats.cached_count as nat) + language::localized_text(
            lang,
            " välimuistista"@,
            " from cache"@,
        )
    } else {
        first
    }
}

/// How long a search took, and how many files it knew from the cache.
pub fn timing(stats: SearchStats, lang: AppLanguage) -> (r: String)
    ensures
        r@ == timing_text(stats, lang),
{
    let mut r = language::localized(lang, "Haettu ", "Searched ").to_owned();
    numbers::push_decimal(&mut r, stats.total_count as u64);
    r.push_str(language::localized(lang, " tiedostoa (", " files ("));
    numbers::push_decimal(&mut r, stats.millis);
    r.push_str(" ms)");
    if stats.cached_count > 0 {
        r.push_str(" • ⚡ ");
        numbers::push_decimal(&mut r, stats.cached_count as u64);
        r.push_str(language::localized(lang, " välimuistista", " from cache"));
    }
    r
}

/// The number of characters to which the directory of a file is cut.
pub const SHOWN_DIRECTORY_CHARS: usize = 36;

/// A line in the list of results. The date is for the caller to add.
#[derive(Debug)]
pub struct ResultItem {
    pub file_path: String,
    pub file_name: String,
    pub dir_path: String,
    pub file_type: String,
    pub badge_bg: Rgb,
    pub badge_fg: Rgb,
    pub matches_count: usize,
    pub matches_label: String,
    pub is_selected: bool,
}

/// The name of a file, as it is shown.
pub open spec fn shown_name(p: Seq<u8>) -> Seq<char> {
    match path::name_of(p) {
        Some(name) => text::text_of_bytes(name),
        None => Seq::empty(),
    }
}

/// The directory of a file, as it is shown.
pub open spec fn shown_directory(p: Seq<u8>) -> Seq<char> {
    match path::parent_of(p) {
        Some(dir) => locations::truncated(path::path_text(dir), SHOWN_DIRECTORY_CHARS as nat),
        None => Seq::empty(),
    }
}

/// `item` is the line of a result.
pub open spec fn is_item_of(
    item: ResultItem,
    r: SearchResult,
    is_selected: bool,
    lang: AppLanguage,
) -> bool {
    &&& item.file_path@ == path::path_text(r.file@)
    &&& item.file_name@ == shown_name(r.file@)
    &&& item.dir_path@ == shown_directory(r.file@)
    &&& item.file_type@ == r.file_type@
    &&& (item.badge_bg, item.badge_fg) == badge_colors(r.file_type@)
    &&& item.matches_count == r.matches@.len()
    &&& item.matches_label@ == matches_label(r.matches@.len(), lang)
    &&& item.is_selected == is_selected
}

/// The name of a file, as it is shown.
pub fn name_shown(file: &FilePath) -> (r: String)
    ensures
        r@ == shown_name(file@),
{
    let mut r = String::new();
    if let Some(name) = file.file_name() {
        text::push_bytes(&mut r, name.as_slice());
    }
    assert(r@ =~= shown_name(file@));
    r
}

fn directory_shown(file: &FilePath) -> (r: String)
    ensures
        r@ == shown_directory(file@),
{
    match file.parent() {
        Some(dir) => locations::truncate_path(dir.to_text().as_str(), SHOWN_DIRECTORY_CHARS),
        None => String::new(),
    }
}

/// The line of a result.
pub fn item_of(r: &SearchResult, is_selected: bool, lang: AppLanguage) -> (item: ResultItem)
    ensures
        is_item_of(item, *r, is_selected, lang),
{
    let (badge_bg, badge_fg) = type_badge_colors(r.file_type.as_str());
    ResultItem {
        file_path: r.file.to_text(),
        file_name: name_shown(&r.file),
        dir_path: directory_shown(&r.file),
        file_type: r.file_type.as_str().to_owned(),
        badge_bg,
        badge_fg,
        matches_count: r.matches.len(),
        matches_label: label_of_matches(r.matches.len(), lang),
        is_selected,
    }
}

/// The lines of results, of which one may be selected.
pub fn items_of(results: &Vec<SearchResult>, selected: Option<usize>, lang: AppLanguage) -> (r: Vec<
    ResultItem,
>)
    ensures
        r@.len() == results@.len(),
        forall|i: int|
            0 <= i < r@.len() ==> is_item_of(
                #[trigger] r@[i],
                results@[i],
                selected == Some(i as usize),
                lang,
            ),
{
    let mut items: Vec<ResultItem> = Vec::new();
    let mut i: usize = 0;
    while i < results.len()
        invariant
            i <= results@.len(),
            items@.len() == i,
            forall|k: int|
                0 <= k < i ==> is_item_of(
                    #[trigger] items@[k],
                    results@[k],
                    selected == Some(k as usize),
                    lang,
                ),
        decreases results@.len() - i,
    {
        let is_selected = match selected {
            Some(k) => k == i,
            None => false,
        };
        items.push(item_of(&results[i], is_selected, lang));
        i = i + 1;
    }
    items
}

/// A match, as it is shown: its label and the text around it.
#[derive(Debug)]
pub struct MatchItem {
    pub index_label: String,
    pub context_text: String,
}

/// The matches of a result, as they are shown.
pub fn match_items(matches: &Vec<Match>, lang: AppLanguage) -> (r: Vec<MatchItem>)
    ensures
        r@.len() == matches@.len(),
        forall|i: int|
            0 <= i < r@.len() ==> (#[trigger] r@[i]).index_label@ == match_label(i as nat, lang)
                && r@[i].context_text@ == matches@[i].context@,
{
    let len: usize = matches.len();
    let mut items: Vec<MatchItem> = Vec::new();
    let mut i: usize = 0;
    while i < len
        invariant
            i <= len == matches@.len(),
            items@.len() == i,
            forall|k: int|
                0 <= k < i ==> (#[trigger] items@[k]).index_label@ == match_label(k as nat, lang)
                    && items@[k].context_text@ == matches@[k].context@,
        decreases len - i,
    {
        items.push(
            MatchItem {
                index_label: label_of_match(i, lang),
                context_text: matches[i].context.as_str().to_owned(),
            },
        );
        i = i + 1;
    }
    items
}

/// The selected result, as it is shown.
#[derive(Debug)]
pub struct Preview {
    pub index: usize,
    pub file_name: String,
    pub file_path: String,
    pub matches_header: String,
    pub matches: Vec<MatchItem>,
}

/// `preview` shows the result at its index.
pub open spec fn is_preview_of(
    preview: Preview,
    results: Seq<SearchResult>,
    lang: AppLanguage,
) -> bool {
    let r = results[preview.index as int];
    &&& preview.file_name@ == shown_name(r.file@)
    &&& preview.file_path@ == path::path_text(r.file@)
    &&& preview.matches_header@ == matches_header(r.matches@.len(), lang)
    &&& preview.matches@.len() == r.matches@.len()
    &&& forall|i: int|
        0 <= i < r.matches@.len() ==> (#[trigger] preview.matches@[i]).index_label@ == match_label(
            i as nat,
            lang,
        ) && preview.matches@[i].context_text@ == r.matches@[i].context@
}

/// What is shown of the selected result, where there is one.
pub fn preview_of(results: &Vec<SearchResult>, selected: Option<usize>, lang: AppLanguage) -> (r:
    Option<Preview>)
    ensures
        match r {
            Some(preview) => selected == Some(preview.index) && preview.index < results@.len()
                && is_preview_of(preview, results@, lang),
            None => selected matches Some(k) ==> k >= results@.len(),
        },
{
    match selected {
        Some(index) => if index < results.len() {
            let r = &results[index];
            Some(
                Preview {
                    index,
                    file_name: name_shown(&r.file),
                    file_path: r.file.to_text(),
                    matches_header: header_of_matches(r.matches.len(), lang),
                    matches: match_items(&r.matches, lang),
                },
            )
        } else {
            None
        },
        None => None,
    }
}

/// An error, as it is shown: the name of the file and the message.
#[derive(Debug)]
pub struct ErrorItem {
    pub file_name: String,
    pub error_message: String,
}

/// Errors, as they are shown.
pub fn error_items(errors: &Vec<SearchError>) -> (r: Vec<ErrorItem>)
    ensures
        r@.len() == errors@.len(),
        forall|i: int|
            0 <= i < r@.len() ==> (#[trigger] r@[i]).file_name@ == shown_name(errors@[i].file@)
                && r@[i].error_message@ == errors@[i].error@,
{
    let mut items: Vec<ErrorItem> = Vec::new();
    let mut i: usize = 0;
    while i < errors.len()
        invariant
            i <= errors@.len(),
            items@.len() == i,
            forall|k: int|
                0 <= k < i ==> (#[trigger] items@[k]).file_name@ == shown_name(errors@[k].file@)
                    && items@[k].error_message@ == errors@[k].error@,
        decreases errors@.len() - i,
    {
        items.push(
            ErrorItem {
                file_name: name_shown(&errors[i].file),
                error_message: errors[i].error.as_str().to_owned(),
            },
        );
        i = i + 1;
    }
    items
}

/// How many matches are shown of a file: their number where there are fewer than 200, and else
/// 200 with a plus sign.
pub proof fn matches_are_counted_up_to_a_limit(count: nat, lang: AppLanguage)
    ensures
        count < 200 ==> matches_label(count, lang) == numbers::decimal(count)
            + language::localized_text(lang, " osumaa"@, " matches"@),
        count >= 200 ==> matches_label(count, lang) == numbers::decimal(200) + seq!['+']
            + language::localized_text(lang, " osumaa"@, " matches"@),
        matches_header(count, lang) == seq!['—', ' '] + numbers::decimal(count)
            + language::localized_text(lang, " osumaa"@, " matches"@),
        errors_header(count, lang) == language::localized_text(lang, "Virheet ("@, "Errors ("@)
            + numbers::decimal(count) + seq![')'],
{
    reveal_strlit("— ");
    assert("— "@ =~= seq!['—', ' ']);
}

/// Matches are numbered from one.
pub proof fn matches_are_numbered_from_one(index: nat, lang: AppLanguage)
    ensures
        match_label(index, lang) == language::localized_text(lang, "Osuma #"@, "Match #"@)
            + numbers::decimal(index + 1),
{
}

/// The matches of results add up.
pub proof fn matches_add_up(a: Seq<SearchResult>, b: Seq<SearchResult>, r: SearchResult)
    ensures
        match_count(a + b) == match_count(a) + match_count(b),
        match_count(seq![r]) == r.matches@.len(),
        match_count(Seq::empty()) == 0,
    decreases b.len(),
{
    assert(match_count(seq![r].drop_last()) == 0);
    assert(seq![r].last() == r);
    if b.len() == 0 {
        assert(a + b =~= a);
    } else {
        matches_add_up(a, b.drop_last(), r);
        assert((a + b).drop_last() =~= a + b.drop_last());
        assert((a + b).last() == b.last());
    }
}

/// What is said of a search: how many matches there are in how many files, or that there are
/// none; how many files were searched in how many milliseconds, and how many of them came from
/// the cache, where any did.
pub proof fn searches_are_summed_up(
    matches: nat,
    files: nat,
    stats: SearchStats,
    lang: AppLanguage,
)
    ensures
        matches == 0 ==> summary_text(matches, files, lang) == language::localized_text(
            lang,
            "Ei osumia"@,
            "No matches"@,
        ),
        matches > 0 ==> summary_text(matches, files, lang) == numbers::decimal(matches)
            + language::localized_text(lang, " osumaa "@, " matches in "@) + numbers::decimal(files)
            + language::localized_text(lang, " tiedostossa"@, " files"@),
        stats.cached_count == 0 ==> timing_text(stats, lang) == language::localized_text(
            lang,
            "Haettu "@,
            "Searched "@,
        ) + numbers::decimal(stats.total_count as nat) + language::localized_text(
            lang,
            " tiedostoa ("@,
            " files ("@,
        ) + numbers::decimal(stats.millis as nat) + " ms)"@,
        stats.cached_count > 0 ==> timing_text(stats, lang) == timing_text(
            (SearchStats { cached_count: 0, ..stats }),
            lang,
        ) + " • ⚡ "@ + numbers::decimal(stats.cached_count as nat) + language::localized_text(
            lang,
            " välimuistista"@,
            " from cache"@,
        ),
{
}

/// Types of files have badges of different colours: blue, green, orange and violet, and grey
/// for all others.
pub proof fn types_have_colours(file_type: Seq<char>)
    ensures
        file_type == "DOCX"@ ==> badge_colors(file_type) == (
            (219u8, 234u8, 254u8),
            (29u8, 78u8, 216u8),
        ),
        file_type == "ODT"@ || file_type == "FODT"@ ==> badge_colors(file_type) == (
            (220u8, 252u8, 231u8),
            (21u8, 128u8, 61u8),
        ),
        file_type == "PDF"@ ==> badge_colors(file_type) == (
            (255u8, 237u8, 213u8),
            (194u8, 65u8, 12u8),
        ),
        file_type == "TXT"@ ==> badge_colors(file_type) == (
            (243u8, 232u8, 255u8),
            (126u8, 34u8, 206u8),
        ),
        file_type != "DOCX"@ && file_type != "ODT"@ && file_type != "FODT"@ && file_type != "PDF"@
            && file_type != "TXT"@ ==> badge_colors(file_type) == (
            (241u8, 245u8, 249u8),
            (71u8, 85u8, 105u8),
        ),
{
    reveal_strlit("DOCX");
    reveal_strlit("ODT");
    reveal_strlit("FODT");
    reveal_strlit("PDF");
    reveal_strlit("TXT");
    assert("DOCX"@[0] == 'D' && "FODT"@[0] == 'F');
    assert("ODT"@[0] == 'O' && "PDF"@[0] == 'P' && "TXT"@[0] == 'T');
    assert("DOCX"@.len() == 4 && "FODT"@.len() == 4);
    assert("ODT"@.len() == 3 && "PDF"@.len() == 3 && "TXT"@.len() == 3);
}

/// A file in a directory is shown by its name, and by the end of the path of its directory in
/// up to 36 characters.
pub proof fn files_are_shown_by_name_and_directory(dir: Seq<char>, name: Seq<char>)
    requires
        dir.len() > 0,
        dir.last() != '/',
        dir[0] == '/',
        name.len() > 0,
        !encode_utf8(name).contains(0x2f),
        encode_utf8(name) != seq![0x2eu8],
        encode_utf8(name) != seq![0x2eu8, 0x2eu8],
    ensures
        shown_name(path::joined(encode_utf8(dir), encode_utf8(name))) == name,
        shown_directory(path::joined(encode_utf8(dir), encode_utf8(name))).len() <= 36,
{
    text::lemma_last_byte(name);
    path::joining_adds_a_name(encode_utf8(dir), encode_utf8(name));
    text::lemma_text_of_encoded(name);
    let p = path::joined(encode_utf8(dir), encode_utf8(name));
    locations::truncated_path_fits(path::path_text(path::parent_of(p)->Some_0), 36);
}

/// The directory of a file is shown whole in up to 36 characters, and else by its end.
pub proof fn directories_are_shown_by_their_end(p: Seq<u8>, dir: Seq<u8>)
    requires
        path::parent_of(p) == Some(dir),
    ensures
        path::path_text(dir).len() <= 36 ==> shown_directory(p) == path::path_text(dir),
        path::path_text(dir).len() > 36 ==> shown_directory(p) == seq!['.', '.', '.']
            + path::path_text(dir).skip(path::path_text(dir).len() - 33),
{
    reveal_strlit("...");
    assert("..."@ =~= seq!['.', '.', '.']);
}

/// The line of a result shows that result: its path, its name, its directory, its type with
/// the colours of that type, and its matches.
pub proof fn lines_show_their_results(
    item: ResultItem,
    r: SearchResult,
    is_selected: bool,
    lang: AppLanguage,
)
    requires
        is_item_of(item, r, is_selected, lang),
    ensures
        item.file_path@ == text::text_of_bytes(r.file@),
        path::name_of(r.file@) matches Some(name) ==> item.file_name@ == text::text_of_bytes(name),
        path::name_of(r.file@) is None ==> item.file_name@.len() == 0,
        path::parent_of(r.file@) matches Some(dir) ==> item.dir_path@ == locations::truncated(
            text::text_of_bytes(dir),
            36,
        ),
        item.file_type@ == r.file_type@,
        item.badge_bg == badge_colors(r.file_type@).0,
        item.badge_fg == badge_colors(r.file_type@).1,
        item.matches_count == r.matches@.len(),
        item.matches_label@ == matches_label(r.matches@.len(), lang),
        item.is_selected == is_selected,
{
}

/// The preview shows the matches of its result, each with its number and its context.
pub proof fn previews_show_their_results(
    preview: Preview,
    results: Seq<SearchResult>,
    lang: AppLanguage,
    i: int,
)
    requires
        is_preview_of(preview, results, lang),
        preview.index < results.len(),
    ensures
        ({
            let r = results[preview.index as int];
            &&& preview.file_path@ == text::text_of_bytes(r.file@)
            &&& path::name_of(r.file@) matches Some(name) ==> preview.file_name@
                == text::text_of_bytes(name)
            &&& preview.matches_header@ == matches_header(r.matches@.len(), lang)
            &&& preview.matches@.len() == r.matches@.len()
            &&& 0 <= i < r.matches@.len() ==> preview.matches@[i].context_text@
                == r.matches@[i].context@ && preview.matches@[i].index_label@ == match_label(
                i as nat,
                lang,
            )
        }),
{
}

} // verus!
