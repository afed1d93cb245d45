use doxsearch::cache::DocumentCache;
use doxsearch::cache::MAX_CACHE_TOTAL_BYTES;
use doxsearch::cache_shard::CacheKey;
use doxsearch::cache_shard::MAX_CACHED_ENTRY_BYTES;
use doxsearch::cache_shard::MAX_SHARD_BYTES;
use doxsearch::cache_shard::MAX_SHARD_ENTRIES;
use doxsearch::csv::csv_field;
use doxsearch::csv::results_csv;
use doxsearch::filters::DateFilter;
use doxsearch::filters::SizeFilter;
use doxsearch::filters::SortOrder;
use doxsearch::language::AppLanguage;
use doxsearch::matching::Match;
use doxsearch::options::SearchStats;
use doxsearch::path::FilePath;
use doxsearch::process::display_type;
use doxsearch::process::recent;
use doxsearch::process::reports_progress;
use doxsearch::results::sort_results_list;
use doxsearch::results::SearchError;
use doxsearch::results::SearchResult;
use doxsearch::screen::count_matches;
use doxsearch::screen::error_items;
use doxsearch::screen::header_of_errors;
use doxsearch::screen::items_of;
use doxsearch::screen::label_of_matches;
use doxsearch::screen::preview_of;
use doxsearch::screen::summary;
use doxsearch::screen::timing;
use doxsearch::screen::type_badge_colors;
use doxsearch::semaphore::Acquisition;
use doxsearch::semaphore::HeavyTaskSemaphore;
use doxsearch::session::check_search;
use doxsearch::session::problem_message;
use doxsearch::session::AppState;
use doxsearch::session::SearchProblem;
use doxsearch::session::SearchScreen;
use doxsearch::time::Timestamp;
use doxsearch::ui_text::directory_not_found;
use doxsearch::ui_text::notice_text;
use doxsearch::ui_text::results_saved;
use doxsearch::ui_text::saving_failed;
use doxsearch::ui_text::ui_texts;
use doxsearch::ui_text::Notice;
use rayon::iter::IntoParallelIterator;
use rayon::iter::ParallelIterator;
use std::sync::atomic::AtomicUsize;
use std::sync::atomic::Ordering;
use std::sync::Arc;
use std::sync::Condvar;
use std::sync::Mutex;
use std::time::Duration;

const FI: AppLanguage = AppLanguage::Finnish;
const EN: AppLanguage = AppLanguage::English;

fn at(secs: i64, nanos: u32) -> Option<Timestamp> {
    Some(Timestamp { secs, nanos })
}

fn result(file: &str, matches: usize, modified: Option<Timestamp>) -> SearchResult {
    SearchResult {
        file: FilePath::from_text(file),
        file_type: "TXT".to_string(),
        matches: (0..matches).map(|i| Match { context: format!("c{}", i) }).collect(),
        modified,
    }
}

fn files(results: &[SearchResult]) -> Vec<String> {
    results.iter().map(|r| r.file.to_text()).collect()
}

fn key(path: &str, size: u64) -> CacheKey {
    CacheKey { path: FilePath::from_text(path), size, modified: None }
}

/// Keys of one shard, as many as asked for.
fn keys_of_shard(shard: usize, count: usize) -> Vec<CacheKey> {
    let mut keys = Vec::new();
    let mut i = 0;
    while keys.len() < count {
        let k = key(&format!("/k/{}", i), 1);
        if DocumentCache::shard_index(&k) == shard {
            keys.push(k);
        }
        i += 1;
    }
    keys
}

#[test]
fn paths_that_are_the_same_share_a_cached_text() {
    let mut cache = DocumentCache::default();
    cache.insert(key("/a/b", 1), "text".into());
    assert_eq!(DocumentCache::shard_index(&key("/a//b/", 1)), DocumentCache::shard_index(&key("/a/b", 1)));
    assert_eq!(cache.get(&key("/a/./b/", 1)).as_deref(), Some("text"));
    assert!(cache.get(&key("a/b", 1)).is_none());
}

#[test]
fn a_newer_text_takes_the_place_of_an_older_one() {
    let mut cache = DocumentCache::new();
    cache.insert(key("/a", 1), "old text".into());
    let before = cache.memory_usage_bytes();
    let key_size = std::mem::size_of::<(std::path::PathBuf, u64, Option<std::time::SystemTime>)>();
    assert_eq!(before, key_size + 2 + 8);
    cache.insert(key("/a", 1), "new".into());
    assert_eq!(cache.len(), 1);
    assert_eq!(cache.memory_usage_bytes(), key_size + 2 + 3);
    assert_eq!(cache.get(&key("/a", 1)).as_deref(), Some("new"));
}

#[test]
fn texts_that_are_too_large_are_not_kept() {
    let mut cache = DocumentCache::new();
    let limit: Arc<str> = "a".repeat(MAX_CACHED_ENTRY_BYTES).into();
    cache.insert(key("/fits", 1), limit);
    assert_eq!(cache.len(), 1);
    let large: Arc<str> = "a".repeat(MAX_CACHED_ENTRY_BYTES + 1).into();
    cache.insert(key("/large", 1), large.clone());
    assert_eq!(cache.len(), 1);
    // What stood under the key stays.
    cache.insert(key("/a", 1), "small".into());
    cache.insert(key("/a", 1), large);
    assert_eq!(cache.get(&key("/a", 1)).as_deref(), Some("small"));
}

#[test]
fn a_full_shard_is_cut_to_four_fifths() {
    let keys = keys_of_shard(3, MAX_SHARD_ENTRIES + 1);
    let mut cache = DocumentCache::new();
    for (i, k) in keys.iter().enumerate().take(MAX_SHARD_ENTRIES) {
        cache.insert(k.duplicate(), format!("{}", i).into());
    }
    assert_eq!(cache.len(), MAX_SHARD_ENTRIES);
    // The oldest is used, so the next ones leave first.
    assert_eq!(cache.get(&keys[0]).as_deref(), Some("0"));
    cache.insert(keys[MAX_SHARD_ENTRIES].duplicate(), "last".into());
    assert_eq!(cache.len(), 500);
    assert_eq!(cache.get(&keys[0]).as_deref(), Some("0"));
    assert!(cache.get(&keys[1]).is_none());
    assert!(cache.get(&keys[126]).is_none());
    assert_eq!(cache.get(&keys[127]).as_deref(), Some("127"));
    assert_eq!(cache.get(&keys[MAX_SHARD_ENTRIES]).as_deref(), Some("last"));
}

#[test]
fn bytes_are_freed_in_the_order_of_use() {
    let keys = keys_of_shard(0, 5);
    let mut cache = DocumentCache::new();
    let text: Arc<str> = "a".repeat(4_000_000).into();
    for k in keys.iter().take(4) {
        cache.insert(k.duplicate(), text.clone());
    }
    assert_eq!(cache.len(), 4);
    assert!(cache.memory_usage_bytes() <= MAX_SHARD_BYTES);
    let _ = cache.get(&keys[0]);
    cache.insert(keys[4].duplicate(), text.clone());
    assert!(cache.get(&keys[0]).is_some());
    assert!(cache.get(&keys[1]).is_none());
    assert!(cache.get(&keys[2]).is_none());
    assert!(cache.get(&keys[3]).is_some());
    assert!(cache.get(&keys[4]).is_some());
    cache.clear();
    assert!(cache.is_empty());
    assert!(cache.get(&keys[4]).is_none());
}

#[test]
fn permits_are_limited_and_come_back() {
    let mut semaphore = HeavyTaskSemaphore::new(2);
    let mut permits = Vec::new();
    for _ in 0..2 {
        match semaphore.acquire_cancellable(false) {
            Acquisition::Granted(p) => permits.push(p),
            _ => panic!("a permit is free"),
        }
    }
    assert_eq!(semaphore.available_permits(), 0);
    assert!(matches!(semaphore.acquire_cancellable(false), Acquisition::Wait));
    assert!(matches!(semaphore.acquire_cancellable(true), Acquisition::Cancelled));
    for p in permits {
        semaphore.release(p);
    }
    assert_eq!(semaphore.available_permits(), 2);
    assert!(matches!(semaphore.acquire_cancellable(true), Acquisition::Cancelled));
    assert_eq!(semaphore.available_permits(), 2);
}

fn sorted(order: SortOrder) -> Vec<String> {
    let mut results = vec![
        result("/b/x.txt", 2, at(10, 5)),
        result("/a/Y.txt", 7, None),
        result("/a/x.txt", 2, at(10, 6)),
        result("/c/ä.txt", 1, at(-3, 0)),
        result("/", 7, at(10, 5)),
        result("/a/z.txt", 7, None),
    ];
    sort_results_list(&mut results, order);
    files(&results)
}

#[test]
fn results_in_four_orders() {
    assert_eq!(
        sorted(SortOrder::DateDesc),
        vec!["/a/Y.txt", "/a/z.txt", "/a/x.txt", "/", "/b/x.txt", "/c/ä.txt"]
    );
    assert_eq!(
        sorted(SortOrder::DateAsc),
        vec!["/c/ä.txt", "/", "/b/x.txt", "/a/x.txt", "/a/Y.txt", "/a/z.txt"]
    );
    assert_eq!(
        sorted(SortOrder::Name),
        vec!["/", "/a/x.txt", "/b/x.txt", "/a/Y.txt", "/a/z.txt", "/c/ä.txt"]
    );
    assert_eq!(
        sorted(SortOrder::Matches),
        vec!["/", "/a/Y.txt", "/a/z.txt", "/a/x.txt", "/b/x.txt", "/c/ä.txt"]
    );
}

#[test]
fn equal_results_stay_in_their_order() {
    let mut results = vec![result("/a//b", 1, None), result("/a/b", 1, None), result("/a/b/", 1, None)];
    sort_results_list(&mut results, SortOrder::DateDesc);
    assert_eq!(files(&results), vec!["/a//b", "/a/b", "/a/b/"]);
    let mut empty = Vec::new();
    sort_results_list(&mut empty, SortOrder::Name);
    assert!(empty.is_empty());
}

#[test]
fn choices_by_index() {
    let orders: Vec<SortOrder> = (-1..5).map(SortOrder::from_index).collect();
    assert_eq!(
        orders,
        vec![
            SortOrder::DateDesc,
            SortOrder::DateDesc,
            SortOrder::DateAsc,
            SortOrder::Name,
            SortOrder::Matches,
            SortOrder::DateDesc,
        ]
    );
    assert_eq!(SortOrder::options(EN)[1], "Date (Oldest first)");
    assert_eq!(SortOrder::options(FI).len(), 4);
    assert_eq!(SortOrder::options(FI)[0], "Päivämäärä (Uusin ensin)");
    let sizes: Vec<Option<u64>> = (0..5).map(|i| SizeFilter::from_index(i).to_mb()).collect();
    assert_eq!(sizes, vec![None, Some(10), Some(50), Some(100), None]);
    assert_eq!(SizeFilter::options(EN)[3], "Max 100 MB");
    assert_eq!(SizeFilter::options(FI)[1], "Enintään 10 MB");
    assert_eq!(DateFilter::options(EN)[4], "Last year");
    assert_eq!(DateFilter::options(FI)[2], "Viimeiset 7 päivää");
    let now = Timestamp { secs: 100_000_000, nanos: 9 };
    let back: Vec<Option<i64>> =
        (0..6).map(|i| DateFilter::from_index(i).to_system_time(now).map(|t| t.secs)).collect();
    assert_eq!(
        back,
        vec![
            None,
            Some(100_000_000 - 86_400),
            Some(100_000_000 - 7 * 86_400),
            Some(100_000_000 - 30 * 86_400),
            Some(100_000_000 - 365 * 86_400),
            None,
        ]
    );
    let earliest = Timestamp { secs: i64::MIN, nanos: 0 };
    assert_eq!(DateFilter::Last24Hours.to_system_time(earliest), None);
    let later = Timestamp { secs: i64::MIN + 86_400, nanos: 1 };
    assert_eq!(
        DateFilter::Last24Hours.to_system_time(later),
        Some(Timestamp { secs: i64::MIN, nanos: 1 })
    );
}

#[test]
fn recent_files() {
    assert!(recent(None, None));
    assert!(!recent(None, at(0, 0)));
    assert!(recent(at(5, 0), at(5, 0)));
    assert!(!recent(at(5, 0), at(5, 1)));
    assert!(recent(at(6, 0), at(5, 1)));
}

#[test]
fn types_and_progress() {
    assert_eq!(display_type("dotm"), "DOCX");
    assert_eq!(display_type("ods"), "ODT");
    assert_eq!(display_type("fods"), "FODT");
    assert_eq!(display_type("pdf"), "PDF");
    assert_eq!(display_type("text"), "TXT");
    assert_eq!(display_type("straße"), "STRASSE");
    assert!((1..=100).all(|i| reports_progress(i, 100)));
    let reports: Vec<usize> = (1..=250).filter(|i| reports_progress(*i, 250)).collect();
    assert_eq!(reports.len(), 125);
    assert!(reports_progress(251, 251));
    assert!(!reports_progress(1, 251));
}

#[test]
fn tables_of_results() {
    assert_eq!(csv_field("a\"b"), "\"a\"\"b\"");
    assert_eq!(csv_field(""), "\"\"");
    let results = vec![result("/a\"b", 2, None), result("/c", 0, None), result("/d", 1, None)];
    assert_eq!(
        results_csv("q,\"", &results),
        "\u{feff}query,file,file_type,match_number,context\n\
         \"q,\"\"\",\"/a\"\"b\",\"TXT\",1,\"c0\"\n\
         \"q,\"\"\",\"/a\"\"b\",\"TXT\",2,\"c1\"\n\
         \"q,\"\"\",\"/d\",\"TXT\",1,\"c0\"\n"
    );
    assert_eq!(results_csv("q", &vec![]).as_bytes()[..3], [0xef, 0xbb, 0xbf]);
}

#[test]
fn results_as_they_are_shown() {
    assert_eq!(type_badge_colors("DOCX"), ((219, 234, 254), (29, 78, 216)));
    assert_eq!(type_badge_colors("ODT"), type_badge_colors("FODT"));
    assert_eq!(type_badge_colors("PDF"), ((255, 237, 213), (194, 65, 12)));
    assert_eq!(type_badge_colors("TXT"), ((243, 232, 255), (126, 34, 206)));
    assert_eq!(type_badge_colors("txt"), ((241, 245, 249), (71, 85, 105)));
    assert_eq!(label_of_matches(199, FI), "199 osumaa");
    assert_eq!(label_of_matches(200, EN), "200+ matches");
    assert_eq!(label_of_matches(1_000, FI), "200+ osumaa");
    let long = "/home/user/documents/projects/archive/2024/x.txt";
    let results = vec![result(long, 2, None), result("/", 0, None)];
    let items = items_of(&results, Some(1), EN);
    assert_eq!(items[0].file_path, long);
    assert_eq!(items[0].file_name, "x.txt");
    assert_eq!(items[0].dir_path, "...ser/documents/projects/archive/2024".replace("ser", "r"));
    assert_eq!(items[0].dir_path.chars().count(), 36);
    assert_eq!(items[0].matches_count, 2);
    assert_eq!(items[0].matches_label, "2 matches");
    assert!(!items[0].is_selected && items[1].is_selected);
    assert_eq!(items[1].file_name, "");
    assert_eq!(items[1].dir_path, "");
    let preview = preview_of(&results, Some(0), FI).unwrap();
    assert_eq!(preview.index, 0);
    assert_eq!(preview.matches_header, "— 2 osumaa");
    assert_eq!(preview.matches[1].index_label, "Osuma #2");
    assert_eq!(preview.matches[1].context_text, "c1");
    assert_eq!(preview_of(&results, Some(0), EN).unwrap().matches[0].index_label, "Match #1");
    assert!(preview_of(&results, Some(2), EN).is_none());
    assert!(preview_of(&results, None, EN).is_none());
    assert_eq!(count_matches(&results), 2);
    let errors = vec![SearchError { file: FilePath::from_text("/a/b.pdf"), error: "e".to_string() }];
    let shown = error_items(&errors);
    assert_eq!((shown[0].file_name.as_str(), shown[0].error_message.as_str()), ("b.pdf", "e"));
    assert_eq!(header_of_errors(3, FI), "Virheet (3)");
    assert_eq!(header_of_errors(3, EN), "Errors (3)");
}

#[test]
fn summaries() {
    assert_eq!(summary(12, 3, FI), "12 osumaa 3 tiedostossa");
    assert_eq!(summary(12, 3, EN), "12 matches in 3 files");
    assert_eq!(summary(0, 3, FI), "Ei osumia");
    assert_eq!(summary(0, 0, EN), "No matches");
    let stats = SearchStats { cached_count: 0, total_count: 7, millis: 45 };
    assert_eq!(timing(stats, FI), "Haettu 7 tiedostoa (45 ms)");
    assert_eq!(timing(stats, EN), "Searched 7 files (45 ms)");
    let cached = SearchStats { cached_count: 2, ..stats };
    assert_eq!(timing(cached, FI), "Haettu 7 tiedostoa (45 ms) • ⚡ 2 välimuistista");
    assert_eq!(timing(cached, EN), "Searched 7 files (45 ms) • ⚡ 2 from cache");
    assert_eq!(SearchStats::default().total_count, 0);
}

#[test]
fn texts_of_the_user_interface() {
    assert_eq!(ui_texts(FI).search, "Hae");
    assert_eq!(ui_texts(EN).search, "Search");
    assert_eq!(ui_texts(FI).recent_folders, "Viimeisimmät kansiot...");
    assert_eq!(ui_texts(EN).subtitle, "| Search text in DOCX, ODT, PDF and TXT files");
    assert_eq!(notice_text(Notice::Copied, FI), "Kopioitu leikepöydälle!");
    assert_eq!(notice_text(Notice::NothingToSave, EN), "No results to save.");
    assert_eq!(notice_text(Notice::Cancelled, FI), "Haku peruutettu.");
    assert_eq!(notice_text(Notice::Scanning, EN), "Scanning directory...");
    assert_eq!(directory_not_found("/x", EN), "Directory not found: /x");
    assert_eq!(results_saved("/x", FI), "Tulokset tallennettu: /x");
    assert_eq!(saving_failed("e", EN), "Failed to save: e");
}

#[test]
fn searches_that_are_asked_for() {
    assert_eq!(check_search(" \t", true, true, true, true), Some(SearchProblem::NoQuery));
    assert_eq!(check_search("", false, false, false, false), Some(SearchProblem::NoQuery));
    assert_eq!(check_search("x", false, false, false, false), Some(SearchProblem::NoFileType));
    assert_eq!(check_search("x", false, false, false, true), None);
    assert_eq!(problem_message(SearchProblem::NoQuery, FI), "Kirjoita ensin hakusana.");
    assert_eq!(
        problem_message(SearchProblem::NoFileType, EN),
        "Please select at least one file type (DOCX, ODT, PDF, TXT)."
    );
}

#[test]
fn directories_are_remembered() {
    let mut state = AppState::new(EN, "/start");
    assert_eq!(state.recent_directories, vec!["/start"]);
    assert!(!state.remember_searched("/start"));
    for i in 0..6 {
        assert!(state.remember_searched(&format!("/{}", i)));
    }
    assert_eq!(state.recent_directories, vec!["/5", "/4", "/3", "/2", "/1", "/0"]);
    assert!(!state.remember_browsed("/3"));
    assert!(state.remember_browsed("/b"));
    assert_eq!(state.recent_directories.len(), 7);
    assert_eq!(state.recent_directories[0], "/b");
    assert!(state.remember_searched("/c"));
    assert_eq!(state.recent_directories, vec!["/c", "/b", "/5", "/4", "/3", "/2", "/1"]);
}

#[test]
fn a_search_from_start_to_end() {
    let mut state = AppState::new(EN, "/");
    state.change_language("Suomi");
    assert_eq!(state.lang, FI);
    assert_eq!(state.cancel(), SearchScreen::Idle);
    let id = state.start();
    assert_eq!(id, 2);
    assert!(state.accept_match(id, result("/b", 1, at(1, 0))));
    assert_eq!(state.selected_result_idx, Some(0));
    assert!(state.accept_match(id, result("/a", 1, at(2, 0))));
    assert_eq!(files(&state.results), vec!["/a", "/b"]);
    let error = SearchError { file: FilePath::from_text("/e"), error: "e".to_string() };
    assert!(state.accept_error(id, error));
    assert!(state.select(1));
    assert!(!state.select(2));
    assert!(!state.select(-1));
    assert_eq!(state.selected_result_idx, Some(1));
    state.change_sort(2);
    assert_eq!(files(&state.results), vec!["/a", "/b"]);
    state.change_sort(1);
    assert_eq!(files(&state.results), vec!["/b", "/a"]);
    let stats = SearchStats { cached_count: 0, total_count: 3, millis: 1 };
    assert!(state.finish(id, stats));
    assert_eq!(state.last_stats, Some(stats));
    assert_eq!(state.cancel(), SearchScreen::Finished);
    // What comes late does not count.
    assert!(!state.accept_match(id, result("/c", 1, None)));
    let late = SearchError { file: FilePath::from_text("/e"), error: "e".to_string() };
    assert!(!state.accept_error(id, late));
    assert!(!state.finish(id, stats));
    assert_eq!(state.results.len(), 2);
    assert_eq!(state.errors.len(), 1);
    state.clear();
    assert!(state.results.is_empty() && state.errors.is_empty());
    assert_eq!(state.selected_result_idx, None);
    assert_eq!(state.last_stats, None);
    let next = state.start();
    assert!(state.finish(next, stats));
    assert_eq!(state.selected_result_idx, None);
}

#[test]
fn many_results_are_sorted_at_the_end() {
    let mut state = AppState::new(EN, "/");
    let id = state.start();
    for i in (0..201).rev() {
        assert!(state.accept_match(id, result(&format!("/{:03}", i), 1, None)));
    }
    assert_eq!(state.results[0].file.to_text(), "/001");
    assert_eq!(state.results[200].file.to_text(), "/000");
    assert!(state.finish(id, SearchStats::default()));
    assert_eq!(state.results[0].file.to_text(), "/000");
}

#[test]
fn test_sharded_cache_parallel_contention() {
    let cache = Mutex::new(DocumentCache::new());
    (0..16).into_par_iter().for_each(|t| {
        for i in 0..100 {
            let key = key(&format!("/tmp/parallel_doc_{}_{}.txt", t, i), 500);
            let text: Arc<str> = format!("Tämä on säikeen {} dokumentti {}", t, i).into();
            cache.lock().unwrap().insert(key.duplicate(), text.clone());
            let retrieved = cache.lock().unwrap().get(&key);
            assert!(retrieved.is_some() || !cache.lock().unwrap().is_empty());
        }
    });
    let cache = cache.into_inner().unwrap();
    assert!(!cache.is_empty());
    assert!(cache.memory_usage_bytes() > 0);
    assert!(cache.memory_usage_bytes() <= MAX_CACHE_TOTAL_BYTES);
}

#[test]
fn test_heavy_task_semaphore_limiting_and_raii() {
    let semaphore = Mutex::new(HeavyTaskSemaphore::new(2));
    let freed = Condvar::new();
    let active = AtomicUsize::new(0);
    let max_observed = AtomicUsize::new(0);
    (0..10).into_par_iter().for_each(|_| {
        let mut state = semaphore.lock().unwrap();
        let permit = loop {
            match state.acquire_cancellable(false) {
                Acquisition::Granted(permit) => break permit,
                Acquisition::Wait => {
                    state = freed.wait_timeout(state, Duration::from_millis(50)).unwrap().0;
                }
                Acquisition::Cancelled => panic!("nothing was cancelled"),
            }
        };
        drop(state);
        let current = active.fetch_add(1, Ordering::SeqCst) + 1;
        max_observed.fetch_max(current, Ordering::SeqCst);
        active.fetch_sub(1, Ordering::SeqCst);
        semaphore.lock().unwrap().release(permit);
        freed.notify_one();
    });
    assert_eq!(semaphore.lock().unwrap().available_permits(), 2);
    assert!(max_observed.load(Ordering::SeqCst) <= 2);
}

#[test]
fn sorting_depends_on_the_results_alone() {
    let make = |paths: &[(&str, i64)]| -> Vec<SearchResult> {
        paths.iter().map(|(p, t)| result(p, 1, at(*t, 0))).collect()
    };
    let orders = [SortOrder::DateDesc, SortOrder::DateAsc, SortOrder::Name, SortOrder::Matches];
    for order in orders {
        let mut one = make(&[("/a", 3), ("/b", 1), ("/c", 2)]);
        let mut other = make(&[("/c", 2), ("/a", 3), ("/b", 1)]);
        sort_results_list(&mut one, order);
        sort_results_list(&mut other, order);
        assert_eq!(files(&one), files(&other));
        sort_results_list(&mut other, order);
        assert_eq!(files(&one), files(&other));
    }
    let mut oldest = make(&[("/a", 3), ("/b", 1), ("/c", 2)]);
    oldest.push(result("/d", 1, None));
    sort_results_list(&mut oldest, SortOrder::DateAsc);
    let mut mirrored = files(&oldest);
    mirrored.reverse();
    assert_eq!(files(&oldest), vec!["/b", "/c", "/a", "/d"]);
    sort_results_list(&mut oldest, SortOrder::DateDesc);
    assert_eq!(files(&oldest), mirrored);
}

#[test]
fn memory_is_used_where_there_are_texts() {
    let mut cache = DocumentCache::new();
    assert_eq!((cache.len(), cache.memory_usage_bytes()), (0, 0));
    cache.insert(key("", 0), "".into());
    assert_eq!(cache.len(), 1);
    assert!(cache.memory_usage_bytes() > 0);
    let text: Arc<str> = "a".repeat(MAX_CACHED_ENTRY_BYTES).into();
    for i in 0..100 {
        cache.insert(key(&format!("/{}", i), 1), text.clone());
        assert!(cache.memory_usage_bytes() <= MAX_CACHE_TOTAL_BYTES);
    }
    cache.clear();
    assert_eq!((cache.len(), cache.memory_usage_bytes()), (0, 0));
    assert!(cache.is_empty());
}

#[test]
fn never_more_permits_than_there_are() {
    let mut semaphore = HeavyTaskSemaphore::new(3);
    let mut held = Vec::new();
    for step in 0..200usize {
        if step % 7 < 4 {
            match semaphore.acquire_cancellable(step % 5 == 0) {
                Acquisition::Granted(permit) => held.push(permit),
                Acquisition::Wait => assert_eq!(held.len(), 3),
                Acquisition::Cancelled => assert_eq!(step % 5, 0),
            }
        } else if let Some(permit) = held.pop() {
            semaphore.release(permit);
        }
        assert!(held.len() <= 3);
        assert_eq!(semaphore.available_permits(), 3 - held.len());
    }
}
