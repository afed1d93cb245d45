//! The search of one file, step by step.
//!
//! The caller asks the file system about the file, calls `begin_candidate`, and does what it
//! says: nothing, or to read the file (with a permit where the file is heavy). The text, or
//! the message of a failure, goes to `conclude_candidate`.

use crate::cache;
use crate::cache::DocumentCache;
use crate::cache_shard;
use crate::cache_shard::CacheKey;
use crate::cache_shard::CacheStep;
use crate::cache_shard::EntryView;
use crate::cache_shard::KeyView;
use crate::folding;
use crate::matching;
use crate::options::SearchCandidate;
use crate::options::SearchOptions;
use crate::path;
use crate::results::SearchError;
use crate::results::SearchResult;
use crate::scan;
use crate::scan::DocumentKind;
use crate::semaphore;
use crate::shared;
use crate::text;
use crate::time;
use crate::time::Timestamp;
use std::sync::Arc;
use vstd::prelude::*;
use vstd::utf8::*;

verus! {

/// What the file system says of a file.
#[derive(Clone, Copy, Debug, PartialEq, Eq, Structural)]
pub struct FileState {
    pub size: u64,
    pub modified: Option<Timestamp>,
}

/// What is to be done with a file.
pub enum Task {
    /// Nothing.
    Skip,
    /// Its text is known already.
    Known(Arc<str>),
    /// Its text is to be read, as a document of that kind; where it is heavy, with a permit.
    Read { kind: DocumentKind, heavy: bool },
}

/// The mathematical view of a `Task`.
pub enum TaskView {
    Skip,
    Known(Seq<char>),
    Read { kind: DocumentKind, heavy: bool },
}

impl View for Task {
    type V = TaskView;

    open spec fn view(&self) -> TaskView {
        match *self {
            Task::Skip => TaskView::Skip,
            Task::Known(t) => TaskView::Known((*t)@),
            Task::Read { kind, heavy } => TaskView::Read { kind, heavy },
        }
    }
}

/// The file was changed recently enough. One whose time of change is not known was not.
pub open spec fn is_recent(modified: Option<Timestamp>, after: Option<Timestamp>) -> bool {
    match after {
        Some(after) => match modified {
            Some(m) => time::not_after(after, m),
            None => false,
        },
        None => true,
    }
}

/// The file is read with a permit.
pub open spec fn is_heavy(ext: Seq<char>, size: u64) -> bool {
    ext == "pdf"@ || size >= semaphore::HEAVY_FILE_SIZE_THRESHOLD
}

/// The key under which the text of a file is cached.
pub open spec fn key_view(p: Seq<u8>, file: FileState) -> KeyView {
    KeyView { path: path::path_key(p), size: file.size, modified: file.modified }
}

/// What is to be done with a file whose text is not known.
pub open spec fn reading_task(ext: Seq<char>, size: u64) -> TaskView {
    match scan::kind_of(ext) {
        Some(kind) => TaskView::Read { kind, heavy: is_heavy(ext, size) },
        None => TaskView::Skip,
    }
}

/// The file is looked into at all: the search was not cancelled, the file is still there, and
/// it is recent enough.
pub open spec fn is_looked_into(
    opts: SearchOptions,
    cancelled: bool,
    file: Option<FileState>,
) -> bool {
    !cancelled && (file matches Some(f) && is_recent(f.modified, opts.modified_after))
}

/// What is to be done with a file, given the cache.
pub open spec fn task_for(
    candidate: SearchCandidate,
    opts: SearchOptions,
    cancelled: bool,
    file: Option<FileState>,
    cache: Seq<Seq<EntryView>>,
) -> TaskView {
    if !is_looked_into(opts, cancelled, file) {
        TaskView::Skip
    } else {
        let f = file->0;
        if opts.use_cache {
            match cache::cached(cache, key_view(candidate.path@, f)) {
                Some(t) => TaskView::Known(t),
                None => reading_task(candidate.ext@, f.size),
            }
        } else {
            reading_task(candidate.ext@, f.size)
        }
    }
}

/// The cache once it was seen what is to be done with a file.
pub open spec fn cache_after_begin(
    candidate: SearchCandidate,
    opts: SearchOptions,
    cancelled: bool,
    file: Option<FileState>,
    cache: Seq<Seq<EntryView>>,
) -> Seq<Seq<EntryView>> {
    if is_looked_into(opts, cancelled, file) && opts.use_cache {
        cache::after_get(cache, key_view(candidate.path@, file->0))
    } else {
        cache
    }
}

/// Whether a file was changed recently enough.
pub fn recent(modified: Option<Timestamp>, after: Option<Timestamp>) -> (r: bool)
    ensures
        r == is_recent(modified, after),
{
    match after {
        Some(after) => match modified {
            Some(m) => after.is_not_after(m),
            None => false,
        },
        None => true,
    }
}

/// Whether a file is read with a permit.
pub fn needs_permit(ext: &str, size: u64) -> (r: bool)
    ensures
        r == is_heavy(ext@, size),
{
    text::same_text(ext, "pdf") || size >= semaphore::HEAVY_FILE_SIZE_THRESHOLD
}

/// The key under which the text of a file is cached.
pub fn cache_key(candidate: &SearchCandidate, file: FileState) -> (r: CacheKey)
    ensures
        r@ == key_view(candidate.path@, file),
        r.path@ == candidate.path@,
{
    CacheKey { path: candidate.path.duplicate(), size: file.size, modified: file.modified }
}

/// Says what is to be done with a file. `file` is what the file system says of it now, or
/// `None` where it is gone.
pub fn begin_candidate(
    candidate: &SearchCandidate,
    opts: &SearchOptions,
    cancelled: bool,
    file: Option<FileState>,
    cache: &mut DocumentCache,
) -> (r: Task)
    requires
        old(cache).wf(),
    ensures
        final(cache).wf(),
        r@ == task_for(*candidate, *opts, cancelled, file, old(cache)@),
        final(cache)@ == cache_after_begin(*candidate, *opts, cancelled, file, old(cache)@),
{
    if cancelled {
        return Task::Skip;
    }
    let file = match file {
        Some(file) => file,
        None => {
            return Task::Skip;
        },
    };
    if !recent(file.modified, opts.modified_after) {
        return Task::Skip;
    }
    if opts.use_cache {
        let key = cache_key(candidate, file);
        if let Some(t) = cache.get(&key) {
            return Task::Known(t);
        }
    }
    match scan::document_kind(candidate.ext.as_str()) {
        Some(kind) => Task::Read { kind, heavy: needs_permit(candidate.ext.as_str(), file.size) },
        None => Task::Skip,
    }
}

/// The cache once the text of a file was read.
pub open spec fn cache_after_reading(
    candidate: SearchCandidate,
    opts: SearchOptions,
    file: FileState,
    t: Seq<char>,
    cache: Seq<Seq<EntryView>>,
) -> Seq<Seq<EntryView>> {
    if opts.use_cache {
        cache::after_insert(
            cache,
            EntryView {
                key: key_view(candidate.path@, file),
                path_len: candidate.path@.len(),
                text: t,
            },
        )
    } else {
        cache
    }
}

/// Keeps the text of a file for later searches, where the cache is used.
pub fn keep_text(
    candidate: &SearchCandidate,
    opts: &SearchOptions,
    file: FileState,
    t: String,
    cache: &mut DocumentCache,
) -> (r: Arc<str>)
    requires
        old(cache).wf(),
    ensures
        final(cache).wf(),
        (*r)@ == t@,
        final(cache)@ == cache_after_reading(*candidate, *opts, file, t@, old(cache)@),
{
    let r = shared::shared(t);
    if opts.use_cache {
        cache.insert(cache_key(candidate, file), shared::share(&r));
    }
    r
}

/// The name that is shown for the type of a file.
pub open spec fn shown_type(ext: Seq<char>) -> Seq<char> {
    match scan::kind_of(ext) {
        Some(DocumentKind::Docx) => "DOCX"@,
        Some(DocumentKind::Odt) => "ODT"@,
        Some(DocumentKind::FlatOdt) => "FODT"@,
        Some(DocumentKind::Pdf) => "PDF"@,
        Some(DocumentKind::PlainText) => "TXT"@,
        None => folding::uppercase(ext),
    }
}

/// The name that is shown for the type of a file.
pub fn display_type(ext: &str) -> (r: String)
    ensures
        r@ == shown_type(ext@),
{
    match scan::document_kind(ext) {
        Some(DocumentKind::Docx) => "DOCX".to_owned(),
        Some(DocumentKind::Odt) => "ODT".to_owned(),
        Some(DocumentKind::FlatOdt) => "FODT".to_owned(),
        Some(DocumentKind::Pdf) => "PDF".to_owned(),
        Some(DocumentKind::PlainText) => "TXT".to_owned(),
        None => folding::to_upper(ext),
    }
}

/// What came of the search of one file.
pub enum Outcome {
    /// The query was not found.
    Nothing,
    /// The query was found.
    Found(SearchResult),
    /// The text could not be had.
    Failed(SearchError),
}

/// `found` is the result of a file in whose text the query stands.
pub open spec fn is_result_of(
    candidate: SearchCandidate,
    opts: SearchOptions,
    modified: Option<Timestamp>,
    t: Seq<char>,
    found: SearchResult,
) -> bool {
    &&& found.file@ == candidate.path@
    &&& found.file_type@ == shown_type(candidate.ext@)
    &&& found.modified == modified
    &&& matching::are_matches(
        encode_utf8(t),
        searched_spans(opts, t),
        opts.context_size as nat,
        found.matches@,
    )
}

/// The byte ranges of a text in which a search finds its query.
pub open spec fn searched_spans(opts: SearchOptions, t: Seq<char>) -> Seq<(int, int)> {
    matching::limited(
        matching::query_spans(t, opts.query@, opts.ignore_case),
        Some(matching::MAX_MATCHES_PER_FILE),
    )
}

/// The text of a file, or the message of a failure.
pub open spec fn text_view(text_result: Result<Arc<str>, String>) -> Result<Seq<char>, Seq<char>> {
    match text_result {
        Ok(t) => Ok((*t)@),
        Err(message) => Err(message@),
    }
}

/// `r` is what comes of the search of a file, given its text or the message of a failure.
pub open spec fn is_outcome(
    candidate: SearchCandidate,
    opts: SearchOptions,
    modified: Option<Timestamp>,
    text_result: Result<Seq<char>, Seq<char>>,
    r: Outcome,
) -> bool {
    match text_result {
        Ok(t) => match r {
            Outcome::Nothing => searched_spans(opts, t).len() == 0,
            Outcome::Found(found) => searched_spans(opts, t).len() > 0 && is_result_of(
                candidate,
                opts,
                modified,
                t,
                found,
            ),
            Outcome::Failed(_) => false,
        },
        Err(message) => r matches Outcome::Failed(e) && e.file@ == candidate.path@ && e.error@
            == message,
    }
}

/// Searches the text of a file, or reports why there is none.
pub fn conclude_candidate(
    candidate: &SearchCandidate,
    opts: &SearchOptions,
    modified: Option<Timestamp>,
    text_result: Result<Arc<str>, String>,
) -> (r: Outcome)
    ensures
        is_outcome(*candidate, *opts, modified, text_view(text_result), r),
{
    match text_result {
        Ok(t) => {
            let found = matching::find_matches(
                shared::text_in(&t),
                opts.query.as_str(),
                opts.ignore_case,
                opts.context_size,
            );
            if found.len() == 0 {
                Outcome::Nothing
            } else {
                Outcome::Found(
                    SearchResult {
                        file: candidate.path.duplicate(),
                        file_type: display_type(candidate.ext.as_str()),
                        matches: found,
                        modified,
                    },
                )
            }
        },
        Err(message) => Outcome::Failed(
            SearchError { file: candidate.path.duplicate(), error: message },
        ),
    }
}

/// How many files are searched between two reports of progress.
pub open spec fn step_size(total: nat) -> nat {
    if total <= 100 {
        1
    } else {
        total / 100
    }
}

/// Progress is reported after that many files.
pub open spec fn is_reported(current: nat, total: nat) -> bool {
    current % step_size(total) == 0 || current == total
}

/// Whether progress is reported after that many files.
pub fn reports_progress(current: usize, total: usize) -> (r: bool)
    ensures
        r == is_reported(current as nat, total as nat),
{
    let step: usize = if total <= 100 {
        1
    } else {
        total / 100
    };
    current % step == 0 || current == total
}

/// A file whose text was read and kept is known when it is searched again unchanged.
pub proof fn read_text_is_known_next_time(
    candidate: SearchCandidate,
    opts: SearchOptions,
    file: FileState,
    t: Seq<char>,
    cache: Seq<Seq<EntryView>>,
)
    requires
        cache::is_cache(cache),
        opts.use_cache,
        is_recent(file.modified, opts.modified_after),
        encode_utf8(t).len() <= cache_shard::MAX_CACHED_ENTRY_BYTES,
    ensures
        task_for(
            candidate,
            opts,
            false,
            Some(file),
            cache_after_reading(candidate, opts, file, t, cache),
        ) == TaskView::Known(t),
{
    cache::get_after_insert(
        cache,
        EntryView {
            key: key_view(candidate.path@, file),
            path_len: candidate.path@.len(),
            text: t,
        },
    );
}

/// A cancelled search does nothing with a file, and leaves the cache as it is.
pub proof fn cancelled_search_skips(
    candidate: SearchCandidate,
    opts: SearchOptions,
    file: Option<FileState>,
    cache: Seq<Seq<EntryView>>,
)
    ensures
        task_for(candidate, opts, true, file, cache) == TaskView::Skip,
        cache_after_begin(candidate, opts, true, file, cache) == cache,
{
}

/// A file that is gone is skipped, whatever the cache holds of it.
pub proof fn deleted_file_is_skipped(
    candidate: SearchCandidate,
    opts: SearchOptions,
    cancelled: bool,
    cache: Seq<Seq<EntryView>>,
)
    ensures
        task_for(candidate, opts, cancelled, None, cache) == TaskView::Skip,
{
}

/// With a date filter, a file that was changed too early, or at a time that is not known, is
/// skipped, whatever the cache holds of it.
pub proof fn old_file_is_skipped(
    candidate: SearchCandidate,
    opts: SearchOptions,
    cancelled: bool,
    file: FileState,
    cache: Seq<Seq<EntryView>>,
)
    requires
        opts.modified_after is Some,
        file.modified is None || !time::not_after(opts.modified_after->0, file.modified->0),
    ensures
        task_for(candidate, opts, cancelled, Some(file), cache) == TaskView::Skip,
{
}

/// Every PDF file is read with a permit, and so is every file from a certain size on.
pub proof fn large_files_need_permits(ext: Seq<char>, size: u64)
    requires
        scan::kind_of(ext) is Some,
        scan::kind_of(ext) == Some(DocumentKind::Pdf) || size
            >= semaphore::HEAVY_FILE_SIZE_THRESHOLD,
    ensures
        reading_task(ext, size) matches TaskView::Read { heavy, .. } && heavy,
{
}

/// The end of a search is reported, and before it progress is reported at most some two
/// hundred times.
pub proof fn progress_reaches_the_end(total: nat)
    ensures
        is_reported(total, total),
        total > 0 ==> step_size(total) > 0 && total / step_size(total) < 200,
{
    if total > 100 {
        let step = total / 100;
        assert(total / step < 200) by (nonlinear_arith)
            requires
                total > 100,
                step == total / 100,
        ;
    }
}

/// A file that a search comes to: what the file system says of it, and what reading it gives,
/// the text or the message of a failure.
pub struct Visit {
    pub candidate: SearchCandidate,
    pub file: Option<FileState>,
    pub read: Result<Seq<char>, Seq<char>>,
}

/// The text that is searched, or the message of a failure; `None` where the file is skipped.
pub open spec fn searched_text(
    visit: Visit,
    opts: SearchOptions,
    cache: Seq<Seq<EntryView>>,
) -> Option<Result<Seq<char>, Seq<char>>> {
    match task_for(visit.candidate, opts, false, visit.file, cache) {
        TaskView::Skip => None,
        TaskView::Known(t) => Some(Ok(t)),
        TaskView::Read { .. } => Some(visit.read),
    }
}

/// `r` is what a search reports of a file.
pub open spec fn is_report(
    visit: Visit,
    opts: SearchOptions,
    cache: Seq<Seq<EntryView>>,
    r: Outcome,
) -> bool {
    match searched_text(visit, opts, cache) {
        None => r is Nothing,
        Some(text_result) => is_outcome(
            visit.candidate,
            opts,
            visit.file->0.modified,
            text_result,
            r,
        ),
    }
}

/// Two reports say the same.
pub open spec fn says_the_same(one: Outcome, other: Outcome) -> bool {
    match (one, other) {
        (Outcome::Nothing, Outcome::Nothing) => true,
        (Outcome::Found(a), Outcome::Found(b)) => {
            &&& a.file@ == b.file@
            &&& a.file_type@ == b.file_type@
            &&& a.modified == b.modified
            &&& a.matches@.len() == b.matches@.len()
            &&& forall|i: int|
                0 <= i < a.matches@.len() ==> (#[trigger] a.matches@[i]).context@
                    == b.matches@[i].context@
        },
        (Outcome::Failed(a), Outcome::Failed(b)) => a.file@ == b.file@ && a.error@ == b.error@,
        _ => false,
    }
}

/// A search reports one thing only of a file.
pub proof fn report_is_unique(
    visit: Visit,
    opts: SearchOptions,
    cache: Seq<Seq<EntryView>>,
    one: Outcome,
    other: Outcome,
)
    requires
        is_report(visit, opts, cache, one),
        is_report(visit, opts, cache, other),
    ensures
        says_the_same(one, other),
{
    if let (Outcome::Found(a), Outcome::Found(b), Some(Ok(t))) = (
        one,
        other,
        searched_text(visit, opts, cache),
    ) {
        let spans = searched_spans(opts, t);
        assert forall|i: int| 0 <= i < a.matches@.len() implies (#[trigger] a.matches@[i]).context@
            == b.matches@[i].context@ by {
            matching::context_is_unique(
                encode_utf8(t),
                spans[i],
                opts.context_size as nat,
                a.matches@[i].context@,
                b.matches@[i].context@,
            );
        }
    }
}

/// The cache after the search of a file.
pub open spec fn cache_after_visit(
    visit: Visit,
    opts: SearchOptions,
    cache: Seq<Seq<EntryView>>,
) -> Seq<Seq<EntryView>> {
    let begun = cache_after_begin(visit.candidate, opts, false, visit.file, cache);
    match (task_for(visit.candidate, opts, false, visit.file, cache), visit.read) {
        (TaskView::Read { .. }, Ok(t)) => cache_after_reading(
            visit.candidate,
            opts,
            visit.file->0,
            t,
            begun,
        ),
        _ => begun,
    }
}

/// The cache after the search of the first `k` files.
pub open spec fn cache_after_visits(
    visits: Seq<Visit>,
    opts: SearchOptions,
    cache: Seq<Seq<EntryView>>,
    k: int,
) -> Seq<Seq<EntryView>>
    decreases k,
{
    if k <= 0 {
        cache
    } else {
        cache_after_visit(
            visits[k - 1],
            opts,
            cache_after_visits(visits, opts, cache, k - 1),
        )
    }
}

/// Every text in the cache is the one that `texts` gives of the file in the state of its key.
pub open spec fn is_faithful(
    cache: Seq<Seq<EntryView>>,
    texts: spec_fn(KeyView) -> Option<Seq<char>>,
) -> bool {
    cache::is_cache(cache) && forall|key: KeyView| #[trigger]
        cache::cached(cache, key) is Some ==> cache::cached(cache, key) == texts(key)
}

/// Reading the file gives what `texts` says of it in its state: the text, or a failure where
/// there is none. The file is one of a kind that is searched.
pub open spec fn agrees(visit: Visit, texts: spec_fn(KeyView) -> Option<Seq<char>>) -> bool {
    &&& scan::kind_of(visit.candidate.ext@) is Some
    &&& visit.file matches Some(file) ==> texts(key_view(visit.candidate.path@, file))
        == match visit.read {
        Ok(t) => Some(t),
        Err(_) => None,
    }
}

/// A new cache holds nothing that is wrong.
pub proof fn new_cache_is_faithful(texts: spec_fn(KeyView) -> Option<Seq<char>>)
    ensures
        is_faithful(cache::empty_cache(), texts),
{
    assert forall|key: KeyView| #[trigger]
        cache::cached(cache::empty_cache(), key) is Some implies cache::cached(
        cache::empty_cache(),
        key,
    ) == texts(key) by {
        cache::cleared_cache_is_empty(key);
    }
    cache::cache_keeps_its_budget(Seq::empty());
}

/// What is done at the beginning of the search of a file leaves the cache faithful, and so
/// does what is done with the text that was read, whatever other searches do in between.
pub proof fn cache_stays_faithful(
    visit: Visit,
    opts: SearchOptions,
    cancelled: bool,
    cache: Seq<Seq<EntryView>>,
    texts: spec_fn(KeyView) -> Option<Seq<char>>,
)
    requires
        is_faithful(cache, texts),
        agrees(visit, texts),
    ensures
        is_faithful(
            cache_after_begin(visit.candidate, opts, cancelled, visit.file, cache),
            texts,
        ),
        (visit.file, visit.read) matches (Some(file), Ok(t)) ==> is_faithful(
            cache_after_reading(visit.candidate, opts, file, t, cache),
            texts,
        ),
{
    if let Some(file) = visit.file {
        let key = key_view(visit.candidate.path@, file);
        let begun = cache_after_begin(visit.candidate, opts, cancelled, visit.file, cache);
        cache::step_keeps_cache(cache, CacheStep::Get(key));
        assert forall|k: KeyView| #[trigger]
            cache::cached(begun, k) is Some implies cache::cached(begun, k) == texts(k) by {
            cache::get_changes_no_text(cache, key, k);
            assert(cache::cached(cache, k) is Some ==> cache::cached(cache, k) == texts(k));
        }
        if let Ok(t) = visit.read {
            let new = EntryView { key, path_len: visit.candidate.path@.len(), text: t };
            let after = cache_after_reading(visit.candidate, opts, file, t, cache);
            cache::step_keeps_cache(cache, CacheStep::Insert(new));
            assert forall|k: KeyView| #[trigger]
                cache::cached(after, k) is Some implies cache::cached(after, k) == texts(k) by {
                assert(cache::cached(cache, k) is Some ==> cache::cached(cache, k) == texts(k));
                if opts.use_cache {
                    if encode_utf8(t).len() > cache_shard::MAX_CACHED_ENTRY_BYTES {
                        cache::large_text_is_not_kept(cache, new);
                    } else if k == key {
                        cache::get_after_insert(cache, new);
                    } else {
                        cache::insert_never_mixes_texts(cache, new, k);
                    }
                }
            }
        }
    }
}

/// What a search reports of a file does not depend on what a faithful cache holds, nor on
/// whether the cache is used.
pub proof fn cache_changes_no_report(
    visit: Visit,
    opts: SearchOptions,
    cache: Seq<Seq<EntryView>>,
    other: Seq<Seq<EntryView>>,
    texts: spec_fn(KeyView) -> Option<Seq<char>>,
    r: Outcome,
)
    requires
        is_faithful(cache, texts),
        is_faithful(other, texts),
        agrees(visit, texts),
    ensures
        searched_text(visit, opts, cache) == searched_text(visit, opts, other),
        searched_text(visit, opts, cache) == searched_text(
            visit,
            (SearchOptions { use_cache: false, ..opts }),
            other,
        ),
        is_report(visit, opts, cache, r) == is_report(visit, opts, other, r),
        is_report(visit, opts, cache, r) == is_report(
            visit,
            (SearchOptions { use_cache: false, ..opts }),
            other,
            r,
        ),
{
    if let Some(file) = visit.file {
        let key = key_view(visit.candidate.path@, file);
        assert(cache::cached(cache, key) is Some ==> cache::cached(cache, key) == texts(key));
        assert(cache::cached(other, key) is Some ==> cache::cached(other, key) == texts(key));
    }
    let without = SearchOptions { use_cache: false, ..opts };
    if let Some(Ok(t)) = searched_text(visit, opts, cache) {
        assert(searched_spans(without, t) == searched_spans(opts, t));
        if let Outcome::Found(found) = r {
            assert(is_result_of(visit.candidate, without, visit.file->0.modified, t, found)
                == is_result_of(visit.candidate, opts, visit.file->0.modified, t, found));
        }
    }
}

/// A search of many files with a cache that earlier searches filled reports what a search with
/// a new cache reports, and what one without a cache reports, file by file: as long as every
/// change of a file shows in its size or in its time of change, new files are found, and old
/// texts of changed or deleted files are not. The cache stays faithful for the next search.
pub proof fn repeated_search_reports_the_same(
    visits: Seq<Visit>,
    opts: SearchOptions,
    cache: Seq<Seq<EntryView>>,
    texts: spec_fn(KeyView) -> Option<Seq<char>>,
    k: int,
    r: Outcome,
)
    requires
        is_faithful(cache, texts),
        forall|i: int| 0 <= i < visits.len() ==> agrees(#[trigger] visits[i], texts),
        0 <= k < visits.len(),
    ensures
        is_report(visits[k], opts, cache_after_visits(visits, opts, cache, k), r) == is_report(
            visits[k],
            opts,
            cache_after_visits(visits, opts, cache::empty_cache(), k),
            r,
        ),
        is_report(visits[k], opts, cache_after_visits(visits, opts, cache, k), r) == is_report(
            visits[k],
            (SearchOptions { use_cache: false, ..opts }),
            cache::empty_cache(),
            r,
        ),
        is_faithful(cache_after_visits(visits, opts, cache, visits.len() as int), texts),
{
    new_cache_is_faithful(texts);
    lemma_visits_stay_faithful(visits, opts, cache, texts, k);
    lemma_visits_stay_faithful(visits, opts, cache, texts, visits.len() as int);
    lemma_visits_stay_faithful(visits, opts, cache::empty_cache(), texts, k);
    let one = cache_after_visits(visits, opts, cache, k);
    cache_changes_no_report(
        visits[k],
        opts,
        one,
        cache_after_visits(visits, opts, cache::empty_cache(), k),
        texts,
        r,
    );
    cache_changes_no_report(visits[k], opts, one, cache::empty_cache(), texts, r);
}

proof fn lemma_visits_stay_faithful(
    visits: Seq<Visit>,
    opts: SearchOptions,
    cache: Seq<Seq<EntryView>>,
    texts: spec_fn(KeyView) -> Option<Seq<char>>,
    k: int,
)
    requires
        is_faithful(cache, texts),
        forall|i: int| 0 <= i < visits.len() ==> agrees(#[trigger] visits[i], texts),
        0 <= k <= visits.len(),
    ensures
        is_faithful(cache_after_visits(visits, opts, cache, k), texts),
    decreases k,
{
    if k > 0 {
        lemma_visits_stay_faithful(visits, opts, cache, texts, k - 1);
        let before = cache_after_visits(visits, opts, cache, k - 1);
        let visit = visits[k - 1];
        let begun = cache_after_begin(visit.candidate, opts, false, visit.file, before);
        cache_stays_faithful(visit, opts, false, before, texts);
        cache_stays_faithful(visit, opts, false, begun, texts);
    }
}

/// Which files are recent enough: all of them without a date, and with one those that were
/// changed at that point in time or later, to the nanosecond.
pub proof fn recent_from_a_point_in_time(m: Timestamp, after: Timestamp)
    requires
        m.nanos < 1_000_000_000,
        after.nanos < 1_000_000_000,
    ensures
        is_recent(Some(m), None),
        is_recent(None, None),
        !is_recent(None, Some(after)),
        is_recent(Some(m), Some(after)) <==> m.secs * 1_000_000_000 + m.nanos >= after.secs
            * 1_000_000_000 + after.nanos,
{
    time::points_are_in_order_of_nanoseconds(after, m);
}

/// A file of a known kind that is there and recent enough is looked into as long as the search
/// goes on: its text is taken from the cache where that holds it and is used, and else it is
/// read. A PDF file, or one of four megabytes or more, is read with a permit, and no other is.
pub proof fn files_are_read_unless_known(
    candidate: SearchCandidate,
    opts: SearchOptions,
    file: FileState,
    cache: Seq<Seq<EntryView>>,
    kind: DocumentKind,
)
    requires
        is_recent(file.modified, opts.modified_after),
        scan::kind_of(candidate.ext@) == Some(kind),
    ensures
        !opts.use_cache ==> task_for(candidate, opts, false, Some(file), cache) == (TaskView::Read {
            kind,
            heavy: candidate.ext@ == "pdf"@ || file.size >= 4 * 1024 * 1024,
        }),
        opts.use_cache ==> task_for(candidate, opts, false, Some(file), cache) == match cache::cached(
            cache,
            key_view(candidate.path@, file),
        ) {
            Some(t) => TaskView::Known(t),
            None => TaskView::Read {
                kind,
                heavy: candidate.ext@ == "pdf"@ || file.size >= 4 * 1024 * 1024,
            },
        },
{
}

/// The key of a file tells its path, its size and its time of change: files that differ in one
/// of them have different keys.
pub proof fn keys_tell_files_apart(
    p: Seq<u8>,
    q: Seq<u8>,
    one: FileState,
    other: FileState,
)
    ensures
        key_view(p, one) == key_view(q, other) <==> path::path_key(p) == path::path_key(q)
            && one.size == other.size && one.modified == other.modified,
{
}

/// The names that are shown for types: one for each kind of document, whatever its extension,
/// and for others their extension in upper case.
pub proof fn types_are_shown_by_kind(ext: Seq<char>)
    ensures
        ext == "docx"@ || ext == "docm"@ || ext == "dotx"@ || ext == "dotm"@ ==> shown_type(ext)
            == "DOCX"@,
        ext == "odt"@ || ext == "ott"@ || ext == "ods"@ || ext == "odp"@ ==> shown_type(ext)
            == "ODT"@,
        ext == "fodt"@ || ext == "fods"@ ==> shown_type(ext) == "FODT"@,
        ext == "pdf"@ ==> shown_type(ext) == "PDF"@,
        ext == "txt"@ || ext == "text"@ ==> shown_type(ext) == "TXT"@,
        scan::kind_of(ext) is None ==> shown_type(ext) == folding::uppercase(ext),
{
    scan::extensions_name_kinds(ext);
}

/// A file in whose text the query stands is reported with its path, its type, its time of
/// change and its matches: as many as the query is found, up to 200, in their order. A file
/// without a match is not reported, and a failure is, with its message.
pub proof fn found_files_are_reported(
    candidate: SearchCandidate,
    opts: SearchOptions,
    modified: Option<Timestamp>,
    t: Seq<char>,
    message: Seq<char>,
    r: Outcome,
)
    ensures
        is_outcome(candidate, opts, modified, Ok(t), r) ==> {
            let spans = matching::query_spans(t, opts.query@, opts.ignore_case);
            &&& spans.len() == 0 ==> r is Nothing
            &&& spans.len() > 0 ==> (r matches Outcome::Found(found) && found.file@
                == candidate.path@ && found.modified == modified && found.file_type@ == shown_type(
                candidate.ext@,
            ) && found.matches@.len() == if spans.len() < 200 {
                spans.len() as int
            } else {
                200
            } && forall|i: int|
                0 <= i < found.matches@.len() ==> matching::is_context(
                    encode_utf8(t),
                    spans[i],
                    opts.context_size as nat,
                    (#[trigger] found.matches@[i]).context@,
                ))
        },
        is_outcome(candidate, opts, modified, Err(message), r) ==> (r matches Outcome::Failed(e)
            && e.file@ == candidate.path@ && e.error@ == message),
{
    let spans = matching::query_spans(t, opts.query@, opts.ignore_case);
    let limited = searched_spans(opts, t);
    if is_outcome(candidate, opts, modified, Ok(t), r) {
        if let Outcome::Found(found) = r {
            assert forall|i: int| 0 <= i < found.matches@.len() implies matching::is_context(
                encode_utf8(t),
                spans[i],
                opts.context_size as nat,
                (#[trigger] found.matches@[i]).context@,
            ) by {
                assert(limited[i] == spans[i]);
            }
        }
    }
}

/// Progress is reported after every file of a search of up to 100 files, and after every
/// hundredth part of a larger one; the end is always reported.
pub proof fn progress_is_reported_in_steps(current: nat, total: nat, k: nat)
    requires
        current <= total,
    ensures
        total <= 100 ==> is_reported(current, total),
        total > 100 ==> is_reported(k * (total / 100), total),
        is_reported(total, total),
        total > 100 && is_reported(current, total) ==> current == total || current == (current / (
        total / 100)) * (total / 100),
{
    if total > 100 {
        let step = total / 100;
        assert((k * step) % step == 0) by (nonlinear_arith)
            requires
                step > 0,
        ;
        assert(current % step == 0 ==> current == (current / step) * step) by (nonlinear_arith)
            requires
                step > 0,
        ;
    } else {
        assert(current % 1 == 0);
    }
}

/// The cache is touched only where it is used: asking for a file's text marks it as used, and
/// a text that was read comes in under the file's key.
pub proof fn cache_is_touched_where_used(
    candidate: SearchCandidate,
    opts: SearchOptions,
    file: FileState,
    t: Seq<char>,
    cache: Seq<Seq<EntryView>>,
)
    ensures
        !opts.use_cache ==> cache_after_reading(candidate, opts, file, t, cache) == cache
            && cache_after_begin(candidate, opts, false, Some(file), cache) == cache,
        opts.use_cache && is_recent(file.modified, opts.modified_after) ==> cache_after_begin(
            candidate,
            opts,
            false,
            Some(file),
            cache,
        ) == cache::after_get(cache, key_view(candidate.path@, file)),
        !is_recent(file.modified, opts.modified_after) ==> cache_after_begin(
            candidate,
            opts,
            false,
            Some(file),
            cache,
        ) == cache,
        cache_after_begin(candidate, opts, false, None, cache) == cache,
        opts.use_cache ==> cache_after_reading(candidate, opts, file, t, cache)
            == cache::after_insert(
            cache,
            EntryView {
                key: key_view(candidate.path@, file),
                path_len: candidate.path@.len(),
                text: t,
            },
        ),
{
}

} // verus!
