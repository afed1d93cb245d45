//! What the program remembers while it runs: the results shown, and the search going on.

use crate::filters;
use crate::filters::SortOrder;
use crate::language;
use crate::language::AppLanguage;
use crate::options::SearchStats;
use crate::results;
use crate::results::SearchError;
use crate::results::SearchResult;
use crate::text;
use vstd::prelude::*;

verus! {

/// The number of directories that are remembered when a search starts.
pub const MAX_RECENT_DIRECTORIES: usize = 6;

/// The number of results up to which they are sorted as they come.
pub const MAX_SORTED_WHILE_SEARCHING: usize = 200;

/// What is on the screen.
#[derive(Clone, Copy, Debug, PartialEq, Eq, Structural)]
pub enum SearchScreen {
    /// No search was made.
    Idle,
    /// A search is going on.
    Searching,
    /// A search came to its end.
    Finished,
}

/// What the program remembers while it runs.
#[derive(Debug)]
pub struct AppState {
    pub lang: AppLanguage,
    pub results: Vec<SearchResult>,
    pub errors: Vec<SearchError>,
    pub selected_result_idx: Option<usize>,
    pub recent_directories: Vec<String>,
    pub current_search_id: u64,
    pub sort_order: SortOrder,
    pub last_stats: Option<SearchStats>,
}

/// The mathematical view of an `AppState`.
pub struct StateView {
    pub lang: AppLanguage,
    pub results: Seq<SearchResult>,
    pub errors: Seq<SearchError>,
    pub selected: Option<usize>,
    pub recent: Seq<Seq<char>>,
    pub search_id: nat,
    pub sort_order: SortOrder,
    pub last_stats: Option<SearchStats>,
}

impl View for AppState {
    type V = StateView;

    open spec fn view(&self) -> StateView {
        StateView {
            lang: self.lang,
            results: self.results@,
            errors: self.errors@,
            selected: self.selected_result_idx,
            recent: filters::labels(self.recent_directories@),
            search_id: self.current_search_id as nat,
            sort_order: self.sort_order,
            last_stats: self.last_stats,
        }
    }
}

/// What is wrong with a search that is asked for.
#[derive(Clone, Copy, Debug, PartialEq, Eq, Structural)]
pub enum SearchProblem {
    /// There is nothing to search for.
    NoQuery,
    /// No type of file is to be searched.
    NoFileType,
}

/// What is wrong with a search that is asked for, if anything is.
pub open spec fn problem_of(query: Seq<char>, any_type: bool) -> Option<SearchProblem> {
    if text::is_blank(query) {
        Some(SearchProblem::NoQuery)
    } else if !any_type {
        Some(SearchProblem::NoFileType)
    } else {
        None
    }
}

/// What the user is told of a problem.
pub open spec fn problem_text(problem: SearchProblem, lang: AppLanguage) -> Seq<char> {
    match problem {
        SearchProblem::NoQuery => language::localized_text(
            lang,
            "Kirjoita ensin hakusana."@,
            "Please enter a search term first."@,
        ),
        SearchProblem::NoFileType => language::localized_text(
            lang,
            "Valitse vähintään yksi tiedostotyyppi (DOCX, ODT, PDF, TXT)."@,
            "Please select at least one file type (DOCX, ODT, PDF, TXT)."@,
        ),
    }
}

/// Tells what is wrong with a search that is asked for, if anything is.
pub fn check_search(query: &str, docx: bool, odt: bool, pdf: bool, txt: bool) -> (r: Option<
    SearchProblem,
>)
    ensures
        r == problem_of(query@, docx || odt || pdf || txt),
{
    if text::blank(query) {
        Some(SearchProblem::NoQuery)
    } else if !docx && !odt && !pdf && !txt {
        Some(SearchProblem::NoFileType)
    } else {
        None
    }
}

/// What the user is told of a problem.
pub fn problem_message(problem: SearchProblem, lang: AppLanguage) -> (r: &'static str)
    ensures
        r@ == problem_text(problem, lang),
{
    match problem {
        SearchProblem::NoQuery => language::localized(
            lang,
            "Kirjoita ensin hakusana.",
            "Please enter a search term first.",
        ),
        SearchProblem::NoFileType => language::localized(
            lang,
            "Valitse vähintään yksi tiedostotyyppi (DOCX, ODT, PDF, TXT).",
            "Please select at least one file type (DOCX, ODT, PDF, TXT).",
        ),
    }
}

/// Directories after one was chosen: one that is not known comes to the front.
pub open spec fn with_directory(recent: Seq<Seq<char>>, dir: Seq<char>) -> Seq<Seq<char>> {
    if recent.contains(dir) {
        recent
    } else {
        seq![dir] + recent
    }
}

/// Directories after a search began in one: the oldest leaves where there are too many.
pub open spec fn with_searched_directory(recent: Seq<Seq<char>>, dir: Seq<char>) -> Seq<Seq<char>> {
    let all = with_directory(recent, dir);
    if !recent.contains(dir) && all.len() > MAX_RECENT_DIRECTORIES {
        all.drop_last()
    } else {
        all
    }
}

/// The selected result is one of the results.
pub open spec fn has_valid_selection(state: StateView) -> bool {
    state.selected matches Some(k) ==> k < state.results.len()
}

/// The result that is selected where none was: the first.
pub open spec fn first_if_none(selected: Option<usize>) -> Option<usize> {
    match selected {
        Some(k) => Some(k),
        None => Some(0),
    }
}

/// The state after the search that was going on is cancelled: it has no number any more.
pub open spec fn cancelled(state: StateView) -> StateView {
    StateView { search_id: state.search_id + 1, ..state }
}

/// The state after a search began: it has a number of its own, and nothing was found yet.
pub open spec fn started(state: StateView) -> StateView {
    StateView {
        results: Seq::empty(),
        errors: Seq::empty(),
        selected: None,
        search_id: state.search_id + 1,
        ..state
    }
}

/// What the search of that number reports counts.
pub open spec fn counts(state: StateView, search_id: nat) -> bool {
    search_id == state.search_id
}

/// The search that was going on ended between the two states, or another one began.
pub open spec fn ends_search(before: StateView, after: StateView) -> bool {
    after == cancelled(before) || after == started(before)
}

/// States that follow one another: searches are cancelled and begin, and all else that is
/// done leaves the number of the search as it is.
pub open spec fn is_course(states: Seq<StateView>) -> bool {
    forall|k: int|
        0 < k < states.len() ==> ends_search(#[trigger] states[k - 1], states[k])
            || states[k].search_id == states[k - 1].search_id
}

impl AppState {
    /// The state at the start: the first directory counts as used.
    pub fn new(lang: AppLanguage, initial_dir: &str) -> (r: AppState)
        ensures
            r@ == (StateView {
                lang,
                results: Seq::empty(),
                errors: Seq::empty(),
                selected: None,
                recent: seq![initial_dir@],
                search_id: 0,
                sort_order: SortOrder::DateDesc,
                last_stats: None,
            }),
    {
        let mut recent_directories: Vec<String> = Vec::new();
        recent_directories.push(initial_dir.to_owned());
        let r = AppState {
            lang,
            results: Vec::new(),
            errors: Vec::new(),
            selected_result_idx: None,
            recent_directories,
            current_search_id: 0,
            sort_order: SortOrder::DateDesc,
            last_stats: None,
        };
        assert(r@.results =~= Seq::empty());
        assert(r@.errors =~= Seq::empty());
        assert(r@.recent =~= seq![initial_dir@]);
        r
    }

    /// Chooses the language with that label.
    pub fn change_language(&mut self, label: &str)
        ensures
            final(self)@ == (StateView {
                lang: language::labelled_language(label@),
                ..old(self)@
            }),
            has_valid_selection(old(self)@) ==> has_valid_selection(final(self)@),
    {
        self.lang = AppLanguage::from_label(label);
    }

    fn knows_directory(&self, dir: &str) -> (r: bool)
        ensures
            r == self@.recent.contains(dir@),
    {
        let mut i: usize = 0;
        while i < self.recent_directories.len()
            invariant
                i <= self.recent_directories@.len(),
                forall|k: int| 0 <= k < i ==> #[trigger] self@.recent[k] != dir@,
            decreases self.recent_directories@.len() - i,
        {
            if text::same_text(self.recent_directories[i].as_str(), dir) {
                assert(self@.recent[i as int] == dir@);
                return true;
            }
            assert(self@.recent[i as int] == self.recent_directories@[i as int]@);
            i = i + 1;
        }
        false
    }

    /// Remembers a directory that was chosen in a dialog. Returns whether it is new.
    pub fn remember_browsed(&mut self, dir: &str) -> (r: bool)
        ensures
            r == !old(self)@.recent.contains(dir@),
            final(self)@ == (StateView {
                recent: with_directory(old(self)@.recent, dir@),
                ..old(self)@
            }),
            has_valid_selection(old(self)@) ==> has_valid_selection(final(self)@),
    {
        if self.knows_directory(dir) {
            return false;
        }
        let ghost before = self@.recent;
        self.recent_directories.insert(0, dir.to_owned());
        assert(self@.recent =~= seq![dir@] + before);
        true
    }

    /// Remembers a directory in which a search begins. Returns whether it is new.
    pub fn remember_searched(&mut self, dir: &str) -> (r: bool)
        ensures
            r == !old(self)@.recent.contains(dir@),
            final(self)@ == (StateView {
                recent: with_searched_directory(old(self)@.recent, dir@),
                ..old(self)@
            }),
            has_valid_selection(old(self)@) ==> has_valid_selection(final(self)@),
    {
        let is_new = self.remember_browsed(dir);
        if is_new && self.recent_directories.len() > MAX_RECENT_DIRECTORIES {
            let ghost before = self@.recent;
            let _ = self.recent_directories.pop();
            assert(self@.recent =~= before.drop_last());
        }
        is_new
    }

    /// Selects a result. What is no index changes nothing. Returns whether there is one.
    pub fn select(&mut self, idx: i32) -> (r: bool)
        ensures
            r == (0 <= idx < old(self)@.results.len()),
            final(self)@ == (StateView {
                selected: if r {
                    Some(idx as usize)
                } else {
                    old(self)@.selected
                },
                ..old(self)@
            }),
            has_valid_selection(old(self)@) ==> has_valid_selection(final(self)@),
    {
        if idx >= 0 && (idx as usize) < self.results.len() {
            self.selected_result_idx = Some(idx as usize);
            true
        } else {
            false
        }
    }

    /// Sorts the results in the way that stands at an index.
    pub fn change_sort(&mut self, index: i32)
        ensures
            final(self)@.sort_order == (if index == 1 {
                SortOrder::DateAsc
            } else if index == 2 {
                SortOrder::Name
            } else if index == 3 {
                SortOrder::Matches
            } else {
                SortOrder::DateDesc
            }),
            results::is_sorted(
                old(self)@.results,
                final(self)@.sort_order,
                final(self)@.results,
            ),
            final(self)@ == (StateView {
                results: final(self)@.results,
                sort_order: final(self)@.sort_order,
                ..old(self)@
            }),
            has_valid_selection(old(self)@) ==> has_valid_selection(final(self)@),
    {
        self.sort_order = SortOrder::from_index(index);
        results::sort_results_list(&mut self.results, self.sort_order);
    }

    /// Ends the search that is going on: what it still finds no longer counts. Returns what is
    /// to be shown.
    pub fn cancel(&mut self) -> (r: SearchScreen)
        requires
            old(self).current_search_id < u64::MAX,
        ensures
            r == if old(self)@.results.len() == 0 {
                SearchScreen::Idle
            } else {
                SearchScreen::Finished
            },
            final(self)@ == cancelled(old(self)@),
            has_valid_selection(old(self)@) ==> has_valid_selection(final(self)@),
    {
        self.current_search_id = self.current_search_id + 1;
        if self.results.len() == 0 {
            SearchScreen::Idle
        } else {
            SearchScreen::Finished
        }
    }

    /// Forgets what was found.
    pub fn clear(&mut self)
        ensures
            final(self)@ == (StateView {
                results: Seq::empty(),
                errors: Seq::empty(),
                selected: None,
                last_stats: None,
                ..old(self)@
            }),
            has_valid_selection(old(self)@) ==> has_valid_selection(final(self)@),
    {
        self.results.clear();
        self.errors.clear();
        self.selected_result_idx = None;
        self.last_stats = None;
        assert(self@.results =~= Seq::empty());
        assert(self@.errors =~= Seq::empty());
    }

    /// Begins a search. Returns the number under which it reports what it finds.
    pub fn start(&mut self) -> (r: u64)
        requires
            old(self).current_search_id < u64::MAX,
        ensures
            r == old(self)@.search_id + 1,
            final(self)@ == started(old(self)@),
            has_valid_selection(old(self)@) ==> has_valid_selection(final(self)@),
    {
        self.current_search_id = self.current_search_id + 1;
        self.results.clear();
        self.errors.clear();
        self.selected_result_idx = None;
        assert(self@.results =~= Seq::empty());
        assert(self@.errors =~= Seq::empty());
        self.current_search_id
    }

    /// Takes a result in, where it comes from the search that is going on. Few results are
    /// sorted at once, and the first is selected where none is. Returns whether it counts.
    pub fn accept_match(&mut self, search_id: u64, result: SearchResult) -> (r: bool)
        ensures
            r == counts(old(self)@, search_id as nat),
            !r ==> final(self)@ == old(self)@,
            r ==> {
                let all = old(self)@.results.push(result);
                &&& if all.len() <= MAX_SORTED_WHILE_SEARCHING {
                    results::is_sorted(all, old(self)@.sort_order, final(self)@.results)
                } else {
                    final(self)@.results == all
                }
                &&& final(self)@ == (StateView {
                    results: final(self)@.results,
                    selected: first_if_none(old(self)@.selected),
                    ..old(self)@
                })
            },
            has_valid_selection(old(self)@) ==> has_valid_selection(final(self)@),
    {
        if search_id != self.current_search_id {
            return false;
        }
        self.results.push(result);
        if self.results.len() <= MAX_SORTED_WHILE_SEARCHING {
            results::sort_results_list(&mut self.results, self.sort_order);
        }
        if self.selected_result_idx.is_none() {
            self.selected_result_idx = Some(0);
        }
        true
    }

    /// Takes an error in, where it comes from the search that is going on. Returns whether it
    /// counts.
    pub fn accept_error(&mut self, search_id: u64, error: SearchError) -> (r: bool)
        ensures
            r == counts(old(self)@, search_id as nat),
            final(self)@ == if r {
                StateView { errors: old(self)@.errors.push(error), ..old(self)@ }
            } else {
                old(self)@
            },
            has_valid_selection(old(self)@) ==> has_valid_selection(final(self)@),
    {
        if search_id != self.current_search_id {
            return false;
        }
        self.errors.push(error);
        true
    }

    /// Ends a search, where it is the one that is going on: all results are sorted, and the
    /// first is selected where none is. Returns whether it counts.
    pub fn finish(&mut self, search_id: u64, stats: SearchStats) -> (r: bool)
        ensures
            r == counts(old(self)@, search_id as nat),
            !r ==> final(self)@ == old(self)@,
            r ==> {
                &&& results::is_sorted(
                    old(self)@.results,
                    old(self)@.sort_order,
                    final(self)@.results,
                )
                &&& final(self)@ == (StateView {
                    results: final(self)@.results,
                    selected: if final(self)@.results.len() > 0 {
                        first_if_none(old(self)@.selected)
                    } else {
                        old(self)@.selected
                    },
                    last_stats: Some(stats),
                    ..old(self)@
                })
            },
            has_valid_selection(old(self)@) ==> has_valid_selection(final(self)@),
    {
        if search_id != self.current_search_id {
            return false;
        }
        results::sort_results_list(&mut self.results, self.sort_order);
        if self.results.len() > 0 && self.selected_result_idx.is_none() {
            self.selected_result_idx = Some(0);
        }
        self.last_stats = Some(stats);
        true
    }
}

/// In the course of the program the numbers of searches never become smaller.
proof fn lemma_numbers_grow(states: Seq<StateView>, i: int, j: int)
    requires
        is_course(states),
        0 <= i <= j < states.len(),
    ensures
        states[i].search_id <= states[j].search_id,
    decreases j - i,
{
    if i < j {
        lemma_numbers_grow(states, i, j - 1);
        assert(ends_search(states[j - 1], states[j]) || states[j].search_id == states[j
            - 1].search_id);
    }
}

/// Once a search was cancelled, or another one began, nothing that it reports counts, however
/// late it comes.
pub proof fn late_reports_do_not_count(states: Seq<StateView>, i: int, k: int, j: int)
    requires
        is_course(states),
        0 <= i < k <= j < states.len(),
        ends_search(states[k - 1], states[k]),
    ensures
        counts(states[i], states[i].search_id),
        !counts(states[j], states[i].search_id),
{
    lemma_numbers_grow(states, i, k - 1);
    lemma_numbers_grow(states, k, j);
}

/// A directory in which a search began is remembered, and there are not too many of them as
/// long as none were chosen in dialogs.
pub proof fn searched_directory_is_remembered(recent: Seq<Seq<char>>, dir: Seq<char>)
    requires
        recent.len() <= MAX_RECENT_DIRECTORIES,
    ensures
        with_searched_directory(recent, dir).contains(dir),
        with_searched_directory(recent, dir).len() <= MAX_RECENT_DIRECTORIES,
{
    if !recent.contains(dir) {
        assert((seq![dir] + recent)[0] == dir);
        assert(with_searched_directory(recent, dir)[0] == dir);
    }
}

/// No directory is remembered twice.
pub proof fn directories_stay_distinct(recent: Seq<Seq<char>>, dir: Seq<char>)
    requires
        recent.no_duplicates(),
    ensures
        with_directory(recent, dir).no_duplicates(),
        with_searched_directory(recent, dir).no_duplicates(),
{
    if !recent.contains(dir) {
        let all = seq![dir] + recent;
        assert forall|i: int, j: int| 0 <= i < j < all.len() implies all[i] != all[j] by {
            assert(all[j] == recent[j - 1]);
            if i > 0 {
                assert(all[i] == recent[i - 1]);
            }
        }
    }
}

/// What keeps a search from beginning: a blank query, and else that no type is chosen. A query
/// with any character that is no white space, and one type, are enough.
pub proof fn searches_need_a_query_and_a_type(query: Seq<char>, any_type: bool, i: int)
    ensures
        text::is_blank(query) ==> problem_of(query, any_type) == Some(SearchProblem::NoQuery),
        0 <= i < query.len() && !text::is_white_space(query[i]) && any_type ==> problem_of(
            query,
            any_type,
        ) is None,
        0 <= i < query.len() && !text::is_white_space(query[i]) && !any_type ==> problem_of(
            query,
            any_type,
        ) == Some(SearchProblem::NoFileType),
{
}

/// A directory that is not known comes before the others, which stay in their order; one that
/// is known changes nothing. A search leaves no more than six by dropping the last.
pub proof fn new_directories_come_first(recent: Seq<Seq<char>>, dir: Seq<char>, i: int)
    ensures
        recent.contains(dir) ==> with_directory(recent, dir) == recent && with_searched_directory(
            recent,
            dir,
        ) == recent,
        !recent.contains(dir) ==> with_directory(recent, dir)[0] == dir && with_directory(
            recent,
            dir,
        ).len() == recent.len() + 1,
        !recent.contains(dir) && 0 <= i < recent.len() ==> with_directory(recent, dir)[i + 1]
            == recent[i],
        !recent.contains(dir) && recent.len() < 6 ==> with_searched_directory(recent, dir)
            == with_directory(recent, dir),
        !recent.contains(dir) && recent.len() >= 6 ==> with_searched_directory(recent, dir)
            == with_directory(recent, dir).take(recent.len() as int),
{
    let all = seq![dir] + recent;
    assert(all.drop_last() =~= all.take(recent.len() as int));
}

/// A search that begins has a number that none had before and nothing found; the language, the
/// directories, the order and the last times stay. A cancelled search keeps what was found.
pub proof fn searches_begin_anew(state: StateView)
    ensures
        started(state).results.len() == 0,
        started(state).errors.len() == 0,
        started(state).selected is None,
        started(state).search_id > state.search_id,
        started(state).lang == state.lang,
        started(state).recent == state.recent,
        started(state).sort_order == state.sort_order,
        started(state).last_stats == state.last_stats,
        !counts(started(state), state.search_id),
        counts(started(state), started(state).search_id),
        cancelled(state).results == state.results,
        cancelled(state).errors == state.errors,
        cancelled(state).selected == state.selected,
        cancelled(state).search_id > state.search_id,
        cancelled(state).lang == state.lang,
        cancelled(state).recent == state.recent,
        cancelled(state).sort_order == state.sort_order,
        cancelled(state).last_stats == state.last_stats,
        !counts(cancelled(state), state.search_id),
{
}

/// The first result is selected where none was, and a selection stays.
pub proof fn selection_stays(k: usize)
    ensures
        first_if_none(Some(k)) == Some(k),
        first_if_none(None) == Some(0usize),
{
}

/// What the user is told of a search that cannot begin, in both languages.
pub proof fn problems_are_told_in_both_languages(lang: AppLanguage)
    ensures
        problem_text(SearchProblem::NoQuery, lang) == language::localized_text(
            lang,
            "Kirjoita ensin hakusana."@,
            "Please enter a search term first."@,
        ),
        problem_text(SearchProblem::NoFileType, lang) == language::localized_text(
            lang,
            "Valitse vähintään yksi tiedostotyyppi (DOCX, ODT, PDF, TXT)."@,
            "Please select at least one file type (DOCX, ODT, PDF, TXT)."@,
        ),
{
}

/// What a search reports counts where its number is that of the search going on, and at no
/// other time. A selection is valid where it names a result, or nothing. Up to 200 results are
/// kept sorted while they come in.
pub proof fn only_the_current_search_counts(state: StateView, search_id: nat, k: usize)
    ensures
        counts(state, search_id) <==> state.search_id == search_id,
        state.selected == Some(k) ==> (has_valid_selection(state) <==> k < state.results.len()),
        state.selected is None ==> has_valid_selection(state),
        MAX_SORTED_WHILE_SEARCHING == 200,
{
}

} // verus!
