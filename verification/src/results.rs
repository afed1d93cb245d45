//! What a search found, and how it is sorted.

use crate::filters::SortOrder;
use crate::folding;
use crate::matching::Match;
use crate::order;
use crate::path;
use crate::path::FilePath;
use crate::text;
use crate::time;
use crate::time::Timestamp;
use vstd::prelude::*;

verus! {

/// A file in which the query was found.
#[derive(Debug)]
pub struct SearchResult {
    pub file: FilePath,
    pub file_type: String,
    pub matches: Vec<Match>,
    pub modified: Option<Timestamp>,
}

/// A file whose text could not be had.
#[derive(Debug)]
pub struct SearchError {
    pub file: FilePath,
    pub error: String,
}

/// Seconds from the earliest point in time.
pub open spec fn seconds_rank(t: Timestamp) -> u64 {
    (t.secs + 0x8000_0000_0000_0000) as u64
}

/// A point in time as a word: files without one come after those with one.
pub open spec fn oldest_first(t: Option<Timestamp>) -> Seq<u64> {
    match t {
        Some(t) => seq![0u64, seconds_rank(t), t.nanos as u64],
        None => seq![1u64],
    }
}

/// A point in time as a word: files without one come before those with one, and later points
/// before earlier ones.
pub open spec fn newest_first(t: Option<Timestamp>) -> Seq<u64> {
    match t {
        Some(t) => seq![
            1u64,
            (u64::MAX - seconds_rank(t)) as u64,
            (u64::MAX - t.nanos as u64) as u64,
        ],
        None => seq![0u64],
    }
}

/// A file name in lower case as a word: paths without a file name come first.
pub open spec fn name_word(lowered: Option<Seq<char>>) -> Seq<u64> {
    match lowered {
        Some(s) => seq![1u64] + s.map_values(|c: char| c as u64),
        None => seq![0u64],
    }
}

/// The file name of a path in lower case.
pub open spec fn lower_name(p: Seq<u8>) -> Option<Seq<char>> {
    match path::name_of(p) {
        Some(name) => Some(folding::lowercase(text::text_of_bytes(name))),
        None => None,
    }
}

/// The word by which a result is sorted first; paths decide among equal ones.
pub open spec fn first_word(r: SearchResult, sort_order: SortOrder) -> Seq<u64> {
    match sort_order {
        SortOrder::DateDesc => newest_first(r.modified),
        SortOrder::DateAsc => oldest_first(r.modified),
        SortOrder::Name => name_word(lower_name(r.file@)),
        SortOrder::Matches => seq![(u64::MAX - r.matches@.len()) as u64],
    }
}

/// The key by which a result is sorted.
pub open spec fn result_key(r: SearchResult, sort_order: SortOrder) -> Seq<Seq<u64>> {
    seq![first_word(r, sort_order)] + path::path_key(r.file@)
}

/// The keys by which results are sorted.
pub open spec fn result_keys(results: Seq<SearchResult>, sort_order: SortOrder) -> Seq<
    Seq<Seq<u64>>,
> {
    results.map_values(|r: SearchResult| result_key(r, sort_order))
}

/// Results in another order.
pub open spec fn arranged(results: Seq<SearchResult>, order: Seq<usize>) -> Seq<SearchResult> {
    order.map_values(|k: usize| results[k as int])
}

/// The list that a stable sort makes of results.
pub open spec fn is_sorted(
    before: Seq<SearchResult>,
    sort_order: SortOrder,
    after: Seq<SearchResult>,
) -> bool {
    exists|order: Seq<usize>| #[trigger]
        order::is_stable_order(result_keys(before, sort_order), order) && after == arranged(
            before,
            order,
        )
}

fn rank_of_seconds(t: Timestamp) -> (r: u64)
    ensures
        r == seconds_rank(t),
        r == t.secs + 0x8000_0000_0000_0000,
{
    (t.secs as i128 + 0x8000_0000_0000_0000) as u64
}

fn word_of_time(t: Option<Timestamp>, newest: bool) -> (r: order::Word)
    ensures
        r@ == if newest {
            newest_first(t)
        } else {
            oldest_first(t)
        },
{
    let mut r: order::Word = Vec::new();
    match t {
        Some(t) => {
            let seconds = rank_of_seconds(t);
            if newest {
                r.push(1);
                r.push(u64::MAX - seconds);
                r.push(u64::MAX - t.nanos as u64);
            } else {
                r.push(0);
                r.push(seconds);
                r.push(t.nanos as u64);
            }
        },
        None => {
            if newest {
                r.push(0);
            } else {
                r.push(1);
            }
        },
    }
    assert(r@ =~= if newest {
        newest_first(t)
    } else {
        oldest_first(t)
    });
    r
}

/// A file name in lower case as a word.
pub fn word_of_name(lowered: &Option<String>) -> (r: order::Word)
    ensures
        r@ == name_word(
            match *lowered {
                Some(s) => Some(s@),
                None => None,
            },
        ),
{
    let mut r: order::Word = Vec::new();
    match lowered {
        Some(s) => {
            r.push(1);
            for c in it: s.as_str().chars()
                invariant
                    it.seq() == s@,
                    r@ == seq![1u64] + s@.take(it.index() as int).map_values(|c: char| c as u64),
            {
                r.push(c as u64);
                assert(r@ =~= seq![1u64] + s@.take(it.index() as int + 1).map_values(
                    |c: char| c as u64,
                ));
            }
            assert(s@.take(s@.len() as int) =~= s@);
        },
        None => {
            r.push(0);
            assert(r@ =~= seq![0u64]);
        },
    }
    r
}

fn lowered_name(file: &FilePath) -> (r: Option<String>)
    ensures
        match r {
            Some(s) => lower_name(file@) == Some(s@),
            None => lower_name(file@) is None,
        },
{
    match file.file_name() {
        Some(name) => {
            let mut shown = String::new();
            text::push_bytes(&mut shown, name.as_slice());
            assert(shown@ =~= text::text_of_bytes(name@));
            Some(folding::to_lower(shown.as_str()))
        },
        None => None,
    }
}

fn key_of_result(r: &SearchResult, sort_order: SortOrder) -> (k: Vec<order::Word>)
    ensures
        order::key_view(k@) == result_key(*r, sort_order),
{
    let first = match sort_order {
        SortOrder::DateDesc => word_of_time(r.modified, true),
        SortOrder::DateAsc => word_of_time(r.modified, false),
        SortOrder::Name => word_of_name(&lowered_name(&r.file)),
        SortOrder::Matches => {
            let mut w: order::Word = Vec::new();
            w.push(u64::MAX - r.matches.len() as u64);
            assert(w@ =~= first_word(*r, sort_order));
            w
        },
    };
    let ghost head = first@;
    assert(head == first_word(*r, sort_order));
    let mut k: Vec<order::Word> = Vec::new();
    k.push(first);
    let mut rest = r.file.key();
    let ghost tail = order::key_view(rest@);
    k.append(&mut rest);
    assert(order::key_view(k@) =~= seq![head] + tail);
    k
}

/// Sorts results, and leaves those that are equal in the order in which they stood.
pub fn sort_results_list(results: &mut Vec<SearchResult>, sort_order: SortOrder)
    ensures
        is_sorted(old(results)@, sort_order, final(results)@),
        final(results)@.len() == old(results)@.len(),
{
    let ghost before = results@;
    let n: usize = results.len();
    let mut keys: Vec<Vec<order::Word>> = Vec::new();
    let mut i: usize = 0;
    while i < n
        invariant
            i <= n == results@.len(),
            results@ == before,
            keys@.len() == i,
            forall|k: int|
                0 <= k < i ==> order::key_view((#[trigger] keys@[k])@) == result_key(
                    before[k],
                    sort_order,
                ),
        decreases n - i,
    {
        keys.push(key_of_result(&results[i], sort_order));
        i = i + 1;
    }
    assert(order::keys_view(keys@) =~= result_keys(before, sort_order));
    let order = order::stable_order(&keys);
    proof {
        order::stable_order_is_injective(result_keys(before, sort_order), order@);
    }
    let mut slots: Vec<Option<SearchResult>> = Vec::new();
    let mut left: usize = n;
    while left > 0
        invariant
            left <= n == before.len(),
            results@ == before.take(left as int),
            slots@.len() == n - left,
            forall|k: int|
                0 <= k < slots@.len() ==> #[trigger] slots@[k] == Some(before[n - 1 - k]),
        decreases left,
    {
        match results.pop() {
            Some(r) => {
                slots.push(Some(r));
            },
            None => {},
        }
        left = left - 1;
        assert(results@ =~= before.take(left as int));
    }
    let mut k: usize = 0;
    assert(results@ =~= arranged(before, order@.take(0)));
    while k < n
        invariant
            k <= n == before.len(),
            order@.len() == n,
            slots@.len() == n,
            order@.no_duplicates(),
            forall|j: int| 0 <= j < n ==> 0 <= #[trigger] order@[j] < n,
            forall|j: int|
                k <= j < n ==> slots@[n - 1 - #[trigger] order@[j]] == Some(
                    before[order@[j] as int],
                ),
            results@ == arranged(before, order@.take(k as int)),
        decreases n - k,
    {
        let at: usize = n - 1 - order[k];
        let mut taken: Option<SearchResult> = None;
        std::mem::swap(&mut slots[at], &mut taken);
        if let Some(r) = taken {
            results.push(r);
        }
        assert(results@ =~= arranged(before, order@.take(k + 1)));
        k = k + 1;
    }
    assert(order@.take(k as int) =~= order@);
}

/// Sorting has one outcome only.
pub proof fn sorting_is_deterministic(
    before: Seq<SearchResult>,
    sort_order: SortOrder,
    one: Seq<SearchResult>,
    other: Seq<SearchResult>,
)
    requires
        is_sorted(before, sort_order, one),
        is_sorted(before, sort_order, other),
        before.len() <= usize::MAX,
    ensures
        one == other,
{
    let keys = result_keys(before, sort_order);
    let a = choose|order: Seq<usize>| #[trigger]
        order::is_stable_order(keys, order) && one == arranged(before, order);
    let b = choose|order: Seq<usize>| #[trigger]
        order::is_stable_order(keys, order) && other == arranged(before, order);
    order::stable_order_is_unique(keys, a, b);
}

/// Sorting keeps every result, and adds none.
pub proof fn sorting_keeps_results(
    before: Seq<SearchResult>,
    sort_order: SortOrder,
    after: Seq<SearchResult>,
)
    requires
        is_sorted(before, sort_order, after),
        before.len() <= usize::MAX,
    ensures
        after.len() == before.len(),
        forall|i: int| 0 <= i < before.len() ==> after.contains(#[trigger] before[i]),
        forall|j: int| 0 <= j < after.len() ==> before.contains(#[trigger] after[j]),
{
    let keys = result_keys(before, sort_order);
    let order = choose|order: Seq<usize>| #[trigger]
        order::is_stable_order(keys, order) && after == arranged(before, order);
    assert forall|i: int| 0 <= i < before.len() implies after.contains(#[trigger] before[i]) by {
        order::stable_order_is_complete(keys, order, i);
        let p = choose|p: int| 0 <= p < order.len() && order[p] == i as usize;
        assert(after[p] == before[i]);
    }
    assert forall|j: int| 0 <= j < after.len() implies before.contains(#[trigger] after[j]) by {
        assert(before[order[j] as int] == after[j]);
    }
}

/// Results that are sorted do not change places by their first words.
proof fn lemma_first_words(
    before: Seq<SearchResult>,
    sort_order: SortOrder,
    after: Seq<SearchResult>,
    i: int,
    j: int,
)
    requires
        is_sorted(before, sort_order, after),
        0 <= i < j < after.len(),
    ensures
        order::word_lt(first_word(after[i], sort_order), first_word(after[j], sort_order))
            || first_word(after[i], sort_order) == first_word(after[j], sort_order),
{
    let keys = result_keys(before, sort_order);
    let order = choose|order: Seq<usize>| #[trigger]
        order::is_stable_order(keys, order) && after == arranged(before, order);
    assert(order::comes_before(keys, order[i] as int, order[j] as int));
    let a = result_key(after[i], sort_order);
    let b = result_key(after[j], sort_order);
    assert(keys[order[i] as int] == a);
    assert(keys[order[j] as int] == b);
    assert(a[0] == first_word(after[i], sort_order));
    assert(b[0] == first_word(after[j], sort_order));
}

/// Newest first: files without a date come first, and then later dates before earlier ones.
pub proof fn newest_first_is_by_date(
    before: Seq<SearchResult>,
    after: Seq<SearchResult>,
    i: int,
    j: int,
)
    requires
        is_sorted(before, SortOrder::DateDesc, after),
        0 <= i < j < after.len(),
    ensures
        after[j].modified is None ==> after[i].modified is None,
        (after[i].modified, after[j].modified) matches (Some(a), Some(b)) ==> time::not_after(b, a),
{
    lemma_first_words(before, SortOrder::DateDesc, after, i, j);
    let a = first_word(after[i], SortOrder::DateDesc);
    let b = first_word(after[j], SortOrder::DateDesc);
    lemma_three(a, b);
}

/// Oldest first: earlier dates come before later ones, and files without a date come last.
pub proof fn oldest_first_is_by_date(
    before: Seq<SearchResult>,
    after: Seq<SearchResult>,
    i: int,
    j: int,
)
    requires
        is_sorted(before, SortOrder::DateAsc, after),
        0 <= i < j < after.len(),
    ensures
        after[i].modified is None ==> after[j].modified is None,
        (after[i].modified, after[j].modified) matches (Some(a), Some(b)) ==> time::not_after(a, b),
{
    lemma_first_words(before, SortOrder::DateAsc, after, i, j);
    let a = first_word(after[i], SortOrder::DateAsc);
    let b = first_word(after[j], SortOrder::DateAsc);
    lemma_three(a, b);
}

/// By matches: files with more matches come first.
pub proof fn most_matches_come_first(
    before: Seq<SearchResult>,
    after: Seq<SearchResult>,
    i: int,
    j: int,
)
    requires
        is_sorted(before, SortOrder::Matches, after),
        0 <= i < j < after.len(),
        after[i].matches@.len() <= u64::MAX,
        after[j].matches@.len() <= u64::MAX,
    ensures
        after[i].matches@.len() >= after[j].matches@.len(),
{
    lemma_first_words(before, SortOrder::Matches, after, i, j);
    let a = first_word(after[i], SortOrder::Matches);
    let b = first_word(after[j], SortOrder::Matches);
    assert(a[0] <= b[0]) by {
        if order::word_lt(a, b) {
            assert(b.drop_first().len() == 0);
        }
    }
}

/// What the order of words says of the first three numbers.
proof fn lemma_three(a: Seq<u64>, b: Seq<u64>)
    requires
        order::word_lt(a, b) || a == b,
    ensures
        a.len() >= 1 && b.len() >= 1 ==> a[0] <= b[0],
        a.len() == 3 && b.len() == 3 && a[0] == b[0] ==> a[1] < b[1] || (a[1] == b[1] && a[2]
            <= b[2]),
{
    if a.len() == 3 && b.len() == 3 && a[0] == b[0] && order::word_lt(a, b) {
        let a1 = a.drop_first();
        let b1 = b.drop_first();
        assert(order::word_lt(a1, b1));
        assert(a1[0] == a[1] && b1[0] == b[1]);
        if a[1] == b[1] {
            let a2 = a1.drop_first();
            let b2 = b1.drop_first();
            assert(order::word_lt(a2, b2));
            assert(a2[0] == a[2] && b2[0] == b[2]);
            assert(!order::word_lt(a2.drop_first(), b2.drop_first()));
        }
    }
}

/// No two results are of the same file.
pub open spec fn has_distinct_files(results: Seq<SearchResult>) -> bool {
    forall|i: int, j: int|
        0 <= i < j < results.len() ==> path::path_key((#[trigger] results[i]).file@)
            != path::path_key((#[trigger] results[j]).file@)
}

/// No two results have the same time of change.
pub open spec fn has_distinct_dates(results: Seq<SearchResult>) -> bool {
    forall|i: int, j: int|
        0 <= i < j < results.len() ==> (#[trigger] results[i]).modified != (
        #[trigger] results[j]).modified
}

/// The key by which results are sorted, as a function of the result.
spec fn key_in(sort_order: SortOrder) -> spec_fn(SearchResult) -> Seq<Seq<u64>> {
    |r: SearchResult| result_key(r, sort_order)
}

/// The keys of sorted results do not become smaller.
proof fn lemma_sorted_keys(
    before: Seq<SearchResult>,
    sort_order: SortOrder,
    after: Seq<SearchResult>,
    i: int,
    j: int,
)
    requires
        is_sorted(before, sort_order, after),
        0 <= i < j < after.len(),
    ensures
        order::key_lt(result_key(after[i], sort_order), result_key(after[j], sort_order))
            || result_key(after[i], sort_order) == result_key(after[j], sort_order),
{
    let keys = result_keys(before, sort_order);
    let order = choose|order: Seq<usize>| #[trigger]
        order::is_stable_order(keys, order) && after == arranged(before, order);
    assert(order::comes_before(keys, order[i] as int, order[j] as int));
    assert(keys[order[i] as int] == result_key(after[i], sort_order));
    assert(keys[order[j] as int] == result_key(after[j], sort_order));
}

/// Sorted results of distinct files have distinct keys.
proof fn lemma_strictly_sorted(
    before: Seq<SearchResult>,
    sort_order: SortOrder,
    after: Seq<SearchResult>,
)
    requires
        is_sorted(before, sort_order, after),
        has_distinct_files(before),
    ensures
        order::is_strictly_sorted(after, key_in(sort_order)),
{
    let keys = result_keys(before, sort_order);
    let order = choose|order: Seq<usize>| #[trigger]
        order::is_stable_order(keys, order) && after == arranged(before, order);
    order::stable_order_is_injective(keys, order);
    assert forall|i: int, j: int| 0 <= i < j < after.len() implies order::key_lt(
        key_in(sort_order)(#[trigger] after[i]),
        key_in(sort_order)(#[trigger] after[j]),
    ) by {
        lemma_sorted_keys(before, sort_order, after, i, j);
        let a = result_key(after[i], sort_order);
        let b = result_key(after[j], sort_order);
        if a == b {
            assert(a.drop_first() =~= path::path_key(after[i].file@));
            assert(b.drop_first() =~= path::path_key(after[j].file@));
            let p = order[i] as int;
            let q = order[j] as int;
            assert(p != q);
            if p < q {
                assert(path::path_key(before[p].file@) != path::path_key(before[q].file@));
            } else {
                assert(path::path_key(before[q].file@) != path::path_key(before[p].file@));
            }
        }
    }
}

/// A list with the same results in another order has distinct files too.
proof fn lemma_distinct_permutation(one: Seq<SearchResult>, other: Seq<SearchResult>)
    requires
        has_distinct_files(one),
        one.to_multiset() == other.to_multiset(),
    ensures
        has_distinct_files(other),
        forall|x: SearchResult| #[trigger] one.contains(x) <==> other.contains(x),
{
    broadcast use vstd::seq_lib::group_to_multiset_ensures;

    assert(one.no_duplicates()) by {
        assert forall|i: int, j: int| 0 <= i < one.len() && 0 <= j < one.len() && i != j implies one[i]
            != one[j] by {
            if i < j {
                assert(path::path_key(one[i].file@) != path::path_key(one[j].file@));
            } else {
                assert(path::path_key(one[j].file@) != path::path_key(one[i].file@));
            }
        }
    }
    one.lemma_multiset_has_no_duplicates();
    other.lemma_multiset_has_no_duplicates_conv();
    assert forall|x: SearchResult| #[trigger] one.contains(x) <==> other.contains(x) by {
        assert(one.contains(x) <==> one.to_multiset().count(x) > 0);
        assert(other.contains(x) <==> other.to_multiset().count(x) > 0);
    }
    assert forall|i: int, j: int| 0 <= i < j < other.len() implies path::path_key(
        (#[trigger] other[i]).file@,
    ) != path::path_key((#[trigger] other[j]).file@) by {
        assert(other.contains(other[i]) && other.contains(other[j]));
        assert(one.contains(other[i]) && one.contains(other[j]));
        let p = choose|p: int| 0 <= p < one.len() && one[p] == other[i];
        let q = choose|q: int| 0 <= q < one.len() && one[q] == other[j];
        assert(p != q);
        if p < q {
            assert(path::path_key(one[p].file@) != path::path_key(one[q].file@));
        } else {
            assert(path::path_key(one[q].file@) != path::path_key(one[p].file@));
        }
    }
}

/// The same results of distinct files are sorted into the same list, in whatever order they
/// stood before.
pub proof fn sorting_ignores_the_order_before(
    one: Seq<SearchResult>,
    other: Seq<SearchResult>,
    sort_order: SortOrder,
    one_sorted: Seq<SearchResult>,
    other_sorted: Seq<SearchResult>,
)
    requires
        one.to_multiset() == other.to_multiset(),
        has_distinct_files(one),
        one.len() <= usize::MAX,
        other.len() <= usize::MAX,
        is_sorted(one, sort_order, one_sorted),
        is_sorted(other, sort_order, other_sorted),
    ensures
        one_sorted == other_sorted,
{
    lemma_distinct_permutation(one, other);
    lemma_strictly_sorted(one, sort_order, one_sorted);
    lemma_strictly_sorted(other, sort_order, other_sorted);
    lemma_same_results(one, sort_order, one_sorted);
    lemma_same_results(other, sort_order, other_sorted);
    assert forall|x: SearchResult| #[trigger] one_sorted.contains(x) <==> other_sorted.contains(
        x,
    ) by {
        assert(one_sorted.contains(x) <==> one.contains(x));
        assert(other_sorted.contains(x) <==> other.contains(x));
    }
    order::sorted_items_are_unique(one_sorted, other_sorted, key_in(sort_order));
}

/// A sorted list holds what was sorted.
proof fn lemma_same_results(
    before: Seq<SearchResult>,
    sort_order: SortOrder,
    after: Seq<SearchResult>,
)
    requires
        is_sorted(before, sort_order, after),
        before.len() <= usize::MAX,
    ensures
        forall|x: SearchResult| #[trigger] after.contains(x) <==> before.contains(x),
{
    sorting_keeps_results(before, sort_order, after);
    assert forall|x: SearchResult| #[trigger] after.contains(x) <==> before.contains(x) by {
        if after.contains(x) {
            let j = choose|j: int| 0 <= j < after.len() && after[j] == x;
            assert(before.contains(after[j]));
        }
        if before.contains(x) {
            let i = choose|i: int| 0 <= i < before.len() && before[i] == x;
            assert(after.contains(before[i]));
        }
    }
}

/// Sorting a sorted list changes nothing.
pub proof fn sorting_again_changes_nothing(
    before: Seq<SearchResult>,
    sort_order: SortOrder,
    once: Seq<SearchResult>,
    twice: Seq<SearchResult>,
)
    requires
        is_sorted(before, sort_order, once),
        is_sorted(once, sort_order, twice),
        before.len() <= usize::MAX,
    ensures
        twice == once,
{
    let keys = result_keys(once, sort_order);
    let same = Seq::new(once.len(), |k: int| k as usize);
    sorting_keeps_results(before, sort_order, once);
    assert forall|i: int, j: int| 0 <= i < j < same.len() implies order::comes_before(
        keys,
        #[trigger] same[i] as int,
        #[trigger] same[j] as int,
    ) by {
        lemma_sorted_keys(before, sort_order, once, i, j);
    }
    assert(order::is_stable_order(keys, same));
    assert(arranged(once, same) =~= once);
    assert(is_sorted(once, sort_order, once));
    sorting_is_deterministic(once, sort_order, once, twice);
}

/// A date that comes earlier among the oldest comes later among the newest.
proof fn lemma_dates_mirrored(a: Option<Timestamp>, b: Option<Timestamp>)
    requires
        order::word_lt(oldest_first(a), oldest_first(b)),
    ensures
        order::word_lt(newest_first(b), newest_first(a)),
{
    let x = oldest_first(a);
    let y = oldest_first(b);
    let v = newest_first(b);
    let w = newest_first(a);
    lemma_three(x, y);
    match (a, b) {
        (Some(s), Some(t)) => {
            assert(x[0] == y[0]);
            assert(x[1] < y[1] || (x[1] == y[1] && x[2] <= y[2]));
            let v1 = v.drop_first();
            let w1 = w.drop_first();
            assert(v1[0] == v[1] && w1[0] == w[1]);
            if x[1] == y[1] {
                if x[2] == y[2] {
                    assert(x =~= y);
                    order::lemma_word_total(x, y);
                }
                assert(v1.drop_first()[0] == v[2] && w1.drop_first()[0] == w[2]);
                assert(order::word_lt(v1.drop_first(), w1.drop_first()));
            }
            assert(order::word_lt(v1, w1));
        },
        (None, None) => {
            order::lemma_word_total(x, y);
        },
        _ => {},
    }
}

/// Dates as words tell dates apart.
proof fn lemma_dates_distinct(a: Option<Timestamp>, b: Option<Timestamp>)
    requires
        oldest_first(a) == oldest_first(b),
    ensures
        a == b,
{
    let x = oldest_first(a);
    let y = oldest_first(b);
    assert(x[0] == y[0]);
    if let (Some(s), Some(t)) = (a, b) {
        assert(x[1] == y[1] && x[2] == y[2]);
        assert(s.secs == t.secs);
        assert(s.nanos == t.nanos);
    }
}

/// With distinct dates, newest first is oldest first the other way round.
pub proof fn date_orders_are_mirrored(
    before: Seq<SearchResult>,
    oldest: Seq<SearchResult>,
    newest: Seq<SearchResult>,
)
    requires
        has_distinct_dates(before),
        before.len() <= usize::MAX,
        is_sorted(before, SortOrder::DateAsc, oldest),
        is_sorted(before, SortOrder::DateDesc, newest),
    ensures
        newest == oldest.reverse(),
{
    let mirrored = oldest.reverse();
    lemma_same_results(before, SortOrder::DateAsc, oldest);
    lemma_same_results(before, SortOrder::DateDesc, newest);
    lemma_distinct_dates_sorted(before, SortOrder::DateAsc, oldest);
    lemma_distinct_dates_sorted(before, SortOrder::DateDesc, newest);
    assert forall|i: int, j: int| 0 <= i < j < newest.len() implies order::key_lt(
        key_in(SortOrder::DateDesc)(#[trigger] newest[i]),
        key_in(SortOrder::DateDesc)(#[trigger] newest[j]),
    ) by {
        lemma_sorted_keys(before, SortOrder::DateDesc, newest, i, j);
        let a = result_key(newest[i], SortOrder::DateDesc);
        let b = result_key(newest[j], SortOrder::DateDesc);
        if a == b {
            assert(a[0] == b[0]);
            lemma_newest_distinct(newest[i].modified, newest[j].modified);
        }
    }
    assert forall|i: int, j: int| 0 <= i < j < mirrored.len() implies order::key_lt(
        key_in(SortOrder::DateDesc)(#[trigger] mirrored[i]),
        key_in(SortOrder::DateDesc)(#[trigger] mirrored[j]),
    ) by {
        let p = oldest.len() - 1 - i;
        let q = oldest.len() - 1 - j;
        assert(mirrored[i] == oldest[p] && mirrored[j] == oldest[q]);
        lemma_first_words(before, SortOrder::DateAsc, oldest, q, p);
        if oldest_first(oldest[q].modified) == oldest_first(oldest[p].modified) {
            lemma_dates_distinct(oldest[q].modified, oldest[p].modified);
        }
        lemma_dates_mirrored(oldest[q].modified, oldest[p].modified);
        let a = result_key(mirrored[i], SortOrder::DateDesc);
        let b = result_key(mirrored[j], SortOrder::DateDesc);
        assert(a[0] == newest_first(mirrored[i].modified));
        assert(b[0] == newest_first(mirrored[j].modified));
    }
    assert forall|x: SearchResult| #[trigger] newest.contains(x) <==> mirrored.contains(x) by {
        assert(newest.contains(x) <==> oldest.contains(x)) by {
            assert(newest.contains(x) <==> before.contains(x));
            assert(oldest.contains(x) <==> before.contains(x));
        }
        if oldest.contains(x) {
            let k = choose|k: int| 0 <= k < oldest.len() && oldest[k] == x;
            assert(mirrored[oldest.len() - 1 - k] == x);
        }
        if mirrored.contains(x) {
            let k = choose|k: int| 0 <= k < mirrored.len() && mirrored[k] == x;
            assert(oldest[oldest.len() - 1 - k] == x);
        }
    }
    order::sorted_items_are_unique(newest, mirrored, key_in(SortOrder::DateDesc));
}

/// Dates as words, later ones first, tell dates apart.
proof fn lemma_newest_distinct(a: Option<Timestamp>, b: Option<Timestamp>)
    requires
        newest_first(a) == newest_first(b),
    ensures
        a == b,
{
    let x = newest_first(a);
    let y = newest_first(b);
    assert(x[0] == y[0]);
    if let (Some(s), Some(t)) = (a, b) {
        assert(x[1] == y[1] && x[2] == y[2]);
        assert(s.secs == t.secs);
        assert(s.nanos == t.nanos);
    }
}

/// Sorting leaves dates distinct.
proof fn lemma_distinct_dates_sorted(
    before: Seq<SearchResult>,
    sort_order: SortOrder,
    after: Seq<SearchResult>,
)
    requires
        is_sorted(before, sort_order, after),
        has_distinct_dates(before),
    ensures
        has_distinct_dates(after),
{
    let keys = result_keys(before, sort_order);
    let order = choose|order: Seq<usize>| #[trigger]
        order::is_stable_order(keys, order) && after == arranged(before, order);
    order::stable_order_is_injective(keys, order);
    assert forall|i: int, j: int| 0 <= i < j < after.len() implies (#[trigger] after[i]).modified
        != (#[trigger] after[j]).modified by {
        let p = order[i] as int;
        let q = order[j] as int;
        assert(p != q);
        if p < q {
            assert(before[p].modified != before[q].modified);
        } else {
            assert(before[q].modified != before[p].modified);
        }
    }
}

/// Texts that agree up to index `k`, where the first ends or has the smaller character.
pub open spec fn texts_part_at(a: Seq<char>, b: Seq<char>, k: int) -> bool {
    &&& 0 <= k <= a.len()
    &&& k < b.len()
    &&& forall|m: int| 0 <= m < k ==> #[trigger] a[m] == b[m]
    &&& k == a.len() || a[k] < b[k]
}

/// A text is another, or is before it in the lexicographic order of characters.
pub open spec fn text_not_after(a: Seq<char>, b: Seq<char>) -> bool {
    a == b || exists|k: int| texts_part_at(a, b, k)
}

/// A character as a number is that character's number.
proof fn lemma_char_number(c: char)
    ensures
        c as u64 as int == c as int,
{
}

/// By name: files are in the alphabetic order of their names in lower case. At the first
/// character in which two names differ the earlier has the smaller one, or the earlier name
/// is the beginning of the later. Paths without a file name come first.
pub proof fn names_come_in_alphabetic_order(
    before: Seq<SearchResult>,
    after: Seq<SearchResult>,
    i: int,
    j: int,
)
    requires
        is_sorted(before, SortOrder::Name, after),
        0 <= i < j < after.len(),
    ensures
        path::name_of(after[j].file@) is None ==> path::name_of(after[i].file@) is None,
        (path::name_of(after[i].file@), path::name_of(after[j].file@)) matches (Some(a), Some(b))
            ==> text_not_after(
            folding::lowercase(text::text_of_bytes(a)),
            folding::lowercase(text::text_of_bytes(b)),
        ),
{
    lemma_first_words(before, SortOrder::Name, after, i, j);
    let x = first_word(after[i], SortOrder::Name);
    let y = first_word(after[j], SortOrder::Name);
    order::word_order_is_lexicographic(x, y);
    if let (Some(a), Some(b)) = (
        path::name_of(after[i].file@),
        path::name_of(after[j].file@),
    ) {
        let s = folding::lowercase(text::text_of_bytes(a));
        let t = folding::lowercase(text::text_of_bytes(b));
        assert(x.len() == s.len() + 1 && y.len() == t.len() + 1);
        assert forall|m: int| 0 <= m < s.len() implies x[m + 1] as int == #[trigger] s[m] as int by {
            lemma_char_number(s[m]);
        }
        assert forall|m: int| 0 <= m < t.len() implies y[m + 1] as int == #[trigger] t[m] as int by {
            lemma_char_number(t[m]);
        }
        if x == y {
            assert forall|m: int| 0 <= m < s.len() implies s[m] == t[m] by {
                assert(x[m + 1] == y[m + 1]);
            }
            assert(s =~= t);
        } else {
            let k = choose|k: int| order::parts_at(x, y, k);
            assert(x[0] == 1 && y[0] == 1);
            assert forall|m: int| 0 <= m < k - 1 implies #[trigger] s[m] == t[m] by {
                assert(x[m + 1] == y[m + 1]);
            }
            assert(texts_part_at(s, t, k - 1)) by {
                if k < x.len() {
                    assert(x[k] as int == s[k - 1] as int && y[k] as int == t[k - 1] as int);
                }
            }
        }
    } else if path::name_of(after[j].file@) is None {
        assert(y =~= seq![0u64]);
        if path::name_of(after[i].file@) is Some {
            assert(x[0] == 1);
            if x != y {
                let k = choose|k: int| order::parts_at(x, y, k);
                assert(k == 0);
            }
        }
    }
}

/// Results that stand alike in the chosen order: of one date, one name in lower case, or as
/// many matches.
pub open spec fn stand_alike(a: SearchResult, b: SearchResult, sort_order: SortOrder) -> bool {
    match sort_order {
        SortOrder::DateDesc | SortOrder::DateAsc => a.modified == b.modified,
        SortOrder::Name => match (path::name_of(a.file@), path::name_of(b.file@)) {
            (Some(s), Some(t)) => folding::lowercase(text::text_of_bytes(s)) == folding::lowercase(
                text::text_of_bytes(t),
            ),
            (None, None) => true,
            _ => false,
        },
        SortOrder::Matches => a.matches@.len() == b.matches@.len(),
    }
}

/// Among results that stand alike in the chosen order paths decide, whatever that order is.
pub proof fn equal_results_come_by_path(
    before: Seq<SearchResult>,
    sort_order: SortOrder,
    after: Seq<SearchResult>,
    i: int,
    j: int,
)
    requires
        is_sorted(before, sort_order, after),
        0 <= i < j < after.len(),
        stand_alike(after[i], after[j], sort_order),
    ensures
        path::path_key(after[i].file@) == path::path_key(after[j].file@) || order::key_lt(
            path::path_key(after[i].file@),
            path::path_key(after[j].file@),
        ),
{
    let keys = result_keys(before, sort_order);
    let order = choose|order: Seq<usize>| #[trigger]
        order::is_stable_order(keys, order) && after == arranged(before, order);
    assert(order::comes_before(keys, order[i] as int, order[j] as int));
    let a = result_key(after[i], sort_order);
    let b = result_key(after[j], sort_order);
    assert(keys[order[i] as int] == a);
    assert(keys[order[j] as int] == b);
    assert(a[0] == b[0]);
    order::lemma_word_total(a[0], b[0]);
    assert(a.drop_first() =~= path::path_key(after[i].file@));
    assert(b.drop_first() =~= path::path_key(after[j].file@));
}

} // verus!
