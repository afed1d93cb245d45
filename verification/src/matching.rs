//! Finding a query in a text.

use crate::boundary;
use crate::text;
use vstd::prelude::*;
use vstd::string::*;
use vstd::utf8::*;

verus! {

/// The number of matches up to which a file is searched.
pub const MAX_MATCHES_PER_FILE: usize = 200;

/// A match, shown by the text around it.
#[derive(Debug)]
pub struct Match {
    pub context: String,
}

/// A compiled pattern of the `regex` crate.
#[verifier::external_type_specification]
#[verifier::external_body]
pub struct ExRegex(regex::Regex);

/// The matches of a pattern that are still to come.
#[verifier::external_type_specification]
#[verifier::external_body]
pub struct ExMatches<'r, 'h>(regex::Matches<'r, 'h>);

/// Whether `regex::RegexBuilder` compiles a pattern.
pub uninterp spec fn compiles(pattern: Seq<char>, ignore_case: bool) -> bool;

/// The pattern that a regex was made from, and whether it ignores case.
pub uninterp spec fn made_from(re: regex::Regex) -> (Seq<char>, bool);

/// The byte ranges in which `regex::Regex::find_iter` finds a pattern in a text.
pub uninterp spec fn pattern_spans(
    pattern: Seq<char>,
    ignore_case: bool,
    haystack: Seq<char>,
) -> Seq<(int, int)>;

/// The byte ranges that an iterator has still to give.
pub uninterp spec fn pending_spans(matches: regex::Matches<'_, '_>) -> Seq<(int, int)>;

/// Byte ranges of a text, one after the other, that begin and end between characters.
pub open spec fn are_spans_of(spans: Seq<(int, int)>, bytes: Seq<u8>) -> bool {
    &&& forall|i: int|
        0 <= i < spans.len() ==> 0 <= (#[trigger] spans[i]).0 <= spans[i].1 <= bytes.len()
            && is_char_boundary(bytes, spans[i].0) && is_char_boundary(bytes, spans[i].1)
    &&& forall|i: int, j: int|
        0 <= i < j < spans.len() ==> (#[trigger] spans[i]).1 <= (#[trigger] spans[j]).0
}

/// Characters that have a meaning in a pattern.
pub open spec fn is_meta(c: char) -> bool {
    ||| c == '\\' || c == '.' || c == '+' || c == '*' || c == '?' || c == '(' || c == ')'
    ||| c == '|' || c == '[' || c == ']' || c == '{' || c == '}' || c == '^' || c == '$'
    ||| c == '#' || c == '&' || c == '-' || c == '~'
}

/// A text as a pattern that stands for it: with a backslash before each character that has a
/// meaning.
pub open spec fn escaped(s: Seq<char>) -> Seq<char>
    decreases s.len(),
{
    if s.len() == 0 {
        Seq::empty()
    } else if is_meta(s.last()) {
        escaped(s.drop_last()).push('\\').push(s.last())
    } else {
        escaped(s.drop_last()).push(s.last())
    }
}

/// Calls `regex::escape`. Trusted: it puts a backslash before each character that has a
/// meaning in a pattern, and nothing else.
#[verifier::external_body]
fn escape(s: &str) -> (r: String)
    ensures
        r@ == escaped(s@),
{
    regex::escape(s)
}

/// Calls `regex::RegexBuilder` with a pattern. Trusted: whether it compiles depends on the
/// pattern and on case alone, and the regex is that of the pattern.
#[verifier::external_body]
fn compile(pattern: &str, ignore_case: bool) -> (r: Option<regex::Regex>)
    ensures
        match r {
            Some(re) => compiles(pattern@, ignore_case) && made_from(re) == (pattern@, ignore_case),
            None => !compiles(pattern@, ignore_case),
        },
{
    regex::RegexBuilder::new(pattern).case_insensitive(ignore_case).build().ok()
}

/// Calls `regex::Regex::find_iter`. Trusted: the matches to come depend on the pattern, on
/// case and on the text alone. They do not overlap and come in order, and they begin and end
/// between characters of the text.
#[verifier::external_body]
fn start_matches<'r, 'h>(re: &'r regex::Regex, haystack: &'h str) -> (m: regex::Matches<'r, 'h>)
    ensures
        pending_spans(m) == pattern_spans(made_from(*re).0, made_from(*re).1, haystack@),
        are_spans_of(pending_spans(m), haystack.spec_bytes()),
{
    re.find_iter(haystack)
}

/// Calls `next` on a `regex::Matches`. Trusted: it gives the first of the matches to come,
/// by its `start` and `end`, and the others stay to come.
#[verifier::external_body]
fn next_match(m: &mut regex::Matches<'_, '_>) -> (r: Option<(usize, usize)>)
    ensures
        match r {
            Some((start, end)) => pending_spans(*old(m)).len() > 0 && pending_spans(*old(m))[0] == (
                start as int,
                end as int,
            ) && pending_spans(*final(m)) == pending_spans(*old(m)).drop_first(),
            None => pending_spans(*old(m)).len() == 0 && pending_spans(*final(m)).len() == 0,
        },
{
    m.next().map(|found| (found.start(), found.end()))
}

/// The first index from `i` on at which a text has white space.
pub open spec fn word_end(s: Seq<char>, i: int) -> int
    decreases s.len() - i,
{
    if 0 <= i < s.len() && !text::is_white_space(s[i]) {
        word_end(s, i + 1)
    } else {
        i
    }
}

/// The words of a text from `i` on: the runs between white space.
pub open spec fn words_from(s: Seq<char>, i: int) -> Seq<Seq<char>>
    decreases s.len() - i,
{
    if i < 0 || i >= s.len() {
        Seq::empty()
    } else if text::is_white_space(s[i]) {
        words_from(s, i + 1)
    } else {
        proof {
            lemma_word_end(s, i);
        }
        seq![s.subrange(i, word_end(s, i))] + words_from(s, word_end(s, i))
    }
}

/// The words of a text.
pub open spec fn words(s: Seq<char>) -> Seq<Seq<char>> {
    words_from(s, 0)
}

/// A word is not empty, and ends within the text.
pub proof fn lemma_word_end(s: Seq<char>, i: int)
    requires
        0 <= i <= s.len(),
    ensures
        i <= word_end(s, i) <= s.len(),
        i < s.len() && !text::is_white_space(s[i]) ==> i < word_end(s, i),
    decreases s.len() - i,
{
    if i < s.len() && !text::is_white_space(s[i]) {
        lemma_word_end(s, i + 1);
    }
}

/// A text without words is blank, and a blank text has no words.
proof fn lemma_no_words(s: Seq<char>, i: int)
    requires
        0 <= i <= s.len(),
    ensures
        words_from(s, i).len() == 0 <==> text::is_blank(s.skip(i)),
    decreases s.len() - i,
{
    if i < s.len() {
        if text::is_white_space(s[i]) {
            lemma_no_words(s, i + 1);
            assert(s.skip(i).drop_first() =~= s.skip(i + 1));
            if text::is_blank(s.skip(i)) {
                assert forall|k: int| 0 <= k < s.skip(i + 1).len() implies text::is_white_space(
                    #[trigger] s.skip(i + 1)[k],
                ) by {
                    assert(s.skip(i)[k + 1] == s.skip(i + 1)[k]);
                }
            }
            if text::is_blank(s.skip(i + 1)) {
                assert forall|k: int| 0 <= k < s.skip(i).len() implies text::is_white_space(
                    #[trigger] s.skip(i)[k],
                ) by {
                    if k > 0 {
                        assert(s.skip(i)[k] == s.skip(i + 1)[k - 1]);
                    }
                }
            }
        } else {
            assert(!text::is_white_space(s.skip(i)[0]));
        }
    }
}

/// The pattern of words: each as it stands, with white space between them.
pub open spec fn pattern_of(parts: Seq<Seq<char>>) -> Seq<char>
    decreases parts.len(),
{
    if parts.len() == 0 {
        Seq::empty()
    } else if parts.len() == 1 {
        escaped(parts[0])
    } else {
        pattern_of(parts.drop_last()) + "\\s+"@ + escaped(parts.last())
    }
}

/// The pattern that a query is searched by.
pub open spec fn search_pattern(query: Seq<char>) -> Seq<char> {
    pattern_of(words(query))
}

/// The byte ranges of a text in which a query is found, in order.
pub open spec fn query_spans(
    haystack: Seq<char>,
    query: Seq<char>,
    ignore_case: bool,
) -> Seq<(int, int)> {
    if text::is_blank(query) || !compiles(search_pattern(query), ignore_case) {
        Seq::empty()
    } else {
        pattern_spans(search_pattern(query), ignore_case, haystack)
    }
}

/// The first items of a list, up to a limit where there is one.
pub open spec fn limited<T>(items: Seq<T>, limit: Option<usize>) -> Seq<T> {
    match limit {
        Some(max) => if items.len() <= max {
            items
        } else {
            items.take(max as int)
        },
        None => items,
    }
}

/// Ranges as mathematical pairs.
pub open spec fn spans_view(spans: Seq<(usize, usize)>) -> Seq<(int, int)> {
    spans.map_values(|s: (usize, usize)| (s.0 as int, s.1 as int))
}

fn split_words(s: &[char]) -> (r: Vec<String>)
    ensures
        r@.map_values(|w: String| w@) == words(s@),
{
    let len: usize = s.len();
    let ghost view = |w: String| w@;
    let mut r: Vec<String> = Vec::new();
    let mut i: usize = 0;
    assert(r@.map_values(view) + words_from(s@, 0) =~= words(s@));
    while i < len
        invariant
            i <= len == s@.len(),
            view == (|w: String| w@),
            r@.map_values(view) + words_from(s@, i as int) == words(s@),
        decreases len - i,
    {
        if text::white_space(s[i]) {
            i = i + 1;
        } else {
            let mut end: usize = i;
            while end < len && !text::white_space(s[end])
                invariant
                    i <= end <= len == s@.len(),
                    word_end(s@, i as int) == word_end(s@, end as int),
                decreases len - end,
            {
                end = end + 1;
            }
            proof {
                lemma_word_end(s@, i as int);
            }
            let ghost before = r@.map_values(view);
            let word = text::text_of(s, i, end);
            let ghost added = word@;
            r.push(word);
            assert(r@.map_values(view) =~= before.push(added));
            assert(before + (seq![added] + words_from(s@, end as int)) =~= before.push(added)
                + words_from(s@, end as int));
            i = end;
        }
    }
    assert(words_from(s@, i as int) =~= Seq::empty());
    assert(r@.map_values(view) =~= words(s@));
    r
}

fn build_pattern(parts: &Vec<String>) -> (r: String)
    ensures
        r@ == pattern_of(parts@.map_values(|w: String| w@)),
{
    let ghost views = parts@.map_values(|w: String| w@);
    let mut r = String::new();
    let mut i: usize = 0;
    assert(views.take(0) =~= Seq::empty());
    while i < parts.len()
        invariant
            i <= parts@.len(),
            views == parts@.map_values(|w: String| w@),
            r@ == pattern_of(views.take(i as int)),
        decreases parts@.len() - i,
    {
        let ghost before = r@;
        if i > 0 {
            r.push_str("\\s+");
        }
        r.push_str(escape(parts[i].as_str()).as_str());
        assert(views.take(i + 1).drop_last() =~= views.take(i as int));
        assert(views.take(i + 1).last() == parts@[i as int]@);
        assert(r@ =~= pattern_of(views.take(i + 1)));
        i = i + 1;
    }
    assert(views.take(i as int) =~= views);
    r
}

/// The regex that finds a query; none for a blank query.
pub fn build_search_regex(query: &str, ignore_case: bool) -> (r: Option<regex::Regex>)
    ensures
        match r {
            Some(re) => !text::is_blank(query@) && compiles(search_pattern(query@), ignore_case)
                && made_from(re) == (search_pattern(query@), ignore_case),
            None => text::is_blank(query@) || !compiles(search_pattern(query@), ignore_case),
        },
{
    if text::blank(query) {
        return None;
    }
    let chars = text::chars_of(query);
    let parts = split_words(chars.as_slice());
    let pattern = build_pattern(&parts);
    compile(pattern.as_str(), ignore_case)
}

/// The byte ranges of a text in which a query is found, up to a limit.
pub fn find_match_spans_limit(
    text: &str,
    query: &str,
    ignore_case: bool,
    limit: Option<usize>,
) -> (r: Vec<(usize, usize)>)
    ensures
        spans_view(r@) == limited(query_spans(text@, query@, ignore_case), limit),
        are_spans_of(spans_view(r@), text.spec_bytes()),
{
    let mut spans: Vec<(usize, usize)> = Vec::new();
    let ghost all = query_spans(text@, query@, ignore_case);
    let re = match build_search_regex(query, ignore_case) {
        Some(re) => re,
        None => {
            assert(spans_view(spans@) =~= Seq::empty());
            assert(limited(all, limit) =~= Seq::empty());
            return spans;
        },
    };
    let mut matches = start_matches(&re, text);
    assert(pending_spans(matches) == all);
    let mut more = true;
    assert(all.take(0) =~= spans_view(spans@));
    assert(all.skip(0) =~= all);
    while more
        invariant
            spans@.len() <= all.len(),
            are_spans_of(all, text.spec_bytes()),
            pending_spans(matches) == all.skip(spans@.len() as int),
            spans_view(spans@) == all.take(spans@.len() as int),
            limit matches Some(max) ==> spans@.len() <= max,
            !more ==> spans@.len() == all.len() || (limit matches Some(max) && spans@.len() == max),
        decreases all.len() - spans@.len() + if more {
            1int
        } else {
            0int
        },
    {
        let full = match limit {
            Some(max) => spans.len() >= max,
            None => false,
        };
        if full {
            more = false;
        } else {
            let ghost n = spans@.len() as int;
            let ghost before = spans_view(spans@);
            match next_match(&mut matches) {
                Some((start, end)) => {
                    assert(all.skip(n)[0] == all[n]);
                    spans.push((start, end));
                    assert(all.skip(n).drop_first() =~= all.skip(n + 1));
                    assert(spans_view(spans@) =~= before.push((start as int, end as int)));
                    assert(all.take(n + 1) =~= all.take(n).push(all[n]));
                },
                None => {
                    more = false;
                },
            }
        }
    }
    assert(all.take(all.len() as int) =~= all);
    spans
}

/// The byte ranges of a text in which a query is found.
pub fn find_match_spans(text: &str, query: &str, ignore_case: bool) -> (r: Vec<(usize, usize)>)
    ensures
        spans_view(r@) == query_spans(text@, query@, ignore_case),
        are_spans_of(spans_view(r@), text.spec_bytes()),
{
    find_match_spans_limit(text, query, ignore_case, None)
}

/// A text with one space for each run of white space.
pub open spec fn collapsed(s: Seq<char>) -> Seq<char>
    decreases s.len(),
{
    if s.len() == 0 {
        Seq::empty()
    } else if !text::is_white_space(s.last()) {
        collapsed(s.drop_last()).push(s.last())
    } else if s.len() > 1 && text::is_white_space(s[s.len() - 2]) {
        collapsed(s.drop_last())
    } else {
        collapsed(s.drop_last()).push(' ')
    }
}

/// The text around a match: `size` bytes to each side, widened to whole characters, in one
/// line, with a mark where text was left out.
pub open spec fn is_context(
    bytes: Seq<u8>,
    span: (int, int),
    size: nat,
    context: Seq<char>,
) -> bool {
    exists|from: int, to: int| #[trigger]
        is_window(bytes, span, size, from, to) && context == window_text(bytes, from, to)
}

/// The range of bytes that is shown of a match.
pub open spec fn is_window(bytes: Seq<u8>, span: (int, int), size: nat, from: int, to: int) -> bool {
    &&& boundary::is_floor(
        bytes,
        if span.0 <= size {
            0
        } else {
            span.0 - size
        },
        from,
    )
    &&& boundary::is_ceil(bytes, span.1 + size, to)
}

/// A range of a text, in one line, with a mark where text was left out.
pub open spec fn window_text(bytes: Seq<u8>, from: int, to: int) -> Seq<char> {
    let front = if from > 0 {
        "… "@
    } else {
        Seq::empty()
    };
    let back = if to < bytes.len() {
        " …"@
    } else {
        Seq::empty()
    };
    front + collapsed(decode_utf8(bytes.subrange(from, to))) + back
}

fn push_collapsed(out: &mut String, s: &str)
    ensures
        final(out)@ == old(out)@ + collapsed(s@),
{
    let mut after_space = false;
    for c in it: s.chars()
        invariant
            it.seq() == s@,
            out@ == old(out)@ + collapsed(s@.take(it.index() as int)),
            after_space == (it.index() > 0 && text::is_white_space(s@[it.index() - 1])),
    {
        let ghost n = it.index() as int;
        assert(s@.take(n + 1).drop_last() =~= s@.take(n));
        assert(s@.take(n + 1).last() == c);
        assert(n > 0 ==> s@.take(n + 1)[n - 1] == s@[n - 1]);
        let ghost before = out@;
        if text::white_space(c) {
            if !after_space {
                out.push(' ');
                after_space = true;
            }
        } else {
            out.push(c);
            after_space = false;
        }
        assert(out@ =~= old(out)@ + collapsed(s@.take(n + 1)));
    }
    assert(s@.take(s@.len() as int) =~= s@);
}

/// The text around a match.
pub fn context_of(text: &str, start: usize, end: usize, context_size: usize) -> (r: String)
    requires
        start <= end <= text.spec_bytes().len(),
    ensures
        is_context(text.spec_bytes(), (start as int, end as int), context_size as nat, r@),
{
    let len: usize = text::byte_len(text);
    let low: usize = if start <= context_size {
        0
    } else {
        start - context_size
    };
    let high: usize = if context_size >= len - end {
        len
    } else {
        end + context_size
    };
    let from = boundary::floor_char_boundary(text, low);
    let to = boundary::ceil_char_boundary(text, high);
    let ghost bytes = text.spec_bytes();
    assert(from <= low <= high <= to) by {
        if low >= len {
            assert(low == len);
        }
    }
    let mut r = String::new();
    if from > 0 {
        r.push_str("… ");
    }
    push_collapsed(&mut r, boundary::slice(text, from, to));
    if to < len {
        r.push_str(" …");
    }
    assert(r@ =~= window_text(bytes, from as int, to as int));
    assert(is_window(
        bytes,
        (start as int, end as int),
        context_size as nat,
        from as int,
        to as int,
    ));
    r
}

/// The matches of a text: the contexts of byte ranges, in order.
pub open spec fn are_matches(
    bytes: Seq<u8>,
    spans: Seq<(int, int)>,
    size: nat,
    matches: Seq<Match>,
) -> bool {
    &&& matches.len() == spans.len()
    &&& forall|i: int|
        0 <= i < spans.len() ==> is_context(
            bytes,
            #[trigger] spans[i],
            size,
            (#[trigger] matches[i]).context@,
        )
}

/// The matches that byte ranges of a text show.
pub fn matches_of(text: &str, spans: &Vec<(usize, usize)>, context_size: usize) -> (r: Vec<Match>)
    requires
        are_spans_of(spans_view(spans@), text.spec_bytes()),
    ensures
        are_matches(text.spec_bytes(), spans_view(spans@), context_size as nat, r@),
{
    let ghost all = spans_view(spans@);
    let mut matches: Vec<Match> = Vec::new();
    let mut i: usize = 0;
    while i < spans.len()
        invariant
            i <= spans@.len(),
            all == spans_view(spans@),
            are_spans_of(all, text.spec_bytes()),
            matches@.len() == i,
            forall|k: int|
                0 <= k < i ==> is_context(
                    text.spec_bytes(),
                    #[trigger] all[k],
                    context_size as nat,
                    (#[trigger] matches@[k]).context@,
                ),
        decreases spans@.len() - i,
    {
        let (start, end) = spans[i];
        assert(all[i as int] == (start as int, end as int));
        let context = context_of(text, start, end, context_size);
        matches.push(Match { context });
        i = i + 1;
    }
    matches
}

/// The matches of a query in a text, up to a limit.
pub fn find_matches_limit(
    text: &str,
    query: &str,
    ignore_case: bool,
    context_size: usize,
    limit: Option<usize>,
) -> (r: Vec<Match>)
    ensures
        are_matches(
            text.spec_bytes(),
            limited(query_spans(text@, query@, ignore_case), limit),
            context_size as nat,
            r@,
        ),
{
    let spans = find_match_spans_limit(text, query, ignore_case, limit);
    matches_of(text, &spans, context_size)
}

/// The matches of a query in a text, up to the limit for one file.
pub fn find_matches(text: &str, query: &str, ignore_case: bool, context_size: usize) -> (r: Vec<
    Match,
>)
    ensures
        are_matches(
            text.spec_bytes(),
            limited(query_spans(text@, query@, ignore_case), Some(MAX_MATCHES_PER_FILE)),
            context_size as nat,
            r@,
        ),
{
    find_matches_limit(text, query, ignore_case, context_size, Some(MAX_MATCHES_PER_FILE))
}

/// Queries with the same words find the same: white space does no more than part words.
pub proof fn same_words_find_the_same(
    haystack: Seq<char>,
    one: Seq<char>,
    other: Seq<char>,
    ignore_case: bool,
)
    requires
        words(one) == words(other),
    ensures
        query_spans(haystack, one, ignore_case) == query_spans(haystack, other, ignore_case),
{
    lemma_no_words(one, 0);
    lemma_no_words(other, 0);
    assert(one.skip(0) =~= one);
    assert(other.skip(0) =~= other);
}

/// A blank query finds nothing.
pub proof fn blank_query_finds_nothing(haystack: Seq<char>, query: Seq<char>, ignore_case: bool)
    requires
        text::is_blank(query),
    ensures
        query_spans(haystack, query, ignore_case).len() == 0,
        words(query).len() == 0,
{
    lemma_no_words(query, 0);
    assert(query.skip(0) =~= query);
}

/// A smaller limit finds the beginning of what a larger one finds.
pub proof fn limits_keep_the_first<T>(items: Seq<T>, small: usize, large: Option<usize>)
    requires
        large matches Some(max) ==> small <= max,
    ensures
        limited(items, Some(small)).len() <= small,
        limited(items, Some(small)).is_prefix_of(limited(items, large)),
{
    assert(limited(items, Some(small)) =~= limited(items, large).take(
        limited(items, Some(small)).len() as int,
    ));
}

/// What is shown of a match holds the match.
pub proof fn window_holds_match(bytes: Seq<u8>, span: (int, int), size: nat, from: int, to: int)
    requires
        0 <= span.0 <= span.1 <= bytes.len(),
        is_window(bytes, span, size, from, to),
    ensures
        from <= span.0,
        span.1 <= to,
{
}

/// The text around a match is determined by the match.
pub proof fn context_is_unique(
    bytes: Seq<u8>,
    span: (int, int),
    size: nat,
    one: Seq<char>,
    other: Seq<char>,
)
    requires
        is_context(bytes, span, size, one),
        is_context(bytes, span, size, other),
    ensures
        one == other,
{
    let (from, to) = choose|from: int, to: int| #[trigger]
        is_window(bytes, span, size, from, to) && one == window_text(bytes, from, to);
    let (from2, to2) = choose|from: int, to: int| #[trigger]
        is_window(bytes, span, size, from, to) && other == window_text(bytes, from, to);
    let low = if span.0 <= size {
        0
    } else {
        span.0 - size
    };
    boundary::lemma_boundaries_unique(bytes, low, from, from2);
    boundary::lemma_boundaries_unique(bytes, span.1 + size, to, to2);
}

/// A context in one line has no two spaces in a row, and no white space but spaces.
pub proof fn collapsed_has_single_spaces(s: Seq<char>)
    ensures
        forall|i: int|
            0 <= i < collapsed(s).len() && text::is_white_space(#[trigger] collapsed(s)[i])
                ==> collapsed(s)[i] == ' ',
        forall|i: int|
            0 < i < collapsed(s).len() && #[trigger] collapsed(s)[i] == ' ' ==> collapsed(s)[i - 1]
                != ' ',
{
    lemma_collapsed(s);
}

proof fn lemma_collapsed(s: Seq<char>)
    ensures
        forall|i: int|
            0 <= i < collapsed(s).len() && text::is_white_space(#[trigger] collapsed(s)[i])
                ==> collapsed(s)[i] == ' ',
        forall|i: int|
            0 < i < collapsed(s).len() && #[trigger] collapsed(s)[i] == ' ' ==> collapsed(s)[i - 1]
                != ' ',
        s.len() > 0 ==> collapsed(s).len() > 0 && (collapsed(s).last() == ' '
            <==> text::is_white_space(s.last())),
    decreases s.len(),
{
    if s.len() > 0 {
        let front = s.drop_last();
        lemma_collapsed(front);
        if s.len() > 1 {
            assert(front.last() == s[s.len() - 2]);
        }
    }
}

/// The pattern of words grows word by word: between every two neighbours stands `\s+`, and
/// nothing else is added.
pub proof fn pattern_grows_word_by_word(parts: Seq<Seq<char>>, w: Seq<char>)
    ensures
        pattern_of(seq![w]) == escaped(w),
        parts.len() > 0 ==> pattern_of(parts.push(w)) == pattern_of(parts) + seq!['\\', 's', '+']
            + escaped(w),
{
    reveal_strlit("\\s+");
    assert("\\s+"@ =~= seq!['\\', 's', '+']);
    assert(parts.push(w).drop_last() =~= parts);
}

/// Texts are escaped letter by letter: a backslash is put before a character that has a
/// meaning in a pattern, and all others stand for themselves.
pub proof fn escaping_goes_letter_by_letter(a: Seq<char>, b: Seq<char>, c: char)
    ensures
        escaped(a + b) == escaped(a) + escaped(b),
        escaped(seq![c]) == if "\\.+*?()|[]{}^$#&-~"@.contains(c) {
            seq!['\\', c]
        } else {
            seq![c]
        },
    decreases b.len(),
{
    lemma_escaped_one(c);
    if b.len() == 0 {
        assert(a + b =~= a);
        assert(escaped(a) + escaped(b) =~= escaped(a));
    } else {
        escaping_goes_letter_by_letter(a, b.drop_last(), c);
        assert((a + b).drop_last() =~= a + b.drop_last());
        assert((a + b).last() == b.last());
        assert(escaped(a + b) =~= escaped(a) + escaped(b));
    }
}

proof fn lemma_escaped_one(c: char)
    ensures
        is_meta(c) <==> "\\.+*?()|[]{}^$#&-~"@.contains(c),
        escaped(seq![c]) == if is_meta(c) {
            seq!['\\', c]
        } else {
            seq![c]
        },
{
    reveal_strlit("\\.+*?()|[]{}^$#&-~");
    let metas = "\\.+*?()|[]{}^$#&-~"@;
    assert(metas[0] == '\\' && metas[1] == '.' && metas[2] == '+' && metas[3] == '*' && metas[4]
        == '?' && metas[5] == '(' && metas[6] == ')' && metas[7] == '|' && metas[8] == '['
        && metas[9] == ']' && metas[10] == '{' && metas[11] == '}' && metas[12] == '^'
        && metas[13] == '$' && metas[14] == '#' && metas[15] == '&' && metas[16] == '-'
        && metas[17] == '~');
    assert(seq![c].drop_last() =~= Seq::<char>::empty());
    assert(seq![c].last() == c);
    assert(escaped(seq![c].drop_last()) =~= Seq::<char>::empty());
    assert(escaped(seq![c]) =~= if is_meta(c) {
        seq!['\\', c]
    } else {
        seq![c]
    });
}

/// The words of a text do not depend on what stands before it.
proof fn lemma_words_shift(front: Seq<char>, s: Seq<char>, i: int)
    requires
        0 <= i <= s.len(),
    ensures
        word_end(front + s, front.len() + i) == front.len() + word_end(s, i),
        words_from(front + s, front.len() + i) == words_from(s, i),
    decreases s.len() - i,
{
    let all = front + s;
    if i < s.len() {
        assert(all[front.len() + i] == s[i]);
        lemma_words_shift(front, s, i + 1);
        if !text::is_white_space(s[i]) {
            lemma_word_end(s, i);
            let end = word_end(s, i);
            assert(word_end(all, front.len() + i) == front.len() + end);
            lemma_words_shift(front, s, end);
            assert(all.subrange(front.len() + i, front.len() + end) =~= s.subrange(i, end));
        }
    }
}

/// A word ends at the same place where nothing or white space follows.
proof fn lemma_word_within(s: Seq<char>, rest: Seq<char>, i: int)
    requires
        0 <= i <= s.len(),
        rest.len() > 0 ==> text::is_white_space(rest[0]),
    ensures
        word_end(s + rest, i) == word_end(s, i),
    decreases s.len() - i,
{
    if i < s.len() {
        assert((s + rest)[i] == s[i]);
        lemma_word_within(s, rest, i + 1);
    } else if rest.len() > 0 {
        assert((s + rest)[i] == rest[0]);
    }
}

proof fn lemma_words_within(s: Seq<char>, rest: Seq<char>, i: int)
    requires
        0 <= i <= s.len(),
        rest.len() > 0 ==> text::is_white_space(rest[0]),
    ensures
        words_from(s + rest, i) == words_from(s, i) + words_from(rest, 0),
    decreases s.len() - i,
{
    let all = s + rest;
    if i == s.len() {
        lemma_words_shift(s, rest, 0);
        assert(words_from(s, i) + words_from(rest, 0) =~= words_from(rest, 0));
    } else {
        assert(all[i] == s[i]);
        if text::is_white_space(s[i]) {
            lemma_words_within(s, rest, i + 1);
        } else {
            lemma_word_within(s, rest, i);
            lemma_word_end(s, i);
            let end = word_end(s, i);
            lemma_words_within(s, rest, end);
            assert(all.subrange(i, end) =~= s.subrange(i, end));
            assert(words_from(all, i) =~= words_from(s, i) + words_from(rest, 0));
        }
    }
}

proof fn lemma_words_of_gap(gap: Seq<char>, s: Seq<char>, i: int)
    requires
        0 <= i <= gap.len(),
        text::is_blank(gap),
    ensures
        words_from(gap + s, i) == words(s),
    decreases gap.len() - i,
{
    if i < gap.len() {
        assert((gap + s)[i] == gap[i]);
        lemma_words_of_gap(gap, s, i + 1);
    } else {
        lemma_words_shift(gap, s, 0);
    }
}

/// White space parts words, and does no more: the words of two texts with white space between
/// them are the words of the one and then those of the other. A run of other characters is one
/// word.
pub proof fn white_space_parts_words(
    a: Seq<char>,
    gap: Seq<char>,
    b: Seq<char>,
    w: Seq<char>,
)
    requires
        text::is_blank(gap),
        gap.len() > 0,
        w.len() > 0,
        forall|i: int| 0 <= i < w.len() ==> !text::is_white_space(#[trigger] w[i]),
    ensures
        words(a + gap + b) == words(a) + words(b),
        words(gap).len() == 0,
        words(w) == seq![w],
{
    assert(a + gap + b =~= a + (gap + b));
    assert((gap + b)[0] == gap[0]);
    lemma_words_within(a, gap + b, 0);
    lemma_words_of_gap(gap, b, 0);
    lemma_no_words(gap, 0);
    assert(gap.skip(0) =~= gap);
    lemma_one_word(w, 0);
    assert(w.subrange(0, w.len() as int) =~= w);
    assert(words_from(w, w.len() as int) =~= Seq::<Seq<char>>::empty());
    assert(words(w) =~= seq![w]);
}

proof fn lemma_one_word(w: Seq<char>, i: int)
    requires
        0 <= i <= w.len(),
        forall|i: int| 0 <= i < w.len() ==> !text::is_white_space(#[trigger] w[i]),
    ensures
        word_end(w, i) == w.len(),
    decreases w.len() - i,
{
    if i < w.len() {
        lemma_one_word(w, i + 1);
    }
}

/// A text is what a pattern describes. Of the language of patterns this knows what queries
/// need: `\s+` is one white space character or more, a backslash before any other character
/// stands for that character, and all else stands for itself.
pub open spec fn is_described(pattern: Seq<char>, t: Seq<char>) -> bool
    decreases pattern.len() + t.len(),
{
    if pattern.len() == 0 {
        t.len() == 0
    } else if t.len() == 0 {
        false
    } else if pattern.len() >= 3 && pattern[0] == '\\' && pattern[1] == 's' && pattern[2] == '+' {
        text::is_white_space(t[0]) && (is_described(pattern.skip(3), t.skip(1)) || is_described(
            pattern,
            t.skip(1),
        ))
    } else if pattern[0] == '\\' {
        pattern.len() >= 2 && t[0] == pattern[1] && is_described(pattern.skip(2), t.skip(1))
    } else {
        t[0] == pattern[0] && is_described(pattern.skip(1), t.skip(1))
    }
}

/// An escaped text describes itself and nothing else.
proof fn lemma_escaped_describes(w: Seq<char>, pattern: Seq<char>, t: Seq<char>)
    ensures
        is_described(escaped(w) + pattern, t) <==> w.len() <= t.len() && t.take(w.len() as int) == w
            && is_described(pattern, t.skip(w.len() as int)),
    decreases w.len(),
{
    if w.len() == 0 {
        assert(escaped(w) + pattern =~= pattern);
        assert(t.skip(0) =~= t);
        assert(t.take(0) =~= w);
    } else {
        let c = w[0];
        let rest = w.drop_first();
        let one = seq![c];
        assert(w =~= one + rest);
        escaping_goes_letter_by_letter(one, rest, c);
        lemma_escaped_one(c);
        let whole = escaped(w) + pattern;
        let after = escaped(rest) + pattern;
        if t.len() > 0 {
            lemma_escaped_describes(rest, pattern, t.skip(1));
            if is_meta(c) {
                assert(whole[0] == '\\' && whole[1] == c);
                assert(whole.skip(2) =~= after);
            } else {
                assert(whole[0] == c);
                assert(whole.skip(1) =~= after);
            }
            assert(is_described(whole, t) <==> t[0] == c && is_described(after, t.skip(1)));
            if w.len() <= t.len() {
                assert(t.skip(1).skip(rest.len() as int) =~= t.skip(w.len() as int));
                if t.take(w.len() as int) == w {
                    assert(t.take(w.len() as int)[0] == w[0]);
                    assert(t.skip(1).take(rest.len() as int) =~= rest) by {
                        assert forall|k: int| 0 <= k < rest.len() implies t.skip(1)[k] == rest[k] by {
                            assert(t.take(w.len() as int)[k + 1] == w[k + 1]);
                        }
                    }
                }
                if t[0] == c && t.skip(1).take(rest.len() as int) == rest {
                    assert(t.take(w.len() as int) =~= w) by {
                        assert forall|k: int| 0 <= k < w.len() implies t[k] == w[k] by {
                            if k > 0 {
                                assert(t.skip(1).take(rest.len() as int)[k - 1] == rest[k - 1]);
                            }
                        }
                    }
                }
            }
        }
    }
}

/// What follows `\s+` describes what follows some white space.
proof fn lemma_gap_describes(pattern: Seq<char>, t: Seq<char>)
    ensures
        is_described(seq!['\\', 's', '+'] + pattern, t) <==> t.len() > 0 && text::is_white_space(t[0])
            && (is_described(pattern, t.skip(1)) || is_described(
            seq!['\\', 's', '+'] + pattern,
            t.skip(1),
        )),
{
    let whole = seq!['\\', 's', '+'] + pattern;
    assert(whole[0] == '\\' && whole[1] == 's' && whole[2] == '+');
    assert(whole.skip(3) =~= pattern);
}

/// The pattern of words, from the front.
proof fn lemma_pattern_front(w: Seq<char>, rest: Seq<Seq<char>>)
    requires
        rest.len() > 0,
    ensures
        pattern_of(seq![w] + rest) == escaped(w) + (seq!['\\', 's', '+'] + pattern_of(rest)),
    decreases rest.len(),
{
    let all = seq![w] + rest;
    let front = rest.drop_last();
    let last = rest.last();
    assert(rest =~= front.push(last));
    pattern_grows_word_by_word(front, last);
    if front.len() == 0 {
        assert(rest =~= seq![last]);
        assert(all =~= seq![w].push(last));
        pattern_grows_word_by_word(seq![w], last);
        pattern_grows_word_by_word(seq![w], w);
    } else {
        lemma_pattern_front(w, front);
        assert(all =~= (seq![w] + front).push(last));
        pattern_grows_word_by_word(seq![w] + front, last);
    }
    assert(pattern_of(all) =~= escaped(w) + (seq!['\\', 's', '+'] + pattern_of(rest)));
}

/// The first word of a text that begins with one, and what follows it.
proof fn lemma_first_word(t: Seq<char>)
    requires
        t.len() > 0,
        !text::is_white_space(t[0]),
    ensures
        0 < word_end(t, 0) <= t.len(),
        word_end(t, 0) < t.len() ==> text::is_white_space(t[word_end(t, 0)]),
        forall|k: int| 0 <= k < word_end(t, 0) ==> !text::is_white_space(#[trigger] t[k]),
        words(t) == seq![t.take(word_end(t, 0))] + words(t.skip(word_end(t, 0))),
{
    lemma_word_end(t, 0);
    lemma_end_of_word(t, 0);
    let end = word_end(t, 0);
    assert(t =~= t.take(end) + t.skip(end));
    lemma_words_shift(t.take(end), t.skip(end), 0);
    assert(t.subrange(0, end) =~= t.take(end));
}

proof fn lemma_end_of_word(t: Seq<char>, i: int)
    requires
        0 <= i <= t.len(),
    ensures
        word_end(t, i) < t.len() ==> text::is_white_space(t[word_end(t, i)]),
        forall|k: int| i <= k < word_end(t, i) ==> !text::is_white_space(#[trigger] t[k]),
    decreases t.len() - i,
{
    if i < t.len() && !text::is_white_space(t[i]) {
        lemma_end_of_word(t, i + 1);
    }
}

/// A text that begins and ends with no white space.
pub open spec fn is_trimmed(t: Seq<char>) -> bool {
    t.len() > 0 && !text::is_white_space(t[0]) && !text::is_white_space(t.last())
}

/// The pattern of the words of a text describes that text.
proof fn lemma_words_described(t: Seq<char>)
    requires
        is_trimmed(t),
    ensures
        is_described(pattern_of(words(t)), t),
    decreases t.len(), 1int,
{
    lemma_first_word(t);
    let end = word_end(t, 0);
    let w = t.take(end);
    let rest = t.skip(end);
    if end == t.len() {
        assert(rest =~= Seq::<char>::empty());
        assert(words(rest) =~= Seq::<Seq<char>>::empty());
        assert(words(t) =~= seq![w]);
        pattern_grows_word_by_word(seq![w], w);
        lemma_escaped_describes(w, Seq::empty(), t);
        assert(escaped(w) + Seq::<char>::empty() =~= escaped(w));
    } else {
        assert(rest[0] == t[end]);
        assert(rest.last() == t.last());
        lemma_gap_described(rest);
        lemma_pattern_front(w, words(rest));
        lemma_escaped_describes(w, seq!['\\', 's', '+'] + pattern_of(words(rest)), t);
    }
}

proof fn lemma_gap_described(t: Seq<char>)
    requires
        t.len() > 0,
        text::is_white_space(t[0]),
        !text::is_white_space(t.last()),
    ensures
        words(t).len() > 0,
        is_described(seq!['\\', 's', '+'] + pattern_of(words(t)), t),
    decreases t.len(), 0int,
{
    let rest = t.skip(1);
    assert(t =~= seq![t[0]] + rest);
    lemma_words_of_gap(seq![t[0]], rest, 0);
    assert(words(t) == words(rest));
    assert(rest.len() > 0);
    assert(rest.last() == t.last());
    lemma_gap_describes(pattern_of(words(t)), t);
    if text::is_white_space(rest[0]) {
        lemma_gap_described(rest);
    } else {
        lemma_words_described(rest);
        lemma_first_word(rest);
    }
}

/// What the pattern of words describes has these words.
proof fn lemma_described_words(parts: Seq<Seq<char>>, t: Seq<char>)
    requires
        parts.len() > 0,
        forall|i: int| 0 <= i < parts.len() ==> is_word(#[trigger] parts[i]),
        is_described(pattern_of(parts), t),
    ensures
        words(t) == parts,
        is_trimmed(t),
    decreases parts.len(), 1int, t.len(),
{
    let w = parts[0];
    let rest = parts.drop_first();
    assert(parts =~= seq![w] + rest);
    assert(is_word(w));
    let after = if rest.len() == 0 {
        Seq::empty()
    } else {
        seq!['\\', 's', '+'] + pattern_of(rest)
    };
    if rest.len() == 0 {
        assert(parts =~= seq![w]);
        pattern_grows_word_by_word(parts, w);
        assert(escaped(w) + after =~= escaped(w));
    } else {
        lemma_pattern_front(w, rest);
    }
    lemma_escaped_describes(w, after, t);
    let n = w.len() as int;
    let tail = t.skip(n);
    assert(t =~= w + tail);
    assert(t[0] == w[0]);
    white_space_parts_words(w, seq![' '], w, w);
    if rest.len() == 0 {
        assert(tail.len() == 0);
        assert(t =~= w);
        assert(t.last() == w[w.len() - 1]);
    } else {
        assert forall|i: int| 0 <= i < rest.len() implies is_word(#[trigger] rest[i]) by {
            assert(rest[i] == parts[i + 1]);
        }
        lemma_described_gap(rest, tail);
        lemma_words_within(w, tail, 0);
        assert(words(t) =~= parts);
        assert(t.last() == tail.last());
    }
}

proof fn lemma_described_gap(parts: Seq<Seq<char>>, t: Seq<char>)
    requires
        parts.len() > 0,
        forall|i: int| 0 <= i < parts.len() ==> is_word(#[trigger] parts[i]),
        is_described(seq!['\\', 's', '+'] + pattern_of(parts), t),
    ensures
        words(t) == parts,
        t.len() > 1,
        text::is_white_space(t[0]),
        !text::is_white_space(t.last()),
    decreases parts.len(), 2int, t.len(),
{
    lemma_gap_describes(pattern_of(parts), t);
    let rest = t.skip(1);
    if is_described(pattern_of(parts), rest) {
        lemma_described_words(parts, rest);
    } else {
        lemma_described_gap(parts, rest);
    }
    assert(t =~= seq![t[0]] + rest);
    lemma_words_of_gap(seq![t[0]], rest, 0);
    assert(t.last() == rest.last());
}

/// A word: one character or more, none of them white space.
pub open spec fn is_word(w: Seq<char>) -> bool {
    w.len() > 0 && forall|i: int| 0 <= i < w.len() ==> !text::is_white_space(#[trigger] w[i])
}

proof fn lemma_words_are_words(s: Seq<char>, i: int)
    requires
        0 <= i <= s.len(),
    ensures
        forall|k: int| 0 <= k < words_from(s, i).len() ==> is_word(#[trigger] words_from(s, i)[k]),
    decreases s.len() - i,
{
    if i < s.len() {
        if text::is_white_space(s[i]) {
            lemma_words_are_words(s, i + 1);
            assert(words_from(s, i) == words_from(s, i + 1));
        } else {
            lemma_word_end(s, i);
            lemma_end_of_word(s, i);
            let end = word_end(s, i);
            lemma_words_are_words(s, end);
            let rest = words_from(s, end);
            assert forall|k: int| 0 <= k < words_from(s, i).len() implies is_word(
                #[trigger] words_from(s, i)[k],
            ) by {
                if k == 0 {
                    let w = s.subrange(i, end);
                    assert(words_from(s, i)[0] == w);
                    assert forall|m: int| 0 <= m < w.len() implies !text::is_white_space(
                        #[trigger] w[m],
                    ) by {
                        assert(w[m] == s[i + m]);
                    }
                } else {
                    assert(words_from(s, i)[k] == rest[k - 1]);
                }
            }
        }
    }
}

/// A query is looked for word by word, with any white space between its words: its pattern
/// describes exactly the texts that have the same words, all of them in order, and neither
/// begin nor end with white space.
pub proof fn query_describes_its_words_in_any_spacing(query: Seq<char>, t: Seq<char>)
    requires
        !text::is_blank(query),
    ensures
        is_described(search_pattern(query), t) <==> words(t) == words(query) && t.len() > 0
            && !text::is_white_space(t[0]) && !text::is_white_space(t.last()),
{
    lemma_no_words(query, 0);
    assert(query.skip(0) =~= query);
    lemma_words_are_words(query, 0);
    if is_described(search_pattern(query), t) {
        lemma_described_words(words(query), t);
    }
    if words(t) == words(query) && is_trimmed(t) {
        lemma_words_described(t);
    }
}

/// A query of which more is typed: white space and a further word add `\s+` and that word to
/// its pattern, however many words it had.
pub proof fn further_words_extend_the_pattern(query: Seq<char>, gap: Seq<char>, w: Seq<char>)
    requires
        !text::is_blank(query),
        text::is_blank(gap),
        gap.len() > 0,
        is_word(w),
    ensures
        search_pattern(query + gap + w) == search_pattern(query) + seq!['\\', 's', '+'] + escaped(w),
        search_pattern(w) == escaped(w),
{
    white_space_parts_words(query, gap, w, w);
    lemma_no_words(query, 0);
    assert(query.skip(0) =~= query);
    pattern_grows_word_by_word(words(query), w);
    assert(words(query) + seq![w] =~= words(query).push(w));
}

/// A list is cut behind as many items as its limit, and not cut without one. In one file up
/// to 200 matches are looked for.
pub proof fn limits_cut_the_end<T>(items: Seq<T>, max: usize, i: int)
    ensures
        limited(items, None) == items,
        limited(items, Some(max)).len() == if items.len() < max {
            items.len() as int
        } else {
            max as int
        },
        0 <= i < limited(items, Some(max)).len() ==> limited(items, Some(max))[i] == items[i],
        MAX_MATCHES_PER_FILE == 200,
{
}

/// Nothing is found for a blank query, and for another what its pattern finds, with the case
/// of letters as chosen, where that pattern can be compiled.
pub proof fn queries_are_found_by_their_pattern(
    haystack: Seq<char>,
    query: Seq<char>,
    ignore_case: bool,
)
    requires
        !text::is_blank(query),
    ensures
        compiles(search_pattern(query), ignore_case) ==> query_spans(haystack, query, ignore_case)
            == pattern_spans(search_pattern(query), ignore_case, haystack),
        !compiles(search_pattern(query), ignore_case) ==> query_spans(
            haystack,
            query,
            ignore_case,
        ).len() == 0,
{
}

/// What is shown of a match reaches `size` bytes to each side where a character begins there,
/// and to the ends of the text where these are nearer.
pub proof fn window_reaches_to_each_side(
    bytes: Seq<u8>,
    span: (int, int),
    size: nat,
    from: int,
    to: int,
)
    requires
        0 <= span.0 <= span.1 <= bytes.len(),
        is_window(bytes, span, size, from, to),
        is_char_boundary(bytes, 0),
    ensures
        span.0 <= size ==> from == 0,
        span.0 > size ==> from <= span.0 - size,
        span.0 > size && is_char_boundary(bytes, span.0 - size) ==> from == span.0 - size,
        span.1 + size >= bytes.len() ==> to == bytes.len(),
        span.1 + size < bytes.len() ==> to >= span.1 + size,
        span.1 + size < bytes.len() && is_char_boundary(bytes, span.1 + size) ==> to == span.1
            + size,
        forall|k: int|
            from < k <= span.0 - size || span.1 + size <= k < to ==> !#[trigger] is_char_boundary(
                bytes,
                k,
            ),
{
}

/// The context of a match is the text of its window, in one line: with a mark at each end
/// behind which text was left out, and none at an end of the text.
pub proof fn context_marks_what_is_left_out(bytes: Seq<u8>, from: int, to: int)
    requires
        0 <= from <= to <= bytes.len(),
    ensures
        ({
            let shown = collapsed(decode_utf8(bytes.subrange(from, to)));
            let front = seq!['…', ' '];
            let back = seq![' ', '…'];
            &&& from == 0 && to == bytes.len() ==> window_text(bytes, from, to) == shown
            &&& from > 0 && to == bytes.len() ==> window_text(bytes, from, to) == front + shown
            &&& from == 0 && to < bytes.len() ==> window_text(bytes, from, to) == shown + back
            &&& from > 0 && to < bytes.len() ==> window_text(bytes, from, to) == front + shown
                + back
        }),
{
    reveal_strlit("… ");
    reveal_strlit(" …");
    let shown = collapsed(decode_utf8(bytes.subrange(from, to)));
    assert("… "@ =~= seq!['…', ' ']);
    assert(" …"@ =~= seq![' ', '…']);
    assert(Seq::<char>::empty() + shown + Seq::<char>::empty() =~= shown);
    assert(Seq::<char>::empty() + shown + seq![' ', '…'] =~= shown + seq![' ', '…']);
    assert(seq!['…', ' '] + shown + Seq::<char>::empty() =~= seq!['…', ' '] + shown);
}

/// A text in one line keeps all that is no white space, and has one space for each run of
/// white space: texts that do not meet in white space are put in one line one by one, a run of
/// white space becomes a space, and a text without white space stays as it is.
pub proof fn lines_are_joined_by_single_spaces(
    a: Seq<char>,
    b: Seq<char>,
    gap: Seq<char>,
    w: Seq<char>,
)
    requires
        a.len() == 0 || b.len() == 0 || !text::is_white_space(a.last()) || !text::is_white_space(
            b[0],
        ),
        gap.len() > 0,
        text::is_blank(gap),
        forall|i: int| 0 <= i < w.len() ==> !text::is_white_space(#[trigger] w[i]),
    ensures
        collapsed(a + b) == collapsed(a) + collapsed(b),
        collapsed(gap) == seq![' '],
        collapsed(w) == w,
{
    lemma_collapsed_join(a, b);
    lemma_collapsed_gap(gap);
    lemma_collapsed_word(w);
}

proof fn lemma_collapsed_join(a: Seq<char>, b: Seq<char>)
    requires
        a.len() == 0 || b.len() == 0 || !text::is_white_space(a.last()) || !text::is_white_space(
            b[0],
        ),
    ensures
        collapsed(a + b) == collapsed(a) + collapsed(b),
    decreases b.len(),
{
    let all = a + b;
    if b.len() == 0 {
        assert(all =~= a);
        assert(collapsed(a) + collapsed(b) =~= collapsed(a));
    } else if a.len() == 0 {
        assert(all =~= b);
        assert(collapsed(a) + collapsed(b) =~= collapsed(b));
    } else {
        lemma_collapsed_join(a, b.drop_last());
        assert(all.drop_last() =~= a + b.drop_last());
        assert(all.last() == b.last());
        if b.len() > 1 {
            assert(all[all.len() - 2] == b[b.len() - 2]);
        } else {
            assert(all[all.len() - 2] == a.last());
        }
        assert(collapsed(all) =~= collapsed(a) + collapsed(b));
    }
}

proof fn lemma_collapsed_gap(gap: Seq<char>)
    requires
        gap.len() > 0,
        text::is_blank(gap),
    ensures
        collapsed(gap) == seq![' '],
    decreases gap.len(),
{
    assert(text::is_white_space(gap[gap.len() - 1]));
    if gap.len() > 1 {
        assert forall|i: int| 0 <= i < gap.drop_last().len() implies text::is_white_space(
            #[trigger] gap.drop_last()[i],
        ) by {
            assert(gap.drop_last()[i] == gap[i]);
        }
        lemma_collapsed_gap(gap.drop_last());
        assert(text::is_white_space(gap[gap.len() - 2]));
    } else {
        assert(collapsed(gap.drop_last()) =~= Seq::<char>::empty());
        assert(collapsed(gap) =~= seq![' ']);
    }
}

proof fn lemma_collapsed_word(w: Seq<char>)
    requires
        forall|i: int| 0 <= i < w.len() ==> !text::is_white_space(#[trigger] w[i]),
    ensures
        collapsed(w) == w,
    decreases w.len(),
{
    if w.len() > 0 {
        assert(!text::is_white_space(w[w.len() - 1]));
        lemma_collapsed_word(w.drop_last());
        assert(w.drop_last().push(w.last()) =~= w);
    } else {
        assert(collapsed(w) =~= w);
    }
}

/// The context of a match is the text of its window, and of no other range.
pub proof fn context_is_the_text_of_the_window(
    bytes: Seq<u8>,
    span: (int, int),
    size: nat,
    from: int,
    to: int,
    context: Seq<char>,
)
    requires
        is_window(bytes, span, size, from, to),
    ensures
        is_context(bytes, span, size, context) <==> context == window_text(bytes, from, to),
{
    let own = window_text(bytes, from, to);
    assert(is_context(bytes, span, size, own)) by {
        assert(is_window(bytes, span, size, from, to));
    }
    if is_context(bytes, span, size, context) {
        context_is_unique(bytes, span, size, context, own);
    }
}

/// Each match has the context of its own range, in the order of the ranges.
pub proof fn matches_stand_for_their_ranges(
    bytes: Seq<u8>,
    spans: Seq<(int, int)>,
    size: nat,
    matches: Seq<Match>,
    i: int,
)
    requires
        are_matches(bytes, spans, size, matches),
    ensures
        matches.len() == spans.len(),
        0 <= i < spans.len() ==> is_context(bytes, spans[i], size, matches[i].context@),
{
}

} // verus!
