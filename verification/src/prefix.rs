//! Whether a text begins with a query, with any white space for white space.

use crate::folding;
use crate::text;
use vstd::prelude::*;
use vstd::utf8::*;

verus! {

/// The first index from `i` on at which a text has no white space.
pub open spec fn spaces_end(s: Seq<char>, i: int) -> int
    decreases s.len() - i,
{
    if 0 <= i < s.len() && text::is_white_space(s[i]) {
        spaces_end(s, i + 1)
    } else {
        i
    }
}

/// The lower case of a character of the text fits that of a character of the query: it is the
/// same, or has one character more at its end.
pub open spec fn fits_folded(t: Seq<char>, q: Seq<char>) -> bool {
    t == q || (q.len() > 0 && t.len() == q.len() + 1 && t.drop_last() == q)
}

/// A character of the text fits a character of the query.
pub open spec fn fits(t: char, q: char, ignore_case: bool) -> bool {
    if ignore_case {
        fits_folded(folding::lower_chars(t), folding::lower_chars(q))
    } else {
        t == q
    }
}

/// Where the part of the text from `i` on ends that the query from `j` on describes. A run
/// of white space in the query stands for any run of white space in the text.
pub open spec fn described_end(
    t: Seq<char>,
    i: int,
    q: Seq<char>,
    j: int,
    ignore_case: bool,
) -> Option<int>
    decreases q.len() - j,
{
    if j < 0 || j >= q.len() {
        Some(i)
    } else if text::is_white_space(q[j]) {
        proof {
            lemma_spaces_end(q, j);
        }
        if spaces_end(t, i) == i {
            None
        } else {
            described_end(t, spaces_end(t, i), q, spaces_end(q, j), ignore_case)
        }
    } else if i < t.len() && fits(t[i], q[j], ignore_case) {
        described_end(t, i + 1, q, j + 1, ignore_case)
    } else {
        None
    }
}

/// A run of white space does not end before it begins, and ends within the text.
pub proof fn lemma_spaces_end(s: Seq<char>, i: int)
    requires
        0 <= i <= s.len(),
    ensures
        i <= spaces_end(s, i) <= s.len(),
        i < s.len() && text::is_white_space(s[i]) ==> i < spaces_end(s, i),
    decreases s.len() - i,
{
    if i < s.len() && text::is_white_space(s[i]) {
        lemma_spaces_end(s, i + 1);
    }
}

/// The bytes at the beginning of a text that a query describes.
pub open spec fn described_bytes(t: Seq<char>, q: Seq<char>, ignore_case: bool) -> Option<nat> {
    match described_end(t, 0, q, 0, ignore_case) {
        Some(k) => Some(encode_utf8(t.take(k)).len()),
        None => None,
    }
}

fn skip_spaces(s: &[char], from: usize) -> (r: usize)
    requires
        from <= s@.len(),
    ensures
        r == spaces_end(s@, from as int),
        from <= r <= s@.len(),
{
    let mut i: usize = from;
    while i < s.len() && text::white_space(s[i])
        invariant
            from <= i <= s@.len(),
            spaces_end(s@, from as int) == spaces_end(s@, i as int),
        decreases s@.len() - i,
    {
        i = i + 1;
    }
    i
}

fn same_chars(a: &[char], b: &[char], n: usize) -> (r: bool)
    requires
        n <= a@.len(),
        n <= b@.len(),
    ensures
        r == (a@.take(n as int) == b@.take(n as int)),
{
    let mut i: usize = 0;
    while i < n
        invariant
            i <= n <= a@.len(),
            n <= b@.len(),
            forall|k: int| 0 <= k < i ==> a@[k] == b@[k],
        decreases n - i,
    {
        if a[i] != b[i] {
            assert(a@.take(n as int)[i as int] != b@.take(n as int)[i as int]);
            return false;
        }
        i = i + 1;
    }
    assert(a@.take(n as int) =~= b@.take(n as int));
    true
}

/// Whether the lower case of a character of the text fits that of one of the query.
pub fn folded_fit(t: &[char], q: &[char]) -> (r: bool)
    ensures
        r == fits_folded(t@, q@),
{
    let tn: usize = t.len();
    let qn: usize = q.len();
    assert(q@.take(qn as int) =~= q@);
    if tn == qn {
        assert(t@.take(tn as int) =~= t@);
        same_chars(t, q, qn)
    } else if qn > 0 && tn > qn && tn - qn == 1 {
        assert(t@.take(qn as int) =~= t@.drop_last());
        same_chars(t, q, qn)
    } else {
        false
    }
}

fn char_fits(t: char, q: char, ignore_case: bool) -> (r: bool)
    ensures
        r == fits(t, q, ignore_case),
{
    if ignore_case {
        let lowered_t = folding::char_to_lower(t);
        let lowered_q = folding::char_to_lower(q);
        folded_fit(lowered_t.as_slice(), lowered_q.as_slice())
    } else {
        t == q
    }
}

fn find_described_end(t: &[char], q: &[char], ignore_case: bool) -> (r: Option<usize>)
    ensures
        match r {
            Some(k) => described_end(t@, 0, q@, 0, ignore_case) == Some(k as int) && k <= t@.len(),
            None => described_end(t@, 0, q@, 0, ignore_case) is None,
        },
{
    let mut i: usize = 0;
    let mut j: usize = 0;
    while j < q.len()
        invariant
            i <= t@.len(),
            j <= q@.len(),
            described_end(t@, 0, q@, 0, ignore_case) == described_end(
                t@,
                i as int,
                q@,
                j as int,
                ignore_case,
            ),
        decreases q@.len() - j,
    {
        if text::white_space(q[j]) {
            proof {
                lemma_spaces_end(q@, j as int);
            }
            let next = skip_spaces(t, i);
            if next == i {
                return None;
            }
            i = next;
            j = skip_spaces(q, j);
        } else {
            if i < t.len() && char_fits(t[i], q[j], ignore_case) {
                i = i + 1;
                j = j + 1;
            } else {
                return None;
            }
        }
    }
    Some(i)
}

fn bytes_described(text_slice: &str, query: &str, ignore_case: bool) -> (r: Option<usize>)
    ensures
        match r {
            Some(n) => described_bytes(text_slice@, query@, ignore_case) == Some(n as nat),
            None => described_bytes(text_slice@, query@, ignore_case) is None,
        },
{
    let chars = text::chars_of(text_slice);
    let wanted = text::chars_of(query);
    match find_described_end(chars.as_slice(), wanted.as_slice(), ignore_case) {
        Some(k) => {
            let front = text::text_of(chars.as_slice(), 0, k);
            Some(text::byte_len(front.as_str()))
        },
        None => None,
    }
}

/// The number of bytes at the beginning of a text that a query describes, letter for letter.
pub fn starts_with_exact(text_slice: &str, query: &str) -> (r: Option<usize>)
    ensures
        match r {
            Some(n) => described_bytes(text_slice@, query@, false) == Some(n as nat),
            None => described_bytes(text_slice@, query@, false) is None,
        },
{
    bytes_described(text_slice, query, false)
}

/// The number of bytes at the beginning of a text that a query describes, in upper or lower
/// case.
pub fn starts_with_ignore_case(text_slice: &str, query: &str) -> (r: Option<usize>)
    ensures
        match r {
            Some(n) => described_bytes(text_slice@, query@, true) == Some(n as nat),
            None => described_bytes(text_slice@, query@, true) is None,
        },
{
    bytes_described(text_slice, query, true)
}

/// A text that fits a query letter for letter fits it in upper or lower case too, and the
/// same bytes of it do.
pub proof fn exact_prefix_is_folded_prefix(t: Seq<char>, q: Seq<char>)
    ensures
        described_bytes(t, q, false) matches Some(n) ==> described_bytes(t, q, true) == Some(n),
{
    lemma_exact_is_folded(t, 0, q, 0);
}

proof fn lemma_exact_is_folded(t: Seq<char>, i: int, q: Seq<char>, j: int)
    requires
        0 <= j <= q.len(),
    ensures
        described_end(t, i, q, j, false) matches Some(k) ==> described_end(t, i, q, j, true)
            == Some(k),
    decreases q.len() - j,
{
    if j < q.len() {
        if text::is_white_space(q[j]) {
            lemma_spaces_end(q, j);
            lemma_exact_is_folded(t, spaces_end(t, i), q, spaces_end(q, j));
        } else {
            lemma_exact_is_folded(t, i + 1, q, j + 1);
        }
    }
}

/// A text fits itself, all of it.
pub proof fn text_fits_itself(t: Seq<char>)
    ensures
        described_bytes(t, t, false) == Some(encode_utf8(t).len()),
{
    lemma_fits_itself(t, 0);
    assert(t.take(t.len() as int) =~= t);
}

proof fn lemma_fits_itself(t: Seq<char>, i: int)
    requires
        0 <= i <= t.len(),
    ensures
        described_end(t, i, t, i, false) == Some(t.len() as int),
    decreases t.len() - i,
{
    if i < t.len() {
        if text::is_white_space(t[i]) {
            lemma_spaces_end(t, i);
            lemma_fits_itself(t, spaces_end(t, i));
        } else {
            lemma_fits_itself(t, i + 1);
        }
    }
}

/// A run of white space ends at the same place where a text goes on behind a character that is
/// none.
proof fn lemma_spaces_within(a: Seq<char>, u: Seq<char>, i: int)
    requires
        0 <= i < a.len(),
        !text::is_white_space(a.last()),
    ensures
        spaces_end(a + u, i) == spaces_end(a, i),
        spaces_end(a, i) < a.len(),
    decreases a.len() - i,
{
    assert((a + u)[i] == a[i]);
    if text::is_white_space(a[i]) {
        assert(i < a.len() - 1);
        lemma_spaces_within(a, u, i + 1);
    }
}

/// A run of white space does not depend on what stands before it.
proof fn lemma_spaces_shift(x: Seq<char>, b: Seq<char>, i: int)
    requires
        0 <= i <= b.len(),
    ensures
        spaces_end(x + b, x.len() + i) == x.len() + spaces_end(b, i),
    decreases b.len() - i,
{
    if i < b.len() {
        assert((x + b)[x.len() + i] == b[i]);
        lemma_spaces_shift(x, b, i + 1);
    }
}

/// What a text and a query have in common at their beginning describes itself.
proof fn lemma_common_front(a: Seq<char>, u: Seq<char>, v: Seq<char>, i: int)
    requires
        0 <= i <= a.len(),
        a.len() > 0 ==> !text::is_white_space(a.last()),
    ensures
        described_end(a + u, i, a + v, i, false) == described_end(
            a + u,
            a.len() as int,
            a + v,
            a.len() as int,
            false,
        ),
    decreases a.len() - i,
{
    if i < a.len() {
        assert((a + u)[i] == a[i]);
        assert((a + v)[i] == a[i]);
        lemma_spaces_within(a, u, i);
        lemma_spaces_within(a, v, i);
        if text::is_white_space(a[i]) {
            lemma_spaces_end(a, i);
            lemma_common_front(a, u, v, spaces_end(a, i));
        } else {
            lemma_common_front(a, u, v, i + 1);
        }
    }
}

/// What a text and a query have in common behind different beginnings describes itself.
proof fn lemma_common_end(
    x: Seq<char>,
    y: Seq<char>,
    b: Seq<char>,
    rest: Seq<char>,
    i: int,
)
    requires
        0 <= i <= b.len(),
        b.len() > 0 ==> !text::is_white_space(b.last()),
    ensures
        described_end(x + (b + rest), x.len() + i, y + b, y.len() + i, false) == Some(
            (x.len() + b.len()) as int,
        ),
    decreases b.len() - i,
{
    if i < b.len() {
        assert((x + (b + rest))[x.len() + i] == b[i]);
        assert((y + b)[y.len() + i] == b[i]);
        lemma_spaces_shift(x, b + rest, i);
        lemma_spaces_shift(y, b, i);
        lemma_spaces_within(b, rest, i);
        if text::is_white_space(b[i]) {
            lemma_spaces_end(b, i);
            lemma_common_end(x, y, b, rest, spaces_end(b, i));
        } else {
            lemma_common_end(x, y, b, rest, i + 1);
        }
    }
}

proof fn lemma_gap_end(gap: Seq<char>, b: Seq<char>, i: int)
    requires
        0 <= i <= gap.len(),
        text::is_blank(gap),
        b.len() > 0,
        !text::is_white_space(b[0]),
    ensures
        spaces_end(gap + b, i) == gap.len(),
    decreases gap.len() - i,
{
    if i < gap.len() {
        assert((gap + b)[i] == gap[i]);
        lemma_gap_end(gap, b, i + 1);
    } else {
        assert((gap + b)[i] == b[0]);
    }
}

/// Any white space in a text fits any white space in a query: between what stands before and
/// behind it in both, one run does for another, and what follows in the text is left.
pub proof fn any_white_space_fits(
    a: Seq<char>,
    in_text: Seq<char>,
    in_query: Seq<char>,
    b: Seq<char>,
    rest: Seq<char>,
)
    requires
        a.len() > 0 ==> !text::is_white_space(a.last()),
        text::is_blank(in_text),
        in_text.len() > 0,
        text::is_blank(in_query),
        in_query.len() > 0,
        b.len() > 0,
        !text::is_white_space(b[0]),
        !text::is_white_space(b.last()),
    ensures
        described_bytes(a + in_text + b + rest, a + in_query + b, false) == Some(
            encode_utf8(a + in_text + b).len(),
        ),
{
    let t = a + in_text + b + rest;
    let q = a + in_query + b;
    let n = a.len() as int;
    let tail = b + rest;
    assert(t =~= a + (in_text + tail));
    assert(q =~= a + (in_query + b));
    lemma_common_front(a, in_text + tail, in_query + b, 0);
    assert(tail[0] == b[0]);
    assert(q[n] == in_query[0]);
    lemma_spaces_shift(a, in_text + tail, 0);
    lemma_spaces_shift(a, in_query + b, 0);
    lemma_gap_end(in_text, tail, 0);
    lemma_gap_end(in_query, b, 0);
    lemma_spaces_end(q, n);
    let x = a + in_text;
    let y = a + in_query;
    assert(t =~= x + tail);
    assert(q =~= y + b);
    lemma_common_end(x, y, b, rest, 0);
    assert(described_end(t, 0, q, 0, false) == Some((x.len() + b.len()) as int));
    assert(t.take((x.len() + b.len()) as int) =~= a + in_text + b);
}

/// A query without white space at its ends describes itself at the beginning of any text, and
/// describes nothing where the text differs in a character, or ends before the query does.
pub proof fn differences_do_not_fit(
    a: Seq<char>,
    x: char,
    y: char,
    u: Seq<char>,
    v: Seq<char>,
)
    requires
        a.len() > 0 ==> !text::is_white_space(a.last()),
        !text::is_white_space(y),
        x != y,
    ensures
        a.len() > 0 ==> described_bytes(a + u, a, false) == Some(encode_utf8(a).len()),
        described_bytes(a + (seq![x] + u), a + (seq![y] + v), false) is None,
        described_bytes(a, a + (seq![y] + v), false) is None,
{
    let nothing = Seq::<char>::empty();
    let n = a.len() as int;
    lemma_common_front(a, u, nothing, 0);
    assert(a + nothing =~= a);
    assert((a + u).take(n) =~= a);
    lemma_common_front(a, seq![x] + u, seq![y] + v, 0);
    assert((a + (seq![x] + u))[n] == x);
    assert((a + (seq![y] + v))[n] == y);
    lemma_common_front(a, nothing, seq![y] + v, 0);
}

/// In upper or lower case, characters fit where their lower cases are the same; that of the
/// text may have one character more.
pub proof fn cases_fit_by_lower_case(t: Seq<char>, q: Seq<char>, c: char)
    ensures
        fits_folded(q, q),
        q.len() > 0 ==> fits_folded(q.push(c), q),
        fits_folded(t, q) ==> t.len() == q.len() || t.len() == q.len() + 1,
        fits_folded(t, q) ==> q == t.take(q.len() as int),
        q.len() == 0 && t.len() > 0 ==> !fits_folded(t, q),
        t.len() > q.len() + 1 || t.len() < q.len() ==> !fits_folded(t, q),
{
    assert(q.push(c).drop_last() =~= q);
    if fits_folded(t, q) {
        if t.len() == q.len() {
            assert(t.take(q.len() as int) =~= t);
        } else {
            assert(t.take(q.len() as int) =~= t.drop_last());
        }
    }
}

/// Which characters fit: with the case of letters only the same, and without it those whose
/// lower cases fit.
pub proof fn characters_fit(t: char, q: char)
    ensures
        fits(t, q, false) <==> t == q,
        fits(t, q, true) <==> fits_folded(folding::lower_chars(t), folding::lower_chars(q)),
        fits(t, t, true),
{
}

proof fn lemma_gap_to_the_end(gap: Seq<char>, i: int)
    requires
        0 <= i <= gap.len(),
        text::is_blank(gap),
    ensures
        spaces_end(gap, i) == gap.len(),
    decreases gap.len() - i,
{
    if i < gap.len() {
        lemma_gap_to_the_end(gap, i + 1);
    }
}

/// White space at the end of a query wants white space in the text, and takes all of it that
/// stands there.
pub proof fn white_space_at_the_end_is_wanted(
    a: Seq<char>,
    in_text: Seq<char>,
    in_query: Seq<char>,
    rest: Seq<char>,
)
    requires
        a.len() > 0 ==> !text::is_white_space(a.last()),
        text::is_blank(in_text),
        text::is_blank(in_query),
        in_query.len() > 0,
        rest.len() > 0,
        !text::is_white_space(rest[0]),
    ensures
        in_text.len() > 0 ==> described_bytes(a + in_text + rest, a + in_query, false) == Some(
            encode_utf8(a + in_text).len(),
        ),
        described_bytes(a + rest, a + in_query, false) is None,
        described_bytes(a, a + in_query, false) is None,
{
    let n = a.len() as int;
    let q = a + in_query;
    let nothing = Seq::<char>::empty();
    assert(q[n] == in_query[0]);
    lemma_spaces_shift(a, in_query, 0);
    lemma_gap_to_the_end(in_query, 0);
    lemma_spaces_end(q, n);
    let t = a + in_text + rest;
    assert(t =~= a + (in_text + rest));
    lemma_common_front(a, in_text + rest, in_query, 0);
    lemma_spaces_shift(a, in_text + rest, 0);
    lemma_gap_end(in_text, rest, 0);
    let end = n + in_text.len();
    assert(described_end(t, end, q, q.len() as int, false) == Some(end));
    assert(t.take(end) =~= a + in_text);
    lemma_common_front(a, rest, in_query, 0);
    assert((a + rest)[n] == rest[0]);
    lemma_common_front(a, nothing, in_query, 0);
    assert(a + nothing =~= a);
}

} // verus!
