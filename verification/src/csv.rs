//! Search results as a table of comma-separated values.

use crate::numbers;
use crate::path;
use crate::results::SearchResult;
use vstd::prelude::*;

verus! {

/// A text with every quotation mark doubled.
pub open spec fn doubled_quotes(s: Seq<char>) -> Seq<char>
    decreases s.len(),
{
    if s.len() == 0 {
        Seq::empty()
    } else if s.last() == '"' {
        doubled_quotes(s.drop_last()).push('"').push('"')
    } else {
        doubled_quotes(s.drop_last()).push(s.last())
    }
}

/// A field: a text between quotation marks.
pub open spec fn field(s: Seq<char>) -> Seq<char> {
    seq!['"'] + doubled_quotes(s) + seq!['"']
}

/// The row of match `i` of a result.
pub open spec fn row(query: Seq<char>, result: SearchResult, i: int) -> Seq<char> {
    field(query) + seq![','] + field(path::path_text(result.file@)) + seq![','] + field(
        result.file_type@,
    ) + seq![','] + numbers::decimal((i + 1) as nat) + seq![','] + field(
        result.matches@[i].context@,
    ) + seq!['\n']
}

/// The rows of the first `n` matches of a result.
pub open spec fn rows_of(query: Seq<char>, result: SearchResult, n: int) -> Seq<char>
    decreases n,
{
    if n <= 0 {
        Seq::empty()
    } else {
        rows_of(query, result, n - 1) + row(query, result, n - 1)
    }
}

/// The rows of results.
pub open spec fn rows(query: Seq<char>, results: Seq<SearchResult>) -> Seq<char>
    decreases results.len(),
{
    if results.len() == 0 {
        Seq::empty()
    } else {
        rows(query, results.drop_last()) + rows_of(
            query,
            results.last(),
            results.last().matches@.len() as int,
        )
    }
}

/// The table of results: a byte order mark, a header, and one row for each match.
pub open spec fn table(query: Seq<char>, results: Seq<SearchResult>) -> Seq<char> {
    seq!['\u{feff}'] + "query,file,file_type,match_number,context\n"@ + rows(query, results)
}

fn push_field(out: &mut String, s: &str)
    ensures
        final(out)@ == old(out)@ + field(s@),
{
    out.push('"');
    let ghost start = out@;
    for c in it: s.chars()
        invariant
            it.seq() == s@,
            out@ == start + doubled_quotes(s@.take(it.index() as int)),
    {
        let ghost n = it.index() as int;
        assert(s@.take(n + 1).drop_last() =~= s@.take(n));
        if c == '"' {
            out.push('"');
        }
        out.push(c);
        assert(out@ =~= start + doubled_quotes(s@.take(n + 1)));
    }
    assert(s@.take(s@.len() as int) =~= s@);
    out.push('"');
    assert(out@ =~= old(out)@ + field(s@));
}

/// A field: a text between quotation marks, with the marks in it doubled.
pub fn csv_field(value: &str) -> (r: String)
    ensures
        r@ == field(value@),
{
    let mut r = String::new();
    push_field(&mut r, value);
    assert(r@ =~= field(value@));
    r
}

fn push_row(out: &mut String, query: &str, result: &SearchResult, i: usize)
    requires
        i < result.matches@.len(),
    ensures
        final(out)@ == old(out)@ + row(query@, *result, i as int),
{
    push_field(out, query);
    out.push(',');
    push_field(out, result.file.to_text().as_str());
    out.push(',');
    push_field(out, result.file_type.as_str());
    out.push(',');
    let count: usize = result.matches.len();
    assert(i < count);
    numbers::push_decimal(out, (i + 1) as u64);
    out.push(',');
    push_field(out, result.matches[i].context.as_str());
    out.push('\n');
    assert(out@ =~= old(out)@ + row(query@, *result, i as int));
}

fn push_rows(out: &mut String, query: &str, result: &SearchResult)
    ensures
        final(out)@ == old(out)@ + rows_of(query@, *result, result.matches@.len() as int),
{
    let mut i: usize = 0;
    assert(out@ =~= old(out)@ + rows_of(query@, *result, 0));
    while i < result.matches.len()
        invariant
            i <= result.matches@.len(),
            out@ == old(out)@ + rows_of(query@, *result, i as int),
        decreases result.matches@.len() - i,
    {
        push_row(out, query, result, i);
        i = i + 1;
        assert(out@ =~= old(out)@ + rows_of(query@, *result, i as int));
    }
}

/// The table of results as the contents of a file.
pub fn results_csv(query: &str, results: &Vec<SearchResult>) -> (r: String)
    ensures
        r@ == table(query@, results@),
{
    let mut r = String::new();
    r.push('\u{feff}');
    r.push_str("query,file,file_type,match_number,context\n");
    let ghost start = r@;
    let mut i: usize = 0;
    assert(r@ =~= start + rows(query@, results@.take(0)));
    while i < results.len()
        invariant
            i <= results@.len(),
            r@ == start + rows(query@, results@.take(i as int)),
        decreases results@.len() - i,
    {
        assert(results@.take(i + 1).drop_last() =~= results@.take(i as int));
        push_rows(&mut r, query, &results[i]);
        i = i + 1;
        assert(r@ =~= start + rows(query@, results@.take(i as int)));
    }
    assert(results@.take(i as int) =~= results@);
    assert(r@ =~= table(query@, results@));
    r
}

/// What a field with its marks doubled was: every pair of marks is one mark.
pub open spec fn undoubled(s: Seq<char>) -> Seq<char>
    decreases s.len(),
{
    if s.len() == 0 {
        Seq::empty()
    } else if s.last() == '"' && s.len() > 1 {
        undoubled(s.drop_last().drop_last()).push('"')
    } else {
        undoubled(s.drop_last()).push(s.last())
    }
}

/// A field can be read back: taking its quotation marks away, and one of every two within,
/// gives the text again.
pub proof fn field_can_be_read_back(s: Seq<char>)
    ensures
        undoubled(field(s).subrange(1, field(s).len() - 1)) == s,
{
    assert(field(s).subrange(1, field(s).len() - 1) =~= doubled_quotes(s));
    lemma_undoubled(s);
}

proof fn lemma_undoubled(s: Seq<char>)
    ensures
        undoubled(doubled_quotes(s)) == s,
    decreases s.len(),
{
    if s.len() > 0 {
        let front = s.drop_last();
        lemma_undoubled(front);
        let d = doubled_quotes(front);
        if s.last() == '"' {
            assert(d.push('"').push('"').drop_last().drop_last() =~= d);
        } else {
            assert(d.push(s.last()).drop_last() =~= d);
        }
        assert(s =~= front.push(s.last()));
    }
}

/// Quotation marks are doubled, and every other character stays as it is.
pub proof fn quotation_marks_are_doubled(a: Seq<char>, b: Seq<char>, c: char)
    ensures
        doubled_quotes(a + b) == doubled_quotes(a) + doubled_quotes(b),
        doubled_quotes(seq![c]) == if c == '"' {
            seq!['"', '"']
        } else {
            seq![c]
        },
    decreases b.len(),
{
    assert(seq![c].drop_last() =~= Seq::<char>::empty());
    assert(seq![c].last() == c);
    assert(doubled_quotes(seq![c].drop_last()) =~= Seq::<char>::empty());
    assert(doubled_quotes(seq![c]) =~= if c == '"' {
        seq!['"', '"']
    } else {
        seq![c]
    });
    if b.len() == 0 {
        assert(a + b =~= a);
        assert(doubled_quotes(a) + doubled_quotes(b) =~= doubled_quotes(a));
    } else {
        quotation_marks_are_doubled(a, b.drop_last(), c);
        assert((a + b).drop_last() =~= a + b.drop_last());
        assert((a + b).last() == b.last());
        assert(doubled_quotes(a + b) =~= doubled_quotes(a) + doubled_quotes(b));
    }
}

/// The rows of results are those of one result after the other, and the rows of a result those
/// of one match after the other: there is a row for every match, and no other.
pub proof fn every_match_has_a_row(
    query: Seq<char>,
    before: Seq<SearchResult>,
    result: SearchResult,
    n: int,
)
    requires
        n >= 0,
    ensures
        rows(query, Seq::empty()).len() == 0,
        rows(query, before.push(result)) == rows(query, before) + rows_of(
            query,
            result,
            result.matches@.len() as int,
        ),
        rows_of(query, result, 0).len() == 0,
        rows_of(query, result, n + 1) == rows_of(query, result, n) + row(query, result, n),
{
    assert(before.push(result).drop_last() =~= before);
}

/// A row holds the query, the path of the file, the type of the file, the number of the match
/// counted from one, and the text around it, with commas between them and a line end behind.
pub proof fn row_has_five_fields(query: Seq<char>, result: SearchResult, i: int)
    requires
        0 <= i < result.matches@.len(),
    ensures
        row(query, result, i) == csv_line(
            seq![
                field(query),
                field(path::path_text(result.file@)),
                field(result.file_type@),
                numbers::decimal((i + 1) as nat),
                field(result.matches@[i].context@),
            ],
        ),
{
    let cells = seq![
        field(query),
        field(path::path_text(result.file@)),
        field(result.file_type@),
        numbers::decimal((i + 1) as nat),
        field(result.matches@[i].context@),
    ];
    reveal_with_fuel(cells_joined, 6);
    assert(cells.drop_first()[0] == cells[1]);
    assert(cells.drop_first().drop_first()[0] == cells[2]);
    assert(cells.drop_first().drop_first().drop_first()[0] == cells[3]);
    assert(cells.drop_first().drop_first().drop_first().drop_first()[0] == cells[4]);
    assert(row(query, result, i) =~= csv_line(cells));
}

/// Cells with commas between them.
pub open spec fn cells_joined(cells: Seq<Seq<char>>) -> Seq<char>
    decreases cells.len(),
{
    if cells.len() == 0 {
        Seq::empty()
    } else if cells.len() == 1 {
        cells[0]
    } else {
        cells[0] + seq![','] + cells_joined(cells.drop_first())
    }
}

/// A line of cells.
pub open spec fn csv_line(cells: Seq<Seq<char>>) -> Seq<char> {
    cells_joined(cells).push('\n')
}

/// The table begins with a byte order mark and one line of headings, and rows follow.
pub proof fn table_begins_with_headings(query: Seq<char>, results: Seq<SearchResult>)
    ensures
        table(query, results) == seq!['\u{feff}'] + csv_line(
            seq!["query"@, "file"@, "file_type"@, "match_number"@, "context"@],
        ) + rows(query, results),
{
    reveal_strlit("query");
    reveal_strlit("file");
    reveal_strlit("file_type");
    reveal_strlit("match_number");
    reveal_strlit("context");
    reveal_strlit("query,file,file_type,match_number,context\n");
    let cells = seq!["query"@, "file"@, "file_type"@, "match_number"@, "context"@];
    reveal_with_fuel(cells_joined, 6);
    assert(cells.drop_first()[0] == cells[1]);
    assert(cells.drop_first().drop_first()[0] == cells[2]);
    assert(cells.drop_first().drop_first().drop_first()[0] == cells[3]);
    assert(cells.drop_first().drop_first().drop_first().drop_first()[0] == cells[4]);
    assert("query,file,file_type,match_number,context\n"@ =~= csv_line(cells));
}

/// A field stands between two quotation marks.
pub proof fn fields_stand_in_quotation_marks(s: Seq<char>)
    ensures
        field(s).len() == doubled_quotes(s).len() + 2,
        field(s)[0] == '"',
        field(s).last() == '"',
        field(s).subrange(1, field(s).len() - 1) == doubled_quotes(s),
{
    assert(field(s).subrange(1, field(s).len() - 1) =~= doubled_quotes(s));
}

} // verus!
