//! Where files are: what the user types, and what is shown.

use crate::path;
use crate::path::FilePath;
use crate::text;
use vstd::prelude::*;
use vstd::string::*;
use vstd::utf8::*;

verus! {

/// What is trimmed from the ends of a text: quotation marks, or white space.
pub open spec fn is_trimmed(c: char, quotes: bool) -> bool {
    if quotes {
        c == '\'' || c == '"'
    } else {
        text::is_white_space(c)
    }
}

/// A text without quotation marks, or white space, at its ends.
pub open spec fn trimmed(s: Seq<char>, quotes: bool) -> Seq<char>
    decreases s.len(),
{
    if s.len() == 0 {
        s
    } else if is_trimmed(s[0], quotes) {
        trimmed(s.drop_first(), quotes)
    } else if is_trimmed(s.last(), quotes) {
        trimmed(s.drop_last(), quotes)
    } else {
        s
    }
}

fn trims(c: char, quotes: bool) -> (r: bool)
    ensures
        r == is_trimmed(c, quotes),
{
    if quotes {
        c == '\'' || c == '"'
    } else {
        text::white_space(c)
    }
}

fn trim_range(s: &[char], from: usize, to: usize, quotes: bool) -> (r: (usize, usize))
    requires
        from <= to <= s@.len(),
    ensures
        r.0 <= r.1 <= s@.len(),
        trimmed(s@.subrange(from as int, to as int), quotes) == s@.subrange(
            r.0 as int,
            r.1 as int,
        ),
{
    let mut a: usize = from;
    let mut b: usize = to;
    let ghost all = s@.subrange(from as int, to as int);
    while a < b && trims(s[a], quotes)
        invariant
            from <= a <= b == to <= s@.len(),
            trimmed(all, quotes) == trimmed(s@.subrange(a as int, b as int), quotes),
        decreases b - a,
    {
        let ghost now = s@.subrange(a as int, b as int);
        assert(now[0] == s@[a as int]);
        assert(now.drop_first() =~= s@.subrange(a + 1, b as int));
        a = a + 1;
    }
    assert(a == b || !is_trimmed(s@.subrange(a as int, b as int)[0], quotes));
    while a < b && trims(s[b - 1], quotes)
        invariant
            from <= a <= b <= to <= s@.len(),
            a == b || !is_trimmed(s@[a as int], quotes),
            trimmed(all, quotes) == trimmed(s@.subrange(a as int, b as int), quotes),
        decreases b - a,
    {
        let ghost now = s@.subrange(a as int, b as int);
        assert(now[0] == s@[a as int]);
        assert(now.last() == s@[b - 1]);
        assert(now.drop_last() =~= s@.subrange(a as int, b - 1));
        b = b - 1;
    }
    let ghost now = s@.subrange(a as int, b as int);
    assert(trimmed(now, quotes) == now) by {
        if a < b {
            assert(now[0] == s@[a as int]);
            assert(now.last() == s@[b - 1]);
        }
    }
    (a, b)
}

/// A text without white space at its ends.
pub fn trim(s: &str) -> (r: String)
    ensures
        r@ == trimmed(s@, false),
{
    let chars = text::chars_of(s);
    assert(chars@.subrange(0, chars@.len() as int) =~= s@);
    let (a, b) = trim_range(chars.as_slice(), 0, chars.len(), false);
    text::text_of(chars.as_slice(), a, b)
}

/// What the user typed for a directory, without white space and quotation marks around it.
pub open spec fn typed_text(input: Seq<char>) -> Seq<char> {
    trimmed(trimmed(input, false), true)
}

/// The path that the user typed, given the home directory: `~` stands for it. Where nothing
/// was typed there is none.
pub open spec fn typed_path(input: Seq<char>, home: Seq<u8>) -> Option<Seq<u8>> {
    let t = typed_text(input);
    if t.len() == 0 {
        None
    } else if t == "~"@ {
        Some(home)
    } else if "~/"@.is_prefix_of(t) || "~\\"@.is_prefix_of(t) {
        Some(path::joined(home, encode_utf8(t.skip(2))))
    } else {
        Some(encode_utf8(t))
    }
}

/// The directory that the user means, given the canonical form of the path that was typed,
/// where it has one. Where nothing was typed it is the current directory.
pub open spec fn resolved_path(
    input: Seq<char>,
    home: Seq<u8>,
    canonical: Option<Seq<u8>>,
) -> Seq<u8> {
    match typed_path(input, home) {
        None => ".".spec_bytes(),
        Some(p) => path::cleaned(
            match canonical {
                Some(c) => c,
                None => p,
            },
        ),
    }
}

/// The path that the user typed. Where nothing was typed there is none.
pub fn typed_directory(input: &str, home: &FilePath) -> (r: Option<FilePath>)
    ensures
        match r {
            Some(p) => typed_path(input@, home@) == Some(p@),
            None => typed_path(input@, home@) is None,
        },
{
    let chars = text::chars_of(input);
    assert(chars@.subrange(0, chars@.len() as int) =~= input@);
    let (a, b) = trim_range(chars.as_slice(), 0, chars.len(), false);
    let (c, d) = trim_range(chars.as_slice(), a, b, true);
    let t = text::text_of(chars.as_slice(), c, d);
    if c == d {
        return None;
    }
    proof {
        reveal_strlit("~/");
        reveal_strlit("~\\");
    }
    if text::same_text(t.as_str(), "~") {
        Some(home.duplicate())
    } else if text::begins_with(t.as_str(), "~/") || text::begins_with(t.as_str(), "~\\") {
        let rest = text::text_of(chars.as_slice(), c + 2, d);
        assert(rest@ =~= t@.skip(2));
        Some(home.join(&FilePath::from_text(rest.as_str())))
    } else {
        Some(FilePath::from_text(t.as_str()))
    }
}

/// The path of an optional path.
pub open spec fn path_option(p: Option<FilePath>) -> Option<Seq<u8>> {
    match p {
        Some(p) => Some(p@),
        None => None,
    }
}

/// The directory that the user means. `canonical` is the canonical form of the typed path,
/// where it has one.
pub fn resolve_directory_path(input: &str, home: &FilePath, canonical: Option<FilePath>) -> (r:
    FilePath)
    ensures
        r@ == resolved_path(input@, home@, path_option(canonical)),
{
    match typed_directory(input, home) {
        None => FilePath::from_text("."),
        Some(p) => match canonical {
            Some(c) => path::clean_path(c),
            None => path::clean_path(p),
        },
    }
}

/// A path, cut at its front to a number of characters.
pub open spec fn truncated(s: Seq<char>, max: nat) -> Seq<char> {
    if s.len() <= max {
        s
    } else if max <= 3 {
        "..."@
    } else {
        "..."@ + s.skip(s.len() - (max - 3))
    }
}

/// Cuts a path at its front, so that it has a number of characters.
pub fn truncate_path(path_str: &str, max_chars: usize) -> (r: String)
    ensures
        r@ == truncated(path_str@, max_chars as nat),
{
    let chars = text::chars_of(path_str);
    let len: usize = chars.len();
    if len <= max_chars {
        return path_str.to_owned();
    }
    let keep: usize = if max_chars <= 3 {
        0
    } else {
        max_chars - 3
    };
    let suffix = text::text_of(chars.as_slice(), len - keep, len);
    let mut r = "...".to_owned();
    r.push_str(suffix.as_str());
    assert(r@ =~= truncated(path_str@, max_chars as nat));
    r
}

/// A path that is cut fits, unless not even the dots do, and ends as the path does.
pub proof fn truncated_path_fits(s: Seq<char>, max: nat)
    requires
        max >= 3,
    ensures
        truncated(s, max).len() <= max,
        s.len() > max ==> truncated(s, max).len() == max && truncated(s, max).skip(3)
            == s.skip(s.len() - (max - 3)),
{
    reveal_strlit("...");
    if s.len() > max {
        assert(truncated(s, max).skip(3) =~= s.skip(s.len() - (max - 3)));
    }
}

/// Bytes that stand for themselves in a URI.
pub open spec fn is_plain(b: u8) -> bool {
    ||| 0x61 <= b <= 0x7a
    ||| 0x41 <= b <= 0x5a
    ||| 0x30 <= b <= 0x39
    ||| b == 0x2d || b == 0x5f || b == 0x2e || b == 0x7e || b == 0x2f
}

/// A digit in base sixteen, in upper case.
pub open spec fn hex_char(n: int) -> char {
    if n < 10 {
        (0x30 + n) as char
    } else {
        (0x41 + (n - 10)) as char
    }
}

/// A byte in a URI.
pub open spec fn uri_text(b: u8) -> Seq<char> {
    if is_plain(b) {
        seq![b as char]
    } else {
        seq!['%', hex_char(b as int / 16), hex_char(b as int % 16)]
    }
}

/// Bytes in a URI.
pub open spec fn uri_chars(s: Seq<u8>) -> Seq<char>
    decreases s.len(),
{
    if s.len() == 0 {
        Seq::empty()
    } else {
        uri_chars(s.drop_last()) + uri_text(s.last())
    }
}

/// The URI of a path.
pub open spec fn file_uri(p: Seq<u8>) -> Seq<char> {
    "file://"@ + uri_chars(encode_utf8(path::path_text(p)))
}

fn hex_digit(n: u8) -> (c: char)
    requires
        n < 16,
    ensures
        c == hex_char(n as int),
{
    if n < 10 {
        (0x30 + n) as char
    } else {
        (0x41 + (n - 10)) as char
    }
}

/// The URI of a path.
pub fn path_to_file_uri(file: &FilePath) -> (r: String)
    ensures
        r@ == file_uri(file@),
{
    let t = file.to_text();
    let b = t.as_str().as_bytes();
    let mut uri = "file://".to_owned();
    let mut i: usize = 0;
    assert(uri@ =~= "file://"@ + uri_chars(b@.take(0)));
    while i < b.len()
        invariant
            i <= b@.len(),
            uri@ == "file://"@ + uri_chars(b@.take(i as int)),
        decreases b@.len() - i,
    {
        let c: u8 = b[i];
        assert(b@.take(i + 1).drop_last() =~= b@.take(i as int));
        let ghost before = uri@;
        if (0x61 <= c && c <= 0x7a) || (0x41 <= c && c <= 0x5a) || (0x30 <= c && c <= 0x39) || c
            == 0x2d || c == 0x5f || c == 0x2e || c == 0x7e || c == 0x2f {
            uri.push(c as char);
            assert(uri@ =~= before + uri_text(c));
        } else {
            uri.push('%');
            uri.push(hex_digit(c / 16));
            uri.push(hex_digit(c % 16));
            assert(uri@ =~= before + uri_text(c));
        }
        assert(uri@ =~= "file://"@ + uri_chars(b@.take(i + 1)));
        i = i + 1;
    }
    assert(b@.take(i as int) =~= b@);
    uri
}

/// Different texts have different URIs.
pub proof fn uris_tell_paths_apart(a: Seq<u8>, b: Seq<u8>)
    requires
        file_uri(a) == file_uri(b),
    ensures
        path::path_text(a) == path::path_text(b),
{
    let x = encode_utf8(path::path_text(a));
    let y = encode_utf8(path::path_text(b));
    assert(uri_chars(x) =~= file_uri(a).skip("file://"@.len() as int));
    assert(uri_chars(y) =~= file_uri(b).skip("file://"@.len() as int));
    lemma_uri_injective(x, y);
    encode_utf8_decode_utf8(path::path_text(a));
    encode_utf8_decode_utf8(path::path_text(b));
}

/// The URI of bytes begins with that of the first byte.
proof fn lemma_uri_front(x: Seq<u8>)
    requires
        x.len() > 0,
    ensures
        uri_chars(x) == uri_text(x[0]) + uri_chars(x.drop_first()),
    decreases x.len(),
{
    if x.len() == 1 {
        assert(x.drop_last() =~= Seq::empty());
        assert(x.drop_first() =~= Seq::empty());
        assert(uri_chars(x) =~= uri_text(x[0]) + uri_chars(x.drop_first()));
    } else {
        lemma_uri_front(x.drop_last());
        assert(x.drop_last().drop_first() =~= x.drop_first().drop_last());
        assert(uri_chars(x) =~= uri_text(x[0]) + (uri_chars(x.drop_first().drop_last()) + uri_text(
            x.last(),
        )));
    }
}

/// What a byte is in a URI tells it from every other byte.
proof fn lemma_uri_text(a: u8, b: u8, rest_a: Seq<char>, rest_b: Seq<char>)
    requires
        uri_text(a) + rest_a == uri_text(b) + rest_b,
    ensures
        a == b,
        rest_a == rest_b,
{
    let all = uri_text(a) + rest_a;
    let other = uri_text(b) + rest_b;
    assert(all[0] == uri_text(a)[0]);
    assert(other[0] == uri_text(b)[0]);
    assert(is_plain(a) ==> uri_text(a)[0] != '%');
    assert(is_plain(b) ==> uri_text(b)[0] != '%');
    if !is_plain(a) {
        assert(all[1] == uri_text(a)[1] && all[2] == uri_text(a)[2]);
        assert(other[1] == uri_text(b)[1] && other[2] == uri_text(b)[2]);
        assert(a as int / 16 == b as int / 16);
        assert(a as int % 16 == b as int % 16);
    }
    assert(rest_a =~= all.skip(uri_text(a).len() as int));
    assert(rest_b =~= other.skip(uri_text(b).len() as int));
}

proof fn lemma_uri_injective(x: Seq<u8>, y: Seq<u8>)
    requires
        uri_chars(x) == uri_chars(y),
    ensures
        x == y,
    decreases x.len(),
{
    if x.len() > 0 {
        lemma_uri_front(x);
    }
    if y.len() > 0 {
        lemma_uri_front(y);
    }
    if x.len() == 0 || y.len() == 0 {
        assert(x.len() > 0 ==> uri_chars(x).len() >= uri_text(x[0]).len() > 0);
        assert(y.len() > 0 ==> uri_chars(y).len() >= uri_text(y[0]).len() > 0);
        assert(x =~= y);
    } else {
        lemma_uri_text(x[0], y[0], uri_chars(x.drop_first()), uri_chars(y.drop_first()));
        lemma_uri_injective(x.drop_first(), y.drop_first());
        assert(x =~= seq![x[0]] + x.drop_first());
        assert(y =~= seq![y[0]] + y.drop_first());
    }
}

/// The value of a digit in base sixteen.
pub open spec fn hex_value(c: char) -> Option<int> {
    if '0' <= c <= '9' {
        Some(c as int - 0x30)
    } else if 'A' <= c <= 'F' {
        Some(c as int - 0x41 + 10)
    } else if 'a' <= c <= 'f' {
        Some(c as int - 0x61 + 10)
    } else {
        None
    }
}

/// The bytes that percent-encoded characters stand for; `None` where these are not encoded
/// well.
pub open spec fn percent_decoded(t: Seq<char>) -> Option<Seq<u8>>
    decreases t.len(),
{
    if t.len() == 0 {
        Some(Seq::empty())
    } else if t[0] == '%' {
        if t.len() < 3 {
            None
        } else {
            match (hex_value(t[1]), hex_value(t[2]), percent_decoded(t.skip(3))) {
                (Some(high), Some(low), Some(rest)) => Some(
                    seq![(high * 16 + low) as u8] + rest,
                ),
                _ => None,
            }
        }
    } else if t[0] as u32 > 0x7f {
        None
    } else {
        match percent_decoded(t.skip(1)) {
            Some(rest) => Some(seq![t[0] as u8] + rest),
            None => None,
        }
    }
}

/// The bytes of the path that the URI of a file names.
pub open spec fn uri_path(uri: Seq<char>) -> Option<Seq<u8>> {
    if "file://"@.is_prefix_of(uri) {
        percent_decoded(uri.skip("file://"@.len() as int))
    } else {
        None
    }
}

proof fn lemma_uri_decoded(x: Seq<u8>)
    ensures
        percent_decoded(uri_chars(x)) == Some(x),
    decreases x.len(),
{
    if x.len() == 0 {
        assert(x =~= Seq::empty());
    } else {
        let b = x[0];
        let t = uri_chars(x);
        let rest = uri_chars(x.drop_first());
        lemma_uri_front(x);
        lemma_uri_decoded(x.drop_first());
        assert(t[0] == uri_text(b)[0]);
        assert(x =~= seq![b] + x.drop_first());
        if is_plain(b) {
            assert(t.skip(1) =~= rest);
        } else {
            assert(t[1] == hex_char(b as int / 16));
            assert(t[2] == hex_char(b as int % 16));
            assert(t.skip(3) =~= rest);
        }
    }
}

/// The URI of a path gives its text back, and so the path itself where that is text.
pub proof fn uri_gives_path_back(p: Seq<u8>)
    ensures
        uri_path(file_uri(p)) == Some(encode_utf8(path::path_text(p))),
        valid_utf8(p) ==> uri_path(file_uri(p)) == Some(p),
{
    let x = encode_utf8(path::path_text(p));
    assert(file_uri(p).skip("file://"@.len() as int) =~= uri_chars(x));
    assert(file_uri(p).take("file://"@.len() as int) =~= "file://"@);
    lemma_uri_decoded(x);
    if valid_utf8(p) {
        decode_utf8_encode_utf8(p);
    }
}

/// Trimming takes characters from both ends, and only such as are trimmed: quotation marks, or
/// white space. What is left begins and ends with others, and stands as it stood.
pub proof fn trimming_takes_both_ends(
    front: Seq<char>,
    t: Seq<char>,
    back: Seq<char>,
    quotes: bool,
)
    requires
        forall|i: int|
            0 <= i < front.len() ==> if quotes {
                #[trigger] front[i] == '\'' || front[i] == '"'
            } else {
                text::is_white_space(front[i])
            },
        forall|i: int|
            0 <= i < back.len() ==> if quotes {
                #[trigger] back[i] == '\'' || back[i] == '"'
            } else {
                text::is_white_space(back[i])
            },
        t.len() > 0 ==> if quotes {
            t[0] != '\'' && t[0] != '"' && t.last() != '\'' && t.last() != '"'
        } else {
            !text::is_white_space(t[0]) && !text::is_white_space(t.last())
        },
    ensures
        trimmed(front + t + back, quotes) == t,
    decreases front.len() + back.len(),
{
    let s = front + t + back;
    if front.len() > 0 {
        assert(s[0] == front[0]);
        assert(s.drop_first() =~= front.drop_first() + t + back);
        assert forall|i: int| 0 <= i < front.drop_first().len() implies if quotes {
            #[trigger] front.drop_first()[i] == '\'' || front.drop_first()[i] == '"'
        } else {
            text::is_white_space(front.drop_first()[i])
        } by {
            assert(front.drop_first()[i] == front[i + 1]);
        }
        trimming_takes_both_ends(front.drop_first(), t, back, quotes);
    } else if t.len() == 0 {
        if back.len() > 0 {
            assert(s[0] == back[0]);
            assert(s.drop_first() =~= front + t + back.drop_first());
            assert forall|i: int| 0 <= i < back.drop_first().len() implies if quotes {
                #[trigger] back.drop_first()[i] == '\'' || back.drop_first()[i] == '"'
            } else {
                text::is_white_space(back.drop_first()[i])
            } by {
                assert(back.drop_first()[i] == back[i + 1]);
            }
            trimming_takes_both_ends(front, t, back.drop_first(), quotes);
        } else {
            assert(s =~= t);
        }
    } else if back.len() > 0 {
        assert(s[0] == t[0]);
        assert(s.last() == back[back.len() - 1]);
        assert(s.drop_last() =~= front + t + back.drop_last());
        assert forall|i: int| 0 <= i < back.drop_last().len() implies if quotes {
            #[trigger] back.drop_last()[i] == '\'' || back.drop_last()[i] == '"'
        } else {
            text::is_white_space(back.drop_last()[i])
        } by {
            assert(back.drop_last()[i] == back[i]);
        }
        trimming_takes_both_ends(front, t, back.drop_last(), quotes);
    } else {
        assert(s =~= t);
    }
}

/// Quotation marks alone.
pub open spec fn are_quotes(s: Seq<char>) -> bool {
    forall|i: int| 0 <= i < s.len() ==> #[trigger] s[i] == '\'' || s[i] == '"'
}

/// What is typed for a directory counts without the white space around it and the quotation
/// marks within that; white space within quotation marks stays.
pub proof fn typed_text_is_unquoted(
    left: Seq<char>,
    opening: Seq<char>,
    t: Seq<char>,
    closing: Seq<char>,
    right: Seq<char>,
)
    requires
        text::is_blank(left),
        text::is_blank(right),
        are_quotes(opening),
        are_quotes(closing),
        t.len() > 0,
        opening.len() > 0 || !text::is_white_space(t[0]),
        closing.len() > 0 || !text::is_white_space(t.last()),
        t[0] != '\'' && t[0] != '"' && t.last() != '\'' && t.last() != '"',
    ensures
        typed_text(left + (opening + t + closing) + right) == t,
{
    let quoted = opening + t + closing;
    assert(quoted[0] == if opening.len() > 0 {
        opening[0]
    } else {
        t[0]
    });
    assert(quoted.last() == if closing.len() > 0 {
        closing[closing.len() - 1]
    } else {
        t.last()
    });
    trimming_takes_both_ends(left, quoted, right, false);
    trimming_takes_both_ends(opening, t, closing, true);
}

/// The path that is typed: a text stands for itself, a tilde for the home directory, and a
/// tilde with a slash or a backslash before a text for that path below it. A blank text stands
/// for no path.
pub proof fn tilde_stands_for_home(t: Seq<char>, rest: Seq<char>, blank: Seq<char>, home: Seq<u8>)
    requires
        t.len() > 0,
        !text::is_white_space(t[0]),
        !text::is_white_space(t.last()),
        t[0] != '\'' && t[0] != '"' && t.last() != '\'' && t.last() != '"',
        text::is_blank(blank),
    ensures
        t[0] != '~' ==> typed_path(t, home) == Some(encode_utf8(t)),
        t == seq!['~'] ==> typed_path(t, home) == Some(home),
        t == seq!['~', '/'] + rest || t == seq!['~', '\\'] + rest ==> typed_path(t, home) == Some(
            path::joined(home, encode_utf8(rest)),
        ),
        t.len() >= 2 && t[0] == '~' && t[1] != '/' && t[1] != '\\' ==> typed_path(t, home) == Some(
            encode_utf8(t),
        ),
        typed_path(blank, home) is None,
{
    reveal_strlit("~");
    reveal_strlit("~/");
    reveal_strlit("~\\");
    let nothing = Seq::<char>::empty();
    typed_text_is_unquoted(nothing, nothing, t, nothing, nothing);
    assert(nothing + (nothing + t + nothing) + nothing =~= t);
    assert("~"@ =~= seq!['~']);
    assert("~/"@ =~= seq!['~', '/']);
    assert("~\\"@ =~= seq!['~', '\\']);
    if "~/"@.is_prefix_of(t) {
        assert(t.subrange(0, 2)[0] == '~' && t.subrange(0, 2)[1] == '/');
    }
    if "~\\"@.is_prefix_of(t) {
        assert(t.subrange(0, 2)[0] == '~' && t.subrange(0, 2)[1] == '\\');
    }
    if t == seq!['~', '/'] + rest {
        assert(t.subrange(0, 2) =~= "~/"@);
        assert(t.skip(2) =~= rest);
    }
    if t == seq!['~', '\\'] + rest {
        assert(t.subrange(0, 2) =~= "~\\"@);
        assert(t.skip(2) =~= rest);
    }
    assert forall|i: int| 0 <= i < blank.len() implies text::is_white_space(
        #[trigger] blank[i],
    ) by {}
    trimming_takes_both_ends(blank, nothing, nothing, false);
    assert(blank + nothing + nothing =~= blank);
    assert(trimmed(nothing, true) =~= nothing);
}

/// The directory that is meant: the canonical form of the path that was typed, where it has
/// one, and else that path itself, both without the prefix of verbatim paths. Where nothing was
/// typed it is the current directory.
pub proof fn canonical_paths_count(input: Seq<char>, home: Seq<u8>, canonical: Seq<u8>, p: Seq<u8>)
    requires
        typed_path(input, home) == Some(p),
    ensures
        resolved_path(input, home, Some(canonical)) == path::cleaned(canonical),
        resolved_path(input, home, None) == path::cleaned(p),
        resolved_path(Seq::empty(), home, Some(canonical)) == seq![0x2eu8],
{
    reveal_strlit(".");
    is_ascii_chars_encode_utf8("."@);
    assert(".".spec_bytes() =~= seq![0x2eu8]);
    let nothing = Seq::<char>::empty();
    assert(trimmed(nothing, false) =~= nothing);
}

/// A path that fits is not cut, and one that does not is shown by its end, with dots before it
/// for what is left out.
pub proof fn long_paths_are_cut_at_the_front(s: Seq<char>, max: nat)
    ensures
        s.len() <= max ==> truncated(s, max) == s,
        s.len() > max ==> seq!['.', '.', '.'].is_prefix_of(truncated(s, max)),
        s.len() > max && max > 3 ==> truncated(s, max) == seq!['.', '.', '.'] + s.subrange(
            s.len() - max + 3,
            s.len() as int,
        ),
        s.len() > max && max <= 3 ==> truncated(s, max) == seq!['.', '.', '.'],
{
    reveal_strlit("...");
    let dots = seq!['.', '.', '.'];
    assert("..."@ =~= dots);
    if s.len() > max {
        assert(truncated(s, max).take(3) =~= dots);
        if max > 3 {
            assert(s.skip(s.len() - (max - 3)) =~= s.subrange(s.len() - max + 3, s.len() as int));
        }
    }
}

/// How a byte stands in a URI: letters, digits, slashes and `-`, `_`, `.` and `~` as they are,
/// and every other byte as a percent sign and two digits in base sixteen, letters in upper
/// case. Bytes stand one after the other behind `file://`.
pub proof fn bytes_stand_in_uris(b: u8, x: Seq<u8>, y: Seq<u8>)
    ensures
        97 <= b <= 122 || 65 <= b <= 90 || 48 <= b <= 57 || b == 45 || b == 95 || b == 46 || b
            == 126 || b == 47 ==> uri_text(b) == seq![b as char],
        !(97 <= b <= 122 || 65 <= b <= 90 || 48 <= b <= 57 || b == 45 || b == 95 || b == 46 || b
            == 126 || b == 47) ==> uri_text(b) == seq![
            '%',
            "0123456789ABCDEF"@[b as int / 16],
            "0123456789ABCDEF"@[b as int % 16],
        ],
        uri_chars(x + y) == uri_chars(x) + uri_chars(y),
        uri_chars(seq![b]) == uri_text(b),
    decreases y.len(),
{
    reveal_strlit("0123456789ABCDEF");
    assert(seq![b].drop_last() =~= Seq::<u8>::empty());
    assert(seq![b].last() == b);
    assert(uri_chars(seq![b].drop_last()) =~= Seq::<char>::empty());
    assert(uri_chars(seq![b]) =~= uri_text(b));
    lemma_hex_char(b as int / 16);
    lemma_hex_char(b as int % 16);
    if y.len() == 0 {
        assert(x + y =~= x);
        assert(uri_chars(x) + uri_chars(y) =~= uri_chars(x));
    } else {
        bytes_stand_in_uris(b, x, y.drop_last());
        assert((x + y).drop_last() =~= x + y.drop_last());
        assert((x + y).last() == y.last());
        assert(uri_chars(x + y) =~= uri_chars(x) + uri_chars(y));
    }
}

proof fn lemma_hex_char(n: int)
    requires
        0 <= n < 16,
    ensures
        "0123456789ABCDEF"@[n] == hex_char(n),
{
    reveal_strlit("0123456789ABCDEF");
    let digits = "0123456789ABCDEF"@;
    assert(digits[0] == '0' && digits[1] == '1' && digits[2] == '2' && digits[3] == '3'
        && digits[4] == '4' && digits[5] == '5' && digits[6] == '6' && digits[7] == '7'
        && digits[8] == '8' && digits[9] == '9' && digits[10] == 'A' && digits[11] == 'B'
        && digits[12] == 'C' && digits[13] == 'D' && digits[14] == 'E' && digits[15] == 'F');
}

/// The URI of a path is its bytes behind the scheme and an empty host.
pub proof fn uris_begin_with_their_scheme(p: Seq<u8>)
    ensures
        file_uri(p) == seq!['f', 'i', 'l', 'e', ':', '/', '/'] + uri_chars(
            encode_utf8(path::path_text(p)),
        ),
{
    reveal_strlit("file://");
    assert("file://"@ =~= seq!['f', 'i', 'l', 'e', ':', '/', '/']);
}

} // verus!
