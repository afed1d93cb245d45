//! Strings in the content streams of PDF files.

use crate::bytes;
use crate::numbers;
use crate::text;
use vstd::prelude::*;
use vstd::utf8::*;

verus! {

/// The byte that an escaped byte of a literal string stands for.
pub open spec fn escape_byte(b: u8) -> u8 {
    if b == 0x6e {
        0x0a
    } else if b == 0x72 {
        0x0d
    } else if b == 0x74 {
        0x09
    } else {
        b
    }
}

/// Puts bytes before the contents of a literal string.
pub open spec fn with_front(front: Seq<u8>, literal: Option<(Seq<u8>, int)>) -> Option<
    (Seq<u8>, int),
> {
    match literal {
        Some((contents, end)) => Some((front + contents, end)),
        None => None,
    }
}

/// The contents of a literal string from `i` on, and the index after its closing
/// parenthesis. A backslash escapes the byte after it.
pub open spec fn literal_from(s: Seq<u8>, i: int, escaped: bool) -> Option<(Seq<u8>, int)>
    decreases s.len() - i,
{
    if i < 0 || i >= s.len() {
        None
    } else if escaped {
        with_front(seq![escape_byte(s[i])], literal_from(s, i + 1, false))
    } else if s[i] == 0x5c {
        literal_from(s, i + 1, true)
    } else if s[i] == 0x29 {
        Some((Seq::empty(), i + 1))
    } else {
        with_front(seq![s[i]], literal_from(s, i + 1, false))
    }
}

/// A literal string ends after it began, within the stream.
pub proof fn lemma_literal_end(s: Seq<u8>, i: int, escaped: bool)
    ensures
        literal_from(s, i, escaped) matches Some((_, end)) ==> i < end <= s.len(),
    decreases s.len() - i,
{
    if 0 <= i < s.len() {
        lemma_literal_end(s, i + 1, false);
        lemma_literal_end(s, i + 1, true);
    }
}

/// The hexadecimal digits among bytes; all else is left out.
pub open spec fn hex_digits(s: Seq<u8>) -> Seq<u8>
    decreases s.len(),
{
    if s.len() == 0 {
        Seq::empty()
    } else if numbers::digit_value(s.last(), 16) is Some {
        hex_digits(s.drop_last()).push(s.last())
    } else {
        hex_digits(s.drop_last())
    }
}

/// Control bytes are left out of hexadecimal strings, but for tab and line ends.
pub open spec fn is_printable(v: int) -> bool {
    v >= 32 || v == 0x0a || v == 0x0d || v == 0x09
}

/// The bytes that pairs of digits from `i` on write; a digit left over is ignored.
pub open spec fn paired_bytes(digits: Seq<u8>, i: int) -> Seq<u8>
    decreases digits.len() - i,
{
    if i < 0 || i + 2 > digits.len() {
        Seq::empty()
    } else {
        let v = numbers::digit_value(digits[i], 16)->0 * 16 + numbers::digit_value(
            digits[i + 1],
            16,
        )->0;
        if is_printable(v) {
            seq![v as u8] + paired_bytes(digits, i + 2)
        } else {
            paired_bytes(digits, i + 2)
        }
    }
}

/// The bytes of a hexadecimal string, given without its brackets.
pub open spec fn hex_bytes(s: Seq<u8>) -> Seq<u8> {
    paired_bytes(hex_digits(s), 0)
}

/// What a string adds to the text: nothing where it is blank, else itself and a space.
pub open spec fn shown(contents: Seq<u8>) -> Seq<char> {
    let t = text::utf8_or_latin1(contents);
    if text::is_blank(t) {
        Seq::empty()
    } else {
        t.push(' ')
    }
}

/// The text of a content stream from `i` on: its literal and hexadecimal strings in order.
/// A string that does not end shows nothing.
pub open spec fn stream_text_from(s: Seq<u8>, i: int) -> Seq<char>
    decreases s.len() - i,
{
    if i < 0 || i >= s.len() {
        Seq::empty()
    } else if s[i] == 0x28 {
        proof {
            lemma_literal_end(s, i + 1, false);
        }
        match literal_from(s, i + 1, false) {
            Some((contents, end)) => shown(contents) + stream_text_from(s, end),
            None => Seq::empty(),
        }
    } else if s[i] == 0x3c {
        proof {
            bytes::lemma_byte_from(s, i + 1, s.len() as int, 0x3e);
        }
        let end = bytes::byte_from(s, i + 1, s.len() as int, 0x3e);
        if end < s.len() {
            shown(hex_bytes(s.subrange(i + 1, end))) + stream_text_from(s, end + 1)
        } else {
            Seq::empty()
        }
    } else {
        stream_text_from(s, i + 1)
    }
}

/// The text of a content stream.
pub open spec fn stream_text(s: Seq<u8>) -> Seq<char> {
    stream_text_from(s, 0)
}

fn read_literal(s: &[u8], from: usize) -> (r: Option<(Vec<u8>, usize)>)
    requires
        from <= s@.len(),
    ensures
        match r {
            Some((contents, end)) => literal_from(s@, from as int, false) == Some(
                (contents@, end as int),
            ) && from < end <= s@.len(),
            None => literal_from(s@, from as int, false) is None,
        },
{
    let mut contents: Vec<u8> = Vec::new();
    let mut escaped = false;
    let mut i: usize = from;
    assert(with_front(Seq::empty(), literal_from(s@, from as int, false)) == literal_from(
        s@,
        from as int,
        false,
    )) by {
        if let Some((c, _)) = literal_from(s@, from as int, false) {
            assert(Seq::<u8>::empty() + c =~= c);
        }
    }
    while i < s.len()
        invariant
            from <= i <= s@.len(),
            literal_from(s@, from as int, false) == with_front(
                contents@,
                literal_from(s@, i as int, escaped),
            ),
        decreases s@.len() - i,
    {
        let b = s[i];
        let ghost before = contents@;
        if escaped {
            let c: u8 = if b == 0x6e {
                0x0a
            } else if b == 0x72 {
                0x0d
            } else if b == 0x74 {
                0x09
            } else {
                b
            };
            contents.push(c);
            escaped = false;
            assert(c == escape_byte(b));
            proof {
                if let Some((rest, _)) = literal_from(s@, i + 1, false) {
                    assert(before + (seq![c] + rest) =~= contents@ + rest);
                }
            }
        } else if b == 0x5c {
            escaped = true;
        } else if b == 0x29 {
            assert(before + Seq::<u8>::empty() =~= before);
            return Some((contents, i + 1));
        } else {
            contents.push(b);
            proof {
                if let Some((rest, _)) = literal_from(s@, i + 1, false) {
                    assert(before + (seq![b] + rest) =~= contents@ + rest);
                }
            }
        }
        i = i + 1;
    }
    None
}

fn is_hex_digit(b: u8) -> (r: bool)
    ensures
        r == (numbers::digit_value(b, 16) is Some),
{
    (0x30 <= b && b <= 0x39) || (0x61 <= b && b <= 0x66) || (0x41 <= b && b <= 0x46)
}

fn hex_digit(b: u8) -> (d: u8)
    requires
        numbers::digit_value(b, 16) is Some,
    ensures
        d as int == numbers::digit_value(b, 16)->0,
        d < 16,
{
    if b <= 0x39 {
        b - 0x30
    } else if b <= 0x46 {
        b - 0x41 + 10
    } else {
        b - 0x61 + 10
    }
}

fn decode_hex(s: &[u8]) -> (r: Vec<u8>)
    ensures
        r@ == hex_bytes(s@),
{
    let mut digits: Vec<u8> = Vec::new();
    let mut i: usize = 0;
    while i < s.len()
        invariant
            i <= s@.len(),
            digits@ == hex_digits(s@.take(i as int)),
            forall|k: int|
                0 <= k < digits@.len() ==> numbers::digit_value(#[trigger] digits@[k], 16) is Some,
        decreases s@.len() - i,
    {
        assert(s@.take(i + 1).drop_last() =~= s@.take(i as int));
        assert(s@.take(i + 1).last() == s@[i as int]);
        if is_hex_digit(s[i]) {
            digits.push(s[i]);
        }
        i = i + 1;
    }
    assert(s@.take(i as int) =~= s@);
    let mut r: Vec<u8> = Vec::new();
    let mut k: usize = 0;
    let len: usize = digits.len();
    assert(r@ + paired_bytes(digits@, 0) =~= paired_bytes(digits@, 0));
    while len - k >= 2
        invariant
            k <= len == digits@.len(),
            r@ + paired_bytes(digits@, k as int) == paired_bytes(digits@, 0),
            forall|j: int|
                0 <= j < digits@.len() ==> numbers::digit_value(#[trigger] digits@[j], 16) is Some,
        decreases len - k,
    {
        let v: u8 = hex_digit(digits[k]) * 16 + hex_digit(digits[k + 1]);
        let ghost before = r@;
        if v >= 32 || v == 0x0a || v == 0x0d || v == 0x09 {
            r.push(v);
            assert(before + (seq![v] + paired_bytes(digits@, k + 2)) =~= r@ + paired_bytes(
                digits@,
                k + 2,
            ));
        }
        k = k + 2;
    }
    assert(r@ =~= paired_bytes(digits@, 0));
    r
}

fn push_shown(contents: &[u8], out: &mut String)
    ensures
        final(out)@ == old(out)@ + shown(contents@),
{
    let t = text::decode_utf8_or_latin1(contents);
    if !text::blank(t.as_str()) {
        out.push_str(t.as_str());
        out.push(' ');
    }
    assert(out@ =~= old(out)@ + shown(contents@));
}

/// Appends the text of a PDF content stream: the strings `(..)` and `<..>` in it, each
/// followed by a space.
pub fn extract_text_from_pdf_stream(stream: &[u8], out: &mut String)
    ensures
        final(out)@ == old(out)@ + stream_text(stream@),
{
    let mut i: usize = 0;
    while i < stream.len()
        invariant
            i <= stream@.len(),
            old(out)@ + stream_text(stream@) == out@ + stream_text_from(stream@, i as int),
        decreases stream@.len() - i,
    {
        let b = stream[i];
        let ghost before = out@;
        if b == 0x28 {
            match read_literal(stream, i + 1) {
                Some((contents, end)) => {
                    push_shown(contents.as_slice(), out);
                    assert(before + (shown(contents@) + stream_text_from(stream@, end as int))
                        =~= out@ + stream_text_from(stream@, end as int));
                    i = end;
                },
                None => {
                    assert(stream_text_from(stream@, i as int) =~= Seq::<char>::empty());
                    i = stream.len();
                },
            }
        } else if b == 0x3c {
            let end = bytes::find_byte(stream, i + 1, stream.len(), 0x3e);
            if end < stream.len() {
                let contents = decode_hex(&stream[i + 1..end]);
                push_shown(contents.as_slice(), out);
                assert(before + (shown(contents@) + stream_text_from(stream@, end + 1)) =~= out@
                    + stream_text_from(stream@, end + 1));
                i = end + 1;
            } else {
                i = stream.len();
            }
        } else {
            i = i + 1;
        }
    }
    assert(out@ + Seq::<char>::empty() =~= out@);
}

/// Bytes that stand for a byte in a literal string: the byte itself, unless it is a backslash
/// or a closing parenthesis, or a backslash and a byte that stands for it after one.
pub open spec fn stands_for(b: u8, piece: Seq<u8>) -> bool {
    ||| b != 0x5c && b != 0x29 && piece == seq![b]
    ||| piece.len() == 2 && piece[0] == 0x5c && escape_byte(piece[1]) == b
}

/// A literal string as it is written, with its parentheses.
pub open spec fn written_literal(pieces: Seq<Seq<u8>>) -> Seq<u8> {
    seq![0x28u8] + bytes::joined(pieces) + seq![0x29u8]
}

/// A hexadecimal string as it is written, with its brackets.
pub open spec fn written_hex(digits: Seq<u8>) -> Seq<u8> {
    seq![0x3cu8] + digits + seq![0x3eu8]
}

/// A literal string that ends later by so many bytes.
spec fn moved(literal: Option<(Seq<u8>, int)>, m: int) -> Option<(Seq<u8>, int)> {
    match literal {
        Some((contents, end)) => Some((contents, end + m)),
        None => None,
    }
}

/// A literal string is the same when bytes before it are left out.
proof fn lemma_literal_shift(s: Seq<u8>, m: int, i: int, escaped: bool)
    requires
        0 <= m <= s.len(),
        0 <= i,
    ensures
        literal_from(s, m + i, escaped) == moved(literal_from(s.skip(m), i, escaped), m),
    decreases s.len() - m - i,
{
    if m + i < s.len() {
        assert(s.skip(m)[i] == s[m + i]);
        lemma_literal_shift(s, m, i + 1, false);
        lemma_literal_shift(s, m, i + 1, true);
    }
}

/// The text of a stream from an index on is the text of what stands there.
proof fn lemma_stream_shift(s: Seq<u8>, m: int, i: int)
    requires
        0 <= m <= s.len(),
        0 <= i,
    ensures
        stream_text_from(s, m + i) == stream_text_from(s.skip(m), i),
    decreases s.len() - m - i,
{
    let rest = s.skip(m);
    if m + i < s.len() {
        let len = rest.len() as int;
        assert(rest[i] == s[m + i]);
        if rest[i] == 0x28 {
            lemma_literal_shift(s, m, i + 1, false);
            lemma_literal_end(rest, i + 1, false);
            if let Some((_, end)) = literal_from(rest, i + 1, false) {
                lemma_stream_shift(s, m, end);
            }
        } else if rest[i] == 0x3c {
            bytes::lemma_byte_shift(s, m, i + 1, len, 0x3e);
            bytes::lemma_byte_from(rest, i + 1, len, 0x3e);
            let end = bytes::byte_from(rest, i + 1, len, 0x3e);
            if end < len {
                assert(s.subrange(m + i + 1, m + end) =~= rest.subrange(i + 1, end));
                lemma_stream_shift(s, m, end + 1);
            }
        } else {
            lemma_stream_shift(s, m, i + 1);
        }
    }
}

/// The contents of a literal string are the bytes that its pieces stand for.
proof fn lemma_literal_read(contents: Seq<u8>, pieces: Seq<Seq<u8>>, rest: Seq<u8>)
    requires
        contents.len() == pieces.len(),
        forall|i: int| 0 <= i < contents.len() ==> stands_for(#[trigger] contents[i], pieces[i]),
    ensures
        literal_from(bytes::joined(pieces) + seq![0x29u8] + rest, 0, false) == Some(
            (contents, bytes::joined(pieces).len() as int + 1),
        ),
    decreases contents.len(),
{
    let s = bytes::joined(pieces) + seq![0x29u8] + rest;
    if contents.len() == 0 {
        assert(s[0] == 0x29);
        assert(contents =~= Seq::empty());
    } else {
        let b = contents[0];
        let piece = pieces[0];
        let others = contents.drop_first();
        let tail = pieces.drop_first();
        assert forall|i: int| 0 <= i < others.len() implies stands_for(
            #[trigger] others[i],
            tail[i],
        ) by {
            assert(stands_for(contents[i + 1], pieces[i + 1]));
        }
        lemma_literal_read(others, tail, rest);
        let m = piece.len() as int;
        assert(stands_for(b, piece));
        assert(s.skip(m) =~= bytes::joined(tail) + seq![0x29u8] + rest);
        lemma_literal_shift(s, m, 0, false);
        assert(s[0] == piece[0]);
        assert(contents =~= seq![b] + others);
        if m == 2 && piece[0] == 0x5c && escape_byte(piece[1]) == b {
            assert(s[1] == piece[1]);
            assert(literal_from(s, 1, true) == with_front(seq![b], literal_from(s, 2, false)));
        }
    }
}

/// A literal string at the front of a stream shows its contents, and what follows is read as if
/// it stood alone.
pub proof fn literal_shows_its_contents(
    contents: Seq<u8>,
    pieces: Seq<Seq<u8>>,
    rest: Seq<u8>,
)
    requires
        contents.len() == pieces.len(),
        forall|i: int| 0 <= i < contents.len() ==> stands_for(#[trigger] contents[i], pieces[i]),
    ensures
        stream_text(written_literal(pieces) + rest) == shown(contents) + stream_text(rest),
{
    let s = written_literal(pieces) + rest;
    let m = written_literal(pieces).len() as int;
    lemma_literal_read(contents, pieces, rest);
    assert(s[0] == 0x28);
    assert(s.skip(1) =~= bytes::joined(pieces) + seq![0x29u8] + rest);
    lemma_literal_shift(s, 1, 0, false);
    assert(s.skip(m) =~= rest);
    lemma_stream_shift(s, m, 0);
}

/// A hexadecimal string at the front of a stream shows the bytes that its digits write, and
/// what follows is read as if it stood alone.
pub proof fn hex_shows_its_contents(digits: Seq<u8>, rest: Seq<u8>)
    requires
        !digits.contains(0x3e),
    ensures
        stream_text(written_hex(digits) + rest) == shown(hex_bytes(digits)) + stream_text(rest),
{
    let s = written_hex(digits) + rest;
    let end = digits.len() as int + 1;
    assert(s[0] == 0x3c);
    assert(s[end] == 0x3e);
    assert forall|k: int| 1 <= k < end implies s[k] != 0x3e by {
        assert(s[k] == digits[k - 1]);
        assert(digits.contains(digits[k - 1]));
    }
    bytes::lemma_byte_past(s, 1, end, s.len() as int, 0x3e);
    assert(s.subrange(1, end) =~= digits);
    assert(s.skip(end + 1) =~= rest);
    lemma_stream_shift(s, end + 1, 0);
}

/// What escapes stand for in a literal string: `n`, `r` and `t` for line feed, carriage return
/// and tab, and every other byte for itself.
pub proof fn escapes_of_literals(b: u8)
    ensures
        b == 110 ==> escape_byte(b) == 10,
        b == 114 ==> escape_byte(b) == 13,
        b == 116 ==> escape_byte(b) == 9,
        b != 110 && b != 114 && b != 116 ==> escape_byte(b) == b,
{
}

/// A string shows the text that its bytes encode, and a space behind it; a blank one shows
/// nothing. Bytes that are not UTF-8 show one character each.
pub proof fn strings_show_their_text(t: Seq<char>, contents: Seq<u8>)
    ensures
        !text::is_blank(t) ==> shown(encode_utf8(t)) == t + seq![' '],
        text::is_blank(t) ==> shown(encode_utf8(t)).len() == 0,
        !valid_utf8(contents) && !text::is_blank(shown(contents)) ==> shown(contents).len()
            == contents.len() + 1 && forall|i: int|
            0 <= i < contents.len() ==> #[trigger] shown(contents)[i] as int == contents[i] as int,
{
    encode_utf8_valid_utf8(t);
    encode_utf8_decode_utf8(t);
    assert(t.push(' ') =~= t + seq![' ']);
}

/// What stands outside of strings shows nothing.
pub proof fn operators_show_nothing(front: Seq<u8>, rest: Seq<u8>)
    requires
        !front.contains(0x28),
        !front.contains(0x3c),
    ensures
        stream_text(front + rest) == stream_text(rest),
{
    lemma_operators(front, rest, 0);
}

proof fn lemma_operators(front: Seq<u8>, rest: Seq<u8>, i: int)
    requires
        !front.contains(0x28),
        !front.contains(0x3c),
        0 <= i <= front.len(),
    ensures
        stream_text_from(front + rest, i) == stream_text(rest),
    decreases front.len() - i,
{
    let s = front + rest;
    if i == front.len() {
        assert(s.skip(i) =~= rest);
        lemma_stream_shift(s, i, 0);
    } else {
        assert(s[i] == front[i]);
        assert(front.contains(front[i]));
        lemma_operators(front, rest, i + 1);
    }
}

proof fn lemma_pairs_shift(digits: Seq<u8>, i: int)
    requires
        digits.len() >= 2,
        0 <= i,
    ensures
        paired_bytes(digits, i + 2) == paired_bytes(digits.skip(2), i),
    decreases digits.len() - i,
{
    if i + 4 <= digits.len() {
        assert(digits.skip(2)[i] == digits[i + 2]);
        assert(digits.skip(2)[i + 1] == digits[i + 3]);
        lemma_pairs_shift(digits, i + 2);
    }
}

/// Two digits of a hexadecimal string write a byte, whatever stands between them that is no
/// digit, and the rest is read on. Control bytes are left out, but for tab and line ends.
pub proof fn hex_digits_write_bytes(
    high: u8,
    between: Seq<u8>,
    low: u8,
    rest: Seq<u8>,
    h: int,
    l: int,
)
    requires
        numbers::digit_value(high, 16) == Some(h),
        numbers::digit_value(low, 16) == Some(l),
        forall|i: int|
            0 <= i < between.len() ==> numbers::digit_value(#[trigger] between[i], 16) is None,
    ensures
        hex_bytes(seq![high] + between + seq![low] + rest) == (if h * 16 + l >= 32 || h * 16 + l == 9
            || h * 16 + l == 10 || h * 16 + l == 13 {
            seq![(h * 16 + l) as u8]
        } else {
            Seq::empty()
        }) + hex_bytes(rest),
        hex_bytes(between + rest) == hex_bytes(rest),
        hex_bytes(between).len() == 0,
        hex_bytes(seq![high]).len() == 0,
{
    let all = seq![high] + between + seq![low] + rest;
    lemma_digits_join(seq![high] + between + seq![low], rest);
    lemma_digits_join(seq![high] + between, seq![low]);
    lemma_digits_join(seq![high], between);
    lemma_digits_join(between, rest);
    lemma_no_digits(between);
    lemma_one_digit(high);
    lemma_one_digit(low);
    let digits = hex_digits(all);
    assert(digits =~= seq![high, low] + hex_digits(rest));
    assert(digits[0] == high && digits[1] == low);
    assert(digits.skip(2) =~= hex_digits(rest));
    lemma_pairs_shift(digits, 0);
    assert(hex_digits(between + rest) =~= hex_digits(rest));
    assert(hex_digits(between) =~= Seq::<u8>::empty());
    let byte = if is_printable(h * 16 + l) {
        seq![(h * 16 + l) as u8]
    } else {
        Seq::empty()
    };
    assert(paired_bytes(digits, 0) =~= byte + paired_bytes(digits, 2));
}

proof fn lemma_digits_join(a: Seq<u8>, b: Seq<u8>)
    ensures
        hex_digits(a + b) == hex_digits(a) + hex_digits(b),
    decreases b.len(),
{
    if b.len() == 0 {
        assert(a + b =~= a);
        assert(hex_digits(a) + hex_digits(b) =~= hex_digits(a));
    } else {
        lemma_digits_join(a, b.drop_last());
        assert((a + b).drop_last() =~= a + b.drop_last());
        assert((a + b).last() == b.last());
        assert(hex_digits(a + b) =~= hex_digits(a) + hex_digits(b));
    }
}

proof fn lemma_no_digits(s: Seq<u8>)
    requires
        forall|i: int| 0 <= i < s.len() ==> numbers::digit_value(#[trigger] s[i], 16) is None,
    ensures
        hex_digits(s).len() == 0,
    decreases s.len(),
{
    if s.len() > 0 {
        assert(numbers::digit_value(s[s.len() - 1], 16) is None);
        lemma_no_digits(s.drop_last());
    }
}

proof fn lemma_one_digit(b: u8)
    requires
        numbers::digit_value(b, 16) is Some,
    ensures
        hex_digits(seq![b]) == seq![b],
{
    assert(seq![b].last() == b);
    assert(hex_digits(seq![b].drop_last()) =~= Seq::<u8>::empty());
    assert(hex_digits(seq![b]) =~= seq![b]);
}

/// A string that does not end shows nothing, and neither does what follows it.
pub proof fn open_strings_show_nothing(rest: Seq<u8>)
    requires
        !rest.contains(0x29),
    ensures
        stream_text(seq![0x28u8] + rest).len() == 0,
        !rest.contains(0x3e) ==> stream_text(seq![0x3cu8] + rest).len() == 0,
{
    let s = seq![0x28u8] + rest;
    assert(s[0] == 0x28);
    assert forall|k: int| 1 <= k < s.len() implies #[trigger] s[k] != 0x29 by {
        assert(rest.contains(rest[k - 1]));
    }
    lemma_open_literal(s, 1, false);
    let t = seq![0x3cu8] + rest;
    assert(t[0] == 0x3c);
    if !rest.contains(0x3e) {
        assert forall|k: int| 1 <= k < t.len() implies #[trigger] t[k] != 0x3e by {
            assert(rest.contains(rest[k - 1]));
        }
        bytes::lemma_byte_past(t, 1, t.len() as int, t.len() as int, 0x3e);
    }
}

proof fn lemma_open_literal(s: Seq<u8>, i: int, escaped: bool)
    requires
        0 <= i,
        forall|k: int| i <= k < s.len() ==> #[trigger] s[k] != 0x29,
    ensures
        literal_from(s, i, escaped) is None,
    decreases s.len() - i,
{
    if i < s.len() {
        lemma_open_literal(s, i + 1, false);
        lemma_open_literal(s, i + 1, true);
    }
}

} // verus!
