//! Characters, strings and bytes: the vocabulary that the other modules share.

use vstd::prelude::*;
use vstd::string::*;
use vstd::utf8::*;

verus! {

/// `String::push` appends one character.
pub assume_specification[ String::push ](s: &mut String, ch: char)
    ensures
        final(s)@ == old(s)@.push(ch),
;

/// `String::push_str` appends a string.
pub assume_specification[ String::push_str ](s: &mut String, string: &str)
    ensures
        final(s)@ == old(s)@ + string@,
;

/// The characters with the Unicode property `White_Space`.
pub open spec fn is_white_space(c: char) -> bool {
    ||| '\u{9}' <= c <= '\u{d}'
    ||| c == ' '
    ||| c == '\u{85}'
    ||| c == '\u{a0}'
    ||| c == '\u{1680}'
    ||| '\u{2000}' <= c <= '\u{200a}'
    ||| c == '\u{2028}'
    ||| c == '\u{2029}'
    ||| c == '\u{202f}'
    ||| c == '\u{205f}'
    ||| c == '\u{3000}'
}

/// Whether a character is white space.
pub fn white_space(c: char) -> (r: bool)
    ensures
        r == is_white_space(c),
{
    ('\u{9}' <= c && c <= '\u{d}') || c == ' ' || c == '\u{85}' || c == '\u{a0}' || c == '\u{1680}'
        || ('\u{2000}' <= c && c <= '\u{200a}') || c == '\u{2028}' || c == '\u{2029}' || c
        == '\u{202f}' || c == '\u{205f}' || c == '\u{3000}'
}

/// The control characters, general category `Cc`.
pub open spec fn is_control(c: char) -> bool {
    c <= '\u{1f}' || '\u{7f}' <= c <= '\u{9f}'
}

/// Whether a character is a control character.
pub fn control(c: char) -> (r: bool)
    ensures
        r == is_control(c),
{
    c <= '\u{1f}' || ('\u{7f}' <= c && c <= '\u{9f}')
}

/// The number of bytes of a character in UTF-8.
pub open spec fn char_width(c: char) -> nat {
    encode_scalar(c as u32).len()
}

/// The number of bytes of a character in UTF-8.
pub fn width_of(c: char) -> (n: usize)
    ensures
        n == char_width(c),
        1 <= n <= 4,
{
    let v: u32 = c as u32;
    proof {
        char_is_scalar(c);
    }
    if v <= 0x7f {
        1
    } else if v <= 0x7ff {
        2
    } else if v <= 0xffff {
        3
    } else {
        4
    }
}

/// All characters are white space; this holds of the empty text too.
pub open spec fn is_blank(s: Seq<char>) -> bool {
    forall|i: int| 0 <= i < s.len() ==> is_white_space(#[trigger] s[i])
}

/// Whether nothing is left of a text once white space is trimmed.
pub fn blank(s: &str) -> (r: bool)
    ensures
        r == is_blank(s@),
{
    for c in it: s.chars()
        invariant
            it.seq() == s@,
            is_blank(s@.take(it.index() as int)),
    {
        if !white_space(c) {
            assert(!is_white_space(s@[it.index() as int]));
            return false;
        }
        assert(s@.take(it.index() as int + 1) =~= s@.take(it.index() as int).push(c));
    }
    assert(s@.take(s@.len() as int) =~= s@);
    true
}

/// The characters of a string, in order.
pub fn chars_of(s: &str) -> (v: Vec<char>)
    ensures
        v@ == s@,
{
    let mut v: Vec<char> = Vec::new();
    for c in it: s.chars()
        invariant
            it.seq() == s@,
            v@ == s@.take(it.index() as int),
    {
        v.push(c);
    }
    v
}

/// The string of a range of characters.
pub fn text_of(chars: &[char], from: usize, to: usize) -> (s: String)
    requires
        from <= to <= chars@.len(),
    ensures
        s@ == chars@.subrange(from as int, to as int),
{
    let mut s = String::new();
    let mut i: usize = from;
    while i < to
        invariant
            from <= i <= to <= chars@.len(),
            s@ == chars@.subrange(from as int, i as int),
        decreases to - i,
    {
        s.push(chars[i]);
        i = i + 1;
        assert(chars@.subrange(from as int, i as int) =~= chars@.subrange(
            from as int,
            i - 1,
        ).push(chars@[i - 1]));
    }
    s
}

/// Whether two byte strings are the same.
pub fn same_bytes(a: &[u8], b: &[u8]) -> (r: bool)
    ensures
        r == (a@ == b@),
{
    if a.len() != b.len() {
        return false;
    }
    let mut i: usize = 0;
    while i < a.len()
        invariant
            a@.len() == b@.len(),
            i <= a@.len(),
            forall|k: int| 0 <= k < i ==> a@[k] == b@[k],
        decreases a@.len() - i,
    {
        if a[i] != b[i] {
            return false;
        }
        i = i + 1;
    }
    assert(a@ =~= b@);
    true
}

/// Whether two strings are the same.
pub fn same_text(a: &str, b: &str) -> (r: bool)
    ensures
        r == (a@ == b@),
{
    proof {
        encode_utf8_decode_utf8(a@);
        encode_utf8_decode_utf8(b@);
    }
    same_bytes(a.as_bytes(), b.as_bytes())
}

/// The number of bytes of a text in UTF-8.
pub fn byte_len(s: &str) -> (n: usize)
    ensures
        n == encode_utf8(s@).len(),
{
    s.as_bytes().len()
}

/// Whether a text begins with another.
pub fn begins_with(s: &str, prefix: &str) -> (r: bool)
    ensures
        r == prefix@.is_prefix_of(s@),
{
    let chars = chars_of(s);
    let wanted = chars_of(prefix);
    chars_at(chars.as_slice(), 0, wanted.as_slice())
}

/// Whether a text ends with another.
pub fn ends_with(s: &str, suffix: &str) -> (r: bool)
    ensures
        r == suffix@.is_suffix_of(s@),
{
    let chars = chars_of(s);
    let wanted = chars_of(suffix);
    wanted.len() <= chars.len() && chars_at(
        chars.as_slice(),
        chars.len() - wanted.len(),
        wanted.as_slice(),
    )
}

/// A text stands in another at index `k`.
pub open spec fn text_at(s: Seq<char>, k: int, needle: Seq<char>) -> bool {
    0 <= k && k + needle.len() <= s.len() && s.subrange(k, k + needle.len()) == needle
}

/// A text stands somewhere in another.
pub open spec fn occurs_in(needle: Seq<char>, s: Seq<char>) -> bool {
    exists|k: int| text_at(s, k, needle)
}

fn chars_at(s: &[char], k: usize, needle: &[char]) -> (r: bool)
    ensures
        r == text_at(s@, k as int, needle@),
{
    let len: usize = s.len();
    if k > len || needle.len() > len - k {
        return false;
    }
    let mut i: usize = 0;
    while i < needle.len()
        invariant
            i <= needle@.len(),
            len == s@.len(),
            k + needle@.len() <= len,
            forall|j: int| 0 <= j < i ==> s@[k + j] == needle@[j],
        decreases needle@.len() - i,
    {
        if s[k + i] != needle[i] {
            assert(s@.subrange(k as int, k + needle@.len())[i as int] != needle@[i as int]);
            return false;
        }
        i = i + 1;
    }
    assert(s@.subrange(k as int, k + needle@.len()) =~= needle@);
    true
}

/// Whether a text stands somewhere in another.
pub fn contains_text(s: &str, needle: &str) -> (r: bool)
    ensures
        r == occurs_in(needle@, s@),
{
    let chars = chars_of(s);
    let wanted = chars_of(needle);
    let len: usize = chars.len();
    let mut k: usize = 0;
    while k < len
        invariant
            len == s@.len(),
            k <= len,
            chars@ == s@,
            wanted@ == needle@,
            forall|j: int| 0 <= j < k ==> !text_at(s@, j, needle@),
        decreases len - k,
    {
        if chars_at(chars.as_slice(), k, wanted.as_slice()) {
            return true;
        }
        k = k + 1;
    }
    let r = chars_at(chars.as_slice(), len, wanted.as_slice());
    assert(forall|j: int| j > len ==> !text_at(s@, j, needle@));
    r
}

/// Encoding distributes over concatenation.
pub proof fn lemma_encode_concat(a: Seq<char>, b: Seq<char>)
    ensures
        encode_utf8(a + b) == encode_utf8(a) + encode_utf8(b),
    decreases a.len(),
{
    if a.len() == 0 {
        assert(a + b =~= b);
        assert(encode_utf8(a) =~= Seq::<u8>::empty());
        assert(encode_utf8(a) + encode_utf8(b) =~= encode_utf8(b));
    } else {
        lemma_encode_concat(a.drop_first(), b);
        assert((a + b).drop_first() =~= a.drop_first() + b);
        assert((a + b)[0] == a[0]);
        assert(encode_utf8(a) + encode_utf8(b) =~= encode_scalar(a[0] as u32) + (encode_utf8(
            a.drop_first(),
        ) + encode_utf8(b)));
    }
}

/// A text that continues another has more bytes where it has more characters.
pub proof fn lemma_longer_text(a: Seq<char>, b: Seq<char>)
    requires
        a.is_prefix_of(b),
    ensures
        encode_utf8(b).len() > encode_utf8(a).len() <==> b.len() > a.len(),
{
    let rest = b.skip(a.len() as int);
    assert(b =~= a + rest);
    lemma_encode_concat(a, rest);
    if rest.len() > 0 {
        lemma_last_byte(rest);
    } else {
        assert(encode_utf8(rest).len() == 0);
    }
}

/// A text of ASCII characters has as many bytes as characters.
pub proof fn lemma_ascii_len(s: Seq<char>)
    requires
        forall|i: int| 0 <= i < s.len() ==> (#[trigger] s[i]) as u32 <= 0x7f,
    ensures
        encode_utf8(s).len() == s.len(),
    decreases s.len(),
{
    if s.len() > 0 {
        lemma_ascii_len(s.drop_first());
    }
}

/// The bytes of a character hold an ASCII byte only where they are that character.
pub proof fn lemma_char_bytes(c: char, b: u8)
    requires
        b < 0x80,
        c as u32 != b as u32,
    ensures
        !encode_utf8(seq![c]).contains(b),
{
    let v = c as u32;
    let one = seq![c];
    assert(one.drop_first() =~= Seq::<char>::empty());
    assert(encode_utf8(one) =~= encode_scalar(v) + encode_utf8(one.drop_first()));
    assert(encode_utf8(one) =~= encode_scalar(v));
    char_is_scalar(c);
    if v <= 0x7f {
        assert((v & 0x7f) as u8 as u32 == v) by (bit_vector)
            requires
                v <= 0x7f,
        ;
    } else {
        assert((0xc0u8 | ((v >> 6) & 0x1f) as u8) >= 0x80) by (bit_vector);
        assert((0xe0u8 | ((v >> 12) & 0x0f) as u8) >= 0x80) by (bit_vector);
        assert((0xf0u8 | ((v >> 18) & 0x07) as u8) >= 0x80) by (bit_vector);
        assert((0x80u8 | (v & 0x3f) as u8) >= 0x80) by (bit_vector);
        assert((0x80u8 | ((v >> 6) & 0x3f) as u8) >= 0x80) by (bit_vector);
        assert((0x80u8 | ((v >> 12) & 0x3f) as u8) >= 0x80) by (bit_vector);
    }
}

/// The text of encoded characters is those characters.
pub proof fn lemma_text_of_encoded(s: Seq<char>)
    ensures
        text_of_bytes(encode_utf8(s)) == s,
{
    encode_utf8_valid_utf8(s);
    encode_utf8_decode_utf8(s);
}

/// A character is its number.
pub proof fn lemma_char_code(c: char)
    ensures
        c as u32 as int == c as int,
        0 <= c as int <= 0x10ffff,
{
}

/// The last byte of a text is the byte of its last character where that is ASCII, and is
/// beyond ASCII where it is not.
pub proof fn lemma_last_byte(s: Seq<char>)
    requires
        s.len() > 0,
    ensures
        encode_utf8(s).len() > 0,
        s.last() as u32 <= 0x7f ==> encode_utf8(s).last() as u32 == s.last() as u32,
        s.last() as u32 > 0x7f ==> encode_utf8(s).last() >= 0x80,
{
    let c = s.last() as u32;
    let one = seq![s.last()];
    assert(s =~= s.drop_last() + one);
    lemma_encode_concat(s.drop_last(), one);
    assert(one.drop_first() =~= Seq::<char>::empty());
    assert(encode_utf8(one) =~= encode_scalar(c) + encode_utf8(one.drop_first()));
    assert(encode_utf8(one) =~= encode_scalar(c));
    char_is_scalar(s.last());
    if c <= 0x7f {
        assert((c & 0x7f) as u8 as u32 == c) by (bit_vector)
            requires
                c <= 0x7f,
        ;
    } else {
        assert((0x80u8 | (c & 0x3f) as u8) >= 0x80) by (bit_vector);
    }
    assert(encode_utf8(s).last() == encode_scalar(c).last());
}

/// Whether a text is empty or ends in a line break.
pub fn at_line_start(s: &str) -> (r: bool)
    ensures
        r == (s@.len() == 0 || s@.last() == '\n'),
{
    let bytes = s.as_bytes();
    proof {
        if s@.len() > 0 {
            lemma_last_byte(s@);
            assert(bytes@.last() == bytes@[bytes@.len() - 1]);
            lemma_char_code(s@.last());
        } else {
            assert(encode_utf8(s@).len() == 0);
        }
    }
    bytes.len() == 0 || bytes[bytes.len() - 1] == 0x0a
}

/// The text of bytes that may not be UTF-8, as `String::from_utf8_lossy` reads them.
pub uninterp spec fn lossy_text(bytes: Seq<u8>) -> Seq<char>;

/// Calls `String::from_utf8_lossy`. Trusted: the result is `lossy_text` of the bytes,
/// and bytes that are UTF-8 are decoded as they stand.
#[verifier::external_body]
pub(crate) fn decode_lossy(bytes: &[u8]) -> (s: String)
    ensures
        s@ == lossy_text(bytes@),
        valid_utf8(bytes@) ==> s@ == decode_utf8(bytes@),
{
    String::from_utf8_lossy(bytes).into_owned()
}

/// Calls `std::str::from_utf8`. Trusted: it succeeds on valid UTF-8 alone, and gives the
/// characters that the bytes encode.
#[verifier::external_body]
pub(crate) fn utf8_text(bytes: &[u8]) -> (s: Option<&str>)
    ensures
        s is Some <==> valid_utf8(bytes@),
        s matches Some(t) ==> t@ == decode_utf8(bytes@),
{
    std::str::from_utf8(bytes).ok()
}

/// The text of bytes: UTF-8 where they are valid, else with replacement characters.
pub open spec fn text_of_bytes(bytes: Seq<u8>) -> Seq<char> {
    if valid_utf8(bytes) {
        decode_utf8(bytes)
    } else {
        lossy_text(bytes)
    }
}

/// Appends the text of bytes to a string.
pub fn push_bytes(out: &mut String, bytes: &[u8])
    ensures
        final(out)@ == old(out)@ + text_of_bytes(bytes@),
{
    if let Some(s) = utf8_text(bytes) {
        out.push_str(s);
    } else {
        let s = decode_lossy(bytes);
        out.push_str(s.as_str());
    }
}

/// Each byte read as the character with its number, as ISO-8859-1 does.
pub open spec fn latin1(bytes: Seq<u8>) -> Seq<char> {
    Seq::new(bytes.len(), |i: int| bytes[i] as char)
}

/// The text of bytes: UTF-8 where they are valid, else ISO-8859-1.
pub open spec fn utf8_or_latin1(bytes: Seq<u8>) -> Seq<char> {
    if valid_utf8(bytes) {
        decode_utf8(bytes)
    } else {
        latin1(bytes)
    }
}

/// Decodes bytes as UTF-8 where they are valid, else as ISO-8859-1.
pub fn decode_utf8_or_latin1(bytes: &[u8]) -> (s: String)
    ensures
        s@ == utf8_or_latin1(bytes@),
{
    if let Some(s) = utf8_text(bytes) {
        return s.to_owned();
    }
    let mut s = String::new();
    let mut i: usize = 0;
    while i < bytes.len()
        invariant
            i <= bytes@.len(),
            s@ == latin1(bytes@).take(i as int),
        decreases bytes@.len() - i,
    {
        s.push(bytes[i] as char);
        i = i + 1;
        assert(latin1(bytes@).take(i as int) =~= latin1(bytes@).take(i - 1).push(
            bytes@[i - 1] as char,
        ));
    }
    assert(latin1(bytes@).take(i as int) =~= latin1(bytes@));
    s
}

/// The white space characters by their numbers: from tab to carriage return, the space, next
/// line, the no-break space, and the separators of the general categories `Zs`, `Zl` and `Zp`.
pub proof fn white_space_by_number(c: char)
    ensures
        is_white_space(c) <==> (9 <= c as int <= 13 || c as int == 32 || c as int == 133 || c as int
            == 160 || c as int == 5760 || 8192 <= c as int <= 8202 || c as int == 8232 || c as int
            == 8233 || c as int == 8239 || c as int == 8287 || c as int == 12288),
{
}

/// The control characters by their numbers: the first 32, and the 33 from delete on.
pub proof fn controls_by_number(c: char)
    ensures
        is_control(c) <==> (c as int <= 31 || 127 <= c as int <= 159),
{
}

/// A text is not blank as soon as one of its characters is no white space, and joining texts
/// is blank where both are.
pub proof fn blank_texts_join(a: Seq<char>, b: Seq<char>)
    ensures
        is_blank(Seq::<char>::empty()),
        is_blank(a + b) <==> is_blank(a) && is_blank(b),
{
    if is_blank(a + b) {
        assert forall|i: int| 0 <= i < a.len() implies is_white_space(#[trigger] a[i]) by {
            assert((a + b)[i] == a[i]);
        }
        assert forall|i: int| 0 <= i < b.len() implies is_white_space(#[trigger] b[i]) by {
            assert((a + b)[a.len() + i] == b[i]);
        }
    }
}

/// Bytes that encode a text are read as that text, and others one character for each byte,
/// which has the number of the byte.
pub proof fn bytes_are_utf8_or_latin1(bytes: Seq<u8>, t: Seq<char>, i: int)
    ensures
        bytes == encode_utf8(t) ==> utf8_or_latin1(bytes) == t,
        !valid_utf8(bytes) ==> utf8_or_latin1(bytes).len() == bytes.len(),
        !valid_utf8(bytes) && 0 <= i < bytes.len() ==> utf8_or_latin1(bytes)[i] as int
            == bytes[i] as int,
{
    encode_utf8_valid_utf8(t);
    encode_utf8_decode_utf8(t);
}

/// A text stands in another exactly where the other is that text between two others.
pub proof fn occurring_is_between(
    needle: Seq<char>,
    s: Seq<char>,
    before: Seq<char>,
    after: Seq<char>,
)
    ensures
        occurs_in(needle, before + needle + after),
        occurs_in(needle, s) ==> exists|k: int|
            0 <= k && k + needle.len() <= s.len() && #[trigger] s.take(k) + needle + s.skip(
                k + needle.len(),
            ) == s,
{
    let all = before + needle + after;
    assert(all.subrange(before.len() as int, (before.len() + needle.len()) as int) =~= needle);
    assert(text_at(all, before.len() as int, needle));
    if occurs_in(needle, s) {
        let k = choose|k: int| text_at(s, k, needle);
        assert(s.take(k) + needle + s.skip(k + needle.len()) =~= s) by {
            assert forall|i: int| k <= i < k + needle.len() implies s[i] == needle[i - k] by {
                assert(s.subrange(k, k + needle.len())[i - k] == needle[i - k]);
            }
        }
    }
}

/// Bytes give the text that they encode, and where they encode none a text with replacement
/// characters.
pub proof fn bytes_give_a_text(bytes: Seq<u8>, t: Seq<char>)
    ensures
        text_of_bytes(encode_utf8(t)) == t,
        !valid_utf8(bytes) ==> text_of_bytes(bytes) == lossy_text(bytes),
{
    lemma_text_of_encoded(t);
}

/// A character takes from one to four bytes, by its number.
pub proof fn characters_take_bytes_by_number(c: char)
    ensures
        char_width(c) == if c as int <= 0x7f {
            1nat
        } else if c as int <= 0x7ff {
            2
        } else if c as int <= 0xffff {
            3
        } else {
            4
        },
{
    char_is_scalar(c);
}

} // verus!
