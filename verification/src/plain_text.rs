//! Text of plain text files.

use crate::extract_error;
use crate::extract_error::ExtractError;
use crate::extract_error::Failure;
use crate::language::AppLanguage;
use crate::path::FilePath;
use crate::text;
use vstd::prelude::*;
use vstd::utf8::*;

verus! {

/// The size up to which plain text files are read: 25 MB.
pub const MAX_PLAIN_TEXT_FILE_SIZE: u64 = 26_214_400;

/// The number of bytes by which binary files are told.
pub const SAMPLE_BYTES: usize = 4096;

/// The first bytes of a file.
pub open spec fn sample(s: Seq<u8>) -> Seq<u8> {
    if s.len() <= SAMPLE_BYTES {
        s
    } else {
        s.take(SAMPLE_BYTES as int)
    }
}

/// A control byte, but for tab and line ends.
pub open spec fn is_control_byte(b: u8) -> bool {
    b < 0x20 && b != 0x09 && b != 0x0a && b != 0x0d
}

/// The number of control bytes.
pub open spec fn control_bytes(s: Seq<u8>) -> nat
    decreases s.len(),
{
    if s.len() == 0 {
        0
    } else if is_control_byte(s.last()) {
        control_bytes(s.drop_last()) + 1
    } else {
        control_bytes(s.drop_last())
    }
}

/// More than one byte in ten is a control byte; short files are not looked at.
pub open spec fn is_control_heavy(s: Seq<u8>) -> bool {
    s.len() > 32 && control_bytes(s) * 10 > s.len()
}

/// A character as it is shown: a space for a control character.
pub open spec fn shown_char(c: char) -> char {
    if text::is_control(c) && c != '\n' && c != '\t' && c != '\r' {
        ' '
    } else {
        c
    }
}

/// A text as it is shown.
pub open spec fn shown_text(s: Seq<char>) -> Seq<char> {
    s.map_values(|c: char| shown_char(c))
}

/// What comes of a plain text file of `file_size` bytes.
pub open spec fn plain_text_outcome(file_size: u64, s: Seq<u8>) -> Result<Seq<char>, Failure> {
    if file_size > MAX_PLAIN_TEXT_FILE_SIZE {
        Err(Failure::TextTooLarge)
    } else if file_size == 0 {
        Ok(Seq::empty())
    } else if sample(s).contains(0) {
        Err(Failure::NullBytes)
    } else if is_control_heavy(sample(s)) {
        Err(Failure::ControlBytes)
    } else {
        Ok(shown_text(text::utf8_or_latin1(s)))
    }
}

fn has_null(s: &[u8]) -> (r: bool)
    ensures
        r == s@.contains(0),
{
    let mut i: usize = 0;
    while i < s.len()
        invariant
            i <= s@.len(),
            forall|k: int| 0 <= k < i ==> s@[k] != 0,
        decreases s@.len() - i,
    {
        if s[i] == 0 {
            return true;
        }
        i = i + 1;
    }
    false
}

fn count_control_bytes(s: &[u8]) -> (n: usize)
    ensures
        n == control_bytes(s@),
        n <= s@.len(),
{
    let mut n: usize = 0;
    let mut i: usize = 0;
    while i < s.len()
        invariant
            n <= i <= s@.len(),
            n == control_bytes(s@.take(i as int)),
        decreases s@.len() - i,
    {
        assert(s@.take(i + 1).drop_last() =~= s@.take(i as int));
        let b = s[i];
        if b < 0x20 && b != 0x09 && b != 0x0a && b != 0x0d {
            n = n + 1;
        }
        i = i + 1;
    }
    assert(s@.take(i as int) =~= s@);
    n
}

fn show(s: &str) -> (r: String)
    ensures
        r@ == shown_text(s@),
{
    let mut r = String::new();
    for c in it: s.chars()
        invariant
            it.seq() == s@,
            r@ == shown_text(s@.take(it.index() as int)),
    {
        r.push(
            if text::control(c) && c != '\n' && c != '\t' && c != '\r' {
                ' '
            } else {
                c
            },
        );
        assert(shown_text(s@.take(it.index() as int + 1)) =~= shown_text(
            s@.take(it.index() as int),
        ).push(shown_char(c)));
    }
    assert(s@.take(s@.len() as int) =~= s@);
    r
}

/// Whether the size of a plain text file lets it be read.
pub fn plain_text_readable(file_size: u64) -> (r: bool)
    ensures
        r == (0 < file_size <= MAX_PLAIN_TEXT_FILE_SIZE),
{
    0 < file_size && file_size <= MAX_PLAIN_TEXT_FILE_SIZE
}

/// The text of a plain text file of `file_size` bytes. A file that is empty or too large is
/// not looked into, so `s` may be empty then.
pub fn plain_text(file_size: u64, s: &[u8]) -> (r: Result<String, ExtractError>)
    ensures
        extract_error::outcome(r) == plain_text_outcome(file_size, s@),
{
    if file_size > MAX_PLAIN_TEXT_FILE_SIZE {
        return Err(ExtractError::TextTooLarge);
    }
    if file_size == 0 {
        return Ok(String::new());
    }
    let end: usize = if s.len() <= SAMPLE_BYTES {
        s.len()
    } else {
        SAMPLE_BYTES
    };
    let first = &s[0..end];
    assert(first@ =~= sample(s@));
    if has_null(first) {
        return Err(ExtractError::NullBytes);
    }
    if first.len() > 32 && count_control_bytes(first) * 10 > first.len() {
        return Err(ExtractError::ControlBytes);
    }
    let t = text::decode_utf8_or_latin1(s);
    Ok(show(t.as_str()))
}

/// The text of a plain text file, or a message in the given language.
pub fn extract_plain_text_with_lang(
    file: &FilePath,
    file_size: u64,
    s: &[u8],
    lang: AppLanguage,
) -> (r: Result<String, String>)
    ensures
        extract_error::texts(r) == extract_error::reported(
            plain_text_outcome(file_size, s@),
            file@,
            lang,
        ),
{
    extract_error::report(plain_text(file_size, s), file, lang)
}

/// The text of a plain text file, or a message in English.
pub fn extract_plain_text(file: &FilePath, file_size: u64, s: &[u8]) -> (r: Result<String, String>)
    ensures
        extract_error::texts(r) == extract_error::reported(
            plain_text_outcome(file_size, s@),
            file@,
            AppLanguage::English,
        ),
{
    extract_plain_text_with_lang(file, file_size, s, AppLanguage::English)
}

/// A shown text has as many characters as the text, and no control characters but tabs and
/// line ends.
pub proof fn shown_text_has_no_controls(s: Seq<char>)
    ensures
        shown_text(s).len() == s.len(),
        forall|i: int|
            0 <= i < s.len() ==> !text::is_control(#[trigger] shown_text(s)[i]) || shown_text(s)[i]
                == '\n' || shown_text(s)[i] == '\t' || shown_text(s)[i] == '\r',
{
}

/// Showing a text that is shown already changes nothing.
pub proof fn shown_text_is_stable(s: Seq<char>)
    ensures
        shown_text(shown_text(s)) == shown_text(s),
{
    assert(shown_text(shown_text(s)) =~= shown_text(s));
}

/// A shown text keeps its characters in their places: whatever is no control character stays,
/// in every script, and so do tabs and line ends. Each other control character is shown as a
/// space.
pub proof fn shown_text_keeps_characters(s: Seq<char>, i: int)
    requires
        0 <= i < s.len(),
    ensures
        shown_text(s).len() == s.len(),
        ' ' <= s[i] <= '~' || s[i] >= '\u{a0}' ==> shown_text(s)[i] == s[i],
        s[i] == '\t' || s[i] == '\n' || s[i] == '\r' ==> shown_text(s)[i] == s[i],
        !(' ' <= s[i] <= '~' || s[i] >= '\u{a0}' || s[i] == '\t' || s[i] == '\n' || s[i]
            == '\r') ==> shown_text(s)[i] == ' ',
{
}

/// Texts are shown piece by piece.
pub proof fn shown_texts_join(a: Seq<char>, b: Seq<char>)
    ensures
        shown_text(a + b) == shown_text(a) + shown_text(b),
{
    assert(shown_text(a + b) =~= shown_text(a) + shown_text(b));
}

/// Neither a control byte nor a null byte.
proof fn lemma_clean_bytes(t: Seq<char>, b: u8)
    requires
        forall|i: int|
            0 <= i < t.len() ==> ' ' <= #[trigger] t[i] || t[i] == '\t' || t[i] == '\n'
                || t[i] == '\r',
        b < 0x20,
        b != 0x09,
        b != 0x0a,
        b != 0x0d,
    ensures
        !encode_utf8(t).contains(b),
    decreases t.len(),
{
    if t.len() == 0 {
        assert(encode_utf8(t).len() == 0);
    } else {
        let front = t.drop_last();
        lemma_clean_bytes(front, b);
        let one = seq![t.last()];
        assert(t =~= front + one);
        text::lemma_encode_concat(front, one);
        text::lemma_char_code(t.last());
        text::lemma_char_bytes(t.last(), b);
    }
}

proof fn lemma_no_control_bytes(s: Seq<u8>)
    requires
        forall|i: int| 0 <= i < s.len() ==> !is_control_byte(#[trigger] s[i]),
    ensures
        control_bytes(s) == 0,
    decreases s.len(),
{
    if s.len() > 0 {
        lemma_no_control_bytes(s.drop_last());
    }
}

/// A file of up to 25 megabytes that encodes a text without control characters, but for tabs
/// and line ends, gives exactly that text.
pub proof fn clean_text_is_given_back(file_size: u64, t: Seq<char>)
    requires
        0 < file_size <= 26_214_400,
        forall|i: int|
            0 <= i < t.len() ==> ' ' <= #[trigger] t[i] <= '~' || t[i] >= '\u{a0}' || t[i]
                == '\t' || t[i] == '\n' || t[i] == '\r',
    ensures
        plain_text_outcome(file_size, encode_utf8(t)) == Ok::<Seq<char>, Failure>(t),
{
    let s = encode_utf8(t);
    let first = sample(s);
    assert forall|i: int| 0 <= i < first.len() implies !is_control_byte(#[trigger] first[i]) by {
        assert(s.contains(s[i]));
        if is_control_byte(s[i]) {
            lemma_clean_bytes(t, s[i]);
        }
    }
    lemma_no_control_bytes(first);
    if first.contains(0) {
        let i = choose|i: int| 0 <= i < first.len() && first[i] == 0;
        assert(is_control_byte(first[i]));
    }
    encode_utf8_valid_utf8(t);
    encode_utf8_decode_utf8(t);
    assert(shown_text(t) =~= t);
}

/// A file that is not UTF-8 is read one character for each byte, letters beyond ASCII among
/// them, unless its first bytes look like those of a binary file.
pub proof fn other_text_is_read_by_bytes(file_size: u64, s: Seq<u8>, i: int)
    requires
        plain_text_outcome(file_size, s) is Ok,
        file_size > 0,
        !valid_utf8(s),
        0 <= i < s.len(),
    ensures
        plain_text_outcome(file_size, s)->Ok_0.len() == s.len(),
        32 <= s[i] < 127 || 160 <= s[i] ==> plain_text_outcome(file_size, s)->Ok_0[i] as int
            == s[i] as int,
{
}

/// The number of control bytes adds up, and each byte counts by itself.
pub proof fn control_bytes_add_up(a: Seq<u8>, b: Seq<u8>, c: u8)
    ensures
        control_bytes(a + b) == control_bytes(a) + control_bytes(b),
        control_bytes(seq![c]) == if c < 32 && c != 9 && c != 10 && c != 13 {
            1nat
        } else {
            0nat
        },
    decreases b.len(),
{
    assert(seq![c].last() == c);
    assert(control_bytes(seq![c].drop_last()) == 0);
    if b.len() == 0 {
        assert(a + b =~= a);
    } else {
        control_bytes_add_up(a, b.drop_last(), c);
        assert((a + b).drop_last() =~= a + b.drop_last());
        assert((a + b).last() == b.last());
    }
}

/// Which files are refused: those over 25 megabytes, those with a null byte among their first
/// 4096 bytes, and those of more than 32 bytes of whose first 4096 more than one in ten is a
/// control byte. All others give a text, the empty file the empty text.
pub proof fn refused_files(file_size: u64, s: Seq<u8>)
    ensures
        plain_text_outcome(file_size, s) == Err::<Seq<char>, Failure>(Failure::TextTooLarge)
            <==> file_size > 26_214_400,
        plain_text_outcome(0, s) == Ok::<Seq<char>, Failure>(Seq::empty()),
        0 < file_size <= 26_214_400 ==> {
            let first = if s.len() > 4096 {
                s.subrange(0, 4096)
            } else {
                s
            };
            &&& plain_text_outcome(file_size, s) == Err::<Seq<char>, Failure>(Failure::NullBytes)
                <==> first.contains(0)
            &&& plain_text_outcome(file_size, s) == Err::<Seq<char>, Failure>(Failure::ControlBytes)
                <==> !first.contains(0) && first.len() > 32 && 10 * control_bytes(first)
                > first.len()
            &&& plain_text_outcome(file_size, s) is Ok <==> !first.contains(0) && (first.len() <= 32
                || 10 * control_bytes(first) <= first.len())
        },
{
    if s.len() > 4096 {
        assert(s.take(4096) =~= s.subrange(0, 4096));
    }
}

} // verus!
