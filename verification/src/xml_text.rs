//! Character data of XML: entities and character references.

use crate::bytes;
use crate::numbers;
use crate::text;
use vstd::prelude::*;
use vstd::string::*;
use vstd::utf8::*;

verus! {

/// An entity that could not be resolved, written out again.
pub open spec fn literal_entity(entity: Seq<u8>) -> Seq<char> {
    seq!['&'] + (if valid_utf8(entity) {
        decode_utf8(entity)
    } else {
        Seq::empty()
    }) + seq![';']
}

/// The character with a given number; numbers of no character give the replacement
/// character.
pub open spec fn numbered_char(code: u32) -> char {
    if is_scalar(code) {
        code as char
    } else {
        '\u{fffd}'
    }
}

/// The text of a character reference, whose digits stand in `digits`.
pub open spec fn reference_text(entity: Seq<u8>, digits: Seq<u8>, radix: int) -> Seq<char> {
    if !valid_utf8(digits) {
        Seq::empty()
    } else {
        match numbers::number_value(digits, radix, u32::MAX as int) {
            Some(code) => seq![numbered_char(code as u32)],
            None => literal_entity(entity),
        }
    }
}

/// The text of an entity, given without its `&` and `;`.
pub open spec fn entity_text(entity: Seq<u8>) -> Seq<char> {
    if entity == "amp".spec_bytes() {
        seq!['&']
    } else if entity == "lt".spec_bytes() {
        seq!['<']
    } else if entity == "gt".spec_bytes() {
        seq!['>']
    } else if entity == "quot".spec_bytes() {
        seq!['"']
    } else if entity == "apos".spec_bytes() {
        seq!['\'']
    } else if entity.len() >= 2 && entity[0] == 0x23 && (entity[1] == 0x78 || entity[1] == 0x58) {
        reference_text(entity, entity.skip(2), 16)
    } else if entity.len() >= 1 && entity[0] == 0x23 {
        reference_text(entity, entity.skip(1), 10)
    } else {
        literal_entity(entity)
    }
}

/// How far after the `&` at `amp` the closing `;` is looked for.
pub open spec fn entity_limit(raw: Seq<u8>, amp: int) -> int {
    if amp + 16 < raw.len() {
        amp + 16
    } else {
        raw.len() as int
    }
}

/// The text of raw character data from `cursor` on. Entities are resolved; an `&` that no
/// `;` follows within fifteen bytes stands for itself.
pub open spec fn unescaped_from(raw: Seq<u8>, cursor: int) -> Seq<char>
    decreases raw.len() - cursor,
{
    if cursor < 0 || cursor >= raw.len() {
        Seq::empty()
    } else {
        proof {
            bytes::lemma_byte_from(raw, cursor, raw.len() as int, 0x26);
        }
        let amp = bytes::byte_from(raw, cursor, raw.len() as int, 0x26);
        if amp >= raw.len() {
            text::text_of_bytes(raw.skip(cursor))
        } else {
            proof {
                bytes::lemma_byte_from(raw, amp + 1, entity_limit(raw, amp), 0x3b);
            }
            let semi = bytes::byte_from(raw, amp + 1, entity_limit(raw, amp), 0x3b);
            text::text_of_bytes(raw.subrange(cursor, amp)) + if semi < entity_limit(raw, amp) {
                entity_text(raw.subrange(amp + 1, semi)) + unescaped_from(raw, semi + 1)
            } else {
                seq!['&'] + unescaped_from(raw, amp + 1)
            }
        }
    }
}

/// The text of raw character data.
pub open spec fn unescaped(raw: Seq<u8>) -> Seq<char> {
    unescaped_from(raw, 0)
}

/// Calls `char::from_u32`. Trusted: it gives the character with that number, for the
/// numbers of Unicode scalar values alone.
#[verifier::external_body]
fn char_of(code: u32) -> (c: Option<char>)
    ensures
        c is Some <==> is_scalar(code),
        c matches Some(d) ==> d as u32 == code,
{
    char::from_u32(code)
}

fn push_literal_entity(entity: &[u8], out: &mut String)
    ensures
        final(out)@ == old(out)@ + literal_entity(entity@),
{
    out.push('&');
    if let Some(s) = text::utf8_text(entity) {
        out.push_str(s);
    }
    out.push(';');
    assert(out@ =~= old(out)@ + literal_entity(entity@));
}

fn push_reference(entity: &[u8], digits: &[u8], radix: u8, out: &mut String)
    requires
        radix == 10 || radix == 16,
    ensures
        final(out)@ == old(out)@ + reference_text(entity@, digits@, radix as int),
{
    if let Some(_s) = text::utf8_text(digits) {
        match numbers::parse_number(digits, radix, u32::MAX as u64) {
            Some(code) => {
                match char_of(code as u32) {
                    Some(c) => {
                        proof {
                            char_u32_cast(c, code as u32);
                        }
                        out.push(c)
                    },
                    None => out.push('\u{fffd}'),
                }
            },
            None => push_literal_entity(entity, out),
        }
    }
    assert(out@ =~= old(out)@ + reference_text(entity@, digits@, radix as int));
}

/// Appends the text of an entity, given without its `&` and `;`.
pub fn push_entity(entity: &[u8], out: &mut String)
    ensures
        final(out)@ == old(out)@ + entity_text(entity@),
{
    if text::same_bytes(entity, "amp".as_bytes()) {
        out.push('&');
    } else if text::same_bytes(entity, "lt".as_bytes()) {
        out.push('<');
    } else if text::same_bytes(entity, "gt".as_bytes()) {
        out.push('>');
    } else if text::same_bytes(entity, "quot".as_bytes()) {
        out.push('"');
    } else if text::same_bytes(entity, "apos".as_bytes()) {
        out.push('\'');
    } else if entity.len() >= 2 && entity[0] == 0x23 && (entity[1] == 0x78 || entity[1] == 0x58) {
        let digits = &entity[2..entity.len()];
        assert(digits@ =~= entity@.skip(2));
        push_reference(entity, digits, 16, out);
    } else if entity.len() >= 1 && entity[0] == 0x23 {
        let digits = &entity[1..entity.len()];
        assert(digits@ =~= entity@.skip(1));
        push_reference(entity, digits, 10, out);
    } else {
        push_literal_entity(entity, out);
    }
    assert(out@ =~= old(out)@ + entity_text(entity@));
}

/// Appends the text of raw XML character data to `out`.
pub fn unescape_xml_into(raw: &[u8], out: &mut String)
    ensures
        final(out)@ == old(out)@ + unescaped(raw@),
{
    let mut cursor: usize = 0;
    while cursor < raw.len()
        invariant
            cursor <= raw@.len(),
            old(out)@ + unescaped(raw@) == out@ + unescaped_from(raw@, cursor as int),
        decreases raw@.len() - cursor,
    {
        let amp = bytes::find_byte(raw, cursor, raw.len(), 0x26);
        let ghost before = out@;
        if amp == raw.len() {
            let rest = &raw[cursor..raw.len()];
            assert(rest@ =~= raw@.skip(cursor as int));
            text::push_bytes(out, rest);
            cursor = raw.len();
            assert(unescaped_from(raw@, cursor as int) =~= Seq::<char>::empty());
            assert(out@ =~= old(out)@ + unescaped(raw@));
        } else {
            text::push_bytes(out, &raw[cursor..amp]);
            let limit: usize = if raw.len() - amp > 16 {
                amp + 16
            } else {
                raw.len()
            };
            let semi = bytes::find_byte(raw, amp + 1, limit, 0x3b);
            let ghost head = text::text_of_bytes(raw@.subrange(cursor as int, amp as int));
            if semi < limit {
                push_entity(&raw[amp + 1..semi], out);
                let ghost middle = entity_text(raw@.subrange(amp + 1, semi as int));
                assert(before + (head + (middle + unescaped_from(raw@, semi + 1))) =~= before
                    + head + middle + unescaped_from(raw@, semi + 1));
                cursor = semi + 1;
            } else {
                out.push('&');
                assert(before + (head + (seq!['&'] + unescaped_from(raw@, amp + 1))) =~= (before
                    + head).push('&') + unescaped_from(raw@, amp + 1));
                cursor = amp + 1;
            }
        }
    }
    assert(out@ + Seq::<char>::empty() =~= out@);
}

/// An entity as it is written.
pub open spec fn written_entity(entity: Seq<u8>) -> Seq<u8> {
    seq![0x26u8] + entity + seq![0x3bu8]
}

/// Digits, not too many, that write the number of a character.
pub open spec fn writes_char(digits: Seq<u8>, radix: int, c: char) -> bool {
    0 < digits.len() <= 12 && numbers::digits_value(digits, radix) == Some(c as int)
}

/// The name of an entity that stands for a character.
pub open spec fn is_entity_of(c: char, entity: Seq<u8>) -> bool {
    ||| c == '&' && entity == "amp".spec_bytes()
    ||| c == '<' && entity == "lt".spec_bytes()
    ||| c == '>' && entity == "gt".spec_bytes()
    ||| c == '"' && entity == "quot".spec_bytes()
    ||| c == '\'' && entity == "apos".spec_bytes()
    ||| exists|digits: Seq<u8>| #[trigger]
        writes_char(digits, 16, c) && entity == seq![0x23u8, 0x78u8] + digits
    ||| exists|digits: Seq<u8>| #[trigger]
        writes_char(digits, 10, c) && entity == seq![0x23u8] + digits
}

/// Bytes that stand for a character: those of the character itself, unless it is `&`, or an
/// entity or a character reference.
pub open spec fn stands_for(c: char, piece: Seq<u8>) -> bool {
    ||| c != '&' && piece == encode_utf8(seq![c])
    ||| exists|entity: Seq<u8>| #[trigger]
        is_entity_of(c, entity) && piece == written_entity(entity)
}

/// The text of character data from an index on is the text of what stands there.
proof fn lemma_shift(raw: Seq<u8>, i: int, cursor: int)
    requires
        0 <= i <= raw.len(),
        0 <= cursor,
    ensures
        unescaped_from(raw, i + cursor) == unescaped_from(raw.skip(i), cursor),
    decreases raw.len() - i - cursor,
{
    let rest = raw.skip(i);
    if cursor < rest.len() {
        let len = rest.len() as int;
        bytes::lemma_byte_shift(raw, i, cursor, len, 0x26);
        bytes::lemma_byte_from(rest, cursor, len, 0x26);
        let amp = bytes::byte_from(rest, cursor, len, 0x26);
        assert(raw.skip(i + cursor) =~= rest.skip(cursor));
        if amp < len {
            let limit = entity_limit(rest, amp);
            assert(entity_limit(raw, i + amp) == i + limit);
            bytes::lemma_byte_shift(raw, i, amp + 1, limit, 0x3b);
            bytes::lemma_byte_from(rest, amp + 1, limit, 0x3b);
            let semi = bytes::byte_from(rest, amp + 1, limit, 0x3b);
            assert(raw.subrange(i + cursor, i + amp) =~= rest.subrange(cursor, amp));
            assert(raw.subrange(i + amp + 1, i + semi) =~= rest.subrange(amp + 1, semi));
            if semi < limit {
                lemma_shift(raw, i, semi + 1);
            } else {
                lemma_shift(raw, i, amp + 1);
            }
        }
    }
}

/// Character data up to its first `&` stands for itself.
proof fn lemma_head(raw: Seq<u8>)
    ensures
        ({
            let amp = bytes::byte_from(raw, 0, raw.len() as int, 0x26);
            unescaped(raw) == text::text_of_bytes(raw.take(amp)) + unescaped_from(raw, amp)
        }),
{
    let amp = bytes::byte_from(raw, 0, raw.len() as int, 0x26);
    bytes::lemma_byte_from(raw, 0, raw.len() as int, 0x26);
    let nothing = Seq::<char>::empty();
    assert(encode_utf8(nothing) =~= Seq::<u8>::empty());
    text::lemma_text_of_encoded(nothing);
    if raw.len() == 0 {
        assert(raw.take(amp) =~= encode_utf8(nothing));
        assert(unescaped(raw) =~= nothing + nothing);
    } else if amp == raw.len() {
        assert(raw.take(amp) =~= raw.skip(0));
        assert(unescaped(raw) =~= text::text_of_bytes(raw.take(amp)) + unescaped_from(raw, amp));
    } else {
        assert(raw.subrange(0, amp) =~= raw.take(amp));
        assert(raw.subrange(amp, amp) =~= encode_utf8(nothing));
        assert(bytes::byte_from(raw, amp, raw.len() as int, 0x26) == amp);
        let semi = bytes::byte_from(raw, amp + 1, entity_limit(raw, amp), 0x3b);
        let after = if semi < entity_limit(raw, amp) {
            entity_text(raw.subrange(amp + 1, semi)) + unescaped_from(raw, semi + 1)
        } else {
            seq!['&'] + unescaped_from(raw, amp + 1)
        };
        assert(unescaped_from(raw, amp) == nothing + after);
        assert(nothing + after =~= after);
    }
}

/// What the names of the entities stand for.
proof fn lemma_named_entities(c: char, entity: Seq<u8>)
    requires
        ({
            ||| c == '&' && entity == "amp".spec_bytes()
            ||| c == '<' && entity == "lt".spec_bytes()
            ||| c == '>' && entity == "gt".spec_bytes()
            ||| c == '"' && entity == "quot".spec_bytes()
            ||| c == '\'' && entity == "apos".spec_bytes()
        }),
    ensures
        entity_text(entity) == seq![c],
        entity.len() <= 14,
        !entity.contains(0x3b),
{
    lemma_entity_names();
    assert(entity.len() <= 4);
    assert forall|i: int| 0 <= i < entity.len() implies entity[i] != 0x3b by {}
}

/// The bytes of the names of the entities.
proof fn lemma_entity_names()
    ensures
        "amp".spec_bytes() == seq![0x61u8, 0x6du8, 0x70u8],
        "lt".spec_bytes() == seq![0x6cu8, 0x74u8],
        "gt".spec_bytes() == seq![0x67u8, 0x74u8],
        "quot".spec_bytes() == seq![0x71u8, 0x75u8, 0x6fu8, 0x74u8],
        "apos".spec_bytes() == seq![0x61u8, 0x70u8, 0x6fu8, 0x73u8],
{
    reveal_strlit("amp");
    reveal_strlit("lt");
    reveal_strlit("gt");
    reveal_strlit("quot");
    reveal_strlit("apos");
    is_ascii_chars_encode_utf8("amp"@);
    is_ascii_chars_encode_utf8("lt"@);
    is_ascii_chars_encode_utf8("gt"@);
    is_ascii_chars_encode_utf8("quot"@);
    is_ascii_chars_encode_utf8("apos"@);
    assert("amp".spec_bytes() =~= seq![0x61u8, 0x6du8, 0x70u8]);
    assert("lt".spec_bytes() =~= seq![0x6cu8, 0x74u8]);
    assert("gt".spec_bytes() =~= seq![0x67u8, 0x74u8]);
    assert("quot".spec_bytes() =~= seq![0x71u8, 0x75u8, 0x6fu8, 0x74u8]);
    assert("apos".spec_bytes() =~= seq![0x61u8, 0x70u8, 0x6fu8, 0x73u8]);
}

/// What the digits of a character reference stand for.
proof fn lemma_reference(c: char, digits: Seq<u8>, radix: int, entity: Seq<u8>)
    requires
        radix == 10 || radix == 16,
        writes_char(digits, radix, c),
    ensures
        reference_text(entity, digits, radix) == seq![c],
        !digits.contains(0x3b),
        radix == 10 ==> 0x30 <= digits[0] <= 0x39,
{
    let chars = digits.map_values(|b: u8| b as char);
    assert forall|i: int| 0 <= i < digits.len() implies 0x30 <= #[trigger] digits[i] <= 0x66
        && digits[i] != 0x3b && (radix == 10 ==> digits[i] <= 0x39) by {
        numbers::lemma_each_digit(digits, radix, i);
    }
    assert forall|i: int| 0 <= i < chars.len() implies '\0' <= #[trigger] chars[i] <= '\u{7f}' by {
        assert(chars[i] == digits[i] as char);
    }
    is_ascii_chars_encode_utf8(chars);
    assert(encode_utf8(chars) =~= digits) by {
        assert forall|i: int| 0 <= i < digits.len() implies encode_utf8(chars)[i]
            == digits[i] by {
            assert(chars[i] as u8 == encode_utf8(chars)[i]);
        }
    }
    encode_utf8_valid_utf8(chars);
    assert(numbers::unsigned_digits(digits) == digits);
    char_is_scalar(c);
    text::lemma_char_code(c);
    char_u32_cast(c, c as u32);
}

/// What entities and character references stand for.
proof fn lemma_entity_of(c: char, entity: Seq<u8>)
    requires
        is_entity_of(c, entity),
    ensures
        entity_text(entity) == seq![c],
        entity.len() <= 14,
        !entity.contains(0x3b),
{
    lemma_entity_names();
    if exists|digits: Seq<u8>| #[trigger]
        writes_char(digits, 16, c) && entity == seq![0x23u8, 0x78u8] + digits {
        let digits = choose|digits: Seq<u8>| #[trigger]
            writes_char(digits, 16, c) && entity == seq![0x23u8, 0x78u8] + digits;
        lemma_reference(c, digits, 16, entity);
        assert(entity[0] == 0x23 && entity[1] == 0x78);
        assert(entity.skip(2) =~= digits);
        assert forall|i: int| 0 <= i < entity.len() implies entity[i] != 0x3b by {
            if i >= 2 {
                assert(digits.contains(digits[i - 2]));
            }
        }
    } else if exists|digits: Seq<u8>| #[trigger]
        writes_char(digits, 10, c) && entity == seq![0x23u8] + digits {
        let digits = choose|digits: Seq<u8>| #[trigger]
            writes_char(digits, 10, c) && entity == seq![0x23u8] + digits;
        lemma_reference(c, digits, 10, entity);
        assert(entity[0] == 0x23 && entity[1] == digits[0]);
        assert(entity.skip(1) =~= digits);
        assert forall|i: int| 0 <= i < entity.len() implies entity[i] != 0x3b by {
            if i >= 1 {
                assert(digits.contains(digits[i - 1]));
            }
        }
    } else {
        lemma_named_entities(c, entity);
    }
}

/// An entity at the beginning of character data gives its character.
proof fn lemma_first_entity(c: char, entity: Seq<u8>, rest: Seq<u8>)
    requires
        is_entity_of(c, entity),
    ensures
        unescaped(written_entity(entity) + rest) == seq![c] + unescaped(rest),
        bytes::byte_from(
            written_entity(entity) + rest,
            0,
            (written_entity(entity) + rest).len() as int,
            0x26,
        ) == 0,
{
    lemma_entity_of(c, entity);
    let raw = written_entity(entity) + rest;
    let semi = entity.len() as int + 1;
    assert(raw[0] == 0x26);
    assert(raw[semi] == 0x3b);
    assert forall|k: int| 1 <= k < semi implies raw[k] != 0x3b by {
        assert(raw[k] == entity[k - 1]);
        assert(entity.contains(entity[k - 1]));
    }
    bytes::lemma_byte_past(raw, 1, semi, entity_limit(raw, 0), 0x3b);
    assert(raw.subrange(1, semi) =~= entity);
    assert(raw.skip(semi + 1) =~= rest);
    lemma_shift(raw, semi + 1, 0);
    let nothing = Seq::<char>::empty();
    assert(encode_utf8(nothing) =~= Seq::<u8>::empty());
    text::lemma_text_of_encoded(nothing);
    assert(raw.subrange(0, 0) =~= encode_utf8(nothing));
    assert(unescaped(raw) =~= nothing + (seq![c] + unescaped(rest)));
}

/// The characters of `s` before the first `&` of what stands for it.
proof fn lemma_pieces(s: Seq<char>, pieces: Seq<Seq<u8>>) -> (run: Seq<char>)
    requires
        s.len() == pieces.len(),
        forall|i: int| 0 <= i < s.len() ==> stands_for(#[trigger] s[i], pieces[i]),
    ensures
        ({
            let raw = bytes::joined(pieces);
            let amp = bytes::byte_from(raw, 0, raw.len() as int, 0x26);
            &&& raw.take(amp) == encode_utf8(run)
            &&& s == run + unescaped_from(raw, amp)
        }),
    decreases s.len(),
{
    let raw = bytes::joined(pieces);
    let len = raw.len() as int;
    let amp = bytes::byte_from(raw, 0, len, 0x26);
    let nothing = Seq::<char>::empty();
    assert(encode_utf8(nothing) =~= Seq::<u8>::empty());
    if s.len() == 0 {
        assert(raw.take(amp) =~= encode_utf8(nothing));
        assert(s =~= nothing + unescaped_from(raw, amp));
        nothing
    } else {
        let c = s[0];
        let piece = pieces[0];
        let others = s.drop_first();
        let rest = bytes::joined(pieces.drop_first());
        assert forall|i: int| 0 <= i < others.len() implies stands_for(
            #[trigger] others[i],
            pieces.drop_first()[i],
        ) by {
            assert(stands_for(s[i + 1], pieces[i + 1]));
        }
        let run = lemma_pieces(others, pieces.drop_first());
        let rest_len = rest.len() as int;
        let rest_amp = bytes::byte_from(rest, 0, rest_len, 0x26);
        bytes::lemma_byte_from(rest, 0, rest_len, 0x26);
        assert(stands_for(c, piece));
        assert(s =~= seq![c] + others);
        if c != '&' && piece == encode_utf8(seq![c]) {
            text::lemma_char_code(c);
            text::lemma_char_bytes(c, 0x26);
            let m = piece.len() as int;
            assert forall|k: int| 0 <= k < m implies raw[k] != 0x26 by {
                assert(raw[k] == piece[k]);
                assert(piece.contains(piece[k]));
            }
            assert(raw.skip(m) =~= rest);
            bytes::lemma_byte_past(raw, 0, m, len, 0x26);
            bytes::lemma_byte_shift(raw, m, 0, rest_len, 0x26);
            assert(amp == m + rest_amp);
            assert(raw.take(amp) =~= piece + rest.take(rest_amp));
            text::lemma_encode_concat(seq![c], run);
            lemma_shift(raw, m, rest_amp);
            assert(s =~= (seq![c] + run) + unescaped_from(raw, amp));
            seq![c] + run
        } else {
            let entity = choose|entity: Seq<u8>| #[trigger]
                is_entity_of(c, entity) && piece == written_entity(entity);
            lemma_first_entity(c, entity, rest);
            lemma_head(rest);
            text::lemma_text_of_encoded(run);
            assert(raw == written_entity(entity) + rest);
            assert(unescaped(rest) == others);
            assert(raw.take(amp) =~= encode_utf8(nothing));
            assert(s =~= nothing + unescaped_from(raw, amp));
            nothing
        }
    }
}

/// A text comes back from what stands for it in character data: each of its characters as it
/// is, as an entity or as a character reference, as long as no `&` stands for itself.
pub proof fn escaped_text_comes_back(s: Seq<char>, pieces: Seq<Seq<u8>>)
    requires
        s.len() == pieces.len(),
        forall|i: int| 0 <= i < s.len() ==> stands_for(#[trigger] s[i], pieces[i]),
    ensures
        unescaped(bytes::joined(pieces)) == s,
{
    let run = lemma_pieces(s, pieces);
    lemma_head(bytes::joined(pieces));
    text::lemma_text_of_encoded(run);
}

/// What stands before the first `&` stands for itself, and the rest is read as if it stood
/// alone.
pub proof fn text_before_entities_stays(front: Seq<u8>, rest: Seq<u8>)
    requires
        !front.contains(0x26),
        rest.len() == 0 || rest[0] == 0x26,
    ensures
        unescaped(front + rest) == text::text_of_bytes(front) + unescaped(rest),
{
    let raw = front + rest;
    let n = front.len() as int;
    assert forall|k: int| 0 <= k < n implies raw[k] != 0x26 by {
        assert(front.contains(front[k]));
    }
    bytes::lemma_byte_past(raw, 0, n, raw.len() as int, 0x26);
    if rest.len() > 0 {
        assert(raw[n] == 0x26);
    }
    lemma_head(raw);
    assert(raw.take(n) =~= front);
    assert(raw.skip(n) =~= rest);
    lemma_shift(raw, n, 0);
}

/// An entity of up to fourteen bytes between `&` and `;` gives its text where it stands.
pub proof fn entity_gives_its_text(entity: Seq<u8>, rest: Seq<u8>)
    requires
        entity.len() <= 14,
        !entity.contains(0x3b),
    ensures
        unescaped(written_entity(entity) + rest) == entity_text(entity) + unescaped(rest),
{
    let raw = written_entity(entity) + rest;
    let semi = entity.len() as int + 1;
    assert(raw[0] == 0x26);
    assert(raw[semi] == 0x3b);
    assert forall|k: int| 1 <= k < semi implies raw[k] != 0x3b by {
        assert(raw[k] == entity[k - 1]);
        assert(entity.contains(entity[k - 1]));
    }
    bytes::lemma_byte_past(raw, 1, semi, entity_limit(raw, 0), 0x3b);
    assert(raw.subrange(1, semi) =~= entity);
    assert(raw.skip(semi + 1) =~= rest);
    lemma_shift(raw, semi + 1, 0);
    let nothing = Seq::<char>::empty();
    assert(encode_utf8(nothing) =~= Seq::<u8>::empty());
    text::lemma_text_of_encoded(nothing);
    assert(raw.subrange(0, 0) =~= encode_utf8(nothing));
    assert(unescaped(raw) =~= nothing + (entity_text(entity) + unescaped(rest)));
}

/// An `&` that no `;` follows among the next fifteen bytes stands for itself, and what follows
/// is read on.
pub proof fn lone_ampersand_stays(rest: Seq<u8>)
    requires
        forall|k: int| 0 <= k < rest.len() && k < 15 ==> #[trigger] rest[k] != 0x3b,
    ensures
        unescaped(seq![0x26u8] + rest) == seq!['&'] + unescaped(rest),
{
    let raw = seq![0x26u8] + rest;
    assert(raw[0] == 0x26);
    let limit = entity_limit(raw, 0);
    assert forall|k: int| 1 <= k < limit implies raw[k] != 0x3b by {
        assert(raw[k] == rest[k - 1]);
    }
    bytes::lemma_byte_past(raw, 1, limit, limit, 0x3b);
    assert(raw.skip(1) =~= rest);
    lemma_shift(raw, 1, 0);
    let nothing = Seq::<char>::empty();
    assert(encode_utf8(nothing) =~= Seq::<u8>::empty());
    text::lemma_text_of_encoded(nothing);
    assert(raw.subrange(0, 0) =~= encode_utf8(nothing));
    assert(unescaped(raw) =~= nothing + (seq!['&'] + unescaped(rest)));
}

/// An entity whose name is not known stays as it was written, and so does a reference without
/// a number. The number of no character gives the replacement character.
pub proof fn unknown_entities_stay(name: Seq<char>, digits: Seq<u8>, code: int)
    requires
        name.len() > 0,
        name[0] != '#',
        name != "amp"@,
        name != "lt"@,
        name != "gt"@,
        name != "quot"@,
        name != "apos"@,
        numbers::digits_value(digits, 10) == Some(code),
        digits.len() > 0,
        0xd800 <= code <= 0xdfff || 0x10ffff < code <= u32::MAX,
    ensures
        entity_text(encode_utf8(name)) == seq!['&'] + name + seq![';'],
        entity_text(seq![0x23u8] + digits) == seq!['\u{fffd}'],
{
    let entity = encode_utf8(name);
    encode_utf8_valid_utf8(name);
    encode_utf8_decode_utf8(name);
    encode_utf8_decode_utf8("amp"@);
    encode_utf8_decode_utf8("lt"@);
    encode_utf8_decode_utf8("gt"@);
    encode_utf8_decode_utf8("quot"@);
    encode_utf8_decode_utf8("apos"@);
    if entity.len() > 0 && entity[0] == 0x23 {
        let one = seq![name[0]];
        let rest = name.drop_first();
        assert(name =~= one + rest);
        text::lemma_encode_concat(one, rest);
        text::lemma_last_byte(one);
        text::lemma_char_code(name[0]);
        assert(encode_utf8(one).contains(encode_utf8(one)[0]));
        assert(entity[0] == encode_utf8(one)[0]);
        text::lemma_char_bytes(name[0], 0x23);
    }
    lemma_entity_names();
    let reference = seq![0x23u8] + digits;
    assert(reference[0] == 0x23 && reference[1] == digits[0]);
    assert(reference.skip(1) =~= digits);
    numbers::lemma_each_digit(digits, 10, 0);
    lemma_digits_are_text(digits);
    assert(numbers::unsigned_digits(digits) == digits);
}

proof fn lemma_digits_are_text(digits: Seq<u8>)
    requires
        numbers::digits_value(digits, 10) is Some,
    ensures
        valid_utf8(digits),
{
    let chars = digits.map_values(|b: u8| b as char);
    assert forall|i: int| 0 <= i < digits.len() implies 0x30 <= #[trigger] digits[i] <= 0x39 by {
        numbers::lemma_each_digit(digits, 10, i);
    }
    assert forall|i: int| 0 <= i < chars.len() implies '\0' <= #[trigger] chars[i] <= '\u{7f}' by {
        assert(chars[i] == digits[i] as char);
    }
    is_ascii_chars_encode_utf8(chars);
    assert(encode_utf8(chars) =~= digits) by {
        assert forall|i: int| 0 <= i < digits.len() implies encode_utf8(chars)[i]
            == digits[i] by {
            assert(chars[i] as u8 == encode_utf8(chars)[i]);
        }
    }
    encode_utf8_valid_utf8(chars);
}

/// A reference in base sixteen may have its `x` in either case, and reads as one in base ten
/// does: the character of its number, or the replacement character where there is none. What
/// holds no number stays as it was written.
pub proof fn references_give_numbered_characters(digits: Seq<u8>, code: int, t: Seq<char>)
    requires
        digits.len() > 0,
        valid_utf8(digits),
        digits[0] != 0x2b,
        numbers::digits_value(digits, 16) == Some(code),
        code <= u32::MAX,
        t.len() > 0,
        t[0] as u32 <= 0x7f,
        t[0] != 'x' && t[0] != 'X' && t[0] != '+',
        numbers::digits_value(encode_utf8(t), 10) is None,
    ensures
        entity_text(seq![0x23u8, 0x78u8] + digits) == entity_text(seq![0x23u8, 0x58u8] + digits),
        0 <= code <= 0xd7ff || 0xe000 <= code <= 0x10ffff ==> entity_text(
            seq![0x23u8, 0x78u8] + digits,
        ) == seq![code as char],
        0xd800 <= code <= 0xdfff || 0x10ffff < code ==> entity_text(seq![0x23u8, 0x78u8] + digits)
            == seq!['\u{fffd}'],
        entity_text(encode_utf8(seq!['#'] + t)) == seq!['&', '#'] + t + seq![';'],
{
    lemma_entity_names();
    let lower = seq![0x23u8, 0x78u8] + digits;
    let upper = seq![0x23u8, 0x58u8] + digits;
    assert(lower[0] == 0x23 && lower[1] == 0x78);
    assert(upper[0] == 0x23 && upper[1] == 0x58);
    assert(lower.skip(2) =~= digits);
    assert(upper.skip(2) =~= digits);
    assert(numbers::unsigned_digits(digits) == digits);
    numbers::lemma_value_is_nonnegative(digits);
    let whole = seq!['#'] + t;
    let entity = encode_utf8(whole);
    text::lemma_encode_concat(seq!['#'], t);
    is_ascii_chars_encode_utf8(seq!['#']);
    let inner = encode_utf8(t);
    assert(encode_utf8(seq!['#']) =~= seq![0x23u8]);
    assert(entity[0] == 0x23);
    assert(entity.skip(1) =~= inner);
    let one = seq![t[0]];
    assert(t =~= one + t.drop_first());
    text::lemma_encode_concat(one, t.drop_first());
    text::lemma_last_byte(one);
    text::lemma_ascii_len(one);
    text::lemma_char_code(t[0]);
    assert(inner[0] == encode_utf8(one)[0]);
    assert(encode_utf8(one)[0] == encode_utf8(one).last());
    assert(entity[1] == inner[0]);
    encode_utf8_valid_utf8(t);
    encode_utf8_valid_utf8(whole);
    encode_utf8_decode_utf8(whole);
    assert(entity_text(entity) =~= seq!['&', '#'] + t + seq![';']);
}

/// Bytes that are no text are left out of an entity that is not known, and a reference whose
/// digits are no text gives nothing.
pub proof fn broken_entities_give_no_text(entity: Seq<u8>, digits: Seq<u8>)
    requires
        !valid_utf8(entity),
        entity[0] != 0x23,
        !valid_utf8(digits),
        digits.len() > 0,
        digits[0] != 0x78,
        digits[0] != 0x58,
    ensures
        entity_text(entity) == seq!['&', ';'],
        entity_text(seq![0x23u8] + digits).len() == 0,
        entity_text(seq![0x23u8, 0x78u8] + digits).len() == 0,
{
    lemma_entity_names();
    encode_utf8_valid_utf8("amp"@);
    encode_utf8_valid_utf8("lt"@);
    encode_utf8_valid_utf8("gt"@);
    encode_utf8_valid_utf8("quot"@);
    encode_utf8_valid_utf8("apos"@);
    assert(seq!['&'] + Seq::<char>::empty() + seq![';'] =~= seq!['&', ';']);
    let decimal = seq![0x23u8] + digits;
    assert(decimal[0] == 0x23 && decimal[1] == digits[0]);
    assert(decimal.skip(1) =~= digits);
    let hex = seq![0x23u8, 0x78u8] + digits;
    assert(hex[0] == 0x23 && hex[1] == 0x78);
    assert(hex.skip(2) =~= digits);
}

} // verus!
