//! Character boundaries in UTF-8 text.

use crate::text;
use vstd::prelude::*;
use vstd::string::*;
use vstd::utf8::*;

verus! {

/// The last boundary of a text at or before an offset.
pub open spec fn is_floor(bytes: Seq<u8>, index: int, r: int) -> bool {
    &&& 0 <= r <= bytes.len()
    &&& is_char_boundary(bytes, r)
    &&& if index >= bytes.len() {
        r == bytes.len()
    } else {
        r <= index && forall|k: int| r < k <= index ==> !#[trigger] is_char_boundary(bytes, k)
    }
}

/// The first boundary of a text at or after an offset.
pub open spec fn is_ceil(bytes: Seq<u8>, index: int, r: int) -> bool {
    &&& 0 <= r <= bytes.len()
    &&& is_char_boundary(bytes, r)
    &&& if index >= bytes.len() {
        r == bytes.len()
    } else {
        index <= r && forall|k: int| index <= k < r ==> !#[trigger] is_char_boundary(bytes, k)
    }
}

/// There is one last boundary before an offset, and one first boundary after it.
pub proof fn lemma_boundaries_unique(bytes: Seq<u8>, index: int, a: int, b: int)
    ensures
        is_floor(bytes, index, a) && is_floor(bytes, index, b) ==> a == b,
        is_ceil(bytes, index, a) && is_ceil(bytes, index, b) ==> a == b,
{
}

/// The last boundary at or before an offset.
pub fn floor_char_boundary(text: &str, index: usize) -> (r: usize)
    ensures
        is_floor(text.spec_bytes(), index as int, r as int),
{
    let len: usize = text::byte_len(text);
    proof {
        encode_utf8_valid_utf8(text@);
        is_char_boundary_start_end_of_seq(text.spec_bytes());
    }
    if index >= len {
        return len;
    }
    let mut r: usize = index;
    while !text.is_char_boundary(r)
        invariant
            r <= index < len == text.spec_bytes().len(),
            is_char_boundary(text.spec_bytes(), 0),
            forall|k: int|
                r < k <= index ==> !#[trigger] is_char_boundary(text.spec_bytes(), k),
        decreases r,
    {
        r = r - 1;
    }
    r
}

/// The first boundary at or after an offset.
pub fn ceil_char_boundary(text: &str, index: usize) -> (r: usize)
    ensures
        is_ceil(text.spec_bytes(), index as int, r as int),
{
    let len: usize = text::byte_len(text);
    proof {
        encode_utf8_valid_utf8(text@);
        is_char_boundary_start_end_of_seq(text.spec_bytes());
    }
    if index >= len {
        return len;
    }
    let mut r: usize = index;
    while !text.is_char_boundary(r)
        invariant
            index <= r <= len == text.spec_bytes().len(),
            is_char_boundary(text.spec_bytes(), len as int),
            forall|k: int|
                index <= k < r ==> !#[trigger] is_char_boundary(text.spec_bytes(), k),
        decreases len - r,
    {
        r = r + 1;
    }
    r
}

/// What lies between two boundaries is text.
pub proof fn lemma_slice(bytes: Seq<u8>, from: int, to: int)
    requires
        valid_utf8(bytes),
        0 <= from <= to <= bytes.len(),
        is_char_boundary(bytes, from),
        is_char_boundary(bytes, to),
    ensures
        valid_utf8(bytes.subrange(from, to)),
        valid_utf8(bytes.subrange(0, to)),
        is_char_boundary(bytes.subrange(0, to), from),
{
    let front = bytes.subrange(0, to);
    valid_utf8_split(bytes, to);
    is_char_boundary_start_end_of_seq(front);
    if from < to {
        is_char_boundary_iff_not_is_continuation_byte(bytes, from);
        is_char_boundary_iff_not_is_continuation_byte(front, from);
        assert(front[from] == bytes[from]);
    }
    valid_utf8_split(front, from);
    assert(front.subrange(from, front.len() as int) =~= bytes.subrange(from, to));
}

/// The text between two boundaries.
pub fn slice(text: &str, from: usize, to: usize) -> (r: &str)
    requires
        from <= to <= text.spec_bytes().len(),
        is_char_boundary(text.spec_bytes(), from as int),
        is_char_boundary(text.spec_bytes(), to as int),
    ensures
        r@ == decode_utf8(text.spec_bytes().subrange(from as int, to as int)),
{
    proof {
        encode_utf8_valid_utf8(text@);
        lemma_slice(text.spec_bytes(), from as int, to as int);
    }
    let front = text.split_at(to).0;
    let r = front.split_at(from).1;
    proof {
        assert(r.spec_bytes() =~= text.spec_bytes().subrange(from as int, to as int));
        encode_utf8_decode_utf8(r@);
    }
    r
}

/// A place between two characters is its own boundary on both sides; any other lies between
/// two of them, next to each other.
pub proof fn boundaries_enclose_a_place(bytes: Seq<u8>, index: int, before: int, after: int)
    requires
        0 <= index <= bytes.len(),
        is_floor(bytes, index, before),
        is_ceil(bytes, index, after),
    ensures
        before <= index <= after,
        is_char_boundary(bytes, index) ==> before == index && after == index,
        !is_char_boundary(bytes, index) ==> before < index < after,
        forall|k: int| before < k < after ==> k == index || !#[trigger] is_char_boundary(bytes, k),
{
}

} // verus!
