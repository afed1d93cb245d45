//! Searching in byte strings.

use vstd::prelude::*;

verus! {

/// The first index in `from..to` at which `s` holds `b`, or `to` where there is none.
pub open spec fn byte_from(s: Seq<u8>, from: int, to: int, b: u8) -> int
    decreases to - from,
{
    if from >= to {
        to
    } else if s[from] == b {
        from
    } else {
        byte_from(s, from + 1, to, b)
    }
}

/// What `byte_from` finds lies in the range, and no earlier index of it holds the byte.
pub proof fn lemma_byte_from(s: Seq<u8>, from: int, to: int, b: u8)
    requires
        from <= to,
    ensures
        from <= byte_from(s, from, to, b) <= to,
        byte_from(s, from, to, b) < to ==> s[byte_from(s, from, to, b)] == b,
        forall|k: int| from <= k < byte_from(s, from, to, b) ==> s[k] != b,
    decreases to - from,
{
    if from < to && s[from] != b {
        lemma_byte_from(s, from + 1, to, b);
    }
}

/// A byte is looked for past bytes that are others.
pub proof fn lemma_byte_past(s: Seq<u8>, from: int, mid: int, to: int, b: u8)
    requires
        from <= mid <= to,
        forall|k: int| from <= k < mid ==> s[k] != b,
    ensures
        byte_from(s, from, to, b) == byte_from(s, mid, to, b),
    decreases mid - from,
{
    if from < mid {
        lemma_byte_past(s, from + 1, mid, to, b);
    }
}

/// A byte is found at the same place when bytes before the range are left out.
pub proof fn lemma_byte_shift(s: Seq<u8>, i: int, from: int, to: int, b: u8)
    requires
        0 <= i,
        0 <= from <= to,
        i + to <= s.len(),
    ensures
        byte_from(s, i + from, i + to, b) == i + byte_from(s.skip(i), from, to, b),
    decreases to - from,
{
    if from < to {
        assert(s.skip(i)[from] == s[i + from]);
        lemma_byte_shift(s, i, from + 1, to, b);
    }
}

/// Finds a byte in a range.
pub fn find_byte(s: &[u8], from: usize, to: usize, b: u8) -> (r: usize)
    requires
        from <= to <= s@.len(),
    ensures
        r == byte_from(s@, from as int, to as int, b),
        from <= r <= to,
        r < to ==> s@[r as int] == b,
{
    let mut i: usize = from;
    while i < to
        invariant
            from <= i <= to <= s@.len(),
            byte_from(s@, from as int, to as int, b) == byte_from(s@, i as int, to as int, b),
        decreases to - i,
    {
        if s[i] == b {
            return i;
        }
        i = i + 1;
    }
    to
}

/// Pieces of bytes, one after the other.
pub open spec fn joined(pieces: Seq<Seq<u8>>) -> Seq<u8>
    decreases pieces.len(),
{
    if pieces.len() == 0 {
        Seq::empty()
    } else {
        pieces[0] + joined(pieces.drop_first())
    }
}

/// `needle` stands in `s` at index `k`.
pub open spec fn run_at(s: Seq<u8>, k: int, needle: Seq<u8>) -> bool {
    0 <= k && k + needle.len() <= s.len() && s.subrange(k, k + needle.len()) == needle
}

/// The first index from `from` on at which `needle` stands in `s`.
pub open spec fn run_from(s: Seq<u8>, from: int, needle: Seq<u8>) -> Option<int>
    decreases s.len() - from + 1,
{
    if from < 0 || from + needle.len() > s.len() {
        None
    } else if run_at(s, from, needle) {
        Some(from)
    } else {
        run_from(s, from + 1, needle)
    }
}

/// What `run_from` finds is an occurrence, and the first; where it finds none there is none.
pub proof fn lemma_run_from(s: Seq<u8>, from: int, needle: Seq<u8>)
    requires
        0 <= from,
    ensures
        run_from(s, from, needle) matches Some(k) ==> from <= k && run_at(s, k, needle)
            && forall|j: int| from <= j < k ==> !run_at(s, j, needle),
        run_from(s, from, needle) is None ==> forall|j: int| from <= j ==> !run_at(s, j, needle),
    decreases s.len() - from + 1,
{
    if from + needle.len() <= s.len() && !run_at(s, from, needle) {
        lemma_run_from(s, from + 1, needle);
    }
}

/// An occurrence before which there is none is the one that is found.
pub proof fn lemma_first_run(s: Seq<u8>, from: int, k: int, needle: Seq<u8>)
    requires
        0 <= from <= k,
        run_at(s, k, needle),
        forall|j: int| from <= j < k ==> !#[trigger] run_at(s, j, needle),
    ensures
        run_from(s, from, needle) == Some(k),
{
    lemma_run_from(s, from, needle);
}

/// What is found in bytes is found in them when more bytes follow.
pub proof fn lemma_run_extends(s: Seq<u8>, more: Seq<u8>, from: int, needle: Seq<u8>)
    requires
        run_from(s, from, needle) is Some,
    ensures
        run_from(s + more, from, needle) == run_from(s, from, needle),
    decreases s.len() - from + 1,
{
    assert((s + more).subrange(from, from + needle.len()) =~= s.subrange(
        from,
        from + needle.len(),
    ));
    if !run_at(s, from, needle) {
        lemma_run_extends(s, more, from + 1, needle);
    }
}

/// Whether `needle` stands in `s` at index `k`.
pub fn stands_at(s: &[u8], k: usize, needle: &[u8]) -> (r: bool)
    ensures
        r == run_at(s@, k as int, needle@),
{
    let len: usize = s.len();
    if k > len || needle.len() > len - k {
        return false;
    }
    let mut i: usize = 0;
    while i < needle.len()
        invariant
            i <= needle@.len(),
            len == s@.len(),
            k + needle@.len() <= len,
            forall|j: int| 0 <= j < i ==> s@[k + j] == needle@[j],
        decreases needle@.len() - i,
    {
        if s[k + i] != needle[i] {
            assert(s@.subrange(k as int, k + needle@.len())[i as int] != needle@[i as int]);
            return false;
        }
        i = i + 1;
    }
    assert(s@.subrange(k as int, k + needle@.len()) =~= needle@);
    true
}

/// Finds the first occurrence of `needle` from `from` on.
pub fn find_run(s: &[u8], from: usize, needle: &[u8]) -> (r: Option<usize>)
    requires
        from <= s@.len(),
    ensures
        match r {
            Some(k) => run_from(s@, from as int, needle@) == Some(k as int) && from <= k && k
                + needle@.len() <= s@.len(),
            None => run_from(s@, from as int, needle@) is None,
        },
{
    let mut i: usize = from;
    while needle.len() <= s.len() - i
        invariant
            from <= i <= s@.len(),
            run_from(s@, from as int, needle@) == run_from(s@, i as int, needle@),
        decreases s@.len() - i,
    {
        if stands_at(s, i, needle) {
            return Some(i);
        }
        if i == s.len() {
            assert(s@.subrange(i as int, i as int) =~= needle@);
            return None;
        }
        i = i + 1;
    }
    None
}

/// `needle` stands somewhere in `s`.
pub open spec fn contains_run(s: Seq<u8>, needle: Seq<u8>) -> bool {
    exists|k: int| run_at(s, k, needle)
}

/// Whether `needle` stands somewhere in `s`.
pub fn has_run(s: &[u8], needle: &[u8]) -> (r: bool)
    ensures
        r == contains_run(s@, needle@),
{
    let found = find_run(s, 0, needle);
    proof {
        lemma_run_from(s@, 0, needle@);
        if let Some(k) = found {
            assert(run_at(s@, k as int, needle@));
        }
    }
    found.is_some()
}

} // verus!
