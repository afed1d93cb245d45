//! File paths.
//!
//! A path is a string of bytes that slashes part into segments. Slashes that follow one
//! another count as one, a slash at the end counts for nothing, and so does a segment `.`
//! that does not begin the path.

use crate::bytes;
use crate::order;
use crate::text;
use vstd::prelude::*;
use vstd::string::*;
use vstd::utf8::*;

verus! {

/// A path, as the bytes that the operating system knows it by.
#[derive(Debug)]
pub struct FilePath {
    pub bytes: Vec<u8>,
}

impl View for FilePath {
    type V = Seq<u8>;

    open spec fn view(&self) -> Seq<u8> {
        self.bytes@
    }
}

/// The path starts at the root.
pub open spec fn is_absolute(p: Seq<u8>) -> bool {
    p.len() > 0 && p[0] == 0x2f
}

/// The segment counts: a single dot does only where it begins the path.
pub open spec fn is_kept(p: Seq<u8>, from: int, to: int) -> bool {
    !(to == from + 1 && p[from] == 0x2e && from > 0)
}

/// The segments that count from index `i` on, as half-open ranges.
pub open spec fn segments_from(p: Seq<u8>, i: int) -> Seq<(int, int)>
    decreases p.len() - i,
{
    if i < 0 || i >= p.len() {
        Seq::empty()
    } else if p[i] == 0x2f {
        segments_from(p, i + 1)
    } else {
        proof {
            bytes::lemma_byte_from(p, i + 1, p.len() as int, 0x2f);
        }
        let end = bytes::byte_from(p, i + 1, p.len() as int, 0x2f);
        if is_kept(p, i, end) {
            seq![(i, end)] + segments_from(p, end)
        } else {
            segments_from(p, end)
        }
    }
}

/// The segments that count.
pub open spec fn segments(p: Seq<u8>) -> Seq<(int, int)> {
    segments_from(p, 0)
}

/// What a segment is, as a list of numbers: the first of them orders `.` before `..` and
/// `..` before a name, and the bytes of a name follow.
pub open spec fn segment_key(s: Seq<u8>) -> Seq<u64> {
    if s == seq![0x2eu8] {
        seq![1u64]
    } else if s == seq![0x2eu8, 0x2eu8] {
        seq![2u64]
    } else {
        seq![3u64] + Seq::new(s.len(), |i: int| s[i] as u64)
    }
}

/// What a path is: its root, where it has one, and its segments. Two paths are the same
/// where their keys are, and are ordered as their keys are.
pub open spec fn path_key(p: Seq<u8>) -> Seq<Seq<u64>> {
    root_key(p) + segments(p).map_values(
        |span: (int, int)| segment_key(p.subrange(span.0, span.1)),
    )
}

/// The part of a path's key that stands for its root.
pub open spec fn root_key(p: Seq<u8>) -> Seq<Seq<u64>> {
    if is_absolute(p) {
        seq![seq![0u64]]
    } else {
        Seq::empty()
    }
}

/// The last segment, where it is a name.
pub open spec fn name_of(p: Seq<u8>) -> Option<Seq<u8>> {
    let all = segments(p);
    if all.len() == 0 {
        None
    } else {
        let name = p.subrange(all.last().0, all.last().1);
        if name == seq![0x2eu8] || name == seq![0x2eu8, 0x2eu8] {
            None
        } else {
            Some(name)
        }
    }
}

/// The last index at which a byte stands in `s` before `to`.
pub open spec fn last_byte_before(s: Seq<u8>, to: int, b: u8) -> Option<int>
    decreases to,
{
    if to <= 0 {
        None
    } else if s[to - 1] == b {
        Some(to - 1)
    } else {
        last_byte_before(s, to - 1, b)
    }
}

/// What follows the last dot of a name, unless that dot begins it.
pub open spec fn extension_of_name(name: Seq<u8>) -> Option<Seq<u8>> {
    match last_byte_before(name, name.len() as int, 0x2e) {
        Some(dot) => if dot == 0 {
            None
        } else {
            Some(name.skip(dot + 1))
        },
        None => None,
    }
}

/// The extension of the last segment.
pub open spec fn extension_of(p: Seq<u8>) -> Option<Seq<u8>> {
    match name_of(p) {
        Some(name) => extension_of_name(name),
        None => None,
    }
}

/// The path without its last segment, or nothing where it has no segment.
pub open spec fn parent_of(p: Seq<u8>) -> Option<Seq<u8>> {
    let all = segments(p);
    if all.len() == 0 {
        None
    } else if all.len() > 1 {
        Some(p.take(all[all.len() - 2].1))
    } else if is_absolute(p) {
        Some(p.take(1))
    } else {
        Some(Seq::empty())
    }
}

/// A path below a directory; an absolute path stands for itself.
pub open spec fn joined(dir: Seq<u8>, rest: Seq<u8>) -> Seq<u8> {
    if is_absolute(rest) {
        rest
    } else if dir.len() > 0 && dir.last() != 0x2f {
        dir.push(0x2f) + rest
    } else {
        dir + rest
    }
}

/// The text of a path.
pub open spec fn path_text(p: Seq<u8>) -> Seq<char> {
    text::text_of_bytes(p)
}

fn copy_bytes(s: &[u8], from: usize, to: usize) -> (r: Vec<u8>)
    requires
        from <= to <= s@.len(),
    ensures
        r@ == s@.subrange(from as int, to as int),
{
    let mut r: Vec<u8> = Vec::new();
    let mut i: usize = from;
    while i < to
        invariant
            from <= i <= to <= s@.len(),
            r@ == s@.subrange(from as int, i as int),
        decreases to - i,
    {
        r.push(s[i]);
        i = i + 1;
        assert(s@.subrange(from as int, i as int) =~= s@.subrange(from as int, i - 1).push(
            s@[i - 1],
        ));
    }
    r
}

/// Spans as mathematical pairs.
pub open spec fn spans_view(spans: Seq<(usize, usize)>) -> Seq<(int, int)> {
    spans.map_values(|s: (usize, usize)| (s.0 as int, s.1 as int))
}

fn find_segments(p: &[u8]) -> (r: Vec<(usize, usize)>)
    ensures
        spans_view(r@) == segments(p@),
        forall|k: int| 0 <= k < r@.len() ==> (#[trigger] r@[k]).0 < r@[k].1 <= p@.len(),
{
    let len: usize = p.len();
    let mut r: Vec<(usize, usize)> = Vec::new();
    let mut i: usize = 0;
    assert(spans_view(r@) + segments_from(p@, 0) =~= segments(p@));
    while i < len
        invariant
            i <= len == p@.len(),
            spans_view(r@) + segments_from(p@, i as int) == segments(p@),
            forall|k: int| 0 <= k < r@.len() ==> (#[trigger] r@[k]).0 < r@[k].1 <= p@.len(),
        decreases len - i,
    {
        if p[i] == 0x2f {
            i = i + 1;
        } else {
            let end = bytes::find_byte(p, i + 1, len, 0x2f);
            if !(end == i + 1 && p[i] == 0x2e && i > 0) {
                let ghost before = r@;
                r.push((i, end));
                assert(spans_view(r@) =~= spans_view(before).push((i as int, end as int)));
                assert(spans_view(before) + (seq![(i as int, end as int)] + segments_from(
                    p@,
                    end as int,
                )) =~= spans_view(r@) + segments_from(p@, end as int));
            }
            i = end;
        }
    }
    assert(spans_view(r@) + Seq::<(int, int)>::empty() =~= spans_view(r@));
    r
}

fn is_dot(s: &[u8]) -> (r: bool)
    ensures
        r == (s@ == seq![0x2eu8]),
{
    let r = s.len() == 1 && s[0] == 0x2e;
    assert(r ==> s@ =~= seq![0x2eu8]);
    r
}

fn is_dot_dot(s: &[u8]) -> (r: bool)
    ensures
        r == (s@ == seq![0x2eu8, 0x2eu8]),
{
    let r = s.len() == 2 && s[0] == 0x2e && s[1] == 0x2e;
    assert(r ==> s@ =~= seq![0x2eu8, 0x2eu8]);
    r
}

fn key_of_segment(s: &[u8]) -> (r: Vec<u64>)
    ensures
        r@ == segment_key(s@),
{
    let mut r: Vec<u64> = Vec::new();
    if is_dot(s) {
        r.push(1);
        assert(r@ =~= seq![1u64]);
        return r;
    }
    if is_dot_dot(s) {
        r.push(2);
        assert(r@ =~= seq![2u64]);
        return r;
    }
    r.push(3);
    let mut i: usize = 0;
    while i < s.len()
        invariant
            i <= s@.len(),
            r@ == seq![3u64] + Seq::new(i as nat, |j: int| s@[j] as u64),
        decreases s@.len() - i,
    {
        r.push(s[i] as u64);
        i = i + 1;
        assert(r@ =~= seq![3u64] + Seq::new(i as nat, |j: int| s@[j] as u64));
    }
    r
}

impl FilePath {
    /// The path with the given bytes.
    pub fn from_bytes(bytes: Vec<u8>) -> (r: Self)
        ensures
            r@ == bytes@,
    {
        FilePath { bytes }
    }

    /// The path that a text writes.
    pub fn from_text(s: &str) -> (r: Self)
        ensures
            r@ == s.spec_bytes(),
    {
        let b = s.as_bytes();
        let r = FilePath { bytes: copy_bytes(b, 0, b.len()) };
        assert(r@ =~= b@);
        r
    }

    /// The same path once more.
    pub fn duplicate(&self) -> (r: Self)
        ensures
            r@ == self@,
    {
        let r = FilePath { bytes: copy_bytes(self.bytes.as_slice(), 0, self.bytes.len()) };
        assert(r@ =~= self@);
        r
    }

    /// The text of the path, with replacement characters for what is not UTF-8.
    pub fn to_text(&self) -> (r: String)
        ensures
            r@ == path_text(self@),
    {
        let mut r = String::new();
        text::push_bytes(&mut r, self.bytes.as_slice());
        assert(r@ =~= path_text(self@));
        r
    }

    /// What the path is, in numbers by which paths are told apart and ordered.
    pub fn key(&self) -> (r: Vec<order::Word>)
        ensures
            order::key_view(r@) == path_key(self@),
    {
        let p = self.bytes.as_slice();
        let spans = find_segments(p);
        let mut r: Vec<order::Word> = Vec::new();
        if p.len() > 0 && p[0] == 0x2f {
            let mut root: Vec<u64> = Vec::new();
            root.push(0);
            assert(root@ =~= seq![0u64]);
            r.push(root);
        }
        let ghost key = |span: (int, int)| segment_key(p@.subrange(span.0, span.1));
        assert(order::key_view(r@) =~= root_key(p@));
        let mut k: usize = 0;
        assert(segments(p@).take(0).map_values(key) =~= Seq::empty());
        while k < spans.len()
            invariant
                k <= spans@.len(),
                spans_view(spans@) == segments(p@),
                key == (|span: (int, int)| segment_key(p@.subrange(span.0, span.1))),
                order::key_view(r@) == root_key(p@) + segments(p@).take(k as int).map_values(key),
                forall|k: int|
                    0 <= k < spans@.len() ==> (#[trigger] spans@[k]).0 < spans@[k].1 <= p@.len(),
            decreases spans@.len() - k,
        {
            let ghost before = r@;
            let (from, to) = spans[k];
            let one = key_of_segment(&p[from..to]);
            r.push(one);
            assert(segments(p@)[k as int] == (from as int, to as int)) by {
                assert(spans_view(spans@)[k as int] == (from as int, to as int));
            }
            assert(segments(p@).take(k + 1).map_values(key) =~= segments(p@).take(
                k as int,
            ).map_values(key).push(one@));
            assert(order::key_view(r@) =~= order::key_view(before).push(one@));
            k = k + 1;
        }
        assert(segments(p@).take(k as int) =~= segments(p@));
        r
    }

    /// The last segment, where it is a name.
    pub fn file_name(&self) -> (r: Option<Vec<u8>>)
        ensures
            match r {
                Some(name) => name_of(self@) == Some(name@),
                None => name_of(self@) is None,
            },
    {
        let p = self.bytes.as_slice();
        let spans = find_segments(p);
        if spans.len() == 0 {
            return None;
        }
        let (from, to) = spans[spans.len() - 1];
        assert(segments(p@).last() == (from as int, to as int)) by {
            assert(spans_view(spans@)[spans@.len() - 1] == (from as int, to as int));
        }
        let name = copy_bytes(p, from, to);
        if is_dot(name.as_slice()) || is_dot_dot(name.as_slice()) {
            None
        } else {
            Some(name)
        }
    }

    /// What follows the last dot of the last segment.
    pub fn extension(&self) -> (r: Option<Vec<u8>>)
        ensures
            match r {
                Some(ext) => extension_of(self@) == Some(ext@),
                None => extension_of(self@) is None,
            },
    {
        match self.file_name() {
            Some(name) => name_extension(name.as_slice()),
            None => None,
        }
    }

    /// The path without its last segment.
    pub fn parent(&self) -> (r: Option<FilePath>)
        ensures
            match r {
                Some(dir) => parent_of(self@) == Some(dir@),
                None => parent_of(self@) is None,
            },
    {
        let p = self.bytes.as_slice();
        let spans = find_segments(p);
        if spans.len() == 0 {
            return None;
        }
        let end: usize = if spans.len() > 1 {
            let (from, to) = spans[spans.len() - 2];
            assert(segments(p@)[spans@.len() - 2] == (from as int, to as int)) by {
                assert(spans_view(spans@)[spans@.len() - 2] == (from as int, to as int));
            }
            to
        } else if p[0] == 0x2f {
            1
        } else {
            0
        };
        let dir = FilePath { bytes: copy_bytes(p, 0, end) };
        assert(dir@ =~= p@.take(end as int));
        Some(dir)
    }

    /// The path `rest` below this one.
    pub fn join(&self, rest: &FilePath) -> (r: FilePath)
        ensures
            r@ == joined(self@, rest@),
    {
        let p = rest.bytes.as_slice();
        if p.len() > 0 && p[0] == 0x2f {
            return rest.duplicate();
        }
        let mut r = self.duplicate();
        let len: usize = r.bytes.len();
        if len > 0 && r.bytes[len - 1] != 0x2f {
            r.bytes.push(0x2f);
        }
        let ghost start = r@;
        let mut i: usize = 0;
        while i < p.len()
            invariant
                i <= p@.len(),
                r@ == start + p@.take(i as int),
            decreases p@.len() - i,
        {
            r.bytes.push(p[i]);
            i = i + 1;
            assert(r@ =~= start + p@.take(i as int));
        }
        assert(p@.take(i as int) =~= p@);
        r
    }

    /// Whether two paths are the same: slashes that count for nothing are passed over.
    pub fn same_as(&self, other: &FilePath) -> (r: bool)
        ensures
            r == (path_key(self@) == path_key(other@)),
    {
        let a = self.key();
        let b = other.key();
        proof {
            order::lemma_key_total(path_key(self@), path_key(other@));
        }
        match order::rank_keys(&a, &b) {
            order::Rank::Same => true,
            _ => false,
        }
    }
}

/// A path without the prefix `\\?\` of verbatim paths.
pub open spec fn cleaned(p: Seq<u8>) -> Seq<u8> {
    let t = path_text(p);
    if "\\\\?\\"@.is_prefix_of(t) {
        encode_utf8(t.skip(4))
    } else {
        p
    }
}

/// Takes the prefix of verbatim paths away.
pub fn clean_path(p: FilePath) -> (r: FilePath)
    ensures
        r@ == cleaned(p@),
{
    let t = p.to_text();
    if text::begins_with(t.as_str(), "\\\\?\\") {
        let chars = text::chars_of(t.as_str());
        proof {
            reveal_strlit("\\\\?\\");
        }
        let rest = text::text_of(chars.as_slice(), 4, chars.len());
        assert(rest@ =~= t@.skip(4));
        FilePath::from_text(rest.as_str())
    } else {
        p
    }
}

/// What follows the last dot of a file name, unless that dot begins it.
pub fn name_extension(name: &[u8]) -> (r: Option<Vec<u8>>)
    ensures
        match r {
            Some(ext) => extension_of_name(name@) == Some(ext@),
            None => extension_of_name(name@) is None,
        },
{
    let mut to: usize = name.len();
    while to > 0
        invariant
            to <= name@.len(),
            last_byte_before(name@, name@.len() as int, 0x2e) == last_byte_before(
                name@,
                to as int,
                0x2e,
            ),
        decreases to,
    {
        if name[to - 1] == 0x2e {
            if to == 1 {
                return None;
            }
            let ext = copy_bytes(name, to, name.len());
            assert(ext@ =~= name@.skip(to as int));
            return Some(ext);
        }
        to = to - 1;
    }
    None
}

/// Segments lie within the path.
proof fn lemma_segments_within(p: Seq<u8>, i: int)
    requires
        0 <= i <= p.len(),
    ensures
        forall|k: int|
            0 <= k < segments_from(p, i).len() ==> i <= (#[trigger] segments_from(p, i)[k]).0
                < segments_from(p, i)[k].1 <= p.len(),
    decreases p.len() - i,
{
    if i < p.len() {
        if p[i] == 0x2f {
            lemma_segments_within(p, i + 1);
            assert(segments_from(p, i) == segments_from(p, i + 1));
        } else {
            bytes::lemma_byte_from(p, i + 1, p.len() as int, 0x2f);
            let end = bytes::byte_from(p, i + 1, p.len() as int, 0x2f);
            lemma_segments_within(p, end);
            let rest = segments_from(p, end);
            assert forall|k: int| 0 <= k < segments_from(p, i).len() implies i <= (
            #[trigger] segments_from(p, i)[k]).0 < segments_from(p, i)[k].1 <= p.len() by {
                if is_kept(p, i, end) {
                    if k == 0 {
                        assert(segments_from(p, i)[0] == (i, end));
                    } else {
                        assert(segments_from(p, i)[k] == rest[k - 1]);
                    }
                } else {
                    assert(segments_from(p, i)[k] == rest[k]);
                }
            }
        }
    }
}

/// A slash is found at the same place where more bytes follow it.
proof fn lemma_slash_within(p: Seq<u8>, q: Seq<u8>, from: int)
    requires
        0 <= from <= p.len(),
        q.len() >= p.len(),
        q.take(p.len() as int) == p,
        q.len() > p.len() ==> q[p.len() as int] == 0x2f || (p.len() > from && p.last() == 0x2f),
    ensures
        bytes::byte_from(q, from, q.len() as int, 0x2f) == bytes::byte_from(
            p,
            from,
            p.len() as int,
            0x2f,
        ),
    decreases p.len() - from,
{
    if from < p.len() {
        assert(q.take(p.len() as int)[from] == q[from]);
        if p[from] != 0x2f {
            lemma_slash_within(p, q, from + 1);
        }
    }
}

/// A slash at the end adds no segment.
proof fn lemma_slash_after(p: Seq<u8>, i: int)
    requires
        0 <= i <= p.len(),
    ensures
        segments_from(p.push(0x2f), i) == segments_from(p, i),
    decreases p.len() - i,
{
    let q = p.push(0x2f);
    if i == p.len() {
        assert(segments_from(q, i + 1) =~= Seq::<(int, int)>::empty());
    } else if p[i] == 0x2f {
        lemma_slash_after(p, i + 1);
    } else {
        assert(q.take(p.len() as int) =~= p);
        lemma_slash_within(p, q, i + 1);
        bytes::lemma_byte_from(p, i + 1, p.len() as int, 0x2f);
        lemma_slash_after(p, bytes::byte_from(p, i + 1, p.len() as int, 0x2f));
    }
}

/// A name without slashes after a slash, or at the beginning, is one more segment.
proof fn lemma_name_after(p: Seq<u8>, name: Seq<u8>, i: int)
    requires
        0 <= i <= p.len(),
        p.len() == 0 || p.last() == 0x2f,
        name.len() > 0,
        !name.contains(0x2f),
        name != seq![0x2eu8],
    ensures
        segments_from(p + name, i) == segments_from(p, i).push(
            (p.len() as int, (p.len() + name.len()) as int),
        ),
    decreases p.len() - i,
{
    let q = p + name;
    if i == p.len() {
        assert(q[i] == name[0]);
        assert(name.contains(name[0]));
        bytes::lemma_byte_from(q, i + 1, q.len() as int, 0x2f);
        let end = bytes::byte_from(q, i + 1, q.len() as int, 0x2f);
        if end < q.len() {
            assert(name.contains(name[end - i]));
        }
        if name.len() == 1 && name[0] == 0x2e {
            assert(name =~= seq![0x2eu8]);
        }
        assert(segments_from(q, end) =~= Seq::<(int, int)>::empty());
        assert(segments_from(p, i) =~= Seq::<(int, int)>::empty());
        assert(segments_from(q, i) =~= seq![(i, end)]);
    } else if p[i] == 0x2f {
        assert(q[i] == p[i]);
        lemma_name_after(p, name, i + 1);
    } else {
        assert(q[i] == p[i]);
        assert(q.take(p.len() as int) =~= p);
        bytes::lemma_byte_from(p, i + 1, p.len() as int, 0x2f);
        let end = bytes::byte_from(p, i + 1, p.len() as int, 0x2f);
        assert(i + 1 < p.len());
        lemma_slash_within(p, q, i + 1);
        lemma_name_after(p, name, end);
        let rest = segments_from(p, end);
        let last = (p.len() as int, (p.len() + name.len()) as int);
        if is_kept(p, i, end) {
            assert(seq![(i, end)] + rest.push(last) =~= (seq![(i, end)] + rest).push(last));
        }
    }
}

/// Paths with the same bytes where their segments lie, and the same segments, are the same.
proof fn lemma_same_key(p: Seq<u8>, q: Seq<u8>)
    requires
        segments(q) == segments(p),
        p.len() <= q.len(),
        q.take(p.len() as int) == p,
        p.len() == 0 ==> !is_absolute(q),
    ensures
        path_key(q) == path_key(p),
{
    lemma_segments_within(p, 0);
    assert forall|k: int| 0 <= k < segments(p).len() implies p.subrange(
        (#[trigger] segments(p)[k]).0,
        segments(p)[k].1,
    ) == q.subrange(segments(p)[k].0, segments(p)[k].1) by {
        let span = segments(p)[k];
        assert forall|m: int| 0 <= m < p.len() implies p[m] == q[m] by {
            assert(q.take(p.len() as int)[m] == q[m]);
        }
        assert(p.subrange(span.0, span.1) =~= q.subrange(span.0, span.1));
    }
    if p.len() > 0 {
        assert(q.take(p.len() as int)[0] == q[0]);
    }
    assert(path_key(q) =~= path_key(p));
}

/// A slash at the end of a path counts for nothing.
pub proof fn trailing_slash_counts_for_nothing(p: Seq<u8>)
    requires
        p.len() > 0,
    ensures
        path_key(p.push(0x2f)) == path_key(p),
        name_of(p.push(0x2f)) == name_of(p),
{
    let q = p.push(0x2f);
    lemma_slash_after(p, 0);
    assert(q.take(p.len() as int) =~= p);
    lemma_same_key(p, q);
    lemma_segments_within(p, 0);
    if segments(p).len() > 0 {
        let last = segments(p).last();
        assert(q.subrange(last.0, last.1) =~= p.subrange(last.0, last.1));
    }
}

/// A name that is joined to a directory is one more segment: the path's name is that name,
/// and without it the path is the directory.
pub proof fn joining_adds_a_name(dir: Seq<u8>, name: Seq<u8>)
    requires
        name.len() > 0,
        !name.contains(0x2f),
        name != seq![0x2eu8],
        name != seq![0x2eu8, 0x2eu8],
    ensures
        name_of(joined(dir, name)) == Some(name),
        path_key(joined(dir, name)) == path_key(dir).push(
            seq![3u64] + name.map_values(|b: u8| b as u64),
        ),
        parent_of(joined(dir, name)) matches Some(parent) && path_key(parent) == path_key(dir),
{
    assert(name.contains(name[0]));
    let p = if dir.len() > 0 && dir.last() != 0x2f {
        dir.push(0x2f)
    } else {
        dir
    };
    let q = joined(dir, name);
    assert(q == p + name);
    if dir.len() > 0 && dir.last() != 0x2f {
        trailing_slash_counts_for_nothing(dir);
        lemma_slash_after(dir, 0);
    }
    assert(path_key(p) == path_key(dir));
    lemma_name_after(p, name, 0);
    lemma_segments_within(p, 0);
    let all = segments(q);
    let n = segments(p).len() as int;
    assert(all.last() == (p.len() as int, (p.len() + name.len()) as int));
    assert(q.subrange(p.len() as int, (p.len() + name.len()) as int) =~= name);
    let key_p = |span: (int, int)| segment_key(p.subrange(span.0, span.1));
    let key_q = |span: (int, int)| segment_key(q.subrange(span.0, span.1));
    let last = seq![3u64] + name.map_values(|b: u8| b as u64);
    assert(segment_key(name) =~= last);
    assert forall|k: int| 0 <= k < n implies key_q(#[trigger] segments(p)[k]) == key_p(
        segments(p)[k],
    ) by {
        let span = segments(p)[k];
        assert(q.subrange(span.0, span.1) =~= p.subrange(span.0, span.1));
    }
    assert(is_absolute(q) == is_absolute(p)) by {
        if p.len() == 0 {
            assert(q[0] == name[0]);
        } else {
            assert(q[0] == p[0]);
        }
    }
    assert(all.map_values(key_q) =~= segments(p).map_values(key_p).push(last));
    assert(path_key(q) =~= path_key(p).push(last));
    let parent = parent_of(q)->Some_0;
    if all.len() > 1 {
        let end = segments(p).last().1;
        assert(all[all.len() - 2] == segments(p).last());
        assert(parent =~= p.take(end));
        lemma_front_key(p, end);
    } else if is_absolute(q) {
        assert(parent =~= p.take(1));
        assert(segments(p) =~= Seq::<(int, int)>::empty());
        assert(segments_from(parent, 1) =~= Seq::<(int, int)>::empty());
        assert(segments(parent) =~= Seq::<(int, int)>::empty());
        assert(path_key(parent) =~= path_key(p));
    } else {
        assert(segments(p) =~= Seq::<(int, int)>::empty());
        assert(segments(parent) =~= Seq::<(int, int)>::empty());
        assert(path_key(parent) =~= path_key(p));
    }
}

/// A path up to the end of its last segment is the same path.
proof fn lemma_front_key(p: Seq<u8>, end: int)
    requires
        segments(p).len() > 0,
        end == segments(p).last().1,
    ensures
        path_key(p.take(end)) == path_key(p),
{
    lemma_segments_within(p, 0);
    lemma_front_segments(p, end, 0);
    let front = p.take(end);
    assert(p.take(front.len() as int) =~= front);
    lemma_same_key(front, p);
}

/// Cutting a path behind its last segment leaves its segments.
proof fn lemma_front_segments(p: Seq<u8>, end: int, i: int)
    requires
        0 <= i <= p.len(),
        segments_from(p, i).len() > 0,
        end == segments_from(p, i).last().1,
        i < end <= p.len(),
    ensures
        segments_from(p.take(end), i) == segments_from(p, i),
    decreases p.len() - i,
{
    let front = p.take(end);
    lemma_segments_within(p, i);
    if p[i] == 0x2f {
        assert(front[i] == p[i]);
        lemma_segments_within(p, i + 1);
        assert(segments_from(p, i + 1).last() == segments_from(p, i).last());
        lemma_front_segments(p, end, i + 1);
    } else {
        bytes::lemma_byte_from(p, i + 1, p.len() as int, 0x2f);
        let next = bytes::byte_from(p, i + 1, p.len() as int, 0x2f);
        lemma_segments_within(p, next);
        let rest = segments_from(p, next);
        bytes::lemma_byte_from(front, i + 1, end, 0x2f);
        let cut = bytes::byte_from(front, i + 1, end, 0x2f);
        if rest.len() == 0 {
            assert(segments_from(p, i) =~= seq![(i, next)]);
            assert(end == next);
            if cut < end {
                assert(front[cut] == p[cut]);
            }
            assert(segments_from(front, cut) =~= Seq::<(int, int)>::empty());
            assert(segments_from(front, i) =~= seq![(i, next)]);
        } else {
            assert(segments_from(p, i).last() == rest.last());
            assert(next < end);
            assert(front[next] == p[next]);
            if cut < next {
                assert(front[cut] == p[cut]);
            }
            assert(cut == next);
            lemma_front_segments(p, end, next);
        }
    }
}

/// The last dot at or after an index of a name, where none stands behind it.
proof fn lemma_last_dot(name: Seq<u8>, dot: int, to: int)
    requires
        0 <= dot < to <= name.len(),
        name[dot] == 0x2e,
        forall|k: int| dot < k < to ==> name[k] != 0x2e,
    ensures
        last_byte_before(name, to, 0x2e) == Some(dot),
    decreases to - dot,
{
    if dot < to - 1 {
        lemma_last_dot(name, dot, to - 1);
    }
}

proof fn lemma_no_dot(name: Seq<u8>, to: int)
    requires
        0 <= to <= name.len(),
        forall|k: int| 0 <= k < to ==> name[k] != 0x2e,
    ensures
        last_byte_before(name, to, 0x2e) is None,
    decreases to,
{
    if to > 0 {
        lemma_no_dot(name, to - 1);
    }
}

/// What follows a dot is the extension, if no dot is in it and something stands before the
/// dot. A name without a dot, and one whose only dot begins it, have none.
pub proof fn extension_follows_the_last_dot(stem: Seq<u8>, ext: Seq<u8>)
    requires
        !ext.contains(0x2e),
    ensures
        stem.len() > 0 ==> extension_of_name(stem.push(0x2e) + ext) == Some(ext),
        extension_of_name(ext) is None,
        extension_of_name(seq![0x2eu8] + ext) is None,
{
    assert forall|k: int| 0 <= k < ext.len() implies #[trigger] ext[k] != 0x2e by {
        assert(ext.contains(ext[k]));
    }
    let name = stem.push(0x2e) + ext;
    lemma_last_dot(name, stem.len() as int, name.len() as int);
    assert(name.skip(stem.len() as int + 1) =~= ext);
    lemma_no_dot(ext, ext.len() as int);
    let hidden = seq![0x2eu8] + ext;
    lemma_last_dot(hidden, 0, hidden.len() as int);
}

/// The extension of a file in a directory is that of its name, whatever the directory is.
pub proof fn extension_is_that_of_the_name(dir: Seq<u8>, stem: Seq<u8>, ext: Seq<u8>)
    requires
        stem.len() > 0,
        !stem.contains(0x2f),
        !ext.contains(0x2f),
        !ext.contains(0x2e),
        ext.len() > 0,
    ensures
        extension_of(joined(dir, stem.push(0x2e) + ext)) == Some(ext),
{
    let name = stem.push(0x2e) + ext;
    assert forall|k: int| 0 <= k < name.len() implies #[trigger] name[k] != 0x2f by {
        if k < stem.len() {
            assert(stem.contains(stem[k]));
        } else if k > stem.len() {
            assert(ext.contains(ext[k - stem.len() - 1]));
        }
    }
    assert(name.last() == ext.last());
    assert(ext.contains(ext.last()));
    assert(name.len() >= 3);
    joining_adds_a_name(dir, name);
    extension_follows_the_last_dot(stem, ext);
}

/// An absolute path stands for itself below any directory; any other path begins with the
/// directory and ends with itself.
pub proof fn joining_keeps_both_paths(dir: Seq<u8>, rest: Seq<u8>)
    ensures
        rest.len() > 0 && rest[0] == 0x2f ==> joined(dir, rest) == rest,
        rest.len() == 0 || rest[0] != 0x2f ==> dir.is_prefix_of(joined(dir, rest))
            && rest.is_suffix_of(joined(dir, rest)) && joined(dir, rest).len() <= dir.len()
            + rest.len() + 1,
        joined(Seq::empty(), rest) == rest,
{
    let all = joined(dir, rest);
    if rest.len() == 0 || rest[0] != 0x2f {
        assert(all.take(dir.len() as int) =~= dir);
        assert(all.skip(all.len() - rest.len()) =~= rest);
    }
    assert(Seq::<u8>::empty() + rest =~= rest);
}

/// Two names are the same segment only where they are the same, and are in the order of
/// their bytes.
pub proof fn names_are_ordered_by_bytes(a: Seq<u8>, b: Seq<u8>, k: int)
    requires
        a != seq![0x2eu8],
        a != seq![0x2eu8, 0x2eu8],
        b != seq![0x2eu8],
        b != seq![0x2eu8, 0x2eu8],
        0 <= k <= a.len(),
        k < b.len(),
        a.take(k) == b.take(k),
        k == a.len() || a[k] < b[k],
    ensures
        order::word_lt(segment_key(a), segment_key(b)),
{
    let x = segment_key(a);
    let y = segment_key(b);
    assert forall|m: int| 0 <= m < k + 1 implies #[trigger] x[m] == y[m] by {
        if m > 0 {
            assert(a.take(k)[m - 1] == a[m - 1]);
            assert(b.take(k)[m - 1] == b[m - 1]);
            assert(x[m] == a[m - 1] as u64 && y[m] == b[m - 1] as u64);
        }
    }
    assert(order::parts_at(x, y, k + 1));
    order::word_order_is_lexicographic(x, y);
}

/// A verbatim path loses its prefix, and any other path stays as it is.
pub proof fn cleaning_takes_the_verbatim_prefix(t: Seq<char>)
    ensures
        cleaned(encode_utf8(seq!['\\', '\\', '?', '\\'] + t)) == encode_utf8(t),
        !seq!['\\', '\\', '?', '\\'].is_prefix_of(t) ==> cleaned(encode_utf8(t)) == encode_utf8(t),
{
    reveal_strlit("\\\\?\\");
    let prefix = seq!['\\', '\\', '?', '\\'];
    assert("\\\\?\\"@ =~= prefix);
    text::lemma_text_of_encoded(prefix + t);
    text::lemma_text_of_encoded(t);
    assert((prefix + t).take(4) =~= prefix);
    assert((prefix + t).skip(4) =~= t);
}

/// Absolute paths differ from relative ones, and come before them.
pub proof fn absolute_paths_come_first(a: Seq<u8>, b: Seq<u8>)
    requires
        a.len() > 0,
        a[0] == 0x2f,
        b.len() > 0,
        b[0] != 0x2f,
    ensures
        path_key(a) != path_key(b),
        order::key_lt(path_key(a), path_key(b)),
{
    let end = bytes::byte_from(b, 1, b.len() as int, 0x2f);
    bytes::lemma_byte_from(b, 1, b.len() as int, 0x2f);
    assert(is_kept(b, 0, end));
    assert(segments(b)[0] == (0int, end));
    let x = path_key(a);
    let y = path_key(b);
    assert(x[0] =~= seq![0u64]);
    assert(y[0] == segment_key(b.subrange(0, end)));
    assert(order::word_lt(x[0], y[0]));
    order::lemma_key_total(x, y);
}

/// The segments `.` and `..` come before every name.
pub proof fn dots_come_before_names(name: Seq<u8>)
    requires
        name != seq![0x2eu8],
        name != seq![0x2eu8, 0x2eu8],
    ensures
        order::word_lt(segment_key(seq![0x2eu8]), segment_key(seq![0x2eu8, 0x2eu8])),
        order::word_lt(segment_key(seq![0x2eu8, 0x2eu8]), segment_key(name)),
        order::word_lt(segment_key(seq![0x2eu8]), segment_key(name)),
{
    let two = seq![0x2eu8, 0x2eu8];
    assert(two != seq![0x2eu8]) by {
        assert(two.len() == 2);
    }
}

/// A single dot behind a directory counts for nothing, and the parent directory has no name. A
/// dot that begins a path counts.
pub proof fn dots_in_paths(dir: Seq<u8>)
    requires
        dir.len() > 0,
    ensures
        path_key(joined(dir, seq![0x2eu8])) == path_key(dir),
        name_of(joined(dir, seq![0x2eu8])) == name_of(dir),
        name_of(joined(dir, seq![0x2eu8, 0x2eu8])) is None,
        path_key(joined(dir, seq![0x2eu8, 0x2eu8])) == path_key(dir).push(seq![2u64]),
        name_of(seq![0x2fu8]) is None,
        name_of(Seq::empty()) is None,
        parent_of(Seq::empty()) is None,
        parent_of(seq![0x2fu8]) is None,
        path_key(seq![0x2eu8]) == seq![seq![1u64]],
        path_key(Seq::empty()).len() == 0,
{
    let p = if dir.last() != 0x2f {
        dir.push(0x2f)
    } else {
        dir
    };
    if dir.last() != 0x2f {
        trailing_slash_counts_for_nothing(dir);
        lemma_slash_after(dir, 0);
    }
    let dot = seq![0x2eu8];
    let q = joined(dir, dot);
    assert(q == p + dot);
    lemma_dot_after(p, 0);
    assert(q.take(p.len() as int) =~= p);
    lemma_same_key(p, q);
    lemma_segments_within(p, 0);
    if segments(p).len() > 0 {
        let last = segments(p).last();
        assert(q.subrange(last.0, last.1) =~= p.subrange(last.0, last.1));
    }
    let dots = seq![0x2eu8, 0x2eu8];
    let r = joined(dir, dots);
    assert(r == p + dots);
    assert(dots != dot) by {
        assert(dots.len() == 2);
    }
    assert(!dots.contains(0x2f)) by {
        assert(dots[0] != 0x2f && dots[1] != 0x2f);
    }
    lemma_name_after(p, dots, 0);
    let end = (p.len() + 2) as int;
    assert(r.subrange(p.len() as int, end) =~= dots);
    let key_p = |span: (int, int)| segment_key(p.subrange(span.0, span.1));
    let key_r = |span: (int, int)| segment_key(r.subrange(span.0, span.1));
    assert forall|k: int| 0 <= k < segments(p).len() implies key_r(#[trigger] segments(p)[k])
        == key_p(segments(p)[k]) by {
        let span = segments(p)[k];
        assert(r.subrange(span.0, span.1) =~= p.subrange(span.0, span.1));
    }
    assert(r[0] == p[0]);
    assert(segments(r).map_values(key_r) =~= segments(p).map_values(key_p).push(seq![2u64]));
    assert(path_key(r) =~= path_key(p).push(seq![2u64]));
    let root = seq![0x2fu8];
    assert(segments_from(root, 1) =~= Seq::<(int, int)>::empty());
    assert(segments(root) =~= Seq::<(int, int)>::empty());
    assert(segments(Seq::<u8>::empty()) =~= Seq::<(int, int)>::empty());
    assert(path_key(Seq::<u8>::empty()) =~= Seq::<Seq<u64>>::empty());
    assert(bytes::byte_from(dot, 1, 1, 0x2f) == 1);
    assert(segments_from(dot, 1) =~= Seq::<(int, int)>::empty());
    assert(segments(dot) =~= seq![(0int, 1int)]);
    assert(dot.subrange(0, 1) =~= dot);
    assert(path_key(dot) =~= seq![seq![1u64]]);
}

proof fn lemma_dot_after(p: Seq<u8>, i: int)
    requires
        0 <= i <= p.len(),
        p.len() > 0,
        p.last() == 0x2f,
    ensures
        segments_from(p + seq![0x2eu8], i) == segments_from(p, i),
    decreases p.len() - i,
{
    let q = p + seq![0x2eu8];
    if i == p.len() {
        assert(q[i] == 0x2e);
        assert(bytes::byte_from(q, i + 1, q.len() as int, 0x2f) == q.len());
        assert(!is_kept(q, i, i + 1));
        assert(segments_from(q, i + 1) =~= Seq::<(int, int)>::empty());
    } else if p[i] == 0x2f {
        assert(q[i] == p[i]);
        lemma_dot_after(p, i + 1);
    } else {
        assert(q[i] == p[i]);
        assert(q.take(p.len() as int) =~= p);
        assert(i + 1 < p.len());
        lemma_slash_within(p, q, i + 1);
        bytes::lemma_byte_from(p, i + 1, p.len() as int, 0x2f);
        lemma_dot_after(p, bytes::byte_from(p, i + 1, p.len() as int, 0x2f));
    }
}

/// The text of a path is the text that its bytes encode.
pub proof fn paths_of_texts_are_texts(t: Seq<char>)
    ensures
        path_text(encode_utf8(t)) == t,
{
    text::lemma_text_of_encoded(t);
}

} // verus!
