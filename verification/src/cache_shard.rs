//! One part of the document cache: texts in the order of their last use.

use crate::path;
use crate::path::FilePath;
use crate::shared;
use crate::text;
use crate::time::Timestamp;
use std::path::PathBuf;
use std::sync::Arc;
use std::time::SystemTime;
use vstd::prelude::*;
use vstd::utf8::*;

verus! {

/// The size up to which the text of one file is kept: 5 MB.
pub const MAX_CACHED_ENTRY_BYTES: usize = 5_242_880;

/// The number of bytes that one shard may hold: 16 MB.
pub const MAX_SHARD_BYTES: usize = 16_777_216;

/// The number of texts that one shard may hold.
pub const MAX_SHARD_ENTRIES: usize = 625;

/// The number of bytes to which a full shard is cut: four fifths.
pub const TARGET_SHARD_BYTES: usize = 13_421_772;

/// The number of texts to which a full shard is cut: four fifths.
pub const TARGET_SHARD_ENTRIES: usize = 500;

/// An owned path of the standard library.
#[verifier::external_type_specification]
#[verifier::external_body]
pub struct ExPathBuf(PathBuf);

/// A point in time of the standard library.
#[verifier::external_type_specification]
#[verifier::external_body]
pub struct ExSystemTime(SystemTime);

/// What a key holds, as the operating system has it.
pub type SystemKey = (PathBuf, u64, Option<SystemTime>);

/// The number of bytes up to which a key counts.
pub const MAX_KEY_BYTES: usize = 1_048_576;

/// The number of bytes that a key counts for, besides its path: those that its parts take in
/// memory on this machine. It counts for one at least, and for no more than 1 MB.
pub open spec fn key_bytes() -> nat {
    let bytes = vstd::layout::size_of::<SystemKey>();
    if bytes == 0 {
        1
    } else if bytes > MAX_KEY_BYTES {
        MAX_KEY_BYTES as nat
    } else {
        bytes
    }
}

/// The number of bytes that a key counts for, besides its path.
fn size_of_key_in_memory() -> (r: usize)
    ensures
        r == key_bytes(),
{
    let bytes: usize = std::mem::size_of::<SystemKey>();
    if bytes == 0 {
        1
    } else if bytes > MAX_KEY_BYTES {
        MAX_KEY_BYTES
    } else {
        bytes
    }
}

/// What a cached text belongs to: a file, as it was when it was read.
#[derive(Debug)]
pub struct CacheKey {
    pub path: FilePath,
    pub size: u64,
    pub modified: Option<Timestamp>,
}

/// The mathematical view of a `CacheKey`.
pub struct KeyView {
    pub path: Seq<Seq<u64>>,
    pub size: u64,
    pub modified: Option<Timestamp>,
}

impl View for CacheKey {
    type V = KeyView;

    open spec fn view(&self) -> KeyView {
        KeyView { path: path::path_key(self.path@), size: self.size, modified: self.modified }
    }
}

/// Whether two points in time are the same, or both missing.
fn same_time(a: Option<Timestamp>, b: Option<Timestamp>) -> (r: bool)
    ensures
        r == (a == b),
{
    match (a, b) {
        (Some(x), Some(y)) => x == y,
        (None, None) => true,
        _ => false,
    }
}

impl CacheKey {
    /// Whether two keys stand for the same file in the same state.
    pub fn same_as(&self, other: &CacheKey) -> (r: bool)
        ensures
            r == (self@ == other@),
    {
        self.size == other.size && same_time(self.modified, other.modified) && self.path.same_as(
            &other.path,
        )
    }

    /// The same key once more.
    pub fn duplicate(&self) -> (r: CacheKey)
        ensures
            r@ == self@,
            r.path@ == self.path@,
    {
        CacheKey { path: self.path.duplicate(), size: self.size, modified: self.modified }
    }
}

/// A text in the cache.
pub struct CacheEntry {
    key: CacheKey,
    text: Arc<str>,
    size: usize,
}

/// The mathematical view of a `CacheEntry`.
pub struct EntryView {
    pub key: KeyView,
    /// The length of the path, as it was spelled when the text came.
    pub path_len: nat,
    pub text: Seq<char>,
}

impl EntryView {
    /// The number of bytes that the entry counts for.
    pub open spec fn size(self) -> nat {
        entry_bytes(self.path_len, self.text)
    }
}

impl View for CacheEntry {
    type V = EntryView;

    closed spec fn view(&self) -> EntryView {
        EntryView { key: self.key@, path_len: self.key.path@.len(), text: (*self.text)@ }
    }
}

/// The number of bytes that a key with a path of that length and a text count for.
pub open spec fn entry_bytes(path_len: nat, t: Seq<char>) -> nat {
    let sum = key_bytes() + path_len + encode_utf8(t).len();
    if sum <= usize::MAX {
        sum as nat
    } else {
        usize::MAX as nat
    }
}

/// The number of bytes that entries count for.
pub open spec fn total_bytes(entries: Seq<EntryView>) -> nat
    decreases entries.len(),
{
    if entries.len() == 0 {
        0
    } else {
        total_bytes(entries.drop_last()) + entries.last().size()
    }
}

/// The first index at which a key stands.
pub open spec fn index_of_key(entries: Seq<EntryView>, key: KeyView) -> Option<int>
    decreases entries.len(),
{
    if entries.len() == 0 {
        None
    } else if let Some(i) = index_of_key(entries.drop_last(), key) {
        Some(i)
    } else if entries.last().key == key {
        Some(entries.len() - 1)
    } else {
        None
    }
}

/// The text of a key.
pub open spec fn lookup(entries: Seq<EntryView>, key: KeyView) -> Option<Seq<char>> {
    match index_of_key(entries, key) {
        Some(i) => Some(entries[i].text),
        None => None,
    }
}

/// The entries after a use of a key: its entry moves to the end.
pub open spec fn after_use(entries: Seq<EntryView>, key: KeyView) -> Seq<EntryView> {
    match index_of_key(entries, key) {
        Some(i) => entries.remove(i).push(entries[i]),
        None => entries,
    }
}

/// The entries without that of a key.
pub open spec fn without(entries: Seq<EntryView>, key: KeyView) -> Seq<EntryView> {
    match index_of_key(entries, key) {
        Some(i) => entries.remove(i),
        None => entries,
    }
}

/// The number of entries, from the front, that free so many bytes and so many entries.
pub open spec fn evictions(entries: Seq<EntryView>, bytes: int, count: int) -> nat
    decreases entries.len(),
{
    if entries.len() == 0 || (bytes <= 0 && count <= 0) {
        0
    } else {
        1 + evictions(entries.drop_first(), bytes - entries[0].size(), count - 1)
    }
}

/// The entries that stay when one of a size is to come: all, unless the shard is full; then
/// those that were not used for longest leave, until the shard is down to its target.
pub open spec fn kept(entries: Seq<EntryView>, size: nat) -> Seq<EntryView> {
    if entries.len() >= MAX_SHARD_ENTRIES || total_bytes(entries) + size > MAX_SHARD_BYTES {
        entries.skip(
            evictions(
                entries,
                total_bytes(entries) + size - TARGET_SHARD_BYTES,
                entries.len() + 1 - TARGET_SHARD_ENTRIES,
            ) as int,
        )
    } else {
        entries
    }
}

/// The entries after an entry came. A text that is too large is not taken.
pub open spec fn after_insert(entries: Seq<EntryView>, new: EntryView) -> Seq<EntryView> {
    if encode_utf8(new.text).len() > MAX_CACHED_ENTRY_BYTES {
        entries
    } else {
        kept(without(entries, new.key), new.size()).push(new)
    }
}

/// No key stands twice.
pub open spec fn has_distinct_keys(entries: Seq<EntryView>) -> bool {
    forall|i: int, j: int|
        0 <= i < j < entries.len() ==> (#[trigger] entries[i]).key != (#[trigger] entries[j]).key
}

/// The entries fit into a shard. One entry that is larger than a shard stands alone.
pub open spec fn is_within_budget(entries: Seq<EntryView>) -> bool {
    &&& entries.len() <= MAX_SHARD_ENTRIES
    &&& total_bytes(entries) <= MAX_SHARD_BYTES || entries.len() == 1
}

/// No text is larger than may be kept.
pub open spec fn has_small_texts(entries: Seq<EntryView>) -> bool {
    forall|i: int|
        0 <= i < entries.len() ==> encode_utf8((#[trigger] entries[i]).text).len()
            <= MAX_CACHED_ENTRY_BYTES
}

/// The entries are as they should be.
pub open spec fn is_shard(entries: Seq<EntryView>) -> bool {
    &&& has_distinct_keys(entries)
    &&& is_within_budget(entries)
    &&& has_small_texts(entries)
}

/// What `index_of_key` finds is an entry of the key, and where it finds none there is none.
pub proof fn lemma_index_of_key(entries: Seq<EntryView>, key: KeyView)
    ensures
        index_of_key(entries, key) matches Some(i) ==> 0 <= i < entries.len() && entries[i].key
            == key,
        index_of_key(entries, key) is None ==> forall|i: int|
            0 <= i < entries.len() ==> (#[trigger] entries[i]).key != key,
    decreases entries.len(),
{
    if entries.len() > 0 {
        let front = entries.drop_last();
        lemma_index_of_key(front, key);
        if index_of_key(entries, key) is None {
            assert forall|i: int| 0 <= i < entries.len() implies (#[trigger] entries[i]).key
                != key by {
                if i < front.len() {
                    assert(front[i].key != key);
                }
            }
        }
    }
}

/// Where keys are distinct, the index of a key is where it stands.
pub proof fn lemma_index_is(entries: Seq<EntryView>, key: KeyView, i: int)
    requires
        has_distinct_keys(entries),
        0 <= i < entries.len(),
        entries[i].key == key,
    ensures
        index_of_key(entries, key) == Some(i),
{
    lemma_index_of_key(entries, key);
    if let Some(k) = index_of_key(entries, key) {
        if k < i {
            assert(entries[k].key != entries[i].key);
        } else if i < k {
            assert(entries[i].key != entries[k].key);
        }
    }
}

/// The bytes of a list are those of its two halves.
pub proof fn lemma_total_split(entries: Seq<EntryView>, k: int)
    requires
        0 <= k <= entries.len(),
    ensures
        total_bytes(entries) == total_bytes(entries.take(k)) + total_bytes(entries.skip(k)),
    decreases entries.len(),
{
    if k == entries.len() {
        assert(entries.take(k) =~= entries);
        assert(entries.skip(k) =~= Seq::empty());
    } else {
        lemma_total_split(entries.drop_last(), k);
        assert(entries.drop_last().take(k) =~= entries.take(k));
        assert(entries.drop_last().skip(k) =~= entries.skip(k).drop_last());
        assert(entries.skip(k).last() == entries.last());
    }
}

/// The bytes of a list without one entry.
pub proof fn lemma_total_remove(entries: Seq<EntryView>, i: int)
    requires
        0 <= i < entries.len(),
    ensures
        total_bytes(entries) == total_bytes(entries.remove(i)) + entries[i].size(),
{
    let rest = entries.remove(i);
    lemma_total_split(entries, i);
    lemma_total_split(rest, i);
    assert(rest.take(i) =~= entries.take(i));
    lemma_total_split(entries.skip(i), 1);
    let one = entries.skip(i).take(1);
    assert(one.len() == 1 && one.last() == entries[i]);
    assert(one.drop_last() =~= Seq::empty());
    assert(total_bytes(one) == entries[i].size()) by {
        assert(total_bytes(one.drop_last()) == 0);
    }
    assert(entries.skip(i).skip(1) =~= rest.skip(i));
}

/// Evictions free what was asked for, unless nothing is left.
pub proof fn lemma_evictions(entries: Seq<EntryView>, bytes: int, count: int)
    ensures
        evictions(entries, bytes, count) <= entries.len(),
        evictions(entries, bytes, count) < entries.len() ==> total_bytes(
            entries.take(evictions(entries, bytes, count) as int),
        ) >= bytes && evictions(entries, bytes, count) >= count,
    decreases entries.len(),
{
    let n = evictions(entries, bytes, count);
    if entries.len() > 0 && (bytes > 0 || count > 0) {
        lemma_evictions(entries.drop_first(), bytes - entries[0].size(), count - 1);
        if n < entries.len() {
            let first = entries.take(n as int);
            lemma_total_split(first, 1);
            assert(first.take(1).last() == entries[0]);
            assert(first.take(1).drop_last() =~= Seq::empty());
            assert(total_bytes(first.take(1)) == entries[0].size()) by {
                assert(total_bytes(first.take(1).drop_last()) == 0);
            }
            assert(first.skip(1) =~= entries.drop_first().take(n - 1));
        }
    } else if entries.len() > 0 {
        assert(entries.take(0) =~= Seq::empty());
    }
}

/// What stays of a list when an entry is to come leaves room for it.
pub proof fn lemma_kept(entries: Seq<EntryView>, size: nat)
    ensures
        kept(entries, size).len() < MAX_SHARD_ENTRIES,
        kept(entries, size).len() == 0 || total_bytes(kept(entries, size)) + size
            <= MAX_SHARD_BYTES,
        total_bytes(kept(entries, size)) <= total_bytes(entries),
        kept(entries, size).len() <= entries.len(),
        kept(entries, size) == entries.skip(entries.len() - kept(entries, size).len()),
{
    let bytes = total_bytes(entries) + size - TARGET_SHARD_BYTES;
    let count = entries.len() + 1 - TARGET_SHARD_ENTRIES;
    let n = evictions(entries, bytes, count);
    lemma_evictions(entries, bytes, count);
    lemma_total_split(entries, n as int);
    assert(entries.skip(0) =~= entries);
}

/// Taking entries out of a list leaves its keys distinct.
proof fn lemma_distinct_remove(entries: Seq<EntryView>, i: int)
    requires
        has_distinct_keys(entries),
        0 <= i < entries.len(),
    ensures
        has_distinct_keys(entries.remove(i)),
        forall|k: int|
            0 <= k < entries.len() - 1 ==> (#[trigger] entries.remove(i)[k]).key != entries[i].key,
{
    let rest = entries.remove(i);
    assert forall|a: int, b: int| 0 <= a < b < rest.len() implies (#[trigger] rest[a]).key != (
    #[trigger] rest[b]).key by {
        let x = if a < i {
            a
        } else {
            a + 1
        };
        let y = if b < i {
            b
        } else {
            b + 1
        };
        assert(entries[x].key != entries[y].key);
    }
    assert forall|k: int| 0 <= k < rest.len() implies (#[trigger] rest[k]).key
        != entries[i].key by {
        if k < i {
            assert(entries[k].key != entries[i].key);
        } else {
            assert(entries[i].key != entries[k + 1].key);
        }
    }
}

/// After an entry came, keys are distinct and the budget is kept.
pub proof fn lemma_after_insert(entries: Seq<EntryView>, new: EntryView)
    requires
        is_shard(entries),
    ensures
        is_shard(after_insert(entries, new)),
{
    if encode_utf8(new.text).len() <= MAX_CACHED_ENTRY_BYTES {
        let rest = without(entries, new.key);
        lemma_index_of_key(entries, new.key);
        if let Some(i) = index_of_key(entries, new.key) {
            lemma_distinct_remove(entries, i);
        }
        lemma_kept(rest, new.size());
        let stays = kept(rest, new.size());
        let all = stays.push(new);
        assert(all.drop_last() =~= stays);
        let n = rest.len() - stays.len();
        assert forall|k: int| 0 <= k < stays.len() implies #[trigger] stays[k] == rest[k + n] by {}
        assert forall|a: int, b: int| 0 <= a < b < all.len() implies (#[trigger] all[a]).key != (
        #[trigger] all[b]).key by {
            assert(all[a] == rest[a + n]);
            if b < stays.len() {
                assert(all[b] == rest[b + n]);
            }
        }
        assert forall|i: int| 0 <= i < all.len() implies encode_utf8(
            (#[trigger] all[i]).text,
        ).len() <= MAX_CACHED_ENTRY_BYTES by {
            lemma_insert_source(entries, new, i);
        }
    }
}

/// Where the entry at `k` stood before the entry at `used` was moved to the end.
pub open spec fn use_source(len: int, used: int, k: int) -> int {
    if k == len - 1 {
        used
    } else if k < used {
        k
    } else {
        k + 1
    }
}

/// After a use, keys are distinct and the budget is kept.
pub proof fn lemma_after_use(entries: Seq<EntryView>, key: KeyView)
    requires
        is_shard(entries),
    ensures
        is_shard(after_use(entries, key)),
        total_bytes(after_use(entries, key)) == total_bytes(entries),
        after_use(entries, key).len() == entries.len(),
{
    lemma_index_of_key(entries, key);
    if let Some(i) = index_of_key(entries, key) {
        lemma_distinct_remove(entries, i);
        lemma_total_remove(entries, i);
        let after = after_use(entries, key);
        assert(after.drop_last() =~= entries.remove(i));
        assert forall|k: int| 0 <= k < after.len() implies encode_utf8(
            (#[trigger] after[k]).text,
        ).len() <= MAX_CACHED_ENTRY_BYTES by {
            let source = use_source(entries.len() as int, i, k);
            assert(after[k] == entries[source]);
        }
    }
}

/// The number of bytes that the entry of a key counts for.
pub open spec fn size_of_key(entries: Seq<EntryView>, key: KeyView) -> nat {
    match index_of_key(entries, key) {
        Some(i) => entries[i].size(),
        None => 0,
    }
}

/// What stands in a shard after an entry came stood there before, or is that entry.
pub proof fn lemma_insert_source(entries: Seq<EntryView>, new: EntryView, i: int)
    requires
        0 <= i < after_insert(entries, new).len(),
    ensures
        after_insert(entries, new)[i] == new || exists|at: int|
            0 <= at < entries.len() && #[trigger] entries[at] == after_insert(entries, new)[i],
{
    let after = after_insert(entries, new);
    if encode_utf8(new.text).len() > MAX_CACHED_ENTRY_BYTES {
        assert(entries[i] == after[i]);
    } else if i < after.len() - 1 {
        let rest = without(entries, new.key);
        lemma_kept(rest, new.size());
        lemma_index_of_key(entries, new.key);
        let k = i + rest.len() - kept(rest, new.size()).len();
        assert(after[i] == rest[k]);
        match index_of_key(entries, new.key) {
            Some(at) => {
                if k < at {
                    assert(entries[k] == after[i]);
                } else {
                    assert(entries[k + 1] == after[i]);
                }
            },
            None => {
                assert(entries[k] == after[i]);
            },
        }
    }
}

/// No more entries leave than free what was asked for.
proof fn lemma_evictions_bound(entries: Seq<EntryView>, bytes: int, count: int, m: int)
    requires
        0 <= m <= entries.len(),
        total_bytes(entries.take(m)) >= bytes,
        m >= count,
    ensures
        evictions(entries, bytes, count) <= m,
    decreases entries.len(),
{
    if entries.len() > 0 && (bytes > 0 || count > 0) {
        if m == 0 {
            assert(entries.take(0) =~= Seq::empty());
        } else {
            let first = entries.take(m);
            lemma_total_split(first, 1);
            assert(first.take(1).last() == entries[0]);
            assert(first.take(1).drop_last() =~= Seq::empty());
            assert(total_bytes(first.take(1)) == entries[0].size()) by {
                assert(total_bytes(first.take(1).drop_last()) == 0);
            }
            assert(first.skip(1) =~= entries.drop_first().take(m - 1));
            lemma_evictions_bound(entries.drop_first(), bytes - entries[0].size(), count - 1, m - 1);
        }
    }
}

/// The text used last stays when another comes, as long as both fit into what a full shard is
/// cut to.
pub proof fn lemma_last_survives(entries: Seq<EntryView>, used: KeyView, new: EntryView)
    requires
        is_shard(entries),
        index_of_key(entries, used) is Some,
        used != new.key,
        size_of_key(entries, used) + new.size() <= TARGET_SHARD_BYTES,
    ensures
        lookup(after_insert(after_use(entries, used), new), used) == lookup(entries, used),
{
    let before = after_use(entries, used);
    lemma_index_of_key(entries, used);
    lemma_after_use(entries, used);
    let entry = before.last();
    assert(entry == entries[index_of_key(entries, used)->0]);
    let after = after_insert(before, new);
    lemma_after_insert(before, new);
    if encode_utf8(new.text).len() > MAX_CACHED_ENTRY_BYTES {
        lemma_index_is(after, used, after.len() - 1);
    } else {
        let rest = without(before, new.key);
        lemma_index_of_key(before, new.key);
        assert(rest.len() > 0 && rest.last() == entry);
        let m = rest.len() - 1;
        lemma_total_split(rest, m);
        let one = rest.skip(m);
        assert(one.len() == 1 && one.last() == entry);
        assert(one.drop_last() =~= Seq::empty());
        assert(total_bytes(one) == entry.size()) by {
            assert(total_bytes(one.drop_last()) == 0);
        }
        lemma_evictions_bound(
            rest,
            total_bytes(rest) + new.size() - TARGET_SHARD_BYTES,
            rest.len() + 1 - TARGET_SHARD_ENTRIES,
            m,
        );
        lemma_kept(rest, new.size());
        let stays = kept(rest, new.size());
        assert(stays.len() > 0 && stays.last() == entry);
        assert(after[stays.len() - 1] == entry);
        lemma_index_is(after, used, stays.len() - 1);
    }
}

/// A part of the cache: entries from the one that was not used for longest to the one that
/// was used last.
pub struct CacheShard {
    entries: Vec<CacheEntry>,
    total: usize,
}

impl View for CacheShard {
    type V = Seq<EntryView>;

    closed spec fn view(&self) -> Seq<EntryView> {
        self.entries@.map_values(|e: CacheEntry| e@)
    }
}

/// Each entry has the size of its key and text.
spec fn has_true_sizes(entries: Seq<CacheEntry>) -> bool {
    forall|i: int| 0 <= i < entries.len() ==> (#[trigger] entries[i]).size == entries[i]@.size()
}

/// The number of bytes that an entry counts for.
fn size_of_entry(key: &CacheKey, t: &str) -> (r: usize)
    ensures
        r == entry_bytes(key.path@.len(), t@),
{
    size_of_key_in_memory().saturating_add(key.path.bytes.len()).saturating_add(text::byte_len(t))
}

impl CacheShard {
    /// The sizes are those of the entries, and summed up.
    spec fn is_counted(&self) -> bool {
        has_true_sizes(self.entries@) && self.total == total_bytes(self@)
    }

    /// Each entry has the size of its key and text, the sizes are summed up, and the entries
    /// are as they should be.
    pub closed spec fn wf(&self) -> bool {
        &&& self.is_counted()
        &&& is_shard(self@)
    }

    /// What holds of the entries of a shard.
    pub proof fn lemma_wf(&self)
        requires
            self.wf(),
        ensures
            is_shard(self@),
    {
    }

    /// A shard without entries.
    pub fn new() -> (r: CacheShard)
        ensures
            r.wf(),
            r@ == Seq::<EntryView>::empty(),
    {
        let r = CacheShard { entries: Vec::new(), total: 0 };
        assert(r@ =~= Seq::<EntryView>::empty());
        r
    }

    fn find(&self, key: &CacheKey) -> (r: Option<usize>)
        ensures
            match r {
                Some(i) => index_of_key(self@, key@) == Some(i as int) && i < self@.len(),
                None => index_of_key(self@, key@) is None,
            },
    {
        let mut i: usize = 0;
        while i < self.entries.len()
            invariant
                i <= self.entries@.len(),
                self@.len() == self.entries@.len(),
                index_of_key(self@.take(i as int), key@) is None,
            decreases self.entries@.len() - i,
        {
            assert(self@.take(i + 1).drop_last() =~= self@.take(i as int));
            assert(self@.take(i + 1).last() == self.entries@[i as int]@);
            if self.entries[i].key.same_as(key) {
                proof {
                    lemma_index_extends(self@, i + 1, key@);
                }
                return Some(i);
            }
            i = i + 1;
        }
        assert(self@.take(i as int) =~= self@);
        None
    }

    /// The text of a key, which thereby counts as used.
    pub fn get(&mut self, key: &CacheKey) -> (r: Option<Arc<str>>)
        requires
            old(self).wf(),
        ensures
            final(self).wf(),
            final(self)@ == after_use(old(self)@, key@),
            match r {
                Some(t) => lookup(old(self)@, key@) == Some((*t)@),
                None => lookup(old(self)@, key@) is None,
            },
    {
        proof {
            lemma_after_use(self@, key@);
        }
        match self.find(key) {
            Some(i) => {
                let ghost before = self@;
                let entry = self.entries.remove(i);
                let r = shared::share(&entry.text);
                let ghost used = entry@;
                self.entries.push(entry);
                assert(used == before[i as int]);
                assert(self@ =~= before.remove(i as int).push(used));
                Some(r)
            },
            None => None,
        }
    }

    /// Takes a text in. Texts that are too large are not taken, and a full shard lets go of
    /// the texts that were not used for longest.
    pub fn insert(&mut self, key: CacheKey, t: Arc<str>)
        requires
            old(self).wf(),
        ensures
            final(self).wf(),
            final(self)@ == after_insert(
                old(self)@,
                (EntryView { key: key@, path_len: key.path@.len(), text: (*t)@ }),
            ),
    {
        let text_bytes = text::byte_len(shared::text_in(&t));
        let size = size_of_entry(&key, shared::text_in(&t));
        let ghost new = EntryView { key: key@, path_len: key.path@.len(), text: (*t)@ };
        proof {
            lemma_after_insert(self@, new);
        }
        if text_bytes > MAX_CACHED_ENTRY_BYTES {
            return;
        }
        self.take_out(&key);
        let ghost rest = self@;
        let n = self.count_evictions(size);
        proof {
            lemma_kept(rest, size as nat);
        }
        self.let_go(n);
        let ghost stays = self@;
        let ghost entries = self.entries@;
        self.total = self.total + size;
        self.entries.push(CacheEntry { key, text: t, size });
        assert(self@ =~= stays.push(new));
        assert(self@.drop_last() =~= stays);
        assert(has_true_sizes(self.entries@)) by {
            assert forall|i: int| 0 <= i < self.entries@.len() implies (
            #[trigger] self.entries@[i]).size == self.entries@[i]@.size() by {
                if i < entries.len() {
                    assert(self.entries@[i] == entries[i]);
                }
            }
        }
    }

    /// Takes the entry of a key out, if there is one.
    fn take_out(&mut self, key: &CacheKey)
        requires
            old(self).is_counted(),
        ensures
            final(self).is_counted(),
            final(self)@ == without(old(self)@, key@),
    {
        if let Some(i) = self.find(key) {
            let ghost before = self@;
            let ghost entries = self.entries@;
            let gone = self.entries.remove(i);
            proof {
                lemma_total_remove(before, i as int);
                assert(self@ =~= before.remove(i as int));
                assert(gone == entries[i as int]);
                assert(gone@ == before[i as int]);
            }
            self.total = self.total - gone.size;
            assert forall|k: int| 0 <= k < self.entries@.len() implies (
            #[trigger] self.entries@[k]).size == self.entries@[k]@.size() by {
                assert(self.entries@[k] == entries[if k < i {
                    k
                } else {
                    k + 1
                }]);
            }
        }
    }

    /// Lets go of the first entries.
    fn let_go(&mut self, n: usize)
        requires
            old(self).is_counted(),
            n <= old(self)@.len(),
        ensures
            final(self).is_counted(),
            final(self)@ == old(self)@.skip(n as int),
    {
        let ghost rest = self@;
        let ghost entries = self.entries@;
        let stays = self.entries.split_off(n);
        let mut freed: usize = 0;
        let mut k: usize = 0;
        let ghost gone = self@;
        proof {
            lemma_total_split(rest, n as int);
        }
        assert(gone =~= rest.take(n as int));
        assert(gone.take(0) =~= Seq::empty());
        assert forall|i: int| 0 <= i < self.entries@.len() implies (
        #[trigger] self.entries@[i]).size == self.entries@[i]@.size() by {
            assert(self.entries@[i] == entries[i]);
        }
        while k < n
            invariant
                k <= n == self.entries@.len(),
                gone == self@,
                has_true_sizes(self.entries@),
                freed == total_bytes(gone.take(k as int)),
                total_bytes(gone) <= usize::MAX,
            decreases n - k,
        {
            proof {
                lemma_total_split(gone, k + 1);
                assert(gone.take(k + 1).drop_last() =~= gone.take(k as int));
                assert(gone.take(k + 1).last() == self.entries@[k as int]@);
            }
            freed = freed + self.entries[k].size;
            k = k + 1;
        }
        assert(gone.take(n as int) =~= gone);
        assert forall|i: int| 0 <= i < stays@.len() implies (#[trigger] stays@[i]).size
            == stays@[i]@.size() by {
            assert(stays@[i] == entries[i + n]);
        }
        self.entries = stays;
        self.total = self.total - freed;
        assert(self@ =~= rest.skip(n as int));
    }

    /// The number of entries that leave when one of a size is to come.
    fn count_evictions(&self, size: usize) -> (n: usize)
        requires
            has_true_sizes(self.entries@),
            self.total == total_bytes(self@),
        ensures
            n <= self@.len(),
            kept(self@, size as nat) == self@.skip(n as int),
    {
        let len: usize = self.entries.len();
        assert(self@.len() == len);
        assert(self@.skip(0) =~= self@);
        if len < MAX_SHARD_ENTRIES && size <= MAX_SHARD_BYTES && self.total <= MAX_SHARD_BYTES
            - size {
            return 0;
        }
        let all: u128 = self.total as u128 + size as u128;
        let bytes: u128 = if all > TARGET_SHARD_BYTES as u128 {
            all - TARGET_SHARD_BYTES as u128
        } else {
            0
        };
        let count: usize = if len >= TARGET_SHARD_ENTRIES {
            len - (TARGET_SHARD_ENTRIES - 1)
        } else {
            0
        };
        let ghost need = self.total + size - TARGET_SHARD_BYTES;
        let ghost many = len + 1 - TARGET_SHARD_ENTRIES;
        let mut freed: u128 = 0;
        let mut n: usize = 0;
        assert(self@.take(0) =~= Seq::empty());
        while n < len && (freed < bytes || n < count)
            invariant
                n <= len == self.entries@.len(),
                self@.len() == len,
                has_true_sizes(self.entries@),
                self.total == total_bytes(self@),
                freed == total_bytes(self@.take(n as int)),
                bytes == if need > 0 {
                    need
                } else {
                    0
                },
                count == if many > 0 {
                    many
                } else {
                    0
                },
                evictions(self@, need, many) == n + evictions(
                    self@.skip(n as int),
                    need - freed,
                    many - n,
                ),
            decreases len - n,
        {
            proof {
                lemma_total_split(self@, n + 1);
                assert(self@.take(n + 1).drop_last() =~= self@.take(n as int));
                assert(self@.take(n + 1).last() == self.entries@[n as int]@);
                assert(self@.skip(n as int).drop_first() =~= self@.skip(n + 1));
                assert(self@.skip(n as int)[0] == self@[n as int]);
            }
            freed = freed + self.entries[n].size as u128;
            n = n + 1;
        }
        n
    }

    /// Lets go of all texts.
    pub fn clear(&mut self)
        ensures
            final(self).wf(),
            final(self)@ == Seq::<EntryView>::empty(),
    {
        self.entries.clear();
        self.total = 0;
        assert(self@ =~= Seq::<EntryView>::empty());
    }

    /// The number of texts.
    pub fn len(&self) -> (r: usize)
        ensures
            r == self@.len(),
    {
        self.entries.len()
    }

    /// The number of bytes that the entries count for.
    pub fn total_bytes(&self) -> (r: usize)
        requires
            self.wf(),
        ensures
            r == total_bytes(self@),
    {
        self.total
    }
}

/// The index of a key in the front of a list is its index in the list.
proof fn lemma_index_extends(entries: Seq<EntryView>, k: int, key: KeyView)
    requires
        0 <= k <= entries.len(),
        index_of_key(entries.take(k), key) is Some,
    ensures
        index_of_key(entries, key) == index_of_key(entries.take(k), key),
    decreases entries.len() - k,
{
    if k == entries.len() {
        assert(entries.take(k) =~= entries);
    } else {
        assert(entries.take(k + 1).drop_last() =~= entries.take(k));
        lemma_index_extends(entries, k + 1, key);
    }
}

/// The length up to which a path counts as short: 1 MB.
pub const MAX_SHORT_PATH_BYTES: usize = 1_048_576;

/// What is done with a cache, or with a part of it.
pub enum CacheStep {
    /// The text of a key is asked for.
    Get(KeyView),
    /// A text comes.
    Insert(EntryView),
    /// All texts leave.
    Clear,
}

/// The entries after one step.
pub open spec fn after_step(entries: Seq<EntryView>, step: CacheStep) -> Seq<EntryView> {
    match step {
        CacheStep::Get(key) => after_use(entries, key),
        CacheStep::Insert(new) => after_insert(entries, new),
        CacheStep::Clear => Seq::empty(),
    }
}

/// The entries of a new shard after some steps.
pub open spec fn after_steps(steps: Seq<CacheStep>) -> Seq<EntryView>
    decreases steps.len(),
{
    if steps.len() == 0 {
        Seq::empty()
    } else {
        after_step(after_steps(steps.drop_last()), steps.last())
    }
}

/// A text that comes has a short path.
pub open spec fn has_short_path(step: CacheStep) -> bool {
    step matches CacheStep::Insert(new) ==> new.path_len <= MAX_SHORT_PATH_BYTES
}

/// All texts that come have short paths.
pub open spec fn have_short_paths(steps: Seq<CacheStep>) -> bool {
    forall|i: int| 0 <= i < steps.len() ==> has_short_path(#[trigger] steps[i])
}

/// All entries have short paths.
pub open spec fn are_short(entries: Seq<EntryView>) -> bool {
    forall|i: int|
        0 <= i < entries.len() ==> (#[trigger] entries[i]).path_len <= MAX_SHORT_PATH_BYTES
}

/// A step leaves entries as they should be, and short paths short.
pub proof fn lemma_step(entries: Seq<EntryView>, step: CacheStep)
    requires
        is_shard(entries),
    ensures
        is_shard(after_step(entries, step)),
        are_short(entries) && has_short_path(step) ==> are_short(after_step(entries, step)),
{
    let after = after_step(entries, step);
    match step {
        CacheStep::Get(key) => {
            lemma_after_use(entries, key);
            lemma_index_of_key(entries, key);
            if are_short(entries) {
                assert forall|k: int| 0 <= k < after.len() implies (#[trigger] after[k]).path_len
                    <= MAX_SHORT_PATH_BYTES by {
                    if let Some(i) = index_of_key(entries, key) {
                        assert(after[k] == entries[use_source(entries.len() as int, i, k)]);
                    } else {
                        assert(after[k] == entries[k]);
                    }
                }
            }
        },
        CacheStep::Insert(new) => {
            lemma_after_insert(entries, new);
            if are_short(entries) && has_short_path(step) {
                assert forall|k: int| 0 <= k < after.len() implies (#[trigger] after[k]).path_len
                    <= MAX_SHORT_PATH_BYTES by {
                    lemma_insert_source(entries, new, k);
                }
            }
        },
        CacheStep::Clear => {
            assert(total_bytes(after) == 0);
        },
    }
}

/// Entries with short paths count for the bytes of their keys, paths and texts, and fit into
/// a shard.
pub proof fn lemma_short_entries(entries: Seq<EntryView>)
    requires
        is_shard(entries),
        are_short(entries),
    ensures
        forall|i: int|
            0 <= i < entries.len() ==> (#[trigger] entries[i]).size() == key_bytes()
                + entries[i].path_len + encode_utf8(entries[i].text).len(),
        total_bytes(entries) <= MAX_SHARD_BYTES,
{
    if entries.len() == 1 {
        assert(entries.drop_last() =~= Seq::empty());
        assert(total_bytes(entries.drop_last()) == 0);
        assert(entries[0].path_len <= MAX_SHORT_PATH_BYTES);
        assert(encode_utf8(entries[0].text).len() <= MAX_CACHED_ENTRY_BYTES);
    }
}

/// Entries count for no bytes exactly where there are none.
pub proof fn lemma_no_bytes(entries: Seq<EntryView>)
    ensures
        total_bytes(entries) == 0 <==> entries.len() == 0,
{
}

/// Whatever is done with a shard, it holds no more texts than it may. As long as all paths are
/// short, it holds no more bytes than it may either, and these are the bytes of the keys,
/// paths and texts that stand in it.
pub proof fn shard_keeps_its_budget(steps: Seq<CacheStep>)
    ensures
        is_shard(after_steps(steps)),
        after_steps(steps).len() <= MAX_SHARD_ENTRIES,
        have_short_paths(steps) ==> {
            &&& total_bytes(after_steps(steps)) <= MAX_SHARD_BYTES
            &&& forall|i: int|
                0 <= i < after_steps(steps).len() ==> (#[trigger] after_steps(steps)[i]).size()
                    == key_bytes() + after_steps(steps)[i].path_len + encode_utf8(
                    after_steps(steps)[i].text,
                ).len()
        },
{
    lemma_steps(steps);
    if have_short_paths(steps) {
        lemma_short_entries(after_steps(steps));
    }
}

proof fn lemma_steps(steps: Seq<CacheStep>)
    ensures
        is_shard(after_steps(steps)),
        have_short_paths(steps) ==> are_short(after_steps(steps)),
    decreases steps.len(),
{
    if steps.len() == 0 {
        assert(total_bytes(after_steps(steps)) == 0);
    } else {
        let front = steps.drop_last();
        lemma_steps(front);
        lemma_step(after_steps(front), steps.last());
        if have_short_paths(steps) {
            assert forall|i: int| 0 <= i < front.len() implies has_short_path(
                #[trigger] front[i],
            ) by {
                assert(front[i] == steps[i]);
            }
        }
    }
}

/// A shard holds up to 625 texts and 16 megabytes. While another entry fits nothing leaves.
/// Once it does not, entries leave from the front, which were not used for longest, until
/// there are fewer than 500 and the new one fits into four fifths of the bytes, and no more of
/// them than that takes.
pub proof fn longest_unused_leave_first(entries: Seq<EntryView>, size: nat)
    ensures
        entries.len() < 625 && total_bytes(entries) + size <= 16 * 1024 * 1024 ==> kept(
            entries,
            size,
        ) == entries,
        kept(entries, size) == entries.skip(entries.len() - kept(entries, size).len()),
        entries.len() >= 625 || total_bytes(entries) + size > 16 * 1024 * 1024 ==> {
            let stays = kept(entries, size);
            let one_more = entries.skip(entries.len() - stays.len() - 1);
            &&& stays.len() > 0 ==> stays.len() < 500 && total_bytes(stays) + size
                <= 16 * 1024 * 1024 * 4 / 5
            &&& stays.len() < entries.len() ==> one_more.len() >= 500 || total_bytes(one_more)
                + size > 16 * 1024 * 1024 * 4 / 5
        },
{
    lemma_kept(entries, size);
    let bytes = total_bytes(entries) + size - TARGET_SHARD_BYTES;
    let count = entries.len() + 1 - TARGET_SHARD_ENTRIES;
    let n = evictions(entries, bytes, count) as int;
    if entries.len() >= 625 || total_bytes(entries) + size > 16 * 1024 * 1024 {
        lemma_evictions(entries, bytes, count);
        lemma_total_split(entries, n);
        if n > 0 {
            lemma_total_split(entries, n - 1);
            if total_bytes(entries.take(n - 1)) >= bytes && n - 1 >= count {
                lemma_evictions_bound(entries, bytes, count, n - 1);
            }
        }
    }
}

/// An entry counts for the bytes of its text and of its path, and for its key; the bytes of
/// entries add up.
pub proof fn entries_count_for_their_bytes(entries: Seq<EntryView>, new: EntryView)
    requires
        key_bytes() + new.path_len + encode_utf8(new.text).len() <= usize::MAX,
    ensures
        total_bytes(entries.push(new)) == total_bytes(entries) + key_bytes() + new.path_len
            + encode_utf8(new.text).len(),
        total_bytes(Seq::empty()) == 0,
{
    assert(entries.push(new).drop_last() =~= entries);
}

/// What was used last stands at the end, and the order of the others stays.
pub proof fn used_entries_move_to_the_end(entries: Seq<EntryView>, i: int, k: int)
    requires
        has_distinct_keys(entries),
        0 <= i < entries.len(),
        0 <= k < entries.len() - 1,
    ensures
        after_use(entries, entries[i].key).len() == entries.len(),
        after_use(entries, entries[i].key).last() == entries[i],
        after_use(entries, entries[i].key)[k] == if k < i {
            entries[k]
        } else {
            entries[k + 1]
        },
        lookup(entries, entries[i].key) == Some(entries[i].text),
{
    lemma_index_is(entries, entries[i].key, i);
}

/// A text of up to five megabytes that comes stands at the end under its key, in place of the
/// one that stood under it; a larger one changes nothing.
pub proof fn new_entries_stand_at_the_end(entries: Seq<EntryView>, new: EntryView)
    requires
        is_shard(entries),
    ensures
        encode_utf8(new.text).len() <= 5 * 1024 * 1024 ==> after_insert(entries, new).len() > 0
            && after_insert(entries, new).last() == new && lookup(
            after_insert(entries, new),
            new.key,
        ) == Some(new.text),
        encode_utf8(new.text).len() > 5 * 1024 * 1024 ==> after_insert(entries, new) == entries,
{
    if encode_utf8(new.text).len() <= 5 * 1024 * 1024 {
        let after = after_insert(entries, new);
        lemma_after_insert(entries, new);
        lemma_index_is(after, new.key, after.len() - 1);
    }
}

/// A key counts for what its parts take in memory, where that is within sense.
pub proof fn keys_count_for_their_parts()
    ensures
        1 <= key_bytes() <= 1024 * 1024,
        1 <= vstd::layout::size_of::<SystemKey>() <= 1024 * 1024 ==> key_bytes()
            == vstd::layout::size_of::<SystemKey>(),
{
}

} // verus!
