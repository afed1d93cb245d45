//! The document cache: the texts of files, kept between searches.

use crate::cache_shard;
use crate::cache_shard::CacheKey;
use crate::cache_shard::CacheShard;
use crate::cache_shard::CacheStep;
use crate::cache_shard::EntryView;
use crate::cache_shard::KeyView;
use crate::order;
use crate::time::Timestamp;
use std::collections::hash_map::DefaultHasher;
use std::hash::Hasher;
use std::sync::Arc;
use vstd::bytes::*;
use vstd::prelude::*;
use vstd::std_specs::hash::*;
use vstd::utf8::*;

verus! {

/// The number of shards.
pub const NUM_SHARDS: usize = 16;

/// The number of bytes that the cache may hold: 256 MB.
pub const MAX_CACHE_TOTAL_BYTES: usize = 268_435_456;

/// The number of texts that the cache may hold.
pub const MAX_CACHE_ENTRIES: usize = 10_000;

/// The bytes that stand for a point in time.
pub open spec fn time_bytes(t: Option<Timestamp>) -> Seq<u8> {
    match t {
        Some(t) => spec_u64_to_le_bytes(t.secs as u64) + spec_u64_to_le_bytes(t.nanos as u64),
        None => Seq::empty(),
    }
}

/// The bytes that stand for a word.
pub open spec fn word_bytes(word: Seq<u64>) -> Seq<u8> {
    word.map_values(|n: u64| n as u8)
}

/// What is hashed of a key.
pub open spec fn fingerprint(key: KeyView) -> Seq<Seq<u8>> {
    key.path.map_values(|w: Seq<u64>| word_bytes(w)).push(spec_u64_to_le_bytes(key.size)).push(
        time_bytes(key.modified),
    )
}

/// The shard that holds the text of a key.
pub open spec fn shard_of(key: KeyView) -> int {
    (DefaultHasher::spec_finish(fingerprint(key)) % NUM_SHARDS as u64) as int
}

fn bytes_of_word(word: &order::Word) -> (r: Vec<u8>)
    ensures
        r@ == word_bytes(word@),
{
    let mut r: Vec<u8> = Vec::new();
    let mut i: usize = 0;
    while i < word.len()
        invariant
            i <= word@.len(),
            r@ == word_bytes(word@.take(i as int)),
        decreases word@.len() - i,
    {
        r.push(
            #[verifier::truncate]
            (word[i] as u8),
        );
        assert(word_bytes(word@.take(i + 1)) =~= word_bytes(word@.take(i as int)).push(
            word@[i as int] as u8,
        ));
        i = i + 1;
    }
    assert(word@.take(i as int) =~= word@);
    r
}

fn bytes_of_time(t: Option<Timestamp>) -> (r: Vec<u8>)
    ensures
        r@ == time_bytes(t),
{
    match t {
        Some(t) => {
            let mut r = u64_to_le_bytes(
                #[verifier::truncate]
                (t.secs as u64),
            );
            let mut nanos = u64_to_le_bytes(t.nanos as u64);
            r.append(&mut nanos);
            r
        },
        None => {
            let r: Vec<u8> = Vec::new();
            assert(r@ =~= time_bytes(t));
            r
        },
    }
}

/// Texts of files, by file and state, in shards.
pub struct DocumentCache {
    shards: Vec<CacheShard>,
}

impl View for DocumentCache {
    type V = Seq<Seq<EntryView>>;

    closed spec fn view(&self) -> Seq<Seq<EntryView>> {
        self.shards@.map_values(|s: CacheShard| s@)
    }
}

/// The text that the cache holds of a key.
pub open spec fn cached(cache: Seq<Seq<EntryView>>, key: KeyView) -> Option<Seq<char>> {
    cache_shard::lookup(cache[shard_of(key)], key)
}

/// The cache after a text was asked for.
pub open spec fn after_get(cache: Seq<Seq<EntryView>>, key: KeyView) -> Seq<Seq<EntryView>> {
    cache.update(shard_of(key), cache_shard::after_use(cache[shard_of(key)], key))
}

/// The cache after a text came.
pub open spec fn after_insert(cache: Seq<Seq<EntryView>>, new: EntryView) -> Seq<Seq<EntryView>> {
    cache.update(shard_of(new.key), cache_shard::after_insert(cache[shard_of(new.key)], new))
}

/// The number of texts in shards.
pub open spec fn total_len(cache: Seq<Seq<EntryView>>) -> nat
    decreases cache.len(),
{
    if cache.len() == 0 {
        0
    } else {
        total_len(cache.drop_last()) + cache.last().len()
    }
}

/// The number of bytes that the entries in shards count for.
pub open spec fn total_usage(cache: Seq<Seq<EntryView>>) -> nat
    decreases cache.len(),
{
    if cache.len() == 0 {
        0
    } else {
        total_usage(cache.drop_last()) + cache_shard::total_bytes(cache.last())
    }
}

/// There are as many shards as there should be, each within its budget, and each text stands
/// once, in the shard of its key.
pub open spec fn is_cache(cache: Seq<Seq<EntryView>>) -> bool {
    &&& cache.len() == NUM_SHARDS
    &&& forall|k: int|
        0 <= k < cache.len() ==> cache_shard::is_shard(#[trigger] cache[k])
    &&& forall|k: int, i: int|
        0 <= k < cache.len() && 0 <= i < cache[k].len() ==> shard_of((#[trigger] cache[k][i]).key)
            == k
}

/// A cache without texts.
pub open spec fn empty_cache() -> Seq<Seq<EntryView>> {
    Seq::new(NUM_SHARDS as nat, |k: int| Seq::<EntryView>::empty())
}

impl DocumentCache {
    /// The cache is as it should be.
    pub closed spec fn wf(&self) -> bool {
        &&& is_cache(self@)
        &&& forall|k: int| 0 <= k < self.shards@.len() ==> (#[trigger] self.shards@[k]).wf()
    }

    /// What holds of the contents of a cache.
    pub proof fn lemma_wf(&self)
        requires
            self.wf(),
        ensures
            is_cache(self@),
    {
    }

    /// A cache without texts.
    pub fn new() -> (r: DocumentCache)
        ensures
            r.wf(),
            r@ == empty_cache(),
    {
        let mut shards: Vec<CacheShard> = Vec::new();
        let mut k: usize = 0;
        while k < NUM_SHARDS
            invariant
                k <= NUM_SHARDS,
                shards@.len() == k,
                forall|j: int|
                    0 <= j < k ==> (#[trigger] shards@[j]).wf() && shards@[j]@ == Seq::<
                        EntryView,
                    >::empty(),
            decreases NUM_SHARDS - k,
        {
            shards.push(CacheShard::new());
            k = k + 1;
        }
        let r = DocumentCache { shards };
        assert(r@ =~= empty_cache());
        proof {
            lemma_empty_is_cache();
        }
        r
    }

    /// The shard that holds the text of a key.
    pub fn shard_index(key: &CacheKey) -> (r: usize)
        ensures
            r == shard_of(key@),
            r < NUM_SHARDS,
    {
        let mut hasher = DefaultHasher::new();
        let words = key.path.key();
        let ghost views = order::key_view(words@);
        let ghost f = |w: Seq<u64>| word_bytes(w);
        let mut i: usize = 0;
        assert(views.take(0).map_values(f) =~= Seq::empty());
        while i < words.len()
            invariant
                i <= words@.len(),
                views == order::key_view(words@),
                f == (|w: Seq<u64>| word_bytes(w)),
                hasher@ == views.take(i as int).map_values(f),
            decreases words@.len() - i,
        {
            let b = bytes_of_word(&words[i]);
            hasher.write(b.as_slice());
            assert(views.take(i + 1).map_values(f) =~= views.take(i as int).map_values(f).push(b@));
            i = i + 1;
        }
        assert(views.take(i as int) =~= views);
        let size = u64_to_le_bytes(key.size);
        hasher.write(size.as_slice());
        let time = bytes_of_time(key.modified);
        hasher.write(time.as_slice());
        assert(hasher@ == fingerprint(key@));
        (hasher.finish() % NUM_SHARDS as u64) as usize
    }

    /// The text of a key, which thereby counts as used.
    pub fn get(&mut self, key: &CacheKey) -> (r: Option<Arc<str>>)
        requires
            old(self).wf(),
        ensures
            final(self).wf(),
            final(self)@ == after_get(old(self)@, key@),
            match r {
                Some(t) => cached(old(self)@, key@) == Some((*t)@),
                None => cached(old(self)@, key@) is None,
            },
    {
        let idx = DocumentCache::shard_index(key);
        let ghost before = self@;
        assert(before[idx as int] == self.shards@[idx as int]@);
        proof {
            lemma_get_keeps_cache(before, key@);
        }
        let r = self.shards[idx].get(key);
        assert(self@ =~= after_get(before, key@));
        r
    }

    /// Takes a text in.
    pub fn insert(&mut self, key: CacheKey, text: Arc<str>)
        requires
            old(self).wf(),
        ensures
            final(self).wf(),
            final(self)@ == after_insert(
                old(self)@,
                (EntryView {
                    key: key@,
                    path_len: key.path@.len(),
                    text: (*text)@,
                }),
            ),
    {
        let idx = DocumentCache::shard_index(&key);
        let ghost before = self@;
        let ghost new = EntryView {
            key: key@,
            path_len: key.path@.len(),
            text: (*text)@,
        };
        assert(before[idx as int] == self.shards@[idx as int]@);
        proof {
            lemma_insert_keeps_cache(before, new);
        }
        self.shards[idx].insert(key, text);
        assert(self@ =~= after_insert(before, new));
    }

    /// Lets go of all texts.
    pub fn clear(&mut self)
        requires
            old(self).wf(),
        ensures
            final(self).wf(),
            final(self)@ == empty_cache(),
    {
        let mut k: usize = 0;
        while k < self.shards.len()
            invariant
                k <= self.shards@.len() == NUM_SHARDS,
                forall|j: int| 0 <= j < self.shards@.len() ==> (#[trigger] self.shards@[j]).wf(),
                forall|j: int|
                    0 <= j < k ==> (#[trigger] self.shards@[j])@ == Seq::<EntryView>::empty(),
            decreases self.shards@.len() - k,
        {
            self.shards[k].clear();
            k = k + 1;
        }
        assert(self@ =~= empty_cache());
        proof {
            lemma_empty_is_cache();
        }
    }

    /// The number of texts.
    pub fn len(&self) -> (r: usize)
        requires
            self.wf(),
        ensures
            r == total_len(self@),
            r <= MAX_CACHE_ENTRIES,
    {
        let mut n: usize = 0;
        let mut k: usize = 0;
        assert(self@.take(0) =~= Seq::empty());
        while k < self.shards.len()
            invariant
                self.wf(),
                k <= self.shards@.len() == NUM_SHARDS,
                self@.len() == NUM_SHARDS,
                n == total_len(self@.take(k as int)),
                n <= k * cache_shard::MAX_SHARD_ENTRIES,
            decreases self.shards@.len() - k,
        {
            assert(self@.take(k + 1).drop_last() =~= self@.take(k as int));
            assert(self@.take(k + 1).last() == self@[k as int]);
            assert(self@[k as int] == self.shards@[k as int]@);
            n = n + self.shards[k].len();
            k = k + 1;
        }
        assert(self@.take(k as int) =~= self@);
        n
    }

    /// Whether there is no text.
    pub fn is_empty(&self) -> (r: bool)
        requires
            self.wf(),
        ensures
            r == (total_len(self@) == 0),
    {
        self.len() == 0
    }

    /// The number of bytes that the entries count for.
    pub fn memory_usage_bytes(&self) -> (r: usize)
        requires
            self.wf(),
        ensures
            r == if total_usage(self@) <= usize::MAX {
                total_usage(self@)
            } else {
                usize::MAX as nat
            },
            r == 0 <==> total_len(self@) == 0,
    {
        proof {
            usage_tells_texts(self@);
        }
        let mut n: usize = 0;
        let mut k: usize = 0;
        assert(self@.take(0) =~= Seq::empty());
        while k < self.shards.len()
            invariant
                self.wf(),
                k <= self.shards@.len() == self@.len(),
                n == if total_usage(self@.take(k as int)) <= usize::MAX {
                    total_usage(self@.take(k as int))
                } else {
                    usize::MAX as nat
                },
            decreases self.shards@.len() - k,
        {
            assert(self@.take(k + 1).drop_last() =~= self@.take(k as int));
            assert(self@.take(k + 1).last() == self@[k as int]);
            assert(self@[k as int] == self.shards@[k as int]@);
            n = n.saturating_add(self.shards[k].total_bytes());
            k = k + 1;
        }
        assert(self@.take(k as int) =~= self@);
        n
    }
}

impl Default for DocumentCache {
    fn default() -> (r: DocumentCache)
        ensures
            r.wf(),
            r@ == empty_cache(),
    {
        DocumentCache::new()
    }
}

proof fn lemma_empty_is_cache()
    ensures
        is_cache(empty_cache()),
{
    assert forall|j: int| 0 <= j < empty_cache().len() implies cache_shard::is_shard(
        #[trigger] empty_cache()[j],
    ) by {
        assert(cache_shard::total_bytes(empty_cache()[j]) == 0);
    }
}

/// The shard of a key is one of the shards.
proof fn lemma_shard_of(key: KeyView)
    ensures
        0 <= shard_of(key) < NUM_SHARDS,
{
}

proof fn lemma_get_keeps_cache(cache: Seq<Seq<EntryView>>, key: KeyView)
    requires
        is_cache(cache),
    ensures
        is_cache(after_get(cache, key)),
{
    let k = shard_of(key);
    let before = cache[k];
    let after = after_get(cache, key);
    cache_shard::lemma_after_use(before, key);
    cache_shard::lemma_index_of_key(before, key);
    assert forall|j: int, i: int| 0 <= j < after.len() && 0 <= i < after[j].len() implies shard_of(
        (#[trigger] after[j][i]).key,
    ) == j by {
        if j == k {
            if let Some(at) = cache_shard::index_of_key(before, key) {
                if i == after[j].len() - 1 {
                    assert(after[j][i] == cache[j][at]);
                } else if i < at {
                    assert(after[j][i] == cache[j][i]);
                } else {
                    assert(after[j][i] == cache[j][i + 1]);
                }
            } else {
                assert(after[j][i] == cache[j][i]);
            }
        } else {
            assert(after[j][i] == cache[j][i]);
        }
    }
}

proof fn lemma_insert_keeps_cache(cache: Seq<Seq<EntryView>>, new: EntryView)
    requires
        is_cache(cache),
    ensures
        is_cache(after_insert(cache, new)),
{
    let k = shard_of(new.key);
    let before = cache[k];
    let after = after_insert(cache, new);
    cache_shard::lemma_after_insert(before, new);
    assert forall|j: int, i: int| 0 <= j < after.len() && 0 <= i < after[j].len() implies shard_of(
        (#[trigger] after[j][i]).key,
    ) == j by {
        if j == k {
            cache_shard::lemma_insert_source(before, new, i);
            if after[j][i] != new {
                let at = choose|at: int| 0 <= at < before.len() && before[at] == after[j][i];
                assert(after[j][i] == cache[j][at]);
            }
        } else {
            assert(after[j][i] == cache[j][i]);
        }
    }
}

/// What was put in can be taken out: a text that is not too large is there once it came.
pub proof fn get_after_insert(cache: Seq<Seq<EntryView>>, new: EntryView)
    requires
        is_cache(cache),
        encode_utf8(new.text).len() <= cache_shard::MAX_CACHED_ENTRY_BYTES,
    ensures
        cached(after_insert(cache, new), new.key) == Some(new.text),
{
    let before = cache[shard_of(new.key)];
    let after = cache_shard::after_insert(before, new);
    cache_shard::lemma_after_insert(before, new);
    cache_shard::lemma_index_is(after, new.key, after.len() - 1);
}

/// A text that is too large leaves the cache as it is.
pub proof fn large_text_is_not_kept(cache: Seq<Seq<EntryView>>, new: EntryView)
    requires
        is_cache(cache),
        encode_utf8(new.text).len() > cache_shard::MAX_CACHED_ENTRY_BYTES,
    ensures
        after_insert(cache, new) == cache,
{
    assert(after_insert(cache, new) =~= cache);
}

/// What the cache gives of a key after another text came is what it gave before, or nothing.
pub proof fn insert_never_mixes_texts(cache: Seq<Seq<EntryView>>, new: EntryView, key: KeyView)
    requires
        is_cache(cache),
        key != new.key,
    ensures
        cached(after_insert(cache, new), key) is None || cached(after_insert(cache, new), key)
            == cached(cache, key),
{
    if shard_of(key) == shard_of(new.key) {
        let before = cache[shard_of(key)];
        let after = cache_shard::after_insert(before, new);
        cache_shard::lemma_after_insert(before, new);
        cache_shard::lemma_index_of_key(after, key);
        if let Some(i) = cache_shard::index_of_key(after, key) {
            cache_shard::lemma_insert_source(before, new, i);
            let at = choose|at: int| 0 <= at < before.len() && before[at] == after[i];
            cache_shard::lemma_index_is(before, key, at);
        }
    }
}

/// While a shard has room, a text that comes drives no other text out.
pub proof fn insert_with_room_keeps_texts(cache: Seq<Seq<EntryView>>, new: EntryView, key: KeyView)
    requires
        is_cache(cache),
        key != new.key,
        cache[shard_of(new.key)].len() < cache_shard::MAX_SHARD_ENTRIES,
        cache_shard::total_bytes(cache[shard_of(new.key)]) + new.size()
            <= cache_shard::MAX_SHARD_BYTES,
    ensures
        cached(after_insert(cache, new), key) == cached(cache, key),
{
    insert_never_mixes_texts(cache, new, key);
    if shard_of(key) == shard_of(new.key) {
        let before = cache[shard_of(key)];
        let after = cache_shard::after_insert(before, new);
        let rest = cache_shard::without(before, new.key);
        cache_shard::lemma_after_insert(before, new);
        cache_shard::lemma_index_of_key(before, key);
        cache_shard::lemma_index_of_key(before, new.key);
        if let Some(at) = cache_shard::index_of_key(before, new.key) {
            cache_shard::lemma_total_remove(before, at);
        }
        if let Some(i) = cache_shard::index_of_key(before, key) {
            let place = match cache_shard::index_of_key(before, new.key) {
                Some(at) => if i < at {
                    i
                } else {
                    i - 1
                },
                None => i,
            };
            if encode_utf8(new.text).len() <= cache_shard::MAX_CACHED_ENTRY_BYTES {
                assert(rest[place] == before[i]);
                assert(after[place] == before[i]);
                cache_shard::lemma_index_is(after, key, place);
            }
        }
    }
}

/// Asking for a text changes no text that the cache gives.
pub proof fn get_changes_no_text(cache: Seq<Seq<EntryView>>, asked: KeyView, key: KeyView)
    requires
        is_cache(cache),
    ensures
        cached(after_get(cache, asked), key) == cached(cache, key),
{
    if shard_of(key) == shard_of(asked) {
        let before = cache[shard_of(key)];
        let after = cache_shard::after_use(before, asked);
        cache_shard::lemma_after_use(before, asked);
        cache_shard::lemma_index_of_key(before, asked);
        cache_shard::lemma_index_of_key(before, key);
        cache_shard::lemma_index_of_key(after, key);
        if let Some(at) = cache_shard::index_of_key(before, asked) {
            if let Some(i) = cache_shard::index_of_key(before, key) {
                let place = if i < at {
                    i
                } else if i == at {
                    after.len() - 1
                } else {
                    i - 1
                };
                assert(after[place] == before[i]);
                cache_shard::lemma_index_is(after, key, place);
            } else {
                if let Some(i) = cache_shard::index_of_key(after, key) {
                    let source = if i == after.len() - 1 {
                        at
                    } else if i < at {
                        i
                    } else {
                        i + 1
                    };
                    assert(after[i] == before[source]);
                }
            }
        }
    }
}

/// A text that was just used stays when another comes, as long as both fit into what a full
/// shard is cut to.
pub proof fn used_text_survives(cache: Seq<Seq<EntryView>>, used: KeyView, new: EntryView)
    requires
        is_cache(cache),
        cached(cache, used) is Some,
        used != new.key,
        cache_shard::size_of_key(cache[shard_of(used)], used) + new.size()
            <= cache_shard::TARGET_SHARD_BYTES,
    ensures
        cached(after_insert(after_get(cache, used), new), used) == cached(cache, used),
{
    lemma_get_keeps_cache(cache, used);
    get_changes_no_text(cache, used, used);
    insert_never_mixes_texts(after_get(cache, used), new, used);
    if shard_of(new.key) == shard_of(used) {
        cache_shard::lemma_last_survives(cache[shard_of(used)], used, new);
    }
}

/// A file that was changed is not looked up under its old text: keys with another size or
/// another time of change are other keys.
pub proof fn changed_file_is_another_key(one: KeyView, other: KeyView)
    requires
        one.size != other.size || one.modified != other.modified,
    ensures
        one != other,
{
}

/// The cache holds no more texts than it may.
pub proof fn cache_is_bounded(cache: Seq<Seq<EntryView>>)
    requires
        is_cache(cache),
    ensures
        total_len(cache) <= MAX_CACHE_ENTRIES,
{
    lemma_bounded(cache, NUM_SHARDS as int);
    assert(cache.take(NUM_SHARDS as int) =~= cache);
}

proof fn lemma_bounded(cache: Seq<Seq<EntryView>>, k: int)
    requires
        is_cache(cache),
        0 <= k <= NUM_SHARDS,
    ensures
        total_len(cache.take(k)) <= k * cache_shard::MAX_SHARD_ENTRIES,
    decreases k,
{
    if k > 0 {
        lemma_bounded(cache, k - 1);
        assert(cache.take(k).drop_last() =~= cache.take(k - 1));
        assert(cache.take(k).last() == cache[k - 1]);
    }
}

/// The cache after one step.
pub open spec fn after_step(cache: Seq<Seq<EntryView>>, step: CacheStep) -> Seq<Seq<EntryView>> {
    match step {
        CacheStep::Get(key) => after_get(cache, key),
        CacheStep::Insert(new) => after_insert(cache, new),
        CacheStep::Clear => empty_cache(),
    }
}

/// A new cache after some steps.
pub open spec fn after_steps(steps: Seq<CacheStep>) -> Seq<Seq<EntryView>>
    decreases steps.len(),
{
    if steps.len() == 0 {
        empty_cache()
    } else {
        after_step(after_steps(steps.drop_last()), steps.last())
    }
}

/// All texts in the cache have short paths.
spec fn are_short(cache: Seq<Seq<EntryView>>) -> bool {
    forall|k: int| 0 <= k < cache.len() ==> cache_shard::are_short(#[trigger] cache[k])
}

/// Whatever is done with the cache, it holds no more texts than it may, and it uses memory
/// exactly where it holds a text. As long as all paths are short, it uses no more memory than
/// it may.
pub proof fn cache_keeps_its_budget(steps: Seq<CacheStep>)
    ensures
        is_cache(after_steps(steps)),
        total_len(after_steps(steps)) <= MAX_CACHE_ENTRIES,
        total_usage(after_steps(steps)) == 0 <==> total_len(after_steps(steps)) == 0,
        cache_shard::have_short_paths(steps) ==> total_usage(after_steps(steps))
            <= MAX_CACHE_TOTAL_BYTES,
{
    let cache = after_steps(steps);
    lemma_steps(steps);
    cache_is_bounded(cache);
    usage_tells_texts(cache);
    if cache_shard::have_short_paths(steps) {
        lemma_budget(cache, NUM_SHARDS as int);
        assert(cache.take(NUM_SHARDS as int) =~= cache);
    }
}

proof fn lemma_steps(steps: Seq<CacheStep>)
    ensures
        is_cache(after_steps(steps)),
        cache_shard::have_short_paths(steps) ==> are_short(after_steps(steps)),
    decreases steps.len(),
{
    if steps.len() == 0 {
        lemma_empty_is_cache();
    } else {
        let front = steps.drop_last();
        let cache = after_steps(front);
        let step = steps.last();
        lemma_steps(front);
        if cache_shard::have_short_paths(steps) {
            assert forall|i: int| 0 <= i < front.len() implies cache_shard::has_short_path(
                #[trigger] front[i],
            ) by {
                assert(front[i] == steps[i]);
            }
        }
        step_keeps_cache(cache, step);
        match step {
            CacheStep::Get(key) => {
                cache_shard::lemma_step(cache[shard_of(key)], step);
            },
            CacheStep::Insert(new) => {
                cache_shard::lemma_step(cache[shard_of(new.key)], step);
            },
            CacheStep::Clear => {},
        }
    }
}

/// Whatever is done with a cache leaves it as it should be.
pub proof fn step_keeps_cache(cache: Seq<Seq<EntryView>>, step: CacheStep)
    requires
        is_cache(cache),
    ensures
        is_cache(after_step(cache, step)),
{
    match step {
        CacheStep::Get(key) => {
            lemma_get_keeps_cache(cache, key);
        },
        CacheStep::Insert(new) => {
            lemma_insert_keeps_cache(cache, new);
        },
        CacheStep::Clear => {
            lemma_empty_is_cache();
        },
    }
}

proof fn lemma_budget(cache: Seq<Seq<EntryView>>, k: int)
    requires
        is_cache(cache),
        are_short(cache),
        0 <= k <= NUM_SHARDS,
    ensures
        total_usage(cache.take(k)) <= k * cache_shard::MAX_SHARD_BYTES,
    decreases k,
{
    if k > 0 {
        lemma_budget(cache, k - 1);
        assert(cache.take(k).drop_last() =~= cache.take(k - 1));
        assert(cache.take(k).last() == cache[k - 1]);
        cache_shard::lemma_short_entries(cache[k - 1]);
    }
}

/// Memory is used exactly where there is a text.
pub proof fn usage_tells_texts(cache: Seq<Seq<EntryView>>)
    ensures
        total_usage(cache) == 0 <==> total_len(cache) == 0,
    decreases cache.len(),
{
    if cache.len() > 0 {
        usage_tells_texts(cache.drop_last());
        cache_shard::lemma_no_bytes(cache.last());
    }
}

/// Clearing the cache leaves nothing in it.
pub proof fn cleared_cache_is_empty(key: KeyView)
    ensures
        is_cache(empty_cache()),
        cached(empty_cache(), key) is None,
        total_len(empty_cache()) == 0,
        total_usage(empty_cache()) == 0,
{
    lemma_shard_of(key);
    lemma_empty_is_cache();
    lemma_empty(NUM_SHARDS as int);
    assert(empty_cache().take(NUM_SHARDS as int) =~= empty_cache());
}

proof fn lemma_empty(k: int)
    requires
        0 <= k <= NUM_SHARDS,
    ensures
        total_len(empty_cache().take(k)) == 0,
        total_usage(empty_cache().take(k)) == 0,
    decreases k,
{
    if k > 0 {
        lemma_empty(k - 1);
        assert(empty_cache().take(k).drop_last() =~= empty_cache().take(k - 1));
        assert(cache_shard::total_bytes(empty_cache().take(k).last()) == 0);
    }
}

/// Every key belongs to one of sixteen shards, and a shard holds a sixteenth of what the cache
/// may hold: of 256 megabytes and ten thousand texts.
pub proof fn shards_share_the_cache(key: KeyView)
    ensures
        0 <= shard_of(key) < 16,
        NUM_SHARDS == 16,
        MAX_CACHE_TOTAL_BYTES == 256 * 1024 * 1024,
        MAX_CACHE_ENTRIES == 10_000,
        16 * cache_shard::MAX_SHARD_BYTES == MAX_CACHE_TOTAL_BYTES,
        16 * cache_shard::MAX_SHARD_ENTRIES == MAX_CACHE_ENTRIES,
{
}

/// Texts and bytes are counted shard by shard.
pub proof fn shards_are_counted_together(cache: Seq<Seq<EntryView>>, shard: Seq<EntryView>)
    ensures
        total_len(Seq::empty()) == 0,
        total_usage(Seq::empty()) == 0,
        total_len(cache.push(shard)) == total_len(cache) + shard.len(),
        total_usage(cache.push(shard)) == total_usage(cache) + cache_shard::total_bytes(shard),
{
    assert(cache.push(shard).drop_last() =~= cache);
}

/// A text that comes, or is asked for, changes its own shard only.
pub proof fn other_shards_stay(
    cache: Seq<Seq<EntryView>>,
    new: EntryView,
    key: KeyView,
    k: int,
)
    requires
        cache.len() == 16,
        0 <= k < 16,
    ensures
        k != shard_of(new.key) ==> after_insert(cache, new)[k] == cache[k],
        k != shard_of(key) ==> after_get(cache, key)[k] == cache[k],
        after_insert(cache, new).len() == 16,
        after_get(cache, key).len() == 16,
{
}

/// A key belongs to the shard that the hash of its path, its size and its time of change
/// names.
pub proof fn keys_are_spread_by_their_hash(key: KeyView)
    ensures
        shard_of(key) == DefaultHasher::spec_finish(fingerprint(key)) % 16,
        fingerprint(key).len() == key.path.len() + 2,
        fingerprint(key)[key.path.len() as int] == spec_u64_to_le_bytes(key.size),
{
}

} // verus!
