//! Lexicographic order, and sorting by it.

use vstd::prelude::*;

verus! {

/// A word: a list of numbers.
pub type Word = Vec<u64>;

/// The order of words: by the first number in which they differ, and a word before those
/// that it begins.
pub open spec fn word_lt(a: Seq<u64>, b: Seq<u64>) -> bool
    decreases a.len(),
{
    if b.len() == 0 {
        false
    } else if a.len() == 0 {
        true
    } else {
        a[0] < b[0] || (a[0] == b[0] && word_lt(a.drop_first(), b.drop_first()))
    }
}

/// The order of keys: by the first word in which they differ, and a key before those that
/// it begins.
pub open spec fn key_lt(a: Seq<Seq<u64>>, b: Seq<Seq<u64>>) -> bool
    decreases a.len(),
{
    if b.len() == 0 {
        false
    } else if a.len() == 0 {
        true
    } else {
        word_lt(a[0], b[0]) || (a[0] == b[0] && key_lt(a.drop_first(), b.drop_first()))
    }
}

/// The order of words is total and excludes equality.
pub proof fn lemma_word_total(a: Seq<u64>, b: Seq<u64>)
    ensures
        word_lt(a, b) || a == b || word_lt(b, a),
        !(word_lt(a, b) && word_lt(b, a)),
        word_lt(a, b) ==> a != b,
    decreases a.len(),
{
    if a.len() == 0 || b.len() == 0 {
        if a.len() == 0 && b.len() == 0 {
            assert(a =~= b);
        }
    } else {
        lemma_word_total(a.drop_first(), b.drop_first());
        if a[0] == b[0] && a.drop_first() == b.drop_first() {
            assert(a =~= seq![a[0]] + a.drop_first());
            assert(b =~= seq![b[0]] + b.drop_first());
        }
    }
}

/// The order of words is transitive.
pub proof fn lemma_word_transitive(a: Seq<u64>, b: Seq<u64>, c: Seq<u64>)
    requires
        word_lt(a, b),
        word_lt(b, c),
    ensures
        word_lt(a, c),
    decreases a.len(),
{
    if a.len() > 0 && a[0] == b[0] && b[0] == c[0] {
        lemma_word_transitive(a.drop_first(), b.drop_first(), c.drop_first());
    }
}

/// The order of keys is total and excludes equality.
pub proof fn lemma_key_total(a: Seq<Seq<u64>>, b: Seq<Seq<u64>>)
    ensures
        key_lt(a, b) || a == b || key_lt(b, a),
        !(key_lt(a, b) && key_lt(b, a)),
        key_lt(a, b) ==> a != b,
    decreases a.len(),
{
    if a.len() == 0 || b.len() == 0 {
        if a.len() == 0 && b.len() == 0 {
            assert(a =~= b);
        }
    } else {
        lemma_word_total(a[0], b[0]);
        lemma_key_total(a.drop_first(), b.drop_first());
        if a[0] == b[0] && a.drop_first() == b.drop_first() {
            assert(a =~= seq![a[0]] + a.drop_first());
            assert(b =~= seq![b[0]] + b.drop_first());
        }
    }
}

/// The order of keys is transitive.
pub proof fn lemma_key_transitive(a: Seq<Seq<u64>>, b: Seq<Seq<u64>>, c: Seq<Seq<u64>>)
    requires
        key_lt(a, b),
        key_lt(b, c),
    ensures
        key_lt(a, c),
    decreases a.len(),
{
    if a.len() > 0 {
        if word_lt(a[0], b[0]) && word_lt(b[0], c[0]) {
            lemma_word_transitive(a[0], b[0], c[0]);
        }
        if a[0] == b[0] && b[0] == c[0] {
            lemma_word_total(a[0], b[0]);
            lemma_key_transitive(a.drop_first(), b.drop_first(), c.drop_first());
        }
    }
}

/// How one value stands to another in an order.
#[derive(Clone, Copy, Debug, PartialEq, Eq, Structural)]
pub enum Rank {
    Before,
    Same,
    After,
}

/// Compares two words.
fn rank_words(a: &Word, b: &Word) -> (r: Rank)
    ensures
        r == if word_lt(a@, b@) {
            Rank::Before
        } else if a@ == b@ {
            Rank::Same
        } else {
            Rank::After
        },
{
    let mut i: usize = 0;
    assert(a@.skip(0) =~= a@);
    assert(b@.skip(0) =~= b@);
    proof {
        lemma_word_total(a@, b@);
    }
    while i < a.len() && i < b.len()
        invariant
            i <= a@.len(),
            i <= b@.len(),
            a@.take(i as int) == b@.take(i as int),
            word_lt(a@, b@) == word_lt(a@.skip(i as int), b@.skip(i as int)),
        decreases a@.len() - i,
    {
        assert(a@.skip(i as int).drop_first() =~= a@.skip(i + 1));
        assert(b@.skip(i as int).drop_first() =~= b@.skip(i + 1));
        assert(a@.skip(i as int)[0] == a@[i as int]);
        assert(b@.skip(i as int)[0] == b@[i as int]);
        if a[i] < b[i] {
            return Rank::Before;
        }
        if a[i] > b[i] {
            return Rank::After;
        }
        assert(a@.take(i + 1) =~= a@.take(i as int).push(a@[i as int]));
        assert(b@.take(i + 1) =~= b@.take(i as int).push(b@[i as int]));
        i = i + 1;
    }
    if i == a.len() && i == b.len() {
        assert(a@.take(i as int) =~= a@);
        assert(b@.take(i as int) =~= b@);
        assert(!word_lt(a@, b@));
        Rank::Same
    } else if i == a.len() {
        Rank::Before
    } else {
        Rank::After
    }
}

/// The words of a key.
pub open spec fn key_view(key: Seq<Word>) -> Seq<Seq<u64>> {
    key.map_values(|w: Word| w@)
}

/// Compares two keys.
pub fn rank_keys(a: &Vec<Word>, b: &Vec<Word>) -> (r: Rank)
    ensures
        r == if key_lt(key_view(a@), key_view(b@)) {
            Rank::Before
        } else if key_view(a@) == key_view(b@) {
            Rank::Same
        } else {
            Rank::After
        },
{
    let ghost av = key_view(a@);
    let ghost bv = key_view(b@);
    let mut i: usize = 0;
    assert(av.skip(0) =~= av);
    assert(bv.skip(0) =~= bv);
    proof {
        lemma_key_total(av, bv);
    }
    while i < a.len() && i < b.len()
        invariant
            av == key_view(a@),
            bv == key_view(b@),
            i <= a@.len(),
            i <= b@.len(),
            av.take(i as int) == bv.take(i as int),
            key_lt(av, bv) == key_lt(av.skip(i as int), bv.skip(i as int)),
        decreases a@.len() - i,
    {
        assert(av.skip(i as int).drop_first() =~= av.skip(i + 1));
        assert(bv.skip(i as int).drop_first() =~= bv.skip(i + 1));
        assert(av.skip(i as int)[0] == a@[i as int]@);
        assert(bv.skip(i as int)[0] == b@[i as int]@);
        proof {
            lemma_word_total(av[i as int], bv[i as int]);
        }
        match rank_words(&a[i], &b[i]) {
            Rank::Before => {
                return Rank::Before;
            },
            Rank::After => {
                assert(av[i as int] != bv[i as int]);
                return Rank::After;
            },
            Rank::Same => {
                assert(av.take(i + 1) =~= av.take(i as int).push(av[i as int]));
                assert(bv.take(i + 1) =~= bv.take(i as int).push(bv[i as int]));
            },
        }
        i = i + 1;
    }
    if i == a.len() && i == b.len() {
        assert(av.take(i as int) =~= av);
        assert(bv.take(i as int) =~= bv);
        assert(!key_lt(av, bv));
        Rank::Same
    } else if i == a.len() {
        assert(key_lt(av, bv));
        Rank::Before
    } else {
        assert(av.len() != bv.len());
        Rank::After
    }
}

/// The keys of a list of items.
pub open spec fn keys_view(keys: Seq<Vec<Word>>) -> Seq<Seq<Seq<u64>>> {
    keys.map_values(|k: Vec<Word>| key_view(k@))
}

/// Item `i` comes before item `j`: by its key, and among equal keys by where it stood.
pub open spec fn comes_before(keys: Seq<Seq<Seq<u64>>>, i: int, j: int) -> bool {
    key_lt(keys[i], keys[j]) || (keys[i] == keys[j] && i < j)
}

/// The order of items is transitive.
proof fn lemma_before_transitive(keys: Seq<Seq<Seq<u64>>>, i: int, j: int, k: int)
    requires
        comes_before(keys, i, j),
        comes_before(keys, j, k),
    ensures
        comes_before(keys, i, k),
{
    if key_lt(keys[i], keys[j]) && key_lt(keys[j], keys[k]) {
        lemma_key_transitive(keys[i], keys[j], keys[k]);
    }
}

/// The items `from..to` in order.
pub open spec fn is_order_of(
    keys: Seq<Seq<Seq<u64>>>,
    from: int,
    to: int,
    order: Seq<usize>,
) -> bool {
    &&& order.len() == to - from
    &&& forall|k: int| 0 <= k < order.len() ==> from <= #[trigger] order[k] < to
    &&& forall|a: int, b: int|
        0 <= a < b < order.len() ==> comes_before(
            keys,
            #[trigger] order[a] as int,
            #[trigger] order[b] as int,
        )
}

/// The order in which a stable sort by key puts the items.
pub open spec fn is_stable_order(keys: Seq<Seq<Seq<u64>>>, order: Seq<usize>) -> bool {
    is_order_of(keys, 0, keys.len() as int, order)
}

fn merge(
    keys: &Vec<Vec<Word>>,
    left: &Vec<usize>,
    right: &Vec<usize>,
    Ghost(from): Ghost<int>,
    Ghost(mid): Ghost<int>,
    Ghost(to): Ghost<int>,
) -> (r: Vec<usize>)
    requires
        0 <= from <= mid <= to <= keys@.len(),
        is_order_of(keys_view(keys@), from, mid, left@),
        is_order_of(keys_view(keys@), mid, to, right@),
    ensures
        is_order_of(keys_view(keys@), from, to, r@),
{
    let ghost kv = keys_view(keys@);
    let mut r: Vec<usize> = Vec::new();
    let mut i: usize = 0;
    let mut j: usize = 0;
    while i < left.len() || j < right.len()
        invariant
            kv == keys_view(keys@),
            0 <= from <= mid <= to <= keys@.len(),
            is_order_of(kv, from, mid, left@),
            is_order_of(kv, mid, to, right@),
            i <= left@.len(),
            j <= right@.len(),
            r@.len() == i + j,
            forall|k: int| 0 <= k < r@.len() ==> from <= #[trigger] r@[k] < to,
            forall|a: int, b: int|
                0 <= a < b < r@.len() ==> comes_before(
                    kv,
                    #[trigger] r@[a] as int,
                    #[trigger] r@[b] as int,
                ),
            forall|a: int, b: int|
                0 <= a < r@.len() && i <= b < left@.len() ==> comes_before(
                    kv,
                    #[trigger] r@[a] as int,
                    #[trigger] left@[b] as int,
                ),
            forall|a: int, b: int|
                0 <= a < r@.len() && j <= b < right@.len() ==> comes_before(
                    kv,
                    #[trigger] r@[a] as int,
                    #[trigger] right@[b] as int,
                ),
        decreases left@.len() - i + right@.len() - j,
    {
        let ghost before = r@;
        let take_left = if i == left.len() {
            false
        } else if j == right.len() {
            true
        } else {
            let rank = rank_keys(&keys[left[i]], &keys[right[j]]);
            proof {
                lemma_key_total(kv[left@[i as int] as int], kv[right@[j as int] as int]);
            }
            match rank {
                Rank::After => false,
                _ => true,
            }
        };
        if take_left {
            r.push(left[i]);
            assert forall|b: int| j <= b < right@.len() implies comes_before(
                kv,
                left@[i as int] as int,
                #[trigger] right@[b] as int,
            ) by {
                assert(comes_before(kv, left@[i as int] as int, right@[j as int] as int));
                if b > j {
                    lemma_before_transitive(
                        kv,
                        left@[i as int] as int,
                        right@[j as int] as int,
                        right@[b] as int,
                    );
                }
            }
            i = i + 1;
        } else {
            r.push(right[j]);
            assert forall|b: int| i <= b < left@.len() implies comes_before(
                kv,
                right@[j as int] as int,
                #[trigger] left@[b] as int,
            ) by {
                assert(comes_before(kv, right@[j as int] as int, left@[i as int] as int));
                if b > i {
                    lemma_before_transitive(
                        kv,
                        right@[j as int] as int,
                        left@[i as int] as int,
                        left@[b] as int,
                    );
                }
            }
            j = j + 1;
        }
    }
    r
}

fn order_range(keys: &Vec<Vec<Word>>, from: usize, to: usize) -> (r: Vec<usize>)
    requires
        from <= to <= keys@.len(),
    ensures
        is_order_of(keys_view(keys@), from as int, to as int, r@),
    decreases to - from,
{
    if to - from <= 1 {
        let mut r: Vec<usize> = Vec::new();
        if to > from {
            r.push(from);
        }
        return r;
    }
    let mid: usize = from + (to - from) / 2;
    let left = order_range(keys, from, mid);
    let right = order_range(keys, mid, to);
    merge(keys, &left, &right, Ghost(from as int), Ghost(mid as int), Ghost(to as int))
}

/// The order in which a stable sort by key puts the items.
pub fn stable_order(keys: &Vec<Vec<Word>>) -> (r: Vec<usize>)
    ensures
        is_stable_order(keys_view(keys@), r@),
{
    order_range(keys, 0, keys.len())
}

/// A stable order holds no item twice.
pub proof fn stable_order_is_injective(keys: Seq<Seq<Seq<u64>>>, order: Seq<usize>)
    requires
        is_stable_order(keys, order),
    ensures
        order.no_duplicates(),
{
    assert forall|a: int, b: int| 0 <= a < b < order.len() implies order[a] != order[b] by {
        assert(comes_before(keys, order[a] as int, order[b] as int));
        lemma_key_total(keys[order[a] as int], keys[order[b] as int]);
    }
}

/// A stable order holds every item.
pub proof fn stable_order_is_complete(keys: Seq<Seq<Seq<u64>>>, order: Seq<usize>, i: int)
    requires
        is_stable_order(keys, order),
        0 <= i < keys.len(),
        keys.len() <= usize::MAX,
    ensures
        order.contains(i as usize),
{
    stable_order_is_injective(keys, order);
    order.unique_seq_to_set();
    let all = Set::new(|k: usize| k < keys.len());
    assert forall|k: usize| order.to_set().contains(k) implies all.contains(k) by {}
    lemma_below_len(keys.len());
    vstd::set_lib::lemma_subset_equality(order.to_set(), all);
    assert(all.contains(i as usize));
}

/// There are `n` numbers below `n`.
proof fn lemma_below_len(n: nat)
    requires
        n <= usize::MAX,
    ensures
        Set::new(|k: usize| k < n).finite(),
        Set::new(|k: usize| k < n).len() == n,
    decreases n,
{
    if n == 0 {
        assert(Set::new(|k: usize| k < n) =~= Set::empty());
    } else {
        let m = (n - 1) as nat;
        lemma_below_len(m);
        assert(Set::new(|k: usize| k < n) =~= Set::new(|k: usize| k < m).insert(m as usize));
    }
}

/// There is one stable order only.
pub proof fn stable_order_is_unique(
    keys: Seq<Seq<Seq<u64>>>,
    one: Seq<usize>,
    other: Seq<usize>,
)
    requires
        is_stable_order(keys, one),
        is_stable_order(keys, other),
        keys.len() <= usize::MAX,
    ensures
        one == other,
{
    assert forall|k: int| 0 <= k < one.len() implies one[k] == other[k] by {
        lemma_same_place(keys, one, other, k);
    }
    assert(one =~= other);
}

proof fn lemma_same_place(
    keys: Seq<Seq<Seq<u64>>>,
    one: Seq<usize>,
    other: Seq<usize>,
    k: int,
)
    requires
        is_stable_order(keys, one),
        is_stable_order(keys, other),
        keys.len() <= usize::MAX,
        0 <= k < one.len(),
    ensures
        one[k] == other[k],
    decreases k,
{
    assert forall|j: int| 0 <= j < k implies one[j] == other[j] by {
        lemma_same_place(keys, one, other, j);
    }
    if one[k] != other[k] {
        stable_order_is_complete(keys, other, one[k] as int);
        stable_order_is_complete(keys, one, other[k] as int);
        let p = choose|p: int| 0 <= p < other.len() && other[p] == one[k];
        let q = choose|q: int| 0 <= q < one.len() && one[q] == other[k];
        stable_order_is_injective(keys, one);
        stable_order_is_injective(keys, other);
        assert(p > k) by {
            if p < k {
                assert(one[p] == other[p]);
            }
        }
        assert(q > k) by {
            if q < k {
                assert(one[q] == other[q]);
            }
        }
        assert(comes_before(keys, other[k] as int, other[p] as int));
        assert(comes_before(keys, one[k] as int, one[q] as int));
        lemma_key_total(keys[one[k] as int], keys[other[k] as int]);
    }
}

/// Items in the order of their keys, no two of which are the same.
pub open spec fn is_strictly_sorted<T>(items: Seq<T>, key: spec_fn(T) -> Seq<Seq<u64>>) -> bool {
    forall|i: int, j: int|
        0 <= i < j < items.len() ==> key_lt(key(#[trigger] items[i]), key(#[trigger] items[j]))
}

/// Lists that hold the same items, in the order of distinct keys, are the same.
pub proof fn sorted_items_are_unique<T>(
    one: Seq<T>,
    other: Seq<T>,
    key: spec_fn(T) -> Seq<Seq<u64>>,
)
    requires
        is_strictly_sorted(one, key),
        is_strictly_sorted(other, key),
        forall|x: T| #[trigger] one.contains(x) <==> other.contains(x),
    ensures
        one == other,
{
    lemma_no_longer(one, other, key);
    lemma_no_longer(other, one, key);
    assert forall|k: int| 0 <= k < one.len() implies one[k] == other[k] by {
        lemma_same_item(one, other, key, k);
    }
    assert(one =~= other);
}

proof fn lemma_same_item<T>(
    one: Seq<T>,
    other: Seq<T>,
    key: spec_fn(T) -> Seq<Seq<u64>>,
    k: int,
)
    requires
        is_strictly_sorted(one, key),
        is_strictly_sorted(other, key),
        forall|x: T| #[trigger] one.contains(x) <==> other.contains(x),
        0 <= k < one.len(),
        k < other.len(),
    ensures
        one[k] == other[k],
    decreases k,
{
    assert forall|j: int| 0 <= j < k implies one[j] == other[j] by {
        lemma_same_item(one, other, key, j);
    }
    if one[k] != other[k] {
        assert(one.contains(one[k]));
        assert(other.contains(other[k]));
        assert(one.contains(other[k]));
        let p = choose|p: int| 0 <= p < other.len() && other[p] == one[k];
        let q = choose|q: int| 0 <= q < one.len() && one[q] == other[k];
        lemma_key_total(key(one[k]), key(other[k]));
        lemma_key_total(key(one[k]), key(one[k]));
        lemma_key_total(key(other[k]), key(other[k]));
        assert(p > k) by {
            if p < k {
                assert(key_lt(key(one[p]), key(one[k])));
            }
        }
        assert(q > k) by {
            if q < k {
                assert(key_lt(key(other[q]), key(other[k])));
            }
        }
        assert(key_lt(key(other[k]), key(other[p])));
        assert(key_lt(key(one[k]), key(one[q])));
    }
}

proof fn lemma_no_longer<T>(one: Seq<T>, other: Seq<T>, key: spec_fn(T) -> Seq<Seq<u64>>)
    requires
        is_strictly_sorted(one, key),
        is_strictly_sorted(other, key),
        forall|x: T| #[trigger] one.contains(x) <==> other.contains(x),
    ensures
        one.len() <= other.len(),
{
    if one.len() > other.len() {
        let x = one[other.len() as int];
        assert(one.contains(x));
        let p = choose|p: int| 0 <= p < other.len() && other[p] == x;
        lemma_same_item(one, other, key, p);
        assert(key_lt(key(one[p]), key(one[other.len() as int])));
        lemma_key_total(key(x), key(x));
    }
}

/// Words that agree up to index `k`, where the first ends or holds the smaller number.
pub open spec fn parts_at(a: Seq<u64>, b: Seq<u64>, k: int) -> bool {
    &&& 0 <= k <= a.len()
    &&& k < b.len()
    &&& forall|m: int| 0 <= m < k ==> #[trigger] a[m] == b[m]
    &&& k == a.len() || a[k] < b[k]
}

/// Words stand in lexicographic order: one is before another exactly where there is a first
/// index at which they part, and there it ends or has the smaller number.
pub proof fn word_order_is_lexicographic(a: Seq<u64>, b: Seq<u64>)
    ensures
        word_lt(a, b) <==> exists|k: int| parts_at(a, b, k),
    decreases a.len(),
{
    if b.len() > 0 && a.len() == 0 {
        assert(parts_at(a, b, 0));
    }
    if b.len() > 0 && a.len() > 0 {
        let x = a.drop_first();
        let y = b.drop_first();
        word_order_is_lexicographic(x, y);
        if a[0] < b[0] {
            assert(parts_at(a, b, 0));
        }
        if a[0] == b[0] && word_lt(x, y) {
            let k = choose|k: int| parts_at(x, y, k);
            assert forall|m: int| 0 <= m < k + 1 implies #[trigger] a[m] == b[m] by {
                if m > 0 {
                    assert(x[m - 1] == y[m - 1]);
                }
            }
            assert(parts_at(a, b, k + 1));
        }
        if exists|k: int| parts_at(a, b, k) {
            let k = choose|k: int| parts_at(a, b, k);
            if k > 0 {
                assert(a[0] == b[0]);
                assert forall|m: int| 0 <= m < k - 1 implies #[trigger] x[m] == y[m] by {
                    assert(a[m + 1] == b[m + 1]);
                }
                assert(parts_at(x, y, k - 1));
            }
        }
    }
}

/// Keys that agree up to index `k`, where the first ends or holds the smaller word.
pub open spec fn keys_part_at(a: Seq<Seq<u64>>, b: Seq<Seq<u64>>, k: int) -> bool {
    &&& 0 <= k <= a.len()
    &&& k < b.len()
    &&& forall|m: int| 0 <= m < k ==> #[trigger] a[m] == b[m]
    &&& k == a.len() || word_lt(a[k], b[k])
}

/// Keys stand in lexicographic order of their words.
pub proof fn key_order_is_lexicographic(a: Seq<Seq<u64>>, b: Seq<Seq<u64>>)
    ensures
        key_lt(a, b) <==> exists|k: int| keys_part_at(a, b, k),
    decreases a.len(),
{
    if b.len() > 0 && a.len() == 0 {
        assert(keys_part_at(a, b, 0));
    }
    if b.len() > 0 && a.len() > 0 {
        let x = a.drop_first();
        let y = b.drop_first();
        key_order_is_lexicographic(x, y);
        if word_lt(a[0], b[0]) {
            assert(keys_part_at(a, b, 0));
        }
        if a[0] == b[0] && key_lt(x, y) {
            let k = choose|k: int| keys_part_at(x, y, k);
            assert forall|m: int| 0 <= m < k + 1 implies #[trigger] a[m] == b[m] by {
                if m > 0 {
                    assert(x[m - 1] == y[m - 1]);
                }
            }
            assert(keys_part_at(a, b, k + 1));
        }
        if exists|k: int| keys_part_at(a, b, k) {
            let k = choose|k: int| keys_part_at(a, b, k);
            if k > 0 {
                assert(a[0] == b[0]);
                assert forall|m: int| 0 <= m < k - 1 implies #[trigger] x[m] == y[m] by {
                    assert(a[m + 1] == b[m + 1]);
                }
                assert(keys_part_at(x, y, k - 1));
            }
        }
    }
}

} // verus!
