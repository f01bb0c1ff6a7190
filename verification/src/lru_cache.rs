//! A size-bounded cache that evicts its least recently used entries.
//!
//! Each entry has a key, a value and a size; the cache has a capacity
//! (`max_size`), and the sizes of the entries it holds never add up to more
//! than that.  `put` and `get` make an entry the most recently used one; when
//! a new entry does not fit, the least recently used entries are evicted until
//! it does.
use vstd::prelude::*;

verus! {

/// Keys of the cache: values that can be compared for equality by their view.
pub trait CacheKey: View + Sized {
    fn key_eq(&self, other: &Self) -> (same: bool)
        ensures
            same == (self@ == other@),
    ;
}

impl CacheKey for u64 {
    fn key_eq(&self, other: &Self) -> (same: bool) {
        *self == *other
    }
}

impl CacheKey for Vec<u8> {
    fn key_eq(&self, other: &Self) -> (same: bool) {
        if self.len() != other.len() {
            return false;
        }
        let mut i: usize = 0;
        while i < self.len()
            invariant
                i <= self.len(),
                self.len() == other.len(),
                forall|j: int| 0 <= j < i ==> self@[j] == other@[j],
            decreases self.len() - i,
        {
            if self[i] != other[i] {
                return false;
            }
            i = i + 1;
        }
        assert(self@ =~= other@);
        true
    }
}

/// One entry of the cache.  An entry in a cache always has a key and a value;
/// `LRUEntry::new` makes the empty entry.
pub struct LRUEntry<K, V> {
    pub key: Option<K>,
    pub value: Option<V>,
    pub size: usize,
}

impl<K, V> LRUEntry<K, V> {
    /// The empty entry: no key, no value, size 0.
    pub fn new() -> (e: LRUEntry<K, V>)
        ensures
            e.key is None,
            e.value is None,
            e.size == 0,
    {
        LRUEntry { key: None, value: None, size: 0 }
    }

    /// An entry holding `key`, `value` and `size`.
    pub fn with_key_value(key: K, value: V, size: usize) -> (e: LRUEntry<K, V>)
        ensures
            e.key == Some(key),
            e.value == Some(value),
            e.size == size,
    {
        LRUEntry { key: Some(key), value: Some(value), size }
    }
}

// ---------------------------------------------------------------------------
// The model: a cache is a sequence of items (key, value, size), the most
// recently used first.
// ---------------------------------------------------------------------------

/// The sum of the sizes of `items`.
pub open spec fn total_size<A, B>(items: Seq<(A, B, nat)>) -> nat
    decreases items.len(),
{
    if items.len() == 0 {
        0
    } else {
        total_size(items.drop_last()) + items.last().2
    }
}

/// Some item of `items` has key `k`.
pub open spec fn contains_key<A, B>(items: Seq<(A, B, nat)>, k: A) -> bool {
    exists|i: int| 0 <= i < items.len() && #[trigger] items[i].0 == k
}

/// No two items of `items` have the same key.
pub open spec fn distinct_keys<A, B>(items: Seq<(A, B, nat)>) -> bool {
    forall|i: int, j: int|
        0 <= i < items.len() && 0 <= j < items.len() && i != j ==> #[trigger] items[i].0
            != #[trigger] items[j].0
}

/// The position of the item with key `k` (meaningful when there is one).
pub open spec fn index_of_key<A, B>(items: Seq<(A, B, nat)>, k: A) -> int {
    choose|i: int| 0 <= i < items.len() && #[trigger] items[i].0 == k
}

/// The value stored under `k`, if any.
pub open spec fn lookup<A, B>(items: Seq<(A, B, nat)>, k: A) -> Option<B> {
    if contains_key(items, k) {
        Some(items[index_of_key(items, k)].1)
    } else {
        None
    }
}

/// `items` after a use of key `k`: its item, if any, moves to the front.
pub open spec fn touch<A, B>(items: Seq<(A, B, nat)>, k: A) -> Seq<(A, B, nat)> {
    if contains_key(items, k) {
        let i = index_of_key(items, k);
        seq![items[i]] + items.remove(i)
    } else {
        items
    }
}

/// How many of the least recently used items must go, from the back of
/// `items`, before `size` fits beside `free` unused capacity.
pub open spec fn evicted_count<A, B>(items: Seq<(A, B, nat)>, free: nat, size: nat) -> nat
    decreases items.len(),
{
    if free >= size || items.len() == 0 {
        0
    } else {
        1 + evicted_count(items.drop_last(), free + items.last().2, size)
    }
}

/// `items` after storing `v` under `k` with the given `size`, when `free`
/// capacity is unused.  An existing item keeps its size, takes the new value
/// and moves to the front; a new item goes to the front after the least
/// recently used items that must make room for it are evicted.
pub open spec fn put_items<A, B>(
    items: Seq<(A, B, nat)>,
    free: nat,
    k: A,
    v: B,
    size: nat,
) -> Seq<(A, B, nat)> {
    if contains_key(items, k) {
        let i = index_of_key(items, k);
        seq![(k, v, items[i].2)] + items.remove(i)
    } else {
        seq![(k, v, size)] + items.take(items.len() - evicted_count(items, free, size))
    }
}

/// The item an entry of the cache stands for.
pub open spec fn item_of<K: View, V>(e: LRUEntry<K, V>) -> (K::V, V, nat) {
    (e.key->0@, e.value->0, e.size as nat)
}

/// The cache: entries from the most recently used to the least recently used.
pub struct LRUCache<K, V> {
    entries: Vec<LRUEntry<K, V>>,
    free_size: usize,
    max_size: usize,
}

impl<K: CacheKey, V> View for LRUCache<K, V> {
    type V = Seq<(K::V, V, nat)>;

    closed spec fn view(&self) -> Seq<(K::V, V, nat)> {
        self.entries@.map_values(|e: LRUEntry<K, V>| item_of(e))
    }
}

impl<K: CacheKey, V> LRUCache<K, V> {
    /// The capacity the cache was made with.
    pub closed spec fn capacity(&self) -> nat {
        self.max_size as nat
    }

    /// The capacity not taken by entries.
    pub closed spec fn free(&self) -> nat {
        self.free_size as nat
    }

    /// Every entry has a key and a value, the keys are distinct, and the
    /// sizes of the entries and the free capacity add up to the capacity.
    pub closed spec fn wf(&self) -> bool {
        &&& forall|i: int|
            0 <= i < self.entries@.len() ==> (#[trigger] self.entries@[i]).key is Some
                && self.entries@[i].value is Some
        &&& distinct_keys(self@)
        &&& self.free_size + total_size(self@) == self.max_size
    }

    /// A well-formed cache holds each key once, and the sizes of its
    /// entries and its free capacity add up to its capacity.
    pub proof fn lemma_wf_facts(&self)
        requires
            self.wf(),
        ensures
            distinct_keys(self@),
            self.free() + total_size(self@) == self.capacity(),
    {
    }

    /// An empty cache of capacity `max_size`.
    pub fn new(max_size: usize) -> (c: Self)
        ensures
            c.wf(),
            distinct_keys(c@),
            c@ == Seq::<(K::V, V, nat)>::empty(),
            c.capacity() == max_size,
            c.free() == max_size,
    {
        let c = LRUCache { entries: Vec::new(), free_size: max_size, max_size };
        assert(c@ =~= Seq::<(K::V, V, nat)>::empty());
        c
    }

    /// The number of entries.
    pub fn len(&self) -> (n: usize)
        ensures
            n == self@.len(),
    {
        self.entries.len()
    }

    /// The position of the entry with key `key`, if there is one.
    fn find(&self, key: &K) -> (r: Option<usize>)
        requires
            self.wf(),
        ensures
            match r {
                Some(i) => i < self@.len() && self@[i as int].0 == key@ && i == index_of_key(
                    self@,
                    key@,
                ),
                None => !contains_key(self@, key@),
            },
    {
        let mut i: usize = 0;
        while i < self.entries.len()
            invariant
                self.wf(),
                i <= self.entries.len(),
                forall|j: int| 0 <= j < i ==> self@[j].0 != key@,
            decreases self.entries.len() - i,
        {
            match &self.entries[i].key {
                Some(k) => {
                    if k.key_eq(key) {
                        proof {
                            assert(self@[i as int].0 == key@);
                            let c = index_of_key(self@, key@);
                            assert(contains_key(self@, key@));
                            if c != i as int {
                                assert(self@[c].0 != self@[i as int].0);
                            }
                        }
                        return Some(i);
                    }
                },
                None => {
                    assert(false);
                },
            }
            i = i + 1;
        }
        None
    }

    /// The position of the least recently used entry.
    fn get_lru(&self) -> (i: usize)
        requires
            self@.len() > 0,
        ensures
            i == self@.len() - 1,
    {
        self.entries.len() - 1
    }

    /// Takes the entry at position `i` out of the order.
    fn detach(&mut self, i: usize) -> (e: LRUEntry<K, V>)
        requires
            i < old(self)@.len(),
        ensures
            e == old(self).entries@[i as int],
            final(self).entries@ == old(self).entries@.remove(i as int),
            final(self)@ == old(self)@.remove(i as int),
            final(self).free_size == old(self).free_size,
            final(self).max_size == old(self).max_size,
    {
        let e = self.entries.remove(i);
        assert(self@ =~= old(self)@.remove(i as int));
        e
    }

    /// Puts `e` at the front, as the most recently used entry.
    fn attach(&mut self, e: LRUEntry<K, V>)
        ensures
            final(self).entries@ == seq![e] + old(self).entries@,
            final(self)@ == seq![item_of(e)] + old(self)@,
            final(self).free_size == old(self).free_size,
            final(self).max_size == old(self).max_size,
    {
        self.entries.insert(0, e);
        assert(self.entries@ =~= seq![e] + old(self).entries@);
        assert(self@ =~= seq![item_of(e)] + old(self)@);
    }
}


impl<K: CacheKey, V> LRUCache<K, V> {
    /// Stores `value` under `key`.  If `key` is present, its entry takes the
    /// new value (keeping its size) and becomes the most recently used one.
    /// Otherwise the least recently used entries are evicted until `size`
    /// fits, and a new entry of that size becomes the most recently used one.
    pub fn put(&mut self, key: K, value: V, size: usize)
        requires
            old(self).wf(),
            contains_key(old(self)@, key@) || size <= old(self).capacity(),
        ensures
            final(self).wf(),
            distinct_keys(final(self)@),
            final(self).capacity() == old(self).capacity(),
            final(self)@ == put_items(old(self)@, old(self).free(), key@, value, size as nat),
            final(self).free() + total_size(final(self)@) == final(self).capacity(),
    {
        match self.find(&key) {
            Some(i) => {
                let ghost items0 = self@;
                let mut e = self.detach(i);
                e.value = Some(value);
                self.attach(e);
                proof {
                    lemma_total_size_remove(items0, i as int);
                    lemma_total_size_push_front(item_of(e), items0.remove(i as int));
                    lemma_distinct_keys_move_front(items0, i as int, item_of(e));
                    assert forall|j: int| 0 <= j < self.entries@.len() implies (
                    #[trigger] self.entries@[j]).key is Some && self.entries@[j].value is Some by {
                        if j > 0 {
                            let k = if j - 1 < i { j - 1 } else { j };
                            assert(self.entries@[j] == old(self).entries@[k]);
                        }
                    }
                }
            },
            None => {
                let ghost items0 = self@;
                let ghost n = evicted_count(items0, self.free_size as nat, size as nat);
                let ghost mut j: int = 0;
                while self.free_size < size
                    invariant
                        self.wf(),
                        self.max_size == old(self).max_size,
                        size <= self.max_size,
                        0 <= j <= items0.len(),
                        self@ == items0.take(items0.len() - j),
                        j + evicted_count(self@, self.free_size as nat, size as nat) == n,
                    decreases self@.len(),
                {
                    proof {
                        if self@.len() == 0 {
                            assert(total_size(self@) == 0);
                        }
                    }
                    let lru = self.get_lru();
                    let ghost before = self@;
                    let ghost entries_before = self.entries@;
                    let e = self.detach(lru);
                    proof {
                        assert(before.remove(lru as int) =~= before.drop_last());
                        assert(self@ == before.drop_last());
                        assert(item_of(e) == before.last());
                        assert(items0.take(items0.len() - j).drop_last() =~= items0.take(
                            items0.len() - (j + 1),
                        ));
                        assert forall|a: int| 0 <= a < self.entries@.len() implies (
                        #[trigger] self.entries@[a]).key is Some && self.entries@[a].value is Some by {
                            assert(self.entries@[a] == entries_before[a]);
                        }
                        assert forall|a: int, b: int|
                            0 <= a < self@.len() && 0 <= b < self@.len() && a != b implies #[trigger] self@[a].0
                            != #[trigger] self@[b].0 by {
                            assert(self@[a] == before[a]);
                            assert(self@[b] == before[b]);
                        }
                        j = j + 1;
                    }
                    self.free_size = self.free_size + e.size;
                }
                proof {
                    assert(j == n);
                    assert forall|a: int| 0 <= a < self@.len() implies #[trigger] self@[a].0 != key@ by {
                        assert(self@[a] == items0[a]);
                    }
                }
                let e = LRUEntry::with_key_value(key, value, size);
                let ghost mid = self@;
                let ghost mid_entries = self.entries@;
                self.attach(e);
                self.free_size = self.free_size - size;
                proof {
                    lemma_total_size_push_front(item_of(e), mid);
                    assert forall|a: int| 0 <= a < self.entries@.len() implies (
                    #[trigger] self.entries@[a]).key is Some && self.entries@[a].value is Some by {
                        if a > 0 {
                            assert(self.entries@[a] == mid_entries[a - 1]);
                        }
                    }
                    assert forall|a: int, b: int|
                        0 <= a < self@.len() && 0 <= b < self@.len() && a != b implies #[trigger] self@[a].0
                        != #[trigger] self@[b].0 by {
                        if a > 0 {
                            assert(self@[a] == mid[a - 1]);
                        }
                        if b > 0 {
                            assert(self@[b] == mid[b - 1]);
                        }
                    }
                }
            },
        }
    }

    /// The value stored under `key`, if any; its entry becomes the most
    /// recently used one.
    pub fn get(&mut self, key: &K) -> (r: Option<&V>)
        requires
            old(self).wf(),
        ensures
            final(self).wf(),
            distinct_keys(final(self)@),
            final(self).capacity() == old(self).capacity(),
            final(self).free() == old(self).free(),
            final(self)@ == touch(old(self)@, key@),
            r is Some <==> contains_key(old(self)@, key@),
            r matches Some(v) ==> lookup(old(self)@, key@) == Some(*v),
    {
        match self.find(key) {
            None => None,
            Some(i) => {
                let ghost items0 = self@;
                let e = self.detach(i);
                self.attach(e);
                proof {
                    lemma_total_size_remove(items0, i as int);
                    lemma_total_size_push_front(item_of(e), items0.remove(i as int));
                    lemma_distinct_keys_move_front(items0, i as int, item_of(e));
                    assert forall|j: int| 0 <= j < self.entries@.len() implies (
                    #[trigger] self.entries@[j]).key is Some && self.entries@[j].value is Some by {
                        if j > 0 {
                            let k = if j - 1 < i { j - 1 } else { j };
                            assert(self.entries@[j] == old(self).entries@[k]);
                        }
                    }
                    assert(self.entries@[0] == e);
                }
                match &self.entries[0].value {
                    Some(v) => Some(v),
                    None => None,
                }
            },
        }
    }
}

/// Appending sequences adds their total sizes.
pub proof fn lemma_total_size_append<A, B>(a: Seq<(A, B, nat)>, b: Seq<(A, B, nat)>)
    ensures
        total_size(a + b) == total_size(a) + total_size(b),
    decreases b.len(),
{
    if b.len() == 0 {
        assert(a + b =~= a);
    } else {
        lemma_total_size_append(a, b.drop_last());
        assert((a + b).drop_last() =~= a + b.drop_last());
        assert((a + b).last() == b.last());
    }
}

/// Putting an item in front adds its size.
pub proof fn lemma_total_size_push_front<A, B>(x: (A, B, nat), s: Seq<(A, B, nat)>)
    ensures
        total_size(seq![x] + s) == x.2 + total_size(s),
{
    lemma_total_size_append(seq![x], s);
    assert(seq![x].drop_last() =~= Seq::<(A, B, nat)>::empty());
    assert(total_size(Seq::<(A, B, nat)>::empty()) == 0);
    assert(seq![x].last() == x);
    assert(total_size(seq![x]) == x.2);
}

/// Removing an item subtracts its size.
pub proof fn lemma_total_size_remove<A, B>(s: Seq<(A, B, nat)>, i: int)
    requires
        0 <= i < s.len(),
    ensures
        total_size(s.remove(i)) + s[i].2 == total_size(s),
{
    let a = s.take(i);
    let b = s.skip(i + 1);
    assert(s.remove(i) =~= a + b);
    assert(s =~= (a + seq![s[i]]) + b);
    lemma_total_size_append(a, b);
    lemma_total_size_append(a + seq![s[i]], b);
    lemma_total_size_append(a, seq![s[i]]);
    lemma_total_size_push_front(s[i], Seq::<(A, B, nat)>::empty());
    assert(seq![s[i]] =~= seq![s[i]] + Seq::<(A, B, nat)>::empty());
}

/// Moving the item at `i` to the front, with a new value, keeps keys distinct.
proof fn lemma_distinct_keys_move_front<A, B>(s: Seq<(A, B, nat)>, i: int, x: (A, B, nat))
    requires
        0 <= i < s.len(),
        distinct_keys(s),
        x.0 == s[i].0,
    ensures
        distinct_keys(seq![x] + s.remove(i)),
{
    let t = seq![x] + s.remove(i);
    assert forall|a: int, b: int|
        0 <= a < t.len() && 0 <= b < t.len() && a != b implies #[trigger] t[a].0
        != #[trigger] t[b].0 by {
        let oa = if a == 0 { i } else if a - 1 < i { a - 1 } else { a };
        let ob = if b == 0 { i } else if b - 1 < i { b - 1 } else { b };
        assert(t[a].0 == s[oa].0);
        assert(t[b].0 == s[ob].0);
    }
}


// ---------------------------------------------------------------------------
// Laws of the cache, over the model that `put` and `get` are specified by.
// ---------------------------------------------------------------------------

/// An item at the front of a sequence with distinct keys is what its key
/// finds, and using it leaves the order as it is.
proof fn lemma_front_item<A, B>(x: (A, B, nat), s: Seq<(A, B, nat)>)
    requires
        distinct_keys(seq![x] + s),
    ensures
        contains_key(seq![x] + s, x.0),
        index_of_key(seq![x] + s, x.0) == 0,
        lookup(seq![x] + s, x.0) == Some(x.1),
        touch(seq![x] + s, x.0) == seq![x] + s,
{
    let t = seq![x] + s;
    assert(t[0].0 == x.0);
    let i = index_of_key(t, x.0);
    if i != 0 {
        assert(t[i].0 != t[0].0);
    }
    assert(seq![t[0]] + t.remove(0) =~= t);
}

/// The sequence a `put` leaves has distinct keys when the one before had.
proof fn lemma_put_items_distinct<A, B>(items: Seq<(A, B, nat)>, free: nat, k: A, v: B, size: nat)
    requires
        distinct_keys(items),
    ensures
        distinct_keys(put_items(items, free, k, v, size)),
        put_items(items, free, k, v, size).len() > 0,
        put_items(items, free, k, v, size)[0] == (k, v, if contains_key(items, k) {
            items[index_of_key(items, k)].2
        } else {
            size
        }),
{
    if contains_key(items, k) {
        let i = index_of_key(items, k);
        lemma_distinct_keys_move_front(items, i, (k, v, items[i].2));
    } else {
        lemma_evicted_count_bound(items, free, size);
        let kept = items.take(items.len() - evicted_count(items, free, size));
        let t = seq![(k, v, size)] + kept;
        assert forall|a: int, b: int|
            0 <= a < t.len() && 0 <= b < t.len() && a != b implies #[trigger] t[a].0
            != #[trigger] t[b].0 by {
            if a > 0 {
                assert(t[a] == items[a - 1]);
            }
            if b > 0 {
                assert(t[b] == items[b - 1]);
            }
        }
    }
}

proof fn lemma_evicted_count_bound<A, B>(items: Seq<(A, B, nat)>, free: nat, size: nat)
    ensures
        evicted_count(items, free, size) <= items.len(),
    decreases items.len(),
{
    if !(free >= size || items.len() == 0) {
        lemma_evicted_count_bound(items.drop_last(), free + items.last().2, size);
    }
}

/// Law: a value just stored is found.  After `put(k, v, size)` on a cache
/// (whose keys are distinct), `get(k)` gives `v` and changes nothing.
pub proof fn law_get_after_put<A, B>(items: Seq<(A, B, nat)>, free: nat, k: A, v: B, size: nat)
    requires
        distinct_keys(items),
    ensures
        lookup(put_items(items, free, k, v, size), k) == Some(v),
        touch(put_items(items, free, k, v, size), k) == put_items(items, free, k, v, size),
{
    lemma_put_items_distinct(items, free, k, v, size);
    let t = put_items(items, free, k, v, size);
    assert(t =~= seq![t[0]] + t.skip(1));
    lemma_front_item(t[0], t.skip(1));
}

/// Law: eviction takes the least recently used entries, and no more of them
/// than needed.  When a new key is stored with a size that fits the
/// capacity, the entries evicted are the last `n` ones, their sizes and the
/// free capacity make room for the new entry, and the last `n - 1` would not
/// have.
pub proof fn law_put_evicts_least_recent<A, B>(
    items: Seq<(A, B, nat)>,
    free: nat,
    k: A,
    v: B,
    size: nat,
)
    requires
        !contains_key(items, k),
        size <= free + total_size(items),
    ensures
        ({
            let n = evicted_count(items, free, size);
            &&& n <= items.len()
            &&& put_items(items, free, k, v, size) == seq![(k, v, size)] + items.take(
                items.len() - n,
            )
            &&& free + total_size(items.skip(items.len() - n)) >= size
            &&& n > 0 ==> free + total_size(items.skip(items.len() - n + 1)) < size
        }),
{
    lemma_evicted_count_minimal(items, free, size);
}

proof fn lemma_skip_drop_last<A, B>(items: Seq<(A, B, nat)>, m: int)
    requires
        items.len() > 0,
        0 <= m <= items.len() - 1,
    ensures
        total_size(items.skip(m)) == total_size(items.drop_last().skip(m)) + items.last().2,
{
    assert(items.skip(m) =~= items.drop_last().skip(m) + seq![items.last()]);
    lemma_total_size_append(items.drop_last().skip(m), seq![items.last()]);
    lemma_total_size_push_front(items.last(), Seq::<(A, B, nat)>::empty());
    assert(seq![items.last()] =~= seq![items.last()] + Seq::<(A, B, nat)>::empty());
}

proof fn lemma_evicted_count_minimal<A, B>(items: Seq<(A, B, nat)>, free: nat, size: nat)
    requires
        size <= free + total_size(items),
    ensures
        ({
            let n = evicted_count(items, free, size);
            &&& n <= items.len()
            &&& free + total_size(items.skip(items.len() - n)) >= size
            &&& n > 0 ==> free + total_size(items.skip(items.len() - n + 1)) < size
        }),
    decreases items.len(),
{
    let n = evicted_count(items, free, size);
    if free >= size || items.len() == 0 {
        assert(items.skip(items.len() as int) =~= Seq::<(A, B, nat)>::empty());
        assert(total_size(Seq::<(A, B, nat)>::empty()) == 0);
    } else {
        let d = items.drop_last();
        let free2 = free + items.last().2;
        lemma_evicted_count_minimal(d, free2, size);
        let n2 = evicted_count(d, free2, size);
        assert(n == n2 + 1);
        lemma_skip_drop_last(items, d.len() - n2);
        assert(items.len() - n == d.len() - n2);
        if n2 == 0 {
            assert(items.skip(items.len() - n + 1) =~= Seq::<(A, B, nat)>::empty());
            assert(total_size(Seq::<(A, B, nat)>::empty()) == 0);
        } else {
            lemma_skip_drop_last(items, d.len() - n2 + 1);
        }
    }
}

/// Law: `get` only reorders.  Using a key keeps every key's value and the
/// number of entries.
pub proof fn law_get_keeps_contents<A, B>(items: Seq<(A, B, nat)>, k: A, k2: A)
    requires
        distinct_keys(items),
    ensures
        touch(items, k).len() == items.len(),
        total_size(touch(items, k)) == total_size(items),
        lookup(touch(items, k), k2) == lookup(items, k2),
{
    if contains_key(items, k) {
        let i = index_of_key(items, k);
        let t = touch(items, k);
        lemma_total_size_remove(items, i);
        lemma_total_size_push_front(items[i], items.remove(i));
        lemma_distinct_keys_move_front(items, i, items[i]);
        lemma_moved_lookup(items, i, items[i], k2);
    }
}

/// Law: `get` moves only the used entry.  When the entry at position `i`
/// has the key used, it becomes the first; the entries before it each move
/// one place back, and those after it stay where they were, so every other
/// pair of entries keeps its order.  A key that is not there changes
/// nothing.
pub proof fn law_get_moves_only_used_entry<A, B>(items: Seq<(A, B, nat)>, k: A, i: int)
    requires
        distinct_keys(items),
        0 <= i < items.len(),
        items[i].0 == k,
    ensures
        touch(items, k).len() == items.len(),
        touch(items, k)[0] == items[i],
        forall|j: int| 0 <= j < i ==> #[trigger] touch(items, k)[j + 1] == items[j],
        forall|j: int| i < j < items.len() ==> #[trigger] touch(items, k)[j] == items[j],
{
    assert(contains_key(items, k));
    let c = index_of_key(items, k);
    if c != i {
        assert(items[c].0 != items[i].0);
    }
}

/// Law: using a key that is not in the cache leaves the order as it is.
pub proof fn law_get_absent_key_changes_nothing<A, B>(items: Seq<(A, B, nat)>, k: A)
    requires
        forall|j: int| 0 <= j < items.len() ==> #[trigger] items[j].0 != k,
    ensures
        touch(items, k) == items,
{
}

/// Law: storing under a key already in the cache moves only its entry.
/// When the entry at position `i` has key `k`, it becomes the first, with
/// the new value and its old size; the entries before it each move one
/// place back, those after it stay, and nothing is evicted.
pub proof fn law_put_existing_moves_only_it<A, B>(
    items: Seq<(A, B, nat)>,
    free: nat,
    k: A,
    v: B,
    size: nat,
    i: int,
)
    requires
        distinct_keys(items),
        0 <= i < items.len(),
        items[i].0 == k,
    ensures
        put_items(items, free, k, v, size).len() == items.len(),
        put_items(items, free, k, v, size)[0] == (k, v, items[i].2),
        forall|j: int| 0 <= j < i ==> #[trigger] put_items(items, free, k, v, size)[j + 1] == items[j],
        forall|j: int|
            i < j < items.len() ==> #[trigger] put_items(items, free, k, v, size)[j] == items[j],
{
    assert(contains_key(items, k));
    let c = index_of_key(items, k);
    if c != i {
        assert(items[c].0 != items[i].0);
    }
}

/// Looking up any key in a sequence whose item `i` moved to the front with
/// value `x.1`.
proof fn lemma_moved_lookup<A, B>(items: Seq<(A, B, nat)>, i: int, x: (A, B, nat), k2: A)
    requires
        0 <= i < items.len(),
        distinct_keys(items),
        x.0 == items[i].0,
    ensures
        lookup(seq![x] + items.remove(i), k2) == if k2 == x.0 {
            Some(x.1)
        } else {
            lookup(items, k2)
        },
{
    let t = seq![x] + items.remove(i);
    lemma_distinct_keys_move_front(items, i, x);
    if k2 == x.0 {
        lemma_front_item(x, items.remove(i));
    } else if contains_key(items, k2) {
        let j = index_of_key(items, k2);
        assert(j != i);
        let tj = if j < i { j + 1 } else { j };
        assert(t[tj] == items[j]);
        assert(contains_key(t, k2));
        let c = index_of_key(t, k2);
        if c != tj {
            assert(t[c].0 != t[tj].0);
        }
    } else {
        if contains_key(t, k2) {
            let c = index_of_key(t, k2);
            let oc = if c == 0 { i } else if c - 1 < i { c - 1 } else { c };
            assert(t[c] == items[oc] || c == 0);
            assert(items[oc].0 == k2);
            assert(false);
        }
    }
}

/// Law: storing under `k` leaves other keys alone.  An existing key takes
/// the new value and keeps the others' values; a new key keeps each other
/// value or evicts it.
pub proof fn law_put_other_keys<A, B>(
    items: Seq<(A, B, nat)>,
    free: nat,
    k: A,
    v: B,
    size: nat,
    k2: A,
)
    requires
        distinct_keys(items),
        k2 != k,
    ensures
        contains_key(items, k) ==> lookup(put_items(items, free, k, v, size), k2) == lookup(
            items,
            k2,
        ),
        lookup(put_items(items, free, k, v, size), k2) is Some ==> lookup(
            put_items(items, free, k, v, size),
            k2,
        ) == lookup(items, k2),
{
    if contains_key(items, k) {
        let i = index_of_key(items, k);
        lemma_moved_lookup(items, i, (k, v, items[i].2), k2);
    } else {
        lemma_put_items_distinct(items, free, k, v, size);
        lemma_evicted_count_bound(items, free, size);
        let t = put_items(items, free, k, v, size);
        if contains_key(t, k2) {
            let c = index_of_key(t, k2);
            assert(c != 0);
            assert(t[c] == items[c - 1]);
            assert(contains_key(items, k2));
            let j = index_of_key(items, k2);
            if j != c - 1 {
                assert(items[j].0 != items[c - 1].0);
            }
        }
    }
}

} // verus!
