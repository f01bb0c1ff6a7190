//! A map from byte-string keys to values, kept as a list of pairs with
//! distinct keys.
use vstd::prelude::*;
use crate::lru_cache::CacheKey;

verus! {

/// The map that a list of pairs with distinct keys stands for.
pub open spec fn pairs_map<V>(pairs: Seq<(Vec<u8>, V)>) -> Map<Seq<u8>, V> {
    Map::new(
        |k: Seq<u8>| exists|i: int| 0 <= i < pairs.len() && #[trigger] pairs[i].0@ == k,
        |k: Seq<u8>| pairs[choose|i: int| 0 <= i < pairs.len() && #[trigger] pairs[i].0@ == k].1,
    )
}

/// No two pairs have the same key.
pub open spec fn distinct_pair_keys<V>(pairs: Seq<(Vec<u8>, V)>) -> bool {
    forall|i: int, j: int|
        0 <= i < pairs.len() && 0 <= j < pairs.len() && i != j ==> #[trigger] pairs[i].0@
            != #[trigger] pairs[j].0@
}

proof fn lemma_pairs_map_at<V>(pairs: Seq<(Vec<u8>, V)>, i: int)
    requires
        0 <= i < pairs.len(),
        distinct_pair_keys(pairs),
    ensures
        pairs_map(pairs).contains_key(pairs[i].0@),
        pairs_map(pairs)[pairs[i].0@] == pairs[i].1,
{
    let k = pairs[i].0@;
    assert(exists|j: int| 0 <= j < pairs.len() && #[trigger] pairs[j].0@ == k);
    let c = choose|j: int| 0 <= j < pairs.len() && #[trigger] pairs[j].0@ == k;
    if c != i {
        assert(pairs[c].0@ != pairs[i].0@);
    }
}

/// Removing the pair at `i` removes its key from the map.
proof fn lemma_pairs_map_remove<V>(pairs: Seq<(Vec<u8>, V)>, i: int)
    requires
        0 <= i < pairs.len(),
        distinct_pair_keys(pairs),
    ensures
        distinct_pair_keys(pairs.remove(i)),
        pairs_map(pairs.remove(i)) == pairs_map(pairs).remove(pairs[i].0@),
{
    let r = pairs.remove(i);
    let k = pairs[i].0@;
    assert forall|a: int, b: int|
        0 <= a < r.len() && 0 <= b < r.len() && a != b implies #[trigger] r[a].0@
        != #[trigger] r[b].0@ by {
        let oa = if a < i { a } else { a + 1 };
        let ob = if b < i { b } else { b + 1 };
        assert(r[a] == pairs[oa]);
        assert(r[b] == pairs[ob]);
    }
    assert forall|key: Seq<u8>| #[trigger]
        pairs_map(r).contains_key(key) == pairs_map(pairs).remove(k).contains_key(key) && (
        pairs_map(r).contains_key(key) ==> pairs_map(r)[key] == pairs_map(pairs).remove(
            k,
        )[key]) by {
        if pairs_map(r).contains_key(key) {
            let c = choose|c: int| 0 <= c < r.len() && #[trigger] r[c].0@ == key;
            let oc = if c < i { c } else { c + 1 };
            assert(r[c] == pairs[oc]);
            lemma_pairs_map_at(r, c);
            lemma_pairs_map_at(pairs, oc);
        }
        if pairs_map(pairs).remove(k).contains_key(key) {
            let c = choose|c: int| 0 <= c < pairs.len() && #[trigger] pairs[c].0@ == key;
            assert(c != i);
            let rc = if c < i { c } else { c - 1 };
            assert(r[rc] == pairs[c]);
        }
    }
    assert(pairs_map(r) =~= pairs_map(pairs).remove(k));
}

/// Adding a pair whose key is new adds it to the map.
proof fn lemma_pairs_map_push<V>(pairs: Seq<(Vec<u8>, V)>, x: (Vec<u8>, V))
    requires
        distinct_pair_keys(pairs),
        !pairs_map(pairs).contains_key(x.0@),
    ensures
        distinct_pair_keys(pairs.push(x)),
        pairs_map(pairs.push(x)) == pairs_map(pairs).insert(x.0@, x.1),
{
    let p = pairs.push(x);
    let n = pairs.len() as int;
    assert forall|a: int, b: int|
        0 <= a < p.len() && 0 <= b < p.len() && a != b implies #[trigger] p[a].0@
        != #[trigger] p[b].0@ by {
        if a < n {
            assert(p[a] == pairs[a]);
        }
        if b < n {
            assert(p[b] == pairs[b]);
        }
        if a == n && b < n {
            assert(pairs_map(pairs).contains_key(pairs[b].0@));
        }
        if b == n && a < n {
            assert(pairs_map(pairs).contains_key(pairs[a].0@));
        }
    }
    lemma_pairs_map_at(p, n);
    assert forall|key: Seq<u8>| #[trigger]
        pairs_map(p).contains_key(key) == pairs_map(pairs).insert(x.0@, x.1).contains_key(key)
            && (pairs_map(p).contains_key(key) ==> pairs_map(p)[key] == pairs_map(pairs).insert(
            x.0@,
            x.1,
        )[key]) by {
        if key != x.0@ {
            if pairs_map(p).contains_key(key) {
                let c = choose|c: int| 0 <= c < p.len() && #[trigger] p[c].0@ == key;
                assert(c != n);
                assert(p[c] == pairs[c]);
                lemma_pairs_map_at(p, c);
                lemma_pairs_map_at(pairs, c);
            }
            if pairs_map(pairs).contains_key(key) {
                let c = choose|c: int| 0 <= c < pairs.len() && #[trigger] pairs[c].0@ == key;
                assert(p[c] == pairs[c]);
            }
        }
    }
    assert(pairs_map(p) =~= pairs_map(pairs).insert(x.0@, x.1));
}

/// A map from byte strings to values.
pub struct AssocList<V> {
    pairs: Vec<(Vec<u8>, V)>,
}

impl<V> View for AssocList<V> {
    type V = Map<Seq<u8>, V>;

    closed spec fn view(&self) -> Map<Seq<u8>, V> {
        pairs_map(self.pairs@)
    }
}

impl<V> AssocList<V> {
    pub closed spec fn wf(&self) -> bool {
        distinct_pair_keys(self.pairs@)
    }

    /// The empty map.
    pub fn new() -> (m: AssocList<V>)
        ensures
            m.wf(),
            m@ == Map::<Seq<u8>, V>::empty(),
    {
        let m = AssocList { pairs: Vec::new() };
        assert(m@ =~= Map::<Seq<u8>, V>::empty());
        m
    }

    fn find(&self, key: &Vec<u8>) -> (r: Option<usize>)
        requires
            self.wf(),
        ensures
            match r {
                Some(i) => i < self.pairs@.len() && self.pairs@[i as int].0@ == key@,
                None => !self@.contains_key(key@),
            },
    {
        let mut i: usize = 0;
        while i < self.pairs.len()
            invariant
                i <= self.pairs@.len(),
                forall|j: int| 0 <= j < i ==> #[trigger] self.pairs@[j].0@ != key@,
            decreases self.pairs@.len() - i,
        {
            if self.pairs[i].0.key_eq(key) {
                return Some(i);
            }
            i = i + 1;
        }
        None
    }

    /// The value under `key`, if any.
    pub fn get(&self, key: &Vec<u8>) -> (r: Option<&V>)
        requires
            self.wf(),
        ensures
            r is Some <==> self@.contains_key(key@),
            r matches Some(v) ==> self@[key@] == *v,
    {
        match self.find(key) {
            Some(i) => {
                proof {
                    lemma_pairs_map_at(self.pairs@, i as int);
                }
                Some(&self.pairs[i].1)
            },
            None => None,
        }
    }

    /// Takes out the value under `key`, if any.
    pub fn remove(&mut self, key: &Vec<u8>) -> (r: Option<V>)
        requires
            old(self).wf(),
        ensures
            final(self).wf(),
            final(self)@ == old(self)@.remove(key@),
            r is Some <==> old(self)@.contains_key(key@),
            r matches Some(v) ==> old(self)@[key@] == v,
    {
        match self.find(key) {
            Some(i) => {
                proof {
                    lemma_pairs_map_at(self.pairs@, i as int);
                    lemma_pairs_map_remove(self.pairs@, i as int);
                }
                let (_, v) = self.pairs.remove(i);
                Some(v)
            },
            None => {
                assert(old(self)@.remove(key@) =~= old(self)@);
                None
            },
        }
    }

    /// Puts `value` under `key`, giving back the value that was there.
    pub fn insert(&mut self, key: Vec<u8>, value: V) -> (r: Option<V>)
        requires
            old(self).wf(),
        ensures
            final(self).wf(),
            final(self)@ == old(self)@.insert(key@, value),
            r is Some <==> old(self)@.contains_key(key@),
            r matches Some(v) ==> old(self)@[key@] == v,
    {
        let ghost k = key@;
        let old_value = self.remove(&key);
        proof {
            assert(!self@.contains_key(k));
            lemma_pairs_map_push(self.pairs@, (key, value));
        }
        self.pairs.push((key, value));
        assert(self@ =~= old(self)@.insert(k, value));
        old_value
    }
}

} // verus!
