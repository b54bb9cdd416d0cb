//! Keyed record stores with unordered-map semantics.
//!
//! `StoreMap` keeps key/record pairs in insertion order with pairwise
//! distinct keys; its view is the finite map from key views to record views.
//! Point operations (`get`, `insert`, `remove`, `contains_key`) behave as on
//! that map, and `values` lists every stored record exactly once.

use vstd::prelude::*;
use vstd::pervasive::VecAdditionalExecFns;

verus! {

/// A key type whose executable equality decides equality of key views.
pub trait StoreKey: View + Sized {
    /// Equality test; the answer is exactly whether the two views agree.
    fn key_eq(&self, other: &Self) -> (r: bool)
        ensures
            r == (self@ == other@),
    ;
}

impl StoreKey for u64 {
    fn key_eq(&self, other: &Self) -> (r: bool) {
        *self == *other
    }
}

impl StoreKey for String {
    fn key_eq(&self, other: &Self) -> (r: bool) {
        *self == *other
    }
}

/// A record that can be duplicated without changing what it denotes.
pub trait Record: View + Sized {
    /// A fresh record with the same view as this one.
    fn dup(&self) -> (r: Self)
        ensures
            r@ == self@,
    ;
}

/// The key views of an entry sequence, in storage order.
pub open spec fn keys_of<K: View, V: View>(s: Seq<(K, V)>) -> Seq<K::V> {
    s.map_values(|e: (K, V)| e.0@)
}

/// Pairwise distinct key views: each key occurs at most once.
pub open spec fn distinct_keys<K: View, V: View>(s: Seq<(K, V)>) -> bool {
    forall|i: int, j: int| #![trigger s[i].0@, s[j].0@]
        0 <= i < j < s.len() ==> s[i].0@ != s[j].0@
}

/// The finite map an entry sequence denotes; with distinct keys, each entry
/// binds its key view to its record view.
pub open spec fn map_of<K: View, V: View>(s: Seq<(K, V)>) -> Map<K::V, V::V>
    decreases s.len(),
{
    if s.len() == 0 {
        Map::empty()
    } else {
        map_of(s.drop_last()).insert(s.last().0@, s.last().1@)
    }
}

proof fn lemma_map_of_contains<K: View, V: View>(s: Seq<(K, V)>, k: K::V)
    ensures
        map_of(s).contains_key(k) <==> exists|i: int| 0 <= i < s.len() && #[trigger] s[i].0@ == k,
    decreases s.len(),
{
    if s.len() == 0 {
    } else {
        lemma_map_of_contains(s.drop_last(), k);
        if s.last().0@ == k {
            assert(s[s.len() - 1].0@ == k);
        } else if map_of(s).contains_key(k) {
            let i = choose|i: int| 0 <= i < s.len() - 1 && #[trigger] s.drop_last()[i].0@ == k;
            assert(s[i].0@ == k);
        } else if exists|i: int| 0 <= i < s.len() && #[trigger] s[i].0@ == k {
            let i = choose|i: int| 0 <= i < s.len() && #[trigger] s[i].0@ == k;
            assert(i < s.len() - 1);
            assert(s.drop_last()[i].0@ == k);
        }
    }
}

proof fn lemma_distinct_drop_last<K: View, V: View>(s: Seq<(K, V)>)
    requires
        distinct_keys(s),
        s.len() > 0,
    ensures
        distinct_keys(s.drop_last()),
{
    let t = s.drop_last();
    assert forall|a: int, b: int| 0 <= a < b < t.len() implies #[trigger] t[a].0@ != #[trigger] t[b].0@ by {
        assert(t[a] == s[a]);
        assert(t[b] == s[b]);
    }
}

proof fn lemma_map_of_index<K: View, V: View>(s: Seq<(K, V)>, i: int)
    requires
        distinct_keys(s),
        0 <= i < s.len(),
    ensures
        map_of(s).contains_key(s[i].0@),
        map_of(s)[s[i].0@] == s[i].1@,
    decreases s.len(),
{
    if i == s.len() - 1 {
    } else {
        lemma_distinct_drop_last(s);
        lemma_map_of_index(s.drop_last(), i);
        assert(s.drop_last()[i] == s[i]);
        assert(s[s.len() - 1].0@ != s[i].0@);
    }
}

proof fn lemma_map_of_dom<K: View, V: View>(s: Seq<(K, V)>)
    ensures
        map_of(s).dom().finite(),
        map_of(s).dom() =~= keys_of(s).to_set(),
{
    broadcast use vstd::seq_lib::group_seq_properties;

    assert(map_of(s).dom().finite()) by {
        lemma_map_of_finite(s);
    }
    assert forall|k: K::V| map_of(s).dom().contains(k) <==> keys_of(s).to_set().contains(k) by {
        lemma_map_of_contains(s, k);
        if exists|i: int| 0 <= i < s.len() && #[trigger] s[i].0@ == k {
            let i = choose|i: int| 0 <= i < s.len() && #[trigger] s[i].0@ == k;
            assert(keys_of(s)[i] == k);
            assert(keys_of(s).contains(k));
        }
        if keys_of(s).to_set().contains(k) {
            let i = choose|i: int| 0 <= i < keys_of(s).len() && keys_of(s)[i] == k;
            assert(s[i].0@ == k);
        }
    }
}

proof fn lemma_map_of_finite<K: View, V: View>(s: Seq<(K, V)>)
    ensures
        map_of(s).dom().finite(),
    decreases s.len(),
{
    if s.len() == 0 {
    } else {
        lemma_map_of_finite(s.drop_last());
    }
}

proof fn lemma_distinct_key_seq<K: View, V: View>(s: Seq<(K, V)>)
    requires
        distinct_keys(s),
    ensures
        keys_of(s).no_duplicates(),
        map_of(s).dom().finite(),
        map_of(s).dom().len() == s.len(),
{
    assert forall|a: int, b: int|
        0 <= a < keys_of(s).len() && 0 <= b < keys_of(s).len() && a != b implies keys_of(s)[a]
        != keys_of(s)[b] by {
        assert(keys_of(s)[a] == s[a].0@);
        assert(keys_of(s)[b] == s[b].0@);
    }
    lemma_map_of_dom(s);
    keys_of(s).unique_seq_to_set();
}

/// `t` replaces entry `i` of `s` with one carrying the same key view; the
/// denoted map gains the new record under that key.
proof fn lemma_map_of_update<K: View, V: View>(s: Seq<(K, V)>, t: Seq<(K, V)>, i: int)
    requires
        distinct_keys(s),
        0 <= i < s.len(),
        t.len() == s.len(),
        forall|j: int| 0 <= j < s.len() && j != i ==> s[j] == t[j],
        t[i].0@ == s[i].0@,
    ensures
        distinct_keys(t),
        map_of(t) == map_of(s).insert(t[i].0@, t[i].1@),
        keys_of(t) == keys_of(s),
    decreases s.len(),
{
    assert forall|a: int, b: int| 0 <= a < b < t.len() implies #[trigger] t[a].0@ != #[trigger] t[b].0@ by {
        assert(t[a].0@ == s[a].0@);
        assert(t[b].0@ == s[b].0@);
    }
    assert(keys_of(t) =~= keys_of(s)) by {
        assert forall|j: int| 0 <= j < t.len() implies keys_of(t)[j] == keys_of(s)[j] by {
            assert(keys_of(t)[j] == t[j].0@);
            assert(keys_of(s)[j] == s[j].0@);
            assert(t[j].0@ == s[j].0@);
        }
    }
    if i == s.len() - 1 {
        assert(t.drop_last() =~= s.drop_last());
        assert(t.last() == t[i]);
        assert(map_of(t) == map_of(s.drop_last()).insert(t[i].0@, t[i].1@));
        assert(map_of(s).insert(t[i].0@, t[i].1@) =~= map_of(s.drop_last()).insert(
            t[i].0@,
            t[i].1@,
        ));
    } else {
        lemma_distinct_drop_last(s);
        assert(t.drop_last()[i] == t[i]);
        assert(forall|j: int|
            0 <= j < s.len() - 1 && j != i ==> s.drop_last()[j] == t.drop_last()[j]);
        lemma_map_of_update(s.drop_last(), t.drop_last(), i);
        assert(t.last() == s.last());
        assert(map_of(t) == map_of(s.drop_last()).insert(t[i].0@, t[i].1@).insert(
            s.last().0@,
            s.last().1@,
        ));
        assert(s[s.len() - 1].0@ != s[i].0@);
        assert(map_of(s.drop_last()).insert(t[i].0@, t[i].1@).insert(s.last().0@, s.last().1@)
            =~= map_of(s.drop_last()).insert(s.last().0@, s.last().1@).insert(t[i].0@, t[i].1@));
    }
}

/// `t` extends `s` with one entry under a key view no entry of `s` carries;
/// the denoted map gains that binding.
proof fn lemma_map_of_push<K: View, V: View>(s: Seq<(K, V)>, t: Seq<(K, V)>)
    requires
        distinct_keys(s),
        t.len() == s.len() + 1,
        forall|j: int| 0 <= j < s.len() ==> s[j] == t[j],
        forall|j: int| 0 <= j < s.len() ==> #[trigger] s[j].0@ != t[s.len() as int].0@,
    ensures
        distinct_keys(t),
        map_of(t) == map_of(s).insert(t[s.len() as int].0@, t[s.len() as int].1@),
        keys_of(t) == keys_of(s).push(t[s.len() as int].0@),
{
    let n = s.len() as int;
    assert(t.drop_last() =~= s);
    assert(t.last() == t[n]);
    assert(map_of(t) == map_of(s).insert(t[n].0@, t[n].1@));
    assert(keys_of(t) =~= keys_of(s).push(t[n].0@)) by {
        assert forall|j: int| 0 <= j < t.len() implies keys_of(t)[j] == keys_of(s).push(
            t[n].0@,
        )[j] by {
            assert(keys_of(t)[j] == t[j].0@);
            if j < n {
                assert(keys_of(s)[j] == s[j].0@);
            }
        }
    }
    assert forall|a: int, b: int| 0 <= a < b < t.len() implies #[trigger] t[a].0@ != #[trigger] t[b].0@ by {
        if b < n {
            assert(t[a].0@ == s[a].0@);
            assert(t[b].0@ == s[b].0@);
        } else {
            assert(t[a].0@ == s[a].0@);
        }
    }
}

proof fn lemma_map_of_remove<K: View, V: View>(s: Seq<(K, V)>, i: int)
    requires
        distinct_keys(s),
        0 <= i < s.len(),
    ensures
        distinct_keys(s.remove(i)),
        map_of(s.remove(i)) == map_of(s).remove(s[i].0@),
    decreases s.len(),
{
    let t = s.remove(i);
    assert forall|a: int, b: int| 0 <= a < b < t.len() implies #[trigger] t[a].0@ != #[trigger] t[b].0@ by {
        assert(t[a] == (if a < i { s[a] } else { s[a + 1] }));
        assert(t[b] == (if b < i { s[b] } else { s[b + 1] }));
    }
    if i == s.len() - 1 {
        assert(t =~= s.drop_last());
        lemma_map_of_contains(s.drop_last(), s[i].0@);
        assert(!map_of(s.drop_last()).contains_key(s[i].0@)) by {
            if exists|j: int| 0 <= j < s.len() - 1 && #[trigger] s.drop_last()[j].0@ == s[i].0@ {
                let j = choose|j: int|
                    0 <= j < s.len() - 1 && #[trigger] s.drop_last()[j].0@ == s[i].0@;
                assert(s[j].0@ == s[i].0@);
                assert(false);
            }
        }
        assert(map_of(s.drop_last()) =~= map_of(s).remove(s[i].0@));
    } else {
        lemma_distinct_drop_last(s);
        lemma_map_of_remove(s.drop_last(), i);
        assert(s.drop_last()[i] == s[i]);
        assert(t.drop_last() =~= s.drop_last().remove(i));
        assert(t.last() == s.last());
        assert(map_of(t) == map_of(s.drop_last()).remove(s[i].0@).insert(
            s.last().0@,
            s.last().1@,
        ));
        assert(s[s.len() - 1].0@ != s[i].0@);
        assert(map_of(s.drop_last()).remove(s[i].0@).insert(s.last().0@, s.last().1@)
            =~= map_of(s.drop_last()).insert(s.last().0@, s.last().1@).remove(s[i].0@));
    }
}

/// A keyed collection of records with unordered-map semantics: each key view
/// is bound to at most one record.
pub struct StoreMap<K, V> {
    entries: Vec<(K, V)>,
}

impl<K: StoreKey, V: View> View for StoreMap<K, V> {
    type V = Map<K::V, V::V>;

    closed spec fn view(&self) -> Map<K::V, V::V> {
        map_of(self.entries@)
    }
}

impl<K: StoreKey, V: View> StoreMap<K, V> {
    /// Each key occurs at most once; every operation preserves this.
    pub closed spec fn wf(&self) -> bool {
        distinct_keys(self.entries@)
    }

    /// The stored key views in storage order: the order `values` lists
    /// records in. Callers must not read meaning into it.
    pub closed spec fn key_seq(&self) -> Seq<K::V> {
        keys_of(self.entries@)
    }

    /// An empty store.
    pub fn new() -> (r: Self)
        ensures
            r.wf(),
            r@ == Map::<K::V, V::V>::empty(),
            r.key_seq() == Seq::<K::V>::empty(),
    {
        let r = StoreMap { entries: Vec::new() };
        proof {
            assert(r.key_seq() =~= Seq::<K::V>::empty());
        }
        r
    }

    fn find_index(&self, key: &K) -> (r: Option<usize>)
        ensures
            (match r {
                Some(i) => i < self.entries@.len() && self.entries@[i as int].0@ == key@,
                None => forall|j: int|
                    0 <= j < self.entries@.len() ==> #[trigger] self.entries@[j].0@ != key@,
            }),
    {
        let n = self.entries.len();
        let mut i: usize = 0;
        while i < n
            invariant
                n == self.entries@.len(),
                i <= n,
                forall|j: int| 0 <= j < i ==> #[trigger] self.entries@[j].0@ != key@,
            decreases n - i,
        {
            let e = &self.entries[i];
            if e.0.key_eq(key) {
                return Some(i);
            }
            i = i + 1;
        }
        None
    }

    /// Whether a record is stored under this key.
    pub fn contains_key(&self, key: &K) -> (r: bool)
        ensures
            r == self@.contains_key(key@),
    {
        proof {
            lemma_map_of_contains(self.entries@, key@);
        }
        match self.find_index(key) {
            Some(_) => true,
            None => false,
        }
    }

    /// The record stored under this key, if any.
    pub fn get(&self, key: &K) -> (r: Option<&V>)
        requires
            self.wf(),
        ensures
            (match r {
                Some(v) => self@.contains_key(key@) && v@ == self@[key@],
                None => !self@.contains_key(key@),
            }),
    {
        proof {
            lemma_map_of_contains(self.entries@, key@);
        }
        match self.find_index(key) {
            Some(i) => {
                proof {
                    lemma_map_of_index(self.entries@, i as int);
                }
                Some(&self.entries[i].1)
            }
            None => None,
        }
    }

    /// Binds the key to the record, replacing any record stored under it.
    pub fn insert(&mut self, key: K, value: V)
        requires
            old(self).wf(),
        ensures
            final(self).wf(),
            final(self)@ == old(self)@.insert(key@, value@),
            final(self).key_seq() == (if old(self)@.contains_key(key@) {
                old(self).key_seq()
            } else {
                old(self).key_seq().push(key@)
            }),
    {
        proof {
            lemma_map_of_contains(self.entries@, key@);
        }
        let ghost kv = key@;
        let ghost vv = value@;
        match self.find_index(&key) {
            Some(i) => {
                self.entries.set(i, (key, value));
                proof {
                    assert(self.entries@[i as int].0@ == kv && self.entries@[i as int].1@ == vv);
                    lemma_map_of_update(old(self).entries@, self.entries@, i as int);
                }
            }
            None => {
                self.entries.push((key, value));
                proof {
                    let n = old(self).entries@.len() as int;
                    assert(self.entries@[n].0@ == kv && self.entries@[n].1@ == vv);
                    lemma_map_of_push(old(self).entries@, self.entries@);
                    assert(!old(self)@.contains_key(kv));
                }
            }
        }
    }

    /// Unbinds the key; the answer says whether a record was stored under it.
    pub fn remove(&mut self, key: &K) -> (r: bool)
        requires
            old(self).wf(),
        ensures
            final(self).wf(),
            r == old(self)@.contains_key(key@),
            final(self)@ == old(self)@.remove(key@),
    {
        proof {
            lemma_map_of_contains(self.entries@, key@);
        }
        match self.find_index(key) {
            Some(i) => {
                proof {
                    lemma_map_of_remove(self.entries@, i as int);
                }
                let _ = self.entries.remove(i);
                true
            }
            None => {
                proof {
                    assert(!old(self)@.contains_key(key@));
                    assert(old(self)@.remove(key@) =~= old(self)@);
                }
                false
            }
        }
    }

    /// Every stored record, duplicated, in storage order: position `i` holds
    /// the record bound to `key_seq()[i]`, and every key is covered once.
    pub fn values(&self) -> (r: Vec<V>) where V: Record
        requires
            self.wf(),
        ensures
            r@.len() == self.key_seq().len(),
            self@.dom().finite(),
            self@.dom().len() == self.key_seq().len(),
            self.key_seq().no_duplicates(),
            forall|i: int|
                0 <= i < r@.len() ==> self@.contains_key(#[trigger] self.key_seq()[i])
                    && r@[i]@ == self@[self.key_seq()[i]],
            forall|k: K::V| self@.contains_key(k) ==> self.key_seq().contains(k),
    {
        proof {
            lemma_distinct_key_seq(self.entries@);
            assert forall|k: K::V| self@.contains_key(k) implies self.key_seq().contains(k) by {
                lemma_map_of_contains(self.entries@, k);
                let i = choose|i: int| 0 <= i < self.entries@.len() && #[trigger] self.entries@[i].0@
                    == k;
                assert(self.key_seq()[i] == k);
            }
        }
        let n = self.entries.len();
        let mut r: Vec<V> = Vec::new();
        let mut i: usize = 0;
        while i < n
            invariant
                self.wf(),
                n == self.entries@.len(),
                i <= n,
                r@.len() == i,
                forall|j: int|
                    0 <= j < i ==> self@.contains_key(#[trigger] self.key_seq()[j]) && r@[j]@
                        == self@[self.key_seq()[j]],
            decreases n - i,
        {
            let e = &self.entries[i];
            let v = e.1.dup();
            proof {
                lemma_map_of_index(self.entries@, i as int);
                assert(self.key_seq()[i as int] == self.entries@[i as int].0@);
            }
            r.push(v);
            i = i + 1;
        }
        r
    }
}

} // verus!
