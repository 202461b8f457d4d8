//! An insertion-ordered map keyed by strings.
//!
//! The map is a vector of `(key, value)` pairs in which no key occurs twice.
//! Walking it by index visits the entries in the order in which their keys
//! were first inserted, so everything built on it is deterministic.

use vstd::prelude::*;

verus! {

/// No key occurs at two positions of `s`.
pub open spec fn distinct_keys<V>(s: Seq<(Seq<char>, V)>) -> bool {
    forall|i: int, j: int| 0 <= i < j < s.len() ==> (#[trigger] s[i]).0 != (#[trigger] s[j]).0
}

/// Some entry of `s` has the key `k`.
pub open spec fn has_key<V>(s: Seq<(Seq<char>, V)>, k: Seq<char>) -> bool {
    exists|i: int| 0 <= i < s.len() && (#[trigger] s[i]).0 == k
}

/// A position of `s` that holds the key `k`, where there is one.
pub open spec fn key_index<V>(s: Seq<(Seq<char>, V)>, k: Seq<char>) -> int {
    choose|i: int| 0 <= i < s.len() && (#[trigger] s[i]).0 == k
}

/// The finite map that the entry list `s` stands for.
pub open spec fn entries_map<V>(s: Seq<(Seq<char>, V)>) -> Map<Seq<char>, V> {
    Map::new(|k: Seq<char>| has_key(s, k), |k: Seq<char>| s[key_index(s, k)].1)
}

/// Every entry of a duplicate-free list is found in its map.
pub proof fn lemma_entry_in_map<V>(s: Seq<(Seq<char>, V)>, i: int)
    requires
        distinct_keys(s),
        0 <= i < s.len(),
    ensures
        entries_map(s).contains_key(s[i].0),
        entries_map(s)[s[i].0] == s[i].1,
        key_index(s, s[i].0) == i,
{
    let k = s[i].0;
    assert(has_key(s, k));
    let j = key_index(s, k);
    if j < i {
        assert(s[j].0 != s[i].0);
    } else if i < j {
        assert(s[i].0 != s[j].0);
    }
}

/// Appending a fresh key inserts it into the map.
pub proof fn lemma_map_push<V>(s: Seq<(Seq<char>, V)>, k: Seq<char>, v: V)
    requires
        distinct_keys(s),
        !has_key(s, k),
    ensures
        distinct_keys(s.push((k, v))),
        entries_map(s.push((k, v))) == entries_map(s).insert(k, v),
{
    let t = s.push((k, v));
    assert forall|i: int, j: int| 0 <= i < j < t.len() implies (#[trigger] t[i]).0 != (
    #[trigger] t[j]).0 by {
        if j < s.len() {
            assert(s[i].0 != s[j].0);
        } else {
            assert(s[i].0 != k);
        }
    }
    assert forall|q: Seq<char>| has_key(t, q) <==> (q == k || has_key(s, q)) by {
        if has_key(t, q) {
            let i = key_index(t, q);
            if i < s.len() {
                assert(s[i].0 == q);
            }
        }
        if q == k {
            assert(t[s.len() as int].0 == q);
        }
        if has_key(s, q) {
            let i = key_index(s, q);
            assert(t[i].0 == q);
        }
    }
    assert forall|q: Seq<char>| has_key(t, q) implies #[trigger] entries_map(t)[q] == entries_map(
        s,
    ).insert(k, v)[q] by {
        let i = key_index(t, q);
        lemma_entry_in_map(t, i);
        if i < s.len() {
            assert(s[i].0 == q);
            lemma_entry_in_map(s, i);
        }
    }
    assert(entries_map(t) =~= entries_map(s).insert(k, v));
}

/// Overwriting the value at position `i` overwrites it in the map.
pub proof fn lemma_map_update<V>(s: Seq<(Seq<char>, V)>, i: int, v: V)
    requires
        distinct_keys(s),
        0 <= i < s.len(),
    ensures
        distinct_keys(s.update(i, (s[i].0, v))),
        entries_map(s.update(i, (s[i].0, v))) == entries_map(s).insert(s[i].0, v),
{
    let k = s[i].0;
    let t = s.update(i, (k, v));
    assert forall|a: int, b: int| 0 <= a < b < t.len() implies (#[trigger] t[a]).0 != (
    #[trigger] t[b]).0 by {
        assert(s[a].0 != s[b].0);
    }
    assert forall|q: Seq<char>| has_key(t, q) <==> has_key(s, q) by {
        if has_key(t, q) {
            let j = key_index(t, q);
            assert(s[j].0 == q);
        }
        if has_key(s, q) {
            let j = key_index(s, q);
            assert(t[j].0 == q);
        }
    }
    lemma_entry_in_map(s, i);
    assert forall|q: Seq<char>| has_key(t, q) implies #[trigger] entries_map(t)[q] == entries_map(
        s,
    ).insert(k, v)[q] by {
        let j = key_index(t, q);
        lemma_entry_in_map(t, j);
        assert(s[j].0 == q);
        lemma_entry_in_map(s, j);
    }
    assert(entries_map(t) =~= entries_map(s).insert(k, v));
}

/// Taking out the entry at position `i` removes its key from the map.
pub proof fn lemma_map_remove<V>(s: Seq<(Seq<char>, V)>, i: int)
    requires
        distinct_keys(s),
        0 <= i < s.len(),
    ensures
        distinct_keys(s.remove(i)),
        entries_map(s.remove(i)) == entries_map(s).remove(s[i].0),
{
    let k = s[i].0;
    let t = s.remove(i);
    assert forall|a: int| 0 <= a < t.len() implies #[trigger] t[a] == s[if a < i {
        a
    } else {
        a + 1
    }] by {}
    assert forall|a: int, b: int| 0 <= a < b < t.len() implies (#[trigger] t[a]).0 != (
    #[trigger] t[b]).0 by {
        let a2 = if a < i { a } else { a + 1 };
        let b2 = if b < i { b } else { b + 1 };
        assert(t[a] == s[a2]);
        assert(t[b] == s[b2]);
        assert(s[a2].0 != s[b2].0);
    }
    assert forall|q: Seq<char>| has_key(t, q) <==> (q != k && has_key(s, q)) by {
        if has_key(t, q) {
            let a = key_index(t, q);
            let a2 = if a < i { a } else { a + 1 };
            assert(t[a] == s[a2]);
            assert(s[a2].0 == q);
            if a2 < i {
                assert(s[a2].0 != s[i].0);
            } else {
                assert(s[i].0 != s[a2].0);
            }
        }
        if q != k && has_key(s, q) {
            let j = key_index(s, q);
            let a = if j < i { j } else { j - 1 };
            assert(t[a] == s[j]);
            assert(t[a].0 == q);
        }
    }
    assert forall|q: Seq<char>| has_key(t, q) implies #[trigger] entries_map(t)[q] == entries_map(
        s,
    ).remove(k)[q] by {
        let a = key_index(t, q);
        let a2 = if a < i { a } else { a + 1 };
        lemma_entry_in_map(t, a);
        assert(t[a] == s[a2]);
        lemma_entry_in_map(s, a2);
    }
    assert(entries_map(t) =~= entries_map(s).remove(k));
}

/// A duplicate-free list of `n` entries stands for a map of `n` keys.
pub proof fn lemma_map_len<V>(s: Seq<(Seq<char>, V)>)
    requires
        distinct_keys(s),
    ensures
        entries_map(s).dom().finite(),
        entries_map(s).dom().len() == s.len(),
    decreases s.len(),
{
    if s.len() == 0 {
        assert(entries_map(s).dom() =~= Set::<Seq<char>>::empty());
    } else {
        let t = s.drop_last();
        let last = s.last();
        assert forall|i: int, j: int| 0 <= i < j < t.len() implies (#[trigger] t[i]).0 != (
        #[trigger] t[j]).0 by {
            assert(s[i].0 != s[j].0);
        }
        if has_key(t, last.0) {
            let i = key_index(t, last.0);
            assert(s[i].0 != s[s.len() - 1].0);
        }
        lemma_map_len(t);
        lemma_map_push(t, last.0, last.1);
        assert(t.push((last.0, last.1)) =~= s);
        assert(entries_map(s).dom() =~= entries_map(t).dom().insert(last.0));
        assert(!entries_map(t).dom().contains(last.0));
    }
}

/// A map from strings to `V` that remembers the order of insertion.
#[derive(Debug)]
pub struct StrMap<V> {
    items: Vec<(String, V)>,
}

impl<V> View for StrMap<V> {
    type V = Map<Seq<char>, V>;

    open spec fn view(&self) -> Map<Seq<char>, V> {
        entries_map(self.entries())
    }
}

impl<V> StrMap<V> {
    /// The entries in insertion order, each key by its characters.
    pub closed spec fn entries(&self) -> Seq<(Seq<char>, V)> {
        self.items@.map_values(|p: (String, V)| (p.0@, p.1))
    }

    /// Every map value satisfies this: no key occurs twice.
    #[verifier::type_invariant]
    pub open spec fn wf(&self) -> bool {
        distinct_keys(self.entries())
    }

    /// The empty map.
    pub fn new() -> (m: Self)
        ensures
            m.entries() == Seq::<(Seq<char>, V)>::empty(),
            m@ == Map::<Seq<char>, V>::empty(),
    {
        let m = StrMap { items: Vec::new() };
        assert(m.entries() =~= Seq::<(Seq<char>, V)>::empty());
        assert(m@ =~= Map::<Seq<char>, V>::empty());
        m
    }

    /// The number of entries.
    pub fn len(&self) -> (n: usize)
        ensures
            n == self.entries().len(),
            n == self@.dom().len(),
            self.wf(),
    {
        proof {
            use_type_invariant(self);
            lemma_map_len(self.entries());
        }
        self.items.len()
    }

    /// The position of `key` in insertion order, if the map holds it.
    pub fn index_of(&self, key: &String) -> (r: Option<usize>)
        ensures
            self.wf(),
            match r {
                Some(i) => i < self.entries().len() && self.entries()[i as int].0 == key@
                    && self@.contains_key(key@) && self@[key@] == self.entries()[i as int].1,
                None => !has_key(self.entries(), key@) && !self@.contains_key(key@),
            },
    {
        proof {
            use_type_invariant(self);
        }
        let mut i: usize = 0;
        while i < self.items.len()
            invariant
                self.wf(),
                i <= self.items.len(),
                forall|j: int| 0 <= j < i ==> (#[trigger] self.entries()[j]).0 != key@,
            decreases self.items.len() - i,
        {
            if self.items[i].0 == *key {
                proof {
                    lemma_entry_in_map(self.entries(), i as int);
                }
                return Some(i);
            }
            i += 1;
        }
        None
    }

    /// Whether the map holds `key`.
    pub fn contains_key(&self, key: &String) -> (b: bool)
        ensures
            b == self@.contains_key(key@),
    {
        self.index_of(key).is_some()
    }

    /// The value stored under `key`, if any.
    pub fn get(&self, key: &String) -> (r: Option<&V>)
        ensures
            match r {
                Some(v) => self@.contains_key(key@) && *v == self@[key@],
                None => !self@.contains_key(key@),
            },
    {
        match self.index_of(key) {
            Some(i) => Some(&self.items[i].1),
            None => None,
        }
    }

    /// The key at position `i` of the insertion order.
    pub fn key_at(&self, i: usize) -> (k: &String)
        requires
            i < self.entries().len(),
        ensures
            k@ == self.entries()[i as int].0,
            self.wf(),
            self@.contains_key(k@),
    {
        proof {
            use_type_invariant(self);
            lemma_entry_in_map(self.entries(), i as int);
        }
        &self.items[i].0
    }

    /// The value at position `i` of the insertion order.
    pub fn value_at(&self, i: usize) -> (v: &V)
        requires
            i < self.entries().len(),
        ensures
            *v == self.entries()[i as int].1,
            self.wf(),
            self@.contains_key(self.entries()[i as int].0),
            self@[self.entries()[i as int].0] == *v,
    {
        proof {
            use_type_invariant(self);
            lemma_entry_in_map(self.entries(), i as int);
        }
        &self.items[i].1
    }

    /// Stores `value` under `key`. A key that is already present keeps its
    /// position; a new key goes to the end.
    pub fn insert(&mut self, key: String, value: V)
        ensures
            final(self)@ == old(self)@.insert(key@, value),
            final(self).wf(),
            match old(self).spec_index_of(key@) {
                Some(i) => final(self).entries() == old(self).entries().update(i, (key@, value)),
                None => final(self).entries() == old(self).entries().push((key@, value)),
            },
    {
        proof {
            use_type_invariant(&*self);
        }
        let found = self.index_of(&key);
        let ghost before = self.entries();
        let mut items: Vec<(String, V)> = Vec::new();
        std::mem::swap(&mut items, &mut self.items);
        match found {
            Some(i) => {
                proof {
                    lemma_map_update(before, i as int, value);
                    lemma_entry_in_map(before, i as int);
                }
                items.set(i, (key, value));
                assert(items@.map_values(|p: (String, V)| (p.0@, p.1)) =~= before.update(
                    i as int,
                    (key@, value),
                ));
            },
            None => {
                proof {
                    lemma_map_push(before, key@, value);
                }
                items.push((key, value));
                assert(items@.map_values(|p: (String, V)| (p.0@, p.1)) =~= before.push(
                    (key@, value),
                ));
            },
        }
        self.items = items;
    }

    /// Where `k` stands in the insertion order, as a specification.
    pub open spec fn spec_index_of(&self, k: Seq<char>) -> Option<int> {
        if has_key(self.entries(), k) {
            Some(key_index(self.entries(), k))
        } else {
            None
        }
    }

    /// Takes `key` out of the map; the other entries keep their order.
    pub fn remove(&mut self, key: &String)
        ensures
            final(self)@ == old(self)@.remove(key@),
            final(self).wf(),
            match old(self).spec_index_of(key@) {
                Some(i) => final(self).entries() == old(self).entries().remove(i),
                None => final(self).entries() == old(self).entries(),
            },
    {
        proof {
            use_type_invariant(&*self);
        }
        let found = self.index_of(key);
        let ghost before = self.entries();
        match found {
            Some(i) => {
                let mut items: Vec<(String, V)> = Vec::new();
                std::mem::swap(&mut items, &mut self.items);
                proof {
                    lemma_map_remove(before, i as int);
                    lemma_entry_in_map(before, i as int);
                }
                let _ = items.remove(i);
                assert(items@.map_values(|p: (String, V)| (p.0@, p.1)) =~= before.remove(
                    i as int,
                ));
                self.items = items;
            },
            None => {
                assert(self@ =~= old(self)@.remove(key@));
            },
        }
    }

    /// Puts `value` at position `i`, keeping the key, and hands out the value
    /// that stood there.
    pub fn swap_value_at(&mut self, i: usize, value: V) -> (held: V)
        requires
            i < old(self).entries().len(),
        ensures
            held == old(self).entries()[i as int].1,
            final(self).entries() == old(self).entries().update(
                i as int,
                (old(self).entries()[i as int].0, value),
            ),
            final(self)@ == old(self)@.insert(old(self).entries()[i as int].0, value),
            final(self).wf(),
    {
        proof {
            use_type_invariant(&*self);
        }
        let ghost before = self.entries();
        let mut items: Vec<(String, V)> = Vec::new();
        std::mem::swap(&mut items, &mut self.items);
        proof {
            lemma_map_update(before, i as int, value);
        }
        let mut held = value;
        std::mem::swap(&mut items[i].1, &mut held);
        assert(items@.map_values(|p: (String, V)| (p.0@, p.1)) =~= before.update(
            i as int,
            (before[i as int].0, value),
        ));
        self.items = items;
        held
    }

    /// Replaces the value at position `i`, keeping its key.
    pub fn set_value_at(&mut self, i: usize, value: V)
        requires
            i < old(self).entries().len(),
        ensures
            final(self).entries() == old(self).entries().update(
                i as int,
                (old(self).entries()[i as int].0, value),
            ),
            final(self)@ == old(self)@.insert(old(self).entries()[i as int].0, value),
            final(self).wf(),
    {
        proof {
            use_type_invariant(&*self);
        }
        let ghost before = self.entries();
        let mut items: Vec<(String, V)> = Vec::new();
        std::mem::swap(&mut items, &mut self.items);
        proof {
            lemma_map_update(before, i as int, value);
        }
        let key = items[i].0.clone();
        items.set(i, (key, value));
        assert(items@.map_values(|p: (String, V)| (p.0@, p.1)) =~= before.update(
            i as int,
            (before[i as int].0, value),
        ));
        self.items = items;
    }
}

/// The first `k` entries of a duplicate-free list are duplicate-free, and
/// taking one more of them adds its key to the map.
pub proof fn lemma_map_take<V>(s: Seq<(Seq<char>, V)>, k: int)
    requires
        distinct_keys(s),
        0 <= k < s.len(),
    ensures
        distinct_keys(s.subrange(0, k)),
        distinct_keys(s.subrange(0, k + 1)),
        !has_key(s.subrange(0, k), s[k].0),
        entries_map(s.subrange(0, k + 1)) == entries_map(s.subrange(0, k)).insert(s[k].0, s[k].1),
{
    let t = s.subrange(0, k);
    assert forall|i: int, j: int| 0 <= i < j < t.len() implies (#[trigger] t[i]).0 != (
    #[trigger] t[j]).0 by {
        assert(s[i].0 != s[j].0);
    }
    if has_key(t, s[k].0) {
        let i = key_index(t, s[k].0);
        assert(s[i].0 != s[k].0);
    }
    lemma_map_push(t, s[k].0, s[k].1);
    assert(t.push((s[k].0, s[k].1)) =~= s.subrange(0, k + 1));
}

impl<V: Copy> StrMap<V> {
    /// A copy of the map, entry by entry.
    pub fn duplicate(&self) -> (r: Self)
        ensures
            r.entries() == self.entries(),
            r@ == self@,
    {
        proof {
            use_type_invariant(self);
        }
        let mut items: Vec<(String, V)> = Vec::new();
        let mut i: usize = 0;
        while i < self.items.len()
            invariant
                i <= self.items.len(),
                items@.len() == i,
                forall|j: int|
                    0 <= j < i ==> (#[trigger] items@[j]).0@ == self.items@[j].0@ && items@[j].1
                        == self.items@[j].1,
            decreases self.items.len() - i,
        {
            let key = self.items[i].0.clone();
            let value = self.items[i].1;
            items.push((key, value));
            i += 1;
        }
        assert(items@.map_values(|p: (String, V)| (p.0@, p.1)) =~= self.entries());
        StrMap { items }
    }
}

impl StrMap<String> {
    /// A copy of a map from strings to strings.
    pub fn duplicate_text(&self) -> (r: Self)
        ensures
            r.entries() == self.entries(),
            r@ == self@,
    {
        proof {
            use_type_invariant(self);
        }
        let mut items: Vec<(String, String)> = Vec::new();
        let mut i: usize = 0;
        while i < self.items.len()
            invariant
                i <= self.items.len(),
                items@.len() == i,
                forall|j: int|
                    0 <= j < i ==> (#[trigger] items@[j]).0@ == self.items@[j].0@ && items@[j].1
                        == self.items@[j].1,
            decreases self.items.len() - i,
        {
            let key = self.items[i].0.clone();
            let value = self.items[i].1.clone();
            items.push((key, value));
            i += 1;
        }
        assert(items@.map_values(|p: (String, String)| (p.0@, p.1)) =~= self.entries());
        StrMap { items }
    }
}

impl StrMap<Vec<i32>> {
    /// A copy of a map from strings to vectors of numbers.
    pub fn duplicate_rows(&self) -> (r: Self)
        ensures
            r.entries().len() == self.entries().len(),
            forall|i: int|
                0 <= i < r.entries().len() ==> (#[trigger] r.entries()[i]).0 == self.entries()[i].0
                    && r.entries()[i].1@ == self.entries()[i].1@,
    {
        proof {
            use_type_invariant(self);
        }
        let mut items: Vec<(String, Vec<i32>)> = Vec::new();
        let mut i: usize = 0;
        while i < self.items.len()
            invariant
                i <= self.items.len(),
                items@.len() == i,
                forall|j: int|
                    0 <= j < i ==> (#[trigger] items@[j]).0@ == self.items@[j].0@ && items@[j].1@
                        == self.items@[j].1@,
            decreases self.items.len() - i,
        {
            let key = self.items[i].0.clone();
            let source = &self.items[i].1;
            let mut value: Vec<i32> = Vec::new();
            let mut k: usize = 0;
            while k < source.len()
                invariant
                    k <= source@.len(),
                    value@ == source@.subrange(0, k as int),
                decreases source.len() - k,
            {
                value.push(source[k]);
                assert(value@ =~= source@.subrange(0, k + 1));
                k += 1;
            }
            assert(source@.subrange(0, k as int) =~= source@);
            items.push((key, value));
            i += 1;
        }
        let ghost mine = self.entries();
        let ghost theirs = items@.map_values(|p: (String, Vec<i32>)| (p.0@, p.1));
        assert forall|a: int, b: int| 0 <= a < b < theirs.len() implies (#[trigger] theirs[a]).0 != (
        #[trigger] theirs[b]).0 by {
            assert(mine[a].0 != mine[b].0);
        }
        StrMap { items }
    }
}

} // verus!
