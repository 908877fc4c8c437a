//! A map keyed by strings, kept as an association list whose keys never repeat.
//!
//! Resource sets and node labels are small, so a vector of entries serves
//! them; its abstract value is a finite `Map` from the key's characters to the
//! value's view.

use vstd::prelude::*;

verus! {

/// The map described by a sequence of entries: a later entry for a key
/// replaces an earlier one.
pub open spec fn map_of<K, V>(s: Seq<(K, V)>) -> Map<K, V>
    decreases s.len(),
{
    if s.len() == 0 {
        Map::empty()
    } else {
        map_of(s.drop_last()).insert(s.last().0, s.last().1)
    }
}

/// No key occurs twice in the sequence of entries.
pub open spec fn keys_distinct<K, V>(s: Seq<(K, V)>) -> bool {
    forall|i: int, j: int| 0 <= i < s.len() && 0 <= j < s.len() && i != j ==> s[i].0 != s[j].0
}

/// A key is in the map of a sequence exactly when some entry carries it.
pub proof fn lemma_map_of_dom<K, V>(s: Seq<(K, V)>, k: K)
    ensures
        map_of(s).contains_key(k) <==> exists|i: int| 0 <= i < s.len() && s[i].0 == k,
    decreases s.len(),
{
    if s.len() > 0 {
        lemma_map_of_dom(s.drop_last(), k);
        if map_of(s.drop_last()).contains_key(k) {
            let i = choose|i: int| 0 <= i < s.drop_last().len() && s.drop_last()[i].0 == k;
            assert(s[i].0 == k);
        }
        if exists|i: int| 0 <= i < s.len() && s[i].0 == k {
            let i = choose|i: int| 0 <= i < s.len() && s[i].0 == k;
            if i < s.len() - 1 {
                assert(s.drop_last()[i].0 == k);
            }
        }
    }
}

/// With distinct keys, each entry gives the value of its key in the map.
pub proof fn lemma_map_of_value<K, V>(s: Seq<(K, V)>, i: int)
    requires
        keys_distinct(s),
        0 <= i < s.len(),
    ensures
        map_of(s).contains_key(s[i].0),
        map_of(s)[s[i].0] == s[i].1,
    decreases s.len(),
{
    if i < s.len() - 1 {
        let t = s.drop_last();
        assert(keys_distinct(t));
        lemma_map_of_value(t, i);
        assert(t[i] == s[i]);
        assert(s.last().0 != s[i].0);
    }
}

/// Replacing the value of an entry replaces the value of its key in the map.
pub proof fn lemma_map_of_update<K, V>(s: Seq<(K, V)>, i: int, v: V)
    requires
        keys_distinct(s),
        0 <= i < s.len(),
    ensures
        map_of(s.update(i, (s[i].0, v))) =~= map_of(s).insert(s[i].0, v),
        keys_distinct(s.update(i, (s[i].0, v))),
    decreases s.len(),
{
    let u = s.update(i, (s[i].0, v));
    if i == s.len() - 1 {
        assert(u.drop_last() =~= s.drop_last());
    } else {
        let t = s.drop_last();
        assert(keys_distinct(t));
        lemma_map_of_update(t, i, v);
        assert(u.drop_last() =~= t.update(i, (t[i].0, v)));
        assert(s.last().0 != s[i].0);
    }
}

/// Pushing an entry with a new key adds that key to the map.
pub proof fn lemma_map_of_push<K, V>(s: Seq<(K, V)>, k: K, v: V)
    requires
        keys_distinct(s),
        !map_of(s).contains_key(k),
    ensures
        map_of(s.push((k, v))) =~= map_of(s).insert(k, v),
        keys_distinct(s.push((k, v))),
{
    lemma_map_of_dom(s, k);
    let t = s.push((k, v));
    assert(t.drop_last() =~= s);
    assert forall|a: int, b: int| 0 <= a < t.len() && 0 <= b < t.len() && a != b implies #[trigger] t[a].0
        != #[trigger] t[b].0 by {
        if a == s.len() {
            assert(s[b].0 != k);
        } else if b == s.len() {
            assert(s[a].0 != k);
        }
    }
}

/// Removing an entry removes its key from the map.
pub proof fn lemma_map_of_remove<K, V>(s: Seq<(K, V)>, i: int)
    requires
        keys_distinct(s),
        0 <= i < s.len(),
    ensures
        map_of(s.remove(i)) =~= map_of(s).remove(s[i].0),
        keys_distinct(s.remove(i)),
    decreases s.len(),
{
    let r = s.remove(i);
    if i == s.len() - 1 {
        assert(r =~= s.drop_last());
        lemma_map_of_dom(s.drop_last(), s[i].0);
    } else {
        let t = s.drop_last();
        assert(keys_distinct(t));
        lemma_map_of_remove(t, i);
        assert(r.drop_last() =~= t.remove(i));
        assert(r.last() == s.last());
        assert(s.last().0 != s[i].0);
    }
}

/// The keys of the entries of a sequence, in order.
pub open spec fn keys_of<V>(s: Seq<(Seq<char>, V)>) -> Seq<Seq<char>> {
    s.map_values(|e: (Seq<char>, V)| e.0)
}

/// Each stored entry as the key's characters and the value's view.
pub open spec fn view_entries<V: View>(s: Seq<(String, V)>) -> Seq<(Seq<char>, V::V)> {
    s.map_values(|e: (String, V)| (e.0@, e.1@))
}

/// A map from strings to values, with the keys kept distinct.
pub struct StrMap<V: View> {
    entries: Vec<(String, V)>,
}

impl<V: View> StrMap<V> {
    /// The entries, each as the key's characters and the value's view, in
    /// the order in which they are stored.
    pub closed spec fn entry_seq(&self) -> Seq<(Seq<char>, V::V)> {
        view_entries(self.entries@)
    }

    #[verifier::type_invariant]
    spec fn inv(&self) -> bool {
        keys_distinct(self.entry_seq())
    }

    /// The stored keys in order.
    pub open spec fn key_seq(&self) -> Seq<Seq<char>> {
        keys_of(self.entry_seq())
    }

    /// Every stored key is in the map, and every key of the map is stored
    /// at some position.
    pub proof fn lemma_keys(&self)
        ensures
            forall|i: int| 0 <= i < self.key_seq().len() ==> #[trigger] self@.contains_key(self.key_seq()[i]),
            forall|k: Seq<char>| #[trigger] self@.contains_key(k) ==> exists|i: int|
                0 <= i < self.key_seq().len() && self.key_seq()[i] == k,
    {
        let s = self.entry_seq();
        assert forall|i: int| 0 <= i < self.key_seq().len() implies #[trigger] self@.contains_key(self.key_seq()[i]) by {
            lemma_map_of_dom(s, s[i].0);
        }
        assert forall|k: Seq<char>| #[trigger] self@.contains_key(k) implies exists|i: int|
            0 <= i < self.key_seq().len() && self.key_seq()[i] == k by {
            lemma_map_of_dom(s, k);
            let i = choose|i: int| 0 <= i < s.len() && s[i].0 == k;
            assert(self.key_seq()[i] == k);
        }
    }

    /// An empty map.
    pub fn new() -> (m: Self)
        ensures
            m@ == Map::<Seq<char>, V::V>::empty(),
            m.key_seq().len() == 0,
    {
        let m = StrMap { entries: Vec::new() };
        assert(m.entry_seq() =~= Seq::empty());
        m
    }

    /// The number of stored entries.
    pub fn len(&self) -> (n: usize)
        ensures
            n == self.key_seq().len(),
            self.key_seq().no_duplicates(),
    {
        proof {
            use_type_invariant(self);
        }
        self.entries.len()
    }

    /// The key stored at position `i`.
    pub fn key_at(&self, i: usize) -> (k: &String)
        requires
            i < self.key_seq().len(),
        ensures
            k@ == self.key_seq()[i as int],
            self@.contains_key(k@),
    {
        proof {
            lemma_map_of_dom(self.entry_seq(), self.entry_seq()[i as int].0);
        }
        &self.entries[i].0
    }

    /// The value stored at position `i`.
    pub fn value_at(&self, i: usize) -> (v: &V)
        requires
            i < self.key_seq().len(),
        ensures
            self@.contains_key(self.key_seq()[i as int]),
            v@ == self@[self.key_seq()[i as int]],
    {
        proof {
            use_type_invariant(self);
            lemma_map_of_value(self.entry_seq(), i as int);
        }
        &self.entries[i].1
    }

    /// The position of `key`, if it is stored.
    fn find(&self, key: &String) -> (r: Option<usize>)
        ensures
            match r {
                Some(i) => i < self.key_seq().len() && self.key_seq()[i as int] == key@
                    && self@.contains_key(key@),
                None => !self@.contains_key(key@),
            },
    {
        let mut i: usize = 0;
        while i < self.entries.len()
            invariant
                i <= self.entries@.len(),
                forall|j: int| 0 <= j < i ==> self.key_seq()[j] != key@,
            decreases self.entries@.len() - i,
        {
            if self.entries[i].0 == *key {
                proof {
                    lemma_map_of_dom(self.entry_seq(), key@);
                    assert(self.entry_seq()[i as int].0 == key@);
                }
                return Some(i);
            }
            i = i + 1;
        }
        proof {
            lemma_map_of_dom(self.entry_seq(), key@);
            if self@.contains_key(key@) {
                let j = choose|j: int| 0 <= j < self.entry_seq().len() && self.entry_seq()[j].0 == key@;
                assert(self.key_seq()[j] == key@);
            }
        }
        None
    }

    /// Whether `key` is in the map.
    pub fn contains_key(&self, key: &str) -> (b: bool)
        ensures
            b == self@.contains_key(key@),
    {
        let k = key.to_owned();
        self.find(&k).is_some()
    }

    /// The value of `key`, if it is in the map.
    pub fn get(&self, key: &str) -> (r: Option<&V>)
        ensures
            match r {
                Some(v) => self@.contains_key(key@) && v@ == self@[key@],
                None => !self@.contains_key(key@),
            },
    {
        let k = key.to_owned();
        match self.find(&k) {
            Some(i) => Some(self.value_at(i)),
            None => None,
        }
    }

    /// Sets the value of `key`, adding the key where it is not yet in the map.
    pub fn insert(&mut self, key: String, value: V)
        ensures
            final(self)@ == old(self)@.insert(key@, value@),
    {
        proof {
            use_type_invariant(&*self);
        }
        let ghost k = key@;
        let ghost vv = value@;
        let ghost s = self.entry_seq();
        match self.find(&key) {
            Some(i) => {
                proof {
                    lemma_map_of_update(s, i as int, vv);
                }
                let mut entries: Vec<(String, V)> = Vec::new();
                std::mem::swap(&mut entries, &mut self.entries);
                entries.set(i, (key, value));
                assert(view_entries(entries@) =~= s.update(
                    i as int,
                    (s[i as int].0, vv),
                ));
                self.entries = entries;
            },
            None => {
                proof {
                    lemma_map_of_dom(s, k);
                    assert forall|a: int, b: int|
                        0 <= a < s.len() + 1 && 0 <= b < s.len() + 1 && a != b implies
                        #[trigger] s.push((k, vv))[a].0 != #[trigger] s.push((k, vv))[b].0 by {
                        if a == s.len() {
                            assert(s[b].0 != k);
                        } else if b == s.len() {
                            assert(s[a].0 != k);
                        }
                    }
                }
                let mut entries: Vec<(String, V)> = Vec::new();
                std::mem::swap(&mut entries, &mut self.entries);
                entries.push((key, value));
                assert(view_entries(entries@) =~= s.push((k, vv)));
                self.entries = entries;
                assert(self.entry_seq().drop_last() =~= s);
            },
        }
    }
}

impl<V: View> View for StrMap<V> {
    type V = Map<Seq<char>, V::V>;

    closed spec fn view(&self) -> Map<Seq<char>, V::V> {
        map_of(self.entry_seq())
    }
}

/// Fixed-point resource quantities keyed by resource name.
pub type ResourceSet = StrMap<i64>;

/// Node labels: label values keyed by label name.
pub type LabelMap = StrMap<String>;

impl StrMap<i64> {
    /// A copy of the resource set.
    pub fn duplicate(&self) -> (r: Self)
        ensures
            r@ == self@,
    {
        proof {
            use_type_invariant(self);
        }
        let mut entries: Vec<(String, i64)> = Vec::new();
        let mut i: usize = 0;
        while i < self.entries.len()
            invariant
                i <= self.entries@.len(),
                entries@.len() == i,
                forall|j: int| 0 <= j < i ==> (#[trigger] entries@[j]).0@ == self.entries@[j].0@
                    && entries@[j].1 == self.entries@[j].1,
            decreases self.entries@.len() - i,
        {
            let k = self.entries[i].0.clone();
            let v = self.entries[i].1;
            entries.push((k, v));
            i = i + 1;
        }
        assert(view_entries(entries@) =~= self.entry_seq());
        let r = StrMap { entries };
        r
    }

    /// The quantity of `key`, or zero where the key is absent.
    pub fn get_or_zero(&self, key: &str) -> (q: i64)
        ensures
            q == amount_of(self@, key@),
    {
        match self.get(key) {
            Some(v) => *v,
            None => 0,
        }
    }
}

impl StrMap<String> {
    /// A copy of the label map.
    pub fn duplicate(&self) -> (r: Self)
        ensures
            r@ == self@,
    {
        proof {
            use_type_invariant(self);
        }
        let mut entries: Vec<(String, String)> = Vec::new();
        let mut i: usize = 0;
        while i < self.entries.len()
            invariant
                i <= self.entries@.len(),
                entries@.len() == i,
                forall|j: int| 0 <= j < i ==> (#[trigger] entries@[j]).0@ == self.entries@[j].0@
                    && entries@[j].1@ == self.entries@[j].1@,
            decreases self.entries@.len() - i,
        {
            let k = self.entries[i].0.clone();
            let v = self.entries[i].1.clone();
            entries.push((k, v));
            i = i + 1;
        }
        assert(view_entries(entries@) =~= self.entry_seq());
        let r = StrMap { entries };
        r
    }
}

/// The quantity recorded for `key`, or zero where the key is absent.
pub open spec fn amount_of(m: Map<Seq<char>, i64>, key: Seq<char>) -> i64 {
    if m.contains_key(key) {
        m[key]
    } else {
        0
    }
}

} // verus!
