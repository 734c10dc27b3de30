//! A map from strings to strings that keeps its entries in the order in
//! which their keys first arrived.

use vstd::prelude::*;
use vstd::string::*;
use crate::http::text::same_text;

verus! {

/// String keys with string values. A key occurs once; a second `insert`
/// under the same key replaces the value and keeps the entry's place.
pub struct StringMap {
    entries: Vec<(String, String)>,
}

/// The entries as pairs of views.
pub open spec fn pair_views(entries: Seq<(String, String)>) -> Seq<(Seq<char>, Seq<char>)> {
    Seq::new(entries.len(), |i: int| (entries[i].0@, entries[i].1@))
}

/// No two entries share a key.
pub open spec fn distinct_keys(entries: Seq<(Seq<char>, Seq<char>)>) -> bool {
    forall|i: int, j: int|
        0 <= i < j < entries.len() ==> (#[trigger] entries[i]).0 != (#[trigger] entries[j]).0
}

/// Whether some entry has the key `key`.
pub open spec fn has_key(entries: Seq<(Seq<char>, Seq<char>)>, key: Seq<char>) -> bool {
    exists|i: int| 0 <= i < entries.len() && (#[trigger] entries[i]).0 == key
}

/// The place of an entry with the key `key`.
pub open spec fn place_of(entries: Seq<(Seq<char>, Seq<char>)>, key: Seq<char>) -> int {
    choose|i: int| 0 <= i < entries.len() && (#[trigger] entries[i]).0 == key
}

/// The map that a sequence of entries stands for.
pub open spec fn map_of(entries: Seq<(Seq<char>, Seq<char>)>) -> Map<Seq<char>, Seq<char>> {
    Map::new(|key: Seq<char>| has_key(entries, key), |key: Seq<char>| entries[place_of(entries, key)].1)
}

/// The entries after `key` is set to `value`: replaced in place where the
/// key is there already, appended otherwise.
pub open spec fn entries_with(
    entries: Seq<(Seq<char>, Seq<char>)>,
    key: Seq<char>,
    value: Seq<char>,
) -> Seq<(Seq<char>, Seq<char>)> {
    if has_key(entries, key) {
        entries.update(place_of(entries, key), (key, value))
    } else {
        entries.push((key, value))
    }
}

/// The entries `entries` after every entry of `more` is set, in the order
/// of `more`.
pub open spec fn entries_with_all(
    entries: Seq<(Seq<char>, Seq<char>)>,
    more: Seq<(Seq<char>, Seq<char>)>,
) -> Seq<(Seq<char>, Seq<char>)>
    decreases more.len(),
{
    if more.len() == 0 {
        entries
    } else {
        entries_with(entries_with_all(entries, more.drop_last()), more.last().0, more.last().1)
    }
}

/// Setting a key in the entries is `insert` on the map they stand for, and
/// keeps the keys distinct.
pub proof fn lemma_entries_with(entries: Seq<(Seq<char>, Seq<char>)>, key: Seq<char>, value: Seq<char>)
    requires
        distinct_keys(entries),
    ensures
        distinct_keys(entries_with(entries, key, value)),
        map_of(entries_with(entries, key, value)) == map_of(entries).insert(key, value),
{
    let after = entries_with(entries, key, value);
    let at = if has_key(entries, key) {
        place_of(entries, key)
    } else {
        entries.len() as int
    };
    assert(after[at] == (key, value));
    assert(forall|i: int| 0 <= i < entries.len() && i != at ==> after[i] == entries[i]);
    assert forall|k: Seq<char>| #[trigger] has_key(after, k) == (k == key || has_key(entries, k)) by {
        if has_key(after, k) {
            let i = place_of(after, k);
            if i != at {
                assert(entries[i].0 == k);
            }
        }
        if k == key {
            assert(after[at].0 == k);
        } else if has_key(entries, k) {
            let i = place_of(entries, k);
            assert(after[i].0 == k);
        }
    }
    assert forall|k: Seq<char>| has_key(after, k) implies #[trigger] map_of(after)[k] == map_of(
        entries,
    ).insert(key, value)[k] by {
        let i = place_of(after, k);
        if k == key {
            assert(after[at].0 == key);
            assert(i == at);
        } else {
            assert(i != at);
            assert(entries[i].0 == k);
            let j = place_of(entries, k);
            assert(i == j);
        }
    }
    assert(map_of(after) =~= map_of(entries).insert(key, value));
}

impl View for StringMap {
    type V = Map<Seq<char>, Seq<char>>;

    closed spec fn view(&self) -> Map<Seq<char>, Seq<char>> {
        map_of(pair_views(self.entries@))
    }
}

impl StringMap {
    #[verifier::type_invariant]
    spec fn keys_are_distinct(&self) -> bool {
        distinct_keys(pair_views(self.entries@))
    }

    /// The entries in order, each as a pair of key and value.
    pub closed spec fn entries(&self) -> Seq<(Seq<char>, Seq<char>)> {
        pair_views(self.entries@)
    }

    /// The view is the map that the entries stand for.
    pub proof fn lemma_view(&self)
        ensures
            self@ == map_of(self.entries()),
    {
    }

    /// The empty map.
    pub fn new() -> (map: StringMap)
        ensures
            map@ == Map::<Seq<char>, Seq<char>>::empty(),
            map.entries() == Seq::<(Seq<char>, Seq<char>)>::empty(),
    {
        let map = StringMap { entries: Vec::new() };
        assert(map.entries() =~= Seq::<(Seq<char>, Seq<char>)>::empty());
        assert(map@ =~= Map::<Seq<char>, Seq<char>>::empty());
        map
    }

    /// The number of entries.
    pub fn len(&self) -> (n: usize)
        ensures
            n == self.entries().len(),
            n == self@.len(),
            distinct_keys(self.entries()),
    {
        proof {
            use_type_invariant(self);
            lemma_map_of_len(self.entries());
        }
        self.entries.len()
    }

    fn find(&self, key: &str) -> (found: Option<usize>)
        ensures
            match found {
                Some(i) => i < self.entries().len() && self.entries()[i as int].0 == key@
                    && has_key(self.entries(), key@) && place_of(self.entries(), key@) == i,
                None => !has_key(self.entries(), key@),
            },
    {
        proof {
            use_type_invariant(self);
        }
        let mut i: usize = 0;
        while i < self.entries.len()
            invariant
                i <= self.entries@.len(),
                forall|j: int| 0 <= j < i ==> (#[trigger] self.entries()[j]).0 != key@,
                distinct_keys(self.entries()),
            decreases self.entries@.len() - i,
        {
            if same_text(self.entries[i].0.as_str(), key) {
                assert(self.entries()[i as int].0 == key@);
                return Some(i);
            }
            i = i + 1;
        }
        None
    }

    /// Sets `key` to `value`. An entry with this key keeps its place and
    /// gets the new value; a new key goes to the end.
    pub fn insert(&mut self, key: String, value: String)
        ensures
            final(self)@ == old(self)@.insert(key@, value@),
            final(self).entries() == entries_with(old(self).entries(), key@, value@),
    {
        proof {
            use_type_invariant(&*self);
            lemma_entries_with(self.entries(), key@, value@);
        }
        let ghost before = self.entries();
        match self.find(key.as_str()) {
            Some(i) => {
                let mut entries = Vec::new();
                std::mem::swap(&mut entries, &mut self.entries);
                entries.set(i, (key, value));
                assert(pair_views(entries@) =~= entries_with(before, key@, value@));
                self.entries = entries;
            },
            None => {
                let mut entries = Vec::new();
                std::mem::swap(&mut entries, &mut self.entries);
                entries.push((key, value));
                assert(pair_views(entries@) =~= entries_with(before, key@, value@));
                self.entries = entries;
            },
        }
    }

    /// Sets every key of `other` to its value there, in the order of the
    /// entries of `other`.
    pub fn extend(&mut self, other: &StringMap)
        ensures
            final(self)@ == old(self)@.union_prefer_right(other@),
            final(self).entries() == entries_with_all(old(self).entries(), other.entries()),
    {
        proof {
            use_type_invariant(other);
        }
        let ghost all = other.entries();
        let mut i: usize = 0;
        proof {
            assert(map_of(all.take(0)) =~= Map::<Seq<char>, Seq<char>>::empty());
            assert(self@ =~= old(self)@.union_prefer_right(map_of(all.take(0))));
            assert(all.take(0) =~= Seq::<(Seq<char>, Seq<char>)>::empty());
        }
        while i < other.entries.len()
            invariant
                i <= all.len(),
                all == other.entries(),
                distinct_keys(all),
                self@ == old(self)@.union_prefer_right(map_of(all.take(i as int))),
                self.entries() == entries_with_all(old(self).entries(), all.take(i as int)),
            decreases all.len() - i,
        {
            proof {
                let seen = all.take(i as int);
                let next = all[i as int];
                assert(distinct_keys(seen));
                assert(!has_key(seen, next.0)) by {
                    if has_key(seen, next.0) {
                        let j = place_of(seen, next.0);
                        assert(all[j].0 == all[i as int].0);
                    }
                }
                assert(entries_with(seen, next.0, next.1) =~= all.take(i + 1));
                assert(all.take(i + 1).drop_last() =~= seen);
                assert(all.take(i + 1).last() == next);
                lemma_entries_with(seen, next.0, next.1);
                assert(old(self)@.union_prefer_right(map_of(seen)).insert(next.0, next.1) =~= old(
                    self,
                )@.union_prefer_right(map_of(seen).insert(next.0, next.1)));
            }
            self.insert(other.entries[i].0.clone(), other.entries[i].1.clone());
            i = i + 1;
        }
        proof {
            assert(all.take(i as int) =~= all);
        }
    }

    /// The value under `key`, if there is one.
    pub fn get(&self, key: &str) -> (value: Option<&String>)
        ensures
            match value {
                Some(v) => self@.contains_key(key@) && v@ == self@[key@],
                None => !self@.contains_key(key@),
            },
    {
        match self.find(key) {
            Some(i) => Some(&self.entries[i].1),
            None => None,
        }
    }

    /// Whether `key` has a value.
    pub fn contains_key(&self, key: &str) -> (present: bool)
        ensures
            present == self@.contains_key(key@),
    {
        self.find(key).is_some()
    }

    /// The key of the entry at place `i`.
    pub fn key_at(&self, i: usize) -> (key: &String)
        requires
            i < self.entries().len(),
        ensures
            key@ == self.entries()[i as int].0,
    {
        &self.entries[i].0
    }

    /// The value of the entry at place `i`.
    pub fn value_at(&self, i: usize) -> (value: &String)
        requires
            i < self.entries().len(),
        ensures
            value@ == self.entries()[i as int].1,
    {
        &self.entries[i].1
    }
}

/// A map of entries with distinct keys has as many keys as there are
/// entries.
pub proof fn lemma_map_of_len(entries: Seq<(Seq<char>, Seq<char>)>)
    requires
        distinct_keys(entries),
    ensures
        map_of(entries).dom().finite(),
        map_of(entries).len() == entries.len(),
    decreases entries.len(),
{
    if entries.len() == 0 {
        assert(map_of(entries) =~= Map::<Seq<char>, Seq<char>>::empty());
    } else {
        let init = entries.drop_last();
        let last = entries.last();
        lemma_map_of_len(init);
        assert(!has_key(init, last.0)) by {
            if has_key(init, last.0) {
                let i = place_of(init, last.0);
                assert(entries[i].0 == entries[entries.len() - 1].0);
            }
        }
        assert(entries_with(init, last.0, last.1) =~= entries);
        lemma_entries_with(init, last.0, last.1);
    }
}

} // verus!
