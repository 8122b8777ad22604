//! A map from strings to values, kept as a list of entries with distinct keys.

use crate::text::str_eq;
use vstd::prelude::*;

verus! {

/// A finite map keyed by strings. Its view is the mathematical map from the
/// characters of the keys to the views of the values.
#[derive(Debug)]
pub struct StringMap<V> {
    entries: Vec<(String, V)>,
}

/// No key occurs twice among `entries`.
spec fn distinct_keys<V>(entries: Seq<(String, V)>) -> bool {
    forall|i: int, j: int| 0 <= i < j < entries.len() ==> entries[i].0@ != entries[j].0@
}

/// Some entry of `entries` has the key `key`.
spec fn has_key<V>(entries: Seq<(String, V)>, key: Seq<char>) -> bool {
    exists|i: int| 0 <= i < entries.len() && #[trigger] entries[i].0@ == key
}

/// The place of an entry with the key `key`.
spec fn place_of<V>(entries: Seq<(String, V)>, key: Seq<char>) -> int {
    choose|i: int| 0 <= i < entries.len() && #[trigger] entries[i].0@ == key
}

/// The map that a list of entries stands for.
spec fn entries_map<V: View>(entries: Seq<(String, V)>) -> Map<Seq<char>, V::V> {
    Map::new(
        |key: Seq<char>| has_key(entries, key),
        |key: Seq<char>| entries[place_of(entries, key)].1@,
    )
}

/// With distinct keys, each entry is what the map holds under its key.
proof fn lemma_entry_in_map<V: View>(entries: Seq<(String, V)>, i: int)
    requires
        distinct_keys(entries),
        0 <= i < entries.len(),
    ensures
        entries_map(entries).contains_key(entries[i].0@),
        entries_map(entries)[entries[i].0@] == entries[i].1@,
{
    let key = entries[i].0@;
    assert(has_key(entries, key));
    let p = place_of(entries, key);
    assert(p == i) by {
        if p < i {
            assert(entries[p].0@ != entries[i].0@);
        } else if i < p {
            assert(entries[i].0@ != entries[p].0@);
        }
    }
}

/// Appending an entry under a fresh key inserts it into the map.
proof fn lemma_push_inserts<V: View>(entries: Seq<(String, V)>, key: String, value: V)
    requires
        distinct_keys(entries),
        !has_key(entries, key@),
    ensures
        distinct_keys(entries.push((key, value))),
        entries_map(entries.push((key, value))) == entries_map(entries).insert(key@, value@),
{
    let after = entries.push((key, value));
    assert(distinct_keys(after)) by {
        assert forall|i: int, j: int| 0 <= i < j < after.len() implies after[i].0@
            != after[j].0@ by {
            if j == entries.len() {
                assert(entries[i].0@ != key@);
            }
        }
    }
    let want = entries_map(entries).insert(key@, value@);
    assert forall|k: Seq<char>| entries_map(after).contains_key(k) <==> want.contains_key(
        k,
    ) by {
        if has_key(after, k) {
            let p = place_of(after, k);
            if p < entries.len() {
                assert(entries[p].0@ == k);
            }
        }
        if has_key(entries, k) {
            let p = place_of(entries, k);
            assert(after[p].0@ == k);
        }
        if k == key@ {
            assert(after[entries.len() as int].0@ == k);
        }
    }
    assert forall|k: Seq<char>| entries_map(after).contains_key(k) implies entries_map(after)[k]
        == want[k] by {
        let p = place_of(after, k);
        lemma_entry_in_map(after, p);
        if p < entries.len() {
            lemma_entry_in_map(entries, p);
        }
    }
    assert(entries_map(after) =~= want);
}

/// Replacing the value of an entry inserts the new value under its key.
proof fn lemma_update_inserts<V: View>(
    entries: Seq<(String, V)>,
    i: int,
    key: String,
    value: V,
)
    requires
        distinct_keys(entries),
        0 <= i < entries.len(),
        entries[i].0@ == key@,
    ensures
        distinct_keys(entries.update(i, (key, value))),
        entries_map(entries.update(i, (key, value))) == entries_map(entries).insert(
            key@,
            value@,
        ),
{
    let after = entries.update(i, (key, value));
    assert(distinct_keys(after)) by {
        assert forall|a: int, b: int| 0 <= a < b < after.len() implies after[a].0@
            != after[b].0@ by {
            assert(entries[a].0@ != entries[b].0@);
        }
    }
    let want = entries_map(entries).insert(key@, value@);
    assert forall|k: Seq<char>| entries_map(after).contains_key(k) <==> want.contains_key(
        k,
    ) by {
        if has_key(after, k) {
            let p = place_of(after, k);
            assert(entries[p].0@ == k);
        }
        if has_key(entries, k) {
            let p = place_of(entries, k);
            assert(after[p].0@ == k);
        }
        if k == key@ {
            assert(after[i].0@ == k);
        }
    }
    assert forall|k: Seq<char>| entries_map(after).contains_key(k) implies entries_map(after)[k]
        == want[k] by {
        let p = place_of(after, k);
        lemma_entry_in_map(after, p);
        if p != i {
            lemma_entry_in_map(entries, p);
        }
    }
    assert(entries_map(after) =~= want);
}

impl<V: View> View for StringMap<V> {
    type V = Map<Seq<char>, V::V>;

    closed spec fn view(&self) -> Map<Seq<char>, V::V> {
        entries_map(self.entries@)
    }
}

impl<V> StringMap<V> {
    #[verifier::type_invariant]
    spec fn well_formed(self) -> bool {
        distinct_keys(self.entries@)
    }
}

impl<V: View> StringMap<V> {
    /// The empty map.
    pub fn new() -> (map: Self)
        ensures
            map@ == Map::<Seq<char>, V::V>::empty(),
    {
        let map = StringMap { entries: Vec::new() };
        assert(map@ =~= Map::<Seq<char>, V::V>::empty());
        map
    }

    /// Whether the map holds nothing.
    pub fn is_empty(&self) -> (empty: bool)
        ensures
            empty == (self@ == Map::<Seq<char>, V::V>::empty()),
    {
        let empty = self.entries.len() == 0;
        proof {
            if empty {
                assert(self@ =~= Map::<Seq<char>, V::V>::empty());
            } else {
                assert(has_key(self.entries@, self.entries@[0].0@));
                assert(self@.contains_key(self.entries@[0].0@));
            }
        }
        empty
    }

    /// The value under `key`, if there is one.
    pub fn get(&self, key: &str) -> (found: Option<&V>)
        ensures
            match found {
                Some(value) => self@.contains_key(key@) && self@[key@] == value@,
                None => !self@.contains_key(key@),
            },
    {
        proof {
            use_type_invariant(self);
        }
        let mut i: usize = 0;
        while i < self.entries.len()
            invariant
                i <= self.entries.len(),
                distinct_keys(self.entries@),
                forall|j: int| 0 <= j < i ==> self.entries[j].0@ != key@,
            decreases self.entries.len() - i,
        {
            if str_eq(self.entries[i].0.as_str(), key) {
                proof {
                    lemma_entry_in_map(self.entries@, i as int);
                }
                return Some(&self.entries[i].1);
            }
            i = i + 1;
        }
        None
    }

    /// Puts `value` under `key`, in place of any value that was there.
    pub fn insert(&mut self, key: String, value: V)
        ensures
            final(self)@ == old(self)@.insert(key@, value@),
    {
        proof {
            use_type_invariant(&*self);
        }
        let mut taken = StringMap { entries: Vec::new() };
        core::mem::swap(self, &mut taken);
        let StringMap { entries } = taken;
        let mut entries = entries;
        let ghost before = entries@;
        let mut i: usize = 0;
        while i < entries.len()
            invariant
                i <= entries.len(),
                entries@ == before,
                before == old(self).entries@,
                distinct_keys(before),
                forall|j: int| 0 <= j < i ==> entries[j].0@ != key@,
            decreases entries.len() - i,
        {
            if str_eq(entries[i].0.as_str(), key.as_str()) {
                proof {
                    lemma_update_inserts(before, i as int, key, value);
                }
                entries[i] = (key, value);
                *self = StringMap { entries };
                return ;
            }
            i = i + 1;
        }
        proof {
            lemma_push_inserts(before, key, value);
        }
        entries.push((key, value));
        *self = StringMap { entries };
    }
}

} // verus!
