//! Maps from strings to values, kept in the order of their keys.

use crate::text::{rank, text_lt, text_order_irreflexive, text_order_total, text_order_transitive, Rank};
use vstd::prelude::*;

verus! {

/// A map from strings to values. Its entries stand in the order of their keys,
/// and no key stands twice.
#[derive(Debug)]
pub struct TextMap<V> {
    entries: Vec<(String, V)>,
}

/// The keys stand in ascending order, each once.
pub open spec fn ascending(keys: Seq<Seq<char>>) -> bool {
    forall|i: int, j: int| 0 <= i < j < keys.len() ==> text_lt(#[trigger] keys[i], #[trigger] keys[j])
}

spec fn keys_of<V>(entries: Seq<(String, V)>) -> Seq<Seq<char>> {
    Seq::new(entries.len(), |i: int| entries[i].0@)
}

spec fn map_of<V>(entries: Seq<(String, V)>) -> Map<Seq<char>, V> {
    Map::new(
        |k: Seq<char>| keys_of(entries).contains(k),
        |k: Seq<char>| entries[keys_of(entries).index_of(k)].1,
    )
}

impl<V> View for TextMap<V> {
    type V = Map<Seq<char>, V>;

    closed spec fn view(&self) -> Map<Seq<char>, V> {
        map_of(self.entries@)
    }
}

proof fn ascending_keys_differ(keys: Seq<Seq<char>>, i: int, j: int)
    requires
        ascending(keys),
        0 <= i < keys.len(),
        0 <= j < keys.len(),
        keys[i] == keys[j],
    ensures
        i == j,
{
    text_order_irreflexive(keys[i]);
}

/// What the map gives for the key of entry `i`.
proof fn entry_value<V>(entries: Seq<(String, V)>, i: int)
    requires
        ascending(keys_of(entries)),
        0 <= i < entries.len(),
    ensures
        map_of(entries).dom().contains(entries[i].0@),
        map_of(entries)[entries[i].0@] == entries[i].1,
{
    let keys = keys_of(entries);
    let k = keys[i];
    assert(keys.contains(k));
    let j = keys.index_of(k);
    ascending_keys_differ(keys, i, j);
}

impl<V> TextMap<V> {
    #[verifier::type_invariant]
    spec fn in_order(self) -> bool {
        ascending(keys_of(self.entries@))
    }

    /// The keys, in order.
    pub closed spec fn keys(&self) -> Seq<Seq<char>> {
        keys_of(self.entries@)
    }

    /// A map without entries.
    pub fn new() -> (r: Self)
        ensures
            r@ == Map::<Seq<char>, V>::empty(),
            r.keys() == Seq::<Seq<char>>::empty(),
    {
        let r = TextMap { entries: Vec::new() };
        assert(r@ =~= Map::<Seq<char>, V>::empty());
        assert(r.keys() =~= Seq::<Seq<char>>::empty());
        r
    }

    /// The place of the first entry whose key is not before `key`.
    fn place(entries: &Vec<(String, V)>, key: &str) -> (r: usize)
        requires
            ascending(keys_of(entries@)),
        ensures
            r <= entries@.len(),
            forall|i: int| 0 <= i < r ==> text_lt(#[trigger] keys_of(entries@)[i], key@),
            forall|i: int|
                r <= i < entries@.len() ==> !text_lt(#[trigger] keys_of(entries@)[i], key@),
    {
        let mut lo: usize = 0;
        let mut hi: usize = entries.len();
        let ghost keys = keys_of(entries@);
        while lo < hi
            invariant
                lo <= hi <= entries@.len(),
                keys == keys_of(entries@),
                ascending(keys),
                forall|i: int| 0 <= i < lo ==> text_lt(#[trigger] keys[i], key@),
                forall|i: int| hi <= i < keys.len() ==> !text_lt(#[trigger] keys[i], key@),
            decreases hi - lo,
        {
            let mid: usize = lo + (hi - lo) / 2;
            let here: Rank = rank(entries[mid].0.as_str(), key);
            assert(keys[mid as int] == entries@[mid as int].0@);
            match here {
                Rank::Before => {
                    proof {
                        assert forall|i: int| 0 <= i < mid + 1 implies text_lt(
                            #[trigger] keys[i],
                            key@,
                        ) by {
                            if lo <= i < mid {
                                text_order_transitive(keys[i], keys[mid as int], key@);
                            }
                        }
                    }
                    lo = mid + 1;
                },
                _ => {
                    proof {
                        assert forall|i: int| mid <= i < keys.len() implies !text_lt(
                            #[trigger] keys[i],
                            key@,
                        ) by {
                            if mid < i && text_lt(keys[i], key@) {
                                text_order_transitive(keys[mid as int], keys[i], key@);
                            }
                        }
                    }
                    hi = mid;
                },
            }
        }
        lo
    }

    /// The value for a key.
    pub fn get(&self, key: &str) -> (r: Option<&V>)
        ensures
            match r {
                Some(v) => self@.dom().contains(key@) && *v == self@[key@],
                None => !self@.dom().contains(key@),
            },
    {
        proof {
            use_type_invariant(self);
        }
        let ghost keys = keys_of(self.entries@);
        let i: usize = Self::place(&self.entries, key);
        if i < self.entries.len() {
            assert(keys[i as int] == self.entries@[i as int].0@);
            if let Rank::Same = rank(self.entries[i].0.as_str(), key) {
                proof {
                    entry_value(self.entries@, i as int);
                }
                return Some(&self.entries[i].1);
            }
        }
        proof {
            if keys.contains(key@) {
                let j = keys.index_of(key@);
                text_order_irreflexive(key@);
                if i < j {
                    assert(text_lt(keys[i as int], keys[j]));
                }
            }
        }
        None
    }

    /// Puts a value under a key, in place of the one that was there before.
    pub fn insert(&mut self, key: String, value: V)
        ensures
            final(self)@ == old(self)@.insert(key@, value),
    {
        proof {
            use_type_invariant(&*self);
        }
        let mut entries: Vec<(String, V)> = Vec::new();
        std::mem::swap(&mut entries, &mut self.entries);
        let ghost before = entries@;
        let ghost keys = keys_of(before);
        let i: usize = Self::place(&entries, key.as_str());
        let ghost k = key@;
        let mut known: bool = false;
        if i < entries.len() {
            assert(keys[i as int] == before[i as int].0@);
            if let Rank::Same = rank(entries[i].0.as_str(), key.as_str()) {
                known = true;
            }
        }
        if known {
            entries[i] = (key, value);
            proof {
                assert(keys_of(entries@) =~= keys);
                replaced(before, entries@, i as int);
            }
        } else {
            entries.insert(i, (key, value));
            proof {
                inserted(before, entries@, i as int);
            }
        }
        self.entries = entries;
    }

    /// The number of entries.
    pub fn len(&self) -> (r: usize)
        ensures
            r == self.keys().len(),
            ascending(self.keys()),
            forall|k: Seq<char>| self@.dom().contains(k) <==> self.keys().contains(k),
    {
        proof {
            use_type_invariant(self);
        }
        self.entries.len()
    }

    /// The entry at place `i` in the order of the keys.
    pub fn entry(&self, i: usize) -> (r: (&String, &V))
        requires
            i < self.keys().len(),
        ensures
            r.0@ == self.keys()[i as int],
            self@.dom().contains(r.0@),
            *r.1 == self@[r.0@],
    {
        proof {
            use_type_invariant(self);
            entry_value(self.entries@, i as int);
        }
        (&self.entries[i].0, &self.entries[i].1)
    }
}

impl<V: Copy> Clone for TextMap<V> {
    fn clone(&self) -> (r: Self)
        ensures
            r@ == self@,
    {
        proof {
            use_type_invariant(self);
        }
        let mut entries: Vec<(String, V)> = Vec::new();
        let mut i: usize = 0;
        while i < self.entries.len()
            invariant
                i <= self.entries@.len(),
                entries@ == self.entries@.take(i as int),
            decreases self.entries@.len() - i,
        {
            entries.push((self.entries[i].0.clone(), self.entries[i].1));
            i = i + 1;
        }
        assert(entries@ =~= self.entries@);
        TextMap { entries }
    }
}

proof fn replaced<V>(before: Seq<(String, V)>, after: Seq<(String, V)>, i: int)
    requires
        ascending(keys_of(before)),
        0 <= i < before.len(),
        after == before.update(i, after[i]),
        after[i].0@ == before[i].0@,
    ensures
        ascending(keys_of(after)),
        map_of(after) == map_of(before).insert(after[i].0@, after[i].1),
{
    let keys = keys_of(before);
    assert(keys_of(after) =~= keys);
    let want = map_of(before).insert(after[i].0@, after[i].1);
    assert(keys.contains(keys[i]));
    assert forall|k: Seq<char>| map_of(after).dom().contains(k) implies #[trigger] map_of(after)[k]
        == want[k] by {
        let j = keys.index_of(k);
        entry_value(after, j);
        entry_value(before, j);
        if k == after[i].0@ {
            ascending_keys_differ(keys, i, j);
        }
    }
    assert(map_of(after) =~= want);
}

proof fn inserted<V>(before: Seq<(String, V)>, after: Seq<(String, V)>, i: int)
    requires
        ascending(keys_of(before)),
        0 <= i <= before.len(),
        after == before.insert(i, after[i]),
        forall|j: int| 0 <= j < i ==> text_lt(#[trigger] keys_of(before)[j], after[i].0@),
        forall|j: int|
            i <= j < before.len() ==> !text_lt(#[trigger] keys_of(before)[j], after[i].0@),
        i < before.len() ==> before[i].0@ != after[i].0@,
    ensures
        ascending(keys_of(after)),
        map_of(after) == map_of(before).insert(after[i].0@, after[i].1),
{
    let keys = keys_of(before);
    let k0 = after[i].0@;
    let new_keys = keys_of(after);
    assert(new_keys =~= keys.insert(i, k0));
    assert forall|j: int| i <= j < keys.len() implies text_lt(k0, #[trigger] keys[j]) by {
        text_order_total(k0, keys[i]);
        if i < j {
            text_order_transitive(k0, keys[i], keys[j]);
        }
    }
    assert(ascending(new_keys)) by {
        assert forall|a: int, b: int| 0 <= a < b < new_keys.len() implies text_lt(
            #[trigger] new_keys[a],
            #[trigger] new_keys[b],
        ) by {
            let a0 = if a < i { a } else { a - 1 };
            let b0 = if b < i { b } else { b - 1 };
            if a == i {
                assert(new_keys[b] == keys[b0]);
            } else if b == i {
                assert(new_keys[a] == keys[a0]);
            } else {
                assert(new_keys[a] == keys[a0] && new_keys[b] == keys[b0]);
            }
        }
    }
    let want = map_of(before).insert(k0, after[i].1);
    assert forall|k: Seq<char>| map_of(after).dom().contains(k) <==> want.dom().contains(k) by {
        if keys.contains(k) {
            let j = keys.index_of(k);
            assert(new_keys[if j < i { j } else { j + 1 }] == k);
        }
        if k == k0 {
            assert(new_keys[i] == k0);
        }
        if new_keys.contains(k) {
            let j = new_keys.index_of(k);
            if j < i {
                assert(keys[j] == k);
            } else if j > i {
                assert(keys[j - 1] == k);
            }
        }
    }
    assert forall|k: Seq<char>| map_of(after).dom().contains(k) implies #[trigger] map_of(after)[k]
        == want[k] by {
        let j = new_keys.index_of(k);
        entry_value(after, j);
        if j < i {
            entry_value(before, j);
            text_order_irreflexive(k);
        } else if j > i {
            entry_value(before, j - 1);
            assert(keys[j - 1] == k);
            text_order_irreflexive(k);
        }
    }
    assert(map_of(after) =~= want);
}

} // verus!
