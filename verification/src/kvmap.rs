//! A map from string keys to JSON values: a list of entries, and an index
//! that finds a key's place in it.

use serde_json::Value;
use vstd::hash_map::StringHashMap;
use vstd::prelude::*;

use crate::raft::types::copy_value;

verus! {

/// The map that a list of pairs stands for; of two pairs with one key the
/// later counts.
pub open spec fn pairs_map(pairs: Seq<(String, Value)>) -> Map<Seq<char>, Value>
    decreases pairs.len(),
{
    if pairs.len() == 0 {
        Map::empty()
    } else {
        pairs_map(pairs.drop_last()).insert(pairs.last().0@, pairs.last().1)
    }
}

/// An owned copy of a list of pairs.
pub fn copy_pairs(pairs: &Vec<(String, Value)>) -> (copy: Vec<(String, Value)>)
    ensures
        copy@ == pairs@,
{
    let mut copy: Vec<(String, Value)> = Vec::with_capacity(pairs.len());
    let mut i: usize = 0;
    while i < pairs.len()
        invariant
            i <= pairs.len(),
            copy@ == pairs@.take(i as int),
        decreases pairs.len() - i,
    {
        copy.push((pairs[i].0.clone(), copy_value(&pairs[i].1)));
        i += 1;
        assert(copy@ =~= pairs@.take(i as int));
    }
    assert(pairs@.take(pairs.len() as int) =~= pairs@);
    copy
}

/// Each key's current value.
pub struct KvMap {
    entries: Vec<(String, Value)>,
    /// Where each key stands in `entries`.
    index: StringHashMap<usize>,
}

impl View for KvMap {
    type V = Map<Seq<char>, Value>;

    closed spec fn view(&self) -> Map<Seq<char>, Value> {
        Map::new(
            |key: Seq<char>| self.index@.contains_key(key),
            |key: Seq<char>| self.entries[self.index@[key] as int].1,
        )
    }
}

impl KvMap {
    /// The index lists every entry, and only those.
    pub closed spec fn wf(&self) -> bool {
        &&& forall|i: int|
            #![trigger self.entries[i]]
            0 <= i < self.entries.len() ==> {
                &&& self.index@.contains_key(self.entries[i].0@)
                &&& self.index@[self.entries[i].0@] == i
            }
        &&& forall|key: Seq<char>| #[trigger]
            self.index@.contains_key(key) ==> {
                &&& self.index@[key] < self.entries.len()
                &&& self.entries[self.index@[key] as int].0@ == key
            }
    }

    /// The empty map.
    pub fn new() -> (map: Self)
        ensures
            map.wf(),
            map@ == Map::<Seq<char>, Value>::empty(),
    {
        let map = KvMap { entries: Vec::new(), index: StringHashMap::new() };
        assert(map@ =~= Map::<Seq<char>, Value>::empty());
        map
    }

    /// The value of `key`, if it has one.
    pub fn get(&self, key: &str) -> (value: Option<&Value>)
        requires
            self.wf(),
        ensures
            match value {
                Some(v) => self@.contains_key(key@) && *v == self@[key@],
                None => !self@.contains_key(key@),
            },
    {
        match self.index.get(key) {
            Some(i) => Some(&self.entries[*i].1),
            None => None,
        }
    }

    /// Gives `key` the value `value`.
    pub fn insert(&mut self, key: String, value: Value)
        requires
            old(self).wf(),
        ensures
            final(self).wf(),
            final(self)@ == old(self)@.insert(key@, value),
    {
        let place: Option<usize> = match self.index.get(key.as_str()) {
            Some(i) => Some(*i),
            None => None,
        };
        match place {
            Some(i) => {
                self.entries.set(i, (key, value));
            },
            None => {
                self.index.insert(key.clone(), self.entries.len());
                self.entries.push((key, value));
            },
        }
        proof {
            let before = old(self);
            assert forall|j: int| #![trigger self.entries[j]] 0 <= j < self.entries.len() implies {
                &&& self.index@.contains_key(self.entries[j].0@)
                &&& self.index@[self.entries[j].0@] == j
            } by {
                if j < before.entries.len() {
                    let _ = before.entries[j];
                }
            }
            assert(self@ =~= old(self)@.insert(key@, value));
        }
    }

    /// Removes `key`. Returns whether it was there.
    pub fn remove(&mut self, key: &str) -> (existed: bool)
        requires
            old(self).wf(),
        ensures
            final(self).wf(),
            existed == old(self)@.contains_key(key@),
            final(self)@ == old(self)@.remove(key@),
    {
        let place: usize = match self.index.get(key) {
            Some(i) => *i,
            None => {
                assert(self@ =~= old(self)@.remove(key@));
                return false;
            },
        };
        let ghost before = *old(self);
        let last: usize = self.entries.len() - 1;
        self.entries.swap_remove(place);
        self.index.remove(key);
        if place != last {
            let moved = self.entries[place].0.clone();
            self.index.insert(moved, place);
        }
        proof {
            let _ = before.entries[place as int];
            let _ = before.entries[last as int];
            assert forall|j: int| #![trigger self.entries[j]] 0 <= j < self.entries.len() implies {
                &&& self.index@.contains_key(self.entries[j].0@)
                &&& self.index@[self.entries[j].0@] == j
            } by {
                let _ = before.entries[j];
            }
            assert(self@ =~= old(self)@.remove(key@));
        }
        true
    }

    /// All entries as pairs, each key once.
    pub fn pairs(&self) -> (pairs: Vec<(String, Value)>)
        requires
            self.wf(),
        ensures
            pairs_map(pairs@) == self@,
            forall|i: int, j: int|
                #![trigger pairs[i], pairs[j]]
                0 <= i < j < pairs.len() ==> pairs[i].0@ != pairs[j].0@,
    {
        let pairs = copy_pairs(&self.entries);
        proof {
            assert forall|i: int, j: int|
                #![trigger pairs[i], pairs[j]]
                0 <= i < j < pairs.len() implies pairs[i].0@ != pairs[j].0@ by {
                let _ = self.entries[i];
                let _ = self.entries[j];
            }
            lemma_pairs_lookup(pairs@);
            assert forall|key: Seq<char>| pairs_map(pairs@).contains_key(key)
                == self@.contains_key(key) by {
                if pairs_map(pairs@).contains_key(key) {
                    let i = choose|i: int|
                        0 <= i < pairs.len() && (#[trigger] pairs@[i]).0@ == key;
                    let _ = self.entries[i];
                }
                if self@.contains_key(key) {
                    let i = self.index@[key] as int;
                    assert(pairs@[i].0@ == key);
                }
            }
            assert forall|key: Seq<char>| pairs_map(pairs@).contains_key(
                key,
            ) implies pairs_map(pairs@)[key] == self@[key] by {
                let i = self.index@[key] as int;
                assert(pairs@[i].0@ == key);
            }
            assert(pairs_map(pairs@) =~= self@);
        }
        pairs
    }

    /// The map that a list of pairs stands for.
    pub fn from_pairs(pairs: &Vec<(String, Value)>) -> (map: Self)
        ensures
            map.wf(),
            map@ == pairs_map(pairs@),
    {
        let mut map = KvMap::new();
        let mut i: usize = 0;
        while i < pairs.len()
            invariant
                i <= pairs.len(),
                map.wf(),
                map@ == pairs_map(pairs@.take(i as int)),
            decreases pairs.len() - i,
        {
            map.insert(pairs[i].0.clone(), copy_value(&pairs[i].1));
            assert(pairs@.take(i + 1).drop_last() =~= pairs@.take(i as int));
            i += 1;
        }
        assert(pairs@.take(pairs.len() as int) =~= pairs@);
        map
    }
}

/// With each key once, a list of pairs maps each key to its pair's value.
proof fn lemma_pairs_lookup(pairs: Seq<(String, Value)>)
    requires
        forall|i: int, j: int|
            #![trigger pairs[i], pairs[j]]
            0 <= i < j < pairs.len() ==> pairs[i].0@ != pairs[j].0@,
    ensures
        forall|i: int|
            #![trigger pairs[i]]
            0 <= i < pairs.len() ==> {
                &&& pairs_map(pairs).contains_key(pairs[i].0@)
                &&& pairs_map(pairs)[pairs[i].0@] == pairs[i].1
            },
        forall|key: Seq<char>| #[trigger]
            pairs_map(pairs).contains_key(key) ==> exists|i: int|
                0 <= i < pairs.len() && (#[trigger] pairs[i]).0@ == key,
    decreases pairs.len(),
{
    if pairs.len() > 0 {
        let init = pairs.drop_last();
        assert forall|i: int, j: int|
            #![trigger init[i], init[j]]
            0 <= i < j < init.len() implies init[i].0@ != init[j].0@ by {
            assert(init[i] == pairs[i] && init[j] == pairs[j]);
        }
        lemma_pairs_lookup(init);
        assert forall|i: int| #![trigger pairs[i]] 0 <= i < pairs.len() implies {
            &&& pairs_map(pairs).contains_key(pairs[i].0@)
            &&& pairs_map(pairs)[pairs[i].0@] == pairs[i].1
        } by {
            if i < init.len() {
                assert(init[i] == pairs[i]);
                assert(pairs[i].0@ != pairs[pairs.len() - 1].0@);
            }
        }
        assert forall|key: Seq<char>| #[trigger] pairs_map(pairs).contains_key(
            key,
        ) implies exists|i: int| 0 <= i < pairs.len() && (#[trigger] pairs[i]).0@ == key by {
            if key == pairs.last().0@ {
                assert(pairs[pairs.len() - 1].0@ == key);
            } else {
                assert(pairs_map(init).contains_key(key));
                let i = choose|i: int| 0 <= i < init.len() && (#[trigger] init[i]).0@ == key;
                assert(pairs[i].0@ == key);
            }
        }
    }
}

/// A list of pairs stands for a map that holds, under a key of the list, the
/// value of the last pair with that key.
pub proof fn the_last_pair_of_a_key_counts(pairs: Seq<(String, Value)>, i: int)
    requires
        0 <= i < pairs.len(),
        forall|j: int| #![trigger pairs[j]] i < j < pairs.len() ==> pairs[j].0@ != pairs[i].0@,
    ensures
        pairs_map(pairs).contains_key(pairs[i].0@),
        pairs_map(pairs)[pairs[i].0@] == pairs[i].1,
    decreases pairs.len(),
{
    if i < pairs.len() - 1 {
        let init = pairs.drop_last();
        assert(init[i] == pairs[i]);
        assert forall|j: int| #![trigger init[j]] i < j < init.len() implies init[j].0@
            != init[i].0@ by {
            assert(pairs[j] == init[j]);
        }
        the_last_pair_of_a_key_counts(init, i);
        assert(pairs[pairs.len() - 1].0@ != pairs[i].0@);
    }
}

/// The map holds no other keys than the list.
pub proof fn only_listed_keys_are_held(pairs: Seq<(String, Value)>, key: Seq<char>)
    requires
        pairs_map(pairs).contains_key(key),
    ensures
        exists|i: int| #![trigger pairs[i]] 0 <= i < pairs.len() && pairs[i].0@ == key,
    decreases pairs.len(),
{
    if pairs.len() > 0 {
        let last = pairs[pairs.len() - 1];
        if last.0@ != key {
            let init = pairs.drop_last();
            only_listed_keys_are_held(init, key);
            let i = choose|i: int| #![trigger init[i]] 0 <= i < init.len() && init[i].0@ == key;
            assert(pairs[i] == init[i]);
        }
    }
}

} // verus!
