//! The properties of a node: a map from keys to values, kept as a list in
//! the order of the keys so that it is always walked in the same order.

use vstd::prelude::*;

use crate::keys::{
    compare_keys, key_before, lemma_key_before_transitive, lemma_key_order, KeyOrder,
};
use crate::value::Value;

verus! {

/// What a property list pairs one key with.
pub type Pair = (Seq<char>, Value);

/// Each key comes before the keys that follow it.
pub open spec fn in_key_order(pairs: Seq<Pair>) -> bool {
    forall|i: int, j: int| 0 <= i < j < pairs.len() ==> key_before(pairs[i].0, pairs[j].0)
}

/// The pair at place `i` of the list has the key `key`.
pub open spec fn key_at(pairs: Seq<Pair>, key: Seq<char>, i: int) -> bool {
    0 <= i < pairs.len() && pairs[i].0 == key
}

/// The map that a list of pairs stands for.
pub open spec fn map_of(pairs: Seq<Pair>) -> Map<Seq<char>, Value> {
    Map::new(
        |key: Seq<char>| exists|i: int| key_at(pairs, key, i),
        |key: Seq<char>| pairs[choose|i: int| key_at(pairs, key, i)].1,
    )
}

/// In a list in key order each key stands once, and the map holds for each
/// key the value that the list pairs it with.
pub proof fn lemma_map_of(pairs: Seq<Pair>)
    requires
        in_key_order(pairs),
    ensures
        forall|i: int, j: int|
            0 <= i < pairs.len() && 0 <= j < pairs.len() && pairs[i].0 == pairs[j].0 ==> i == j,
        forall|i: int|
            0 <= i < pairs.len() ==> map_of(pairs).contains_key(#[trigger] pairs[i].0) && map_of(
                pairs,
            )[pairs[i].0] == pairs[i].1,
        forall|key: Seq<char>| #[trigger]
            map_of(pairs).contains_key(key) ==> exists|i: int| key_at(pairs, key, i),
{
    assert forall|i: int, j: int|
        0 <= i < pairs.len() && 0 <= j < pairs.len() && pairs[i].0 == pairs[j].0 implies i
        == j by {
        lemma_key_order(pairs[i].0, pairs[j].0);
        lemma_key_order(pairs[j].0, pairs[i].0);
    }
    assert forall|i: int| 0 <= i < pairs.len() implies map_of(pairs).contains_key(
        #[trigger] pairs[i].0,
    ) && map_of(pairs)[pairs[i].0] == pairs[i].1 by {
        assert(key_at(pairs, pairs[i].0, i));
        let j = choose|j: int| key_at(pairs, pairs[i].0, j);
        assert(j == i);
    }
}

/// One key with its value.
#[derive(Debug)]
struct Property {
    key: String,
    value: Value,
}

/// The properties of one node.
#[derive(Debug)]
pub struct Properties {
    entries: Vec<Property>,
}

impl View for Properties {
    type V = Map<Seq<char>, Value>;

    open spec fn view(&self) -> Map<Seq<char>, Value> {
        map_of(self.pairs())
    }
}

impl Properties {
    /// The keys and values, in the order in which they are kept.
    pub closed spec fn pairs(&self) -> Seq<Pair> {
        Seq::new(self.entries.len() as nat, |i: int| (self.entries[i].key@, self.entries[i].value))
    }

    /// The list is in key order, so no key stands twice.
    pub open spec fn wf(&self) -> bool {
        in_key_order(self.pairs())
    }

    /// No properties.
    pub fn new() -> (properties: Properties)
        ensures
            properties.wf(),
            properties.pairs().len() == 0,
            properties@ == Map::<Seq<char>, Value>::empty(),
    {
        let properties = Properties { entries: Vec::new() };
        assert(properties@ =~= Map::<Seq<char>, Value>::empty());
        properties
    }

    /// The number of properties.
    pub fn len(&self) -> (count: usize)
        ensures
            count == self.pairs().len(),
    {
        self.entries.len()
    }

    /// The key at place `i` of the key order.
    pub fn key(&self, i: usize) -> (key: &str)
        requires
            i < self.pairs().len(),
        ensures
            key@ == self.pairs()[i as int].0,
    {
        self.entries[i].key.as_str()
    }

    /// The value at place `i` of the key order.
    pub fn value(&self, i: usize) -> (value: &Value)
        requires
            i < self.pairs().len(),
        ensures
            *value == self.pairs()[i as int].1,
    {
        &self.entries[i].value
    }

    /// The place of the first key that does not come before `key`, and
    /// whether `key` stands there.
    fn locate(&self, key: &str) -> (place: (usize, bool))
        requires
            self.wf(),
        ensures
            place.0 <= self.pairs().len(),
            forall|j: int| 0 <= j < place.0 ==> key_before(self.pairs()[j].0, key@),
            place.1 ==> place.0 < self.pairs().len() && self.pairs()[place.0 as int].0 == key@,
            !place.1 ==> forall|j: int|
                place.0 <= j < self.pairs().len() ==> key_before(key@, self.pairs()[j].0),
            place.1 == self@.contains_key(key@),
    {
        let mut i: usize = 0;
        let mut found = false;
        while i < self.entries.len()
            invariant_except_break
                !found,
            invariant
                i <= self.entries.len(),
                self.wf(),
                forall|j: int| 0 <= j < i ==> key_before(self.pairs()[j].0, key@),
            ensures
                found ==> i < self.pairs().len() && self.pairs()[i as int].0 == key@,
                !found ==> forall|j: int|
                    i <= j < self.pairs().len() ==> key_before(key@, self.pairs()[j].0),
            decreases self.entries.len() - i,
        {
            match compare_keys(self.entries[i].key.as_str(), key) {
                KeyOrder::Before => {
                    i += 1;
                },
                KeyOrder::Same => {
                    found = true;
                    break ;
                },
                KeyOrder::After => {
                    proof {
                        lemma_key_order(self.pairs()[i as int].0, key@);
                        assert forall|j: int| i <= j < self.pairs().len() implies key_before(
                            key@,
                            self.pairs()[j].0,
                        ) by {
                            if i < j {
                                lemma_key_before_transitive(
                                    key@,
                                    self.pairs()[i as int].0,
                                    self.pairs()[j].0,
                                );
                            }
                        }
                    }
                    break ;
                },
            }
        }
        proof {
            lemma_map_of(self.pairs());
            if found {
                assert(key_at(self.pairs(), key@, i as int));
            } else if self@.contains_key(key@) {
                let j = choose|j: int| key_at(self.pairs(), key@, j);
                lemma_key_order(self.pairs()[j].0, key@);
            }
        }
        (i, found)
    }

    /// Whether a property stands under `key`.
    pub fn contains_key(&self, key: &str) -> (found: bool)
        requires
            self.wf(),
        ensures
            found == self@.contains_key(key@),
    {
        self.locate(key).1
    }

    /// The value under `key`.
    pub fn get(&self, key: &str) -> (value: Option<&Value>)
        requires
            self.wf(),
        ensures
            value is Some == self@.contains_key(key@),
            value is Some ==> *value->0 == self@[key@],
    {
        let (i, found) = self.locate(key);
        if found {
            proof {
                lemma_map_of(self.pairs());
            }
            Some(&self.entries[i].value)
        } else {
            None
        }
    }

    /// Puts `value` under `key`, in place of what stood there.
    pub fn insert(&mut self, key: String, value: Value)
        requires
            old(self).wf(),
        ensures
            final(self).wf(),
            final(self)@ == old(self)@.insert(key@, value),
    {
        let (i, found) = self.locate(key.as_str());
        let ghost before = self.pairs();
        if found {
            self.entries.set(i, Property { key, value });
            proof {
                let after = self.pairs();
                assert(after =~= before.update(i as int, (key@, value)));
                lemma_map_of(before);
                lemma_map_of(after);
                assert forall|k: Seq<char>| #[trigger]
                    map_of(before).insert(key@, value).contains_key(k) implies map_of(
                    after,
                ).contains_key(k) by {
                    if k != key@ {
                        let j = choose|j: int| key_at(before, k, j);
                        assert(key_at(after, k, j));
                    } else {
                        assert(key_at(after, k, i as int));
                    }
                }
                assert forall|k: Seq<char>| #[trigger]
                    map_of(after).contains_key(k) implies map_of(before).insert(
                    key@,
                    value,
                ).contains_key(k) by {
                    let j = choose|j: int| key_at(after, k, j);
                    if j != i {
                        assert(key_at(before, k, j));
                    }
                }
                assert(map_of(after) =~= map_of(before).insert(key@, value));
            }
        } else {
            self.entries.insert(i, Property { key, value });
            proof {
                let after = self.pairs();
                assert(after =~= before.insert(i as int, (key@, value)));
                lemma_map_of(before);
                assert forall|a: int, b: int| 0 <= a < b < after.len() implies key_before(
                    after[a].0,
                    after[b].0,
                ) by {
                    if b < i {
                        assert(after[a] == before[a] && after[b] == before[b]);
                    } else if b == i {
                        assert(after[a] == before[a]);
                    } else if a < i {
                        assert(after[a] == before[a] && after[b] == before[b - 1]);
                    } else if a == i {
                        assert(after[b] == before[b - 1]);
                    } else {
                        assert(after[a] == before[a - 1] && after[b] == before[b - 1]);
                    }
                }
                lemma_map_of(after);
                assert forall|k: Seq<char>| #[trigger]
                    map_of(before).insert(key@, value).contains_key(k) implies map_of(
                    after,
                ).contains_key(k) && map_of(after)[k] == map_of(before).insert(key@, value)[k] by {
                    if k != key@ {
                        let j = choose|j: int| key_at(before, k, j);
                        if j < i {
                            assert(key_at(after, k, j));
                        } else {
                            assert(key_at(after, k, j + 1));
                        }
                    } else {
                        assert(key_at(after, k, i as int));
                    }
                }
                assert forall|k: Seq<char>| #[trigger]
                    map_of(after).contains_key(k) implies map_of(before).insert(
                    key@,
                    value,
                ).contains_key(k) by {
                    let j = choose|j: int| key_at(after, k, j);
                    if j < i {
                        assert(key_at(before, k, j));
                    } else if j > i {
                        assert(key_at(before, k, j - 1));
                    }
                }
                assert(map_of(after) =~= map_of(before).insert(key@, value));
            }
        }
    }
}

} // verus!
