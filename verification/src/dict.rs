//! An insertion-ordered, key-deduplicated container.
//!
//! `Dict` maps each key to one value, remembers the order in which distinct
//! keys were first inserted, and hands the contents back as the sequence of
//! values in that order. Inserting a key twice is a caller error, excluded by
//! precondition.

use vstd::prelude::*;
use std::collections::HashMap;

verus! {

broadcast use vstd::std_specs::hash::group_hash_axioms;

pub struct Dict<K, V> {
    order: Vec<K>,
    values: Vec<V>,
    map: HashMap<K, usize>,
}

impl<K: Copy + Eq + core::hash::Hash, V> Dict<K, V> {
    /// The keys, in the order in which they were first inserted.
    pub closed spec fn key_seq(&self) -> Seq<K> {
        self.order@
    }

    /// The values, in first-insertion order of their keys.
    pub closed spec fn val_seq(&self) -> Seq<V> {
        self.values@
    }

    pub open spec fn has(&self, key: K) -> bool {
        self.key_seq().contains(key)
    }

    /// The position of `key` in the insertion order (meaningful when `has(key)`).
    pub closed spec fn pos(&self, key: K) -> int {
        self.map@[key] as int
    }

    pub closed spec fn wf(&self) -> bool {
        &&& vstd::std_specs::hash::obeys_key_model::<K>()
        &&& self.order@.no_duplicates()
        &&& self.values@.len() == self.order@.len()
        &&& forall|k: K| #[trigger] self.map@.contains_key(k) <==> self.key_seq().contains(k)
        &&& forall|k: K| #[trigger] self.map@.contains_key(k) ==> 0 <= self.map@[k]
            < self.order@.len() && self.order@[self.map@[k] as int] == k
    }

    pub proof fn lemma_wf_props(&self)
        requires
            self.wf(),
        ensures
            self.key_seq().no_duplicates(),
            self.val_seq().len() == self.key_seq().len(),
            forall|k: K| #[trigger] self.has(k) ==> 0 <= self.pos(k) < self.key_seq().len()
                && self.key_seq()[self.pos(k)] == k,
    {
        assert forall|k: K| #[trigger] self.has(k) implies 0 <= self.pos(k)
            < self.key_seq().len() && self.key_seq()[self.pos(k)] == k by {
            assert(self.map@.contains_key(k));
        }
    }

    pub fn new() -> (d: Self)
        requires
            vstd::std_specs::hash::obeys_key_model::<K>(),
        ensures
            d.wf(),
            d.key_seq() == Seq::<K>::empty(),
            d.val_seq() == Seq::<V>::empty(),
    {
        Dict { order: Vec::new(), values: Vec::new(), map: HashMap::new() }
    }

    /// Consumes the container, yielding the values in first-insertion order.
    pub fn values(self) -> (r: Vec<V>)
        ensures
            r@ == self.val_seq(),
    {
        self.values
    }

    /// The values in first-insertion order, without consuming the container.
    pub fn ref_values(&self) -> (r: &Vec<V>)
        ensures
            r@ == self.val_seq(),
    {
        &self.values
    }

    /// A live mutable handle to the value previously inserted under `key`,
    /// or nothing if the key has never been inserted.
    pub fn ref_mut_value(&mut self, key: K) -> (res: Option<&mut V>)
        requires
            old(self).wf(),
        ensures
            final(self).wf(),
            final(self).key_seq() == old(self).key_seq(),
            old(self).has(key) ==> {
                &&& 0 <= old(self).pos(key) < old(self).key_seq().len()
                &&& old(self).key_seq()[old(self).pos(key)] == key
                &&& res.is_some()
                &&& *res.unwrap() == old(self).val_seq()[old(self).pos(key)]
                &&& final(self).val_seq() == old(self).val_seq().update(
                    old(self).pos(key),
                    *final(res.unwrap()),
                )
            },
            !old(self).has(key) ==> res.is_none() && *final(self) == *old(self),
    {
        match self.map.get(&key) {
            Some(i) => {
                let idx: usize = *i;
                proof {
                    assert(self.map@.contains_key(key));
                }
                Some(&mut self.values[idx])
            },
            None => {
                proof {
                    assert(!self.map@.contains_key(key));
                }
                None
            },
        }
    }

    /// Stores `value` under a key that must not already be present, and returns
    /// a mutable handle to the freshly stored value.
    pub fn insert_uncheck(&mut self, key: K, value: V) -> (res: &mut V)
        requires
            old(self).wf(),
            !old(self).has(key),
        ensures
            final(self).wf(),
            final(self).key_seq() == old(self).key_seq().push(key),
            final(self).val_seq() =~= old(self).val_seq().push(*final(res)),
            *res == value,
    {
        let idx = self.values.len();
        self.map.insert(key, idx);
        self.order.push(key);
        self.values.push(value);
        proof {
            let old_order = old(self).order@;
            assert(self.order@ == old_order.push(key));
            assert(self.map@ == old(self).map@.insert(key, idx));
            assert forall|k: K| #[trigger] self.map@.contains_key(k) implies self.key_seq()
                .contains(k) by {
                if k == key {
                    assert(self.order@[old_order.len() as int] == key);
                } else {
                    assert(old(self).map@.contains_key(k));
                    let j = choose|j: int| 0 <= j < old_order.len() && old_order[j] == k;
                    assert(self.order@[j] == k);
                }
            }
            assert forall|k: K| self.key_seq().contains(k) implies #[trigger] self.map@
                .contains_key(k) by {
                let j = choose|j: int| 0 <= j < self.order@.len() && self.order@[j] == k;
                if j < old_order.len() {
                    assert(old_order[j] == k);
                    assert(old(self).map@.contains_key(k));
                } else {
                    assert(k == key);
                }
            }
            assert forall|k: K| #[trigger] self.map@.contains_key(k) implies 0 <= self.map@[k]
                < self.order@.len() && self.order@[self.map@[k] as int] == k by {
                if k != key {
                    assert(old(self).map@.contains_key(k));
                    assert(old_order[old(self).map@[k] as int] == k);
                }
            }
            assert forall|i: int, j: int|
                0 <= i < self.order@.len() && 0 <= j < self.order@.len() && i
                    != j implies self.order@[i] != self.order@[j] by {
                if i == old_order.len() {
                    if self.order@[j] == key {
                        assert(old_order[j] == key);
                        assert(old(self).has(key));
                    }
                } else if j == old_order.len() {
                    if self.order@[i] == key {
                        assert(old_order[i] == key);
                        assert(old(self).has(key));
                    }
                }
            }
            assert(self.order@.no_duplicates());
        }
        &mut self.values[idx]
    }
}

} // verus!
