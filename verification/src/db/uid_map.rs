//! The store behind entries, tags and sequences: a map from identifier to
//! value that is always walked in ascending order of identifier.

use crate::db::uid::{all_below, ascending, find, lower_bound, Uid, UidSet};
use vstd::prelude::*;

verus! {

/// A map from identifier to value. Its keys are held in ascending order, so
/// every walk over it visits the same identifiers in the same order, and
/// "the first match" always means the match with the smallest identifier.
#[derive(Debug, Clone, PartialEq, Eq)]
pub struct UidMap<V> {
    keys: Vec<Uid>,
    vals: Vec<V>,
}

/// The identifiers of `ids` whose position is marked in `marks`.
pub open spec fn marked(ids: Seq<Uid>, marks: Seq<bool>, upto: int) -> Set<Uid> {
    Set::new(|id: Uid| exists|i: int| 0 <= i < upto && i < ids.len() && ids[i] == id && marks[i])
}

/// The identifiers of `ids` whose position is not marked in `marks`.
pub open spec fn unmarked(ids: Seq<Uid>, marks: Seq<bool>, upto: int) -> Set<Uid> {
    Set::new(|id: Uid| exists|i: int| 0 <= i < upto && i < ids.len() && ids[i] == id && !marks[i])
}

impl<V: View> View for UidMap<V> {
    type V = Map<Uid, V::V>;

    /// The map from each stored identifier to the view of its value.
    open spec fn view(&self) -> Map<Uid, V::V> {
        Map::new(
            |id: Uid| self.ids().contains(id),
            |id: Uid| self.values()[self.ids().index_of(id)]@,
        )
    }
}

impl<V: View> UidMap<V> {
    /// The stored identifiers, in the order of a walk.
    pub closed spec fn ids(&self) -> Seq<Uid> {
        self.keys@
    }

    /// The stored values, each at the position of its identifier.
    pub closed spec fn values(&self) -> Seq<V> {
        self.vals@
    }

    /// Identifiers and values pair up, and the identifiers ascend.
    pub open spec fn wf(&self) -> bool {
        &&& self.ids().len() == self.values().len()
        &&& ascending(self.ids())
    }

    /// In a well-formed store the value at a position is the value of the
    /// identifier at that position.
    pub proof fn lemma_position(&self, i: int)
        requires
            self.wf(),
            0 <= i < self.ids().len(),
        ensures
            self@.contains_key(self.ids()[i]),
            self@[self.ids()[i]] == self.values()[i]@,
            self.ids().index_of(self.ids()[i]) == i,
    {
    }

    /// The empty store.
    pub fn new() -> (m: UidMap<V>)
        ensures
            m.wf(),
            m.ids() == Seq::<Uid>::empty(),
            m@ == Map::<Uid, V::V>::empty(),
    {
        let m = UidMap { keys: Vec::new(), vals: Vec::new() };
        m
    }

    /// Number of stored identifiers.
    pub fn len(&self) -> (n: usize)
        ensures
            n == self.ids().len(),
    {
        self.keys.len()
    }

    /// The identifier at position `i` of a walk.
    pub fn id_at(&self, i: usize) -> (id: Uid)
        requires
            i < self.ids().len(),
        ensures
            id == self.ids()[i as int],
    {
        self.keys[i]
    }

    /// The value at position `i` of a walk.
    pub fn value_at(&self, i: usize) -> (v: &V)
        requires
            self.wf(),
            i < self.ids().len(),
        ensures
            *v == self.values()[i as int],
            v@ == self@[self.ids()[i as int]],
    {
        &self.vals[i]
    }

    /// The value at position `i` of a walk, to be changed in place.
    pub fn value_at_mut(&mut self, i: usize) -> (v: &mut V)
        requires
            old(self).wf(),
            i < old(self).ids().len(),
        ensures
            *v == old(self).values()[i as int],
            final(self).wf(),
            final(self).ids() == old(self).ids(),
            final(self).values() == old(self).values().update(i as int, *final(v)),
            final(self)@ == old(self)@.insert(old(self).ids()[i as int], final(v)@),
    {
        &mut self.vals[i]
    }

    /// The stored identifiers.
    pub fn key_set(&self) -> (keys: UidSet)
        requires
            self.wf(),
        ensures
            keys.wf(),
            keys.ids() == self.ids(),
            keys@ == self@.dom(),
    {
        let keys = UidSet::from_ascending(self.keys.clone());
        keys
    }

    /// Where `id` stands in a walk, if it is stored.
    pub fn position(&self, id: Uid) -> (pos: Option<usize>)
        requires
            self.wf(),
        ensures
            match pos {
                Some(i) => i < self.ids().len() && self.ids()[i as int] == id && self@.contains_key(
                    id,
                ),
                None => !self@.contains_key(id),
            },
    {
        let pos = find(&self.keys, id);
        pos
    }

    /// Whether `id` is stored.
    pub fn contains_key(&self, id: Uid) -> (b: bool)
        requires
            self.wf(),
        ensures
            b == self@.contains_key(id),
    {
        self.position(id).is_some()
    }

    /// The value stored for `id`, if any.
    pub fn get(&self, id: Uid) -> (v: Option<&V>)
        requires
            self.wf(),
        ensures
            match v {
                Some(v) => self@.contains_key(id) && v@ == self@[id],
                None => !self@.contains_key(id),
            },
    {
        match self.position(id) {
            Some(i) => Some(self.value_at(i)),
            None => None,
        }
    }

    /// Stores `value` for `id` at the end of the store. Every stored
    /// identifier is smaller than `id`.
    pub fn push(&mut self, id: Uid, value: V)
        requires
            old(self).wf(),
            all_below(old(self).ids(), id as int),
        ensures
            final(self).wf(),
            final(self).ids() == old(self).ids().push(id),
            final(self).values() == old(self).values().push(value),
            final(self)@ == old(self)@.insert(id, value@),
    {
        self.keys.push(id);
        self.vals.push(value);
        proof {
            assert forall|k: Uid| self@.contains_key(k) <==> (old(self)@.contains_key(k) || k
                == id) by {
                crate::db::uid::lemma_push_has(old(self).ids(), id, k);
            }
        }
    }

    /// Stores `value` for `id`. Returns the value that `id` had before, if
    /// it was stored already.
    pub fn insert(&mut self, id: Uid, value: V) -> (previous: Option<V>)
        requires
            old(self).wf(),
        ensures
            final(self).wf(),
            final(self)@ == old(self)@.insert(id, value@),
            match previous {
                Some(p) => old(self)@.contains_key(id) && p@ == old(self)@[id],
                None => !old(self)@.contains_key(id),
            },
    {
        let pos = lower_bound(&self.keys, id);
        if pos < self.keys.len() && self.keys[pos] == id {
            self.vals.push(value);
            let previous = self.vals.swap_remove(pos);
            Some(previous)
        } else {
            self.keys.insert(pos, id);
            self.vals.insert(pos, value);
            proof {
                let before = old(self).ids();
                let after = self.ids();
                assert forall|k: Uid| after.contains(k) <==> (before.contains(k) || k == id) by {
                    if before.contains(k) {
                        let j = choose|j: int| 0 <= j < before.len() && before[j] == k;
                        if j < pos {
                            assert(after[j] == k);
                        } else {
                            assert(after[j + 1] == k);
                        }
                    }
                    if k == id {
                        assert(after[pos as int] == k);
                    }
                }
            }
            None
        }
    }

    /// Takes `id` and its value out of the store. Returns the value, if `id`
    /// was stored.
    pub fn remove(&mut self, id: Uid) -> (removed: Option<V>)
        requires
            old(self).wf(),
        ensures
            final(self).wf(),
            final(self)@ == old(self)@.remove(id),
            match removed {
                Some(v) => old(self)@.contains_key(id) && v@ == old(self)@[id],
                None => !old(self)@.contains_key(id),
            },
    {
        match find(&self.keys, id) {
            Some(pos) => {
                self.keys.remove(pos);
                let removed = self.vals.remove(pos);
                proof {
                    let before = old(self).ids();
                    let after = self.ids();
                    assert forall|k: Uid| after.contains(k) <==> (before.contains(k) && k != id) by {
                        if before.contains(k) && k != id {
                            let j = choose|j: int| 0 <= j < before.len() && before[j] == k;
                            if j < pos {
                                assert(after[j] == k);
                            } else {
                                assert(after[j - 1] == k);
                            }
                        }
                    }
                }
                Some(removed)
            },
            None => {
                None
            },
        }
    }

    /// Parts the store in two by position: what is marked in `keep` stays,
    /// the rest leaves and is returned, both in their order.
    pub fn retain_marked(&mut self, keep: &Vec<bool>) -> (dropped: UidMap<V>)
        requires
            old(self).wf(),
            keep.len() == old(self).ids().len(),
        ensures
            final(self).wf(),
            dropped.wf(),
            final(self)@ == old(self)@.restrict(marked(old(self).ids(), keep@, keep.len() as int)),
            dropped@ == old(self)@.restrict(unmarked(old(self).ids(), keep@, keep.len() as int)),
    {
        let mut taken: Vec<V> = Vec::new();
        core::mem::swap(&mut self.vals, &mut taken);
        let mut kept: UidMap<V> = UidMap::new();
        let mut dropped: UidMap<V> = UidMap::new();
        let ghost ids = old(self).ids();
        let ghost whole = old(self)@;
        let mut i: usize = 0;
        for value in it: taken
            invariant
                it.seq() == old(self).values(),
                i == it.index(),
                self.keys@ == ids,
                ids == old(self).ids(),
                whole == old(self)@,
                old(self).wf(),
                keep.len() == ids.len(),
                kept.wf(),
                dropped.wf(),
                kept@ == whole.restrict(marked(ids, keep@, i as int)),
                dropped@ == whole.restrict(unmarked(ids, keep@, i as int)),
        {
            let id = self.keys[i];
            if keep[i] {
                kept.insert(id, value);
            } else {
                dropped.insert(id, value);
            }
            i = i + 1;
        }
        *self = kept;
        dropped
    }
}

} // verus!
