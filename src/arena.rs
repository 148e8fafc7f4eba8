//! Generational arena: stable keys for values whose slots get reused.
use vstd::prelude::*;

verus! {

/// Key of an arena entry: a slot index and the generation of the occupant.
#[derive(Clone, Copy, Debug, PartialEq, Eq, Structural)]
pub struct ActorKey {
    pub index: usize,
    pub generation: u64,
}

struct Slot<V> {
    generation: u64,
    value: Option<V>,
}

/// Storage whose keys stay valid until removal and are never handed out twice.
pub struct Arena<V> {
    slots: Vec<Slot<V>>,
    free: Vec<usize>,
    issued: Ghost<Set<ActorKey>>,
}

impl<V> Arena<V> {
    /// The live entries.
    pub closed spec fn view(&self) -> Map<ActorKey, V> {
        Map::new(
            |k: ActorKey|
                0 <= k.index < self.slots@.len() && self.slots@[k.index as int].generation
                    == k.generation && self.slots@[k.index as int].value is Some,
            |k: ActorKey| self.slots@[k.index as int].value->Some_0,
        )
    }

    /// Every key this arena has ever handed out, live or removed.
    pub closed spec fn issued(&self) -> Set<ActorKey> {
        self.issued@
    }

    pub closed spec fn wf(&self) -> bool {
        &&& forall|k: ActorKey| #[trigger]
            self.issued@.contains(k) ==> {
                &&& 0 <= k.index < self.slots@.len()
                &&& k.generation <= self.slots@[k.index as int].generation
            }
        &&& forall|i: int|
            0 <= i < self.slots@.len() && (#[trigger] self.slots@[i]).value is Some
                ==> self.issued@.contains(
                ActorKey { index: i as usize, generation: self.slots@[i].generation },
            )
        &&& self.free@.no_duplicates()
        &&& forall|j: int|
            0 <= j < self.free@.len() ==> {
                &&& 0 <= #[trigger] self.free@[j] < self.slots@.len()
                &&& self.slots@[self.free@[j] as int].value is None
                &&& !self.issued@.contains(
                    ActorKey {
                        index: self.free@[j],
                        generation: self.slots@[self.free@[j] as int].generation,
                    },
                )
            }
    }

    /// Every live key has been issued.
    pub proof fn lemma_live_issued(&self)
        requires
            self.wf(),
        ensures
            forall|k: ActorKey| #[trigger] self@.contains_key(k) ==> self.issued().contains(k),
    {
        assert forall|k: ActorKey| #[trigger] self@.contains_key(k) implies self.issued().contains(k) by {
            assert(self.slots@[k.index as int].value is Some);
        }
    }

    pub fn new() -> (r: Self)
        ensures
            r.wf(),
            r@ == Map::<ActorKey, V>::empty(),
            r.issued() == Set::<ActorKey>::empty(),
    {
        let r = Arena { slots: Vec::new(), free: Vec::new(), issued: Ghost(Set::empty()) };
        assert(r@ =~= Map::<ActorKey, V>::empty());
        r
    }

    /// Stores `value` under a key that was never handed out before.
    pub fn insert(&mut self, value: V) -> (k: ActorKey)
        requires
            old(self).wf(),
        ensures
            final(self).wf(),
            !old(self).issued().contains(k),
            final(self).issued() == old(self).issued().insert(k),
            final(self)@ == old(self)@.insert(k, value),
    {
        let ghost pre = self@;
        if self.free.len() > 0 {
            let index = self.free.pop().unwrap();
            let generation = self.slots[index].generation;
            let k = ActorKey { index, generation };
            let mut fresh = Slot { generation, value: Some(value) };
            std::mem::swap(&mut self.slots[index], &mut fresh);
            proof {
                self.issued@ = self.issued@.insert(k);
                assert forall|j: int| 0 <= j < self.free@.len() implies self.free@[j] != index by {
                    assert(old(self).free@[j] == self.free@[j]);
                    assert(old(self).free@[old(self).free@.len() - 1] == index);
                }
            }
            assert(self@ =~= pre.insert(k, value));
            k
        } else {
            let index = self.slots.len();
            let k = ActorKey { index, generation: 0 };
            self.slots.push(Slot { generation: 0, value: Some(value) });
            proof {
                assert(!self.issued@.contains(k));
                self.issued@ = self.issued@.insert(k);
            }
            assert(self@ =~= pre.insert(k, value));
            k
        }
    }

    pub fn contains_key(&self, k: ActorKey) -> (r: bool)
        ensures
            r == self@.contains_key(k),
    {
        k.index < self.slots.len() && self.slots[k.index].generation == k.generation
            && self.slots[k.index].value.is_some()
    }

    pub fn get(&self, k: ActorKey) -> (r: Option<&V>)
        ensures
            r == (if self@.contains_key(k) {
                Some(&self@[k])
            } else {
                None
            }),
    {
        if self.contains_key(k) {
            self.slots[k.index].value.as_ref()
        } else {
            None
        }
    }

    /// Mutable access to a live entry, which stays under the same key.
    pub fn get_mut(&mut self, k: ActorKey) -> (r: &mut V)
        requires
            old(self).wf(),
            old(self)@.contains_key(k),
        ensures
            *r == old(self)@[k],
            final(self)@ == old(self)@.insert(k, *final(r)),
            final(self).wf(),
            final(self).issued() == old(self).issued(),
    {
        let slot = &mut self.slots[k.index];
        match &mut slot.value {
            Some(v) => v,
            None => {
                assert(false);
                unreached()
            },
        }
    }

    /// Takes the entry out; its key stays issued, and its slot becomes free
    /// under the next generation.
    pub fn remove(&mut self, k: ActorKey) -> (r: Option<V>)
        requires
            old(self).wf(),
        ensures
            final(self).wf(),
            final(self).issued() == old(self).issued(),
            final(self)@ == old(self)@.remove(k),
            r == (if old(self)@.contains_key(k) {
                Some(old(self)@[k])
            } else {
                None
            }),
    {
        if !self.contains_key(k) {
            assert(self@ =~= old(self)@.remove(k));
            return None;
        }
        let g = self.slots[k.index].generation;
        let next = if g < u64::MAX { g + 1 } else { g };
        let mut vacant = Slot { generation: next, value: None };
        std::mem::swap(&mut self.slots[k.index], &mut vacant);
        if g < u64::MAX {
            proof {
                assert forall|j: int| 0 <= j < self.free@.len() implies self.free@[j] != k.index by {
                    assert(old(self).slots@[self.free@[j] as int].value is None);
                }
            }
            self.free.push(k.index);
        }
        assert(self@ =~= old(self)@.remove(k));
        vacant.value
    }
}

} // verus!
