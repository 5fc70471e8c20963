//! Generational slot storage behind a document.
//!
//! Every stored value is addressed by a [`NodeId`]: a slot index paired with
//! the generation the slot had when the value was stored. Removing a value
//! bumps the slot's generation, so an old handle can never reach a value that
//! later reuses the slot. A slot whose generation reaches `u32::MAX` is retired
//! instead of wrapping around.
use vstd::prelude::*;

verus! {

/// Stable handle to a node stored in a [`crate::document::Document`].
#[derive(Clone, Copy, PartialEq, Eq, Structural, Hash, Debug)]
pub struct NodeId {
    pub(crate) slot: u32,
    pub(crate) generation: u32,
}

impl NodeId {
    /// The slot index of this handle.
    pub closed spec fn spec_slot(self) -> u32 {
        self.slot
    }

    /// The slot generation this handle was issued for.
    pub closed spec fn spec_generation(self) -> u32 {
        self.generation
    }

    pub fn slot(self) -> (r: u32)
        ensures
            r == self.spec_slot(),
    {
        self.slot
    }

    pub fn generation(self) -> (r: u32)
        ensures
            r == self.spec_generation(),
    {
        self.generation
    }

    /// Two handles are the same handle exactly when slot and generation agree.
    pub proof fn lemma_eq_by_parts(a: NodeId, b: NodeId)
        ensures
            (a == b) <==> (a.spec_slot() == b.spec_slot() && a.spec_generation()
                == b.spec_generation()),
    {
    }
}

/// Whether `x` occurs in `s`.
pub fn contains_id(s: &[NodeId], x: NodeId) -> (r: bool)
    ensures
        r == s@.contains(x),
{
    let mut i: usize = 0;
    while i < s.len()
        invariant
            0 <= i <= s@.len(),
            forall|j: int| 0 <= j < i ==> s@[j] != x,
        decreases s@.len() - i,
    {
        if s[i] == x {
            assert(s@[i as int] == x);
            return true;
        }
        i = i + 1;
    }
    false
}

pub(crate) struct Slot<T> {
    /// Distinguishes the successive values stored in this slot.
    pub(crate) generation: u32,
    /// Next slot of the free list, when this slot is free.
    pub(crate) next_free: Option<u32>,
    /// The stored value, if the slot is occupied.
    pub(crate) value: Option<T>,
}

pub(crate) struct Arena<T> {
    pub(crate) slots: Vec<Slot<T>>,
    pub(crate) free_head: Option<u32>,
    pub(crate) len: usize,
    /// The free list, head first.
    pub(crate) free_list: Ghost<Seq<u32>>,
}

impl<T> Arena<T> {
    pub(crate) open spec fn live(&self, id: NodeId) -> bool {
        &&& (id.slot as int) < self.slots@.len()
        &&& self.slots@[id.slot as int].generation == id.generation
        &&& self.slots@[id.slot as int].value is Some
    }

    /// The live values, keyed by their handles.
    pub(crate) open spec fn view(&self) -> Map<NodeId, T> {
        Map::new(|id: NodeId| self.live(id), |id: NodeId| self.slots@[id.slot as int].value->0)
    }

    pub(crate) open spec fn free_list_ok(&self) -> bool {
        let fl = self.free_list@;
        &&& (self.free_head is None <==> fl.len() == 0)
        &&& (self.free_head matches Some(h) ==> fl[0] == h)
        &&& forall|k: int|
            #![trigger fl[k]]
            0 <= k < fl.len() ==> {
                &&& (fl[k] as int) < self.slots@.len()
                &&& self.slots@[fl[k] as int].value is None
                &&& self.slots@[fl[k] as int].next_free == (if k + 1 < fl.len() {
                    Some(fl[k + 1])
                } else {
                    None::<u32>
                })
            }
        &&& fl.no_duplicates()
    }

    pub(crate) open spec fn wf(&self) -> bool {
        &&& self.slots@.len() <= u32::MAX as int + 1
        &&& self@.dom().finite()
        &&& self.len as int == self@.dom().len()
        &&& self.len + self.free_list@.len() <= self.slots@.len()
        &&& self.free_list_ok()
    }

    /// The handle `id` was issued once and can never be live again.
    pub(crate) open spec fn stale(&self, id: NodeId) -> bool {
        &&& (id.slot as int) < self.slots@.len()
        &&& {
            ||| self.slots@[id.slot as int].generation > id.generation
            ||| (self.slots@[id.slot as int].generation == id.generation && self.slots@[id.slot as int].value is None
                && !self.free_list@.contains(id.slot))
        }
    }

    pub(crate) proof fn lemma_stale(&self, id: NodeId)
        requires
            self.wf(),
            self.stale(id),
        ensures
            !self@.contains_key(id),
            self.can_insert() ==> self.vacant() != id,
    {
        if let Some(h) = self.free_head {
            assert(self.free_list@[0] == h);
            if h == id.slot {
                assert(self.free_list@.contains(h));
            }
        }
    }

    /// Whether one more value can be stored without running out of slot indices.
    pub(crate) open spec fn can_insert(&self) -> bool {
        self.free_head is Some || self.slots@.len() <= u32::MAX as int
    }

    /// The handle the next insertion will return.
    pub(crate) open spec fn vacant(&self) -> NodeId {
        match self.free_head {
            Some(h) => NodeId { slot: h, generation: self.slots@[h as int].generation },
            None => NodeId { slot: self.slots@.len() as u32, generation: 0 },
        }
    }

    pub(crate) proof fn lemma_vacant_not_live(&self)
        requires
            self.wf(),
            self.can_insert(),
        ensures
            !self@.contains_key(self.vacant()),
    {
        if let Some(h) = self.free_head {
            assert(self.free_list@[0] == h);
        }
    }

    pub(crate) fn new() -> (a: Self)
        ensures
            a.wf(),
            a@ == Map::<NodeId, T>::empty(),
            a.slots@.len() == 0,
    {
        let a = Arena { slots: Vec::new(), free_head: None, len: 0, free_list: Ghost(Seq::empty()) };
        assert(a@ =~= Map::<NodeId, T>::empty());
        a
    }

    pub(crate) fn vacant_id(&self) -> (id: NodeId)
        requires
            self.wf(),
            self.can_insert(),
        ensures
            id == self.vacant(),
            !self@.contains_key(id),
    {
        proof {
            self.lemma_vacant_not_live();
        }
        match self.free_head {
            Some(h) => NodeId { slot: h, generation: self.slots[h as usize].generation },
            None => NodeId { slot: self.slots.len() as u32, generation: 0 },
        }
    }

    pub(crate) fn insert(&mut self, value: T) -> (id: NodeId)
        requires
            old(self).wf(),
            old(self).can_insert(),
        ensures
            final(self).wf(),
            id == old(self).vacant(),
            !old(self)@.contains_key(id),
            final(self)@ == old(self)@.insert(id, value),
            final(self).slots@.len() <= old(self).slots@.len() + 1,
            old(self).free_head is None ==> final(self).slots@.len() == old(self).slots@.len()
                + 1,
            old(self).free_head is Some ==> final(self).slots@.len() == old(self).slots@.len(),
            !old(self).stale(id),
            forall|x: NodeId| old(self).stale(x) ==> final(self).stale(x),
    {
        proof {
            self.lemma_vacant_not_live();
        }
        let ghost old_self = *self;
        let id;
        if let Some(h) = self.free_head {
            let hu = h as usize;
            let generation = self.slots[hu].generation;
            let next = self.slots[hu].next_free;
            self.slots[hu].next_free = None;
            self.slots[hu].value = Some(value);
            self.free_head = next;
            proof {
                let fl = old_self.free_list@;
                assert(fl[0] == h);
                self.free_list@ = fl.drop_first();
                assert forall|k: int| 0 <= k < self.free_list@.len() implies self.free_list@[k]
                    != h by {
                    assert(fl[k + 1] != fl[0]);
                }
                assert forall|k: int|
                    #![trigger self.free_list@[k]]
                    0 <= k < self.free_list@.len() implies {
                    &&& (self.free_list@[k] as int) < self.slots@.len()
                    &&& self.slots@[self.free_list@[k] as int].value is None
                    &&& self.slots@[self.free_list@[k] as int].next_free == (if k + 1
                        < self.free_list@.len() {
                        Some(self.free_list@[k + 1])
                    } else {
                        None::<u32>
                    })
                } by {
                    assert(self.free_list@[k] == fl[k + 1]);
                    assert(fl[k + 1] != fl[0]);
                }
                if fl.len() > 1 {
                    assert(fl[1] == self.free_list@[0]);
                }
            }
            id = NodeId { slot: h, generation };
        } else {
            let slot = self.slots.len() as u32;
            self.slots.push(Slot { generation: 0, next_free: None, value: Some(value) });
            proof {
                let fl = self.free_list@;
                assert forall|k: int|
                    #![trigger fl[k]]
                    0 <= k < fl.len() implies {
                    &&& (fl[k] as int) < self.slots@.len()
                    &&& self.slots@[fl[k] as int].value is None
                    &&& self.slots@[fl[k] as int].next_free == (if k + 1 < fl.len() {
                        Some(fl[k + 1])
                    } else {
                        None::<u32>
                    })
                } by {
                    assert(old_self.slots@[fl[k] as int] == self.slots@[fl[k] as int]);
                }
            }
            id = NodeId { slot, generation: 0 };
        }
        assert(self@ =~= old_self@.insert(id, value));
        assert(self.len + self.free_list@.len() < self.slots@.len());
        let slots_len = self.slots.len();
        assert(self.len < slots_len);
        self.len = self.len + 1;
        assert(self@.dom() =~= old_self@.dom().insert(id));
        assert(self.free_list_ok());
        id
    }

    pub(crate) fn get(&self, id: NodeId) -> (r: Option<&T>)
        ensures
            r is Some <==> self@.contains_key(id),
            r matches Some(v) ==> *v == self@[id],
    {
        let i = id.slot as usize;
        if i < self.slots.len() && self.slots[i].generation == id.generation {
            match &self.slots[i].value {
                Some(v) => Some(v),
                None => None,
            }
        } else {
            None
        }
    }

    /// Swap a live value for another one; the slot bookkeeping is left untouched.
    pub(crate) fn replace(&mut self, id: NodeId, value: T) -> (r: T)
        requires
            old(self).wf(),
            old(self)@.contains_key(id),
        ensures
            r == old(self)@[id],
            final(self).wf(),
            final(self)@ == old(self)@.insert(id, value),
            final(self).slots@.len() == old(self).slots@.len(),
            final(self).free_head == old(self).free_head,
            final(self).vacant() == old(self).vacant(),
            forall|x: NodeId| old(self).stale(x) ==> final(self).stale(x),
    {
        let ghost old_self = *self;
        let i = id.slot as usize;
        let old_value = self.slots[i].value.take();
        self.slots[i].value = Some(value);
        proof {
            let fl = self.free_list@;
            assert forall|k: int|
                #![trigger fl[k]]
                0 <= k < fl.len() implies self.slots@[fl[k] as int] == old_self.slots@[fl[k] as int] by {
            }
            assert(self.free_list_ok());
            assert(self@ =~= old_self@.insert(id, value));
            assert(self@.dom() =~= old_self@.dom());
        }
        match old_value {
            Some(v) => v,
            None => vstd::pervasive::unreached(),
        }
    }

    pub(crate) fn remove(&mut self, id: NodeId) -> (r: Option<T>)
        requires
            old(self).wf(),
        ensures
            final(self).wf(),
            r is Some <==> old(self)@.contains_key(id),
            r matches Some(v) ==> v == old(self)@[id],
            final(self)@ == old(self)@.remove(id),
            final(self).slots@.len() == old(self).slots@.len(),
            final(self).can_insert() || !old(self).can_insert() || r is None
                || id.spec_generation() == u32::MAX,
            forall|x: NodeId| old(self).stale(x) ==> final(self).stale(x),
            r is Some ==> final(self).stale(id),
            r is Some && id.generation < u32::MAX ==> final(self).vacant() == (NodeId {
                slot: id.slot,
                generation: (id.generation + 1) as u32,
            }),
            r is None || id.generation == u32::MAX ==> final(self).vacant() == old(self).vacant(),
    {
        let i = id.slot as usize;
        if i >= self.slots.len() || self.slots[i].generation != id.generation {
            assert(self@ =~= self@.remove(id));
            assert(self.wf());
            return None;
        }
        let ghost old_self = *self;
        let value = self.slots[i].value.take();
        match value {
            None => {
                assert(self@ =~= old_self@);
                assert(old_self@ =~= old_self@.remove(id));
                proof {
                    assert(self.slots@ =~= old_self.slots@);
                    assert forall|k: int|
                        #![trigger self.free_list@[k]]
                        0 <= k < self.free_list@.len() implies self.slots@[self.free_list@[
                        k] as int] == old_self.slots@[self.free_list@[k] as int] by {
                    }
                }
                assert(self.wf());
                None
            },
            Some(v) => {
                assert(self@ =~= old_self@.remove(id));
                assert(self@.dom() =~= old_self@.dom().remove(id));
                self.len = self.len - 1;
                let generation = self.slots[i].generation;
                if generation < u32::MAX {
                    let ghost before = *self;
                    self.slots[i].generation = generation + 1;
                    self.slots[i].next_free = self.free_head;
                    self.free_head = Some(id.slot);
                    proof {
                        let fl = before.free_list@;
                        assert forall|k: int| 0 <= k < fl.len() implies fl[k] != id.slot by {
                            assert(old_self.slots@[fl[k] as int].value is None);
                        }
                        self.free_list@ = seq![id.slot] + fl;
                        let nfl = self.free_list@;
                        assert forall|k: int|
                            #![trigger nfl[k]]
                            0 <= k < nfl.len() implies {
                            &&& (nfl[k] as int) < self.slots@.len()
                            &&& self.slots@[nfl[k] as int].value is None
                            &&& self.slots@[nfl[k] as int].next_free == (if k + 1 < nfl.len() {
                                Some(nfl[k + 1])
                            } else {
                                None::<u32>
                            })
                        } by {
                            if k > 0 {
                                assert(nfl[k] == fl[k - 1]);
                            } else if fl.len() > 0 {
                                assert(nfl[1] == fl[0]);
                            }
                        }
                        assert(nfl.no_duplicates()) by {
                            assert forall|a: int, b: int|
                                0 <= a < nfl.len() && 0 <= b < nfl.len() && a != b implies nfl[a]
                                != nfl[b] by {
                                if a > 0 && b > 0 {
                                    assert(nfl[a] == fl[a - 1]);
                                    assert(nfl[b] == fl[b - 1]);
                                } else if a == 0 {
                                    assert(nfl[b] == fl[b - 1]);
                                } else {
                                    assert(nfl[a] == fl[a - 1]);
                                }
                            }
                        }
                    }
                    assert(self@ =~= before@);
                    assert(self.free_list_ok());
                } else {
                    proof {
                        assert forall|k: int|
                            #![trigger self.free_list@[k]]
                            0 <= k < self.free_list@.len() implies self.slots@[self.free_list@[
                            k] as int] == old_self.slots@[self.free_list@[k] as int] by {
                            assert(old_self.slots@[self.free_list@[k] as int].value is None);
                        }
                        assert(self.free_list_ok());
                    }
                }
                assert(self@ == old_self@.remove(id));
                assert(self@.dom() =~= old_self@.dom().remove(id));
                assert(self@.dom().finite());
                assert(self.len as int == self@.dom().len());
                assert(self.len + self.free_list@.len() <= self.slots@.len());
                assert(self.free_list_ok());
                Some(v)
            },
        }
    }
}

} // verus!
