//! A generational registry of things: stable, reusable handles over a
//! densely packed backing store.
//!
//! A handle embeds a slot index and that slot's generation at the time of
//! the insert. Removing a thing bumps the slot's generation, so every handle
//! handed out earlier for that slot stops resolving; the slot itself is then
//! reused by later inserts. A slot whose generation counter is exhausted is
//! retired instead of reused, so a stale handle can never come back to life.

use crate::thing::{has_class_in, Thing};
use vstd::arithmetic::div_mod::lemma_fundamental_div_mod_converse;
use vstd::prelude::*;

verus! {

/// An opaque, stable identifier of one thing: slot index plus generation.
/// On the wire it travels as a single 64-bit integer.
#[derive(Clone, Copy, PartialEq, Eq, Structural, Debug)]
pub struct Handle {
    idx: u32,
    gen: u32,
}

impl Handle {
    /// The packed 64-bit form sent over the wire: generation in the upper
    /// half, slot index in the lower.
    pub closed spec fn spec_wire(self) -> u64 {
        (self.idx as u64 + 0x1_0000_0000u64 * self.gen as u64) as u64
    }

    /// Pack this handle for transmission.
    pub fn wire(self) -> (r: u64)
        ensures
            r == self.spec_wire(),
    {
        self.idx as u64 + 0x1_0000_0000u64 * (self.gen as u64)
    }
}

/// Two distinct handles never pack to the same wire id.
pub proof fn lemma_wire_injective(a: Handle, b: Handle)
    requires
        a.spec_wire() == b.spec_wire(),
    ensures
        a == b,
{
    lemma_fundamental_div_mod_converse(
        a.spec_wire() as int,
        0x1_0000_0000,
        a.gen as int,
        a.idx as int,
    );
    lemma_fundamental_div_mod_converse(
        b.spec_wire() as int,
        0x1_0000_0000,
        b.gen as int,
        b.idx as int,
    );
}

struct Slot {
    gen: u32,
    val: Option<Thing>,
}

/// The entity store. Its abstract value ([`Store::contents`]) is a map from
/// live handles to things.
pub struct Store {
    slots: Vec<Slot>,
    free: Vec<u32>,
}

impl Store {
    spec fn free_has(self, i: int) -> bool {
        exists|j: int| 0 <= j < self.free@.len() && (#[trigger] self.free@[j]) as int == i
    }

    /// Free-list entries point at distinct, vacant, reusable slots, and
    /// slot indices fit the 32-bit half of a wire id.
    pub closed spec fn wf(self) -> bool {
        &&& self.slots@.len() <= 0xFFFF_FFFF
        &&& forall|j: int|
            #![trigger self.free@[j]]
            0 <= j < self.free@.len() ==> (self.free@[j] as int) < self.slots@.len()
                && self.slots@[self.free@[j] as int].val is None
                && self.slots@[self.free@[j] as int].gen < 0xFFFF_FFFF
        &&& forall|j1: int, j2: int|
            #![trigger self.free@[j1], self.free@[j2]]
            0 <= j1 < j2 < self.free@.len() ==> self.free@[j1] != self.free@[j2]
    }

    /// The live things, keyed by handle: a handle resolves exactly when its
    /// slot still holds a value under the same generation.
    pub closed spec fn contents(self) -> Map<Handle, Thing> {
        Map::new(
            |h: Handle|
                h.idx < self.slots@.len() && self.slots@[h.idx as int].gen == h.gen
                    && self.slots@[h.idx as int].val is Some,
            |h: Handle|
                match self.slots@[h.idx as int].val {
                    Some(t) => t,
                    None => arbitrary(),
                },
        )
    }

    /// `h` has been overtaken by its slot: either the generation moved past
    /// it, or the slot was retired. Once true, it stays true forever, which
    /// is what makes stale handles safe.
    pub closed spec fn invalidated(self, h: Handle) -> bool {
        h.idx < self.slots@.len() && (self.slots@[h.idx as int].gen > h.gen || (
        self.slots@[h.idx as int].gen == h.gen && self.slots@[h.idx as int].val is None
            && !self.free_has(h.idx as int)))
    }

    /// There is room for one more thing (a machine limit: slot indices are
    /// 32 bits wide).
    pub closed spec fn spec_can_insert(&self) -> bool {
        self.free@.len() > 0 || self.slots@.len() < 0xFFFF_FFFF
    }

    /// Exec check for [`Store::spec_can_insert`], for callers that must test
    /// before inserting.
    #[verifier::when_used_as_spec(spec_can_insert)]
    pub fn can_insert(&self) -> (r: bool)
        ensures
            r == self.spec_can_insert(),
    {
        self.free.len() > 0 || self.slots.len() < 0xFFFF_FFFF
    }

    /// An empty store.
    pub fn new() -> (s: Store)
        ensures
            s.wf(),
            s.contents() == Map::<Handle, Thing>::empty(),
            s.spec_can_insert(),
    {
        let s = Store { slots: Vec::new(), free: Vec::new() };
        proof {
            assert(s.contents() =~= Map::<Handle, Thing>::empty());
        }
        s
    }

    /// Put `value` into a free slot (reusing a removed one when available)
    /// and hand back a fresh handle for it. Every handle that was stale
    /// before stays stale.
    pub fn insert(&mut self, value: Thing) -> (h: Handle)
        requires
            old(self).wf(),
            old(self).spec_can_insert(),
        ensures
            final(self).wf(),
            !old(self).contents().contains_key(h),
            final(self).contents() == old(self).contents().insert(h, value),
            forall|h2: Handle| old(self).invalidated(h2) ==> final(self).invalidated(h2),
            !final(self).invalidated(h),
    {
        let popped = self.free.pop();
        match popped {
            Some(i) => {
                let idx = i as usize;
                let g = self.slots[idx].gen;
                self.slots[idx].val = Some(value);
                let h = Handle { idx: i, gen: g };
                proof {
                    assert forall|j: int|
                        0 <= j < self.free@.len() implies (#[trigger] self.free@[j])
                        == old(self).free@[j] by {}
                    assert(self.contents() =~= old(self).contents().insert(h, value));
                    assert forall|h2: Handle|
                        old(self).invalidated(h2) implies self.invalidated(h2) by {
                        if h2.idx as int == idx as int {
                            assert(old(self).free_has(idx as int));
                        } else {
                            if old(self).free_has(h2.idx as int) {
                                let j = choose|j: int|
                                    0 <= j < old(self).free@.len() && (#[trigger] old(
                                        self,
                                    ).free@[j]) as int == h2.idx as int;
                                assert(j < old(self).free@.len() - 1);
                                assert(self.free@[j] as int == h2.idx as int);
                            }
                        }
                    }
                }
                h
            },
            None => {
                let i = self.slots.len();
                self.slots.push(Slot { gen: 0, val: Some(value) });
                let h = Handle { idx: i as u32, gen: 0 };
                proof {
                    assert(self.contents() =~= old(self).contents().insert(h, value));
                }
                h
            },
        }
    }

    /// Look up the thing a handle refers to; absent once the handle is stale.
    pub fn get(&self, h: Handle) -> (r: Option<&Thing>)
        requires
            self.wf(),
        ensures
            match r {
                Some(t) => self.contents().contains_key(h) && *t == self.contents()[h],
                None => !self.contents().contains_key(h),
            },
    {
        let idx = h.idx as usize;
        if idx < self.slots.len() && self.slots[idx].gen == h.gen {
            match &self.slots[idx].val {
                Some(t) => Some(t),
                None => None,
            }
        } else {
            None
        }
    }

    /// Remove the thing `h` refers to, if it is still live: the slot is
    /// freed for reuse and `h` (like every older handle of that slot) stops
    /// resolving for good. Removing with a stale handle changes nothing.
    pub fn remove(&mut self, h: Handle) -> (r: Option<Thing>)
        requires
            old(self).wf(),
        ensures
            final(self).wf(),
            final(self).contents() == old(self).contents().remove(h),
            old(self).contents().contains_key(h) ==> r == Some(old(self).contents()[h])
                && final(self).invalidated(h),
            !old(self).contents().contains_key(h) ==> r is None && *final(self) == *old(self),
            forall|h2: Handle| old(self).invalidated(h2) ==> final(self).invalidated(h2),
            old(self).spec_can_insert() ==> final(self).spec_can_insert(),
    {
        let idx = h.idx as usize;
        if idx >= self.slots.len() || self.slots[idx].gen != h.gen || self.slots[idx].val.is_none()
        {
            proof {
                assert(self.contents() =~= old(self).contents().remove(h));
            }
            return None;
        }
        let v = self.slots[idx].val.take();
        let g = self.slots[idx].gen;
        proof {
            assert(!old(self).free_has(idx as int));
        }
        if g < 0xFFFF_FFFFu32 {
            self.slots[idx].gen = g + 1;
            if g + 1 < 0xFFFF_FFFFu32 {
                self.free.push(h.idx);
            }
        }
        proof {
            assert(self.contents() =~= old(self).contents().remove(h));
            assert(self.invalidated(h));
            assert forall|h2: Handle| old(self).invalidated(h2) implies self.invalidated(h2) by {
                if h2.idx as int != idx as int && old(self).slots@[h2.idx as int].val is None
                    && !old(self).free_has(h2.idx as int) {
                    assert forall|j: int|
                        0 <= j < self.free@.len() && (#[trigger] self.free@[j]) as int
                            == h2.idx as int implies false by {
                        if j < old(self).free@.len() {
                            assert(old(self).free@[j] == self.free@[j]);
                        }
                    }
                }
            }
        }
        v
    }

    /// One handle for every live thing, each exactly once.
    pub fn handles(&self) -> (r: Vec<Handle>)
        requires
            self.wf(),
        ensures
            forall|a: int, b: int|
                #![trigger r@[a], r@[b]]
                0 <= a < b < r@.len() ==> r@[a] != r@[b],
            forall|k: int| 0 <= k < r@.len() ==> self.contents().contains_key(#[trigger] r@[k]),
            forall|h: Handle| #[trigger]
                self.contents().contains_key(h) ==> exists|k: int|
                    0 <= k < r@.len() && r@[k] == h,
    {
        let mut r: Vec<Handle> = Vec::new();
        let mut i: usize = 0;
        while i < self.slots.len()
            invariant
                self.wf(),
                i <= self.slots@.len(),
                forall|k: int| 0 <= k < r@.len() ==> (#[trigger] r@[k]).idx < i,
                forall|a: int, b: int|
                    #![trigger r@[a], r@[b]]
                    0 <= a < b < r@.len() ==> r@[a].idx < r@[b].idx,
                forall|k: int| 0 <= k < r@.len() ==> self.contents().contains_key(#[trigger] r@[k]),
                forall|h: Handle| #[trigger]
                    self.contents().contains_key(h) && h.idx < i ==> exists|k: int|
                        0 <= k < r@.len() && r@[k] == h,
            decreases self.slots@.len() - i,
        {
            let ghost r0 = r@;
            if self.slots[i].val.is_some() {
                let h = Handle { idx: i as u32, gen: self.slots[i].gen };
                r.push(h);
            }
            proof {
                assert forall|h: Handle| #[trigger]
                    self.contents().contains_key(h) && h.idx < i + 1 implies exists|k: int|
                    0 <= k < r@.len() && r@[k] == h by {
                    if h.idx < i {
                        let k = choose|k: int| 0 <= k < r0.len() && r0[k] == h;
                        assert(r@[k] == h);
                    } else {
                        assert(h.idx == i);
                        assert(self.slots@[i as int].val is Some);
                        assert(r@[r0.len() as int] == h);
                    }
                }
            }
            i += 1;
        }
        r
    }

    /// The first live thing carrying `tag`, if any does.
    pub fn find_with_class(&self, tag: &str) -> (r: Option<Handle>)
        requires
            self.wf(),
        ensures
            match r {
                Some(h) => self.contents().contains_key(h) && has_class_in(
                    self.contents()[h].classes@,
                    tag@,
                ),
                None => forall|h: Handle| #[trigger]
                    self.contents().contains_key(h) ==> !has_class_in(
                        self.contents()[h].classes@,
                        tag@,
                    ),
            },
    {
        let mut i: usize = 0;
        while i < self.slots.len()
            invariant
                self.wf(),
                i <= self.slots@.len(),
                forall|h: Handle| #[trigger]
                    self.contents().contains_key(h) && h.idx < i ==> !has_class_in(
                        self.contents()[h].classes@,
                        tag@,
                    ),
            decreases self.slots@.len() - i,
        {
            let found = match &self.slots[i].val {
                Some(t) => t.has_class(tag),
                None => false,
            };
            if found {
                let h = Handle { idx: i as u32, gen: self.slots[i].gen };
                return Some(h);
            }
            proof {
                assert forall|h: Handle| #[trigger]
                    self.contents().contains_key(h) && h.idx < i + 1 implies !has_class_in(
                    self.contents()[h].classes@,
                    tag@,
                ) by {}
            }
            i += 1;
        }
        None
    }
}

/// A handle that a removal has invalidated never identifies a live thing
/// again, whatever is inserted afterwards.
pub proof fn lemma_invalidated_not_live(s: Store, h: Handle)
    requires
        s.wf(),
        s.invalidated(h),
    ensures
        !s.contents().contains_key(h),
{
}

} // verus!
