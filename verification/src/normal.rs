//! The base store engine: a slot vector with a LIFO free list.
//!
//! Each slot either holds a live value with an odd version, or is vacant
//! with an even version and a link to the next vacant slot. The free list
//! is threaded through the vacant slots themselves, rooted at a store-level
//! head, so reuse of storage is O(1).

use vstd::prelude::*;
use crate::Key;
use crate::Slottable;
use crate::model::{Entry, valid_in, wrap_inc, count_upto, live_count, live_values, live_keys,
    values_upto, keys_upto, lemma_count_le, lemma_count_agree, lemma_count_update,
    lemma_count_full};

verus! {

/// The reserved index, used both for the null key and as the end marker of
/// the free list.
pub const NULL_IDX: u32 = 0xFFFF_FFFF;

/// The largest number of slots a store may hold: every real slot index must
/// stay below the reserved index.
pub const MAX_SLOTS: u32 = 0xFFFF_FFFE;

enum Slot<T> {
    Occupied { value: T, version: u32 },
    Vacant { next_free: u32, version: u32 },
}

impl<T: Copy> Clone for Slot<T> {
    fn clone(&self) -> (r: Self)
        ensures
            r == *self,
    {
        match self {
            Slot::Occupied { value, version } => Slot::Occupied { value: *value, version: *version },
            Slot::Vacant { next_free, version } => Slot::Vacant { next_free: *next_free, version: *version },
        }
    }
}

impl<T: Copy> Copy for Slot<T> {}

/// The base slot store: values are inserted, addressed and removed through
/// versioned keys; vacant slots are reused in LIFO order.
pub struct SlotMap<T: Slottable> {
    slots: Vec<Slot<T>>,
    free_head: u32,
    num_elems: u32,
    free: Ghost<Seq<u32>>,
}

impl<T: Slottable> SlotMap<T> {
    /// The store's model: for every slot its current version and its
    /// contents.
    pub closed spec fn model(self) -> Seq<Entry<T>> {
        Seq::new(self.slots@.len(), |i: int| match self.slots@[i] {
            Slot::Occupied { value, version } => (version, Some(value)),
            Slot::Vacant { next_free, version } => (version, None),
        })
    }

    /// The validity oracle of this store.
    pub open spec fn spec_valid(self, k: Key) -> bool {
        valid_in(self.model(), k)
    }

    /// Number of live elements.
    pub closed spec fn spec_len(self) -> u32 {
        self.num_elems
    }

    spec fn occupied(self, i: int) -> bool {
        self.slots@[i] is Occupied
    }

    spec fn version_of(self, i: int) -> u32 {
        match self.slots@[i] {
            Slot::Occupied { version, .. } => version,
            Slot::Vacant { version, .. } => version,
        }
    }

    spec fn next_free_of(self, i: int) -> u32 {
        match self.slots@[i] {
            Slot::Occupied { .. } => 0,
            Slot::Vacant { next_free, .. } => next_free,
        }
    }

    spec fn free_list_wf(self) -> bool {
        let fl = self.free@;
        &&& self.free_head == if fl.len() == 0 { NULL_IDX } else { fl[0] }
        &&& forall|p: int| 0 <= p < fl.len()
            ==> (#[trigger] fl[p]) < self.slots@.len() && !self.occupied(fl[p] as int)
        &&& forall|p: int| 0 <= p < fl.len()
            ==> #[trigger] self.next_free_of(fl[p] as int)
                == if p == fl.len() - 1 { NULL_IDX } else { fl[p + 1] }
        &&& forall|p: int, q: int| 0 <= p < q < fl.len() ==> fl[p] != fl[q]
        &&& forall|i: int| 0 <= i < self.slots@.len() && !self.occupied(i) ==> #[trigger] fl.contains(i as u32)
    }

    /// Internal well-formedness: the version parity of every slot encodes
    /// its occupancy, the live counter matches the model, and the free list
    /// threads exactly the vacant slots.
    pub closed spec fn wf(self) -> bool {
        &&& self.slots@.len() <= MAX_SLOTS
        &&& self.num_elems as nat == live_count(self.model())
        &&& forall|i: int| 0 <= i < self.slots@.len()
            ==> (self.occupied(i) <==> #[trigger] self.version_of(i) % 2 == 1)
        &&& self.free_list_wf()
    }

    /// Creates an empty store: no key whatsoever is valid against it.
    pub fn new() -> (s: Self)
        ensures
            s.wf(),
            s.model().len() == 0,
            s.spec_len() == 0,
            forall|k: Key| !s.spec_valid(k),
    {
        let s = SlotMap { slots: Vec::new(), free_head: NULL_IDX, num_elems: 0, free: Ghost(Seq::empty()) };
        proof {
            assert(s.model() =~= Seq::<Entry<T>>::empty());
        }
        s
    }

    /// Number of live elements in the store.
    pub fn len(&self) -> (r: u32)
        requires
            self.wf(),
        ensures
            r == self.spec_len(),
            r as nat == live_count(self.model()),
    {
        self.num_elems
    }

    /// Whether the store holds no live element.
    pub fn is_empty(&self) -> (r: bool)
        requires
            self.wf(),
        ensures
            r == (self.spec_len() == 0),
    {
        self.num_elems == 0
    }

    /// Number of slots the store has ever used; it never shrinks below its
    /// peak.
    pub fn capacity(&self) -> (r: u32)
        requires
            self.wf(),
        ensures
            r as int == self.model().len(),
    {
        self.slots.len() as u32
    }

    /// Whether the key addresses live data in this store.
    pub fn contains_key(&self, k: Key) -> (r: bool)
        requires
            self.wf(),
        ensures
            r == self.spec_valid(k),
    {
        match self.get(k) {
            Some(_) => true,
            None => false,
        }
    }

    /// Returns a reference to the value the key addresses, or `None` when
    /// the key is stale, foreign, null or out of range.
    pub fn get(&self, k: Key) -> (r: Option<&T>)
        requires
            self.wf(),
        ensures
            r is Some <==> self.spec_valid(k),
            r matches Some(v) ==> self.model()[k.idx as int].1 == Some(*v),
    {
        if (k.idx as usize) < self.slots.len() {
            match &self.slots[k.idx as usize] {
                Slot::Occupied { value, version } => {
                    if *version == k.version {
                        Some(value)
                    } else {
                        None
                    }
                },
                Slot::Vacant { .. } => None,
            }
        } else {
            None
        }
    }

    /// Overwrites the value the key addresses, returning whether the key was
    /// valid; a stale, foreign, null or out-of-range key has no observable
    /// effect. This is the mutating access: validity itself never changes.
    pub fn set(&mut self, k: Key, value: T) -> (r: bool)
        requires
            old(self).wf(),
        ensures
            final(self).wf(),
            r == old(self).spec_valid(k),
            !r ==> *final(self) == *old(self),
            r ==> final(self).model() == old(self).model().update(
                k.idx as int,
                (k.version, Some(value)),
            ),
            final(self).spec_len() == old(self).spec_len(),
            forall|h: Key| final(self).spec_valid(h) <==> old(self).spec_valid(h),
    {
        let ghost pre = *self;
        if (k.idx as usize) < self.slots.len() {
            let i = k.idx as usize;
            match self.slots[i] {
                Slot::Occupied { version, .. } => {
                    if version == k.version {
                        self.slots[i] = Slot::Occupied { value, version };
                        proof {
                            let m0 = pre.model();
                            let m1 = self.model();
                            assert(m1 =~= m0.update(i as int, (version, Some(value))));
                            lemma_count_update(m0, i as int, (version, Some(value)), m0.len() as int);
                            assert forall|j: int| 0 <= j < self.slots@.len()
                                implies (self.occupied(j) <==> #[trigger] self.version_of(j) % 2 == 1) by {
                                assert(self.version_of(j) == pre.version_of(j));
                                assert(self.occupied(j) == pre.occupied(j));
                                assert(pre.occupied(j) <==> pre.version_of(j) % 2 == 1);
                            }
                            assert forall|p: int| 0 <= p < self.free@.len()
                                implies (#[trigger] self.free@[p]) < self.slots@.len()
                                    && !self.occupied(self.free@[p] as int) by {
                                assert(pre.free@[p] != k.idx);
                            }
                            assert forall|p: int| 0 <= p < self.free@.len()
                                implies #[trigger] self.next_free_of(self.free@[p] as int)
                                    == if p == self.free@.len() - 1 { NULL_IDX } else { self.free@[p + 1] } by {
                                assert(pre.free@[p] != k.idx);
                                assert(pre.next_free_of(pre.free@[p] as int)
                                    == if p == pre.free@.len() - 1 { NULL_IDX } else { pre.free@[p + 1] });
                            }
                            assert forall|j: int| 0 <= j < self.slots@.len() && !self.occupied(j)
                                implies self.free@.contains(j as u32) by {
                                assert(pre.free@.contains(j as u32));
                            }
                            assert forall|h: Key| self.spec_valid(h) <==> pre.spec_valid(h) by {
                                if h.idx as int != i as int {
                                    assert((h.idx as int) >= m1.len()
                                        || m1[h.idx as int] == m0[h.idx as int]);
                                }
                            }
                        }
                        true
                    } else {
                        false
                    }
                },
                Slot::Vacant { .. } => false,
            }
        } else {
            false
        }
    }

    /// Inserts a value and returns the key under which it is now live.
    ///
    /// The key is fresh: it was not valid before. Every previously valid key
    /// stays valid and keeps its value, so the only way the returned key
    /// could collide with a stale one is a full version wraparound of one
    /// slot — the accepted residual risk. The most recently vacated slot is
    /// reused first; a new slot is appended exactly when no slot is vacant.
    #[verifier::rlimit(100)]
    pub fn insert(&mut self, value: T) -> (k: Key)
        requires
            old(self).wf(),
            old(self).spec_len() < MAX_SLOTS,
        ensures
            final(self).wf(),
            final(self).spec_len() == old(self).spec_len() + 1,
            final(self).spec_valid(k),
            !old(self).spec_valid(k),
            k.idx != u32::MAX && k.version % 2 == 1,
            if k.idx as int == old(self).model().len() {
                final(self).model() == old(self).model().push((k.version, Some(value)))
            } else {
                &&& (k.idx as int) < old(self).model().len()
                &&& old(self).model()[k.idx as int].1 is None
                &&& k.version == wrap_inc(old(self).model()[k.idx as int].0)
                &&& final(self).model() == old(self).model().update(k.idx as int, (k.version, Some(value)))
            },
            (k.idx as int == old(self).model().len())
                <==> (old(self).spec_len() as int == old(self).model().len()),
            forall|h: Key| final(self).spec_valid(h) <==> (old(self).spec_valid(h) || h == k),
    {
        let ghost pre = *self;
        if self.free_head != NULL_IDX {
            let i = self.free_head as usize;
            proof {
                assert(pre.free@[0] == pre.free_head);
            }
            let slot = self.slots[i];
            match slot {
                Slot::Vacant { next_free, version } => {
                    proof {
                        assert(pre.version_of(i as int) == version);
                        assert(!pre.occupied(i as int));
                        assert(version % 2 == 0);
                    }
                    let newv = version + 1;
                    self.slots[i] = Slot::Occupied { value, version: newv };
                    self.free_head = next_free;
                    self.num_elems = self.num_elems + 1;
                    proof {
                        self.free@ = pre.free@.subrange(1, pre.free@.len() as int);
                        assert(pre.next_free_of(i as int) == next_free);
                        let m0 = pre.model();
                        let m1 = self.model();
                        assert(m1 =~= m0.update(i as int, (newv, Some(value))));
                        assert forall|j: int| 0 <= j < self.slots@.len()
                            implies (self.occupied(j) <==> #[trigger] self.version_of(j) % 2 == 1) by {
                            if j != i as int {
                                assert(self.version_of(j) == pre.version_of(j));
                                assert(pre.occupied(j) <==> pre.version_of(j) % 2 == 1);
                            }
                        }
                        lemma_count_update(m0, i as int, (newv, Some(value)), m0.len() as int);
                        lemma_count_le(m1, m1.len() as int);
                        assert forall|p: int| 0 <= p < self.free@.len()
                            implies (#[trigger] self.free@[p]) < self.slots@.len()
                                && !self.occupied(self.free@[p] as int) by {
                            assert(pre.free@[p + 1] == self.free@[p]);
                            assert(pre.free@[p + 1] != pre.free@[0]);
                        }
                        assert forall|p: int| 0 <= p < self.free@.len()
                            implies #[trigger] self.next_free_of(self.free@[p] as int)
                                == if p == self.free@.len() - 1 { NULL_IDX } else { self.free@[p + 1] } by {
                            assert(pre.free@[p + 1] == self.free@[p]);
                            assert(pre.free@[p + 1] != pre.free@[0]);
                            assert(pre.next_free_of(pre.free@[p + 1] as int)
                                == if p + 1 == pre.free@.len() - 1 { NULL_IDX } else { pre.free@[p + 2] });
                        }
                        assert forall|p: int, q: int| 0 <= p < q < self.free@.len()
                            implies self.free@[p] != self.free@[q] by {
                            assert(self.free@[p] == pre.free@[p + 1]);
                            assert(self.free@[q] == pre.free@[q + 1]);
                        }
                        assert forall|j: int| 0 <= j < self.slots@.len() && !self.occupied(j)
                            implies self.free@.contains(j as u32) by {
                            assert(pre.free@.contains(j as u32));
                            let p = choose|p: int| 0 <= p < pre.free@.len() && pre.free@[p] == j as u32;
                            assert(p != 0);
                            assert(self.free@[p - 1] == j as u32);
                        }
                        assert forall|h: Key| self.spec_valid(h)
                            <==> (pre.spec_valid(h) || h == (Key { idx: i as u32, version: newv })) by {
                            if h.idx as int == i as int {
                                assert(m0[h.idx as int].1 is None);
                            }
                        }
                    }
                    Key::new(i as u32, newv)
                },
                Slot::Occupied { .. } => {
                    proof {
                        assert(!pre.occupied(pre.free@[0] as int));
                        assert(false);
                    }
                    vstd::pervasive::unreached()
                },
            }
        } else {
            proof {
                let m0 = pre.model();
                assert forall|j: int| 0 <= j < m0.len() implies m0[j].1 is Some by {
                    if !pre.occupied(j) {
                        assert(pre.free@.contains(j as u32));
                    }
                }
                lemma_count_full(m0, m0.len() as int);
            }
            let idx = self.slots.len() as u32;
            self.slots.push(Slot::Occupied { value, version: 1 });
            self.num_elems = self.num_elems + 1;
            proof {
                let m0 = pre.model();
                let m1 = self.model();
                assert(m1 =~= m0.push((1u32, Some(value))));
                lemma_count_agree(m0, m1, m0.len() as int);
                assert forall|j: int| 0 <= j < self.slots@.len()
                    implies (self.occupied(j) <==> #[trigger] self.version_of(j) % 2 == 1) by {
                    if j < pre.slots@.len() {
                        assert(self.version_of(j) == pre.version_of(j));
                        assert(pre.occupied(j) <==> pre.version_of(j) % 2 == 1);
                    }
                }
                assert(count_upto(m1, m1.len() as int)
                    == count_upto(m1, m0.len() as int) + 1);
                assert forall|h: Key| self.spec_valid(h)
                    <==> (pre.spec_valid(h) || h == (Key { idx, version: 1u32 })) by {
                    if (h.idx as int) < m0.len() {
                        assert(m1[h.idx as int] == m0[h.idx as int]);
                    }
                }
            }
            Key::new(idx, 1)
        }
    }

    /// Removes the value the key addresses and returns it; a stale, foreign,
    /// null or out-of-range key has no observable effect. Once a removal
    /// succeeds, the key is invalid and every other valid key keeps its
    /// value; the slot joins the free list with its version stepped once.
    #[verifier::rlimit(100)]
    pub fn remove(&mut self, k: Key) -> (r: Option<T>)
        requires
            old(self).wf(),
        ensures
            final(self).wf(),
            r is Some <==> old(self).spec_valid(k),
            !old(self).spec_valid(k) ==> *final(self) == *old(self),
            old(self).spec_valid(k) ==> {
                &&& r == Some(old(self).model()[k.idx as int].1.unwrap())
                &&& final(self).model() == old(self).model().update(
                    k.idx as int,
                    (wrap_inc(old(self).model()[k.idx as int].0), None),
                )
                &&& final(self).spec_len() == old(self).spec_len() - 1
            },
            forall|h: Key| final(self).spec_valid(h) <==> (old(self).spec_valid(h) && h != k),
    {
        let ghost pre = *self;
        if (k.idx as usize) < self.slots.len() {
            let i = k.idx as usize;
            let slot = self.slots[i];
            match slot {
                Slot::Occupied { value, version } => {
                    if version == k.version {
                        proof {
                            assert(pre.model()[i as int].1 is Some);
                            lemma_count_update(pre.model(), i as int, (0u32, None::<T>),
                                pre.model().len() as int);
                        }
                        let newv = if version == u32::MAX { 0 } else { version + 1 };
                        self.slots[i] = Slot::Vacant { next_free: self.free_head, version: newv };
                        self.free_head = k.idx;
                        self.num_elems = self.num_elems - 1;
                        proof {
                            let m0 = pre.model();
                            let m1 = self.model();
                            lemma_count_update(m0, i as int, (newv, None::<T>), m0.len() as int);
                            assert(m1 =~= m0.update(i as int, (newv, None)));
                            assert(pre.version_of(i as int) == version && pre.occupied(i as int));
                            assert(version % 2 == 1);
                            self.free@ = seq![k.idx] + pre.free@;
                            assert forall|j: int| 0 <= j < self.slots@.len()
                                implies (self.occupied(j) <==> #[trigger] self.version_of(j) % 2 == 1) by {
                                if j != i as int {
                                    assert(self.version_of(j) == pre.version_of(j));
                                    assert(pre.occupied(j) <==> pre.version_of(j) % 2 == 1);
                                }
                            }
                            assert forall|p: int| 0 <= p < self.free@.len()
                                implies (#[trigger] self.free@[p]) < self.slots@.len()
                                    && !self.occupied(self.free@[p] as int) by {
                                if p > 0 {
                                    assert(self.free@[p] == pre.free@[p - 1]);
                                    assert(pre.free@[p - 1] != k.idx);
                                }
                            }
                            assert forall|p: int| 0 <= p < self.free@.len()
                                implies #[trigger] self.next_free_of(self.free@[p] as int)
                                    == if p == self.free@.len() - 1 { NULL_IDX } else { self.free@[p + 1] } by {
                                if p > 0 {
                                    assert(self.free@[p] == pre.free@[p - 1]);
                                    assert(pre.free@[p - 1] != k.idx);
                                    assert(pre.next_free_of(pre.free@[p - 1] as int)
                                        == if p - 1 == pre.free@.len() - 1 { NULL_IDX } else { pre.free@[p] });
                                }
                            }
                            assert forall|p: int, q: int| 0 <= p < q < self.free@.len()
                                implies self.free@[p] != self.free@[q] by {
                                if p > 0 {
                                    assert(self.free@[p] == pre.free@[p - 1]);
                                    assert(self.free@[q] == pre.free@[q - 1]);
                                } else {
                                    assert(self.free@[q] == pre.free@[q - 1]);
                                    assert(pre.free@[q - 1] != k.idx);
                                }
                            }
                            assert forall|j: int| 0 <= j < self.slots@.len() && !self.occupied(j)
                                implies self.free@.contains(j as u32) by {
                                if j == i as int {
                                    assert(self.free@[0] == j as u32);
                                } else {
                                    assert(pre.free@.contains(j as u32));
                                    let p = choose|p: int| 0 <= p < pre.free@.len() && pre.free@[p] == j as u32;
                                    assert(self.free@[p + 1] == j as u32);
                                }
                            }
                            assert forall|h: Key| self.spec_valid(h)
                                <==> (pre.spec_valid(h) && h != k) by {
                                if h.idx as int == i as int {
                                    assert(m1[h.idx as int].1 is None);
                                }
                            }
                        }
                        Some(value)
                    } else {
                        None
                    }
                },
                Slot::Vacant { .. } => None,
            }
        } else {
            None
        }
    }

    /// The values of all live elements, in increasing index order. This is
    /// the base engine's iteration: it must scan across vacant slots.
    pub fn values(&self) -> (r: Vec<T>)
        requires
            self.wf(),
        ensures
            r@ == live_values(self.model()),
            r@.len() == self.spec_len(),
    {
        let ghost m = self.model();
        let mut r: Vec<T> = Vec::new();
        let mut i: usize = 0;
        while i < self.slots.len()
            invariant
                self.wf(),
                m == self.model(),
                0 <= i <= self.slots.len(),
                r@ == values_upto(m, i as int),
            decreases self.slots.len() - i,
        {
            match &self.slots[i] {
                Slot::Occupied { value, .. } => {
                    r.push(*value);
                },
                Slot::Vacant { .. } => {},
            }
            proof {
                assert(values_upto(m, i as int + 1) =~= r@);
            }
            i = i + 1;
        }
        proof {
            crate::model::lemma_iteration_complete(m);
        }
        r
    }

    /// The keys of all live elements, in increasing index order. Every one
    /// of them is valid, and every valid key is among them.
    pub fn keys(&self) -> (r: Vec<Key>)
        requires
            self.wf(),
        ensures
            r@ == live_keys(self.model()),
            r@.len() == self.spec_len(),
    {
        let ghost m = self.model();
        let mut r: Vec<Key> = Vec::new();
        let mut i: usize = 0;
        while i < self.slots.len()
            invariant
                self.wf(),
                m == self.model(),
                0 <= i <= self.slots.len(),
                r@ == keys_upto(m, i as int),
            decreases self.slots.len() - i,
        {
            match &self.slots[i] {
                Slot::Occupied { version, .. } => {
                    proof {
                        assert(self.version_of(i as int) % 2 == 1);
                    }
                    r.push(Key::new(i as u32, *version));
                },
                Slot::Vacant { .. } => {},
            }
            proof {
                assert(keys_upto(m, i as int + 1) =~= r@);
            }
            i = i + 1;
        }
        proof {
            crate::model::lemma_iteration_complete(m);
        }
        r
    }

    /// The key-value pairs of all live elements, in increasing index
    /// order: position by position the same keys and values that `keys` and
    /// `values` yield.
    pub fn iter(&self) -> (r: Vec<(Key, T)>)
        requires
            self.wf(),
        ensures
            r@.len() == self.spec_len(),
            forall|j: int| 0 <= j < r@.len() ==> #[trigger] r@[j]
                == (live_keys(self.model())[j], live_values(self.model())[j]),
    {
        let ks = self.keys();
        let vs = self.values();
        let mut r: Vec<(Key, T)> = Vec::new();
        let mut j: usize = 0;
        while j < ks.len()
            invariant
                ks@.len() == vs@.len(),
                0 <= j <= ks@.len(),
                r@.len() == j,
                forall|p: int| 0 <= p < j ==> #[trigger] r@[p] == (ks@[p], vs@[p]),
            decreases ks.len() - j,
        {
            r.push((ks[j], vs[j]));
            j = j + 1;
        }
        r
    }

    /// Removes every live element and returns the removed values in
    /// increasing index order, leaving the store empty.
    #[verifier::rlimit(100)]
    pub fn drain(&mut self) -> (r: Vec<T>)
        requires
            old(self).wf(),
        ensures
            final(self).wf(),
            r@ == live_values(old(self).model()),
            final(self).spec_len() == 0,
            forall|h: Key| !final(self).spec_valid(h),
    {
        let ks = self.keys();
        let ghost m0 = self.model();
        proof {
            crate::model::lemma_iteration_complete(m0);
        }
        let mut r: Vec<T> = Vec::new();
        let mut j: usize = 0;
        while j < ks.len()
            invariant
                self.wf(),
                ks@ == live_keys(m0),
                ks@.len() == live_values(m0).len(),
                0 <= j <= ks@.len(),
                r@ == live_values(m0).subrange(0, j as int),
                forall|h: Key| self.spec_valid(h)
                    <==> (crate::model::valid_in(m0, h) && !ks@.subrange(0, j as int).contains(h)),
                self.spec_len() as int == ks@.len() - j,
                self.model().len() == m0.len(),
                forall|p: int| j <= p < ks@.len()
                    ==> self.model()[(#[trigger] ks@[p]).idx as int] == m0[ks@[p].idx as int],
            decreases ks.len() - j,
        {
            let k = ks[j];
            proof {
                crate::model::lemma_iteration_complete(m0);
                assert(ks@.subrange(0, j as int).contains(k) ==> exists|p: int|
                    0 <= p < j && ks@[p] == k);
                assert forall|p: int| 0 <= p < j implies ks@[p] != k by {
                    assert(ks@[p].idx < ks@[j as int].idx);
                }
                assert(!ks@.subrange(0, j as int).contains(k));
                assert(self.model()[(ks@[j as int]).idx as int] == m0[ks@[j as int].idx as int]);
            }
            let v = self.remove(k);
            match v {
                Some(value) => {
                    r.push(value);
                    proof {
                        assert(m0[k.idx as int].1 == Some(live_values(m0)[j as int]));
                        assert(r@ =~= live_values(m0).subrange(0, j as int + 1));
                        assert forall|p: int| j + 1 <= p < ks@.len()
                            implies self.model()[(#[trigger] ks@[p]).idx as int]
                                == m0[ks@[p].idx as int] by {
                            assert(ks@[j as int].idx < ks@[p].idx);
                        }
                        assert forall|h: Key| self.spec_valid(h)
                            <==> (crate::model::valid_in(m0, h)
                                && !ks@.subrange(0, j as int + 1).contains(h)) by {
                            if crate::model::valid_in(m0, h) {
                                assert(ks@.subrange(0, j as int + 1).contains(h)
                                    <==> (ks@.subrange(0, j as int).contains(h) || h == k)) by {
                                    if ks@.subrange(0, j as int + 1).contains(h) {
                                        let p = choose|p: int| 0 <= p < j + 1
                                            && #[trigger] ks@.subrange(0, j as int + 1)[p] == h;
                                        if p < j {
                                            assert(ks@.subrange(0, j as int)[p] == h);
                                        }
                                    } else {
                                        if ks@.subrange(0, j as int).contains(h) {
                                            let p = choose|p: int| 0 <= p < j && ks@.subrange(0, j as int)[p] == h;
                                            assert(ks@.subrange(0, j as int + 1)[p] == h);
                                        }
                                        if h == k {
                                            assert(ks@.subrange(0, j as int + 1)[j as int] == h);
                                        }
                                    }
                                }
                            }
                        }
                    }
                },
                None => {
                    proof {
                        assert(false);
                    }
                },
            }
            j = j + 1;
        }
        proof {
            assert(r@ =~= live_values(m0));
            assert forall|h: Key| !self.spec_valid(h) by {
                if crate::model::valid_in(m0, h) {
                    assert(ks@.subrange(0, j as int) =~= ks@);
                    crate::model::lemma_iteration_complete(m0);
                }
            }
        }
        r
    }
}

/// Null invariance for the base engine: the null key is invalid against
/// every well-formed store, whatever its state.
pub proof fn lemma_null_never_valid<T: Slottable>(s: SlotMap<T>)
    requires
        s.wf(),
    ensures
        !s.spec_valid(Key::spec_null()),
{
}

} // verus!
