//! The block-skip store engine: iteration hops over vacant runs.
//!
//! Slots carry the same version scheme as the base engine, but a vacant
//! slot additionally holds navigation fields: the maximal contiguous runs
//! of vacant slots form a doubly-linked list, each run's head storing the
//! links and each end of a run storing the opposite end. A full-table walk
//! jumps from one occupied stretch to the next in one step per run,
//! whatever the run's length; insert and remove pay for it by keeping the
//! run metadata consistent through every shrink and merge.

use vstd::prelude::*;
use crate::Key;
use crate::Slottable;
use crate::normal::SlotMap;
use crate::normal::{NULL_IDX, MAX_SLOTS};
use crate::model::{Entry, valid_in, wrap_inc, count_upto, live_count, live_values, live_keys,
    values_upto, keys_upto, lemma_count_le, lemma_count_agree, lemma_count_update,
    lemma_count_full, lemma_skip_vacant, lemma_values_agree};

verus! {

enum HopSlot<T> {
    Occupied { value: T, version: u32 },
    Vacant { version: u32, prev: u32, next: u32, other_end: u32 },
}

impl<T: Copy> Clone for HopSlot<T> {
    fn clone(&self) -> (r: Self)
        ensures
            r == *self,
    {
        match self {
            HopSlot::Occupied { value, version } => HopSlot::Occupied {
                value: *value,
                version: *version,
            },
            HopSlot::Vacant { version, prev, next, other_end } => HopSlot::Vacant {
                version: *version,
                prev: *prev,
                next: *next,
                other_end: *other_end,
            },
        }
    }
}

impl<T: Copy> Copy for HopSlot<T> {}

/// The block-skip slot store: the same external contract as the base
/// engine, with iteration that skips vacant runs in one hop each.
pub struct HopSlotMap<T: Slottable> {
    slots: Vec<HopSlot<T>>,
    free_head: u32,
    num_elems: u32,
    runs: Ghost<Seq<u32>>,
}

impl<T: Slottable> HopSlotMap<T> {
    /// The store's model: for every slot its current version and its
    /// contents.
    pub closed spec fn model(self) -> Seq<Entry<T>> {
        Seq::new(self.slots@.len(), |i: int| match self.slots@[i] {
            HopSlot::Occupied { value, version } => (version, Some(value)),
            HopSlot::Vacant { version, .. } => (version, None),
        })
    }

    /// The validity oracle of this store.
    pub open spec fn spec_valid(self, k: Key) -> bool {
        valid_in(self.model(), k)
    }

    /// Number of live elements.
    pub closed spec fn spec_len(self) -> u32 {
        self.num_elems
    }

    spec fn occ(self, i: int) -> bool {
        self.slots@[i] is Occupied
    }

    spec fn version_of(self, i: int) -> u32 {
        match self.slots@[i] {
            HopSlot::Occupied { version, .. } => version,
            HopSlot::Vacant { version, .. } => version,
        }
    }

    spec fn prev_of(self, i: int) -> u32 {
        match self.slots@[i] {
            HopSlot::Occupied { .. } => 0,
            HopSlot::Vacant { prev, .. } => prev,
        }
    }

    spec fn next_of(self, i: int) -> u32 {
        match self.slots@[i] {
            HopSlot::Occupied { .. } => 0,
            HopSlot::Vacant { next, .. } => next,
        }
    }

    spec fn oe_of(self, i: int) -> u32 {
        match self.slots@[i] {
            HopSlot::Occupied { .. } => 0,
            HopSlot::Vacant { other_end, .. } => other_end,
        }
    }

    /// A maximal contiguous stretch of vacant slots.
    spec fn is_run(self, a: int, e: int) -> bool {
        &&& 0 <= a <= e < self.slots@.len()
        &&& forall|j: int| a <= j <= e ==> !self.occ(j)
        &&& a == 0 || self.occ(a - 1)
        &&& e == self.slots@.len() - 1 || self.occ(e + 1)
    }

    /// The first slot of a vacant run.
    spec fn head_of(self, i: int) -> bool {
        &&& 0 <= i < self.slots@.len()
        &&& !self.occ(i)
        &&& i == 0 || self.occ(i - 1)
    }

    spec fn runs_wf(self) -> bool {
        let rs = self.runs@;
        &&& forall|a: int, e: int| #[trigger] self.is_run(a, e)
            ==> self.oe_of(a) == e && self.oe_of(e) == a
        &&& self.free_head == if rs.len() == 0 { NULL_IDX } else { rs[0] }
        &&& forall|p: int| 0 <= p < rs.len() ==> self.head_of((#[trigger] rs[p]) as int)
        &&& forall|p: int| 0 <= p < rs.len()
            ==> #[trigger] self.next_of(rs[p] as int)
                == if p == rs.len() - 1 { NULL_IDX } else { rs[p + 1] }
        &&& forall|p: int| 0 <= p < rs.len()
            ==> #[trigger] self.prev_of(rs[p] as int) == if p == 0 { NULL_IDX } else { rs[p - 1] }
        &&& forall|p: int, q: int| 0 <= p < q < rs.len() ==> rs[p] != rs[q]
        &&& forall|i: int| self.head_of(i) ==> #[trigger] self.runs@.contains(i as u32)
    }

    /// Internal well-formedness: version parity encodes occupancy, the live
    /// counter matches the model, every run's ends know each other, and the
    /// run heads form the doubly-linked free list.
    pub closed spec fn wf(self) -> bool {
        &&& self.slots@.len() <= MAX_SLOTS
        &&& self.num_elems as nat == live_count(self.model())
        &&& forall|i: int| 0 <= i < self.slots@.len()
            ==> (self.occ(i) <==> #[trigger] self.version_of(i) % 2 == 1)
        &&& self.runs_wf()
    }

    /// `a` heads the vacant stretch that reaches `i`.
    spec fn stretch_head(self, i: int, a: int) -> bool {
        &&& 0 <= a <= i
        &&& a == 0 || self.occ(a - 1)
        &&& forall|j: int| a <= j <= i ==> !self.occ(j)
    }

    /// `e` ends the vacant stretch that starts at `i`.
    spec fn stretch_tail(self, i: int, e: int) -> bool {
        &&& i <= e < self.slots@.len()
        &&& e == self.slots@.len() - 1 || self.occ(e + 1)
        &&& forall|j: int| i <= j <= e ==> !self.occ(j)
    }

    /// Walking left from a vacant slot reaches the head of its run.
    proof fn lemma_find_head(self, i: int)
        requires
            0 <= i < self.slots@.len(),
            !self.occ(i),
        ensures
            exists|a: int| #[trigger] self.stretch_head(i, a),
        decreases i,
    {
        if i == 0 || self.occ(i - 1) {
            assert(self.stretch_head(i, i));
        } else {
            self.lemma_find_head(i - 1);
            let a = choose|a: int| #[trigger] self.stretch_head(i - 1, a);
            assert(self.stretch_head(i, a));
        }
    }

    /// Walking right from a vacant slot reaches the end of its run.
    proof fn lemma_find_tail(self, i: int)
        requires
            0 <= i < self.slots@.len(),
            !self.occ(i),
        ensures
            exists|e: int| #[trigger] self.stretch_tail(i, e),
        decreases self.slots@.len() - i,
    {
        let n = self.slots@.len() as int;
        if i == n - 1 || self.occ(i + 1) {
            assert(self.stretch_tail(i, i));
        } else {
            self.lemma_find_tail(i + 1);
            let e = choose|e: int| #[trigger] self.stretch_tail(i + 1, e);
            assert(self.stretch_tail(i, e));
        }
    }

    /// Every vacant slot lies in exactly one run; here: some run holds it.
    proof fn lemma_run_around(self, i: int)
        requires
            0 <= i < self.slots@.len(),
            !self.occ(i),
        ensures
            exists|a: int, e: int| #[trigger] self.is_run(a, e) && a <= i <= e,
    {
        self.lemma_find_head(i);
        let a = choose|a: int| #[trigger] self.stretch_head(i, a);
        self.lemma_find_tail(i);
        let e = choose|e: int| #[trigger] self.stretch_tail(i, e);
        assert(self.is_run(a, e) && a <= i <= e);
    }

    /// Runs never overlap: two runs through a common slot are one run.
    proof fn lemma_run_unique(self, a1: int, e1: int, a2: int, e2: int, x: int)
        requires
            self.is_run(a1, e1),
            self.is_run(a2, e2),
            a1 <= x <= e1,
            a2 <= x <= e2,
        ensures
            a1 == a2,
            e1 == e2,
    {
        if a1 < a2 {
            assert(!self.occ(a2 - 1));
            assert(self.occ(a2 - 1));
        }
        if a2 < a1 {
            assert(!self.occ(a1 - 1));
            assert(self.occ(a1 - 1));
        }
        if e1 < e2 {
            assert(!self.occ(e1 + 1));
            assert(self.occ(e1 + 1));
        }
        if e2 < e1 {
            assert(!self.occ(e2 + 1));
            assert(self.occ(e2 + 1));
        }
    }

    /// The run that an exec reader sees through `other_end` is the real one.
    proof fn lemma_oe_is_run(self, h: int)
        requires
            self.wf(),
            self.head_of(h),
        ensures
            h <= self.oe_of(h) < self.slots@.len(),
            self.is_run(h, self.oe_of(h) as int),
    {
        self.lemma_run_around(h);
        let (a, e) = choose|a: int, e: int| #[trigger] self.is_run(a, e) && a <= h <= e;
        if a < h {
            assert(!self.occ(h - 1));
        }
        assert(a == h);
        assert(self.oe_of(h) == e);
    }

    fn set_vacant_other_end(&mut self, i: usize, v: u32)
        requires
            (i as int) < old(self).slots@.len(),
            !old(self).occ(i as int),
        ensures
            final(self).slots@ == old(self).slots@.update(i as int, HopSlot::Vacant {
                version: old(self).version_of(i as int),
                prev: old(self).prev_of(i as int),
                next: old(self).next_of(i as int),
                other_end: v,
            }),
            final(self).free_head == old(self).free_head,
            final(self).num_elems == old(self).num_elems,
            final(self).runs == old(self).runs,
    {
        let s = self.slots[i];
        match s {
            HopSlot::Vacant { version, prev, next, .. } => {
                self.slots[i] = HopSlot::Vacant { version, prev, next, other_end: v };
            },
            HopSlot::Occupied { .. } => {
                proof {
                    assert(false);
                }
            },
        }
    }

    fn set_vacant_prev(&mut self, i: usize, v: u32)
        requires
            (i as int) < old(self).slots@.len(),
            !old(self).occ(i as int),
        ensures
            final(self).slots@ == old(self).slots@.update(i as int, HopSlot::Vacant {
                version: old(self).version_of(i as int),
                prev: v,
                next: old(self).next_of(i as int),
                other_end: old(self).oe_of(i as int),
            }),
            final(self).free_head == old(self).free_head,
            final(self).num_elems == old(self).num_elems,
            final(self).runs == old(self).runs,
    {
        let s = self.slots[i];
        match s {
            HopSlot::Vacant { version, next, other_end, .. } => {
                self.slots[i] = HopSlot::Vacant { version, prev: v, next, other_end };
            },
            HopSlot::Occupied { .. } => {
                proof {
                    assert(false);
                }
            },
        }
    }

    fn set_vacant_next(&mut self, i: usize, v: u32)
        requires
            (i as int) < old(self).slots@.len(),
            !old(self).occ(i as int),
        ensures
            final(self).slots@ == old(self).slots@.update(i as int, HopSlot::Vacant {
                version: old(self).version_of(i as int),
                prev: old(self).prev_of(i as int),
                next: v,
                other_end: old(self).oe_of(i as int),
            }),
            final(self).free_head == old(self).free_head,
            final(self).num_elems == old(self).num_elems,
            final(self).runs == old(self).runs,
    {
        let s = self.slots[i];
        match s {
            HopSlot::Vacant { version, prev, other_end, .. } => {
                self.slots[i] = HopSlot::Vacant { version, prev, next: v, other_end };
            },
            HopSlot::Occupied { .. } => {
                proof {
                    assert(false);
                }
            },
        }
    }

    /// Creates an empty store: no key whatsoever is valid against it.
    pub fn new() -> (s: Self)
        ensures
            s.wf(),
            s.model().len() == 0,
            s.spec_len() == 0,
            forall|k: Key| !s.spec_valid(k),
    {
        let s = HopSlotMap {
            slots: Vec::new(),
            free_head: NULL_IDX,
            num_elems: 0,
            runs: Ghost(Seq::empty()),
        };
        proof {
            assert(s.model() =~= Seq::<Entry<T>>::empty());
        }
        s
    }

    /// Number of live elements in the store.
    pub fn len(&self) -> (r: u32)
        requires
            self.wf(),
        ensures
            r == self.spec_len(),
            r as nat == live_count(self.model()),
    {
        self.num_elems
    }

    /// Whether the store holds no live element.
    pub fn is_empty(&self) -> (r: bool)
        requires
            self.wf(),
        ensures
            r == (self.spec_len() == 0),
    {
        self.num_elems == 0
    }

    /// Number of slots the store has ever used; it never shrinks below its
    /// peak.
    pub fn capacity(&self) -> (r: u32)
        requires
            self.wf(),
        ensures
            r as int == self.model().len(),
    {
        self.slots.len() as u32
    }

    /// Whether the key addresses live data in this store.
    pub fn contains_key(&self, k: Key) -> (r: bool)
        requires
            self.wf(),
        ensures
            r == self.spec_valid(k),
    {
        match self.get(k) {
            Some(_) => true,
            None => false,
        }
    }

    /// Returns a reference to the value the key addresses, or `None` when
    /// the key is stale, foreign, null or out of range.
    pub fn get(&self, k: Key) -> (r: Option<&T>)
        requires
            self.wf(),
        ensures
            r is Some <==> self.spec_valid(k),
            r matches Some(v) ==> self.model()[k.idx as int].1 == Some(*v),
    {
        if (k.idx as usize) < self.slots.len() {
            match &self.slots[k.idx as usize] {
                HopSlot::Occupied { value, version } => {
                    if *version == k.version {
                        Some(value)
                    } else {
                        None
                    }
                },
                HopSlot::Vacant { .. } => None,
            }
        } else {
            None
        }
    }

    /// Vacates slot `i` whose both neighbours are occupied (or absent): the
    /// slot starts a new single-slot run, pushed on the front of the run
    /// list.
    fn detach_isolated(&mut self, i: usize, newv: u32)
        requires
            old(self).wf(),
            (i as int) < old(self).slots@.len(),
            old(self).occ(i as int),
            newv == wrap_inc(old(self).version_of(i as int)),
            i as int == 0 || old(self).occ(i as int - 1),
            i as int + 1 == old(self).slots@.len() || old(self).occ(i as int + 1),
        ensures
            final(self).wf(),
            final(self).model() == old(self).model().update(i as int, (newv, None)),
            final(self).spec_len() == old(self).spec_len() - 1,
    {
        let ghost pre = *self;
        proof {
            assert(pre.model()[i as int].1 is Some);
            lemma_count_update(pre.model(), i as int, (0u32, None::<T>), pre.model().len() as int);
            assert(pre.version_of(i as int) % 2 == 1);
        }
        let fh = self.free_head;
        self.slots[i] = HopSlot::Vacant {
            version: newv,
            prev: NULL_IDX,
            next: fh,
            other_end: i as u32,
        };
        if fh != NULL_IDX {
            proof {
                assert(pre.runs@[0] == fh);
                assert(pre.head_of(fh as int));
            }
            self.set_vacant_prev(fh as usize, i as u32);
        }
        self.free_head = i as u32;
        self.num_elems = self.num_elems - 1;
        proof {
            self.runs@ = seq![i as u32] + pre.runs@;
            let m0 = pre.model();
            let m1 = self.model();
            lemma_count_update(m0, i as int, (newv, None::<T>), m0.len() as int);
            assert(m1 =~= m0.update(i as int, (newv, None)));
            assert(forall|j: int| 0 <= j < self.slots@.len() && j != i as int
                ==> #[trigger] self.occ(j) == pre.occ(j)
                    && self.version_of(j) == pre.version_of(j)
                    && self.oe_of(j) == pre.oe_of(j));
            assert forall|j: int| 0 <= j < self.slots@.len()
                implies (self.occ(j) <==> #[trigger] self.version_of(j) % 2 == 1) by {
                if j != i as int {
                    assert(pre.occ(j) <==> pre.version_of(j) % 2 == 1);
                }
            }
            assert(self.is_run(i as int, i as int));
            assert forall|a: int, e: int| #[trigger] self.is_run(a, e)
                implies self.oe_of(a) == e && self.oe_of(e) == a by {
                if a <= i as int <= e {
                    self.lemma_run_unique(a, e, i as int, i as int, i as int);
                } else {
                    assert forall|j: int| a <= j <= e implies !pre.occ(j) by {
                        assert(!self.occ(j));
                    }
                    assert(pre.is_run(a, e));
                    assert(self.oe_of(a) == pre.oe_of(a) && self.oe_of(e) == pre.oe_of(e));
                }
            }
            let rs = pre.runs@;
            let rs1 = self.runs@;
            assert forall|p: int| 0 <= p < rs1.len()
                implies self.head_of((#[trigger] rs1[p]) as int) by {
                if p > 0 {
                    assert(rs1[p] == rs[p - 1]);
                    assert(pre.head_of(rs[p - 1] as int));
                    assert(rs[p - 1] as int != i as int + 1 || !pre.occ(i as int + 1));
                }
            }
            assert forall|p: int| 0 <= p < rs1.len()
                implies #[trigger] self.next_of(rs1[p] as int)
                    == if p == rs1.len() - 1 { NULL_IDX } else { rs1[p + 1] } by {
                if p > 0 {
                    assert(rs1[p] == rs[p - 1]);
                    assert(self.next_of(rs[p - 1] as int) == pre.next_of(rs[p - 1] as int));
                    assert(pre.next_of(rs[p - 1] as int)
                        == if p - 1 == rs.len() - 1 { NULL_IDX } else { rs[p] });
                }
            }
            assert forall|p: int| 0 <= p < rs1.len()
                implies #[trigger] self.prev_of(rs1[p] as int)
                    == if p == 0 { NULL_IDX } else { rs1[p - 1] } by {
                if p > 1 {
                    assert(rs1[p] == rs[p - 1]);
                    assert(self.prev_of(rs[p - 1] as int) == pre.prev_of(rs[p - 1] as int));
                    assert(pre.prev_of(rs[p - 1] as int)
                        == if p - 1 == 0 { NULL_IDX } else { rs[p - 2] });
                }
            }
            assert forall|p: int, q: int| 0 <= p < q < rs1.len()
                implies rs1[p] != rs1[q] by {
                if p > 0 {
                    assert(rs1[p] == rs[p - 1] && rs1[q] == rs[q - 1]);
                } else {
                    assert(rs1[q] == rs[q - 1]);
                    assert(pre.head_of(rs[q - 1] as int));
                }
            }
            assert forall|x: int| self.head_of(x) implies #[trigger] rs1.contains(x as u32) by {
                if x == i as int {
                    assert(rs1[0] == x as u32);
                } else {
                    assert(pre.head_of(x));
                    assert(rs.contains(x as u32));
                    let p = choose|p: int| 0 <= p < rs.len() && rs[p] == x as u32;
                    assert(rs1[p + 1] == x as u32);
                }
            }
        }
    }

    /// Vacates slot `i` whose left neighbour is vacant and right neighbour
    /// occupied (or absent): the left run grows by one; the run list is
    /// untouched.
    fn detach_merge_left(&mut self, i: usize, newv: u32)
        requires
            old(self).wf(),
            (i as int) < old(self).slots@.len(),
            old(self).occ(i as int),
            newv == wrap_inc(old(self).version_of(i as int)),
            i as int > 0 && !old(self).occ(i as int - 1),
            i as int + 1 == old(self).slots@.len() || old(self).occ(i as int + 1),
        ensures
            final(self).wf(),
            final(self).model() == old(self).model().update(i as int, (newv, None)),
            final(self).spec_len() == old(self).spec_len() - 1,
    {
        let ghost pre = *self;
        proof {
            assert(pre.model()[i as int].1 is Some);
            lemma_count_update(pre.model(), i as int, (0u32, None::<T>), pre.model().len() as int);
            assert(pre.version_of(i as int) % 2 == 1);
            pre.lemma_find_head(i as int - 1);
            let a0 = choose|a0: int| #[trigger] pre.stretch_head(i as int - 1, a0);
            assert(pre.is_run(a0, i as int - 1));
        }
        let am = self.slots[i - 1];
        let a = match am {
            HopSlot::Vacant { other_end, .. } => other_end,
            HopSlot::Occupied { .. } => {
                proof {
                    assert(false);
                }
                0
            },
        };
        proof {
            let a0 = choose|a0: int| #[trigger] pre.stretch_head(i as int - 1, a0);
            assert(pre.oe_of(i as int - 1) == a0);
            assert(a == a0);
        }
        self.slots[i] = HopSlot::Vacant {
            version: newv,
            prev: NULL_IDX,
            next: NULL_IDX,
            other_end: a,
        };
        self.set_vacant_other_end(a as usize, i as u32);
        self.num_elems = self.num_elems - 1;
        proof {
            let m0 = pre.model();
            let m1 = self.model();
            lemma_count_update(m0, i as int, (newv, None::<T>), m0.len() as int);
            assert(m1 =~= m0.update(i as int, (newv, None)));
            assert(forall|j: int| 0 <= j < self.slots@.len() && j != i as int
                ==> #[trigger] self.occ(j) == pre.occ(j)
                    && self.version_of(j) == pre.version_of(j)
                    && self.prev_of(j) == pre.prev_of(j)
                    && self.next_of(j) == pre.next_of(j));
            assert(forall|j: int| 0 <= j < self.slots@.len() && j != i as int && j != a as int
                ==> #[trigger] self.oe_of(j) == pre.oe_of(j));
            assert forall|j: int| 0 <= j < self.slots@.len()
                implies (self.occ(j) <==> #[trigger] self.version_of(j) % 2 == 1) by {
                if j != i as int {
                    assert(pre.occ(j) <==> pre.version_of(j) % 2 == 1);
                }
            }
            assert(pre.is_run(a as int, i as int - 1));
            assert(self.is_run(a as int, i as int));
            assert forall|a2: int, e2: int| #[trigger] self.is_run(a2, e2)
                implies self.oe_of(a2) == e2 && self.oe_of(e2) == a2 by {
                if a2 <= i as int <= e2 {
                    self.lemma_run_unique(a2, e2, a as int, i as int, i as int);
                } else {
                    assert forall|j: int| a2 <= j <= e2 implies !pre.occ(j) by {
                        assert(!self.occ(j));
                    }
                    if a2 <= a as int <= e2 {
                        self.lemma_run_unique(a2, e2, a as int, i as int, a as int);
                        assert(false);
                    }
                    assert(pre.is_run(a2, e2));
                    assert(self.oe_of(a2) == pre.oe_of(a2) && self.oe_of(e2) == pre.oe_of(e2));
                }
            }
            let rs = pre.runs@;
            assert(self.runs@ == rs);
            assert forall|p: int| 0 <= p < rs.len()
                implies self.head_of((#[trigger] rs[p]) as int) by {
                assert(pre.head_of(rs[p] as int));
                assert(rs[p] as int != i as int);
            }
            assert forall|p: int| 0 <= p < rs.len()
                implies #[trigger] self.next_of(rs[p] as int)
                    == if p == rs.len() - 1 { NULL_IDX } else { rs[p + 1] } by {
                assert(pre.head_of(rs[p] as int));
                assert(rs[p] as int != i as int);
                assert(self.next_of(rs[p] as int) == pre.next_of(rs[p] as int));
                assert(pre.next_of(rs[p] as int)
                    == if p == rs.len() - 1 { NULL_IDX } else { rs[p + 1] });
            }
            assert forall|p: int| 0 <= p < rs.len()
                implies #[trigger] self.prev_of(rs[p] as int)
                    == if p == 0 { NULL_IDX } else { rs[p - 1] } by {
                assert(pre.head_of(rs[p] as int));
                assert(rs[p] as int != i as int);
                assert(self.prev_of(rs[p] as int) == pre.prev_of(rs[p] as int));
                assert(pre.prev_of(rs[p] as int) == if p == 0 { NULL_IDX } else { rs[p - 1] });
            }
            assert forall|x: int| self.head_of(x) implies #[trigger] self.runs@.contains(x as u32) by {
                assert(x != i as int);
                assert(pre.head_of(x));
                assert(rs.contains(x as u32));
            }
        }
    }

    /// Vacates slot `i` whose right neighbour is vacant and left neighbour
    /// occupied (or absent): the right run grows leftwards, so its head
    /// moves from `i + 1` to `i` and takes over the old head's place in the
    /// run list.
    fn detach_merge_right(&mut self, i: usize, newv: u32)
        requires
            old(self).wf(),
            (i as int) < old(self).slots@.len(),
            old(self).occ(i as int),
            newv == wrap_inc(old(self).version_of(i as int)),
            i as int == 0 || old(self).occ(i as int - 1),
            i as int + 1 < old(self).slots@.len() && !old(self).occ(i as int + 1),
        ensures
            final(self).wf(),
            final(self).model() == old(self).model().update(i as int, (newv, None)),
            final(self).spec_len() == old(self).spec_len() - 1,
    {
        let ghost pre = *self;
        proof {
            assert(pre.model()[i as int].1 is Some);
            lemma_count_update(pre.model(), i as int, (0u32, None::<T>), pre.model().len() as int);
            assert(pre.version_of(i as int) % 2 == 1);
            assert(pre.head_of(i as int + 1));
            pre.lemma_oe_is_run(i as int + 1);
            assert(pre.runs@.contains((i + 1) as u32));
        }
        let ghost rs = pre.runs@;
        let ghost q = choose|q: int| 0 <= q < rs.len() && rs[q] == (i + 1) as u32;
        let hm = self.slots[i + 1];
        let (hp, hn, b) = match hm {
            HopSlot::Vacant { prev, next, other_end, .. } => (prev, next, other_end),
            HopSlot::Occupied { .. } => {
                proof {
                    assert(false);
                }
                (0, 0, 0)
            },
        };
        proof {
            assert(pre.prev_of(i as int + 1) == hp && pre.next_of(i as int + 1) == hn
                && pre.oe_of(i as int + 1) == b);
            assert(hn == if q == rs.len() - 1 { NULL_IDX } else { rs[q + 1] });
            assert(hp == if q == 0 { NULL_IDX } else { rs[q - 1] });
            assert(pre.is_run(i as int + 1, b as int));
            assert((b as int) < pre.slots@.len() && !pre.occ(b as int));
        }
        self.slots[i] = HopSlot::Vacant { version: newv, prev: hp, next: hn, other_end: b };
        self.set_vacant_other_end(b as usize, i as u32);
        if hp != NULL_IDX {
            proof {
                assert(pre.head_of(rs[q - 1] as int));
            }
            self.set_vacant_next(hp as usize, i as u32);
        } else {
            self.free_head = i as u32;
        }
        if hn != NULL_IDX {
            proof {
                assert(pre.head_of(rs[q + 1] as int));
            }
            self.set_vacant_prev(hn as usize, i as u32);
        }
        self.num_elems = self.num_elems - 1;
        proof {
            self.runs@ = rs.update(q, i as u32);
            let m0 = pre.model();
            let m1 = self.model();
            lemma_count_update(m0, i as int, (newv, None::<T>), m0.len() as int);
            assert(m1 =~= m0.update(i as int, (newv, None)));
            assert(forall|j: int| 0 <= j < self.slots@.len() && j != i as int
                ==> #[trigger] self.occ(j) == pre.occ(j)
                    && self.version_of(j) == pre.version_of(j));
            assert(forall|j: int| 0 <= j < self.slots@.len() && j != i as int && j != b as int
                ==> #[trigger] self.oe_of(j) == pre.oe_of(j));
            assert(forall|j: int| 0 <= j < self.slots@.len() && j != i as int && j != hp as int
                ==> #[trigger] self.next_of(j) == pre.next_of(j));
            assert(forall|j: int| 0 <= j < self.slots@.len() && j != i as int && j != hn as int
                ==> #[trigger] self.prev_of(j) == pre.prev_of(j));
            assert forall|j: int| 0 <= j < self.slots@.len()
                implies (self.occ(j) <==> #[trigger] self.version_of(j) % 2 == 1) by {
                if j != i as int {
                    assert(pre.occ(j) <==> pre.version_of(j) % 2 == 1);
                }
            }
            assert(self.is_run(i as int, b as int));
            assert(self.oe_of(i as int) == b && self.oe_of(b as int) == i as u32);
            assert forall|a2: int, e2: int| #[trigger] self.is_run(a2, e2)
                implies self.oe_of(a2) == e2 && self.oe_of(e2) == a2 by {
                if a2 <= i as int <= e2 {
                    self.lemma_run_unique(a2, e2, i as int, b as int, i as int);
                } else {
                    assert forall|j: int| a2 <= j <= e2 implies !pre.occ(j) by {
                        assert(!self.occ(j));
                    }
                    if a2 <= b as int <= e2 {
                        self.lemma_run_unique(a2, e2, i as int, b as int, b as int);
                        assert(false);
                    }
                    assert(pre.is_run(a2, e2));
                    assert(self.oe_of(a2) == pre.oe_of(a2) && self.oe_of(e2) == pre.oe_of(e2));
                }
            }
            let rs1 = self.runs@;
            assert(rs1.len() == rs.len() && rs1[q] == i as u32);
            assert forall|p2: int| 0 <= p2 < rs1.len()
                implies self.head_of((#[trigger] rs1[p2]) as int) by {
                if p2 != q {
                    assert(rs1[p2] == rs[p2]);
                    assert(pre.head_of(rs[p2] as int));
                    assert(rs[p2] != (i + 1) as u32);
                }
            }
            assert forall|p2: int| 0 <= p2 < rs1.len()
                implies #[trigger] self.next_of(rs1[p2] as int)
                    == if p2 == rs1.len() - 1 { NULL_IDX } else { rs1[p2 + 1] } by {
                if p2 == q {
                    assert(self.next_of(i as int) == hn);
                } else {
                    assert(rs1[p2] == rs[p2]);
                    assert(pre.head_of(rs[p2] as int));
                    if p2 == q - 1 {
                        assert(self.next_of(hp as int) == i as u32);
                    } else {
                        assert(rs[p2] != rs[q - 1] || q == 0);
                        assert(self.next_of(rs[p2] as int) == pre.next_of(rs[p2] as int));
                        assert(pre.next_of(rs[p2] as int)
                            == if p2 == rs.len() - 1 { NULL_IDX } else { rs[p2 + 1] });
                        assert(p2 + 1 != q || rs[p2 + 1] == rs[q]);
                        assert(p2 + 1 != q);
                    }
                }
            }
            assert forall|p2: int| 0 <= p2 < rs1.len()
                implies #[trigger] self.prev_of(rs1[p2] as int)
                    == if p2 == 0 { NULL_IDX } else { rs1[p2 - 1] } by {
                if p2 == q {
                    assert(self.prev_of(i as int) == hp);
                } else {
                    assert(rs1[p2] == rs[p2]);
                    assert(pre.head_of(rs[p2] as int));
                    if p2 == q + 1 {
                        assert(self.prev_of(hn as int) == i as u32);
                    } else {
                        assert(self.prev_of(rs[p2] as int) == pre.prev_of(rs[p2] as int));
                        assert(pre.prev_of(rs[p2] as int)
                            == if p2 == 0 { NULL_IDX } else { rs[p2 - 1] });
                        assert(p2 - 1 != q);
                    }
                }
            }
            assert forall|p2: int, q2: int| 0 <= p2 < q2 < rs1.len()
                implies rs1[p2] != rs1[q2] by {
                if p2 != q && q2 != q {
                    assert(rs1[p2] == rs[p2] && rs1[q2] == rs[q2]);
                } else {
                    assert(rs1[p2] == i as u32 || rs1[q2] == i as u32);
                    if p2 == q {
                        assert(pre.head_of(rs[q2] as int));
                    } else {
                        assert(pre.head_of(rs[p2] as int));
                    }
                }
            }
            assert forall|x: int| self.head_of(x) implies #[trigger] rs1.contains(x as u32) by {
                if x == i as int {
                    assert(rs1[q] == x as u32);
                } else {
                    assert(x != i as int + 1);
                    assert(pre.head_of(x));
                    assert(rs.contains(x as u32));
                    let p2 = choose|p2: int| 0 <= p2 < rs.len() && rs[p2] == x as u32;
                    assert(p2 != q);
                    assert(rs1[p2] == x as u32);
                }
            }
        }
    }

    /// Vacates slot `i` with vacant slots on both sides: the two adjacent
    /// runs merge into one; the right run's head leaves the run list.
    fn detach_merge_both(&mut self, i: usize, newv: u32)
        requires
            old(self).wf(),
            (i as int) < old(self).slots@.len(),
            old(self).occ(i as int),
            newv == wrap_inc(old(self).version_of(i as int)),
            i as int > 0 && !old(self).occ(i as int - 1),
            i as int + 1 < old(self).slots@.len() && !old(self).occ(i as int + 1),
        ensures
            final(self).wf(),
            final(self).model() == old(self).model().update(i as int, (newv, None)),
            final(self).spec_len() == old(self).spec_len() - 1,
    {
        let ghost pre = *self;
        proof {
            assert(pre.model()[i as int].1 is Some);
            lemma_count_update(pre.model(), i as int, (0u32, None::<T>), pre.model().len() as int);
            assert(pre.version_of(i as int) % 2 == 1);
            pre.lemma_find_head(i as int - 1);
            let a0 = choose|a0: int| #[trigger] pre.stretch_head(i as int - 1, a0);
            assert(pre.is_run(a0, i as int - 1));
            assert(pre.head_of(i as int + 1));
            pre.lemma_oe_is_run(i as int + 1);
            assert(pre.runs@.contains((i + 1) as u32));
        }
        let ghost rs = pre.runs@;
        let ghost q = choose|q: int| 0 <= q < rs.len() && rs[q] == (i + 1) as u32;
        let am = self.slots[i - 1];
        let a = match am {
            HopSlot::Vacant { other_end, .. } => other_end,
            HopSlot::Occupied { .. } => {
                proof {
                    assert(false);
                }
                0
            },
        };
        let hm = self.slots[i + 1];
        let (hp, hn, b) = match hm {
            HopSlot::Vacant { prev, next, other_end, .. } => (prev, next, other_end),
            HopSlot::Occupied { .. } => {
                proof {
                    assert(false);
                }
                (0, 0, 0)
            },
        };
        proof {
            let a0 = choose|a0: int| #[trigger] pre.stretch_head(i as int - 1, a0);
            assert(pre.oe_of(i as int - 1) == a0);
            assert(a == a0);
            assert(pre.is_run(a as int, i as int - 1));
            assert(pre.prev_of(i as int + 1) == hp && pre.next_of(i as int + 1) == hn
                && pre.oe_of(i as int + 1) == b);
            assert(hn == if q == rs.len() - 1 { NULL_IDX } else { rs[q + 1] });
            assert(hp == if q == 0 { NULL_IDX } else { rs[q - 1] });
            assert(pre.is_run(i as int + 1, b as int));
            assert((b as int) < pre.slots@.len() && !pre.occ(b as int));
            assert(a as int <= i as int - 1 && i as int + 1 <= b as int);
        }
        self.slots[i] = HopSlot::Vacant {
            version: newv,
            prev: NULL_IDX,
            next: NULL_IDX,
            other_end: i as u32,
        };
        self.set_vacant_other_end(a as usize, b);
        self.set_vacant_other_end(b as usize, a);
        if hp != NULL_IDX {
            proof {
                assert(pre.head_of(rs[q - 1] as int));
            }
            self.set_vacant_next(hp as usize, hn);
        } else {
            self.free_head = hn;
        }
        if hn != NULL_IDX {
            proof {
                assert(pre.head_of(rs[q + 1] as int));
            }
            self.set_vacant_prev(hn as usize, hp);
        }
        self.num_elems = self.num_elems - 1;
        proof {
            self.runs@ = rs.remove(q);
            let m0 = pre.model();
            let m1 = self.model();
            lemma_count_update(m0, i as int, (newv, None::<T>), m0.len() as int);
            assert(m1 =~= m0.update(i as int, (newv, None)));
            assert(forall|j: int| 0 <= j < self.slots@.len() && j != i as int
                ==> #[trigger] self.occ(j) == pre.occ(j)
                    && self.version_of(j) == pre.version_of(j));
            assert(forall|j: int| 0 <= j < self.slots@.len() && j != i as int && j != a as int
                && j != b as int ==> #[trigger] self.oe_of(j) == pre.oe_of(j));
            assert(forall|j: int| 0 <= j < self.slots@.len() && j != i as int && j != hp as int
                ==> #[trigger] self.next_of(j) == pre.next_of(j));
            assert(forall|j: int| 0 <= j < self.slots@.len() && j != i as int && j != hn as int
                ==> #[trigger] self.prev_of(j) == pre.prev_of(j));
            assert forall|j: int| 0 <= j < self.slots@.len()
                implies (self.occ(j) <==> #[trigger] self.version_of(j) % 2 == 1) by {
                if j != i as int {
                    assert(pre.occ(j) <==> pre.version_of(j) % 2 == 1);
                }
            }
            assert forall|j: int| a as int <= j <= b as int implies !self.occ(j) by {
                if j < i as int {
                    assert(!pre.occ(j));
                } else if j > i as int {
                    assert(!pre.occ(j));
                }
            }
            assert(self.is_run(a as int, b as int));
            assert(self.oe_of(a as int) == b && self.oe_of(b as int) == a);
            assert forall|a2: int, e2: int| #[trigger] self.is_run(a2, e2)
                implies self.oe_of(a2) == e2 && self.oe_of(e2) == a2 by {
                if a2 <= i as int <= e2 {
                    self.lemma_run_unique(a2, e2, a as int, b as int, i as int);
                } else {
                    assert forall|j: int| a2 <= j <= e2 implies !pre.occ(j) by {
                        assert(!self.occ(j));
                    }
                    if a2 <= a as int <= e2 {
                        self.lemma_run_unique(a2, e2, a as int, b as int, a as int);
                        assert(false);
                    }
                    if a2 <= b as int <= e2 {
                        self.lemma_run_unique(a2, e2, a as int, b as int, b as int);
                        assert(false);
                    }
                    assert(pre.is_run(a2, e2));
                    assert(self.oe_of(a2) == pre.oe_of(a2) && self.oe_of(e2) == pre.oe_of(e2));
                }
            }
            let rs1 = self.runs@;
            assert(rs1.len() == rs.len() - 1);
            assert(forall|p2: int| 0 <= p2 < q ==> #[trigger] rs1[p2] == rs[p2]);
            assert(forall|p2: int| q <= p2 < rs1.len() ==> #[trigger] rs1[p2] == rs[p2 + 1]);
            assert forall|p2: int| 0 <= p2 < rs1.len()
                implies self.head_of((#[trigger] rs1[p2]) as int) by {
                let x = if p2 < q { rs[p2] } else { rs[p2 + 1] };
                assert(rs1[p2] == x);
                assert(pre.head_of(x as int));
                assert(x != (i + 1) as u32);
                assert(x as int != i as int + 1);
                assert(x as int != i as int);
            }
            assert forall|p2: int| 0 <= p2 < rs1.len()
                implies #[trigger] self.next_of(rs1[p2] as int)
                    == if p2 == rs1.len() - 1 { NULL_IDX } else { rs1[p2 + 1] } by {
                assert(pre.head_of(rs1[p2] as int));
                if p2 == q - 1 {
                    assert(rs1[p2] == hp);
                    assert(self.next_of(hp as int) == hn);
                    assert(hn == if q == rs.len() - 1 { NULL_IDX } else { rs[q + 1] });
                } else {
                    assert(rs1[p2] != hp || q == 0);
                    assert(self.next_of(rs1[p2] as int) == pre.next_of(rs1[p2] as int));
                    if p2 < q - 1 {
                        assert(pre.next_of(rs[p2] as int)
                            == if p2 == rs.len() - 1 { NULL_IDX } else { rs[p2 + 1] });
                    } else {
                        assert(rs1[p2] == rs[p2 + 1]);
                        assert(pre.next_of(rs[p2 + 1] as int)
                            == if p2 + 1 == rs.len() - 1 { NULL_IDX } else { rs[p2 + 2] });
                    }
                }
            }
            assert forall|p2: int| 0 <= p2 < rs1.len()
                implies #[trigger] self.prev_of(rs1[p2] as int)
                    == if p2 == 0 { NULL_IDX } else { rs1[p2 - 1] } by {
                assert(pre.head_of(rs1[p2] as int));
                if p2 == q {
                    assert(rs1[p2] == hn);
                    assert(self.prev_of(hn as int) == hp);
                    assert(hp == if q == 0 { NULL_IDX } else { rs[q - 1] });
                } else {
                    assert(rs1[p2] != hn || q == rs.len() - 1);
                    assert(self.prev_of(rs1[p2] as int) == pre.prev_of(rs1[p2] as int));
                    if p2 < q {
                        assert(pre.prev_of(rs[p2] as int)
                            == if p2 == 0 { NULL_IDX } else { rs[p2 - 1] });
                    } else {
                        assert(rs1[p2] == rs[p2 + 1]);
                        assert(pre.prev_of(rs[p2 + 1] as int)
                            == if p2 + 1 == 0 { NULL_IDX } else { rs[p2] });
                    }
                }
            }
            assert forall|p2: int, q2: int| 0 <= p2 < q2 < rs1.len()
                implies rs1[p2] != rs1[q2] by {
                let x = if p2 < q { rs[p2] } else { rs[p2 + 1] };
                let y = if q2 < q { rs[q2] } else { rs[q2 + 1] };
                assert(rs1[p2] == x && rs1[q2] == y);
            }
            assert forall|x: int| self.head_of(x) implies #[trigger] rs1.contains(x as u32) by {
                assert(x != i as int && x != i as int + 1);
                assert(pre.head_of(x));
                assert(rs.contains(x as u32));
                let p2 = choose|p2: int| 0 <= p2 < rs.len() && rs[p2] == x as u32;
                assert(p2 != q);
                if p2 < q {
                    assert(rs1[p2] == x as u32);
                } else {
                    assert(rs1[p2 - 1] == x as u32);
                }
            }
        }
    }

    fn is_vacant_at(&self, j: usize) -> (r: bool)
        requires
            (j as int) < self.slots@.len(),
        ensures
            r == !self.occ(j as int),
    {
        match &self.slots[j] {
            HopSlot::Vacant { .. } => true,
            HopSlot::Occupied { .. } => false,
        }
    }

    /// Overwrites the value the key addresses, returning whether the key was
    /// valid; a stale, foreign, null or out-of-range key has no observable
    /// effect. This is the mutating access: validity itself never changes.
    pub fn set(&mut self, k: Key, value: T) -> (r: bool)
        requires
            old(self).wf(),
        ensures
            final(self).wf(),
            r == old(self).spec_valid(k),
            !r ==> *final(self) == *old(self),
            r ==> final(self).model() == old(self).model().update(
                k.idx as int,
                (k.version, Some(value)),
            ),
            final(self).spec_len() == old(self).spec_len(),
            forall|h: Key| final(self).spec_valid(h) <==> old(self).spec_valid(h),
    {
        let ghost pre = *self;
        if (k.idx as usize) < self.slots.len() {
            let i = k.idx as usize;
            match self.slots[i] {
                HopSlot::Occupied { version, .. } => {
                    if version == k.version {
                        self.slots[i] = HopSlot::Occupied { value, version };
                        proof {
                            let m0 = pre.model();
                            let m1 = self.model();
                            assert(m1 =~= m0.update(i as int, (version, Some(value))));
                            lemma_count_update(m0, i as int, (version, Some(value)), m0.len() as int);
                            assert(forall|j: int| 0 <= j < self.slots@.len()
                                ==> #[trigger] self.occ(j) == pre.occ(j)
                                    && self.version_of(j) == pre.version_of(j));
                            assert(forall|j: int| 0 <= j < self.slots@.len() && j != i as int
                                ==> #[trigger] self.oe_of(j) == pre.oe_of(j)
                                    && self.prev_of(j) == pre.prev_of(j)
                                    && self.next_of(j) == pre.next_of(j));
                            assert forall|j: int| 0 <= j < self.slots@.len()
                                implies (self.occ(j) <==> #[trigger] self.version_of(j) % 2 == 1) by {
                                assert(pre.occ(j) <==> pre.version_of(j) % 2 == 1);
                            }
                            assert forall|a2: int, e2: int| #[trigger] self.is_run(a2, e2)
                                implies self.oe_of(a2) == e2 && self.oe_of(e2) == a2 by {
                                assert forall|j: int| a2 <= j <= e2 implies !pre.occ(j) by {
                                    assert(!self.occ(j));
                                }
                                assert(pre.is_run(a2, e2));
                                assert(!self.occ(a2) && !self.occ(e2));
                                assert(pre.occ(i as int));
                                assert(a2 != i as int && e2 != i as int);
                            }
                            let rs = pre.runs@;
                            assert forall|p2: int| 0 <= p2 < rs.len()
                                implies self.head_of((#[trigger] rs[p2]) as int) by {
                                assert(pre.head_of(rs[p2] as int));
                            }
                            assert forall|p2: int| 0 <= p2 < rs.len()
                                implies #[trigger] self.next_of(rs[p2] as int)
                                    == if p2 == rs.len() - 1 { NULL_IDX } else { rs[p2 + 1] } by {
                                assert(pre.head_of(rs[p2] as int));
                                assert(rs[p2] as int != i as int);
                                assert(pre.next_of(rs[p2] as int)
                                    == if p2 == rs.len() - 1 { NULL_IDX } else { rs[p2 + 1] });
                            }
                            assert forall|p2: int| 0 <= p2 < rs.len()
                                implies #[trigger] self.prev_of(rs[p2] as int)
                                    == if p2 == 0 { NULL_IDX } else { rs[p2 - 1] } by {
                                assert(pre.head_of(rs[p2] as int));
                                assert(rs[p2] as int != i as int);
                                assert(pre.prev_of(rs[p2] as int)
                                    == if p2 == 0 { NULL_IDX } else { rs[p2 - 1] });
                            }
                            assert forall|x: int| self.head_of(x)
                                implies #[trigger] self.runs@.contains(x as u32) by {
                                assert(pre.head_of(x));
                            }
                            assert forall|h: Key| self.spec_valid(h) <==> pre.spec_valid(h) by {
                                if h.idx as int != i as int {
                                    assert((h.idx as int) >= m1.len()
                                        || m1[h.idx as int] == m0[h.idx as int]);
                                }
                            }
                        }
                        true
                    } else {
                        false
                    }
                },
                HopSlot::Vacant { .. } => false,
            }
        } else {
            false
        }
    }

    /// Removes the value the key addresses and returns it; a stale, foreign,
    /// null or out-of-range key has no observable effect. Once a removal
    /// succeeds, the key is invalid and every other valid key keeps its
    /// value; the slot joins the vacant runs with its version stepped once,
    /// merging with an adjacent run on either side.
    pub fn remove(&mut self, k: Key) -> (r: Option<T>)
        requires
            old(self).wf(),
        ensures
            final(self).wf(),
            r is Some <==> old(self).spec_valid(k),
            !old(self).spec_valid(k) ==> *final(self) == *old(self),
            old(self).spec_valid(k) ==> {
                &&& r == Some(old(self).model()[k.idx as int].1.unwrap())
                &&& final(self).model() == old(self).model().update(
                    k.idx as int,
                    (wrap_inc(old(self).model()[k.idx as int].0), None),
                )
                &&& final(self).spec_len() == old(self).spec_len() - 1
            },
            forall|h: Key| final(self).spec_valid(h) <==> (old(self).spec_valid(h) && h != k),
    {
        let ghost pre = *self;
        if (k.idx as usize) < self.slots.len() {
            let i = k.idx as usize;
            let sm = self.slots[i];
            match sm {
                HopSlot::Occupied { value, version } => {
                    if version == k.version {
                        let newv = if version == u32::MAX { 0 } else { version + 1 };
                        proof {
                            assert(pre.occ(i as int) && pre.version_of(i as int) == version);
                            assert(newv == wrap_inc(pre.version_of(i as int)));
                        }
                        let left_vac = i > 0 && self.is_vacant_at(i - 1);
                        let right_vac = i + 1 < self.slots.len() && self.is_vacant_at(i + 1);
                        if left_vac && right_vac {
                            self.detach_merge_both(i, newv);
                        } else if left_vac {
                            self.detach_merge_left(i, newv);
                        } else if right_vac {
                            self.detach_merge_right(i, newv);
                        } else {
                            self.detach_isolated(i, newv);
                        }
                        proof {
                            let m0 = pre.model();
                            let m1 = self.model();
                            assert forall|h: Key| self.spec_valid(h)
                                <==> (pre.spec_valid(h) && h != k) by {
                                if h.idx as int == i as int {
                                    assert(m1[h.idx as int].1 is None);
                                }
                            }
                        }
                        Some(value)
                    } else {
                        None
                    }
                },
                HopSlot::Vacant { .. } => None,
            }
        } else {
            None
        }
    }

    /// Fills the single-slot run at the front of the run list, which
    /// disappears from the list.
    #[verifier::rlimit(100)]
    fn insert_consume(&mut self, value: T) -> (k: Key)
        requires
            old(self).wf(),
            old(self).spec_len() < MAX_SLOTS,
            old(self).free_head != NULL_IDX,
            old(self).head_of(old(self).free_head as int),
            old(self).is_run(old(self).free_head as int, old(self).free_head as int),
        ensures
            final(self).wf(),
            final(self).spec_len() == old(self).spec_len() + 1,
            final(self).spec_valid(k),
            !old(self).spec_valid(k),
            k.idx != u32::MAX && k.version % 2 == 1,
            if k.idx as int == old(self).model().len() {
                final(self).model() == old(self).model().push((k.version, Some(value)))
            } else {
                &&& (k.idx as int) < old(self).model().len()
                &&& old(self).model()[k.idx as int].1 is None
                &&& k.version == wrap_inc(old(self).model()[k.idx as int].0)
                &&& final(self).model() == old(self).model().update(k.idx as int, (k.version, Some(value)))
            },
            (k.idx as int == old(self).model().len())
                <==> (old(self).spec_len() as int == old(self).model().len()),
            forall|h: Key| final(self).spec_valid(h) <==> (old(self).spec_valid(h) || h == k),
    {
        let ghost pre = *self;
        let h = self.free_head as usize;
        proof {
            assert(pre.runs@[0] == pre.free_head);
        }
        let hm = self.slots[h];
        match hm {
            HopSlot::Vacant { version, next, .. } => {
                proof {
                    assert(pre.version_of(h as int) == version
                        && pre.next_of(h as int) == next);
                    assert(version % 2 == 0);
                    assert(next == if pre.runs@.len() == 1 { NULL_IDX } else { pre.runs@[1] });
                }
                    let newv = version + 1;
                    self.slots[h] = HopSlot::Occupied { value, version: newv };
                    if next != NULL_IDX {
                        proof {
                            assert(pre.head_of(pre.runs@[1] as int));
                        }
                        self.set_vacant_prev(next as usize, NULL_IDX);
                    }
                    self.free_head = next;
                    self.num_elems = self.num_elems + 1;
                    proof {
                        self.runs@ = pre.runs@.subrange(1, pre.runs@.len() as int);
                        let m0 = pre.model();
                        let m1 = self.model();
                        assert(m1 =~= m0.update(h as int, (newv, Some(value))));
                        lemma_count_update(m0, h as int, (newv, Some(value)), m0.len() as int);
                        lemma_count_le(m1, m1.len() as int);
                        assert(forall|j: int| 0 <= j < self.slots@.len() && j != h as int
                            ==> #[trigger] self.occ(j) == pre.occ(j)
                                && self.version_of(j) == pre.version_of(j)
                                && self.oe_of(j) == pre.oe_of(j)
                                && self.next_of(j) == pre.next_of(j));
                        assert(forall|j: int| 0 <= j < self.slots@.len() && j != h as int
                            && j != next as int ==> #[trigger] self.prev_of(j) == pre.prev_of(j));
                        assert forall|j: int| 0 <= j < self.slots@.len()
                            implies (self.occ(j) <==> #[trigger] self.version_of(j) % 2 == 1) by {
                            if j != h as int {
                                assert(pre.occ(j) <==> pre.version_of(j) % 2 == 1);
                            }
                        }
                        assert forall|a2: int, e2: int| #[trigger] self.is_run(a2, e2)
                            implies self.oe_of(a2) == e2 && self.oe_of(e2) == a2 by {
                            assert forall|j: int| a2 <= j <= e2 implies !pre.occ(j) by {
                                assert(!self.occ(j));
                            }
                            if a2 == h as int + 1 {
                                assert(!pre.occ(a2));
                                assert(false);
                            }
                            if e2 == h as int - 1 {
                                assert(!pre.occ(e2));
                                assert(false);
                            }
                            assert(pre.is_run(a2, e2));
                            assert(!self.occ(a2) && !self.occ(e2) && self.occ(h as int));
                            assert(self.oe_of(a2) == pre.oe_of(a2)
                                && self.oe_of(e2) == pre.oe_of(e2));
                        }
                        let rs = pre.runs@;
                        let rs1 = self.runs@;
                        assert forall|p2: int| 0 <= p2 < rs1.len()
                            implies self.head_of((#[trigger] rs1[p2]) as int) by {
                            assert(rs1[p2] == rs[p2 + 1]);
                            assert(pre.head_of(rs[p2 + 1] as int));
                            assert(rs[p2 + 1] != rs[0]);
                        }
                        assert forall|p2: int| 0 <= p2 < rs1.len()
                            implies #[trigger] self.next_of(rs1[p2] as int)
                                == if p2 == rs1.len() - 1 { NULL_IDX } else { rs1[p2 + 1] } by {
                            assert(rs1[p2] == rs[p2 + 1]);
                            assert(rs[p2 + 1] != rs[0]);
                            assert(pre.next_of(rs[p2 + 1] as int)
                                == if p2 + 1 == rs.len() - 1 { NULL_IDX } else { rs[p2 + 2] });
                        }
                        assert forall|p2: int| 0 <= p2 < rs1.len()
                            implies #[trigger] self.prev_of(rs1[p2] as int)
                                == if p2 == 0 { NULL_IDX } else { rs1[p2 - 1] } by {
                            assert(rs1[p2] == rs[p2 + 1]);
                            if p2 > 0 {
                                assert(rs[p2 + 1] != rs[1]);
                                assert(self.prev_of(rs[p2 + 1] as int)
                                    == pre.prev_of(rs[p2 + 1] as int));
                                assert(pre.prev_of(rs[p2 + 1] as int)
                                    == if p2 + 1 == 0 { NULL_IDX } else { rs[p2] });
                            }
                        }
                        assert forall|p2: int, q2: int| 0 <= p2 < q2 < rs1.len()
                            implies rs1[p2] != rs1[q2] by {
                            assert(rs1[p2] == rs[p2 + 1] && rs1[q2] == rs[q2 + 1]);
                        }
                        assert forall|x: int| self.head_of(x)
                            implies #[trigger] rs1.contains(x as u32) by {
                            assert(x != h as int);
                            if x == h as int + 1 {
                                assert(!pre.occ(x));
                                assert(false);
                            }
                            assert(pre.head_of(x));
                            assert(rs.contains(x as u32));
                            let p2 = choose|p2: int| 0 <= p2 < rs.len() && rs[p2] == x as u32;
                            assert(p2 != 0);
                            assert(rs1[p2 - 1] == x as u32);
                        }
                        assert forall|hk: Key| self.spec_valid(hk)
                            <==> (pre.spec_valid(hk)
                                || hk == (Key { idx: h as u32, version: newv })) by {
                            if hk.idx as int == h as int {
                                assert(m0[hk.idx as int].1 is None);
                            }
                        }
                    }
                    Key::new(h as u32, newv)
            },
            HopSlot::Occupied { .. } => {
                proof {
                    assert(!pre.occ(h as int));
                    assert(false);
                }
                vstd::pervasive::unreached()
            },
        }
    }

    /// Fills the last slot of the run at the front of the run list, which
    /// shrinks by one and keeps its place in the list.
    #[verifier::rlimit(100)]
    fn insert_shrink(&mut self, value: T) -> (k: Key)
        requires
            old(self).wf(),
            old(self).spec_len() < MAX_SLOTS,
            old(self).free_head != NULL_IDX,
            old(self).head_of(old(self).free_head as int),
            old(self).is_run(
                old(self).free_head as int,
                old(self).oe_of(old(self).free_head as int) as int,
            ),
            old(self).oe_of(old(self).free_head as int) != old(self).free_head,
        ensures
            final(self).wf(),
            final(self).spec_len() == old(self).spec_len() + 1,
            final(self).spec_valid(k),
            !old(self).spec_valid(k),
            k.idx != u32::MAX && k.version % 2 == 1,
            if k.idx as int == old(self).model().len() {
                final(self).model() == old(self).model().push((k.version, Some(value)))
            } else {
                &&& (k.idx as int) < old(self).model().len()
                &&& old(self).model()[k.idx as int].1 is None
                &&& k.version == wrap_inc(old(self).model()[k.idx as int].0)
                &&& final(self).model() == old(self).model().update(k.idx as int, (k.version, Some(value)))
            },
            (k.idx as int == old(self).model().len())
                <==> (old(self).spec_len() as int == old(self).model().len()),
            forall|h: Key| final(self).spec_valid(h) <==> (old(self).spec_valid(h) || h == k),
    {
        let ghost pre = *self;
        let h = self.free_head as usize;
        proof {
            assert(pre.runs@[0] == pre.free_head);
        }
        let hm = self.slots[h];
        match hm {
            HopSlot::Vacant { other_end, .. } => {
                let e = other_end as usize;
                    proof {
                        assert(h < e);
                        assert(!pre.occ(e as int) && !pre.occ(e as int - 1));
                        assert(pre.version_of(e as int) % 2 == 0);
                    }
                    let em = self.slots[e];
                    let ev = match em {
                        HopSlot::Vacant { version: v2, .. } => v2,
                        HopSlot::Occupied { .. } => {
                            proof {
                                assert(false);
                            }
                            0
                        },
                    };
                    let newv = ev + 1;
                    self.set_vacant_other_end(h, (e - 1) as u32);
                    self.set_vacant_other_end(e - 1, h as u32);
                    self.slots[e] = HopSlot::Occupied { value, version: newv };
                    self.num_elems = self.num_elems + 1;
                    proof {
                        let m0 = pre.model();
                        let m1 = self.model();
                        assert(m1 =~= m0.update(e as int, (newv, Some(value))));
                        lemma_count_update(m0, e as int, (newv, Some(value)), m0.len() as int);
                        lemma_count_le(m1, m1.len() as int);
                        assert(forall|j: int| 0 <= j < self.slots@.len() && j != e as int
                            ==> #[trigger] self.occ(j) == pre.occ(j)
                                && self.version_of(j) == pre.version_of(j)
                                && self.prev_of(j) == pre.prev_of(j)
                                && self.next_of(j) == pre.next_of(j));
                        assert(forall|j: int| 0 <= j < self.slots@.len() && j != e as int
                            && j != h as int && j != e as int - 1
                            ==> #[trigger] self.oe_of(j) == pre.oe_of(j));
                        assert forall|j: int| 0 <= j < self.slots@.len()
                            implies (self.occ(j) <==> #[trigger] self.version_of(j) % 2 == 1) by {
                            if j != e as int {
                                assert(pre.occ(j) <==> pre.version_of(j) % 2 == 1);
                            }
                        }
                        assert(self.is_run(h as int, e as int - 1));
                        assert(self.oe_of(h as int) == (e - 1) as u32
                            && self.oe_of(e as int - 1) == h as u32);
                        assert forall|a2: int, e2: int| #[trigger] self.is_run(a2, e2)
                            implies self.oe_of(a2) == e2 && self.oe_of(e2) == a2 by {
                            if e2 >= h as int && a2 <= e as int - 1 {
                                let x = if a2 > h as int { a2 } else { h as int };
                                self.lemma_run_unique(a2, e2, h as int, e as int - 1, x);
                            } else {
                                assert forall|j: int| a2 <= j <= e2 implies !pre.occ(j) by {
                                    assert(!self.occ(j));
                                }
                                if a2 == e as int + 1 {
                                    assert(!pre.occ(a2));
                                    assert(false);
                                }
                                assert(pre.is_run(a2, e2));
                                assert(self.oe_of(a2) == pre.oe_of(a2)
                                    && self.oe_of(e2) == pre.oe_of(e2));
                            }
                        }
                        let rs = pre.runs@;
                        assert(self.runs@ == rs);
                        assert forall|p2: int| 0 <= p2 < rs.len()
                            implies self.head_of((#[trigger] rs[p2]) as int) by {
                            assert(pre.head_of(rs[p2] as int));
                            assert(rs[p2] as int != e as int);
                        }
                        assert forall|p2: int| 0 <= p2 < rs.len()
                            implies #[trigger] self.next_of(rs[p2] as int)
                                == if p2 == rs.len() - 1 { NULL_IDX } else { rs[p2 + 1] } by {
                            assert(pre.head_of(rs[p2] as int));
                            assert(rs[p2] as int != e as int);
                            assert(self.next_of(rs[p2] as int) == pre.next_of(rs[p2] as int));
                            assert(pre.next_of(rs[p2] as int)
                                == if p2 == rs.len() - 1 { NULL_IDX } else { rs[p2 + 1] });
                        }
                        assert forall|p2: int| 0 <= p2 < rs.len()
                            implies #[trigger] self.prev_of(rs[p2] as int)
                                == if p2 == 0 { NULL_IDX } else { rs[p2 - 1] } by {
                            assert(pre.head_of(rs[p2] as int));
                            assert(rs[p2] as int != e as int);
                            assert(self.prev_of(rs[p2] as int) == pre.prev_of(rs[p2] as int));
                            assert(pre.prev_of(rs[p2] as int)
                                == if p2 == 0 { NULL_IDX } else { rs[p2 - 1] });
                        }
                        assert forall|x: int| self.head_of(x)
                            implies #[trigger] self.runs@.contains(x as u32) by {
                            assert(x != e as int);
                            if x == e as int + 1 {
                                assert(!pre.occ(x));
                                assert(false);
                            }
                            assert(pre.head_of(x));
                            assert(rs.contains(x as u32));
                        }
                        assert forall|hk: Key| self.spec_valid(hk)
                            <==> (pre.spec_valid(hk)
                                || hk == (Key { idx: e as u32, version: newv })) by {
                            if hk.idx as int == e as int {
                                assert(m0[hk.idx as int].1 is None);
                            }
                        }
                    }
                    Key::new(e as u32, newv)
            },
            HopSlot::Occupied { .. } => {
                proof {
                    assert(!pre.occ(h as int));
                    assert(false);
                }
                vstd::pervasive::unreached()
            },
        }
    }

    /// Appends a fresh occupied slot; only reached when no slot is vacant.
    #[verifier::rlimit(100)]
    fn insert_append(&mut self, value: T) -> (k: Key)
        requires
            old(self).wf(),
            old(self).spec_len() < MAX_SLOTS,
            old(self).free_head == NULL_IDX,
        ensures
            final(self).wf(),
            final(self).spec_len() == old(self).spec_len() + 1,
            final(self).spec_valid(k),
            !old(self).spec_valid(k),
            k.idx != u32::MAX && k.version % 2 == 1,
            if k.idx as int == old(self).model().len() {
                final(self).model() == old(self).model().push((k.version, Some(value)))
            } else {
                &&& (k.idx as int) < old(self).model().len()
                &&& old(self).model()[k.idx as int].1 is None
                &&& k.version == wrap_inc(old(self).model()[k.idx as int].0)
                &&& final(self).model() == old(self).model().update(k.idx as int, (k.version, Some(value)))
            },
            (k.idx as int == old(self).model().len())
                <==> (old(self).spec_len() as int == old(self).model().len()),
            forall|h: Key| final(self).spec_valid(h) <==> (old(self).spec_valid(h) || h == k),
    {
        let ghost pre = *self;
            proof {
                let m0 = pre.model();
                assert forall|j: int| 0 <= j < m0.len() implies m0[j].1 is Some by {
                    if !pre.occ(j) {
                        pre.lemma_find_head(j);
                        let a0 = choose|a0: int| #[trigger] pre.stretch_head(j, a0);
                        assert(pre.head_of(a0));
                        assert(pre.runs@.contains(a0 as u32));
                        assert(pre.runs@[0] < MAX_SLOTS);
                        assert(false);
                    }
                }
                lemma_count_full(m0, m0.len() as int);
            }
            let idx = self.slots.len() as u32;
            self.slots.push(HopSlot::Occupied { value, version: 1 });
            self.num_elems = self.num_elems + 1;
            proof {
                let m0 = pre.model();
                let m1 = self.model();
                assert(m1 =~= m0.push((1u32, Some(value))));
                lemma_count_agree(m0, m1, m0.len() as int);
                assert(count_upto(m1, m1.len() as int) == count_upto(m1, m0.len() as int) + 1);
                assert forall|j: int| 0 <= j < self.slots@.len() implies #[trigger] self.occ(j) by {
                    if j < pre.slots@.len() {
                        assert(m0[j].1 is Some);
                    }
                }
                assert forall|j: int| 0 <= j < self.slots@.len()
                    implies (self.occ(j) <==> #[trigger] self.version_of(j) % 2 == 1) by {
                    if j < pre.slots@.len() {
                        assert(self.version_of(j) == pre.version_of(j));
                        assert(pre.occ(j) <==> pre.version_of(j) % 2 == 1);
                    }
                }
                assert forall|a2: int, e2: int| #[trigger] self.is_run(a2, e2)
                    implies self.oe_of(a2) == e2 && self.oe_of(e2) == a2 by {
                    assert(!self.occ(a2));
                    assert(false);
                }
                assert forall|x: int| self.head_of(x)
                    implies #[trigger] self.runs@.contains(x as u32) by {
                    assert(!self.occ(x));
                    assert(false);
                }
                assert forall|hk: Key| self.spec_valid(hk)
                    <==> (pre.spec_valid(hk) || hk == (Key { idx, version: 1u32 })) by {
                    if (hk.idx as int) < m0.len() {
                        assert(m1[hk.idx as int] == m0[hk.idx as int]);
                    }
                }
            }
            Key::new(idx, 1)
    }

    /// Inserts a value and returns the key under which it is now live.
    ///
    /// The key is fresh: it was not valid before. Every previously valid key
    /// stays valid and keeps its value, so the only way the returned key
    /// could collide with a stale one is a full version wraparound of one
    /// slot — the accepted residual risk. The first vacant run donates its
    /// last slot; a new slot is appended exactly when no slot is vacant.
    pub fn insert(&mut self, value: T) -> (k: Key)
        requires
            old(self).wf(),
            old(self).spec_len() < MAX_SLOTS,
        ensures
            final(self).wf(),
            final(self).spec_len() == old(self).spec_len() + 1,
            final(self).spec_valid(k),
            !old(self).spec_valid(k),
            k.idx != u32::MAX && k.version % 2 == 1,
            if k.idx as int == old(self).model().len() {
                final(self).model() == old(self).model().push((k.version, Some(value)))
            } else {
                &&& (k.idx as int) < old(self).model().len()
                &&& old(self).model()[k.idx as int].1 is None
                &&& k.version == wrap_inc(old(self).model()[k.idx as int].0)
                &&& final(self).model() == old(self).model().update(k.idx as int, (k.version, Some(value)))
            },
            (k.idx as int == old(self).model().len())
                <==> (old(self).spec_len() as int == old(self).model().len()),
            forall|h: Key| final(self).spec_valid(h) <==> (old(self).spec_valid(h) || h == k),
    {
        if self.free_head != NULL_IDX {
            let ghost pre = *self;
            let h = self.free_head as usize;
            proof {
                assert(pre.runs@[0] == pre.free_head);
                assert(pre.head_of(h as int));
                pre.lemma_oe_is_run(h as int);
            }
            let hm = self.slots[h];
            match hm {
                HopSlot::Vacant { other_end, .. } => {
                    proof {
                        assert(pre.oe_of(h as int) == other_end);
                    }
                    if other_end as usize == h {
                        self.insert_consume(value)
                    } else {
                        self.insert_shrink(value)
                    }
                },
                HopSlot::Occupied { .. } => {
                    proof {
                        assert(!pre.occ(h as int));
                        assert(false);
                    }
                    vstd::pervasive::unreached()
                },
            }
        } else {
            self.insert_append(value)
        }
    }

    /// The values of all live elements, in increasing index order. Each
    /// vacant run is crossed in a single hop through its recorded end,
    /// whatever its length: this is the iteration this engine exists for.
    pub fn values(&self) -> (r: Vec<T>)
        requires
            self.wf(),
        ensures
            r@ == live_values(self.model()),
            r@.len() == self.spec_len(),
    {
        let ghost m = self.model();
        let mut r: Vec<T> = Vec::new();
        let mut i: usize = 0;
        while i < self.slots.len()
            invariant
                self.wf(),
                m == self.model(),
                0 <= i <= self.slots@.len(),
                r@ == values_upto(m, i as int),
                i as int == self.slots@.len() || self.occ(i as int) || self.head_of(i as int),
            decreases self.slots@.len() - i,
        {
            match &self.slots[i] {
                HopSlot::Occupied { value, .. } => {
                    r.push(*value);
                    proof {
                        assert(values_upto(m, i as int + 1) =~= r@);
                    }
                    i = i + 1;
                },
                HopSlot::Vacant { other_end, .. } => {
                    let e = *other_end;
                    proof {
                        assert(self.head_of(i as int));
                        self.lemma_oe_is_run(i as int);
                        assert(self.is_run(i as int, e as int));
                        assert forall|j: int| i as int <= j < e as int + 1
                            implies !(m[j].1 is Some) by {
                            assert(!self.occ(j));
                        }
                        lemma_skip_vacant(m, i as int, e as int + 1);
                    }
                    i = e as usize + 1;
                },
            }
        }
        proof {
            crate::model::lemma_iteration_complete(m);
        }
        r
    }

    /// The keys of all live elements, in increasing index order, crossing
    /// vacant runs in one hop each. Every one of them is valid, and every
    /// valid key is among them.
    pub fn keys(&self) -> (r: Vec<Key>)
        requires
            self.wf(),
        ensures
            r@ == live_keys(self.model()),
            r@.len() == self.spec_len(),
    {
        let ghost m = self.model();
        let mut r: Vec<Key> = Vec::new();
        let mut i: usize = 0;
        while i < self.slots.len()
            invariant
                self.wf(),
                m == self.model(),
                0 <= i <= self.slots@.len(),
                r@ == keys_upto(m, i as int),
                i as int == self.slots@.len() || self.occ(i as int) || self.head_of(i as int),
            decreases self.slots@.len() - i,
        {
            match &self.slots[i] {
                HopSlot::Occupied { version, .. } => {
                    proof {
                        assert(self.version_of(i as int) % 2 == 1);
                    }
                    r.push(Key::new(i as u32, *version));
                    proof {
                        assert(keys_upto(m, i as int + 1) =~= r@);
                    }
                    i = i + 1;
                },
                HopSlot::Vacant { other_end, .. } => {
                    let e = *other_end;
                    proof {
                        assert(self.head_of(i as int));
                        self.lemma_oe_is_run(i as int);
                        assert(self.is_run(i as int, e as int));
                        assert forall|j: int| i as int <= j < e as int + 1
                            implies !(m[j].1 is Some) by {
                            assert(!self.occ(j));
                        }
                        lemma_skip_vacant(m, i as int, e as int + 1);
                    }
                    i = e as usize + 1;
                },
            }
        }
        proof {
            crate::model::lemma_iteration_complete(m);
        }
        r
    }
}

/// Null invariance for the block-skip engine: the null key is invalid
/// against every well-formed store, whatever its state.
pub proof fn lemma_null_never_valid<T: Slottable>(s: HopSlotMap<T>)
    requires
        s.wf(),
    ensures
        !s.spec_valid(Key::spec_null()),
{
}

/// The two engines report identical contents: a base store and a block-skip
/// store whose models hold the same values in the same slots yield the same
/// value sequence when iterated, so the same operation history read back
/// through either engine looks the same.
pub proof fn lemma_engines_agree<T: Slottable>(s: SlotMap<T>, h: HopSlotMap<T>)
    requires
        s.model().len() == h.model().len(),
        forall|j: int| 0 <= j < s.model().len() ==> s.model()[j].1 == h.model()[j].1,
    ensures
        live_values(s.model()) == live_values(h.model()),
{
    lemma_values_agree(s.model(), h.model(), s.model().len() as int);
}

} // verus!
