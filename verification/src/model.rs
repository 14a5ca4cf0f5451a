//! The mathematical model shared by both store engines.
//!
//! A store is modelled as a sequence of entries, one per storage slot: the
//! slot's current version together with its contents (`Some` value when
//! occupied, `None` when vacant). Both engines expose their state through
//! this model, so their contracts — and the laws below — read the same.

use vstd::prelude::*;
use crate::Key;

verus! {

/// One slot of the model: the slot's version and its contents.
pub type Entry<T> = (u32, Option<T>);

/// The validity oracle: a key addresses live data iff its index is in range
/// and the slot's stored version equals the key's version on an occupied
/// slot.
pub open spec fn valid_in<T>(s: Seq<Entry<T>>, k: Key) -> bool {
    &&& (k.idx as int) < s.len()
    &&& s[k.idx as int].1 is Some
    &&& s[k.idx as int].0 == k.version
}

/// How a slot's version moves on each removal or insertion half-step:
/// one step forward, wrapping around the `u32` space.
pub open spec fn wrap_inc(v: u32) -> u32 {
    if v == u32::MAX {
        0
    } else {
        (v + 1) as u32
    }
}

/// Number of occupied slots among the first `n` entries.
pub open spec fn count_upto<T>(s: Seq<Entry<T>>, n: int) -> nat
    decreases n,
{
    if n <= 0 {
        0
    } else {
        count_upto(s, n - 1) + if s[n - 1].1 is Some {
            1nat
        } else {
            0nat
        }
    }
}

/// Number of occupied slots of the whole store.
pub open spec fn live_count<T>(s: Seq<Entry<T>>) -> nat {
    count_upto(s, s.len() as int)
}

/// The values of the occupied slots among the first `n` entries, in
/// increasing index order.
pub open spec fn values_upto<T>(s: Seq<Entry<T>>, n: int) -> Seq<T>
    decreases n,
{
    if n <= 0 {
        Seq::empty()
    } else {
        values_upto(s, n - 1) + match s[n - 1].1 {
            Some(v) => seq![v],
            None => Seq::empty(),
        }
    }
}

/// The values of all occupied slots, in increasing index order.
pub open spec fn live_values<T>(s: Seq<Entry<T>>) -> Seq<T> {
    values_upto(s, s.len() as int)
}

/// The keys of the occupied slots among the first `n` entries, in
/// increasing index order.
pub open spec fn keys_upto<T>(s: Seq<Entry<T>>, n: int) -> Seq<Key>
    decreases n,
{
    if n <= 0 {
        Seq::empty()
    } else {
        keys_upto(s, n - 1) + if s[n - 1].1 is Some {
            seq![Key { idx: (n - 1) as u32, version: s[n - 1].0 }]
        } else {
            Seq::empty()
        }
    }
}

/// The keys of all occupied slots, in increasing index order.
pub open spec fn live_keys<T>(s: Seq<Entry<T>>) -> Seq<Key> {
    keys_upto(s, s.len() as int)
}

/// The count of a prefix never exceeds its length.
pub proof fn lemma_count_le<T>(s: Seq<Entry<T>>, n: int)
    requires
        0 <= n <= s.len(),
    ensures
        count_upto(s, n) <= n,
    decreases n,
{
    if n > 0 {
        lemma_count_le(s, n - 1);
    }
}

/// Prefix counts agree on stores whose occupancy agrees pointwise.
pub proof fn lemma_count_agree<T>(s1: Seq<Entry<T>>, s2: Seq<Entry<T>>, n: int)
    requires
        forall|j: int| 0 <= j < n ==> (s1[j].1 is Some <==> s2[j].1 is Some),
    ensures
        count_upto(s1, n) == count_upto(s2, n),
    decreases n,
{
    if n > 0 {
        lemma_count_agree(s1, s2, n - 1);
    }
}

/// How a point update moves the count of a prefix.
pub proof fn lemma_count_update<T>(s: Seq<Entry<T>>, i: int, e: Entry<T>, n: int)
    requires
        0 <= i < s.len(),
        n <= s.len(),
    ensures
        i < n ==> count_upto(s.update(i, e), n) + (if s[i].1 is Some { 1nat } else { 0nat })
            == count_upto(s, n) + (if e.1 is Some { 1nat } else { 0nat }),
        i >= n ==> count_upto(s.update(i, e), n) == count_upto(s, n),
    decreases n,
{
    if n > 0 {
        lemma_count_update(s, i, e, n - 1);
    }
}

/// A fully occupied prefix counts its whole length.
pub proof fn lemma_count_full<T>(s: Seq<Entry<T>>, n: int)
    requires
        0 <= n <= s.len(),
        forall|j: int| 0 <= j < n ==> s[j].1 is Some,
    ensures
        count_upto(s, n) == n,
    decreases n,
{
    if n > 0 {
        lemma_count_full(s, n - 1);
    }
}

/// Prefix values agree on stores whose contents agree pointwise.
pub proof fn lemma_values_agree<T>(s1: Seq<Entry<T>>, s2: Seq<Entry<T>>, n: int)
    requires
        forall|j: int| 0 <= j < n ==> s1[j].1 == s2[j].1,
    ensures
        values_upto(s1, n) == values_upto(s2, n),
    decreases n,
{
    if n > 0 {
        lemma_values_agree(s1, s2, n - 1);
    }
}

/// A stretch of vacant slots contributes nothing: counts, values and keys
/// are unchanged across it.
pub proof fn lemma_skip_vacant<T>(s: Seq<Entry<T>>, a: int, b: int)
    requires
        0 <= a <= b,
        forall|j: int| a <= j < b ==> !(s[j].1 is Some),
    ensures
        values_upto(s, b) == values_upto(s, a),
        keys_upto(s, b) == keys_upto(s, a),
        count_upto(s, b) == count_upto(s, a),
    decreases b - a,
{
    if b > a {
        lemma_skip_vacant(s, a, b - 1);
        assert(values_upto(s, b) =~= values_upto(s, a));
        assert(keys_upto(s, b) =~= keys_upto(s, a));
    }
}

/// Iteration completeness over a prefix: the keys and values listed for the
/// first `n` entries pair up, name exactly the occupied slots below `n` in
/// strictly increasing index order, and miss none of them.
proof fn lemma_iteration_upto<T>(s: Seq<Entry<T>>, n: int)
    requires
        n <= s.len(),
        s.len() <= 0xFFFF_FFFF,
    ensures
        keys_upto(s, n).len() == count_upto(s, n),
        values_upto(s, n).len() == count_upto(s, n),
        forall|j: int| 0 <= j < keys_upto(s, n).len() ==> {
            let k = #[trigger] keys_upto(s, n)[j];
            &&& (k.idx as int) < n
            &&& valid_in(s, k)
            &&& s[k.idx as int].1 == Some(values_upto(s, n)[j])
        },
        forall|j1: int, j2: int| 0 <= j1 < j2 < keys_upto(s, n).len()
            ==> keys_upto(s, n)[j1].idx < keys_upto(s, n)[j2].idx,
        forall|k: Key| valid_in(s, k) && (k.idx as int) < n ==> keys_upto(s, n).contains(k),
    decreases n,
{
    if n > 0 {
        lemma_iteration_upto(s, n - 1);
        let ks = keys_upto(s, n);
        let pks = keys_upto(s, n - 1);
        let vs = values_upto(s, n);
        let pvs = values_upto(s, n - 1);
        if s[n - 1].1 is Some {
            let knew = Key { idx: (n - 1) as u32, version: s[n - 1].0 };
            assert(ks =~= pks.push(knew));
            assert(vs =~= pvs.push(s[n - 1].1.unwrap()));
            assert forall|k: Key| valid_in(s, k) && (k.idx as int) < n implies ks.contains(k) by {
                if (k.idx as int) < n - 1 {
                    assert(pks.contains(k));
                    let j = choose|j: int| 0 <= j < pks.len() && pks[j] == k;
                    assert(ks[j] == k);
                } else {
                    assert(k == knew);
                    assert(ks[ks.len() - 1] == k);
                }
            }
        } else {
            assert(ks =~= pks);
            assert(vs =~= pvs);
            assert forall|k: Key| valid_in(s, k) && (k.idx as int) < n implies ks.contains(k) by {
                assert((k.idx as int) != n - 1);
                assert(pks.contains(k));
                let j = choose|j: int| 0 <= j < pks.len() && pks[j] == k;
                assert(ks[j] == k);
            }
        }
    }
}

/// Iteration completeness: iterating a store yields exactly its live
/// values, each exactly once, in increasing index order. Stated over the
/// shared model, so it holds of both engines alike: the listed keys are
/// precisely the valid keys, each paired with the value its slot holds, and
/// their indices are strictly increasing.
pub proof fn lemma_iteration_complete<T>(s: Seq<Entry<T>>)
    requires
        s.len() <= 0xFFFF_FFFF,
    ensures
        live_keys(s).len() == live_count(s),
        live_values(s).len() == live_count(s),
        forall|j: int| 0 <= j < live_keys(s).len() ==> {
            let k = #[trigger] live_keys(s)[j];
            &&& valid_in(s, k)
            &&& s[k.idx as int].1 == Some(live_values(s)[j])
        },
        forall|j1: int, j2: int| 0 <= j1 < j2 < live_keys(s).len()
            ==> live_keys(s)[j1].idx < live_keys(s)[j2].idx,
        forall|k: Key| valid_in(s, k) ==> live_keys(s).contains(k),
{
    lemma_iteration_upto(s, s.len() as int);
}

/// Uniqueness: two valid keys that address the same slot are the same key,
/// so every live key is distinct from every other live key.
pub proof fn lemma_live_keys_unique<T>(s: Seq<Entry<T>>, k1: Key, k2: Key)
    requires
        valid_in(s, k1),
        valid_in(s, k2),
        k1.idx == k2.idx,
    ensures
        k1 == k2,
{
}

/// Reissue law: a slot that is removed and then filled again carries a
/// version two steps ahead, which never equals the version a live key
/// carried — the wraparound after `u32::MAX` included.
pub proof fn lemma_reissued_version_differs(v: u32)
    requires
        v % 2 == 1,
    ensures
        wrap_inc(wrap_inc(v)) != v,
{
}

} // verus!
