//! Generational handle-based containers.
//!
//! Values are inserted into a store and addressed afterwards through an
//! opaque, versioned [`Key`]. Access, mutation and removal go through that
//! key in constant time; once a key's slot has been removed the key is
//! permanently and detectably invalid, even if the slot is later reused.
//!
//! Two engines are provided: [`SlotMap`], a plain slot vector with a free
//! list, and [`HopSlotMap`], which additionally keeps metadata about
//! contiguous runs of vacant slots so that iteration can hop over them.

use vstd::prelude::*;

pub mod model;
pub mod normal;
pub mod hop;

pub use normal::SlotMap;
pub use hop::HopSlotMap;

verus! {

/// A trait for items that can go in a slot map. Storage slots are reused in
/// place, so a stored type must be bitwise-copyable: overwriting a slot must
/// never need to run cleanup logic.
pub trait Slottable: Copy {}

impl<T: Copy> Slottable for T {}

/// Key used to access stored values in a slot map.
///
/// A key pairs a slot index with a version number. It is produced by an
/// insert and stays immutable afterwards; its validity, not its existence,
/// expires on removal. Keys implement `Ord` so they can be kept in ordered
/// containers, but their order carries no meaning.
#[derive(Debug, Clone, Copy, PartialEq, Eq, Structural, PartialOrd, Ord, Hash)]
pub struct Key {
    /// Index of the slot this key addresses; `u32::MAX` is reserved for the
    /// null key.
    pub idx: u32,
    /// Version the slot had when this key was produced; always odd.
    pub version: u32,
}

impl Key {
    /// Every key handed out by this crate has an odd (hence nonzero)
    /// version, and the only key with the reserved index is the canonical
    /// null key.
    pub open spec fn wf(self) -> bool {
        &&& self.version % 2 == 1
        &&& self.idx == u32::MAX ==> self.version == 1
    }

    /// The canonical null key.
    pub open spec fn spec_null() -> Key {
        Key { idx: u32::MAX, version: 1 }
    }

    pub(crate) fn new(idx: u32, version: u32) -> (k: Key)
        requires
            version != 0,
        ensures
            k == (Key { idx, version }),
    {
        Key { idx, version }
    }

    /// Creates a key that is always invalid and distinct from any non-null
    /// key. A null key can only be created through this method or through
    /// default initialization, and is safe to use with any store.
    pub fn null() -> (k: Self)
        ensures
            k == Key::spec_null(),
            k.wf(),
    {
        Key::new(u32::MAX, 1)
    }

    /// Checks if a key is null. There is only a single null key: two null
    /// keys are always equal.
    pub fn is_null(self) -> (r: bool)
        ensures
            r == (self.idx == u32::MAX),
    {
        self.idx == u32::MAX
    }

    /// The serialized form of this key.
    pub open spec fn spec_encode(self) -> SerKey {
        SerKey { idx: self.idx, version: self.version }
    }

    /// Encodes this key as a plain two-field record.
    pub fn encode(self) -> (s: SerKey)
        ensures
            s == self.spec_encode(),
    {
        SerKey { idx: self.idx, version: self.version }
    }

    /// What decoding a serialized key yields: any record with the reserved
    /// index collapses to the canonical null key, and the version is
    /// unconditionally forced odd, so a decoded key can never carry an even
    /// ("vacant-looking") version.
    pub open spec fn spec_decode(s: SerKey) -> Key {
        if s.idx == u32::MAX {
            Key::spec_null()
        } else {
            Key { idx: s.idx, version: s.version | 1 }
        }
    }

    /// Decodes a serialized key, hardening it against adversarial input:
    /// malformed records are normalized into harmless, still-invalid keys
    /// rather than rejected.
    pub fn decode(s: SerKey) -> (k: Key)
        ensures
            k == Key::spec_decode(s),
            k.wf(),
    {
        if s.idx == u32::MAX {
            Key::null()
        } else {
            let ver: u32 = s.version;
            proof {
                assert((ver | 1) % 2 == 1 && (ver | 1) != 0) by (bit_vector);
            }
            Key::new(s.idx, ver | 1)
        }
    }
}

impl Default for Key {
    /// Default initialization yields the null key.
    fn default() -> (k: Self)
        ensures
            k == Key::spec_null(),
    {
        Key::null()
    }
}

/// The serialized form of a key: a plain two-field record, the only shape
/// that ever crosses a serialization boundary.
#[derive(Debug, Clone, Copy, PartialEq, Eq, Structural)]
pub struct SerKey {
    /// Serialized slot index.
    pub idx: u32,
    /// Serialized version; forced odd on decoding.
    pub version: u32,
}

/// Round-trip law: encoding any well-formed key and decoding the result
/// reproduces the identical key.
pub proof fn lemma_decode_encode(k: Key)
    requires
        k.wf(),
    ensures
        Key::spec_decode(k.spec_encode()) == k,
{
    if k.idx == u32::MAX {
        assert(Key::spec_decode(k.spec_encode()) == k);
    } else {
        let v = k.version;
        assert(v % 2 == 1 ==> (v | 1) == v) by (bit_vector);
    }
}

/// Hardening law: decoding any record with the reserved index yields the
/// canonical null key, whatever version the record claims.
pub proof fn lemma_decode_null_collapses(v: u32)
    ensures
        Key::spec_decode(SerKey { idx: u32::MAX, version: v }) == Key::spec_null(),
{
}

} // verus!
