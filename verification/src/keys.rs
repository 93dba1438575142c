//! Identifiers of nodes, resources, stored values, runtimes and scopes.
//!
//! Every identifier is a slot map key. A key names a slot together with the
//! generation of the value that was put there, so a key that outlives its value
//! does not find the value that took over the slot, as long as the generations
//! have not gone full circle ([`crate::laws::generations`]).
use slotmap::{DefaultKey, Key};
use vstd::prelude::*;

verus! {

/// `slotmap::DefaultKey`, the key of every slot map in this crate.
#[verifier::external_type_specification]
#[verifier::external_body]
pub struct ExDefaultKey(slotmap::DefaultKey);

/// The number that stands for a key: its slot in the lower half, its
/// generation in the upper half.
pub uninterp spec fn key_bits(key: DefaultKey) -> u64;

/// How many numbers a slot, or a generation, ranges over.
pub const HALF: u64 = 0x1_0000_0000;

/// The number of the null key, which no map ever holds.
pub const NULL_KEY: u64 = 0x1_ffff_ffff;

/// The slot that a key names.
pub open spec fn slot_of(key: u64) -> u64 {
    key % HALF
}

/// The generation of a key within its slot.
pub open spec fn generation_of(key: u64) -> u64 {
    key / HALF
}

/// A null key names the last slot, whatever its generation.
pub open spec fn is_null(key: u64) -> bool {
    slot_of(key) == 0xffff_ffff
}

/// Generation `a` came before generation `b`, counted around the circle of
/// 32-bit numbers.
pub open spec fn is_older(a: u64, b: u64) -> bool {
    (a - b) % (HALF as int) >= 0x8000_0000
}

/// Calls `KeyData::as_ffi` on the data of the key, which packs the slot and the
/// generation into one integer. Two keys are equal exactly when these integers
/// are.
#[verifier::external_body]
pub(crate) fn bits_of(key: DefaultKey) -> (bits: u64)
    ensures
        bits == key_bits(key),
{
    key.data().as_ffi()
}

/// Calls `Key::null`, which makes the one key with the last slot and the first
/// generation.
#[verifier::external_body]
pub(crate) fn null_key() -> (key: DefaultKey)
    ensures
        key_bits(key) == NULL_KEY,
{
    DefaultKey::null()
}

/// Identifies a node of the reactive graph.
#[derive(Clone, Copy, Debug, PartialEq, Eq, Hash)]
pub struct NodeId {
    pub key: DefaultKey,
}

impl View for NodeId {
    type V = u64;

    open spec fn view(&self) -> u64 {
        key_bits(self.key)
    }
}

impl NodeId {
    /// Are these the same node?
    pub fn same(self, other: NodeId) -> (r: bool)
        ensures
            r == (self@ == other@),
    {
        bits_of(self.key) == bits_of(other.key)
    }
}

/// Identifies a resource.
#[derive(Clone, Copy, Debug, PartialEq, Eq, Hash)]
pub struct ResourceId {
    pub key: DefaultKey,
}

impl View for ResourceId {
    type V = u64;

    open spec fn view(&self) -> u64 {
        key_bits(self.key)
    }
}

/// Identifies a stored, non-reactive value.
#[derive(Clone, Copy, Debug, PartialEq, Eq, Hash)]
pub struct StoredValueId {
    pub key: DefaultKey,
}

impl View for StoredValueId {
    type V = u64;

    open spec fn view(&self) -> u64 {
        key_bits(self.key)
    }
}

/// Identifies a runtime.
#[derive(Clone, Copy, Debug, PartialEq, Eq, Hash)]
pub struct RuntimeId {
    pub key: DefaultKey,
}

impl View for RuntimeId {
    type V = u64;

    open spec fn view(&self) -> u64 {
        key_bits(self.key)
    }
}

impl Default for RuntimeId {
    fn default() -> (id: Self)
        ensures
            id@ == NULL_KEY,
    {
        RuntimeId { key: null_key() }
    }
}

/// Identifies a scope within its runtime.
#[derive(Clone, Copy, Debug, PartialEq, Eq, Hash)]
pub struct ScopeId {
    pub key: DefaultKey,
}

impl View for ScopeId {
    type V = u64;

    open spec fn view(&self) -> u64 {
        key_bits(self.key)
    }
}

impl Default for ScopeId {
    fn default() -> (id: Self)
        ensures
            id@ == NULL_KEY,
    {
        ScopeId { key: null_key() }
    }
}

} // verus!
