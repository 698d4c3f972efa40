use vstd::prelude::*;
use crate::lsn::Lsn;

verus! {

/// A page key.
#[derive(Clone, Copy, Debug, PartialEq, Eq, Structural)]
pub struct Key(pub u128);

/// The keys from `start` up to, not including, `end`.
#[derive(Clone, Copy, Debug, PartialEq, Eq, Structural)]
pub struct KeyRange {
    pub start: Key,
    pub end: Key,
}

/// The log positions from `start` up to, not including, `end`.
#[derive(Clone, Copy, Debug, PartialEq, Eq, Structural)]
pub struct LsnRange {
    pub start: Lsn,
    pub end: Lsn,
}

/// The identity of a persistent layer: what it covers and of which kind it is.
#[derive(Clone, Copy, Debug, PartialEq, Eq, Structural)]
pub struct PersistentLayerKey {
    pub key_range: KeyRange,
    pub lsn_range: LsnRange,
    pub is_delta: bool,
}

/// What is known of a persistent layer without reading it. A descriptor is
/// made once and never changed.
#[derive(Clone, Copy, Debug, PartialEq, Eq, Structural)]
pub struct PersistentLayerDesc {
    pub key_range: KeyRange,
    pub lsn_range: LsnRange,
    pub is_delta: bool,
    pub file_size: u64,
}

impl PersistentLayerDesc {
    /// The identity of the layer: everything but its size.
    pub open spec fn identity(self) -> PersistentLayerKey {
        PersistentLayerKey {
            key_range: self.key_range,
            lsn_range: self.lsn_range,
            is_delta: self.is_delta,
        }
    }

    pub fn key(&self) -> (k: PersistentLayerKey)
        ensures
            k == self.identity(),
    {
        PersistentLayerKey {
            key_range: self.key_range,
            lsn_range: self.lsn_range,
            is_delta: self.is_delta,
        }
    }
}

/// A handle on a persistent layer whose content is at hand. Two handles on
/// one layer carry the same `handle` number; handles are shared by copying.
#[derive(Clone, Copy, Debug, PartialEq, Eq, Structural)]
pub struct Layer {
    pub desc: PersistentLayerDesc,
    pub handle: u64,
}

impl Layer {
    pub fn layer_desc(&self) -> (d: PersistentLayerDesc)
        ensures
            d == self.desc,
    {
        self.desc
    }
}

/// A handle on a layer that lives in memory. It is open, taking writes, until
/// it is frozen at an end position; from then on it never changes.
#[derive(Clone, Copy, Debug, PartialEq, Eq, Structural)]
pub struct InMemoryLayer {
    pub handle: u64,
    pub start_lsn: Lsn,
    pub end_lsn: Option<Lsn>,
}

impl InMemoryLayer {
    /// A new open layer that starts at `start_lsn`.
    pub fn create(handle: u64, start_lsn: Lsn) -> (l: InMemoryLayer)
        ensures
            l == (InMemoryLayer { handle, start_lsn, end_lsn: None }),
    {
        InMemoryLayer { handle, start_lsn, end_lsn: None }
    }

    pub open spec fn is_open(self) -> bool {
        self.end_lsn is None
    }

    /// This layer, sealed at `end_lsn`.
    pub open spec fn frozen_at(self, end_lsn: Lsn) -> InMemoryLayer {
        InMemoryLayer { handle: self.handle, start_lsn: self.start_lsn, end_lsn: Some(end_lsn) }
    }

    /// Seals an open layer at `end_lsn`.
    pub fn freeze(&mut self, end_lsn: Lsn)
        requires
            old(self).is_open(),
        ensures
            *final(self) == old(self).frozen_at(end_lsn),
    {
        self.end_lsn = Some(end_lsn);
    }

    pub fn get_lsn_range_start(&self) -> (s: Lsn)
        ensures
            s == self.start_lsn,
    {
        self.start_lsn
    }
}

} // verus!
