//! Stable layer identity and payload-kind tags.
//!
//! A `LayerId` is assigned once, at registration: the n-th layer added to
//! the builder gets id `n`.  It serves as the dependency-graph node key and
//! as the cache-registry key.  A `ChunkKind` tags the payload type a layer
//! declares, so that a cross-layer lookup can fail cleanly instead of
//! handing back a payload of an unexpected kind.

use vstd::prelude::*;

verus! {

/// Stable, comparable identity of a layer, assigned at registration.
/// Two layers are the same exactly when their ids are equal.
#[derive(Debug, Clone, Copy, PartialEq, Eq, Structural, Hash)]
pub struct LayerId(pub usize);

impl LayerId {
    pub fn new(raw: usize) -> (r: LayerId)
        ensures
            r == (LayerId(raw)),
    {
        LayerId(raw)
    }

    pub fn index(&self) -> (r: usize)
        ensures
            r == self.0,
    {
        self.0
    }
}

/// Tag of the payload kind a layer declares.  A lookup that names a
/// different kind than the target layer declares returns nothing.
#[derive(Debug, Clone, Copy, PartialEq, Eq, Structural, Hash)]
pub struct ChunkKind(pub u32);

} // verus!
