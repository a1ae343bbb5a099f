//! External demand sources.
//!
//! A `LayerClient` asks for a spatial neighborhood of one or more target
//! layers' output around an anchor point, with a priority tier.  Inactive
//! clients are skipped entirely; toggling a client inactive removes all its
//! influence from the next tick on.

use vstd::prelude::*;

use crate::bounds::Point;
use crate::layer::{padding_ok, Dependency, MAX_PADDING};
use crate::usage::UsageStrategy;

verus! {

/// Largest magnitude allowed for a client's anchor coordinates, so that
/// anchor and padding arithmetic stays within `i64`.
pub const MAX_ANCHOR: i64 = 0x1000_0000_0000_0000;

/// An external request for a spatial neighborhood of the targets' output.
#[derive(Debug)]
pub struct LayerClient {
    pub active: bool,
    pub center: Point,
    pub dependencies: Vec<Dependency>,
    pub strategy: UsageStrategy,
}

/// A client the engine can serve: anchor within range, every requirement
/// naming a registered layer (below `layer_count`) with a padding in range.
pub open spec fn client_ok(c: LayerClient, layer_count: int) -> bool {
    &&& -MAX_ANCHOR <= c.center.x <= MAX_ANCHOR
    &&& -MAX_ANCHOR <= c.center.y <= MAX_ANCHOR
    &&& forall|j: int|
        0 <= j < c.dependencies@.len() ==> #[trigger] padding_ok(c.dependencies@[j])
            && c.dependencies@[j].spec_layer_id().0 < layer_count
}

impl LayerClient {
    pub fn new(center: Point, dependencies: Vec<Dependency>, strength: UsageStrategy) -> (r:
        LayerClient)
        ensures
            r.active,
            r.center == center,
            r.dependencies == dependencies,
            r.strategy == strength,
    {
        LayerClient { active: true, center, dependencies, strategy: strength }
    }

    pub fn activate(&mut self)
        ensures
            *final(self) == (LayerClient { active: true, ..*old(self) }),
    {
        self.active = true;
    }

    pub fn deactivate(&mut self)
        ensures
            *final(self) == (LayerClient { active: false, ..*old(self) }),
    {
        self.active = false;
    }

    pub fn is_active(&self) -> (r: bool)
        ensures
            r == self.active,
    {
        self.active
    }

    pub fn get_center(&self) -> (r: Point)
        ensures
            r == self.center,
    {
        self.center
    }

    pub fn get_dependencies(&self) -> (r: &Vec<Dependency>)
        ensures
            r == &self.dependencies,
    {
        &self.dependencies
    }

    pub fn get_strategy(&self) -> (r: UsageStrategy)
        ensures
            r == self.strategy,
    {
        self.strategy
    }
}

/// Decide `client_ok` at run time: whether the engine can serve this
/// client against `layer_count` registered layers.
pub fn client_acceptable(c: &LayerClient, layer_count: usize) -> (r: bool)
    ensures
        r == client_ok(*c, layer_count as int),
{
    if !(-MAX_ANCHOR <= c.center.x && c.center.x <= MAX_ANCHOR && -MAX_ANCHOR <= c.center.y
        && c.center.y <= MAX_ANCHOR) {
        return false;
    }
    let m = c.dependencies.len();
    let mut j: usize = 0;
    while j < m
        invariant
            j <= m,
            m == c.dependencies@.len(),
            -MAX_ANCHOR <= c.center.x <= MAX_ANCHOR,
            -MAX_ANCHOR <= c.center.y <= MAX_ANCHOR,
            forall|b: int| 0 <= b < j ==> #[trigger] padding_ok(c.dependencies@[b]),
            forall|b: int|
                0 <= b < j ==> (#[trigger] c.dependencies@[b]).spec_layer_id().0
                    < layer_count,
        decreases m - j,
    {
        let p = c.dependencies[j].get_padding();
        if !(0 <= p.x && p.x <= MAX_PADDING && 0 <= p.y && p.y <= MAX_PADDING) {
            proof {
                assert(!padding_ok(c.dependencies@[j as int]));
            }
            return false;
        }
        if c.dependencies[j].get_layer_id().0 >= layer_count {
            proof {
                assert(padding_ok(c.dependencies@[j as int]));
                assert(c.dependencies@[j as int].spec_layer_id().0 >= layer_count);
            }
            return false;
        }
        proof {
            assert(padding_ok(c.dependencies@[j as int]));
            assert(c.dependencies@[j as int].spec_layer_id().0 < layer_count);
        }
        j = j + 1;
    }
    true
}

/// Anything that can stand in for a demand source.
pub trait IntoLayerClient: Sized {
    /// The client this value stands for.
    spec fn as_client(&self) -> LayerClient;

    fn into_layer_client(self) -> (r: LayerClient)
        ensures
            r == self.as_client(),
    ;
}

impl IntoLayerClient for LayerClient {
    open spec fn as_client(&self) -> LayerClient {
        *self
    }

    fn into_layer_client(self) -> (r: LayerClient) {
        self
    }
}

} // verus!
