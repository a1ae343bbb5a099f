//! The orchestrator: registration, the dependency graph, external demand,
//! and the per-tick protocol.
//!
//! `LayersManagerBuilder` collects layers; `build` assigns the dependency
//! graph and rejects cycles and invalid configurations.  Each call of
//! `regenerate` runs one tick: usage counters are reset, active clients
//! register demand, demand cascades through the graph in topological order
//! (dependents before dependencies), and chunks are generated — and stale
//! ones evicted — in the reverse order, so that every dependency is up to
//! date before a dependent generates.

use vstd::prelude::*;

use crate::bounds::{clamp_idx, covered, idx_lex_less, valid_cell_size, Bounds, ChunkIdx, Point};
use crate::graph::{
    dag_add_edge, dag_add_node, dag_dot_string, dag_edges, dag_new, dag_node_count,
    dag_topo_order, has_cycle, lemma_cycle_monotone, lemma_no_cycle_empty, lemma_topo_complete,
    valid_topo, LayerDag,
};
use crate::layer::{dep_bounds, padding_ok, Dependency, LayerConfig, MAX_PADDING};
use crate::layer_client::{client_ok, IntoLayerClient, LayerClient};
use crate::layer_id::{ChunkKind, LayerId};
use crate::usage::{UsageCounter, UsageStrategy};

verus! {

/// Most layers a manager may hold (keeps graph node indices in range).
pub const MAX_LAYERS: usize = 0x8000;

/// Most dependencies one layer may declare (keeps graph edge counts in range).
pub const MAX_DEPS: usize = 0x8000;

/// Why `build` refused a configuration.
#[derive(Debug, Clone, Copy, PartialEq, Eq, Structural)]
pub enum BuildError {
    /// More than `MAX_LAYERS` layers were registered.
    TooManyLayers,
    /// The named layer has a cell size or a dependency padding out of
    /// range, or declares more than `MAX_DEPS` dependencies.
    InvalidLayer(LayerId),
    /// The named layer depends on a layer id that was never registered.
    UnknownDependency(LayerId),
    /// The declared dependencies close a cycle.
    Cycle,
}

/// A user-supplied layer: cell size, payload kind, declared dependencies,
/// and the generation function.  Generation must be a pure function of the
/// lookup and the index, so that a chunk regenerated after eviction is
/// bit-identical to the first one.
pub trait Layer<P>: Sized {
    /// The fixed cell size of this layer's chunks.
    fn get_chunk_size(&self) -> Point;

    /// The payload kind this layer declares.
    fn get_kind(&self) -> ChunkKind;

    /// The layers this layer reads while generating, each with its padding.
    fn get_dependencies(&self) -> Vec<Dependency>;

    /// Compute the payload of one chunk, reading dependencies through `lookup`.
    fn generate(&self, lookup: &LayerLookupChunk<'_, P, Self>, chunk_idx: &ChunkIdx) -> P;
}

/// Anything that can stand in for a layer configuration.
pub trait IntoLayerConfig<P, G>: Sized {
    fn into_layer_config(self) -> (r: LayerConfig<P, G>)
        ensures
            r.storage@.len() == 0,
            r.deleted@.len() == 0,
    ;
}

impl<P, T: Layer<P>> IntoLayerConfig<P, T> for T {
    fn into_layer_config(self) -> (r: LayerConfig<P, T>) {
        let kind = self.get_kind();
        let depends_on = self.get_dependencies();
        let chunk_size = self.get_chunk_size();
        LayerConfig {
            layer_id: LayerId(0),
            kind,
            depends_on,
            chunk_size,
            storage: Vec::new(),
            generator: self,
            deleted: Vec::new(),
        }
    }
}

/// Collects layers before the dependency graph is built.
pub struct LayersManagerBuilder<P, G> {
    pub layers: Vec<LayerConfig<P, G>>,
}

/// The edge that layer `i`'s dependency `j` declares: from the dependent to
/// the dependency.
pub open spec fn edge_decl<P, G>(layers: Seq<LayerConfig<P, G>>, i: int, j: int) -> (int, int) {
    (i, layers[i].depends_on@[j].spec_layer_id().0 as int)
}

/// `e` is declared by some layer and one of its dependencies.
pub open spec fn is_declared_edge<P, G>(layers: Seq<LayerConfig<P, G>>, e: (int, int)) -> bool {
    exists|i: int, j: int|
        0 <= i < layers.len() && 0 <= j < layers[i].depends_on@.len() && e == #[trigger] edge_decl(
            layers,
            i,
            j,
        )
}

/// The set of all declared dependency edges.
pub open spec fn declared_edges<P, G>(layers: Seq<LayerConfig<P, G>>) -> Set<(int, int)> {
    Set::new(|e: (int, int)| is_declared_edge(layers, e))
}

/// `e` is declared by a layer before `i`, or by layer `i` at a dependency
/// before `j`.
pub open spec fn is_prefix_edge<P, G>(
    layers: Seq<LayerConfig<P, G>>,
    i: int,
    j: int,
    e: (int, int),
) -> bool {
    exists|a: int, b: int|
        0 <= a < layers.len() && 0 <= b < layers[a].depends_on@.len() && (a < i || (a == i && b
            < j)) && e == #[trigger] edge_decl(layers, a, b)
}

/// A registered layer is acceptable: valid cell size, at most `MAX_DEPS`
/// dependencies, and every dependency padding in range.
pub open spec fn layer_shape_ok<P, G>(cfg: LayerConfig<P, G>) -> bool {
    &&& valid_cell_size(cfg.chunk_size)
    &&& cfg.depends_on@.len() <= MAX_DEPS
    &&& forall|j: int|
        0 <= j < cfg.depends_on@.len() ==> #[trigger] padding_ok(cfg.depends_on@[j])
}

/// Every dependency of `cfg` names a registered layer (an id below `n`).
pub open spec fn layer_deps_known<P, G>(cfg: LayerConfig<P, G>, n: int) -> bool {
    forall|j: int|
        0 <= j < cfg.depends_on@.len() ==> (#[trigger] cfg.depends_on@[j]).spec_layer_id().0 < n
}

impl<P, G> LayersManagerBuilder<P, G> {
    /// Layers so far are fresh (no cache, no report) and numbered in
    /// registration order.
    pub open spec fn wf(self) -> bool {
        forall|i: int|
            0 <= i < self.layers@.len() ==> (#[trigger] self.layers@[i]).storage@.len() == 0
                && self.layers@[i].deleted@.len() == 0 && self.layers@[i].layer_id == LayerId(
                i as usize,
            )
    }

    pub fn new() -> (r: Self)
        ensures
            r.wf(),
            r.layers@.len() == 0,
    {
        LayersManagerBuilder { layers: Vec::new() }
    }

    /// Register one more layer; it gets the next free id.
    pub fn add_layer<T: IntoLayerConfig<P, G>>(self, layer: T) -> (r: Self)
        requires
            self.wf(),
        ensures
            r.wf(),
            r.layers@.len() == self.layers@.len() + 1,
            forall|i: int|
                0 <= i < self.layers@.len() ==> #[trigger] r.layers@[i] == self.layers@[i],
            r.layers@.last().layer_id == LayerId(self.layers@.len() as usize),
            r.layers@.last().storage@.len() == 0,
            r.layers@.last().deleted@.len() == 0,
    {
        let mut this = self;
        let mut cfg = layer.into_layer_config();
        cfg.layer_id = LayerId(this.layers.len());
        this.layers.push(cfg);
        this
    }

    /// Build the manager: validate every layer, then build the dependency
    /// graph, refusing any cycle.  On success the manager holds exactly the
    /// registered layers, still fresh, and no clients.
    pub fn build(self) -> (r: Result<LayersManager<P, G>, BuildError>)
        requires
            self.wf(),
        ensures
            (r is Ok) <==> (self.layers@.len() <= MAX_LAYERS && (forall|i: int|
                #![trigger layer_shape_ok(self.layers@[i])]
                #![trigger layer_deps_known(self.layers@[i], self.layers@.len() as int)]
                0 <= i < self.layers@.len() ==> layer_shape_ok(self.layers@[i])
                    && layer_deps_known(self.layers@[i], self.layers@.len() as int))
                && !has_cycle(declared_edges(self.layers@))),
            r matches Ok(m) ==> m.wf() && m.layers@ == self.layers@ && m.layer_client@.len()
                == 0,
            r matches Err(BuildError::TooManyLayers) <==> self.layers@.len() > MAX_LAYERS,
            r matches Err(BuildError::InvalidLayer(l)) ==> l.0 < self.layers@.len()
                && !layer_shape_ok(self.layers@[l.0 as int]),
            r matches Err(BuildError::UnknownDependency(l)) ==> l.0 < self.layers@.len()
                && !layer_deps_known(self.layers@[l.0 as int], self.layers@.len() as int),
            r matches Err(BuildError::Cycle) ==> has_cycle(declared_edges(self.layers@)),
    {
        let n = self.layers.len();
        if n > MAX_LAYERS {
            return Err(BuildError::TooManyLayers);
        }
        let mut i: usize = 0;
        while i < n
            invariant
                i <= n,
                n == self.layers@.len(),
                n <= MAX_LAYERS,
                forall|a: int|
                    0 <= a < i ==> #[trigger] layer_shape_ok(self.layers@[a])
                        && layer_deps_known(self.layers@[a], n as int),
                self.wf(),
            decreases n - i,
        {
            let cfg = &self.layers[i];
            let cs = cfg.chunk_size;
            if !(1 <= cs.x && cs.x <= crate::bounds::MAX_CELL_SIZE && 1 <= cs.y && cs.y
                <= crate::bounds::MAX_CELL_SIZE) {
                proof {
                    assert(self.layers@[i as int].layer_id == LayerId(i as usize));
                    assert(!layer_shape_ok(self.layers@[i as int]));
                }
                return Err(BuildError::InvalidLayer(cfg.layer_id));
            }
            let m = cfg.depends_on.len();
            if m > MAX_DEPS {
                proof {
                    assert(self.layers@[i as int].layer_id == LayerId(i as usize));
                    assert(!layer_shape_ok(self.layers@[i as int]));
                }
                return Err(BuildError::InvalidLayer(cfg.layer_id));
            }
            let mut j: usize = 0;
            while j < m
                invariant
                    i < n,
                    j <= m,
                    n == self.layers@.len(),
                    n <= MAX_LAYERS,
                    m == self.layers@[i as int].depends_on@.len(),
                    forall|b: int|
                        0 <= b < j ==> #[trigger] padding_ok(
                            self.layers@[i as int].depends_on@[b],
                        ),
                    forall|b: int|
                        0 <= b < j ==> (#[trigger] self.layers@[i as int].depends_on@[b])
                            .spec_layer_id().0 < n,
                    self.wf(),
                decreases m - j,
            {
                let d = &self.layers[i].depends_on[j];
                let p = d.get_padding();
                if !(0 <= p.x && p.x <= MAX_PADDING && 0 <= p.y && p.y <= MAX_PADDING) {
                    proof {
                        assert(self.layers@[i as int].layer_id == LayerId(i as usize));
                        assert(!padding_ok(self.layers@[i as int].depends_on@[j as int]));
                        assert(!layer_shape_ok(self.layers@[i as int]));
                        assert(!(layer_shape_ok(self.layers@[i as int]) && layer_deps_known(
                            self.layers@[i as int],
                            n as int,
                        )));
                    }
                    return Err(BuildError::InvalidLayer(self.layers[i].layer_id));
                }
                if d.get_layer_id().0 >= n {
                    proof {
                        assert(self.layers@[i as int].layer_id == LayerId(i as usize));
                        assert(!layer_deps_known(self.layers@[i as int], n as int)) by {
                            assert(self.layers@[i as int].depends_on@[j as int].spec_layer_id().0
                                >= n);
                        }
                        assert(!(layer_shape_ok(self.layers@[i as int]) && layer_deps_known(
                            self.layers@[i as int],
                            n as int,
                        )));
                        assert(!layer_deps_known(
                            self.layers@[i as int],
                            self.layers@.len() as int,
                        ));
                    }
                    return Err(BuildError::UnknownDependency(self.layers[i].layer_id));
                }
                proof {
                    assert(padding_ok(self.layers@[i as int].depends_on@[j as int]));
                    assert(self.layers@[i as int].depends_on@[j as int].spec_layer_id().0 < n);
                }
                j = j + 1;
            }
            proof {
                assert(layer_shape_ok(self.layers@[i as int]));
                assert(layer_deps_known(self.layers@[i as int], n as int));
            }
            i = i + 1;
        }
        let mut dag: LayerDag = dag_new();
        proof {
            lemma_no_cycle_empty();
        }
        let mut i: usize = 0;
        while i < n
            invariant
                i <= n,
                n <= MAX_LAYERS,
                dag_node_count(dag) == i,
                dag_edges(dag) == Set::<(int, int)>::empty(),
                crate::graph::dag_edge_total(dag) == 0,
            decreases n - i,
        {
            let _ = dag_add_node(&mut dag, i as u32);
            i = i + 1;
        }
        proof {
            lemma_no_cycle_empty();
            assert(dag_edges(dag) =~= Set::new(
                |e: (int, int)| is_prefix_edge(self.layers@, 0, 0, e),
            )) by {
                assert forall|e: (int, int)|
                    !is_prefix_edge(self.layers@, 0, 0, e) by {
                    if is_prefix_edge(self.layers@, 0, 0, e) {
                        let (a, b) = choose|a: int, b: int|
                            0 <= a < self.layers@.len() && 0 <= b
                                < self.layers@[a].depends_on@.len() && (a < 0 || (a == 0 && b
                                < 0)) && e == #[trigger] edge_decl(self.layers@, a, b);
                        assert(false);
                    }
                }
            }
        }
        let mut i: usize = 0;
        while i < n
            invariant
                i <= n,
                n == self.layers@.len(),
                n <= MAX_LAYERS,
                self.wf(),
                forall|a: int|
                    0 <= a < n ==> #[trigger] layer_shape_ok(self.layers@[a])
                        && layer_deps_known(self.layers@[a], n as int),
                dag_node_count(dag) == n,
                !has_cycle(dag_edges(dag)),
                crate::graph::dag_edge_total(dag) <= i * (MAX_DEPS as int),
                dag_edges(dag) == Set::new(
                    |e: (int, int)| is_prefix_edge(self.layers@, i as int, 0, e),
                ),
            decreases n - i,
        {
            let m = self.layers[i].depends_on.len();
            proof {
                assert(layer_shape_ok(self.layers@[i as int]));
                assert(layer_deps_known(self.layers@[i as int], n as int));
            }
            let mut j: usize = 0;
            while j < m
                invariant
                    i < n,
                    j <= m,
                    n == self.layers@.len(),
                    n <= MAX_LAYERS,
                    self.wf(),
                    m == self.layers@[i as int].depends_on@.len(),
                    m <= MAX_DEPS,
                    forall|a: int|
                        0 <= a < n ==> #[trigger] layer_shape_ok(self.layers@[a])
                            && layer_deps_known(self.layers@[a], n as int),
                    dag_node_count(dag) == n,
                    !has_cycle(dag_edges(dag)),
                    crate::graph::dag_edge_total(dag) <= i * (MAX_DEPS as int) + j,
                    dag_edges(dag) == Set::new(
                        |e: (int, int)| is_prefix_edge(self.layers@, i as int, j as int, e),
                    ),
                decreases m - j,
            {
                let dep_id: LayerId = self.layers[i].depends_on[j].get_layer_id();
                proof {
                    assert(layer_shape_ok(self.layers@[i as int]));
                    assert(layer_deps_known(self.layers@[i as int], n as int));
                    assert(self.layers@[i as int].depends_on@[j as int].spec_layer_id().0 < n);
                    assert(i * (MAX_DEPS as int) + j < 0xffff_fffe) by (nonlinear_arith)
                        requires
                            0 <= i < n,
                            n <= 0x8000,
                            0 <= j <= 0x8000,
                    ;
                }
                let ok = dag_add_edge(&mut dag, i, dep_id.0);
                if !ok {
                    proof {
                        let ghost e = (i as int, dep_id.0 as int);
                        assert(e == edge_decl(self.layers@, i as int, j as int));
                        assert(dag_edges(dag).insert(e).subset_of(
                            declared_edges(self.layers@),
                        )) by {
                            assert forall|e2: (int, int)|
                                dag_edges(dag).insert(e).contains(e2) implies declared_edges(
                                self.layers@,
                            ).contains(e2) by {
                                if e2 == e {
                                    assert(is_declared_edge(self.layers@, e2));
                                } else {
                                    assert(is_prefix_edge(self.layers@, i as int, j as int, e2));
                                    let (a, b) = choose|a: int, b: int|
                                        0 <= a < self.layers@.len() && 0 <= b
                                            < self.layers@[a].depends_on@.len() && (a < i || (a
                                            == i && b < j)) && e2 == #[trigger] edge_decl(
                                            self.layers@,
                                            a,
                                            b,
                                        );
                                    assert(is_declared_edge(self.layers@, e2));
                                }
                            }
                        }
                        lemma_cycle_monotone(
                            dag_edges(dag).insert(e),
                            declared_edges(self.layers@),
                        );
                    }
                    return Err(BuildError::Cycle);
                }
                proof {
                    let ghost e = (i as int, dep_id.0 as int);
                    assert(e == edge_decl(self.layers@, i as int, j as int));
                    assert(dag_edges(dag) =~= Set::new(
                        |e2: (int, int)| is_prefix_edge(self.layers@, i as int, j as int + 1, e2),
                    )) by {
                        assert forall|e2: (int, int)|
                            dag_edges(dag).contains(e2) <==> is_prefix_edge(
                                self.layers@,
                                i as int,
                                j as int + 1,
                                e2,
                            ) by {
                            if dag_edges(dag).contains(e2) {
                                if e2 == e {
                                    assert(is_prefix_edge(
                                        self.layers@,
                                        i as int,
                                        j as int + 1,
                                        e2,
                                    ));
                                } else {
                                    assert(is_prefix_edge(self.layers@, i as int, j as int, e2));
                                    let (a, b) = choose|a: int, b: int|
                                        0 <= a < self.layers@.len() && 0 <= b
                                            < self.layers@[a].depends_on@.len() && (a < i || (a
                                            == i && b < j)) && e2 == #[trigger] edge_decl(
                                            self.layers@,
                                            a,
                                            b,
                                        );
                                    assert(is_prefix_edge(
                                        self.layers@,
                                        i as int,
                                        j as int + 1,
                                        e2,
                                    ));
                                }
                            }
                            if is_prefix_edge(self.layers@, i as int, j as int + 1, e2) {
                                let (a, b) = choose|a: int, b: int|
                                    0 <= a < self.layers@.len() && 0 <= b
                                        < self.layers@[a].depends_on@.len() && (a < i || (a == i
                                        && b < j + 1)) && e2 == #[trigger] edge_decl(
                                        self.layers@,
                                        a,
                                        b,
                                    );
                                if a == i && b == j {
                                    assert(e2 == e);
                                } else {
                                    assert(is_prefix_edge(self.layers@, i as int, j as int, e2));
                                }
                            }
                        }
                    }
                    assert(i * (MAX_DEPS as int) + j + 1 <= i * (MAX_DEPS as int) + (
                    MAX_DEPS as int));
                }
                j = j + 1;
            }
            proof {
                assert((i + 1) * (MAX_DEPS as int) == i * (MAX_DEPS as int) + (MAX_DEPS as int))
                    by (nonlinear_arith);
                assert(dag_edges(dag) =~= Set::new(
                    |e2: (int, int)| is_prefix_edge(self.layers@, i as int + 1, 0, e2),
                )) by {
                    assert forall|e2: (int, int)|
                        is_prefix_edge(self.layers@, i as int, m as int, e2)
                            <==> is_prefix_edge(self.layers@, i as int + 1, 0, e2) by {
                        if is_prefix_edge(self.layers@, i as int, m as int, e2) {
                            let (a, b) = choose|a: int, b: int|
                                0 <= a < self.layers@.len() && 0 <= b
                                    < self.layers@[a].depends_on@.len() && (a < i || (a == i && b
                                    < m)) && e2 == #[trigger] edge_decl(self.layers@, a, b);
                            assert(is_prefix_edge(self.layers@, i as int + 1, 0, e2));
                        }
                        if is_prefix_edge(self.layers@, i as int + 1, 0, e2) {
                            let (a, b) = choose|a: int, b: int|
                                0 <= a < self.layers@.len() && 0 <= b
                                    < self.layers@[a].depends_on@.len() && (a < i + 1 || (a == i
                                    + 1 && b < 0)) && e2 == #[trigger] edge_decl(
                                    self.layers@,
                                    a,
                                    b,
                                );
                            assert(is_prefix_edge(self.layers@, i as int, m as int, e2));
                        }
                    }
                }
            }
            i = i + 1;
        }
        proof {
            assert(dag_edges(dag) =~= declared_edges(self.layers@)) by {
                assert forall|e2: (int, int)|
                    is_prefix_edge(self.layers@, n as int, 0, e2) <==> is_declared_edge(
                        self.layers@,
                        e2,
                    ) by {
                    if is_prefix_edge(self.layers@, n as int, 0, e2) {
                        let (a, b) = choose|a: int, b: int|
                            0 <= a < self.layers@.len() && 0 <= b
                                < self.layers@[a].depends_on@.len() && (a < n || (a == n && b
                                < 0)) && e2 == #[trigger] edge_decl(self.layers@, a, b);
                        assert(is_declared_edge(self.layers@, e2));
                    }
                    if is_declared_edge(self.layers@, e2) {
                        let (a, b) = choose|a: int, b: int|
                            0 <= a < self.layers@.len() && 0 <= b
                                < self.layers@[a].depends_on@.len() && e2 == #[trigger] edge_decl(
                                self.layers@,
                                a,
                                b,
                            );
                        assert(is_prefix_edge(self.layers@, n as int, 0, e2));
                    }
                }
            }
        }
        let mgr = LayersManager { layers: self.layers, dag, layer_client: Vec::new() };
        proof {
            assert forall|a: int| 0 <= a < mgr.layers@.len() implies (#[trigger] mgr.layers@[a]).wf()
                && mgr.layers@[a].layer_id == LayerId(a as usize) && layer_shape_ok(
                mgr.layers@[a],
            ) && layer_deps_known(mgr.layers@[a], mgr.layers@.len() as int) by {
                assert(layer_shape_ok(self.layers@[a]));
                assert(mgr.layers@[a].storage@.len() == 0);
            }
            assert(mgr.wf());
        }
        Ok(mgr)
    }
}

impl<P, G> Default for LayersManagerBuilder<P, G> {
    fn default() -> (r: Self)
        ensures
            r.wf(),
            r.layers@.len() == 0,
    {
        Self::new()
    }
}

/// The orchestrator: owns the layers, their dependency graph, and the
/// current demand sources.
pub struct LayersManager<P, G> {
    pub layers: Vec<LayerConfig<P, G>>,
    pub dag: LayerDag,
    pub layer_client: Vec<LayerClient>,
}

/// A read-only view into every layer's cache, handed to generation
/// functions so a layer can read its (already generated) dependencies.
pub struct LayerLookupChunk<'a, P, G> {
    pub layers: &'a Vec<LayerConfig<P, G>>,
}

impl<P, G> LayersManager<P, G> {
    pub open spec fn layer_count(self) -> int {
        self.layers@.len() as int
    }

    /// Well-formed manager: every layer well-formed and numbered by its
    /// position, every dependency and client target registered, and the
    /// graph an exact, acyclic picture of the declared dependencies.
    pub open spec fn wf(self) -> bool {
        &&& forall|i: int|
            0 <= i < self.layers@.len() ==> (#[trigger] self.layers@[i]).wf()
                && self.layers@[i].layer_id == LayerId(i as usize) && layer_shape_ok(
                self.layers@[i],
            ) && layer_deps_known(self.layers@[i], self.layers@.len() as int)
        &&& dag_node_count(self.dag) == self.layers@.len()
        &&& dag_edges(self.dag) == declared_edges(self.layers@)
        &&& !has_cycle(dag_edges(self.dag))
        &&& forall|k: int|
            0 <= k < self.layer_client@.len() ==> client_ok(
                #[trigger] self.layer_client@[k],
                self.layers@.len() as int,
            )
    }

    /// Register one more demand source.
    pub fn add_layer_client<C: IntoLayerClient>(&mut self, layer_client: C)
        requires
            old(self).wf(),
            client_ok(layer_client.as_client(), old(self).layers@.len() as int),
        ensures
            final(self).wf(),
            final(self).layers == old(self).layers,
            final(self).dag == old(self).dag,
            final(self).layer_client@ == old(self).layer_client@.push(
                layer_client.as_client(),
            ),
    {
        self.layer_client.push(layer_client.into_layer_client());
    }

    /// Register a demand source after checking that the engine can serve
    /// it; an unacceptable source is dropped and `false` returned.
    pub fn try_add_layer_client<C: IntoLayerClient>(&mut self, layer_client: C) -> (r: bool)
        requires
            old(self).wf(),
        ensures
            final(self).wf(),
            final(self).layers == old(self).layers,
            final(self).dag == old(self).dag,
            r == client_ok(layer_client.as_client(), old(self).layers@.len() as int),
            r ==> final(self).layer_client@ == old(self).layer_client@.push(
                layer_client.as_client(),
            ),
            !r ==> final(self).layer_client == old(self).layer_client,
    {
        let lc = layer_client.into_layer_client();
        if crate::layer_client::client_acceptable(&lc, self.layers.len()) {
            self.layer_client.push(lc);
            true
        } else {
            false
        }
    }

    /// Drop every demand source.
    pub fn clear_layer_clients(&mut self)
        ensures
            final(self).layers == old(self).layers,
            final(self).dag == old(self).dag,
            final(self).layer_client@.len() == 0,
    {
        self.layer_client.clear();
    }

    /// A textual dump of the dependency graph, for diagnostics only.
    pub fn dot_string(&self) -> String {
        dag_dot_string(&self.dag)
    }

    /// This tick's eviction report for one layer.
    pub fn get_deleted_chunks(&self, layer_id: LayerId) -> (r: &Vec<ChunkIdx>)
        requires
            layer_id.0 < self.layers@.len(),
        ensures
            r == &self.layers@[layer_id.0 as int].deleted,
    {
        &self.layers[layer_id.0].deleted
    }

    /// The payload generated for the chunk containing `pos` in the given
    /// layer, if that chunk is generated and the layer declares payload
    /// kind `kind`.
    pub fn get_chunk(&self, layer_id: LayerId, kind: ChunkKind, pos: Point) -> (r: Option<&P>)
        requires
            self.wf(),
            layer_id.0 < self.layers@.len(),
        ensures
            ({
                let cfg = self.layers@[layer_id.0 as int];
                let c = ChunkIdx {
                    x: clamp_idx(pos.x as int / cfg.chunk_size.x as int) as i32,
                    y: clamp_idx(pos.y as int / cfg.chunk_size.y as int) as i32,
                };
                match r {
                    Some(p) => kind == cfg.kind && cfg.has_idx(c) && cfg.entry_at(c).chunk
                        == Some(*p),
                    None => kind != cfg.kind || !cfg.has_idx(c) || cfg.entry_at(c).chunk
                        is None,
                }
            }),
    {
        let cfg = &self.layers[layer_id.0];
        if cfg.kind.0 != kind.0 {
            return None;
        }
        let c = ChunkIdx::from_point(pos, cfg.chunk_size.x, cfg.chunk_size.y);
        match cfg.find_slot(c) {
            Some(k) => {
                proof {
                    cfg.lemma_slot(c, k as int);
                }
                cfg.storage[k].1.get_chunk()
            },
            None => None,
        }
    }

    /// Every generated chunk of the layer whose index is covered by
    /// `bounds`, with its index, each index once — empty if `kind` is not
    /// the layer's kind.
    #[verifier::rlimit(100)]
    pub fn get_chunks_in(&self, layer_id: LayerId, kind: ChunkKind, bounds: Bounds) -> (r: Vec<
        (ChunkIdx, &P),
    >)
        requires
            self.wf(),
            layer_id.0 < self.layers@.len(),
        ensures
            forall|t: int|
                0 <= t < r@.len() ==> {
                    let cfg = self.layers@[layer_id.0 as int];
                    &&& covered(bounds, cfg.chunk_size, (#[trigger] r@[t]).0)
                    &&& cfg.has_idx(r@[t].0)
                    &&& cfg.entry_at(r@[t].0).chunk == Some(*r@[t].1)
                    &&& kind == cfg.kind
                },
            kind == self.layers@[layer_id.0 as int].kind ==> forall|c: ChunkIdx|
                covered(bounds, self.layers@[layer_id.0 as int].chunk_size, c)
                    && #[trigger] self.layers@[layer_id.0 as int].has_idx(c)
                    && self.layers@[layer_id.0 as int].entry_at(c).chunk is Some
                    ==> exists|t: int| 0 <= t < r@.len() && (#[trigger] r@[t]).0 == c,
            forall|t1: int, t2: int|
                0 <= t1 < t2 < r@.len() ==> idx_lex_less(
                    (#[trigger] r@[t1]).0,
                    (#[trigger] r@[t2]).0,
                ),
    {
        let cfg = &self.layers[layer_id.0];
        let mut r: Vec<(ChunkIdx, &P)> = Vec::new();
        if cfg.kind.0 != kind.0 {
            return r;
        }
        let cov: Vec<ChunkIdx> = bounds.chunks(cfg.chunk_size);
        let n = cov.len();
        let mut t: usize = 0;
        while t < n
            invariant
                t <= n,
                n == cov@.len(),
                self.wf(),
                layer_id.0 < self.layers@.len(),
                cfg == &self.layers@[layer_id.0 as int],
                kind == cfg.kind,
                forall|c: ChunkIdx| cov@.contains(c) <==> covered(bounds, cfg.chunk_size, c),
                cov@.no_duplicates(),
                forall|u1: int, u2: int|
                    0 <= u1 < u2 < cov@.len() ==> idx_lex_less(
                        #[trigger] cov@[u1],
                        #[trigger] cov@[u2],
                    ),
                forall|u: int|
                    0 <= u < r@.len() ==> covered(bounds, cfg.chunk_size, (#[trigger] r@[u]).0)
                        && cfg.has_idx(r@[u].0) && cfg.entry_at(r@[u].0).chunk == Some(
                        *r@[u].1,
                    ),
                forall|u: int|
                    0 <= u < t && cfg.has_idx(#[trigger] cov@[u]) && cfg.entry_at(
                        cov@[u],
                    ).chunk is Some ==> exists|v: int|
                        0 <= v < r@.len() && (#[trigger] r@[v]).0 == cov@[u],
                forall|v: int|
                    0 <= v < r@.len() ==> exists|u: int|
                        0 <= u < t && (#[trigger] r@[v]).0 == cov@[u],
                forall|t1: int, t2: int|
                    0 <= t1 < t2 < r@.len() ==> (#[trigger] r@[t1]).0 != (
                    #[trigger] r@[t2]).0,
                forall|t1: int, t2: int|
                    0 <= t1 < t2 < r@.len() ==> idx_lex_less((#[trigger] r@[t1]).0, (
                    #[trigger] r@[t2]).0),
            decreases n - t,
        {
            let c = cov[t];
            match cfg.find_slot(c) {
                Some(k) => {
                    proof {
                        cfg.lemma_slot(c, k as int);
                    }
                    match cfg.storage[k].1.get_chunk() {
                        Some(p) => {
                            let ghost prev = r@;
                            r.push((c, p));
                            proof {
                                assert(cov@[t as int] == c);
                                assert(cov@.contains(c));
                                assert(covered(bounds, cfg.chunk_size, c));
                                assert(r@[prev.len() as int].0 == c);
                                assert(cfg.entry_at(c).chunk == Some(*r@[prev.len() as int].1));
                                assert forall|v: int|
                                    0 <= v < r@.len() implies exists|u: int|
                                    0 <= u < t + 1 && (#[trigger] r@[v]).0 == cov@[u] by {
                                    if v < prev.len() {
                                        let u = choose|u: int|
                                            0 <= u < t && (#[trigger] prev[v]).0 == cov@[u];
                                        assert(r@[v].0 == cov@[u]);
                                    } else {
                                        assert(r@[v].0 == cov@[t as int]);
                                    }
                                }
                                assert forall|t1: int, t2: int|
                                    0 <= t1 < t2 < r@.len() implies (#[trigger] r@[t1]).0 != (
                                #[trigger] r@[t2]).0 by {
                                    if t2 == prev.len() {
                                        let u = choose|u: int|
                                            0 <= u < t && (#[trigger] prev[t1]).0 == cov@[u];
                                        assert(r@[t1].0 == cov@[u]);
                                        assert(cov@[u] != cov@[t as int]);
                                    }
                                }
                                assert forall|t1: int, t2: int|
                                    0 <= t1 < t2 < r@.len() implies idx_lex_less((
                                #[trigger] r@[t1]).0, (#[trigger] r@[t2]).0) by {
                                    if t2 == prev.len() {
                                        let u = choose|u: int|
                                            0 <= u < t && (#[trigger] prev[t1]).0 == cov@[u];
                                        assert(r@[t1].0 == cov@[u]);
                                        assert(idx_lex_less(cov@[u], cov@[t as int]));
                                    }
                                }
                                assert forall|u: int|
                                    0 <= u < t + 1 && cfg.has_idx(#[trigger] cov@[u])
                                        && cfg.entry_at(cov@[u]).chunk is Some implies exists|
                                    v: int,
                                |
                                    0 <= v < r@.len() && (#[trigger] r@[v]).0 == cov@[u] by {
                                    if u < t {
                                        let v = choose|v: int|
                                            0 <= v < prev.len() && (#[trigger] prev[v]).0
                                                == cov@[u];
                                        assert(r@[v].0 == cov@[u]);
                                    } else {
                                        assert(r@[prev.len() as int].0 == cov@[u]);
                                    }
                                }
                            }
                        },
                        None => {
                            proof {
                                assert forall|u: int|
                                    0 <= u < t + 1 && cfg.has_idx(#[trigger] cov@[u])
                                        && cfg.entry_at(cov@[u]).chunk is Some implies exists|
                                    v: int,
                                |
                                    0 <= v < r@.len() && (#[trigger] r@[v]).0 == cov@[u] by {
                                    if u == t {
                                        assert(cfg.entry_at(c).chunk is None);
                                    }
                                }
                            }
                        },
                    }
                },
                None => {
                    proof {
                        assert forall|u: int|
                            0 <= u < t + 1 && cfg.has_idx(#[trigger] cov@[u]) && cfg.entry_at(
                                cov@[u],
                            ).chunk is Some implies exists|v: int|
                            0 <= v < r@.len() && (#[trigger] r@[v]).0 == cov@[u] by {
                            if u == t {
                                assert(!cfg.has_idx(c));
                            }
                        }
                    }
                },
            }
            t = t + 1;
        }
        proof {
            assert forall|c: ChunkIdx|
                covered(bounds, self.layers@[layer_id.0 as int].chunk_size, c)
                    && #[trigger] self.layers@[layer_id.0 as int].has_idx(c)
                    && self.layers@[layer_id.0 as int].entry_at(c).chunk is Some implies exists|
                t2: int,
            |
                0 <= t2 < r@.len() && (#[trigger] r@[t2]).0 == c by {
                assert(cov@.contains(c));
                let u = choose|u: int| 0 <= u < cov@.len() && cov@[u] == c;
            }
        }
        r
    }

    /// Every generated chunk of the layer, with its index, each index once —
    /// empty if `kind` is not the layer's kind.
    #[verifier::rlimit(100)]
    pub fn get_all_chunks_in(&self, layer_id: LayerId, kind: ChunkKind) -> (r: Vec<
        (ChunkIdx, &P),
    >)
        requires
            self.wf(),
            layer_id.0 < self.layers@.len(),
        ensures
            forall|t: int|
                0 <= t < r@.len() ==> {
                    let cfg = self.layers@[layer_id.0 as int];
                    &&& cfg.has_idx((#[trigger] r@[t]).0)
                    &&& cfg.entry_at(r@[t].0).chunk == Some(*r@[t].1)
                    &&& kind == cfg.kind
                },
            kind == self.layers@[layer_id.0 as int].kind ==> forall|c: ChunkIdx|
                #[trigger] self.layers@[layer_id.0 as int].has_idx(c)
                    && self.layers@[layer_id.0 as int].entry_at(c).chunk is Some
                    ==> exists|t: int| 0 <= t < r@.len() && (#[trigger] r@[t]).0 == c,
            forall|t1: int, t2: int|
                0 <= t1 < t2 < r@.len() ==> (#[trigger] r@[t1]).0 != (#[trigger] r@[t2]).0,
    {
        let cfg = &self.layers[layer_id.0];
        let mut r: Vec<(ChunkIdx, &P)> = Vec::new();
        if cfg.kind.0 != kind.0 {
            return r;
        }
        let n = cfg.storage.len();
        let mut k: usize = 0;
        while k < n
            invariant
                k <= n,
                n == cfg.storage@.len(),
                self.wf(),
                layer_id.0 < self.layers@.len(),
                cfg == &self.layers@[layer_id.0 as int],
                kind == cfg.kind,
                forall|u: int|
                    0 <= u < r@.len() ==> cfg.has_idx((#[trigger] r@[u]).0) && cfg.entry_at(
                        r@[u].0,
                    ).chunk == Some(*r@[u].1),
                forall|u: int|
                    0 <= u < k && (#[trigger] cfg.storage@[u]).1.chunk is Some ==> exists|v: int|
                        0 <= v < r@.len() && (#[trigger] r@[v]).0 == cfg.storage@[u].0,
                forall|v: int|
                    0 <= v < r@.len() ==> exists|u: int|
                        0 <= u < k && (#[trigger] r@[v]).0 == cfg.storage@[u].0,
                forall|t1: int, t2: int|
                    0 <= t1 < t2 < r@.len() ==> (#[trigger] r@[t1]).0 != (
                    #[trigger] r@[t2]).0,
            decreases n - k,
        {
            let e = &cfg.storage[k];
            proof {
                cfg.lemma_slot(e.0, k as int);
            }
            match e.1.get_chunk() {
                Some(p) => {
                    let ghost prev = r@;
                    r.push((e.0, p));
                    proof {
                        assert(r@[prev.len() as int].0 == cfg.storage@[k as int].0);
                        assert forall|u: int|
                            0 <= u < k + 1 && (#[trigger] cfg.storage@[u]).1.chunk
                                is Some implies exists|v: int|
                            0 <= v < r@.len() && (#[trigger] r@[v]).0 == cfg.storage@[u].0 by {
                            if u < k {
                                let v = choose|v: int|
                                    0 <= v < prev.len() && (#[trigger] prev[v]).0
                                        == cfg.storage@[u].0;
                                assert(r@[v].0 == cfg.storage@[u].0);
                            }
                        }
                        assert forall|v: int|
                            0 <= v < r@.len() implies exists|u: int|
                            0 <= u < k + 1 && (#[trigger] r@[v]).0 == cfg.storage@[u].0 by {
                            if v < prev.len() {
                                let u = choose|u: int|
                                    0 <= u < k && (#[trigger] prev[v]).0 == cfg.storage@[u].0;
                                assert(r@[v].0 == cfg.storage@[u].0);
                            } else {
                                assert(r@[v].0 == cfg.storage@[k as int].0);
                            }
                        }
                        assert forall|t1: int, t2: int|
                            0 <= t1 < t2 < r@.len() implies (#[trigger] r@[t1]).0 != (
                        #[trigger] r@[t2]).0 by {
                            if t2 == prev.len() {
                                let u = choose|u: int|
                                    0 <= u < k && (#[trigger] prev[t1]).0 == cfg.storage@[u].0;
                                assert(r@[t1].0 == cfg.storage@[u].0);
                                assert(cfg.storage@[u].0 != cfg.storage@[k as int].0);
                            }
                        }
                    }
                },
                None => {},
            }
            k = k + 1;
        }
        proof {
            assert forall|c: ChunkIdx|
                #[trigger] self.layers@[layer_id.0 as int].has_idx(c)
                    && self.layers@[layer_id.0 as int].entry_at(c).chunk is Some implies exists|
                t2: int,
            |
                0 <= t2 < r@.len() && (#[trigger] r@[t2]).0 == c by {
                let u = self.layers@[layer_id.0 as int].slot_of(c);
            }
        }
        r
    }
}

/// `p` is the generated payload of some cached index of `cfg` covered by
/// `bounds`.
pub open spec fn payload_in_bounds<P, G>(cfg: LayerConfig<P, G>, bounds: Bounds, p: P) -> bool {
    exists|c: ChunkIdx|
        covered(bounds, cfg.chunk_size, c) && #[trigger] cfg.has_idx(c) && cfg.entry_at(
            c,
        ).chunk == Some(p)
}

impl<'a, P, G> LayerLookupChunk<'a, P, G> {
    /// The payload of the given chunk index in the given layer, if it is
    /// generated and the layer declares kind `kind`.
    pub fn get_chunk_from_idx(&self, layer_id: LayerId, kind: ChunkKind, chunk_idx: ChunkIdx)
        -> (r: Option<&'a P>)
        requires
            layer_id.0 < self.layers@.len(),
            self.layers@[layer_id.0 as int].wf(),
        ensures
            ({
                let cfg = self.layers@[layer_id.0 as int];
                match r {
                    Some(p) => kind == cfg.kind && cfg.has_idx(chunk_idx) && cfg.entry_at(
                        chunk_idx,
                    ).chunk == Some(*p),
                    None => kind != cfg.kind || !cfg.has_idx(chunk_idx) || cfg.entry_at(
                        chunk_idx,
                    ).chunk is None,
                }
            }),
    {
        let cfg = &self.layers[layer_id.0];
        if cfg.kind.0 != kind.0 {
            return None;
        }
        match cfg.find_slot(chunk_idx) {
            Some(k) => {
                proof {
                    cfg.lemma_slot(chunk_idx, k as int);
                }
                cfg.storage[k].1.get_chunk()
            },
            None => None,
        }
    }

    /// The payload of the chunk containing `pos` in the given layer, under
    /// that layer's own cell size.
    pub fn get_chunk(&self, layer_id: LayerId, kind: ChunkKind, pos: Point) -> (r: Option<
        &'a P,
    >)
        requires
            layer_id.0 < self.layers@.len(),
            self.layers@[layer_id.0 as int].wf(),
        ensures
            ({
                let cfg = self.layers@[layer_id.0 as int];
                let c = ChunkIdx {
                    x: clamp_idx(pos.x as int / cfg.chunk_size.x as int) as i32,
                    y: clamp_idx(pos.y as int / cfg.chunk_size.y as int) as i32,
                };
                match r {
                    Some(p) => kind == cfg.kind && cfg.has_idx(c) && cfg.entry_at(c).chunk
                        == Some(*p),
                    None => kind != cfg.kind || !cfg.has_idx(c) || cfg.entry_at(c).chunk
                        is None,
                }
            }),
    {
        let cfg = &self.layers[layer_id.0];
        let c = ChunkIdx::from_point(pos, cfg.chunk_size.x, cfg.chunk_size.y);
        self.get_chunk_from_idx(layer_id, kind, c)
    }

    /// Every generated payload of the layer whose index is covered by
    /// `bounds`: one payload per covered generated index, in the x-major
    /// order of the indices — empty if `kind` is not the layer's kind.
    #[verifier::rlimit(100)]
    pub fn get_chunks_in(&self, layer_id: LayerId, kind: ChunkKind, bounds: Bounds) -> (r: Vec<
        &'a P,
    >)
        requires
            layer_id.0 < self.layers@.len(),
            self.layers@[layer_id.0 as int].wf(),
        ensures
            kind != self.layers@[layer_id.0 as int].kind ==> r@.len() == 0,
            forall|t: int|
                0 <= t < r@.len() ==> payload_in_bounds(
                    self.layers@[layer_id.0 as int],
                    bounds,
                    *(#[trigger] r@[t]),
                ),
            kind == self.layers@[layer_id.0 as int].kind ==> forall|c: ChunkIdx|
                covered(bounds, self.layers@[layer_id.0 as int].chunk_size, c)
                    && #[trigger] self.layers@[layer_id.0 as int].has_idx(c)
                    && self.layers@[layer_id.0 as int].entry_at(c).chunk is Some
                    ==> exists|t: int|
                    0 <= t < r@.len() && self.layers@[layer_id.0 as int].entry_at(c).chunk
                        == Some(*(#[trigger] r@[t])),
            kind == self.layers@[layer_id.0 as int].kind ==> (exists|keys: Seq<ChunkIdx>|
                #![trigger keys.len()]
                {
                    &&& keys.len() == r@.len()
                    &&& (forall|t: int|
                        0 <= t < keys.len() ==> covered(
                            bounds,
                            self.layers@[layer_id.0 as int].chunk_size,
                            #[trigger] keys[t],
                        ) && self.layers@[layer_id.0 as int].has_idx(keys[t])
                            && self.layers@[layer_id.0 as int].entry_at(keys[t]).chunk == Some(
                            *r@[t],
                        ))
                    &&& (forall|t1: int, t2: int|
                        0 <= t1 < t2 < keys.len() ==> idx_lex_less(
                            #[trigger] keys[t1],
                            #[trigger] keys[t2],
                        ))
                    &&& (forall|c: ChunkIdx|
                        covered(bounds, self.layers@[layer_id.0 as int].chunk_size, c)
                            && #[trigger] self.layers@[layer_id.0 as int].has_idx(c)
                            && self.layers@[layer_id.0 as int].entry_at(c).chunk is Some
                            ==> keys.contains(c))
                }),
    {
        let cfg = &self.layers[layer_id.0];
        let mut r: Vec<&'a P> = Vec::new();
        if cfg.kind.0 != kind.0 {
            return r;
        }
        let cov: Vec<ChunkIdx> = bounds.chunks(cfg.chunk_size);
        let ghost mut keys: Seq<ChunkIdx> = Seq::<ChunkIdx>::empty();
        let n = cov.len();
        let mut t: usize = 0;
        while t < n
            invariant
                t <= n,
                n == cov@.len(),
                layer_id.0 < self.layers@.len(),
                cfg == &self.layers@[layer_id.0 as int],
                cfg.wf(),
                kind == cfg.kind,
                forall|c: ChunkIdx| cov@.contains(c) <==> covered(bounds, cfg.chunk_size, c),
                forall|t1: int, t2: int|
                    0 <= t1 < t2 < cov@.len() ==> idx_lex_less(
                        #[trigger] cov@[t1],
                        #[trigger] cov@[t2],
                    ),
                forall|u: int|
                    0 <= u < r@.len() ==> payload_in_bounds(
                        self.layers@[layer_id.0 as int],
                        bounds,
                        *(#[trigger] r@[u]),
                    ),
                forall|u: int|
                    0 <= u < t && cfg.has_idx(#[trigger] cov@[u]) && cfg.entry_at(
                        cov@[u],
                    ).chunk is Some ==> exists|v: int|
                        0 <= v < r@.len() && cfg.entry_at(cov@[u]).chunk == Some(
                            *(#[trigger] r@[v]),
                        ),
                keys.len() == r@.len(),
                forall|v: int|
                    0 <= v < keys.len() ==> covered(bounds, cfg.chunk_size, #[trigger] keys[v])
                        && cfg.has_idx(keys[v]) && cfg.entry_at(keys[v]).chunk == Some(
                        *r@[v],
                    ),
                forall|v: int|
                    0 <= v < keys.len() ==> exists|u: int|
                        0 <= u < t && #[trigger] keys[v] == cov@[u],
                forall|t1: int, t2: int|
                    0 <= t1 < t2 < keys.len() ==> idx_lex_less(
                        #[trigger] keys[t1],
                        #[trigger] keys[t2],
                    ),
                forall|u: int|
                    0 <= u < t && cfg.has_idx(#[trigger] cov@[u]) && cfg.entry_at(
                        cov@[u],
                    ).chunk is Some ==> keys.contains(cov@[u]),
            decreases n - t,
        {
            let c = cov[t];
            match self.get_chunk_from_idx(layer_id, kind, c) {
                Some(p) => {
                    let ghost prev = r@;
                    let ghost pkeys = keys;
                    r.push(p);
                    proof {
                        keys = keys.push(c);
                        assert(cov@[t as int] == c);
                        assert(cov@.contains(c));
                        assert(covered(bounds, cfg.chunk_size, c));
                        assert(cfg.has_idx(c));
                        assert(cfg.entry_at(c).chunk == Some(*r@[prev.len() as int]));
                        assert(self.layers@[layer_id.0 as int].has_idx(c));
                        assert(payload_in_bounds(
                            self.layers@[layer_id.0 as int],
                            bounds,
                            *r@[prev.len() as int],
                        ));
                        assert forall|u: int| 0 <= u < prev.len() implies payload_in_bounds(
                            self.layers@[layer_id.0 as int],
                            bounds,
                            *(#[trigger] r@[u]),
                        ) by {
                            assert(r@[u] == prev[u]);
                        }
                        assert forall|u: int|
                            0 <= u < t + 1 && cfg.has_idx(#[trigger] cov@[u]) && cfg.entry_at(
                                cov@[u],
                            ).chunk is Some implies exists|v: int|
                            0 <= v < r@.len() && cfg.entry_at(cov@[u]).chunk == Some(
                                *(#[trigger] r@[v]),
                            ) by {
                            if u < t {
                                let v = choose|v: int|
                                    0 <= v < prev.len() && cfg.entry_at(cov@[u]).chunk == Some(
                                        *(#[trigger] prev[v]),
                                    );
                                assert(r@[v] == prev[v]);
                            }
                        }
                        assert(keys[pkeys.len() as int] == c);
                        assert forall|v: int|
                            0 <= v < keys.len() implies exists|u: int|
                            0 <= u < t + 1 && #[trigger] keys[v] == cov@[u] by {
                            if v < pkeys.len() {
                                let u = choose|u: int|
                                    0 <= u < t && #[trigger] pkeys[v] == cov@[u];
                                assert(keys[v] == cov@[u]);
                            } else {
                                assert(keys[v] == cov@[t as int]);
                            }
                        }
                        assert forall|t1: int, t2: int|
                            0 <= t1 < t2 < keys.len() implies idx_lex_less(
                            #[trigger] keys[t1],
                            #[trigger] keys[t2],
                        ) by {
                            if t2 == pkeys.len() {
                                assert(keys[t1] == pkeys[t1]);
                                let u = choose|u: int|
                                    0 <= u < t && #[trigger] pkeys[t1] == cov@[u];
                                assert(idx_lex_less(cov@[u], cov@[t as int]));
                            }
                        }
                        assert forall|u: int|
                            0 <= u < t + 1 && cfg.has_idx(#[trigger] cov@[u]) && cfg.entry_at(
                                cov@[u],
                            ).chunk is Some implies keys.contains(cov@[u]) by {
                            if u < t {
                                assert(pkeys.contains(cov@[u]));
                                let v = choose|v: int|
                                    0 <= v < pkeys.len() && pkeys[v] == cov@[u];
                                assert(keys[v] == cov@[u]);
                            } else {
                                assert(keys[pkeys.len() as int] == cov@[u]);
                            }
                        }
                    }
                },
                None => {
                    proof {
                        assert forall|u: int|
                            0 <= u < t + 1 && cfg.has_idx(#[trigger] cov@[u]) && cfg.entry_at(
                                cov@[u],
                            ).chunk is Some implies exists|v: int|
                            0 <= v < r@.len() && cfg.entry_at(cov@[u]).chunk == Some(
                                *(#[trigger] r@[v]),
                            ) by {
                            if u == t {
                                assert(kind != cfg.kind || !cfg.has_idx(c) || cfg.entry_at(
                                    c,
                                ).chunk is None);
                            }
                        }
                        assert forall|u: int|
                            0 <= u < t + 1 && cfg.has_idx(#[trigger] cov@[u]) && cfg.entry_at(
                                cov@[u],
                            ).chunk is Some implies keys.contains(cov@[u]) by {
                            if u == t {
                                assert(kind != cfg.kind || !cfg.has_idx(c) || cfg.entry_at(
                                    c,
                                ).chunk is None);
                            }
                        }
                    }
                },
            }
            t = t + 1;
        }
        proof {
            assert forall|c: ChunkIdx|
                covered(bounds, self.layers@[layer_id.0 as int].chunk_size, c)
                    && #[trigger] self.layers@[layer_id.0 as int].has_idx(c)
                    && self.layers@[layer_id.0 as int].entry_at(c).chunk is Some implies exists|
                t2: int,
            |
                0 <= t2 < r@.len() && self.layers@[layer_id.0 as int].entry_at(c).chunk == Some(
                    *(#[trigger] r@[t2]),
                ) by {
                assert(cov@.contains(c));
                let u = choose|u: int| 0 <= u < cov@.len() && cov@[u] == c;
            }
            assert forall|c: ChunkIdx|
                covered(bounds, self.layers@[layer_id.0 as int].chunk_size, c)
                    && #[trigger] self.layers@[layer_id.0 as int].has_idx(c)
                    && self.layers@[layer_id.0 as int].entry_at(c).chunk is Some implies keys
                .contains(c) by {
                assert(cov@.contains(c));
                let u = choose|u: int| 0 <= u < cov@.len() && cov@[u] == c;
            }
            assert(keys.len() == r@.len());
        }
        r
    }
}


/// --- The per-tick demand model -------------------------------------------
///
/// The predicates below say, of a manager state, which chunk indices are
/// demanded this tick.  `regenerate` promises that after a tick each layer
/// caches exactly the demanded indices: direct demand comes from active
/// clients, cascaded demand from the tick-time cache footprint of dependent
/// layers (survivors plus the entries evicted in the same tick).

impl<P, G> LayersManager<P, G> {
    /// Requirement `j` of client `k`.
    pub open spec fn client_dep(self, k: int, j: int) -> Dependency {
        self.layer_client@[k].dependencies@[j]
    }

    /// The demand rectangle of client `k`'s requirement `j`: its anchor
    /// expanded by the requirement's padding.
    pub open spec fn client_bounds(self, k: int, j: int) -> Bounds {
        Bounds {
            min: Point {
                x: (self.layer_client@[k].center.x - self.client_dep(k, j).spec_padding().x)
                    as i64,
                y: (self.layer_client@[k].center.y - self.client_dep(k, j).spec_padding().y)
                    as i64,
            },
            max: Point {
                x: (self.layer_client@[k].center.x + self.client_dep(k, j).spec_padding().x)
                    as i64,
                y: (self.layer_client@[k].center.y + self.client_dep(k, j).spec_padding().y)
                    as i64,
            },
        }
    }

    /// Some active client requirement targets layer `i` and covers `c`.
    pub open spec fn direct_demand(self, i: int, c: ChunkIdx) -> bool {
        exists|k: int, j: int|
            0 <= k < self.layer_client@.len() && 0 <= j
                < self.layer_client@[k].dependencies@.len() && self.layer_client@[k].active
                && (#[trigger] self.client_dep(k, j)).spec_layer_id().0 == i && covered(
                self.client_bounds(k, j),
                self.layers@[i].chunk_size,
                c,
            )
    }

    /// Some active `Fast`-tier client requirement targets layer `i` and
    /// covers `c`.
    pub open spec fn direct_demand_fast(self, i: int, c: ChunkIdx) -> bool {
        exists|k: int, j: int|
            0 <= k < self.layer_client@.len() && 0 <= j
                < self.layer_client@[k].dependencies@.len() && self.layer_client@[k].active
                && self.layer_client@[k].strategy == UsageStrategy::Fast
                && (#[trigger] self.client_dep(k, j)).spec_layer_id().0 == i && covered(
                self.client_bounds(k, j),
                self.layers@[i].chunk_size,
                c,
            )
    }

    /// The tick-time cache footprint of layer `a`: what it holds now, plus
    /// what was evicted from it this tick.
    pub open spec fn footprint(self, a: int, idx: ChunkIdx) -> bool {
        self.layers@[a].has_idx(idx) || self.layers@[a].deleted@.contains(idx)
    }

    /// Layer `a`'s footprint, through one of its declared dependencies on
    /// layer `i`, covers `c`.
    pub open spec fn cascade_source(self, a: int, i: int, c: ChunkIdx) -> bool {
        exists|j: int, idx: ChunkIdx|
            0 <= j < self.layers@[a].depends_on@.len()
                && self.layers@[a].depends_on@[j].spec_layer_id().0 == i && self.footprint(
                a,
                idx,
            ) && #[trigger] covered(
                dep_bounds(
                    idx,
                    self.layers@[a].chunk_size,
                    self.layers@[a].depends_on@[j].spec_padding(),
                ),
                self.layers@[i].chunk_size,
                c,
            )
    }

    /// Some layer's footprint demands `c` in layer `i`.
    pub open spec fn cascade_demand(self, i: int, c: ChunkIdx) -> bool {
        exists|a: int| 0 <= a < self.layer_count() && #[trigger] self.cascade_source(a, i, c)
    }

    /// `c` is demanded in layer `i` this tick, directly or by cascade.
    pub open spec fn demanded(self, i: int, c: ChunkIdx) -> bool {
        self.direct_demand(i, c) || self.cascade_demand(i, c)
    }

    /// `c` is demanded in layer `i` at the `Fast` tier (cascade demand is
    /// always `Fast`): exactly the demand that generates a payload.
    pub open spec fn fast_demanded(self, i: int, c: ChunkIdx) -> bool {
        self.direct_demand_fast(i, c) || self.cascade_demand(i, c)
    }

    /// Direct demand reads only the clients and the layers' cell sizes, so
    /// it carries over between states that agree on those.
    proof fn lemma_direct_frame(m1: Self, m2: Self)
        requires
            m1.layer_client == m2.layer_client,
            m1.layers@.len() == m2.layers@.len(),
            forall|i: int|
                0 <= i < m1.layers@.len() ==> (#[trigger] m2.layers@[i]).same_shape(
                    m1.layers@[i],
                ),
        ensures
            forall|i: int, c: ChunkIdx|
                0 <= i < m1.layers@.len() ==> (#[trigger] m2.direct_demand(i, c)
                    <==> m1.direct_demand(i, c)),
            forall|i: int, c: ChunkIdx|
                0 <= i < m1.layers@.len() ==> (#[trigger] m2.direct_demand_fast(i, c)
                    <==> m1.direct_demand_fast(i, c)),
    {
        assert forall|i: int, c: ChunkIdx|
            0 <= i < m1.layers@.len() implies (#[trigger] m2.direct_demand(i, c)
            <==> m1.direct_demand(i, c)) by {
            if m1.direct_demand(i, c) {
                let (k, j) = choose|k: int, j: int|
                    0 <= k < m1.layer_client@.len() && 0 <= j
                        < m1.layer_client@[k].dependencies@.len() && m1.layer_client@[k].active
                        && (#[trigger] m1.client_dep(k, j)).spec_layer_id().0 == i && covered(
                        m1.client_bounds(k, j),
                        m1.layers@[i].chunk_size,
                        c,
                    );
                if 0 <= i < m1.layers@.len() {
                    assert(m2.client_dep(k, j) == m1.client_dep(k, j));
                    assert(m2.client_bounds(k, j) == m1.client_bounds(k, j));
                    assert(m2.layers@[i].chunk_size == m1.layers@[i].chunk_size);
                }
                assert(m2.direct_demand(i, c));
            }
            if m2.direct_demand(i, c) {
                let (k, j) = choose|k: int, j: int|
                    0 <= k < m2.layer_client@.len() && 0 <= j
                        < m2.layer_client@[k].dependencies@.len() && m2.layer_client@[k].active
                        && (#[trigger] m2.client_dep(k, j)).spec_layer_id().0 == i && covered(
                        m2.client_bounds(k, j),
                        m2.layers@[i].chunk_size,
                        c,
                    );
                if 0 <= i < m1.layers@.len() {
                    assert(m1.client_dep(k, j) == m2.client_dep(k, j));
                    assert(m1.client_bounds(k, j) == m2.client_bounds(k, j));
                    assert(m1.layers@[i].chunk_size == m2.layers@[i].chunk_size);
                }
                assert(m1.direct_demand(i, c));
            }
        }
        assert forall|i: int, c: ChunkIdx|
            0 <= i < m1.layers@.len() implies (#[trigger] m2.direct_demand_fast(i, c)
            <==> m1.direct_demand_fast(i, c)) by {
            if m1.direct_demand_fast(i, c) {
                let (k, j) = choose|k: int, j: int|
                    0 <= k < m1.layer_client@.len() && 0 <= j
                        < m1.layer_client@[k].dependencies@.len() && m1.layer_client@[k].active
                        && m1.layer_client@[k].strategy == UsageStrategy::Fast
                        && (#[trigger] m1.client_dep(k, j)).spec_layer_id().0 == i && covered(
                        m1.client_bounds(k, j),
                        m1.layers@[i].chunk_size,
                        c,
                    );
                if 0 <= i < m1.layers@.len() {
                    assert(m2.client_dep(k, j) == m1.client_dep(k, j));
                    assert(m2.client_bounds(k, j) == m1.client_bounds(k, j));
                    assert(m2.layers@[i].chunk_size == m1.layers@[i].chunk_size);
                }
                assert(m2.direct_demand_fast(i, c));
            }
            if m2.direct_demand_fast(i, c) {
                let (k, j) = choose|k: int, j: int|
                    0 <= k < m2.layer_client@.len() && 0 <= j
                        < m2.layer_client@[k].dependencies@.len() && m2.layer_client@[k].active
                        && m2.layer_client@[k].strategy == UsageStrategy::Fast
                        && (#[trigger] m2.client_dep(k, j)).spec_layer_id().0 == i && covered(
                        m2.client_bounds(k, j),
                        m2.layers@[i].chunk_size,
                        c,
                    );
                if 0 <= i < m1.layers@.len() {
                    assert(m1.client_dep(k, j) == m2.client_dep(k, j));
                    assert(m1.client_bounds(k, j) == m2.client_bounds(k, j));
                    assert(m1.layers@[i].chunk_size == m2.layers@[i].chunk_size);
                }
                assert(m1.direct_demand_fast(i, c));
            }
        }
    }

    /// Cascade demand reads only the layers' shapes and footprints, so it
    /// carries over between states that agree on those.
    proof fn lemma_cascade_frame(m1: Self, m2: Self)
        requires
            m1.layers@.len() == m2.layers@.len(),
            forall|i: int|
                0 <= i < m1.layers@.len() ==> (#[trigger] m2.layers@[i]).same_shape(
                    m1.layers@[i],
                ),
            forall|a: int, idx: ChunkIdx|
                0 <= a < m1.layers@.len() ==> (#[trigger] m2.footprint(a, idx)
                    <==> m1.footprint(a, idx)),
        ensures
            forall|i: int, c: ChunkIdx|
                0 <= i < m1.layers@.len() ==> (#[trigger] m2.cascade_demand(i, c)
                    <==> m1.cascade_demand(i, c)),
    {
        assert forall|i: int, c: ChunkIdx|
            0 <= i < m1.layers@.len() implies (#[trigger] m2.cascade_demand(i, c)
            <==> m1.cascade_demand(i, c)) by {
            if m1.cascade_demand(i, c) {
                let a = choose|a: int|
                    0 <= a < m1.layer_count() && #[trigger] m1.cascade_source(a, i, c);
                let (j, idx) = choose|j: int, idx: ChunkIdx|
                    0 <= j < m1.layers@[a].depends_on@.len()
                        && m1.layers@[a].depends_on@[j].spec_layer_id().0 == i && m1.footprint(
                        a,
                        idx,
                    ) && #[trigger] covered(
                        dep_bounds(
                            idx,
                            m1.layers@[a].chunk_size,
                            m1.layers@[a].depends_on@[j].spec_padding(),
                        ),
                        m1.layers@[i].chunk_size,
                        c,
                    );
                assert(m2.layers@[a].depends_on == m1.layers@[a].depends_on);
                assert(m2.footprint(a, idx));
                if 0 <= i < m1.layers@.len() {
                    assert(m2.layers@[i].chunk_size == m1.layers@[i].chunk_size);
                }
                assert(m2.cascade_source(a, i, c));
                assert(m2.cascade_demand(i, c));
            }
            if m2.cascade_demand(i, c) {
                let a = choose|a: int|
                    0 <= a < m2.layer_count() && #[trigger] m2.cascade_source(a, i, c);
                let (j, idx) = choose|j: int, idx: ChunkIdx|
                    0 <= j < m2.layers@[a].depends_on@.len()
                        && m2.layers@[a].depends_on@[j].spec_layer_id().0 == i && m2.footprint(
                        a,
                        idx,
                    ) && #[trigger] covered(
                        dep_bounds(
                            idx,
                            m2.layers@[a].chunk_size,
                            m2.layers@[a].depends_on@[j].spec_padding(),
                        ),
                        m2.layers@[i].chunk_size,
                        c,
                    );
                assert(m1.layers@[a].depends_on == m2.layers@[a].depends_on);
                assert(m1.footprint(a, idx));
                if 0 <= i < m1.layers@.len() {
                    assert(m1.layers@[i].chunk_size == m2.layers@[i].chunk_size);
                }
                assert(m1.cascade_source(a, i, c));
                assert(m1.cascade_demand(i, c));
            }
        }
    }

    /// Two managers with pairwise same-shaped, well-formed layers and the
    /// same graph and clients are both well-formed.
    proof fn lemma_wf_frame(m1: Self, m2: Self)
        requires
            m1.wf(),
            m1.dag == m2.dag,
            m1.layer_client == m2.layer_client,
            m1.layers@.len() == m2.layers@.len(),
            forall|i: int|
                0 <= i < m1.layers@.len() ==> (#[trigger] m2.layers@[i]).same_shape(
                    m1.layers@[i],
                ) && m2.layers@[i].storage_nodup(),
        ensures
            m2.wf(),
    {
        assert forall|i: int|
            0 <= i < m2.layers@.len() implies (#[trigger] m2.layers@[i]).wf()
            && m2.layers@[i].layer_id == LayerId(i as usize) && layer_shape_ok(m2.layers@[i])
            && layer_deps_known(m2.layers@[i], m2.layers@.len() as int) by {
            assert(m1.layers@[i].wf());
            assert(layer_shape_ok(m1.layers@[i]));
            assert(m2.layers@[i].depends_on == m1.layers@[i].depends_on);
            assert(m2.layers@[i].chunk_size == m1.layers@[i].chunk_size);
        }
        assert(declared_edges(m2.layers@) =~= declared_edges(m1.layers@)) by {
            assert forall|e: (int, int)|
                is_declared_edge(m2.layers@, e) <==> is_declared_edge(m1.layers@, e) by {
                if is_declared_edge(m1.layers@, e) {
                    let (a, b) = choose|a: int, b: int|
                        0 <= a < m1.layers@.len() && 0 <= b < m1.layers@[a].depends_on@.len()
                            && e == #[trigger] edge_decl(m1.layers@, a, b);
                    assert(m2.layers@[a].depends_on == m1.layers@[a].depends_on);
                    assert(e == edge_decl(m2.layers@, a, b));
                }
                if is_declared_edge(m2.layers@, e) {
                    let (a, b) = choose|a: int, b: int|
                        0 <= a < m2.layers@.len() && 0 <= b < m2.layers@[a].depends_on@.len()
                            && e == #[trigger] edge_decl(m2.layers@, a, b);
                    assert(m1.layers@[a].depends_on == m2.layers@[a].depends_on);
                    assert(e == edge_decl(m1.layers@, a, b));
                }
            }
        }
    }

    /// Zero every entry's usage counter in every layer.
    fn clear_usage(&mut self)
        requires
            old(self).wf(),
        ensures
            final(self).wf(),
            final(self).dag == old(self).dag,
            final(self).layer_client == old(self).layer_client,
            final(self).layers@.len() == old(self).layers@.len(),
            forall|i: int|
                0 <= i < old(self).layers@.len() ==> (#[trigger] final(self).layers@[i])
                    .same_shape(old(self).layers@[i]) && final(self).layers@[i].deleted == old(self).layers@[i].deleted,
            forall|i: int, c: ChunkIdx|
                0 <= i < old(self).layers@.len() ==> (#[trigger] final(self).layers@[i].has_idx(
                    c,
                ) <==> old(self).layers@[i].has_idx(c)),
            forall|i: int, c: ChunkIdx|
                0 <= i < old(self).layers@.len() && old(self).layers@[i].has_idx(c)
                    ==> (#[trigger] final(self).layers@[i].entry_at(c)).chunk == old(self).layers@[i].entry_at(c).chunk && final(self).layers@[i].entry_at(
                    c,
                ).usage_counter == UsageCounter::empty(),
    {
        let n = self.layers.len();
        let mut i: usize = 0;
        while i < n
            invariant
                i <= n,
                n == self.layers@.len(),
                n == old(self).layers@.len(),
                self.dag == old(self).dag,
                self.layer_client == old(self).layer_client,
                forall|t: int|
                    0 <= t < n ==> (#[trigger] self.layers@[t]).same_shape(old(self).layers@[t])
                        && self.layers@[t].deleted == old(self).layers@[t].deleted
                        && self.layers@[t].wf(),
                forall|t: int| i <= t < n ==> #[trigger] self.layers@[t] == old(self).layers@[t],
                forall|t: int, c: ChunkIdx|
                    0 <= t < i ==> (#[trigger] self.layers@[t].has_idx(c) <==> old(self).layers@[t].has_idx(c)),
                forall|t: int, c: ChunkIdx|
                    0 <= t < i && old(self).layers@[t].has_idx(c) ==> (#[trigger] self.layers@[t]
                        .entry_at(c)).chunk == old(self).layers@[t].entry_at(c).chunk
                        && self.layers@[t].entry_at(c).usage_counter == UsageCounter::empty(),
                old(self).wf(),
            decreases n - i,
        {
            let cfg = &mut self.layers[i];
            cfg.clear_usage();
            i = i + 1;
        }
        proof {
            Self::lemma_wf_frame(*old(self), *self);
        }
    }

    /// Forget every layer's previous eviction report.
    fn clear_deleted(&mut self)
        requires
            old(self).wf(),
        ensures
            final(self).wf(),
            final(self).dag == old(self).dag,
            final(self).layer_client == old(self).layer_client,
            final(self).layers@.len() == old(self).layers@.len(),
            forall|i: int|
                0 <= i < old(self).layers@.len() ==> (#[trigger] final(self).layers@[i])
                    .same_shape(old(self).layers@[i]) && final(self).layers@[i].storage == old(self).layers@[i].storage && final(self).layers@[i].deleted@.len() == 0,
    {
        let n = self.layers.len();
        let mut i: usize = 0;
        while i < n
            invariant
                i <= n,
                n == self.layers@.len(),
                n == old(self).layers@.len(),
                self.dag == old(self).dag,
                self.layer_client == old(self).layer_client,
                forall|t: int|
                    0 <= t < n ==> (#[trigger] self.layers@[t]).same_shape(old(self).layers@[t])
                        && self.layers@[t].storage == old(self).layers@[t].storage,
                forall|t: int| i <= t < n ==> #[trigger] self.layers@[t] == old(self).layers@[t],
                forall|t: int| 0 <= t < i ==> (#[trigger] self.layers@[t]).deleted@.len() == 0,
                old(self).wf(),
            decreases n - i,
        {
            let cfg = &mut self.layers[i];
            cfg.clear_deleted();
            i = i + 1;
        }
        proof {
            assert forall|t: int|
                0 <= t < n implies (#[trigger] self.layers@[t]).storage_nodup() by {
                assert(old(self).layers@[t].storage_nodup());
            }
            Self::lemma_wf_frame(*old(self), *self);
        }
    }
}


impl<P, G> LayersManager<P, G> {
    /// Direct demand restricted to clients before `kk`, plus client `kk`'s
    /// requirements before `jj` (a prefix of the demand-registration pass).
    spec fn direct_upto(self, kk: int, jj: int, i: int, c: ChunkIdx) -> bool {
        exists|k: int, j: int|
            0 <= k < self.layer_client@.len() && 0 <= j
                < self.layer_client@[k].dependencies@.len() && (k < kk || (k == kk && j < jj))
                && self.layer_client@[k].active
                && (#[trigger] self.client_dep(k, j)).spec_layer_id().0 == i && covered(
                self.client_bounds(k, j),
                self.layers@[i].chunk_size,
                c,
            )
    }

    /// As `direct_upto`, restricted to `Fast`-tier clients.
    spec fn direct_fast_upto(self, kk: int, jj: int, i: int, c: ChunkIdx) -> bool {
        exists|k: int, j: int|
            0 <= k < self.layer_client@.len() && 0 <= j
                < self.layer_client@[k].dependencies@.len() && (k < kk || (k == kk && j < jj))
                && self.layer_client@[k].active && self.layer_client@[k].strategy
                == UsageStrategy::Fast
                && (#[trigger] self.client_dep(k, j)).spec_layer_id().0 == i && covered(
                self.client_bounds(k, j),
                self.layers@[i].chunk_size,
                c,
            )
    }

    /// Register every active client's demand: for each requirement, touch
    /// the covered entries of the target layer at the client's tier.
    fn check_client_usages(&mut self)
        requires
            old(self).wf(),
            forall|i: int, c: ChunkIdx|
                0 <= i < old(self).layers@.len() && old(self).layers@[i].has_idx(c)
                    ==> (#[trigger] old(self).layers@[i].entry_at(c)).usage_counter
                    == UsageCounter::empty(),
        ensures
            final(self).wf(),
            final(self).dag == old(self).dag,
            final(self).layer_client == old(self).layer_client,
            final(self).layers@.len() == old(self).layers@.len(),
            forall|i: int|
                0 <= i < old(self).layers@.len() ==> (#[trigger] final(self).layers@[i])
                    .same_shape(old(self).layers@[i]) && final(self).layers@[i].deleted == old(self).layers@[i].deleted,
            forall|i: int, c: ChunkIdx|
                0 <= i < old(self).layers@.len() ==> (#[trigger] final(self).layers@[i].has_idx(
                    c,
                ) <==> old(self).layers@[i].has_idx(c) || final(self).direct_demand(i, c)),
            forall|i: int, c: ChunkIdx|
                0 <= i < old(self).layers@.len() && final(self).layers@[i].has_idx(c)
                    ==> (#[trigger] final(self).layers@[i].entry_at(c)).chunk == (if old(self).layers@[i].has_idx(c) {
                    old(self).layers@[i].entry_at(c).chunk
                } else {
                    None::<P>
                }),
            forall|i: int, c: ChunkIdx|
                0 <= i < old(self).layers@.len() && final(self).layers@[i].has_idx(c)
                    ==> ((#[trigger] final(self).layers@[i].entry_at(c)).usage_counter
                    .spec_is_empty() <==> !final(self).direct_demand(i, c)),
            forall|i: int, c: ChunkIdx|
                0 <= i < old(self).layers@.len() && final(self).layers@[i].has_idx(c)
                    ==> ((#[trigger] final(self).layers@[i].entry_at(c)).usage_counter
                    .spec_fast() > 0 <==> final(self).direct_demand_fast(i, c)),
    {
        let ghost s0 = *old(self);
        let ghost n = old(self).layers@.len() as int;
        let nc = self.layer_client.len();
        let mut k: usize = 0;
        while k < nc
            invariant
                k <= nc,
                nc == self.layer_client@.len(),
                self.layers@.len() == s0.layers@.len(),
                self.dag == s0.dag,
                self.layer_client == s0.layer_client,
                s0.wf(),
                s0 == *old(self),
                n == s0.layers@.len() as int,
                forall|i: int, c: ChunkIdx|
                    0 <= i < n && s0.layers@[i].has_idx(c) ==> (#[trigger] s0.layers@[i]
                        .entry_at(c)).usage_counter == UsageCounter::empty(),
                forall|i: int|
                    0 <= i < n ==> (#[trigger] self.layers@[i]).same_shape(s0.layers@[i])
                        && self.layers@[i].deleted == s0.layers@[i].deleted
                        && self.layers@[i].wf(),
                forall|i: int, c: ChunkIdx|
                    0 <= i < n ==> (#[trigger] self.layers@[i].has_idx(c) <==> s0.layers@[i]
                        .has_idx(c) || s0.direct_upto(k as int, 0, i, c)),
                forall|i: int, c: ChunkIdx|
                    0 <= i < n && self.layers@[i].has_idx(c) ==> (#[trigger] self.layers@[i]
                        .entry_at(c)).chunk == (if s0.layers@[i].has_idx(c) {
                        s0.layers@[i].entry_at(c).chunk
                    } else {
                        None::<P>
                    }),
                forall|i: int, c: ChunkIdx|
                    0 <= i < n && self.layers@[i].has_idx(c) ==> ((#[trigger] self.layers@[i]
                        .entry_at(c)).usage_counter.spec_is_empty() <==> !s0.direct_upto(
                        k as int,
                        0,
                        i,
                        c,
                    )),
                forall|i: int, c: ChunkIdx|
                    0 <= i < n && self.layers@[i].has_idx(c) ==> ((#[trigger] self.layers@[i]
                        .entry_at(c)).usage_counter.spec_fast() > 0 <==> s0.direct_fast_upto(
                        k as int,
                        0,
                        i,
                        c,
                    )),
            decreases nc - k,
        {
            let active = self.layer_client[k].is_active();
            if active {
                let nd = self.layer_client[k].dependencies.len();
                let mut j: usize = 0;
                while j < nd
                    invariant
                        k < nc,
                        j <= nd,
                        nc == self.layer_client@.len(),
                        nd == self.layer_client@[k as int].dependencies@.len(),
                        self.layer_client@[k as int].active,
                        self.layers@.len() == s0.layers@.len(),
                        self.dag == s0.dag,
                        self.layer_client == s0.layer_client,
                        s0.wf(),
                        s0 == *old(self),
                        n == s0.layers@.len() as int,
                        forall|i: int, c: ChunkIdx|
                            0 <= i < n && s0.layers@[i].has_idx(c) ==> (#[trigger] s0.layers@[i]
                                .entry_at(c)).usage_counter == UsageCounter::empty(),
                        forall|i: int|
                            0 <= i < n ==> (#[trigger] self.layers@[i]).same_shape(
                                s0.layers@[i],
                            ) && self.layers@[i].deleted == s0.layers@[i].deleted
                                && self.layers@[i].wf(),
                        forall|i: int, c: ChunkIdx|
                            0 <= i < n ==> (#[trigger] self.layers@[i].has_idx(c)
                                <==> s0.layers@[i].has_idx(c) || s0.direct_upto(
                                k as int,
                                j as int,
                                i,
                                c,
                            )),
                        forall|i: int, c: ChunkIdx|
                            0 <= i < n && self.layers@[i].has_idx(c)
                                ==> (#[trigger] self.layers@[i].entry_at(c)).chunk == (if s0
                                .layers@[i].has_idx(c) {
                                s0.layers@[i].entry_at(c).chunk
                            } else {
                                None::<P>
                            }),
                        forall|i: int, c: ChunkIdx|
                            0 <= i < n && self.layers@[i].has_idx(c)
                                ==> ((#[trigger] self.layers@[i].entry_at(c)).usage_counter
                                .spec_is_empty() <==> !s0.direct_upto(k as int, j as int, i, c)),
                        forall|i: int, c: ChunkIdx|
                            0 <= i < n && self.layers@[i].has_idx(c)
                                ==> ((#[trigger] self.layers@[i].entry_at(c)).usage_counter
                                .spec_fast() > 0 <==> s0.direct_fast_upto(
                                k as int,
                                j as int,
                                i,
                                c,
                            )),
                    decreases nd - j,
                {
                    let dep: Dependency = self.layer_client[k].dependencies[j];
                    let tier: UsageStrategy = self.layer_client[k].strategy;
                    let center: Point = self.layer_client[k].center;
                    let target: usize = dep.get_layer_id().0;
                    proof {
                        assert(client_ok(s0.layer_client@[k as int], n));
                        assert(padding_ok(s0.layer_client@[k as int].dependencies@[j as int]));
                        assert(target < n);
                    }
                    let b: Bounds = Bounds::from_point(center).add_padding(dep.get_padding());
                    proof {
                        assert(b == s0.client_bounds(k as int, j as int));
                    }
                    let ghost pre = *self;
                    let cfg = &mut self.layers[target];
                    cfg.ensure_generated(&b, tier);
                    proof {
                        let kk = k as int;
                        let jj = j as int;
                        let tgt = target as int;
                        let cell = s0.layers@[tgt].chunk_size;
                        assert(self.layers@ =~= pre.layers@.update(tgt, self.layers@[tgt]));
                        assert(pre.layers@[tgt].chunk_size == cell);
                        // how the demand prefix grows by one requirement
                        assert forall|i: int, c: ChunkIdx|
                            s0.direct_upto(kk, jj + 1, i, c) <==> (s0.direct_upto(kk, jj, i, c)
                                || (i == tgt && covered(
                                s0.client_bounds(kk, jj),
                                cell,
                                c,
                            ))) by {
                            if s0.direct_upto(kk, jj + 1, i, c) {
                                let (k2, j2) = choose|k2: int, j2: int|
                                    0 <= k2 < s0.layer_client@.len() && 0 <= j2
                                        < s0.layer_client@[k2].dependencies@.len() && (k2 < kk
                                        || (k2 == kk && j2 < jj + 1))
                                        && s0.layer_client@[k2].active
                                        && (#[trigger] s0.client_dep(k2, j2)).spec_layer_id().0
                                        == i && covered(
                                        s0.client_bounds(k2, j2),
                                        s0.layers@[i].chunk_size,
                                        c,
                                    );
                                if k2 == kk && j2 == jj {
                                    assert(i == tgt);
                                } else {
                                    assert(s0.direct_upto(kk, jj, i, c));
                                }
                            }
                            if s0.direct_upto(kk, jj, i, c) {
                                let (k2, j2) = choose|k2: int, j2: int|
                                    0 <= k2 < s0.layer_client@.len() && 0 <= j2
                                        < s0.layer_client@[k2].dependencies@.len() && (k2 < kk
                                        || (k2 == kk && j2 < jj))
                                        && s0.layer_client@[k2].active
                                        && (#[trigger] s0.client_dep(k2, j2)).spec_layer_id().0
                                        == i && covered(
                                        s0.client_bounds(k2, j2),
                                        s0.layers@[i].chunk_size,
                                        c,
                                    );
                                assert(s0.direct_upto(kk, jj + 1, i, c));
                            }
                            if i == tgt && covered(s0.client_bounds(kk, jj), cell, c) {
                                assert(s0.client_dep(kk, jj).spec_layer_id().0 == i);
                                assert(s0.direct_upto(kk, jj + 1, i, c));
                            }
                        }
                        assert forall|i: int, c: ChunkIdx|
                            s0.direct_fast_upto(kk, jj + 1, i, c) <==> (s0.direct_fast_upto(
                                kk,
                                jj,
                                i,
                                c,
                            ) || (i == tgt && s0.layer_client@[kk].strategy
                                == UsageStrategy::Fast && covered(
                                s0.client_bounds(kk, jj),
                                cell,
                                c,
                            ))) by {
                            if s0.direct_fast_upto(kk, jj + 1, i, c) {
                                let (k2, j2) = choose|k2: int, j2: int|
                                    0 <= k2 < s0.layer_client@.len() && 0 <= j2
                                        < s0.layer_client@[k2].dependencies@.len() && (k2 < kk
                                        || (k2 == kk && j2 < jj + 1))
                                        && s0.layer_client@[k2].active
                                        && s0.layer_client@[k2].strategy == UsageStrategy::Fast
                                        && (#[trigger] s0.client_dep(k2, j2)).spec_layer_id().0
                                        == i && covered(
                                        s0.client_bounds(k2, j2),
                                        s0.layers@[i].chunk_size,
                                        c,
                                    );
                                if k2 == kk && j2 == jj {
                                    assert(i == tgt);
                                } else {
                                    assert(s0.direct_fast_upto(kk, jj, i, c));
                                }
                            }
                            if s0.direct_fast_upto(kk, jj, i, c) {
                                let (k2, j2) = choose|k2: int, j2: int|
                                    0 <= k2 < s0.layer_client@.len() && 0 <= j2
                                        < s0.layer_client@[k2].dependencies@.len() && (k2 < kk
                                        || (k2 == kk && j2 < jj))
                                        && s0.layer_client@[k2].active
                                        && s0.layer_client@[k2].strategy == UsageStrategy::Fast
                                        && (#[trigger] s0.client_dep(k2, j2)).spec_layer_id().0
                                        == i && covered(
                                        s0.client_bounds(k2, j2),
                                        s0.layers@[i].chunk_size,
                                        c,
                                    );
                                assert(s0.direct_fast_upto(kk, jj + 1, i, c));
                            }
                            if i == tgt && s0.layer_client@[kk].strategy == UsageStrategy::Fast
                                && covered(s0.client_bounds(kk, jj), cell, c) {
                                assert(s0.client_dep(kk, jj).spec_layer_id().0 == i);
                                assert(s0.direct_fast_upto(kk, jj + 1, i, c));
                            }
                        }
                        // per-layer transition facts
                        assert forall|i: int, c: ChunkIdx|
                            0 <= i < n implies (#[trigger] self.layers@[i].has_idx(c)
                            <==> s0.layers@[i].has_idx(c) || s0.direct_upto(
                            kk,
                            jj + 1,
                            i,
                            c,
                        )) by {
                            if i != tgt {
                                assert(self.layers@[i] == pre.layers@[i]);
                            }
                        }
                        assert forall|i: int, c: ChunkIdx|
                            0 <= i < n && self.layers@[i].has_idx(c) implies (
                        #[trigger] self.layers@[i].entry_at(c)).chunk == (if s0.layers@[i]
                            .has_idx(c) {
                            s0.layers@[i].entry_at(c).chunk
                        } else {
                            None::<P>
                        }) by {
                            if i != tgt {
                                assert(self.layers@[i] == pre.layers@[i]);
                            } else {
                                if covered(b, cell, c) {
                                    assert(self.layers@[tgt].entry_at(c).chunk == (if pre
                                        .layers@[tgt].has_idx(c) {
                                        pre.layers@[tgt].entry_at(c).chunk
                                    } else {
                                        None::<P>
                                    }));
                                } else {
                                    if pre.layers@[tgt].has_idx(c) {
                                        assert(self.layers@[tgt].entry_at(c) == pre.layers@[
                                            tgt].entry_at(c));
                                    }
                                }
                            }
                        }
                        assert forall|i: int, c: ChunkIdx|
                            0 <= i < n && self.layers@[i].has_idx(c) implies ((
                        #[trigger] self.layers@[i].entry_at(c)).usage_counter.spec_is_empty()
                            <==> !s0.direct_upto(kk, jj + 1, i, c)) by {
                            if i != tgt {
                                assert(self.layers@[i] == pre.layers@[i]);
                            } else {
                                if covered(b, cell, c) {
                                    assert(!self.layers@[tgt].entry_at(
                                        c,
                                    ).usage_counter.spec_is_empty());
                                } else {
                                    if pre.layers@[tgt].has_idx(c) {
                                        assert(self.layers@[tgt].entry_at(c) == pre.layers@[
                                            tgt].entry_at(c));
                                    }
                                }
                            }
                        }
                        assert forall|i: int, c: ChunkIdx|
                            0 <= i < n && self.layers@[i].has_idx(c) implies ((
                        #[trigger] self.layers@[i].entry_at(c)).usage_counter.spec_fast() > 0
                            <==> s0.direct_fast_upto(kk, jj + 1, i, c)) by {
                            if i != tgt {
                                assert(self.layers@[i] == pre.layers@[i]);
                            } else {
                                if covered(b, cell, c) {
                                    let base = if pre.layers@[tgt].has_idx(c) {
                                        pre.layers@[tgt].entry_at(c).usage_counter
                                    } else {
                                        UsageCounter::empty()
                                    };
                                    assert(self.layers@[tgt].entry_at(c).usage_counter == base
                                        .bumped(tier));
                                    if tier == UsageStrategy::Fast {
                                        assert(self.layers@[tgt].entry_at(
                                            c,
                                        ).usage_counter.spec_fast() > 0);
                                        assert(s0.layer_client@[kk].strategy
                                            == UsageStrategy::Fast);
                                    } else {
                                        assert(base.bumped(tier).spec_fast() == base
                                            .spec_fast());
                                        if !pre.layers@[tgt].has_idx(c) {
                                            assert(!s0.direct_upto(kk, jj, tgt, c));
                                            assert(!s0.direct_fast_upto(kk, jj, tgt, c)) by {
                                                if s0.direct_fast_upto(kk, jj, tgt, c) {
                                                    let (k2, j2) = choose|k2: int, j2: int|
                                                        0 <= k2 < s0.layer_client@.len() && 0
                                                            <= j2 < s0.layer_client@[
                                                        k2].dependencies@.len() && (k2 < kk || (
                                                        k2 == kk && j2 < jj))
                                                            && s0.layer_client@[k2].active
                                                            && s0.layer_client@[k2].strategy
                                                            == UsageStrategy::Fast
                                                            && (#[trigger] s0.client_dep(
                                                            k2,
                                                            j2,
                                                        )).spec_layer_id().0 == tgt && covered(
                                                            s0.client_bounds(k2, j2),
                                                            s0.layers@[tgt].chunk_size,
                                                            c,
                                                        );
                                                    assert(s0.direct_upto(kk, jj, tgt, c));
                                                }
                                            }
                                        }
                                    }
                                } else {
                                    if pre.layers@[tgt].has_idx(c) {
                                        assert(self.layers@[tgt].entry_at(c) == pre.layers@[
                                            tgt].entry_at(c));
                                    }
                                }
                            }
                        }
                    }
                    j = j + 1;
                }
                proof {
                    assert forall|i: int, c: ChunkIdx|
                        s0.direct_upto(k as int + 1, 0, i, c) <==> s0.direct_upto(
                            k as int,
                            nd as int,
                            i,
                            c,
                        ) by {
                        if s0.direct_upto(k as int + 1, 0, i, c) {
                            let (k2, j2) = choose|k2: int, j2: int|
                                0 <= k2 < s0.layer_client@.len() && 0 <= j2
                                    < s0.layer_client@[k2].dependencies@.len() && (k2 < k + 1
                                    || (k2 == k + 1 && j2 < 0)) && s0.layer_client@[k2].active
                                    && (#[trigger] s0.client_dep(k2, j2)).spec_layer_id().0
                                    == i && covered(
                                    s0.client_bounds(k2, j2),
                                    s0.layers@[i].chunk_size,
                                    c,
                                );
                            assert(s0.direct_upto(k as int, nd as int, i, c));
                        }
                        if s0.direct_upto(k as int, nd as int, i, c) {
                            let (k2, j2) = choose|k2: int, j2: int|
                                0 <= k2 < s0.layer_client@.len() && 0 <= j2
                                    < s0.layer_client@[k2].dependencies@.len() && (k2 < k || (
                                k2 == k && j2 < nd)) && s0.layer_client@[k2].active
                                    && (#[trigger] s0.client_dep(k2, j2)).spec_layer_id().0
                                    == i && covered(
                                    s0.client_bounds(k2, j2),
                                    s0.layers@[i].chunk_size,
                                    c,
                                );
                            assert(s0.direct_upto(k as int + 1, 0, i, c));
                        }
                    }
                    assert forall|i: int, c: ChunkIdx|
                        s0.direct_fast_upto(k as int + 1, 0, i, c) <==> s0.direct_fast_upto(
                            k as int,
                            nd as int,
                            i,
                            c,
                        ) by {
                        if s0.direct_fast_upto(k as int + 1, 0, i, c) {
                            let (k2, j2) = choose|k2: int, j2: int|
                                0 <= k2 < s0.layer_client@.len() && 0 <= j2
                                    < s0.layer_client@[k2].dependencies@.len() && (k2 < k + 1
                                    || (k2 == k + 1 && j2 < 0)) && s0.layer_client@[k2].active
                                    && s0.layer_client@[k2].strategy == UsageStrategy::Fast
                                    && (#[trigger] s0.client_dep(k2, j2)).spec_layer_id().0
                                    == i && covered(
                                    s0.client_bounds(k2, j2),
                                    s0.layers@[i].chunk_size,
                                    c,
                                );
                            assert(s0.direct_fast_upto(k as int, nd as int, i, c));
                        }
                        if s0.direct_fast_upto(k as int, nd as int, i, c) {
                            let (k2, j2) = choose|k2: int, j2: int|
                                0 <= k2 < s0.layer_client@.len() && 0 <= j2
                                    < s0.layer_client@[k2].dependencies@.len() && (k2 < k || (
                                k2 == k && j2 < nd)) && s0.layer_client@[k2].active
                                    && s0.layer_client@[k2].strategy == UsageStrategy::Fast
                                    && (#[trigger] s0.client_dep(k2, j2)).spec_layer_id().0
                                    == i && covered(
                                    s0.client_bounds(k2, j2),
                                    s0.layers@[i].chunk_size,
                                    c,
                                );
                            assert(s0.direct_fast_upto(k as int + 1, 0, i, c));
                        }
                    }
                }
            } else {
                proof {
                    assert forall|i: int, c: ChunkIdx|
                        s0.direct_upto(k as int + 1, 0, i, c) <==> s0.direct_upto(
                            k as int,
                            0,
                            i,
                            c,
                        ) by {
                        if s0.direct_upto(k as int + 1, 0, i, c) {
                            let (k2, j2) = choose|k2: int, j2: int|
                                0 <= k2 < s0.layer_client@.len() && 0 <= j2
                                    < s0.layer_client@[k2].dependencies@.len() && (k2 < k + 1
                                    || (k2 == k + 1 && j2 < 0)) && s0.layer_client@[k2].active
                                    && (#[trigger] s0.client_dep(k2, j2)).spec_layer_id().0
                                    == i && covered(
                                    s0.client_bounds(k2, j2),
                                    s0.layers@[i].chunk_size,
                                    c,
                                );
                            assert(k2 != k);
                            assert(s0.direct_upto(k as int, 0, i, c));
                        }
                        if s0.direct_upto(k as int, 0, i, c) {
                            let (k2, j2) = choose|k2: int, j2: int|
                                0 <= k2 < s0.layer_client@.len() && 0 <= j2
                                    < s0.layer_client@[k2].dependencies@.len() && k2 < k
                                    && s0.layer_client@[k2].active
                                    && (#[trigger] s0.client_dep(k2, j2)).spec_layer_id().0
                                    == i && covered(
                                    s0.client_bounds(k2, j2),
                                    s0.layers@[i].chunk_size,
                                    c,
                                );
                            assert(s0.direct_upto(k as int + 1, 0, i, c));
                        }
                    }
                    assert forall|i: int, c: ChunkIdx|
                        s0.direct_fast_upto(k as int + 1, 0, i, c) <==> s0.direct_fast_upto(
                            k as int,
                            0,
                            i,
                            c,
                        ) by {
                        if s0.direct_fast_upto(k as int + 1, 0, i, c) {
                            let (k2, j2) = choose|k2: int, j2: int|
                                0 <= k2 < s0.layer_client@.len() && 0 <= j2
                                    < s0.layer_client@[k2].dependencies@.len() && (k2 < k + 1
                                    || (k2 == k + 1 && j2 < 0)) && s0.layer_client@[k2].active
                                    && s0.layer_client@[k2].strategy == UsageStrategy::Fast
                                    && (#[trigger] s0.client_dep(k2, j2)).spec_layer_id().0
                                    == i && covered(
                                    s0.client_bounds(k2, j2),
                                    s0.layers@[i].chunk_size,
                                    c,
                                );
                            assert(k2 != k);
                            assert(s0.direct_fast_upto(k as int, 0, i, c));
                        }
                        if s0.direct_fast_upto(k as int, 0, i, c) {
                            let (k2, j2) = choose|k2: int, j2: int|
                                0 <= k2 < s0.layer_client@.len() && 0 <= j2
                                    < s0.layer_client@[k2].dependencies@.len() && k2 < k
                                    && s0.layer_client@[k2].active
                                    && s0.layer_client@[k2].strategy == UsageStrategy::Fast
                                    && (#[trigger] s0.client_dep(k2, j2)).spec_layer_id().0
                                    == i && covered(
                                    s0.client_bounds(k2, j2),
                                    s0.layers@[i].chunk_size,
                                    c,
                                );
                            assert(s0.direct_fast_upto(k as int + 1, 0, i, c));
                        }
                    }
                }
            }
            k = k + 1;
        }
        proof {
            assert forall|i: int, c: ChunkIdx|
                s0.direct_upto(nc as int, 0, i, c) <==> s0.direct_demand(i, c) by {
                if s0.direct_upto(nc as int, 0, i, c) {
                    let (k2, j2) = choose|k2: int, j2: int|
                        0 <= k2 < s0.layer_client@.len() && 0 <= j2 < s0.layer_client@[
                        k2].dependencies@.len() && (k2 < nc || (k2 == nc && j2 < 0))
                            && s0.layer_client@[k2].active
                            && (#[trigger] s0.client_dep(k2, j2)).spec_layer_id().0 == i
                            && covered(s0.client_bounds(k2, j2), s0.layers@[i].chunk_size, c);
                    assert(s0.direct_demand(i, c));
                }
                if s0.direct_demand(i, c) {
                    let (k2, j2) = choose|k2: int, j2: int|
                        0 <= k2 < s0.layer_client@.len() && 0 <= j2 < s0.layer_client@[
                        k2].dependencies@.len() && s0.layer_client@[k2].active
                            && (#[trigger] s0.client_dep(k2, j2)).spec_layer_id().0 == i
                            && covered(s0.client_bounds(k2, j2), s0.layers@[i].chunk_size, c);
                    assert(s0.direct_upto(nc as int, 0, i, c));
                }
            }
            assert forall|i: int, c: ChunkIdx|
                s0.direct_fast_upto(nc as int, 0, i, c) <==> s0.direct_demand_fast(i, c) by {
                if s0.direct_fast_upto(nc as int, 0, i, c) {
                    let (k2, j2) = choose|k2: int, j2: int|
                        0 <= k2 < s0.layer_client@.len() && 0 <= j2 < s0.layer_client@[
                        k2].dependencies@.len() && (k2 < nc || (k2 == nc && j2 < 0))
                            && s0.layer_client@[k2].active && s0.layer_client@[k2].strategy
                            == UsageStrategy::Fast
                            && (#[trigger] s0.client_dep(k2, j2)).spec_layer_id().0 == i
                            && covered(s0.client_bounds(k2, j2), s0.layers@[i].chunk_size, c);
                    assert(s0.direct_demand_fast(i, c));
                }
                if s0.direct_demand_fast(i, c) {
                    let (k2, j2) = choose|k2: int, j2: int|
                        0 <= k2 < s0.layer_client@.len() && 0 <= j2 < s0.layer_client@[
                        k2].dependencies@.len() && s0.layer_client@[k2].active
                            && s0.layer_client@[k2].strategy == UsageStrategy::Fast
                            && (#[trigger] s0.client_dep(k2, j2)).spec_layer_id().0 == i
                            && covered(s0.client_bounds(k2, j2), s0.layers@[i].chunk_size, c);
                    assert(s0.direct_fast_upto(nc as int, 0, i, c));
                }
            }
            Self::lemma_direct_frame(s0, *self);
            Self::lemma_wf_frame(s0, *self);
        }
    }
}


impl<P, G> LayersManager<P, G> {
    /// Cascade demand contributed by the first `jj` visited layers of
    /// `order`, measured on the current state.
    spec fn casc_upto(self, order: Seq<usize>, jj: int, i: int, c: ChunkIdx) -> bool {
        exists|q: int| 0 <= q < jj && #[trigger] self.cascade_source(order[q] as int, i, c)
    }

    /// A layer's cascade contribution reads only that layer and the
    /// targets' cell sizes, so it is stable while that layer is untouched.
    proof fn lemma_cascade_source_stable(m1: Self, m2: Self, a: int)
        requires
            0 <= a < m1.layers@.len(),
            m1.layers@.len() == m2.layers@.len(),
            m2.layers@[a] == m1.layers@[a],
            forall|i: int|
                0 <= i < m1.layers@.len() ==> (#[trigger] m2.layers@[i]).same_shape(
                    m1.layers@[i],
                ),
        ensures
            forall|i: int, c: ChunkIdx|
                0 <= i < m1.layers@.len() ==> (#[trigger] m2.cascade_source(a, i, c)
                    <==> m1.cascade_source(a, i, c)),
    {
        assert forall|i: int, c: ChunkIdx|
            0 <= i < m1.layers@.len() implies (#[trigger] m2.cascade_source(a, i, c)
            <==> m1.cascade_source(a, i, c)) by {
            if m1.cascade_source(a, i, c) {
                let (j, idx) = choose|j: int, idx: ChunkIdx|
                    0 <= j < m1.layers@[a].depends_on@.len()
                        && m1.layers@[a].depends_on@[j].spec_layer_id().0 == i && m1.footprint(
                        a,
                        idx,
                    ) && #[trigger] covered(
                        dep_bounds(
                            idx,
                            m1.layers@[a].chunk_size,
                            m1.layers@[a].depends_on@[j].spec_padding(),
                        ),
                        m1.layers@[i].chunk_size,
                        c,
                    );
                assert(m2.footprint(a, idx));
                assert(m2.layers@[i].chunk_size == m1.layers@[i].chunk_size);
                assert(m2.cascade_source(a, i, c));
            }
            if m2.cascade_source(a, i, c) {
                let (j, idx) = choose|j: int, idx: ChunkIdx|
                    0 <= j < m2.layers@[a].depends_on@.len()
                        && m2.layers@[a].depends_on@[j].spec_layer_id().0 == i && m2.footprint(
                        a,
                        idx,
                    ) && #[trigger] covered(
                        dep_bounds(
                            idx,
                            m2.layers@[a].chunk_size,
                            m2.layers@[a].depends_on@[j].spec_padding(),
                        ),
                        m2.layers@[i].chunk_size,
                        c,
                    );
                assert(m1.footprint(a, idx));
                assert(m1.layers@[i].chunk_size == m2.layers@[i].chunk_size);
                assert(m1.cascade_source(a, i, c));
            }
        }
    }

    /// Step 3 of the tick: walk the layers in topological order (dependents
    /// before dependencies) and, for each, register its cache footprint's
    /// demand on its dependencies at the `Fast` tier.  Because every edge
    /// goes forward in the order, each layer's own demand is complete
    /// before its dependencies are asked.
    #[verifier::rlimit(100)]
    fn generate_requirements(&mut self, order: &Vec<usize>)
        requires
            old(self).wf(),
            valid_topo(
                order@,
                dag_edges(old(self).dag),
                old(self).layers@.len() as int,
            ),
            forall|i: int|
                0 <= i < old(self).layers@.len() ==> (#[trigger] old(self).layers@[i]).deleted@
                    .len() == 0,
        ensures
            final(self).wf(),
            final(self).dag == old(self).dag,
            final(self).layer_client == old(self).layer_client,
            final(self).layers@.len() == old(self).layers@.len(),
            forall|i: int|
                0 <= i < old(self).layers@.len() ==> (#[trigger] final(self).layers@[i])
                    .same_shape(old(self).layers@[i]) && final(self).layers@[i].deleted == old(self).layers@[i].deleted,
            forall|i: int, c: ChunkIdx|
                0 <= i < old(self).layers@.len() ==> (#[trigger] final(self).layers@[i].has_idx(
                    c,
                ) <==> old(self).layers@[i].has_idx(c) || final(self).cascade_demand(i, c)),
            forall|i: int, c: ChunkIdx|
                0 <= i < old(self).layers@.len() && final(self).layers@[i].has_idx(c)
                    ==> (#[trigger] final(self).layers@[i].entry_at(c)).chunk == (if old(self).layers@[i].has_idx(c) {
                    old(self).layers@[i].entry_at(c).chunk
                } else {
                    None::<P>
                }),
            forall|i: int, c: ChunkIdx|
                0 <= i < old(self).layers@.len() && final(self).layers@[i].has_idx(c)
                    ==> ((#[trigger] final(self).layers@[i].entry_at(c)).usage_counter
                    .spec_is_empty() <==> !((old(self).layers@[i].has_idx(c) && !old(self).layers@[i].entry_at(c).usage_counter.spec_is_empty()) || final(self).cascade_demand(i, c))),
            forall|i: int, c: ChunkIdx|
                0 <= i < old(self).layers@.len() && final(self).layers@[i].has_idx(c)
                    ==> ((#[trigger] final(self).layers@[i].entry_at(c)).usage_counter
                    .spec_fast() > 0 <==> ((old(self).layers@[i].has_idx(c) && old(self).layers@[i].entry_at(c).usage_counter.spec_fast() > 0) || final(self).cascade_demand(i, c))),
    {
        let ghost s2 = *old(self);
        let ghost n = old(self).layers@.len() as int;
        let ghost edges = dag_edges(old(self).dag);
        let no = order.len();
        proof {
            lemma_topo_complete(order@, edges, n);
        }
        let mut q: usize = 0;
        while q < no
            invariant
                q <= no,
                no == order@.len(),
                s2.wf(),
                s2 == *old(self),
                n == s2.layers@.len() as int,
                edges == dag_edges(s2.dag),
                forall|i: int|
                    0 <= i < n ==> (#[trigger] s2.layers@[i]).deleted@.len() == 0,
                valid_topo(order@, edges, n),
                forall|v: usize| (v as int) < n ==> #[trigger] order@.contains(v),
                self.layers@.len() == s2.layers@.len(),
                self.dag == s2.dag,
                self.layer_client == s2.layer_client,
                forall|i: int|
                    0 <= i < n ==> (#[trigger] self.layers@[i]).same_shape(s2.layers@[i])
                        && self.layers@[i].deleted == s2.layers@[i].deleted
                        && self.layers@[i].wf(),
                forall|q2: int, i: int, c: ChunkIdx|
                    0 <= q2 < q && 0 <= i < n && #[trigger] self.cascade_source(
                        order@[q2] as int,
                        i,
                        c,
                    ) ==> self.layers@[i].has_idx(c) && self.layers@[i].entry_at(
                        c,
                    ).usage_counter.spec_fast() > 0,
                forall|i: int, c: ChunkIdx|
                    0 <= i < n ==> (#[trigger] self.layers@[i].has_idx(c) <==> s2.layers@[i]
                        .has_idx(c) || self.casc_upto(order@, q as int, i, c)),
                forall|i: int, c: ChunkIdx|
                    0 <= i < n && self.layers@[i].has_idx(c) ==> (#[trigger] self.layers@[i]
                        .entry_at(c)).chunk == (if s2.layers@[i].has_idx(c) {
                        s2.layers@[i].entry_at(c).chunk
                    } else {
                        None::<P>
                    }),
                forall|i: int, c: ChunkIdx|
                    0 <= i < n && self.layers@[i].has_idx(c) ==> ((#[trigger] self.layers@[i]
                        .entry_at(c)).usage_counter.spec_is_empty() <==> !((s2.layers@[i]
                        .has_idx(c) && !s2.layers@[i].entry_at(c).usage_counter.spec_is_empty())
                        || self.casc_upto(order@, q as int, i, c))),
                forall|i: int, c: ChunkIdx|
                    0 <= i < n && self.layers@[i].has_idx(c) ==> ((#[trigger] self.layers@[i]
                        .entry_at(c)).usage_counter.spec_fast() > 0 <==> ((s2.layers@[i]
                        .has_idx(c) && s2.layers@[i].entry_at(c).usage_counter.spec_fast() > 0)
                        || self.casc_upto(order@, q as int, i, c))),
            decreases no - q,
        {
            let lid: usize = order[q];
            proof {
                assert(order@[q as int] == lid);
                assert((lid as int) < n);
            }
            let reqs: Vec<(LayerId, Bounds)> = self.layers[lid].requirements();
            let ghost lcur = self.layers@[lid as int];
            let nr = reqs.len();
            let mut t: usize = 0;
            while t < nr
                invariant
                    t <= nr,
                    q < no,
                    no == order@.len(),
                    nr == reqs@.len(),
                    lid == order@[q as int],
                    (lid as int) < n,
                    s2.wf(),
                    s2 == *old(self),
                    n == s2.layers@.len() as int,
                    edges == dag_edges(s2.dag),
                    forall|i: int|
                        0 <= i < n ==> (#[trigger] s2.layers@[i]).deleted@.len() == 0,
                    valid_topo(order@, edges, n),
                    forall|v: usize| (v as int) < n ==> #[trigger] order@.contains(v),
                    self.layers@.len() == s2.layers@.len(),
                    self.dag == s2.dag,
                    self.layer_client == s2.layer_client,
                    self.layers@[lid as int] == lcur,
                    forall|t2: int|
                        0 <= t2 < nr ==> lcur.is_req_pair(#[trigger] reqs@[t2]),
                    forall|i2: int, j2: int|
                        0 <= i2 < lcur.storage@.len() && 0 <= j2 < lcur.depends_on@.len()
                            ==> #[trigger] lcur.req_present(reqs@, i2, j2),
                    forall|i: int|
                        0 <= i < n ==> (#[trigger] self.layers@[i]).same_shape(s2.layers@[i])
                            && self.layers@[i].deleted == s2.layers@[i].deleted
                            && self.layers@[i].wf(),
                    forall|q2: int, i: int, c: ChunkIdx|
                        0 <= q2 < q && 0 <= i < n && #[trigger] self.cascade_source(
                            order@[q2] as int,
                            i,
                            c,
                        ) ==> self.layers@[i].has_idx(c) && self.layers@[i].entry_at(
                            c,
                        ).usage_counter.spec_fast() > 0,
                    forall|t2: int, c: ChunkIdx|
                        0 <= t2 < t && #[trigger] covered(
                            reqs@[t2].1,
                            self.layers@[reqs@[t2].0.0 as int].chunk_size,
                            c,
                        ) ==> self.layers@[reqs@[t2].0.0 as int].has_idx(c)
                            && self.layers@[reqs@[t2].0.0 as int].entry_at(
                            c,
                        ).usage_counter.spec_fast() > 0,
                    forall|t2: int|
                        0 <= t2 < nr ==> (#[trigger] reqs@[t2]).0.0 < n,
                    forall|i: int, c: ChunkIdx|
                        0 <= i < n ==> (#[trigger] self.layers@[i].has_idx(c)
                            <==> s2.layers@[i].has_idx(c) || self.casc_upto(
                            order@,
                            q as int,
                            i,
                            c,
                        ) || (exists|t2: int|
                            0 <= t2 < t && (#[trigger] reqs@[t2]).0.0 == i && covered(
                                reqs@[t2].1,
                                self.layers@[i].chunk_size,
                                c,
                            ))),
                    forall|i: int, c: ChunkIdx|
                        0 <= i < n && self.layers@[i].has_idx(c) ==> (#[trigger] self.layers@[
                        i].entry_at(c)).chunk == (if s2.layers@[i].has_idx(c) {
                            s2.layers@[i].entry_at(c).chunk
                        } else {
                            None::<P>
                        }),
                    forall|i: int, c: ChunkIdx|
                        0 <= i < n && self.layers@[i].has_idx(c) ==> ((#[trigger] self.layers@[
                        i].entry_at(c)).usage_counter.spec_is_empty() <==> !((s2.layers@[i]
                            .has_idx(c) && !s2.layers@[i].entry_at(
                            c,
                        ).usage_counter.spec_is_empty()) || self.casc_upto(
                            order@,
                            q as int,
                            i,
                            c,
                        ) || (exists|t2: int|
                            0 <= t2 < t && (#[trigger] reqs@[t2]).0.0 == i && covered(
                                reqs@[t2].1,
                                self.layers@[i].chunk_size,
                                c,
                            )))),
                    forall|i: int, c: ChunkIdx|
                        0 <= i < n && self.layers@[i].has_idx(c) ==> ((#[trigger] self.layers@[
                        i].entry_at(c)).usage_counter.spec_fast() > 0 <==> ((s2.layers@[i]
                            .has_idx(c) && s2.layers@[i].entry_at(c).usage_counter.spec_fast()
                            > 0) || self.casc_upto(order@, q as int, i, c) || (exists|t2: int|
                            0 <= t2 < t && (#[trigger] reqs@[t2]).0.0 == i && covered(
                                reqs@[t2].1,
                                self.layers@[i].chunk_size,
                                c,
                            )))),
                decreases nr - t,
            {
                let pair: (LayerId, Bounds) = reqs[t];
                let tid: usize = pair.0.0;
                proof {
                    assert(lcur.is_req_pair(reqs@[t as int]));
                    let (sl, jd) = choose|sl: int, jd: int|
                        0 <= sl < lcur.storage@.len() && 0 <= jd < lcur.depends_on@.len()
                            && reqs@[t as int] == #[trigger] lcur.req_pair(sl, jd);
                    assert(lcur.depends_on == s2.layers@[lid as int].depends_on);
                    assert(layer_deps_known(s2.layers@[lid as int], n));
                    assert(s2.layers@[lid as int].depends_on@[jd].spec_layer_id().0 < n);
                    assert((tid as int) < n);
                }
                let ghost pre = *self;
                let cfg = &mut self.layers[tid];
                cfg.ensure_generated(&pair.1, UsageStrategy::Fast);
                proof {
                    let tt = t as int;
                    let ti = tid as int;
                    let cell = s2.layers@[ti].chunk_size;
                    assert(self.layers@ =~= pre.layers@.update(ti, self.layers@[ti]));
                    assert(pre.layers@[ti].chunk_size == cell);
                    // the called layer is not the visited prefix: its position is later
                    assert forall|q2: int| 0 <= q2 <= q implies order@[q2] != tid by {
                        if order@[q2] == tid {
                            let (sl, jd) = choose|sl: int, jd: int|
                                0 <= sl < lcur.storage@.len() && 0 <= jd
                                    < lcur.depends_on@.len() && reqs@[tt]
                                    == #[trigger] lcur.req_pair(sl, jd);
                            assert(reqs@[tt].0 == lcur.depends_on@[jd].spec_layer_id());
                            assert(edge_decl(s2.layers@, lid as int, jd) == (
                                lid as int,
                                ti,
                            ));
                            assert(is_declared_edge(s2.layers@, (lid as int, ti)));
                            assert(edges.contains((lid as int, ti)));
                            assert(edges.contains((order@[q as int] as int, order@[q2] as int)));
                            assert(false);
                        }
                    }
                    assert(self.layers@[lid as int] == lcur);
                    // stability of everything previously established
                    assert forall|q2: int, i: int, c: ChunkIdx|
                        0 <= q2 < q && 0 <= i < n implies (#[trigger] self.cascade_source(
                        order@[q2] as int,
                        i,
                        c,
                    ) <==> pre.cascade_source(order@[q2] as int, i, c)) by {
                        Self::lemma_cascade_source_stable(pre, *self, order@[q2] as int);
                    }
                    assert forall|i: int, c: ChunkIdx|
                        0 <= i < n implies (self.casc_upto(order@, q as int, i, c)
                        <==> pre.casc_upto(order@, q as int, i, c)) by {
                        if pre.casc_upto(order@, q as int, i, c) {
                            let q2 = choose|q2: int|
                                0 <= q2 < q && #[trigger] pre.cascade_source(
                                    order@[q2] as int,
                                    i,
                                    c,
                                );
                            assert(self.cascade_source(order@[q2] as int, i, c));
                        }
                        if self.casc_upto(order@, q as int, i, c) {
                            let q2 = choose|q2: int|
                                0 <= q2 < q && #[trigger] self.cascade_source(
                                    order@[q2] as int,
                                    i,
                                    c,
                                );
                            assert(pre.cascade_source(order@[q2] as int, i, c));
                        }
                    }
                    // growth of the processed-requirements prefix
                    assert forall|i: int, c: ChunkIdx|
                        #![trigger self.layers@[i].has_idx(c)]
                        0 <= i < n implies ((exists|t2: int|
                            0 <= t2 < tt + 1 && (#[trigger] reqs@[t2]).0.0 == i && covered(
                                reqs@[t2].1,
                                self.layers@[i].chunk_size,
                                c,
                            )) <==> ((exists|t2: int|
                            0 <= t2 < tt && (#[trigger] reqs@[t2]).0.0 == i && covered(
                                reqs@[t2].1,
                                self.layers@[i].chunk_size,
                                c,
                            )) || (i == ti && covered(pair.1, cell, c)))) by {
                        assert(self.layers@[i].chunk_size == pre.layers@[i].chunk_size);
                        if exists|t2: int|
                            0 <= t2 < tt + 1 && (#[trigger] reqs@[t2]).0.0 == i && covered(
                                reqs@[t2].1,
                                self.layers@[i].chunk_size,
                                c,
                            ) {
                            let t2 = choose|t2: int|
                                0 <= t2 < tt + 1 && (#[trigger] reqs@[t2]).0.0 == i && covered(
                                    reqs@[t2].1,
                                    self.layers@[i].chunk_size,
                                    c,
                                );
                            if t2 == tt {
                                assert(i == ti && covered(pair.1, cell, c));
                            }
                        }
                        if i == ti && covered(pair.1, cell, c) {
                            assert(reqs@[tt].0.0 == i && covered(
                                reqs@[tt].1,
                                self.layers@[i].chunk_size,
                                c,
                            ));
                        }
                    }
                    // entries already satisfied stay satisfied: the call only
                    // adds entries and raises Fast counts
                    assert forall|i: int, c: ChunkIdx|
                        0 <= i < n && pre.layers@[i].has_idx(c) && pre.layers@[i].entry_at(
                        c,
                    ).usage_counter.spec_fast() > 0 implies self.layers@[i].has_idx(c)
                        && (#[trigger] self.layers@[i].entry_at(c)).usage_counter.spec_fast()
                        > 0 by {
                        if i == ti {
                            if covered(pair.1, cell, c) {
                                assert(self.layers@[ti].entry_at(c).chunk == (if pre.layers@[
                                    ti].has_idx(c) {
                                    pre.layers@[ti].entry_at(c).chunk
                                } else {
                                    None::<P>
                                }));
                                assert(self.layers@[ti].entry_at(c).usage_counter == pre
                                    .layers@[ti].entry_at(c).usage_counter.bumped(
                                    UsageStrategy::Fast,
                                ));
                            } else {
                                assert(self.layers@[ti].entry_at(c) == pre.layers@[ti]
                                    .entry_at(c));
                            }
                        } else {
                            assert(self.layers@[i] == pre.layers@[i]);
                        }
                    }
                    assert forall|q2: int, i: int, c: ChunkIdx|
                        0 <= q2 < q && 0 <= i < n && #[trigger] self.cascade_source(
                            order@[q2] as int,
                            i,
                            c,
                        ) implies self.layers@[i].has_idx(c) && self.layers@[i].entry_at(
                        c,
                    ).usage_counter.spec_fast() > 0 by {
                        assert(pre.cascade_source(order@[q2] as int, i, c));
                        assert(pre.layers@[i].has_idx(c) && pre.layers@[i].entry_at(
                            c,
                        ).usage_counter.spec_fast() > 0);
                    }
                    assert forall|t2: int, c: ChunkIdx|
                        0 <= t2 < tt + 1 && #[trigger] covered(
                            reqs@[t2].1,
                            self.layers@[reqs@[t2].0.0 as int].chunk_size,
                            c,
                        ) implies self.layers@[reqs@[t2].0.0 as int].has_idx(c)
                        && self.layers@[reqs@[t2].0.0 as int].entry_at(
                        c,
                    ).usage_counter.spec_fast() > 0 by {
                        let di = reqs@[t2].0.0 as int;
                        assert(self.layers@[di].chunk_size == pre.layers@[di].chunk_size);
                        if t2 == tt {
                            assert(di == ti);
                            assert(covered(pair.1, cell, c));
                            assert(self.layers@[ti].has_idx(c));
                            assert(self.layers@[ti].entry_at(c).chunk == (if pre.layers@[ti]
                                .has_idx(c) {
                                pre.layers@[ti].entry_at(c).chunk
                            } else {
                                None::<P>
                            }));
                            assert(self.layers@[ti].entry_at(c).usage_counter == (if pre
                                .layers@[ti].has_idx(c) {
                                pre.layers@[ti].entry_at(c).usage_counter
                            } else {
                                UsageCounter::empty()
                            }).bumped(UsageStrategy::Fast));
                        } else {
                            assert(covered(
                                reqs@[t2].1,
                                pre.layers@[di].chunk_size,
                                c,
                            ));
                            assert(pre.layers@[di].has_idx(c) && pre.layers@[di].entry_at(
                                c,
                            ).usage_counter.spec_fast() > 0);
                            if di == ti {
                                if covered(pair.1, cell, c) {
                                    assert(self.layers@[ti].entry_at(c).chunk == (if pre
                                        .layers@[ti].has_idx(c) {
                                        pre.layers@[ti].entry_at(c).chunk
                                    } else {
                                        None::<P>
                                    }));
                                    assert(self.layers@[ti].entry_at(c).usage_counter == pre
                                        .layers@[ti].entry_at(c).usage_counter.bumped(
                                        UsageStrategy::Fast,
                                    ));
                                } else {
                                    assert(self.layers@[ti].entry_at(c) == pre.layers@[ti]
                                        .entry_at(c));
                                }
                            } else {
                                assert(self.layers@[di] == pre.layers@[di]);
                            }
                        }
                    }
                }
                t = t + 1;
            }
            proof {
                let qq = q as int;
                // every requirement this layer's footprint generates is now met
                assert forall|i: int, c: ChunkIdx|
                    0 <= i < n && #[trigger] self.cascade_source(lid as int, i, c) implies
                    self.layers@[i].has_idx(c) && self.layers@[i].entry_at(
                    c,
                ).usage_counter.spec_fast() > 0 by {
                    let (jd, idx) = choose|jd: int, idx: ChunkIdx|
                        0 <= jd < self.layers@[lid as int].depends_on@.len()
                            && self.layers@[lid as int].depends_on@[jd].spec_layer_id().0 == i
                            && self.footprint(lid as int, idx) && #[trigger] covered(
                            dep_bounds(
                                idx,
                                self.layers@[lid as int].chunk_size,
                                self.layers@[lid as int].depends_on@[jd].spec_padding(),
                            ),
                            self.layers@[i].chunk_size,
                            c,
                        );
                    assert(self.layers@[lid as int] == lcur);
                    assert(lcur.deleted == s2.layers@[lid as int].deleted);
                    assert(s2.layers@[lid as int].deleted@.len() == 0);
                    assert(lcur.has_idx(idx));
                    let sl = lcur.slot_of(idx);
                    assert(lcur.storage@[sl].0 == idx);
                    assert(lcur.req_present(reqs@, sl, jd));
                    let t2 = choose|t2: int|
                        0 <= t2 < reqs@.len() && #[trigger] reqs@[t2] == lcur.req_pair(sl, jd);
                    assert(reqs@[t2].0.0 == i);
                    assert(reqs@[t2].1 == dep_bounds(
                        idx,
                        lcur.chunk_size,
                        lcur.depends_on@[jd].spec_padding(),
                    ));
                    assert(covered(reqs@[t2].1, self.layers@[i].chunk_size, c));
                }
                // the processed requirements are exactly this layer's contribution
                assert forall|i: int, c: ChunkIdx|
                    #![trigger self.layers@[i].has_idx(c)]
                    0 <= i < n implies ((exists|t2: int|
                        0 <= t2 < nr && (#[trigger] reqs@[t2]).0.0 == i && covered(
                            reqs@[t2].1,
                            self.layers@[i].chunk_size,
                            c,
                        )) <==> self.cascade_source(lid as int, i, c)) by {
                    if exists|t2: int|
                        0 <= t2 < nr && (#[trigger] reqs@[t2]).0.0 == i && covered(
                            reqs@[t2].1,
                            self.layers@[i].chunk_size,
                            c,
                        ) {
                        let t2 = choose|t2: int|
                            0 <= t2 < nr && (#[trigger] reqs@[t2]).0.0 == i && covered(
                                reqs@[t2].1,
                                self.layers@[i].chunk_size,
                                c,
                            );
                        assert(lcur.is_req_pair(reqs@[t2]));
                        let (sl, jd) = choose|sl: int, jd: int|
                            0 <= sl < lcur.storage@.len() && 0 <= jd < lcur.depends_on@.len()
                                && reqs@[t2] == #[trigger] lcur.req_pair(sl, jd);
                        lcur.lemma_slot(lcur.storage@[sl].0, sl);
                        assert(self.footprint(lid as int, lcur.storage@[sl].0));
                        assert(self.cascade_source(lid as int, i, c));
                    }
                    if self.cascade_source(lid as int, i, c) {
                        let (jd, idx) = choose|jd: int, idx: ChunkIdx|
                            0 <= jd < self.layers@[lid as int].depends_on@.len()
                                && self.layers@[lid as int].depends_on@[jd].spec_layer_id().0
                                == i && self.footprint(lid as int, idx) && #[trigger] covered(
                                dep_bounds(
                                    idx,
                                    self.layers@[lid as int].chunk_size,
                                    self.layers@[lid as int].depends_on@[jd].spec_padding(),
                                ),
                                self.layers@[i].chunk_size,
                                c,
                            );
                        assert(lcur.deleted == s2.layers@[lid as int].deleted);
                        assert(s2.layers@[lid as int].deleted@.len() == 0);
                        assert(lcur.has_idx(idx));
                        let sl = lcur.slot_of(idx);
                        assert(lcur.req_present(reqs@, sl, jd));
                        let t2 = choose|t2: int|
                            0 <= t2 < reqs@.len() && #[trigger] reqs@[t2] == lcur.req_pair(
                                sl,
                                jd,
                            );
                        assert(reqs@[t2].0.0 == i && covered(
                            reqs@[t2].1,
                            self.layers@[i].chunk_size,
                            c,
                        ));
                    }
                }
                // the visited prefix grows by one
                assert forall|i: int, c: ChunkIdx|
                    #![trigger self.layers@[i].has_idx(c)]
                    0 <= i < n implies (self.casc_upto(order@, qq + 1, i, c) <==> (
                    self.casc_upto(order@, qq, i, c) || self.cascade_source(
                        lid as int,
                        i,
                        c,
                    ))) by {
                    if self.casc_upto(order@, qq + 1, i, c) {
                        let q2 = choose|q2: int|
                            0 <= q2 < qq + 1 && #[trigger] self.cascade_source(
                                order@[q2] as int,
                                i,
                                c,
                            );
                        if q2 < qq {
                            assert(self.casc_upto(order@, qq, i, c));
                        }
                    }
                    if self.casc_upto(order@, qq, i, c) {
                        let q2 = choose|q2: int|
                            0 <= q2 < qq && #[trigger] self.cascade_source(
                                order@[q2] as int,
                                i,
                                c,
                            );
                        assert(self.casc_upto(order@, qq + 1, i, c));
                    }
                    if self.cascade_source(lid as int, i, c) {
                        assert(order@[qq] == lid);
                        assert(self.casc_upto(order@, qq + 1, i, c));
                    }
                }
            }
            q = q + 1;
        }
        proof {
            // the full pass is exactly the cascade demand
            assert forall|i: int, c: ChunkIdx|
                0 <= i < n implies (self.casc_upto(order@, no as int, i, c)
                <==> final(self).cascade_demand(i, c)) by {
                if self.casc_upto(order@, no as int, i, c) {
                    let q2 = choose|q2: int|
                        0 <= q2 < no && #[trigger] self.cascade_source(order@[q2] as int, i, c);
                    assert(0 <= order@[q2] as int && (order@[q2] as int) < n);
                    assert(self.cascade_demand(i, c));
                }
                if self.cascade_demand(i, c) {
                    let a = choose|a: int|
                        0 <= a < self.layer_count() && #[trigger] self.cascade_source(a, i, c);
                    assert(order@.contains(a as usize));
                    let q2 = choose|q2: int| 0 <= q2 < order@.len() && order@[q2] == a as usize;
                    assert(self.cascade_source(order@[q2] as int, i, c));
                    assert(self.casc_upto(order@, no as int, i, c));
                }
            }
            Self::lemma_wf_frame(s2, *self);
        }
    }
}


/// Layer `i` lies in the already-processed suffix `order[k..]`.
pub open spec fn done_at(order: Seq<usize>, k: int, i: int) -> bool {
    exists|p: int| k <= p < order.len() && (#[trigger] order[p]) as int == i
}

impl<P, G: Layer<P>> LayersManager<P, G> {
    /// Step 4 of the tick: walk the layers in reverse topological order
    /// (dependencies before dependents).  For each layer, generate a
    /// payload for every entry whose best tier is `Fast` and whose payload
    /// is missing — reading already-settled dependencies through a lookup —
    /// then evict every entry whose usage counter is empty, reporting the
    /// evicted indices.
    #[verifier::rlimit(100)]
    fn generate_chunks(&mut self, order: &Vec<usize>)
        requires
            old(self).wf(),
            valid_topo(
                order@,
                dag_edges(old(self).dag),
                old(self).layers@.len() as int,
            ),
            forall|i: int|
                0 <= i < old(self).layers@.len() ==> (#[trigger] old(self).layers@[i]).deleted@
                    .len() == 0,
        ensures
            final(self).wf(),
            final(self).dag == old(self).dag,
            final(self).layer_client == old(self).layer_client,
            final(self).layers@.len() == old(self).layers@.len(),
            forall|i: int|
                0 <= i < old(self).layers@.len() ==> (#[trigger] final(self).layers@[i])
                    .same_shape(old(self).layers@[i]),
            forall|i: int, c: ChunkIdx|
                0 <= i < old(self).layers@.len() ==> (#[trigger] final(self).layers@[i].has_idx(
                    c,
                ) <==> old(self).layers@[i].has_idx(c) && !old(self).layers@[i].entry_at(
                    c,
                ).usage_counter.spec_is_empty()),
            forall|i: int, c: ChunkIdx|
                0 <= i < old(self).layers@.len() && final(self).layers@[i].has_idx(c)
                    ==> (#[trigger] final(self).layers@[i].entry_at(c)).usage_counter == old(self).layers@[i].entry_at(c).usage_counter,
            forall|i: int, c: ChunkIdx|
                0 <= i < old(self).layers@.len() && final(self).layers@[i].has_idx(c) && old(self).layers@[i].entry_at(c).chunk is Some ==> (#[trigger] final(self).layers@[i]
                    .entry_at(c)).chunk == old(self).layers@[i].entry_at(c).chunk,
            forall|i: int, c: ChunkIdx|
                0 <= i < old(self).layers@.len() && final(self).layers@[i].has_idx(c)
                    ==> ((#[trigger] final(self).layers@[i].entry_at(c)).chunk is Some <==> (
                old(self).layers@[i].entry_at(c).chunk is Some || old(self).layers@[i].entry_at(
                    c,
                ).usage_counter.spec_fast() > 0)),
            forall|i: int|
                0 <= i < old(self).layers@.len() ==> (#[trigger] final(self).layers@[i])
                    .deleted@.no_duplicates(),
            forall|i: int, c: ChunkIdx|
                0 <= i < old(self).layers@.len() ==> ((#[trigger] final(self).layers@[i]
                    .deleted@.contains(c)) <==> (old(self).layers@[i].has_idx(c) && old(self).layers@[i].entry_at(c).usage_counter.spec_is_empty())),
    {
        let ghost s3 = *old(self);
        let ghost n = old(self).layers@.len() as int;
        let no = order.len();
        proof {
            lemma_topo_complete(order@, dag_edges(s3.dag), n);
        }
        let mut k: usize = no;
        while k > 0
            invariant
                k <= no,
                no == order@.len(),
                s3.wf(),
                s3 == *old(self),
                n == s3.layers@.len() as int,
                valid_topo(order@, dag_edges(s3.dag), n),
                forall|i: int|
                    0 <= i < n ==> (#[trigger] s3.layers@[i]).deleted@.len() == 0,
                self.layers@.len() == s3.layers@.len(),
                self.dag == s3.dag,
                self.layer_client == s3.layer_client,
                forall|i: int|
                    0 <= i < n ==> (#[trigger] self.layers@[i]).same_shape(s3.layers@[i])
                        && self.layers@[i].wf(),
                forall|i: int|
                    0 <= i < n && !done_at(order@, k as int, i) ==> #[trigger] self.layers@[i]
                        == s3.layers@[i],
                forall|i: int, c: ChunkIdx|
                    0 <= i < n && done_at(order@, k as int, i) ==> (#[trigger] self.layers@[i]
                        .has_idx(c) <==> s3.layers@[i].has_idx(c) && !s3.layers@[i].entry_at(
                        c,
                    ).usage_counter.spec_is_empty()),
                forall|i: int, c: ChunkIdx|
                    0 <= i < n && done_at(order@, k as int, i) && self.layers@[i].has_idx(c)
                        ==> (#[trigger] self.layers@[i].entry_at(c)).usage_counter
                        == s3.layers@[i].entry_at(c).usage_counter,
                forall|i: int, c: ChunkIdx|
                    0 <= i < n && done_at(order@, k as int, i) && self.layers@[i].has_idx(c)
                        && s3.layers@[i].entry_at(c).chunk is Some ==> (#[trigger] self.layers@[
                    i].entry_at(c)).chunk == s3.layers@[i].entry_at(c).chunk,
                forall|i: int, c: ChunkIdx|
                    0 <= i < n && done_at(order@, k as int, i) && self.layers@[i].has_idx(c)
                        ==> ((#[trigger] self.layers@[i].entry_at(c)).chunk is Some <==> (
                    s3.layers@[i].entry_at(c).chunk is Some || s3.layers@[i].entry_at(
                        c,
                    ).usage_counter.spec_fast() > 0)),
                forall|i: int|
                    0 <= i < n && done_at(order@, k as int, i) ==> (#[trigger] self.layers@[i])
                        .deleted@.no_duplicates(),
                forall|i: int, c: ChunkIdx|
                    0 <= i < n && done_at(order@, k as int, i) ==> ((#[trigger] self.layers@[i]
                        .deleted@.contains(c)) <==> (s3.layers@[i].has_idx(c) && s3.layers@[i]
                        .entry_at(c).usage_counter.spec_is_empty())),
            decreases k,
        {
            k = k - 1;
            let lid: usize = order[k];
            proof {
                assert(order@[k as int] == lid);
                assert((lid as int) < n);
                assert(!done_at(order@, k as int + 1, lid as int)) by {
                    if done_at(order@, k as int + 1, lid as int) {
                        let p = choose|p: int|
                            k + 1 <= p < order@.len() && (#[trigger] order@[p]) as int
                                == lid as int;
                        assert(order@[p] == order@[k as int]);
                    }
                }
                assert(self.layers@[lid as int] == s3.layers@[lid as int]);
            }
            let ghost start = *self;
            let pend: Vec<ChunkIdx> = self.layers[lid].pending_indices();
            let doomed: Vec<ChunkIdx> = self.layers[lid].doomed_indices();
            let mut filled: Vec<(ChunkIdx, P)> = Vec::new();
            let np = pend.len();
            let mut u: usize = 0;
            while u < np
                invariant
                    u <= np,
                    np == pend@.len(),
                    filled@.len() == u,
                    *self == start,
                    (lid as int) < start.layers@.len(),
                    start.layers@[lid as int].wf(),
                    forall|v: int| 0 <= v < u ==> (#[trigger] filled@[v]).0 == pend@[v],
                decreases np - u,
            {
                let c: ChunkIdx = pend[u];
                let lookup = LayerLookupChunk { layers: &self.layers };
                let p: P = self.layers[lid].generator.generate(&lookup, &c);
                filled.push((c, p));
                u = u + 1;
            }
            let mut w: usize = filled.len();
            while w > 0
                invariant
                    w == filled@.len(),
                    w <= np,
                    np == pend@.len(),
                    forall|v: int| 0 <= v < w ==> (#[trigger] filled@[v]).0 == pend@[v],
                    (lid as int) < start.layers@.len(),
                    self.layers@.len() == start.layers@.len(),
                    self.dag == start.dag,
                    self.layer_client == start.layer_client,
                    forall|i: int|
                        0 <= i < start.layers@.len() && i != lid as int
                            ==> #[trigger] self.layers@[i] == start.layers@[i],
                    self.layers@[lid as int].wf(),
                    self.layers@[lid as int].same_shape(start.layers@[lid as int]),
                    self.layers@[lid as int].deleted == start.layers@[lid as int].deleted,
                    forall|c: ChunkIdx|
                        #[trigger] self.layers@[lid as int].has_idx(c) <==> start.layers@[
                        lid as int].has_idx(c),
                    forall|c: ChunkIdx|
                        self.layers@[lid as int].has_idx(c) ==> (#[trigger] self.layers@[
                        lid as int].entry_at(c)).usage_counter == start.layers@[
                        lid as int].entry_at(c).usage_counter,
                    forall|c: ChunkIdx|
                        self.layers@[lid as int].has_idx(c) && !pend@.contains(c)
                            ==> (#[trigger] self.layers@[lid as int].entry_at(c)).chunk
                            == start.layers@[lid as int].entry_at(c).chunk,
                    forall|v: int|
                        w <= v < np ==> (#[trigger] self.layers@[lid as int].entry_at(
                            pend@[v],
                        )).chunk is Some,
                    pend@.no_duplicates(),
                    forall|c: ChunkIdx|
                        pend@.contains(c) ==> start.layers@[lid as int].has_idx(c),
                decreases w,
            {
                let pair = filled.pop().unwrap();
                proof {
                    assert(filled@.len() == w - 1);
                    assert(pair.0 == pend@[w - 1]);
                    assert(pend@.contains(pair.0)) by {
                        assert(pend@[w - 1] == pair.0);
                    }
                    assert(self.layers@[lid as int].has_idx(pair.0));
                }
                let ghost prev = *self;
                let cfg = &mut self.layers[lid];
                cfg.set_chunk(pair.0, pair.1);
                proof {
                    let li = lid as int;
                    assert(self.layers@ =~= prev.layers@.update(li, self.layers@[li]));
                    assert forall|v: int|
                        w - 1 <= v < np implies (#[trigger] self.layers@[li].entry_at(
                        pend@[v],
                    )).chunk is Some by {
                        if v == w - 1 {
                            assert(self.layers@[li].entry_at(pend@[v]).chunk == Some(pair.1));
                        } else {
                            assert(pend@[v] != pend@[w - 1]);
                            assert(pend@.contains(pend@[v]));
                            assert(prev.layers@[li].has_idx(pend@[v]));
                            assert(self.layers@[li].entry_at(pend@[v]) == prev.layers@[li]
                                .entry_at(pend@[v]));
                            assert(prev.layers@[li].entry_at(pend@[v]).chunk is Some);
                        }
                    }
                }
                w = w - 1;
            }
            proof {
                assert forall|t: int|
                    0 <= t < doomed@.len() implies self.layers@[lid as int].has_idx(
                    #[trigger] doomed@[t]) by {
                    assert(doomed@.contains(doomed@[t]));
                    assert(start.layers@[lid as int].has_idx(doomed@[t]));
                }
            }
            let ghost mid = *self;
            let cfg = &mut self.layers[lid];
            cfg.evict(&doomed);
            proof {
                let li = lid as int;
                let ghost l0 = s3.layers@[li];
                assert(self.layers@ =~= mid.layers@.update(li, self.layers@[li]));
                assert(start.layers@[li] == l0);
                // the processed suffix grows by one
                assert forall|i: int|
                    0 <= i < n implies (done_at(order@, k as int, i) <==> (done_at(
                    order@,
                    k as int + 1,
                    i,
                ) || i == li)) by {
                    if done_at(order@, k as int, i) {
                        let p = choose|p: int|
                            k <= p < order@.len() && (#[trigger] order@[p]) as int == i;
                        if p == k {
                            assert(i == li);
                        } else {
                            assert(done_at(order@, k as int + 1, i));
                        }
                    }
                    if done_at(order@, k as int + 1, i) {
                        let p = choose|p: int|
                            k + 1 <= p < order@.len() && (#[trigger] order@[p]) as int == i;
                        assert(done_at(order@, k as int, i));
                    }
                    if i == li {
                        assert((order@[k as int]) as int == i);
                        assert(done_at(order@, k as int, i));
                    }
                }
                // final shape of the layer just processed
                assert(self.layers@[li].deleted@ == doomed@);
                assert forall|c: ChunkIdx|
                    #[trigger] self.layers@[li].has_idx(c) <==> (l0.has_idx(c) && !l0.entry_at(
                    c,
                ).usage_counter.spec_is_empty()) by {
                    if self.layers@[li].has_idx(c) {
                        assert(mid.layers@[li].has_idx(c) && !doomed@.contains(c));
                        assert(l0.has_idx(c));
                        assert(!(l0.has_idx(c) && l0.entry_at(c).usage_counter.spec_is_empty()));
                    }
                    if l0.has_idx(c) && !l0.entry_at(c).usage_counter.spec_is_empty() {
                        assert(mid.layers@[li].has_idx(c));
                        assert(!doomed@.contains(c));
                        assert(self.layers@[li].has_idx(c));
                    }
                }
                assert forall|c: ChunkIdx|
                    self.layers@[li].has_idx(c) implies (#[trigger] self.layers@[li].entry_at(
                    c,
                )).usage_counter == l0.entry_at(c).usage_counter && ((self.layers@[li]
                    .entry_at(c)).chunk is Some <==> (l0.entry_at(c).chunk is Some
                    || l0.entry_at(c).usage_counter.spec_fast() > 0)) && (l0.entry_at(
                    c,
                ).chunk is Some ==> (self.layers@[li].entry_at(c)).chunk == l0.entry_at(
                    c,
                ).chunk) by {
                    assert(!doomed@.contains(c));
                    assert(self.layers@[li].entry_at(c) == mid.layers@[li].entry_at(c));
                    assert(mid.layers@[li].has_idx(c));
                    if pend@.contains(c) {
                        let v = choose|v: int| 0 <= v < pend@.len() && pend@[v] == c;
                        assert(mid.layers@[li].entry_at(pend@[v]).chunk is Some);
                        assert(l0.entry_at(c).usage_counter.spec_fast() > 0);
                        assert(l0.entry_at(c).chunk is None);
                    } else {
                        assert(mid.layers@[li].entry_at(c).chunk == l0.entry_at(c).chunk);
                        if l0.entry_at(c).chunk is None && l0.entry_at(
                            c,
                        ).usage_counter.spec_fast() > 0 {
                            assert(l0.entry_at(c).usage_counter.spec_best_usage() == Some(
                                UsageStrategy::Fast,
                            ));
                            assert(pend@.contains(c));
                        }
                    }
                }
                assert forall|c: ChunkIdx|
                    (#[trigger] self.layers@[li].deleted@.contains(c)) <==> (l0.has_idx(c)
                        && l0.entry_at(c).usage_counter.spec_is_empty()) by {}
            }
        }
        proof {
            assert forall|i: int| 0 <= i < n implies done_at(order@, 0, i) by {
                assert(order@.contains((i as usize)));
                let p = choose|p: int| 0 <= p < order@.len() && order@[p] == i as usize;
                assert((order@[p]) as int == i);
            }
            Self::lemma_wf_frame(s3, *self);
        }
    }
}


impl<P, G: Layer<P>> LayersManager<P, G> {
    /// Run one tick of the protocol: reset usage counters and eviction
    /// reports, register every active client's demand, cascade demand
    /// through the dependency graph in topological order, then generate and
    /// evict in the reverse order.
    ///
    /// Afterwards each layer caches exactly the indices demanded this tick;
    /// every stale index appears exactly once in that layer's eviction
    /// report; surviving payloads are never recomputed; and a payload is
    /// present exactly where one survived or `Fast` demand asked for one.
    /// In particular, for every dependency edge, the padded cells of every
    /// cached dependent index are cached in the dependency.
    #[verifier::rlimit(100)]
    pub fn regenerate(&mut self)
        requires
            old(self).wf(),
        ensures
            final(self).wf(),
            final(self).dag == old(self).dag,
            final(self).layer_client == old(self).layer_client,
            final(self).layers@.len() == old(self).layers@.len(),
            forall|i: int|
                0 <= i < old(self).layers@.len() ==> (#[trigger] final(self).layers@[i])
                    .same_shape(old(self).layers@[i]),
            forall|i: int, c: ChunkIdx|
                0 <= i < old(self).layers@.len() ==> ((#[trigger] final(self).layers@[i]
                    .has_idx(c)) <==> final(self).demanded(i, c)),
            forall|i: int|
                0 <= i < old(self).layers@.len() ==> (#[trigger] final(self).layers@[i])
                    .deleted@.no_duplicates(),
            forall|i: int, c: ChunkIdx|
                0 <= i < old(self).layers@.len() ==> ((#[trigger] final(self).layers@[i]
                    .deleted@.contains(c)) <==> (old(self).layers@[i].has_idx(c) && !final(self).demanded(i, c))),
            forall|i: int, c: ChunkIdx|
                0 <= i < old(self).layers@.len() && final(self).layers@[i].has_idx(c) && old(self).layers@[i].has_idx(c) && old(self).layers@[i].entry_at(c).chunk is Some
                    ==> (#[trigger] final(self).layers@[i].entry_at(c)).chunk == old(self).layers@[i].entry_at(c).chunk,
            forall|i: int, c: ChunkIdx|
                0 <= i < old(self).layers@.len() && final(self).layers@[i].has_idx(c)
                    ==> ((#[trigger] final(self).layers@[i].entry_at(c)).chunk is Some <==> ((
                old(self).layers@[i].has_idx(c) && old(self).layers@[i].entry_at(c).chunk
                    is Some) || final(self).fast_demanded(i, c))),
            forall|a: int, j: int, idx: ChunkIdx, c: ChunkIdx|
                0 <= a < old(self).layers@.len() && 0 <= j < final(self).layers@[a].depends_on@
                    .len() && final(self).layers@[a].has_idx(idx) && #[trigger] covered(
                    dep_bounds(
                        idx,
                        final(self).layers@[a].chunk_size,
                        final(self).layers@[a].depends_on@[j].spec_padding(),
                    ),
                    final(self).layers@[final(self).layers@[a].depends_on@[j].spec_layer_id().0
                        as int].chunk_size,
                    c,
                ) ==> final(self).layers@[final(self).layers@[a].depends_on@[j].spec_layer_id()
                    .0 as int].has_idx(c),
    {
        let ghost s0 = *old(self);
        let ghost n = old(self).layers@.len() as int;
        self.clear_usage();
        let ghost sa = *self;
        self.clear_deleted();
        let ghost s1 = *self;
        proof {
            assert forall|i: int, c: ChunkIdx|
                0 <= i < n implies (#[trigger] s1.layers@[i].has_idx(c) <==> sa.layers@[i]
                .has_idx(c)) by {
                crate::layer::lemma_same_storage_entries(sa.layers@[i], s1.layers@[i]);
            }
            assert forall|i: int, c: ChunkIdx|
                0 <= i < n && sa.layers@[i].has_idx(c) implies #[trigger] s1.layers@[i]
                .entry_at(c) == sa.layers@[i].entry_at(c) by {
                crate::layer::lemma_same_storage_entries(sa.layers@[i], s1.layers@[i]);
            }
            assert forall|i: int, c: ChunkIdx|
                0 <= i < n && s1.layers@[i].has_idx(c) implies (#[trigger] s1.layers@[i]
                .entry_at(c)).usage_counter == UsageCounter::empty() by {
                assert(sa.layers@[i].has_idx(c));
                assert(s1.layers@[i].entry_at(c) == sa.layers@[i].entry_at(c));
            }
        }
        self.check_client_usages();
        let ghost s2 = *self;
        let order: Vec<usize> = dag_topo_order(&self.dag);
        self.generate_requirements(&order);
        let ghost s3 = *self;
        self.generate_chunks(&order);
        proof {
            let f = *self;
            // the tick-time footprint of the final state equals the cache
            // as it stood at the end of the cascade
            assert forall|a: int, idx: ChunkIdx|
                0 <= a < n implies (#[trigger] f.footprint(a, idx) <==> s3.footprint(
                a,
                idx,
            )) by {
                assert(s3.layers@[a].deleted == s2.layers@[a].deleted);
                assert(s2.layers@[a].deleted == s1.layers@[a].deleted);
                assert(s1.layers@[a].deleted@.len() == 0);
                if f.layers@[a].has_idx(idx) || f.layers@[a].deleted@.contains(idx) {
                    assert(s3.layers@[a].has_idx(idx));
                }
                if s3.layers@[a].has_idx(idx) {
                    if s3.layers@[a].entry_at(idx).usage_counter.spec_is_empty() {
                        assert(f.layers@[a].deleted@.contains(idx));
                    } else {
                        assert(f.layers@[a].has_idx(idx));
                    }
                }
            }
            Self::lemma_cascade_frame(s3, f);
            Self::lemma_direct_frame(s2, f);
            // what was demanded, phase by phase
            assert forall|i: int, c: ChunkIdx|
                #![trigger f.layers@[i].has_idx(c)]
                #![trigger f.layers@[i].deleted@.contains(c)]
                0 <= i < n implies {
                &&& (f.layers@[i].has_idx(c) <==> (s2.direct_demand(i, c) || s3.cascade_demand(
                    i,
                    c,
                )))
                &&& (f.layers@[i].deleted@.contains(c) <==> (s0.layers@[i].has_idx(c) && !(
                s2.direct_demand(i, c) || s3.cascade_demand(i, c))))
            } by {
                assert(s1.layers@[i].has_idx(c) <==> s0.layers@[i].has_idx(c));
                assert(s2.layers@[i].has_idx(c) <==> (s1.layers@[i].has_idx(c)
                    || s2.direct_demand(i, c)));
                assert(s3.layers@[i].has_idx(c) <==> (s2.layers@[i].has_idx(c)
                    || s3.cascade_demand(i, c)));
                assert(f.layers@[i].has_idx(c) <==> (s3.layers@[i].has_idx(c)
                    && !s3.layers@[i].entry_at(c).usage_counter.spec_is_empty()));
                if s3.layers@[i].has_idx(c) {
                    assert(s3.layers@[i].entry_at(c).usage_counter.spec_is_empty() <==> !((
                    s2.layers@[i].has_idx(c) && !s2.layers@[i].entry_at(
                        c,
                    ).usage_counter.spec_is_empty()) || s3.cascade_demand(i, c)));
                }
                if s2.layers@[i].has_idx(c) {
                    assert(s2.layers@[i].entry_at(c).usage_counter.spec_is_empty()
                        <==> !s2.direct_demand(i, c));
                }
                assert(f.layers@[i].deleted@.contains(c) <==> (s3.layers@[i].has_idx(c)
                    && s3.layers@[i].entry_at(c).usage_counter.spec_is_empty()));
            }
            // payloads, phase by phase
            assert forall|i: int, c: ChunkIdx|
                #![trigger f.layers@[i].entry_at(c)]
                0 <= i < n && f.layers@[i].has_idx(c) implies {
                &&& (s0.layers@[i].has_idx(c) && s0.layers@[i].entry_at(c).chunk is Some
                    ==> f.layers@[i].entry_at(c).chunk == s0.layers@[i].entry_at(c).chunk)
                &&& (f.layers@[i].entry_at(c).chunk is Some <==> ((s0.layers@[i].has_idx(c)
                    && s0.layers@[i].entry_at(c).chunk is Some) || (s2.direct_demand_fast(i, c)
                    || s3.cascade_demand(i, c))))
            } by {
                assert(f.layers@[i].has_idx(c) <==> (s3.layers@[i].has_idx(c)
                    && !s3.layers@[i].entry_at(c).usage_counter.spec_is_empty()));
                assert(s3.layers@[i].has_idx(c));
                assert(s3.layers@[i].entry_at(c).chunk == (if s2.layers@[i].has_idx(c) {
                    s2.layers@[i].entry_at(c).chunk
                } else {
                    None::<P>
                }));
                if s2.layers@[i].has_idx(c) {
                    assert(s2.layers@[i].entry_at(c).chunk == (if s1.layers@[i].has_idx(c) {
                        s1.layers@[i].entry_at(c).chunk
                    } else {
                        None::<P>
                    }));
                    assert(s2.layers@[i].entry_at(c).usage_counter.spec_fast() > 0
                        <==> s2.direct_demand_fast(i, c));
                }
                if s1.layers@[i].has_idx(c) {
                    assert(s0.layers@[i].has_idx(c));
                    assert(s1.layers@[i].entry_at(c) == sa.layers@[i].entry_at(c));
                    assert(sa.layers@[i].entry_at(c).chunk == s0.layers@[i].entry_at(c).chunk);
                }
                assert(s3.layers@[i].entry_at(c).usage_counter.spec_fast() > 0 <==> ((
                s2.layers@[i].has_idx(c) && s2.layers@[i].entry_at(c).usage_counter.spec_fast()
                    > 0) || s3.cascade_demand(i, c)));
                assert(f.layers@[i].entry_at(c).chunk is Some <==> (s3.layers@[i].entry_at(
                    c,
                ).chunk is Some || s3.layers@[i].entry_at(c).usage_counter.spec_fast() > 0));
                if s3.layers@[i].entry_at(c).chunk is Some {
                    assert(f.layers@[i].entry_at(c).chunk == s3.layers@[i].entry_at(c).chunk);
                }
                if s0.layers@[i].has_idx(c) && s0.layers@[i].entry_at(c).chunk is Some {
                    assert(s1.layers@[i].has_idx(c));
                    assert(s2.layers@[i].has_idx(c));
                    assert(s3.layers@[i].entry_at(c).chunk == s0.layers@[i].entry_at(c).chunk);
                }
            }
            // the cascade clause follows from demand exactness
            assert forall|a: int, j: int, idx: ChunkIdx, c: ChunkIdx|
                0 <= a < n && 0 <= j < f.layers@[a].depends_on@.len() && f.layers@[a].has_idx(
                    idx,
                ) && #[trigger] covered(
                    dep_bounds(
                        idx,
                        f.layers@[a].chunk_size,
                        f.layers@[a].depends_on@[j].spec_padding(),
                    ),
                    f.layers@[f.layers@[a].depends_on@[j].spec_layer_id().0 as int].chunk_size,
                    c,
                ) implies f.layers@[f.layers@[a].depends_on@[j].spec_layer_id().0 as int]
                .has_idx(c) by {
                let ti = f.layers@[a].depends_on@[j].spec_layer_id().0 as int;
                assert(f.layers@[a].same_shape(s0.layers@[a]));
                assert(f.layers@[a].depends_on == s0.layers@[a].depends_on);
                assert(layer_deps_known(s0.layers@[a], n));
                assert(s0.layers@[a].depends_on@[j].spec_layer_id().0 < n);
                assert(0 <= ti < n);
                assert(f.footprint(a, idx));
                assert(f.cascade_source(a, ti, c));
                assert(f.cascade_demand(ti, c));
                assert(f.layers@[ti].has_idx(c));
            }
        }
    }
}

} // verus!
