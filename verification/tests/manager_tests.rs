use generative_chunks::bounds::{Bounds, ChunkIdx, Point};
use generative_chunks::layer::{Dependency, LayerConfig};
use generative_chunks::layer_client::LayerClient;
use generative_chunks::layer_id::{ChunkKind, LayerId};
use generative_chunks::layer_manager::{
    BuildError, Layer, LayerLookupChunk, LayersManagerBuilder,
};
use generative_chunks::usage::UsageStrategy;
use rand::{Rng, SeedableRng};

const UNIT_KIND: ChunkKind = ChunkKind(0);
const POINTS_KIND: ChunkKind = ChunkKind(1);
const VORONOI_KIND: ChunkKind = ChunkKind(2);
const COORD_KIND: ChunkKind = ChunkKind(3);

/// A featureless payload, for tests that only exercise the protocol.
#[derive(Debug, Clone, PartialEq)]
struct UnitChunk;

/// A layer that generates featureless chunks of cell size 1x1, optionally
/// depending on another layer.
struct PlainLayer {
    kind: ChunkKind,
    deps: Vec<(usize, i64)>,
}

impl Layer<UnitChunk> for PlainLayer {
    fn get_chunk_size(&self) -> Point {
        Point::new(1, 1)
    }

    fn get_kind(&self) -> ChunkKind {
        self.kind
    }

    fn get_dependencies(&self) -> Vec<Dependency> {
        self.deps
            .iter()
            .map(|&(id, pad)| Dependency::new(LayerId(id), Point::new(pad, pad)))
            .collect()
    }

    fn generate(
        &self,
        _lookup: &LayerLookupChunk<'_, UnitChunk, Self>,
        _chunk_idx: &ChunkIdx,
    ) -> UnitChunk {
        UnitChunk
    }
}

#[test]
fn test_layers_manager() {
    let manager = LayersManagerBuilder::new()
        .add_layer(PlainLayer { kind: UNIT_KIND, deps: vec![] })
        .build();
    let mut manager = match manager {
        Ok(m) => m,
        Err(_) => panic!("build failed"),
    };
    println!("{}", manager.dot_string());
    manager.regenerate();
    assert!(manager.get_all_chunks_in(LayerId(0), UNIT_KIND).is_empty());
}

#[test]
fn test_layers_manager_with_dependencies() {
    let manager = LayersManagerBuilder::new()
        .add_layer(PlainLayer { kind: UNIT_KIND, deps: vec![(1, 1)] })
        .add_layer(PlainLayer { kind: UNIT_KIND, deps: vec![] })
        .build();
    let mut manager = match manager {
        Ok(m) => m,
        Err(_) => panic!("build failed"),
    };
    println!("{}", manager.dot_string());
    manager.regenerate();
}

/// Payload carrying its own chunk coordinates.
#[derive(Debug, Clone, PartialEq)]
struct CoordChunk {
    x: i32,
    y: i32,
}

struct CoordLayer;

impl Layer<CoordChunk> for CoordLayer {
    fn get_chunk_size(&self) -> Point {
        Point::new(1, 1)
    }

    fn get_kind(&self) -> ChunkKind {
        COORD_KIND
    }

    fn get_dependencies(&self) -> Vec<Dependency> {
        vec![]
    }

    fn generate(
        &self,
        _lookup: &LayerLookupChunk<'_, CoordChunk, Self>,
        chunk_idx: &ChunkIdx,
    ) -> CoordChunk {
        CoordChunk { x: chunk_idx.x, y: chunk_idx.y }
    }
}

#[test]
fn test_layers_manager_simple_generation() {
    let manager = LayersManagerBuilder::new().add_layer(CoordLayer).build();
    let mut manager = match manager {
        Ok(m) => m,
        Err(_) => panic!("build failed"),
    };
    manager.add_layer_client(LayerClient::new(
        Point::new(0, 0),
        vec![Dependency::new(LayerId(0), Point::new(2, 2))],
        UsageStrategy::Fast,
    ));
    manager.regenerate();
    // Check if the chunk is generated correctly
    let id = LayerId(0);
    assert!(manager.get_chunk(id, COORD_KIND, Point::new(0, 0)).is_some());
    assert_eq!(manager.get_chunk(id, COORD_KIND, Point::new(0, 0)).unwrap().x, 0);
    assert_eq!(manager.get_chunk(id, COORD_KIND, Point::new(0, 0)).unwrap().y, 0);
    assert!(manager.get_chunk(id, COORD_KIND, Point::new(2, 2)).is_some());
    assert_eq!(manager.get_chunk(id, COORD_KIND, Point::new(2, 2)).unwrap().x, 2);
    assert_eq!(manager.get_chunk(id, COORD_KIND, Point::new(2, 2)).unwrap().y, 2);
    assert!(manager.get_chunk(id, COORD_KIND, Point::new(3, 3)).is_none());
    assert!(manager.get_chunk(id, COORD_KIND, Point::new(-1, -1)).is_some());
    assert_eq!(manager.get_chunk(id, COORD_KIND, Point::new(-1, -1)).unwrap().x, -1);
    assert_eq!(manager.get_chunk(id, COORD_KIND, Point::new(-1, -1)).unwrap().y, -1);
}

/// The points layer has a cell size of 5x5 and generates a single seeded
/// random point and color; the voronoi layer has a cell size of 1x1 and
/// takes the color of the closest point, with a dependency padding of 10x10
/// so it always has enough points in reach.
#[derive(Debug, Clone, PartialEq)]
enum VoronoiPayload {
    Points { point: (f32, f32), color: (u8, u8, u8) },
    Voronoi { color: (u8, u8, u8) },
}

enum VoronoiGen {
    Points,
    Voronoi,
}

impl Layer<VoronoiPayload> for VoronoiGen {
    fn get_chunk_size(&self) -> Point {
        match self {
            VoronoiGen::Points => Point::new(5, 5),
            VoronoiGen::Voronoi => Point::new(1, 1),
        }
    }

    fn get_kind(&self) -> ChunkKind {
        match self {
            VoronoiGen::Points => POINTS_KIND,
            VoronoiGen::Voronoi => VORONOI_KIND,
        }
    }

    fn get_dependencies(&self) -> Vec<Dependency> {
        match self {
            VoronoiGen::Points => vec![],
            VoronoiGen::Voronoi => vec![Dependency::new(LayerId(0), Point::new(10, 10))],
        }
    }

    fn generate(
        &self,
        lookup: &LayerLookupChunk<'_, VoronoiPayload, Self>,
        chunk_idx: &ChunkIdx,
    ) -> VoronoiPayload {
        match self {
            VoronoiGen::Points => {
                // seeded random point and color, reproducible per index
                let seed = chunk_idx.x + chunk_idx.y * 23;
                let mut random = rand::rngs::SmallRng::seed_from_u64(seed as u64);
                VoronoiPayload::Points {
                    point: (
                        random.gen_range(0.0..5.0) + chunk_idx.x as f32,
                        random.gen_range(0.0..5.0) + chunk_idx.y as f32,
                    ),
                    color: (
                        random.gen_range(0..255),
                        random.gen_range(0..255),
                        random.gen_range(0..255),
                    ),
                }
            },
            VoronoiGen::Voronoi => {
                let bounds = Bounds::from_point(chunk_idx.to_point(Point::new(1, 1)))
                    .expand(10, 10);
                let points = lookup.get_chunks_in(LayerId(0), POINTS_KIND, bounds);
                let center = (chunk_idx.x as f32 + 0.5, chunk_idx.y as f32 + 0.5);
                let closest = points
                    .iter()
                    .filter_map(|p| match p {
                        VoronoiPayload::Points { point, color } => Some((point, color)),
                        _ => None,
                    })
                    .min_by(|a, b| {
                        let a_dist = ((a.0.0 - center.0).powi(2)
                            + (a.0.1 - center.1).powi(2))
                            .sqrt();
                        let b_dist = ((b.0.0 - center.0).powi(2)
                            + (b.0.1 - center.1).powi(2))
                            .sqrt();
                        a_dist.partial_cmp(&b_dist).unwrap()
                    })
                    .unwrap();
                VoronoiPayload::Voronoi { color: *closest.1 }
            },
        }
    }
}

#[test]
fn test_layers_manager_two_layers() {
    let manager = LayersManagerBuilder::new()
        .add_layer(VoronoiGen::Points)
        .add_layer(VoronoiGen::Voronoi)
        .build();
    let mut manager = match manager {
        Ok(m) => m,
        Err(_) => panic!("build failed"),
    };
    manager.add_layer_client(LayerClient::new(
        Point::new(0, 0),
        vec![Dependency::new(LayerId(1), Point::new(8, 9))],
        UsageStrategy::Fast,
    ));
    manager.regenerate();
    // Recompute the expected answer independently: enumerate the seeded
    // points of every 5x5 cell touching the voronoi chunk's lookup
    // rectangle [-10,10]^2 (cells -3..=2 on each axis) and take the color
    // of the point closest to the chunk center (0.5, 0.5).
    let mut expected: Option<(f32, (u8, u8, u8))> = None;
    for x in -3..=2i32 {
        for y in -3..=2i32 {
            let seed = x + y * 23;
            let mut random = rand::rngs::SmallRng::seed_from_u64(seed as u64);
            let point = (
                random.gen_range(0.0..5.0) + x as f32,
                random.gen_range(0.0..5.0) + y as f32,
            );
            let color = (
                random.gen_range(0..255),
                random.gen_range(0..255),
                random.gen_range(0..255),
            );
            let dist = ((point.0 - 0.5).powi(2) + (point.1 - 0.5).powi(2)).sqrt();
            if expected.is_none() || dist < expected.unwrap().0 {
                expected = Some((dist, color));
            }
        }
    }
    let got = manager.get_chunk(LayerId(1), VORONOI_KIND, Point::new(0, 0));
    assert!(got.is_some());
    assert_eq!(
        *got.unwrap(),
        VoronoiPayload::Voronoi { color: expected.unwrap().1 },
    );
}

#[test]
fn two_layer_result_is_reproducible_across_ticks() {
    let manager = LayersManagerBuilder::new()
        .add_layer(VoronoiGen::Points)
        .add_layer(VoronoiGen::Voronoi)
        .build();
    let mut manager = match manager {
        Ok(m) => m,
        Err(_) => panic!("build failed"),
    };
    manager.add_layer_client(LayerClient::new(
        Point::new(0, 0),
        vec![Dependency::new(LayerId(1), Point::new(8, 9))],
        UsageStrategy::Fast,
    ));
    manager.regenerate();
    let first = manager.get_chunk(LayerId(1), VORONOI_KIND, Point::new(0, 0)).cloned();
    manager.regenerate();
    let second = manager.get_chunk(LayerId(1), VORONOI_KIND, Point::new(0, 0)).cloned();
    assert!(first.is_some());
    assert_eq!(first, second);
}

#[test]
fn cycle_rejected_two_layers() {
    let result = LayersManagerBuilder::new()
        .add_layer(PlainLayer { kind: UNIT_KIND, deps: vec![(1, 0)] })
        .add_layer(PlainLayer { kind: UNIT_KIND, deps: vec![(0, 0)] })
        .build();
    assert!(matches!(result, Err(BuildError::Cycle)));
}

#[test]
fn cycle_rejected_self_dependency() {
    let result = LayersManagerBuilder::new()
        .add_layer(PlainLayer { kind: UNIT_KIND, deps: vec![(0, 0)] })
        .build();
    assert!(matches!(result, Err(BuildError::Cycle)));
}

#[test]
fn cycle_rejected_transitive() {
    let result = LayersManagerBuilder::new()
        .add_layer(PlainLayer { kind: UNIT_KIND, deps: vec![(1, 0)] })
        .add_layer(PlainLayer { kind: UNIT_KIND, deps: vec![(2, 0)] })
        .add_layer(PlainLayer { kind: UNIT_KIND, deps: vec![(0, 0)] })
        .build();
    assert!(matches!(result, Err(BuildError::Cycle)));
}

#[test]
fn unknown_dependency_rejected() {
    let result = LayersManagerBuilder::new()
        .add_layer(PlainLayer { kind: UNIT_KIND, deps: vec![(5, 0)] })
        .build();
    assert!(matches!(result, Err(BuildError::UnknownDependency(LayerId(0)))));
}

/// A layer with an out-of-range cell size is refused at build time.
struct BadCellLayer;

impl Layer<UnitChunk> for BadCellLayer {
    fn get_chunk_size(&self) -> Point {
        Point::new(0, 1)
    }

    fn get_kind(&self) -> ChunkKind {
        UNIT_KIND
    }

    fn get_dependencies(&self) -> Vec<Dependency> {
        vec![]
    }

    fn generate(
        &self,
        _lookup: &LayerLookupChunk<'_, UnitChunk, Self>,
        _chunk_idx: &ChunkIdx,
    ) -> UnitChunk {
        UnitChunk
    }
}

#[test]
fn invalid_cell_size_rejected() {
    let result = LayersManagerBuilder::new().add_layer(BadCellLayer).build();
    assert!(matches!(result, Err(BuildError::InvalidLayer(LayerId(0)))));
}

#[test]
fn eviction_exactness() {
    let manager = LayersManagerBuilder::new().add_layer(CoordLayer).build();
    let mut manager = match manager {
        Ok(m) => m,
        Err(_) => panic!("build failed"),
    };
    manager.add_layer_client(LayerClient::new(
        Point::new(0, 0),
        vec![Dependency::new(LayerId(0), Point::new(1, 1))],
        UsageStrategy::Fast,
    ));
    manager.regenerate();
    // bounds [-1,1]^2 at cell 1: indices -2..=1 on each axis
    assert_eq!(manager.get_all_chunks_in(LayerId(0), COORD_KIND).len(), 16);
    assert!(manager.get_deleted_chunks(LayerId(0)).is_empty());

    // move the demand: everything old is evicted, exactly once each
    manager.clear_layer_clients();
    manager.add_layer_client(LayerClient::new(
        Point::new(10, 10),
        vec![Dependency::new(LayerId(0), Point::new(0, 0))],
        UsageStrategy::Fast,
    ));
    manager.regenerate();
    let live = manager.get_all_chunks_in(LayerId(0), COORD_KIND);
    assert_eq!(live.len(), 4);
    for (idx, _) in &live {
        assert!(9 <= idx.x && idx.x <= 10 && 9 <= idx.y && idx.y <= 10);
    }
    let deleted = manager.get_deleted_chunks(LayerId(0));
    assert_eq!(deleted.len(), 16);
    for idx in deleted.iter() {
        assert!(-2 <= idx.x && idx.x <= 1 && -2 <= idx.y && idx.y <= 1);
    }
    for i in 0..deleted.len() {
        for j in (i + 1)..deleted.len() {
            assert_ne!(deleted[i], deleted[j]);
        }
    }
}

#[test]
fn dependency_cascade() {
    // layer 1 (cell 1x1) depends on layer 0 (cell 1x1) with padding 3:
    // every covered cell of a cached layer-1 index must be cached in layer 0
    let manager = LayersManagerBuilder::new()
        .add_layer(PlainLayer { kind: UNIT_KIND, deps: vec![] })
        .add_layer(PlainLayer { kind: ChunkKind(9), deps: vec![(0, 3)] })
        .build();
    let mut manager = match manager {
        Ok(m) => m,
        Err(_) => panic!("build failed"),
    };
    manager.add_layer_client(LayerClient::new(
        Point::new(0, 0),
        vec![Dependency::new(LayerId(1), Point::new(0, 0))],
        UsageStrategy::Fast,
    ));
    manager.regenerate();
    let dependents = manager.get_all_chunks_in(LayerId(1), ChunkKind(9));
    assert!(!dependents.is_empty());
    for (idx, _) in &dependents {
        let wanted = idx.to_bounds(1, 1).add_padding(Point::new(3, 3));
        for cell in wanted.chunks(Point::new(1, 1)) {
            let pos = Point::new(cell.x as i64, cell.y as i64);
            // the cell's own corner lies inside it, so a lookup there must hit
            assert!(manager.get_chunk(LayerId(0), UNIT_KIND, pos).is_some());
        }
    }
}

#[test]
fn idempotent_demand() {
    let mut cfg: LayerConfig<UnitChunk, ()> = LayerConfig {
        layer_id: LayerId(0),
        kind: UNIT_KIND,
        depends_on: Vec::new(),
        chunk_size: Point::new(1, 1),
        storage: Vec::new(),
        generator: (),
        deleted: Vec::new(),
    };
    let b = Bounds::new(Point::new(0, 0), Point::new(2, 2));
    cfg.ensure_generated(&b, UsageStrategy::Fast);
    let once = cfg.storage.len();
    cfg.ensure_generated(&b, UsageStrategy::Fast);
    assert_eq!(cfg.storage.len(), once);
    // usage counts rose, the entry set did not
    for (_, wrapper) in cfg.storage.iter() {
        assert!(wrapper.usage_counter.should_generate_fast());
        assert_eq!(wrapper.usage_counter.fast, 2);
    }
}

#[test]
fn keep_alive_reserves_without_generating() {
    let manager = LayersManagerBuilder::new().add_layer(CoordLayer).build();
    let mut manager = match manager {
        Ok(m) => m,
        Err(_) => panic!("build failed"),
    };
    manager.add_layer_client(LayerClient::new(
        Point::new(0, 0),
        vec![Dependency::new(LayerId(0), Point::new(1, 1))],
        UsageStrategy::KeepAlive,
    ));
    manager.regenerate();
    // entries are reserved but only Fast demand generates payloads
    assert!(manager.get_all_chunks_in(LayerId(0), COORD_KIND).is_empty());
    assert!(manager.get_chunk(LayerId(0), COORD_KIND, Point::new(0, 0)).is_none());
}

#[test]
fn kind_mismatch_fails_cleanly() {
    let manager = LayersManagerBuilder::new().add_layer(CoordLayer).build();
    let mut manager = match manager {
        Ok(m) => m,
        Err(_) => panic!("build failed"),
    };
    manager.add_layer_client(LayerClient::new(
        Point::new(0, 0),
        vec![Dependency::new(LayerId(0), Point::new(1, 1))],
        UsageStrategy::Fast,
    ));
    manager.regenerate();
    assert!(manager.get_chunk(LayerId(0), COORD_KIND, Point::new(0, 0)).is_some());
    // asking for the wrong declared kind returns nothing instead of coercing
    assert!(manager.get_chunk(LayerId(0), POINTS_KIND, Point::new(0, 0)).is_none());
    assert!(manager.get_chunks_in(
        LayerId(0),
        POINTS_KIND,
        Bounds::new(Point::new(-5, -5), Point::new(5, 5)),
    )
    .is_empty());
    assert!(manager.get_all_chunks_in(LayerId(0), POINTS_KIND).is_empty());
}

#[test]
fn inactive_client_has_no_influence() {
    let manager = LayersManagerBuilder::new().add_layer(CoordLayer).build();
    let mut manager = match manager {
        Ok(m) => m,
        Err(_) => panic!("build failed"),
    };
    let mut client = LayerClient::new(
        Point::new(0, 0),
        vec![Dependency::new(LayerId(0), Point::new(1, 1))],
        UsageStrategy::Fast,
    );
    client.deactivate();
    assert!(!client.is_active());
    manager.add_layer_client(client);
    manager.regenerate();
    assert!(manager.get_all_chunks_in(LayerId(0), COORD_KIND).is_empty());
}

#[test]
fn unacceptable_client_is_refused() {
    let manager = LayersManagerBuilder::new().add_layer(CoordLayer).build();
    let mut manager = match manager {
        Ok(m) => m,
        Err(_) => panic!("build failed"),
    };
    // target layer 7 was never registered
    let bad = LayerClient::new(
        Point::new(0, 0),
        vec![Dependency::new(LayerId(7), Point::new(1, 1))],
        UsageStrategy::Fast,
    );
    assert!(!generative_chunks::layer_client::client_acceptable(&bad, 1));
    assert!(!manager.try_add_layer_client(bad));
    let good = LayerClient::new(
        Point::new(0, 0),
        vec![Dependency::new(LayerId(0), Point::new(1, 1))],
        UsageStrategy::Fast,
    );
    assert!(manager.try_add_layer_client(good));
    manager.regenerate();
    assert!(manager.get_chunk(LayerId(0), COORD_KIND, Point::new(0, 0)).is_some());
}

#[test]
fn requirements_one_pair_per_index_and_dependency() {
    let mut cfg: LayerConfig<UnitChunk, ()> = LayerConfig {
        layer_id: LayerId(2),
        kind: UNIT_KIND,
        depends_on: vec![
            Dependency::new(LayerId(0), Point::new(3, 3)),
            Dependency::new(LayerId(1), Point::new(0, 1)),
        ],
        chunk_size: Point::new(2, 2),
        storage: Vec::new(),
        generator: (),
        deleted: Vec::new(),
    };
    let b = Bounds::new(Point::new(1, 1), Point::new(3, 3));
    cfg.ensure_generated(&b, UsageStrategy::Slow);
    let stored = cfg.storage.len();
    assert!(stored > 0);
    let reqs = cfg.requirements();
    // exactly one pair per (cached index, declared dependency), in order
    assert_eq!(reqs.len(), stored * 2);
    for (i, (idx, _)) in cfg.storage.iter().enumerate() {
        let cell = idx.to_bounds(2, 2);
        assert_eq!(
            reqs[i * 2],
            (LayerId(0), cell.add_padding(Point::new(3, 3))),
        );
        assert_eq!(
            reqs[i * 2 + 1],
            (LayerId(1), cell.add_padding(Point::new(0, 1))),
        );
    }
}
