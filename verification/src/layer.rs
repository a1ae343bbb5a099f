//! Per-layer configuration and chunk cache.
//!
//! A `LayerConfig` holds one layer's identity, declared dependencies, cell
//! size, generator, and the cache itself: a mapping from chunk index to
//! `ChunkWrapper` kept as a vector with pairwise-distinct keys.  Entries are
//! created empty when demand first touches their index, filled lazily at
//! generation time, and removed once their usage counter is empty after a
//! tick.

use vstd::prelude::*;

use crate::bounds::{covered, valid_cell_size, Bounds, ChunkIdx, Point};
use crate::layer_id::{ChunkKind, LayerId};
use crate::usage::{UsageCounter, UsageStrategy};

verus! {

/// Largest padding component a dependency may declare; keeps padded cell
/// rectangles within `i64`.
pub const MAX_PADDING: i64 = 0x4000_0000;

/// A declared dependency of a layer on another layer's output, with the
/// spatial margin applied when translating a chunk's cell rectangle into a
/// demand region on the dependency.
#[derive(Debug, Clone, Copy)]
pub struct Dependency {
    pub layer_id: LayerId,
    pub padding: Point,
}

impl Dependency {
    pub open spec fn spec_layer_id(self) -> LayerId {
        self.layer_id
    }

    pub open spec fn spec_padding(self) -> Point {
        self.padding
    }

    pub fn new(layer_id: LayerId, padding: Point) -> (r: Dependency)
        ensures
            r.spec_layer_id() == layer_id,
            r.spec_padding() == padding,
    {
        Dependency { layer_id, padding }
    }

    pub fn get_layer_id(&self) -> (r: LayerId)
        ensures
            r == self.spec_layer_id(),
    {
        self.layer_id
    }

    pub fn get_padding(&self) -> (r: Point)
        ensures
            r == self.spec_padding(),
    {
        self.padding
    }
}

/// A dependency's padding is non-negative and within the supported range.
pub open spec fn padding_ok(d: Dependency) -> bool {
    0 <= d.spec_padding().x <= MAX_PADDING && 0 <= d.spec_padding().y <= MAX_PADDING
}

/// One cache entry: the payload, if it has been generated, and the usage
/// counts that decide its fate at the end of the tick.
#[derive(Debug)]
pub struct ChunkWrapper<P> {
    pub chunk: Option<P>,
    pub usage_counter: UsageCounter,
}

impl<P> ChunkWrapper<P> {
    pub fn new() -> (r: Self)
        ensures
            r.chunk is None,
            r.usage_counter == UsageCounter::empty(),
    {
        ChunkWrapper { chunk: None, usage_counter: UsageCounter::new() }
    }

    pub fn get_chunk(&self) -> (r: Option<&P>)
        ensures
            match r {
                Some(p) => self.chunk == Some(*p),
                None => self.chunk is None,
            },
    {
        self.chunk.as_ref()
    }
}

/// The cell rectangle of index `c` under cell size `s`, as `to_bounds`
/// computes it.
pub open spec fn cell_bounds(c: ChunkIdx, s: Point) -> Bounds {
    Bounds {
        min: Point {
            x: ((c.x as int) * (s.x as int)) as i64,
            y: ((c.y as int) * (s.y as int)) as i64,
        },
        max: Point {
            x: ((c.x as int + 1) * (s.x as int)) as i64,
            y: ((c.y as int + 1) * (s.y as int)) as i64,
        },
    }
}

/// The demand rectangle that a cached index `c` of a layer with cell size
/// `s` places on a dependency with padding `pad`.
pub open spec fn dep_bounds(c: ChunkIdx, s: Point, pad: Point) -> Bounds {
    Bounds {
        min: Point {
            x: (cell_bounds(c, s).min.x - pad.x) as i64,
            y: (cell_bounds(c, s).min.y - pad.y) as i64,
        },
        max: Point {
            x: (cell_bounds(c, s).max.x + pad.x) as i64,
            y: (cell_bounds(c, s).max.y + pad.y) as i64,
        },
    }
}

/// One layer: identity, declared payload kind, dependencies, cell size,
/// generator value, chunk cache, and the indices evicted in the last tick.
pub struct LayerConfig<P, G> {
    pub layer_id: LayerId,
    pub kind: ChunkKind,
    pub depends_on: Vec<Dependency>,
    pub chunk_size: Point,
    pub storage: Vec<(ChunkIdx, ChunkWrapper<P>)>,
    pub generator: G,
    pub deleted: Vec<ChunkIdx>,
}

impl<P, G> LayerConfig<P, G> {
    /// Some cache entry is keyed by `c`.
    pub open spec fn has_idx(self, c: ChunkIdx) -> bool {
        exists|k: int| 0 <= k < self.storage@.len() && self.storage@[k].0 == c
    }

    /// The slot holding key `c` (meaningful when `has_idx(c)` and keys are
    /// distinct).
    pub open spec fn slot_of(self, c: ChunkIdx) -> int {
        choose|k: int| 0 <= k < self.storage@.len() && self.storage@[k].0 == c
    }

    /// The entry keyed by `c`.
    pub open spec fn entry_at(self, c: ChunkIdx) -> ChunkWrapper<P> {
        self.storage@[self.slot_of(c)].1
    }

    /// The set of cached indices.
    pub open spec fn cached(self) -> Set<ChunkIdx> {
        Set::new(|c: ChunkIdx| self.has_idx(c))
    }

    /// Cache keys are pairwise distinct.
    pub open spec fn storage_nodup(self) -> bool {
        forall|i: int, j: int|
            0 <= i < j < self.storage@.len() ==> self.storage@[i].0 != self.storage@[j].0
    }

    /// Cell size and declared paddings are within the supported ranges.
    pub open spec fn shape_ok(self) -> bool {
        &&& valid_cell_size(self.chunk_size)
        &&& forall|j: int|
            0 <= j < self.depends_on@.len() ==> #[trigger] padding_ok(self.depends_on@[j])
    }

    pub open spec fn wf(self) -> bool {
        self.storage_nodup() && self.shape_ok()
    }

    /// The identity, dependencies, cell size, kind and generator of the two
    /// configurations agree; only cache contents and the eviction report may
    /// differ.
    pub open spec fn same_shape(self, other: Self) -> bool {
        &&& self.layer_id == other.layer_id
        &&& self.kind == other.kind
        &&& self.depends_on == other.depends_on
        &&& self.chunk_size == other.chunk_size
        &&& self.generator == other.generator
    }

    /// The demand pair that cached slot `i` and dependency `j` produce.
    pub open spec fn req_pair(self, i: int, j: int) -> (LayerId, Bounds) {
        (
            self.depends_on@[j].spec_layer_id(),
            dep_bounds(self.storage@[i].0, self.chunk_size, self.depends_on@[j].spec_padding()),
        )
    }

    /// `pr` is the demand pair of some cached slot and declared dependency.
    pub open spec fn is_req_pair(self, pr: (LayerId, Bounds)) -> bool {
        exists|i: int, j: int|
            0 <= i < self.storage@.len() && 0 <= j < self.depends_on@.len() && pr
                == #[trigger] self.req_pair(i, j)
    }

    /// The demand pair of slot `i` and dependency `j` occurs in `rs`.
    pub open spec fn req_present(self, rs: Seq<(LayerId, Bounds)>, i: int, j: int) -> bool {
        exists|t: int| 0 <= t < rs.len() && #[trigger] rs[t] == self.req_pair(i, j)
    }

    pub proof fn lemma_slot(self, c: ChunkIdx, k: int)
        requires
            self.storage_nodup(),
            0 <= k < self.storage@.len(),
            self.storage@[k].0 == c,
        ensures
            self.has_idx(c),
            self.slot_of(c) == k,
    {
        assert(self.has_idx(c));
        let k2 = self.slot_of(c);
        if k2 != k {
            if k2 < k {
                assert(self.storage@[k2].0 != self.storage@[k].0);
            } else {
                assert(self.storage@[k].0 != self.storage@[k2].0);
            }
        }
    }

    /// Find the slot of key `c`, if one exists.
    pub fn find_slot(&self, c: ChunkIdx) -> (r: Option<usize>)
        ensures
            match r {
                Some(k) => k < self.storage@.len() && self.storage@[k as int].0 == c,
                None => !self.has_idx(c),
            },
    {
        let n = self.storage.len();
        let mut k: usize = 0;
        while k < n
            invariant
                k <= n,
                n == self.storage@.len(),
                forall|t: int| 0 <= t < k ==> self.storage@[t].0 != c,
            decreases n - k,
        {
            if self.storage[k].0.x == c.x && self.storage[k].0.y == c.y {
                return Some(k);
            }
            k = k + 1;
        }
        None
    }

    /// Create the entry for `c` if it is absent, then raise its usage count
    /// for `tier` by one.
    pub fn touch(&mut self, c: ChunkIdx, tier: UsageStrategy)
        requires
            old(self).wf(),
        ensures
            final(self).wf(),
            final(self).same_shape(*old(self)),
            final(self).deleted == old(self).deleted,
            forall|d: ChunkIdx| final(self).has_idx(d) <==> old(self).has_idx(d) || d == c,
            final(self).entry_at(c).chunk == (if old(self).has_idx(c) {
                old(self).entry_at(c).chunk
            } else {
                None::<P>
            }),
            final(self).entry_at(c).usage_counter == (if old(self).has_idx(c) {
                old(self).entry_at(c).usage_counter
            } else {
                UsageCounter::empty()
            }).bumped(tier),
            forall|d: ChunkIdx|
                d != c && old(self).has_idx(d) ==> final(self).entry_at(d) == old(self).entry_at(d),
    {
        let found = self.find_slot(c);
        match found {
            Some(k) => {
                proof {
                    old(self).lemma_slot(c, k as int);
                }
                let e = &mut self.storage[k];
                e.1.usage_counter.bump(tier);
                proof {
                    assert(self.storage@ =~= old(self).storage@.update(
                        k as int,
                        self.storage@[k as int],
                    ));
                    assert(self.storage@[k as int].0 == c);
                    assert forall|d: ChunkIdx|
                        self.has_idx(d) <==> (old(self).has_idx(d) || d == c) by {
                        if self.has_idx(d) {
                            let t = self.slot_of(d);
                            assert(old(self).storage@[t].0 == self.storage@[t].0);
                            assert(old(self).has_idx(d));
                        }
                        if old(self).has_idx(d) {
                            let t = old(self).slot_of(d);
                            assert(self.storage@[t].0 == d);
                            assert(self.has_idx(d));
                        }
                    }
                    self.lemma_slot(c, k as int);
                    assert forall|d: ChunkIdx|
                        d != c && old(self).has_idx(d) implies self.entry_at(d)
                        == old(self).entry_at(d) by {
                        let t = old(self).slot_of(d);
                        old(self).lemma_slot(d, t);
                        self.lemma_slot(d, t);
                    }
                }
            },
            None => {
                let mut u = UsageCounter::new();
                u.bump(tier);
                let ghost prev = self.storage@;
                self.storage.push((c, ChunkWrapper { chunk: None, usage_counter: u }));
                proof {
                    assert forall|i: int, j: int|
                        0 <= i < j < self.storage@.len() implies self.storage@[i].0
                        != self.storage@[j].0 by {
                        if j == prev.len() {
                            assert(self.storage@[i].0 == prev[i].0);
                            if prev[i].0 == c {
                                old(self).lemma_slot(c, i);
                            }
                        } else {
                            assert(self.storage@[i].0 == prev[i].0 && self.storage@[j].0
                                == prev[j].0);
                        }
                    }
                    self.lemma_slot(c, prev.len() as int);
                    assert forall|d: ChunkIdx|
                        self.has_idx(d) <==> (old(self).has_idx(d) || d == c) by {
                        if self.has_idx(d) && d != c {
                            let t = self.slot_of(d);
                            if t < prev.len() {
                                assert(prev[t].0 == d);
                                assert(old(self).has_idx(d));
                            }
                        }
                        if old(self).has_idx(d) {
                            let t = old(self).slot_of(d);
                            assert(self.storage@[t].0 == d);
                        }
                    }
                    assert forall|d: ChunkIdx|
                        d != c && old(self).has_idx(d) implies self.entry_at(d)
                        == old(self).entry_at(d) by {
                        let t = old(self).slot_of(d);
                        old(self).lemma_slot(d, t);
                        self.lemma_slot(d, t);
                    }
                }
            },
        }
    }

    /// For every index covered by `bounds` under this layer's cell size:
    /// create the entry if absent, then raise its usage count for `tier`.
    /// Entry payloads are never changed, and entries outside the coverage
    /// are untouched, so repeating the call changes counts but not the set
    /// of entries.
    pub fn ensure_generated(&mut self, bounds: &Bounds, tier: UsageStrategy)
        requires
            old(self).wf(),
        ensures
            final(self).wf(),
            final(self).same_shape(*old(self)),
            final(self).deleted == old(self).deleted,
            forall|d: ChunkIdx|
                final(self).has_idx(d) <==> old(self).has_idx(d) || covered(
                    *bounds,
                    old(self).chunk_size,
                    d,
                ),
            forall|d: ChunkIdx|
                covered(*bounds, old(self).chunk_size, d) ==> (#[trigger] final(self).entry_at(d).chunk == (if old(self).has_idx(d) {
                    old(self).entry_at(d).chunk
                } else {
                    None::<P>
                }) && final(self).entry_at(d).usage_counter == (if old(self).has_idx(d) {
                    old(self).entry_at(d).usage_counter
                } else {
                    UsageCounter::empty()
                }).bumped(tier)),
            forall|d: ChunkIdx|
                !covered(*bounds, old(self).chunk_size, d) && old(self).has_idx(d)
                    ==> #[trigger] final(self).entry_at(d) == old(self).entry_at(d),
    {
        let cov: Vec<ChunkIdx> = bounds.chunks(self.chunk_size);
        let n = cov.len();
        let mut t: usize = 0;
        while t < n
            invariant
                t <= n,
                n == cov@.len(),
                self.wf(),
                self.same_shape(*old(self)),
                self.deleted == old(self).deleted,
                cov@.no_duplicates(),
                forall|d: ChunkIdx| cov@.contains(d) <==> covered(*bounds, old(self).chunk_size, d),
                forall|d: ChunkIdx|
                    self.has_idx(d) <==> old(self).has_idx(d) || cov@.subrange(0, t as int)
                        .contains(d),
                forall|d: ChunkIdx|
                    cov@.subrange(0, t as int).contains(d) ==> (#[trigger] self.entry_at(d).chunk
                        == (if old(self).has_idx(d) {
                        old(self).entry_at(d).chunk
                    } else {
                        None::<P>
                    }) && self.entry_at(d).usage_counter == (if old(self).has_idx(d) {
                        old(self).entry_at(d).usage_counter
                    } else {
                        UsageCounter::empty()
                    }).bumped(tier)),
                forall|d: ChunkIdx|
                    !cov@.subrange(0, t as int).contains(d) && old(self).has_idx(d)
                        ==> #[trigger] self.entry_at(d) == old(self).entry_at(d),
            decreases n - t,
        {
            let c = cov[t];
            let ghost before = *self;
            proof {
                assert(!cov@.subrange(0, t as int).contains(c));
            }
            self.touch(c, tier);
            proof {
                assert forall|d: ChunkIdx|
                    cov@.subrange(0, t as int + 1).contains(d) <==> (cov@.subrange(0, t as int)
                        .contains(d) || d == c) by {
                    let pre = cov@.subrange(0, t as int);
                    let cur = cov@.subrange(0, t as int + 1);
                    if cur.contains(d) {
                        let k = choose|k: int| 0 <= k < cur.len() && cur[k] == d;
                        if k < t {
                            assert(pre[k] == d);
                        } else {
                            assert(d == cov@[t as int]);
                        }
                    }
                    if pre.contains(d) {
                        let k = choose|k: int| 0 <= k < pre.len() && pre[k] == d;
                        assert(cur[k] == d);
                    }
                    if d == c {
                        assert(cur[t as int] == d);
                    }
                }
            }
            t = t + 1;
        }
        proof {
            assert(cov@.subrange(0, n as int) =~= cov@);
        }
    }

    /// Zero every entry's usage counter.
    pub fn clear_usage(&mut self)
        requires
            old(self).wf(),
        ensures
            final(self).wf(),
            final(self).same_shape(*old(self)),
            final(self).deleted == old(self).deleted,
            forall|d: ChunkIdx| final(self).has_idx(d) <==> old(self).has_idx(d),
            forall|d: ChunkIdx|
                old(self).has_idx(d) ==> (#[trigger] final(self).entry_at(d).chunk == old(self).entry_at(d).chunk && final(self).entry_at(d).usage_counter
                    == UsageCounter::empty()),
    {
        let n = self.storage.len();
        let mut k: usize = 0;
        while k < n
            invariant
                k <= n,
                n == self.storage@.len(),
                self.storage@.len() == old(self).storage@.len(),
                self.same_shape(*old(self)),
                self.deleted == old(self).deleted,
                forall|t: int| 0 <= t < n ==> self.storage@[t].0 == old(self).storage@[t].0,
                forall|t: int|
                    0 <= t < k ==> (#[trigger] self.storage@[t].1.chunk == old(self).storage@[t].1.chunk && self.storage@[t].1.usage_counter
                        == UsageCounter::empty()),
                forall|t: int| k <= t < n ==> #[trigger] self.storage@[t].1 == old(self).storage@[t].1,
            decreases n - k,
        {
            let e = &mut self.storage[k];
            e.1.usage_counter.clear();
            k = k + 1;
        }
        proof {
            assert(self.storage_nodup()) by {
                assert forall|i: int, j: int|
                    0 <= i < j < self.storage@.len() implies self.storage@[i].0
                    != self.storage@[j].0 by {
                    assert(old(self).storage@[i].0 != old(self).storage@[j].0);
                }
            }
            assert forall|d: ChunkIdx| self.has_idx(d) <==> old(self).has_idx(d) by {
                if self.has_idx(d) {
                    let t = self.slot_of(d);
                    assert(old(self).storage@[t].0 == d);
                }
                if old(self).has_idx(d) {
                    let t = old(self).slot_of(d);
                    assert(self.storage@[t].0 == d);
                }
            }
            assert forall|d: ChunkIdx| old(self).has_idx(d) implies (#[trigger] final(self).entry_at(d).chunk == old(self).entry_at(d).chunk && self.entry_at(
                d,
            ).usage_counter == UsageCounter::empty()) by {
                let t = old(self).slot_of(d);
                old(self).lemma_slot(d, t);
                self.lemma_slot(d, t);
            }
        }
    }

    /// Forget the previous tick's eviction report.
    pub fn clear_deleted(&mut self)
        ensures
            final(self).same_shape(*old(self)),
            final(self).storage == old(self).storage,
            final(self).deleted@.len() == 0,
    {
        self.deleted.clear();
    }

    /// A flat position strictly before `(i, j)` in row-major order stays
    /// strictly before it after flattening with row width `m`.
    proof fn lemma_flat_index_before(i2: int, j2: int, i: int, j: int, m: int)
        requires
            0 <= j2 < m,
            0 <= i2,
            0 <= j,
            i2 < i || (i2 == i && j2 < j),
        ensures
            i2 * m + j2 < i * m + j,
    {
        assert(i2 * m + j2 < i * m + j) by (nonlinear_arith)
            requires
                0 <= j2 < m,
                0 <= i2,
                0 <= j,
                i2 < i || (i2 == i && j2 < j),
        ;
    }

    /// The demand this layer's current cache places on its dependencies:
    /// exactly one `(dependency id, padded cell rectangle)` pair for every
    /// cached index and declared dependency, in storage-major order;
    /// overlapping rectangles are not merged.
    pub fn requirements(&self) -> (r: Vec<(LayerId, Bounds)>)
        requires
            self.wf(),
        ensures
            forall|t: int| 0 <= t < r@.len() ==> self.is_req_pair(#[trigger] r@[t]),
            forall|i: int, j: int|
                0 <= i < self.storage@.len() && 0 <= j < self.depends_on@.len()
                    ==> #[trigger] self.req_present(r@, i, j),
            r@.len() == self.storage@.len() * self.depends_on@.len(),
            forall|i: int, j: int|
                0 <= i < self.storage@.len() && 0 <= j < self.depends_on@.len()
                    ==> r@[i * (self.depends_on@.len() as int) + j] == #[trigger] self.req_pair(
                    i,
                    j,
                ),
    {
        let mut r: Vec<(LayerId, Bounds)> = Vec::new();
        let n = self.storage.len();
        let m = self.depends_on.len();
        let mut i: usize = 0;
        while i < n
            invariant
                i <= n,
                n == self.storage@.len(),
                m == self.depends_on@.len(),
                self.wf(),
                forall|t: int| 0 <= t < r@.len() ==> self.is_req_pair(#[trigger] r@[t]),
                forall|i2: int, j2: int|
                    0 <= i2 < i && 0 <= j2 < m ==> #[trigger] self.req_present(r@, i2, j2),
                r@.len() == i * m,
                forall|i2: int, j2: int|
                    0 <= i2 < i && 0 <= j2 < m ==> r@[i2 * (m as int) + j2]
                        == #[trigger] self.req_pair(i2, j2),
            decreases n - i,
        {
            let idx: ChunkIdx = self.storage[i].0;
            let mut j: usize = 0;
            while j < m
                invariant
                    i < n,
                    j <= m,
                    n == self.storage@.len(),
                    m == self.depends_on@.len(),
                    self.wf(),
                    idx == self.storage@[i as int].0,
                    forall|t: int| 0 <= t < r@.len() ==> self.is_req_pair(#[trigger] r@[t]),
                    forall|i2: int, j2: int|
                        0 <= i2 < i && 0 <= j2 < m ==> #[trigger] self.req_present(
                            r@,
                            i2,
                            j2,
                        ),
                    forall|j2: int|
                        0 <= j2 < j ==> #[trigger] self.req_present(r@, i as int, j2),
                    r@.len() == i * m + j,
                    forall|i2: int, j2: int|
                        0 <= j2 < m && 0 <= i2 && (i2 < i || (i2 == i && j2 < j))
                            ==> r@[i2 * (m as int) + j2] == #[trigger] self.req_pair(i2, j2),
                decreases m - j,
            {
                let dep = self.depends_on[j];
                let b: Bounds = idx.to_bounds(self.chunk_size.x, self.chunk_size.y);
                proof {
                    assert(padding_ok(self.depends_on@[j as int]));
                    crate::bounds::lemma_idx_cell_product(idx.x as int, self.chunk_size.x as int);
                    crate::bounds::lemma_idx_cell_product(idx.x as int + 1, self.chunk_size.x as int);
                    crate::bounds::lemma_idx_cell_product(idx.y as int, self.chunk_size.y as int);
                    crate::bounds::lemma_idx_cell_product(idx.y as int + 1, self.chunk_size.y as int);
                }
                let padded: Bounds = b.add_padding(dep.get_padding());
                let pair = (dep.get_layer_id(), padded);
                proof {
                    assert(pair == self.req_pair(i as int, j as int));
                }
                let ghost prev = r@;
                r.push(pair);
                proof {
                    assert(r@[prev.len() as int] == self.req_pair(i as int, j as int));
                    assert(self.is_req_pair(r@[prev.len() as int]));
                    assert forall|t: int| 0 <= t < r@.len() implies self.is_req_pair(
                        #[trigger] r@[t]) by {
                        if t < prev.len() {
                            assert(r@[t] == prev[t]);
                        }
                    }
                    assert forall|i2: int, j2: int|
                        (0 <= i2 < i && 0 <= j2 < m) || (i2 == i && 0 <= j2
                            < j) implies #[trigger] self.req_present(r@, i2, j2) by {
                        assert(self.req_present(prev, i2, j2));
                        let t = choose|t: int|
                            0 <= t < prev.len() && #[trigger] prev[t] == self.req_pair(
                                i2,
                                j2,
                            );
                        assert(r@[t] == self.req_pair(i2, j2));
                    }
                    assert(self.req_present(r@, i as int, j as int));
                    assert(r@.len() == i * m + j + 1);
                    assert forall|i2: int, j2: int|
                        0 <= j2 < m && 0 <= i2 && (i2 < i || (i2 == i && j2 < j
                            + 1)) implies r@[i2 * (m as int) + j2] == #[trigger] self.req_pair(
                        i2,
                        j2,
                    ) by {
                        if i2 == i && j2 == j {
                            assert(r@[i2 * (m as int) + j2] == r@[prev.len() as int]);
                        } else {
                            Self::lemma_flat_index_before(i2, j2, i as int, j as int, m as int);
                            assert(r@[i2 * (m as int) + j2] == prev[i2 * (m as int) + j2]);
                        }
                    }
                }
                j = j + 1;
            }
            proof {
                assert(i * m + m == (i + 1) * m) by (nonlinear_arith);
            }
            i = i + 1;
        }
        r
    }

    /// The cached indices whose best tier is `Fast` and whose payload is
    /// still missing: the indices to generate this tick.
    pub fn pending_indices(&self) -> (r: Vec<ChunkIdx>)
        requires
            self.wf(),
        ensures
            forall|c: ChunkIdx|
                r@.contains(c) <==> self.has_idx(c) && self.entry_at(c).usage_counter
                    .spec_best_usage() == Some(UsageStrategy::Fast) && self.entry_at(c).chunk
                    is None,
            r@.no_duplicates(),
    {
        let mut r: Vec<ChunkIdx> = Vec::new();
        let n = self.storage.len();
        let mut k: usize = 0;
        while k < n
            invariant
                k <= n,
                n == self.storage@.len(),
                self.wf(),
                forall|c: ChunkIdx|
                    r@.contains(c) <==> exists|t: int|
                        0 <= t < k && self.storage@[t].0 == c && self.storage@[t].1.usage_counter
                            .spec_best_usage() == Some(UsageStrategy::Fast)
                            && self.storage@[t].1.chunk is None,
                r@.no_duplicates(),
            decreases n - k,
        {
            let e = &self.storage[k];
            let is_fast = match e.1.usage_counter.best_usage() {
                Some(UsageStrategy::Fast) => true,
                _ => false,
            };
            let missing = e.1.chunk.is_none();
            if is_fast && missing {
                let ghost prev = r@;
                proof {
                    if prev.contains(e.0) {
                        let t = choose|t: int|
                            0 <= t < k && self.storage@[t].0 == e.0
                                && self.storage@[t].1.usage_counter.spec_best_usage() == Some(
                                UsageStrategy::Fast,
                            ) && self.storage@[t].1.chunk is None;
                        assert(self.storage@[t].0 == self.storage@[k as int].0);
                        assert(false);
                    }
                }
                r.push(e.0);
                proof {
                    crate::bounds::lemma_push_nodup(prev, e.0);
                    assert forall|c: ChunkIdx|
                        r@.contains(c) <==> exists|t: int|
                            0 <= t < k + 1 && self.storage@[t].0 == c
                                && self.storage@[t].1.usage_counter.spec_best_usage() == Some(
                                UsageStrategy::Fast,
                            ) && self.storage@[t].1.chunk is None by {
                        if r@.contains(c) {
                            let u = choose|u: int| 0 <= u < r@.len() && r@[u] == c;
                            if u < prev.len() {
                                assert(prev[u] == c);
                                assert(prev.contains(c));
                                let t = choose|t: int|
                                    0 <= t < k && self.storage@[t].0 == c
                                        && self.storage@[t].1.usage_counter.spec_best_usage()
                                        == Some(UsageStrategy::Fast)
                                        && self.storage@[t].1.chunk is None;
                                assert(0 <= t < k + 1 && self.storage@[t].0 == c
                                    && self.storage@[t].1.usage_counter.spec_best_usage()
                                    == Some(UsageStrategy::Fast) && self.storage@[t].1.chunk
                                    is None);
                            } else {
                                assert(c == self.storage@[k as int].0);
                                assert(0 <= k < k + 1 && self.storage@[k as int].0 == c
                                    && self.storage@[k as int].1.usage_counter
                                    .spec_best_usage() == Some(UsageStrategy::Fast)
                                    && self.storage@[k as int].1.chunk is None);
                            }
                        }
                        if exists|t: int|
                            0 <= t < k + 1 && self.storage@[t].0 == c
                                && self.storage@[t].1.usage_counter.spec_best_usage() == Some(
                                UsageStrategy::Fast,
                            ) && self.storage@[t].1.chunk is None {
                            let t = choose|t: int|
                                0 <= t < k + 1 && self.storage@[t].0 == c
                                    && self.storage@[t].1.usage_counter.spec_best_usage()
                                    == Some(UsageStrategy::Fast) && self.storage@[t].1.chunk
                                    is None;
                            if t < k {
                                assert(prev.contains(c));
                                let u = choose|u: int| 0 <= u < prev.len() && prev[u] == c;
                                assert(r@[u] == c);
                            } else {
                                assert(r@[prev.len() as int] == c);
                            }
                            assert(r@.contains(c));
                        }
                    }
                }
            } else {
                proof {
                    assert forall|c: ChunkIdx|
                        r@.contains(c) <==> exists|t: int|
                            0 <= t < k + 1 && self.storage@[t].0 == c
                                && self.storage@[t].1.usage_counter.spec_best_usage() == Some(
                                UsageStrategy::Fast,
                            ) && self.storage@[t].1.chunk is None by {
                        if exists|t: int|
                            0 <= t < k + 1 && self.storage@[t].0 == c
                                && self.storage@[t].1.usage_counter.spec_best_usage() == Some(
                                UsageStrategy::Fast,
                            ) && self.storage@[t].1.chunk is None {
                            let t = choose|t: int|
                                0 <= t < k + 1 && self.storage@[t].0 == c
                                    && self.storage@[t].1.usage_counter.spec_best_usage()
                                    == Some(UsageStrategy::Fast) && self.storage@[t].1.chunk
                                    is None;
                            assert(t < k);
                        }
                    }
                }
            }
            k = k + 1;
        }
        proof {
            assert forall|c: ChunkIdx|
                r@.contains(c) <==> (self.has_idx(c) && self.entry_at(c).usage_counter
                    .spec_best_usage() == Some(UsageStrategy::Fast) && self.entry_at(c).chunk
                    is None) by {
                if r@.contains(c) {
                    let t = choose|t: int|
                        0 <= t < n && self.storage@[t].0 == c && self.storage@[t].1.usage_counter
                            .spec_best_usage() == Some(UsageStrategy::Fast)
                            && self.storage@[t].1.chunk is None;
                    self.lemma_slot(c, t);
                }
                if self.has_idx(c) {
                    let t = self.slot_of(c);
                }
            }
        }
        r
    }

    /// The cached indices whose usage counter is empty: the indices to
    /// evict this tick.
    pub fn doomed_indices(&self) -> (r: Vec<ChunkIdx>)
        requires
            self.wf(),
        ensures
            forall|c: ChunkIdx|
                r@.contains(c) <==> self.has_idx(c) && self.entry_at(c).usage_counter
                    .spec_is_empty(),
            r@.no_duplicates(),
    {
        let mut r: Vec<ChunkIdx> = Vec::new();
        let n = self.storage.len();
        let mut k: usize = 0;
        while k < n
            invariant
                k <= n,
                n == self.storage@.len(),
                self.wf(),
                forall|c: ChunkIdx|
                    r@.contains(c) <==> exists|t: int|
                        0 <= t < k && self.storage@[t].0 == c && self.storage@[t].1.usage_counter
                            .spec_is_empty(),
                r@.no_duplicates(),
            decreases n - k,
        {
            let e = &self.storage[k];
            if e.1.usage_counter.is_empty() {
                let ghost prev = r@;
                proof {
                    if prev.contains(e.0) {
                        let t = choose|t: int|
                            0 <= t < k && self.storage@[t].0 == e.0
                                && self.storage@[t].1.usage_counter.spec_is_empty();
                        assert(self.storage@[t].0 == self.storage@[k as int].0);
                        assert(false);
                    }
                }
                r.push(e.0);
                proof {
                    crate::bounds::lemma_push_nodup(prev, e.0);
                    assert forall|c: ChunkIdx|
                        r@.contains(c) <==> exists|t: int|
                            0 <= t < k + 1 && self.storage@[t].0 == c
                                && self.storage@[t].1.usage_counter.spec_is_empty() by {
                        if r@.contains(c) {
                            let u = choose|u: int| 0 <= u < r@.len() && r@[u] == c;
                            if u < prev.len() {
                                assert(prev[u] == c);
                                assert(prev.contains(c));
                                let t = choose|t: int|
                                    0 <= t < k && self.storage@[t].0 == c
                                        && self.storage@[t].1.usage_counter.spec_is_empty();
                                assert(0 <= t < k + 1 && self.storage@[t].0 == c
                                    && self.storage@[t].1.usage_counter.spec_is_empty());
                            } else {
                                assert(c == self.storage@[k as int].0);
                                assert(0 <= k < k + 1 && self.storage@[k as int].0 == c
                                    && self.storage@[k as int].1.usage_counter.spec_is_empty());
                            }
                        }
                        if exists|t: int|
                            0 <= t < k + 1 && self.storage@[t].0 == c
                                && self.storage@[t].1.usage_counter.spec_is_empty() {
                            let t = choose|t: int|
                                0 <= t < k + 1 && self.storage@[t].0 == c
                                    && self.storage@[t].1.usage_counter.spec_is_empty();
                            if t < k {
                                assert(prev.contains(c));
                                let u = choose|u: int| 0 <= u < prev.len() && prev[u] == c;
                                assert(r@[u] == c);
                            } else {
                                assert(r@[prev.len() as int] == c);
                            }
                            assert(r@.contains(c));
                        }
                    }
                }
            } else {
                proof {
                    assert forall|c: ChunkIdx|
                        r@.contains(c) <==> exists|t: int|
                            0 <= t < k + 1 && self.storage@[t].0 == c
                                && self.storage@[t].1.usage_counter.spec_is_empty() by {
                        if exists|t: int|
                            0 <= t < k + 1 && self.storage@[t].0 == c
                                && self.storage@[t].1.usage_counter.spec_is_empty() {
                            let t = choose|t: int|
                                0 <= t < k + 1 && self.storage@[t].0 == c
                                    && self.storage@[t].1.usage_counter.spec_is_empty();
                            assert(t < k);
                        }
                    }
                }
            }
            k = k + 1;
        }
        proof {
            assert forall|c: ChunkIdx|
                r@.contains(c) <==> (self.has_idx(c) && self.entry_at(c).usage_counter
                    .spec_is_empty()) by {
                if r@.contains(c) {
                    let t = choose|t: int|
                        0 <= t < n && self.storage@[t].0 == c && self.storage@[t].1.usage_counter
                            .spec_is_empty();
                    self.lemma_slot(c, t);
                }
                if self.has_idx(c) {
                    let t = self.slot_of(c);
                }
            }
        }
        r
    }

    /// Store a generated payload in the entry keyed by `c`.
    pub fn set_chunk(&mut self, c: ChunkIdx, p: P)
        requires
            old(self).wf(),
            old(self).has_idx(c),
        ensures
            final(self).wf(),
            final(self).same_shape(*old(self)),
            final(self).deleted == old(self).deleted,
            forall|d: ChunkIdx| final(self).has_idx(d) <==> old(self).has_idx(d),
            final(self).entry_at(c).chunk == Some(p),
            final(self).entry_at(c).usage_counter == old(self).entry_at(c).usage_counter,
            forall|d: ChunkIdx|
                d != c && old(self).has_idx(d) ==> #[trigger] final(self).entry_at(d) == old(self).entry_at(d),
    {
        let found = self.find_slot(c);
        let k = found.unwrap();
        proof {
            old(self).lemma_slot(c, k as int);
        }
        let e = &mut self.storage[k];
        e.1.chunk = Some(p);
        proof {
            assert(self.storage@.len() == old(self).storage@.len());
            assert forall|t: int|
                0 <= t < self.storage@.len() implies self.storage@[t].0 == old(self).storage@[t].0 by {}
            assert(self.storage_nodup()) by {
                assert forall|i: int, j: int|
                    0 <= i < j < self.storage@.len() implies self.storage@[i].0
                    != self.storage@[j].0 by {
                    assert(old(self).storage@[i].0 != old(self).storage@[j].0);
                }
            }
            assert forall|d: ChunkIdx| self.has_idx(d) <==> old(self).has_idx(d) by {
                if self.has_idx(d) {
                    let t = self.slot_of(d);
                    assert(old(self).storage@[t].0 == d);
                }
                if old(self).has_idx(d) {
                    let t = old(self).slot_of(d);
                    assert(self.storage@[t].0 == d);
                }
            }
            self.lemma_slot(c, k as int);
            assert forall|d: ChunkIdx|
                d != c && old(self).has_idx(d) implies #[trigger] self.entry_at(d) == old(self).entry_at(d) by {
                let t = old(self).slot_of(d);
                old(self).lemma_slot(d, t);
                self.lemma_slot(d, t);
            }
        }
    }

    /// Remove the entry keyed by `c` from the cache.
    fn remove_one(&mut self, c: ChunkIdx)
        requires
            old(self).wf(),
            old(self).has_idx(c),
        ensures
            final(self).wf(),
            final(self).same_shape(*old(self)),
            final(self).deleted@ == old(self).deleted@.push(c),
            forall|d: ChunkIdx| final(self).has_idx(d) <==> old(self).has_idx(d) && d != c,
            forall|d: ChunkIdx|
                d != c && old(self).has_idx(d) ==> #[trigger] final(self).entry_at(d) == old(self).entry_at(d),
    {
        self.deleted.push(c);
        let found = self.find_slot(c);
        let k = found.unwrap();
        proof {
            old(self).lemma_slot(c, k as int);
        }
        let ghost prev = self.storage@;
        let _ = self.storage.swap_remove(k);
        proof {
            let cur = self.storage@;
            assert(cur =~= prev.update(k as int, prev[prev.len() - 1]).drop_last());
            assert forall|i: int, j: int|
                0 <= i < j < cur.len() implies cur[i].0 != cur[j].0 by {
                let pi: int = if i == k { prev.len() - 1 } else { i };
                let pj: int = if j == k { prev.len() - 1 } else { j };
                assert(cur[i] == prev[pi] && cur[j] == prev[pj]);
                if pi < pj {
                    assert(prev[pi].0 != prev[pj].0);
                } else if pj < pi {
                    assert(prev[pj].0 != prev[pi].0);
                }
            }
            assert forall|d: ChunkIdx|
                self.has_idx(d) <==> (old(self).has_idx(d) && d != c) by {
                if self.has_idx(d) {
                    let t = self.slot_of(d);
                    let pt: int = if t == k { prev.len() - 1 } else { t };
                    assert(prev[pt].0 == d);
                    old(self).lemma_slot(d, pt);
                    if d == c {
                        assert(pt == k);
                        assert(false);
                    }
                }
                if old(self).has_idx(d) && d != c {
                    let t = old(self).slot_of(d);
                    assert(prev[t].0 == d);
                    assert(t != k);
                    if t == prev.len() - 1 {
                        assert(cur[k as int].0 == d);
                    } else {
                        assert(cur[t].0 == d);
                    }
                }
            }
            assert forall|d: ChunkIdx|
                d != c && old(self).has_idx(d) implies #[trigger] self.entry_at(d) == old(self).entry_at(d) by {
                let t = old(self).slot_of(d);
                old(self).lemma_slot(d, t);
                assert(t != k);
                if t == prev.len() - 1 {
                    self.lemma_slot(d, k as int);
                } else {
                    self.lemma_slot(d, t);
                }
            }
        }
    }

    /// Remove every entry listed in `doomed` and append the removed indices
    /// to this tick's eviction report.
    pub fn evict(&mut self, doomed: &Vec<ChunkIdx>)
        requires
            old(self).wf(),
            doomed@.no_duplicates(),
            forall|t: int| 0 <= t < doomed@.len() ==> old(self).has_idx(#[trigger] doomed@[t]),
        ensures
            final(self).wf(),
            final(self).same_shape(*old(self)),
            final(self).deleted@ == old(self).deleted@ + doomed@,
            forall|d: ChunkIdx|
                (#[trigger] final(self).has_idx(d)) <==> old(self).has_idx(d)
                    && !doomed@.contains(d),
            forall|d: ChunkIdx|
                !doomed@.contains(d) && old(self).has_idx(d) ==> #[trigger] final(self).entry_at(d)
                    == old(self).entry_at(d),
    {
        let n = doomed.len();
        let mut t: usize = 0;
        while t < n
            invariant
                t <= n,
                n == doomed@.len(),
                doomed@.no_duplicates(),
                forall|u: int| 0 <= u < n ==> old(self).has_idx(#[trigger] doomed@[u]),
                self.wf(),
                self.same_shape(*old(self)),
                self.deleted@ == old(self).deleted@ + doomed@.subrange(0, t as int),
                forall|d: ChunkIdx|
                    self.has_idx(d) <==> old(self).has_idx(d) && !doomed@.subrange(0, t as int)
                        .contains(d),
                forall|d: ChunkIdx|
                    !doomed@.subrange(0, t as int).contains(d) && old(self).has_idx(d)
                        ==> #[trigger] self.entry_at(d) == old(self).entry_at(d),
            decreases n - t,
        {
            let c = doomed[t];
            proof {
                assert(!doomed@.subrange(0, t as int).contains(c)) by {
                    if doomed@.subrange(0, t as int).contains(c) {
                        let u = choose|u: int|
                            0 <= u < t && doomed@.subrange(0, t as int)[u] == c;
                        assert(doomed@[u] == doomed@[t as int]);
                    }
                }
                assert(self.has_idx(c));
            }
            self.remove_one(c);
            proof {
                assert forall|d: ChunkIdx|
                    doomed@.subrange(0, t as int + 1).contains(d) <==> (doomed@.subrange(
                        0,
                        t as int,
                    ).contains(d) || d == c) by {
                    let pre = doomed@.subrange(0, t as int);
                    let cur = doomed@.subrange(0, t as int + 1);
                    if cur.contains(d) {
                        let u = choose|u: int| 0 <= u < cur.len() && cur[u] == d;
                        if u < t {
                            assert(pre[u] == d);
                        } else {
                            assert(d == doomed@[t as int]);
                        }
                    }
                    if pre.contains(d) {
                        let u = choose|u: int| 0 <= u < pre.len() && pre[u] == d;
                        assert(cur[u] == d);
                    }
                    if d == c {
                        assert(cur[t as int] == d);
                    }
                }
                assert(self.deleted@ =~= old(self).deleted@ + doomed@.subrange(0, t as int + 1));
            }
            t = t + 1;
        }
        proof {
            assert(doomed@.subrange(0, n as int) =~= doomed@);
            assert(self.deleted@ =~= old(self).deleted@ + doomed@);
        }
    }

    pub fn get_chunk_size(&self) -> (r: Point)
        ensures
            r == self.chunk_size,
    {
        self.chunk_size
    }

    pub fn get_layer_id(&self) -> (r: LayerId)
        ensures
            r == self.layer_id,
    {
        self.layer_id
    }

    pub fn get_storage(&self) -> (r: &Vec<(ChunkIdx, ChunkWrapper<P>)>)
        ensures
            r == &self.storage,
    {
        &self.storage
    }

    pub fn get_storage_mut(&mut self) -> (r: &mut Vec<(ChunkIdx, ChunkWrapper<P>)>)
        ensures
            *r == old(self).storage,
            final(self).storage == *final(r),
            final(self).same_shape(*old(self)),
            final(self).deleted == old(self).deleted,
    {
        &mut self.storage
    }

    pub fn get_dependencies(&self) -> (r: &Vec<Dependency>)
        ensures
            r == &self.depends_on,
    {
        &self.depends_on
    }
}


/// Two configurations with the same storage hold the same entries.
pub proof fn lemma_same_storage_entries<P, G>(l1: LayerConfig<P, G>, l2: LayerConfig<P, G>)
    requires
        l1.storage == l2.storage,
        l1.storage_nodup(),
    ensures
        forall|c: ChunkIdx| #[trigger] l2.has_idx(c) <==> l1.has_idx(c),
        forall|c: ChunkIdx| l1.has_idx(c) ==> #[trigger] l2.entry_at(c) == l1.entry_at(c),
{
    assert forall|c: ChunkIdx| #[trigger] l2.has_idx(c) <==> l1.has_idx(c) by {
        if l1.has_idx(c) {
            let k = l1.slot_of(c);
            assert(l2.storage@[k].0 == c);
        }
        if l2.has_idx(c) {
            let k = l2.slot_of(c);
            assert(l1.storage@[k].0 == c);
        }
    }
    assert forall|c: ChunkIdx| l1.has_idx(c) implies #[trigger] l2.entry_at(c) == l1.entry_at(
        c,
    ) by {
        let k = l1.slot_of(c);
        l1.lemma_slot(c, k);
        l2.lemma_slot(c, k);
    }
}


/// Idempotent demand: registering the same demand rectangle twice within a
/// tick leaves the same entry set as registering it once.  `ensure_generated`
/// turns an entry set `dom` into `dom + covered_set(bounds, cell)`, so a
/// repeated call only raises usage counts and never changes the entry set.
pub proof fn lemma_ensure_generated_idempotent(dom: Set<ChunkIdx>, bounds: Bounds, cell: Point)
    ensures
        dom.union(crate::bounds::covered_set(bounds, cell)).union(
            crate::bounds::covered_set(bounds, cell),
        ) == dom.union(crate::bounds::covered_set(bounds, cell)),
{
    assert(dom.union(crate::bounds::covered_set(bounds, cell)).union(
        crate::bounds::covered_set(bounds, cell),
    ) =~= dom.union(crate::bounds::covered_set(bounds, cell)));
}

} // verus!
