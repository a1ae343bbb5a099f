//! Spatial indexing: points and axis-aligned rectangles in world
//! coordinates, and their relation to the integer chunk grid of a layer.
//!
//! World coordinates are integers (a fixed-point view of the plane chosen by
//! the host).  A chunk index `i` of a layer with cell size `s` stands for the
//! closed cell `[i*s, (i+1)*s]` on each axis.  The set of indices covered by
//! a rectangle is exactly the set of representable indices whose cell touches
//! the rectangle, boundary contacts included.

use vstd::prelude::*;

verus! {

use vstd::arithmetic::div_mod::{
    lemma_fundamental_div_mod,
    lemma_fundamental_div_mod_converse,
};

/// Largest cell-size component a layer may use; keeps `index * cell` within `i64`.
pub const MAX_CELL_SIZE: i64 = 0x4000_0000;

/// A point in world coordinates.
#[derive(Clone, Copy, PartialEq, Eq, Structural, Debug)]
pub struct Point {
    pub x: i64,
    pub y: i64,
}

impl Point {
    pub fn new(x: i64, y: i64) -> (r: Point)
        ensures
            r == (Point { x, y }),
    {
        Point { x, y }
    }
}

/// An axis-aligned rectangle in world coordinates.
#[derive(Clone, Copy, PartialEq, Eq, Structural, Debug)]
pub struct Bounds {
    pub min: Point,
    pub max: Point,
}

/// An integer grid coordinate, scoped to one layer's cell size.
#[derive(Clone, Copy, PartialEq, Eq, Structural, Hash, Debug)]
pub struct ChunkIdx {
    pub x: i32,
    pub y: i32,
}

/// A cell size is valid when both components are positive and small enough
/// that cell corner coordinates stay within `i64`.
pub open spec fn valid_cell_size(s: Point) -> bool {
    1 <= s.x <= MAX_CELL_SIZE && 1 <= s.y <= MAX_CELL_SIZE
}

/// The cell of index `c` under cell size `s` touches the rectangle `b`
/// (boundary contacts included).
pub open spec fn covered(b: Bounds, s: Point, c: ChunkIdx) -> bool {
    &&& (c.x as int) * (s.x as int) <= b.max.x as int
    &&& b.min.x as int <= (c.x as int + 1) * (s.x as int)
    &&& (c.y as int) * (s.y as int) <= b.max.y as int
    &&& b.min.y as int <= (c.y as int + 1) * (s.y as int)
}

/// Least index whose cell reaches coordinate `m`: the unique least `i`
/// with `(i+1)*s >= m`.
pub open spec fn axis_lo(m: int, s: int) -> int {
    if m % s == 0 {
        m / s - 1
    } else {
        m / s
    }
}

/// Greatest index whose cell starts at or before `mx`.
pub open spec fn axis_hi(mx: int, s: int) -> int {
    mx / s
}

/// On one axis, the touching indices are exactly `axis_lo(m, s) ..= axis_hi(mx, s)`.
proof fn lemma_axis_range(i: int, s: int, m: int, mx: int)
    requires
        s >= 1,
    ensures
        (i * s <= mx) <==> (i <= axis_hi(mx, s)),
        (m <= (i + 1) * s) <==> (i >= axis_lo(m, s)),
{
    lemma_fundamental_div_mod(mx, s);
    lemma_fundamental_div_mod(m, s);
    assert((i * s <= mx) <==> (i <= mx / s)) by (nonlinear_arith)
        requires
            s >= 1,
            mx == s * (mx / s) + mx % s,
            0 <= mx % s < s,
    ;
    assert((m <= (i + 1) * s) <==> (i >= axis_lo(m, s))) by (nonlinear_arith)
        requires
            s >= 1,
            m == s * (m / s) + m % s,
            0 <= m % s < s,
            axis_lo(m, s) == (if m % s == 0 { m / s - 1 } else { m / s }),
    ;
}

/// A product of an index-sized factor and a cell-sized factor stays well
/// within `i64`.
pub proof fn lemma_idx_cell_product(i: int, s: int)
    requires
        -0x8000_0000 <= i <= 0x8000_0000,
        1 <= s <= MAX_CELL_SIZE as int,
    ensures
        -0x2000_0000_0000_0000 <= i * s <= 0x2000_0000_0000_0000,
{
    assert(-0x2000_0000_0000_0000 <= i * s <= 0x2000_0000_0000_0000) by (nonlinear_arith)
        requires
            -0x8000_0000 <= i <= 0x8000_0000,
            1 <= s <= 0x4000_0000,
    ;
}

/// Clamp an unbounded index to the representable range of `i32`.
pub open spec fn clamp_idx(v: int) -> int {
    if v < i32::MIN as int {
        i32::MIN as int
    } else if v > i32::MAX as int {
        i32::MAX as int
    } else {
        v
    }
}

/// Floor division of `a` by a positive `b`, computed on `i128` to avoid overflow.
fn floor_div_i128(a: i128, b: i128) -> (q: i128)
    requires
        1 <= b,
    ensures
        q == a as int / b as int,
        a >= 0 ==> 0 <= q <= a,
        a < 0 ==> a <= q <= 0,
{
    proof {
        lemma_fundamental_div_mod(a as int, b as int);
        assert((a >= 0 ==> 0 <= a as int / b as int <= a) && (a < 0 ==> a <= a as int
            / b as int <= 0)) by (nonlinear_arith)
            requires
                b >= 1,
                a as int == (b as int) * (a as int / b as int) + (a as int % b as int),
                0 <= (a as int % b as int),
                (a as int % b as int) < b as int,
        ;
    }
    a.checked_div_euclid(b).unwrap()
}

/// Euclidean remainder of `a` by a positive `b`.
fn rem_i128(a: i128, b: i128) -> (r: i128)
    requires
        1 <= b,
    ensures
        r == a as int % b as int,
{
    proof {
        lemma_fundamental_div_mod(a as int, b as int);
    }
    a.checked_rem_euclid(b).unwrap()
}

/// `axis_lo` computed exactly on `i128`.
fn axis_lo_i128(m: i64, s: i64) -> (r: i128)
    requires
        1 <= s,
    ensures
        r as int == axis_lo(m as int, s as int),
        -0x8000_0000_0000_0001i128 <= r <= 0x8000_0000_0000_0000i128,
{
    let q: i128 = floor_div_i128(m as i128, s as i128);
    let rest: i128 = rem_i128(m as i128, s as i128);
    if rest == 0 {
        q - 1
    } else {
        q
    }
}

/// `axis_hi` computed exactly on `i128`.
fn axis_hi_i128(mx: i64, s: i64) -> (r: i128)
    requires
        1 <= s,
    ensures
        r as int == axis_hi(mx as int, s as int),
        -0x8000_0000_0000_0000i128 <= r <= 0x8000_0000_0000_0000i128,
{
    floor_div_i128(mx as i128, s as i128)
}

impl Bounds {
    /// True when the rectangle is non-degenerate on both axes.
    pub open spec fn wf(self) -> bool {
        self.min.x <= self.max.x && self.min.y <= self.max.y
    }

    pub fn new(min: Point, max: Point) -> (r: Bounds)
        ensures
            r == (Bounds { min, max }),
    {
        Bounds { min, max }
    }

    /// The degenerate rectangle holding a single point.
    pub fn from_point(point: Point) -> (r: Bounds)
        ensures
            r == (Bounds { min: point, max: point }),
            r.wf(),
    {
        Bounds { min: point, max: point }
    }

    /// Whether `point` lies inside the rectangle, boundary included.
    pub fn contains(&self, point: Point) -> (r: bool)
        ensures
            r <==> (self.min.x <= point.x <= self.max.x && self.min.y <= point.y
                <= self.max.y),
    {
        point.x >= self.min.x && point.x <= self.max.x && point.y >= self.min.y && point.y
            <= self.max.y
    }

    /// Whether the two rectangles share at least one point (boundary contact counts).
    pub fn intersects(&self, other: &Bounds) -> (r: bool)
        ensures
            r <==> (self.min.x <= other.max.x && other.min.x <= self.max.x && self.min.y
                <= other.max.y && other.min.y <= self.max.y),
    {
        self.min.x <= other.max.x && other.min.x <= self.max.x && self.min.y <= other.max.y
            && other.min.y <= self.max.y
    }

    /// Grow the rectangle by a margin on each axis.
    pub fn expand(&self, x: i64, y: i64) -> (r: Bounds)
        requires
            i64::MIN <= self.min.x - x <= i64::MAX,
            i64::MIN <= self.min.y - y <= i64::MAX,
            i64::MIN <= self.max.x + x <= i64::MAX,
            i64::MIN <= self.max.y + y <= i64::MAX,
        ensures
            r.min.x == self.min.x - x,
            r.min.y == self.min.y - y,
            r.max.x == self.max.x + x,
            r.max.y == self.max.y + y,
    {
        Bounds {
            min: Point { x: self.min.x - x, y: self.min.y - y },
            max: Point { x: self.max.x + x, y: self.max.y + y },
        }
    }

    /// Grow the rectangle by a padding point (one margin per axis).
    pub fn add_padding(&self, padding: Point) -> (r: Bounds)
        requires
            i64::MIN <= self.min.x - padding.x <= i64::MAX,
            i64::MIN <= self.min.y - padding.y <= i64::MAX,
            i64::MIN <= self.max.x + padding.x <= i64::MAX,
            i64::MIN <= self.max.y + padding.y <= i64::MAX,
        ensures
            r.min.x == self.min.x - padding.x,
            r.min.y == self.min.y - padding.y,
            r.max.x == self.max.x + padding.x,
            r.max.y == self.max.y + padding.y,
    {
        self.expand(padding.x, padding.y)
    }

    /// Midpoint of the rectangle, rounded toward negative infinity.
    pub fn get_center(&self) -> (r: Point)
        requires
            self.wf(),
        ensures
            r.x == (self.min.x + self.max.x) as int / 2,
            r.y == (self.min.y + self.max.y) as int / 2,
    {
        let sx: i128 = self.min.x as i128 + self.max.x as i128;
        let sy: i128 = self.min.y as i128 + self.max.y as i128;
        let cx: i128 = floor_div_i128(sx, 2);
        let cy: i128 = floor_div_i128(sy, 2);
        Point { x: cx as i64, y: cy as i64 }
    }

    /// Translate a center by subtracting a padding, one component per axis.
    pub fn center_and_padding(center: (i64, i64), padding: (i64, i64)) -> (r: (i64, i64))
        requires
            i64::MIN <= center.0 - padding.0 <= i64::MAX,
            i64::MIN <= center.1 - padding.1 <= i64::MAX,
        ensures
            r.0 == center.0 - padding.0,
            r.1 == center.1 - padding.1,
    {
        (center.0 - padding.0, center.1 - padding.1)
    }

    /// Extend the rectangle so it also contains `point`.
    pub fn add_point(self, point: (i64, i64)) -> (r: Bounds)
        ensures
            r.min.x == (if point.0 < self.min.x { point.0 } else { self.min.x }),
            r.min.y == (if point.1 < self.min.y { point.1 } else { self.min.y }),
            r.max.x == (if point.0 > self.max.x { point.0 } else { self.max.x }),
            r.max.y == (if point.1 > self.max.y { point.1 } else { self.max.y }),
    {
        let min_x: i64 = if point.0 < self.min.x { point.0 } else { self.min.x };
        let min_y: i64 = if point.1 < self.min.y { point.1 } else { self.min.y };
        let max_x: i64 = if point.0 > self.max.x { point.0 } else { self.max.x };
        let max_y: i64 = if point.1 > self.max.y { point.1 } else { self.max.y };
        Bounds { min: Point { x: min_x, y: min_y }, max: Point { x: max_x, y: max_y } }
    }

    /// All representable chunk indices whose cell touches this rectangle:
    /// the coverage of the rectangle at cell size `chunk_size`, enumerated
    /// x-major (column by column, each column bottom to top), each index
    /// once.  Set, order and multiplicity together determine the sequence,
    /// so equal arguments give equal results.
    pub fn chunks(&self, chunk_size: Point) -> (r: Vec<ChunkIdx>)
        requires
            chunk_size.x >= 1,
            chunk_size.y >= 1,
        ensures
            forall|c: ChunkIdx| r@.contains(c) <==> covered(*self, chunk_size, c),
            r@.no_duplicates(),
            forall|t1: int, t2: int|
                0 <= t1 < t2 < r@.len() ==> idx_lex_less(
                    #[trigger] r@[t1],
                    #[trigger] r@[t2],
                ),
    {
        let lo_x128: i128 = axis_lo_i128(self.min.x, chunk_size.x);
        let hi_x128: i128 = axis_hi_i128(self.max.x, chunk_size.x);
        let lo_y128: i128 = axis_lo_i128(self.min.y, chunk_size.y);
        let hi_y128: i128 = axis_hi_i128(self.max.y, chunk_size.y);
        proof {
            assert forall|c: ChunkIdx|
                covered(*self, chunk_size, c) <==> (lo_x128 as int <= c.x as int
                    && c.x as int <= hi_x128 as int && lo_y128 as int <= c.y as int
                    && c.y as int <= hi_y128 as int) by {
                lemma_axis_range(c.x as int, chunk_size.x as int, self.min.x as int,
                    self.max.x as int);
                lemma_axis_range(c.y as int, chunk_size.y as int, self.min.y as int,
                    self.max.y as int);
            }
        }
        let mut out: Vec<ChunkIdx> = Vec::new();
        let feasible = hi_x128 >= lo_x128 && hi_y128 >= lo_y128 && hi_x128 >= i32::MIN as i128
            && lo_x128 <= i32::MAX as i128 && hi_y128 >= i32::MIN as i128 && lo_y128
            <= i32::MAX as i128;
        if feasible {
            let lo_x: i64 = if lo_x128 < i32::MIN as i128 {
                i32::MIN as i64
            } else {
                lo_x128 as i64
            };
            let hi_x: i64 = if hi_x128 > i32::MAX as i128 {
                i32::MAX as i64
            } else {
                hi_x128 as i64
            };
            let lo_y: i64 = if lo_y128 < i32::MIN as i128 {
                i32::MIN as i64
            } else {
                lo_y128 as i64
            };
            let hi_y: i64 = if hi_y128 > i32::MAX as i128 {
                i32::MAX as i64
            } else {
                hi_y128 as i64
            };
            proof {
                assert forall|c: ChunkIdx|
                    covered(*self, chunk_size, c) <==> (lo_x as int <= c.x as int
                        && c.x as int <= hi_x as int && lo_y as int <= c.y as int
                        && c.y as int <= hi_y as int) by {}
            }
            let mut x: i64 = lo_x;
            while x <= hi_x
                invariant
                    lo_x <= x <= hi_x + 1,
                    i32::MIN as int <= lo_x <= hi_x <= i32::MAX as int,
                    i32::MIN as int <= lo_y <= hi_y <= i32::MAX as int,
                    forall|c: ChunkIdx|
                        out@.contains(c) <==> (lo_x as int <= c.x as int && (c.x as int)
                            < x as int && lo_y as int <= c.y as int && c.y as int
                            <= hi_y as int),
                    out@.no_duplicates(),
                    forall|t1: int, t2: int|
                        0 <= t1 < t2 < out@.len() ==> idx_lex_less(
                            #[trigger] out@[t1],
                            #[trigger] out@[t2],
                        ),
                decreases hi_x + 1 - x,
            {
                let mut y: i64 = lo_y;
                while y <= hi_y
                    invariant
                        lo_x <= x <= hi_x,
                        lo_y <= y <= hi_y + 1,
                        i32::MIN as int <= lo_x <= hi_x <= i32::MAX as int,
                        i32::MIN as int <= lo_y <= hi_y <= i32::MAX as int,
                        forall|c: ChunkIdx|
                            out@.contains(c) <==> ((lo_x as int <= c.x as int
                                && (c.x as int) < x as int && lo_y as int <= c.y as int
                                && c.y as int <= hi_y as int) || (c.x as int == x as int
                                && lo_y as int <= c.y as int && (c.y as int)
                                < y as int)),
                        out@.no_duplicates(),
                        forall|t1: int, t2: int|
                            0 <= t1 < t2 < out@.len() ==> idx_lex_less(
                                #[trigger] out@[t1],
                                #[trigger] out@[t2],
                            ),
                    decreases hi_y + 1 - y,
                {
                    let idx = ChunkIdx { x: x as i32, y: y as i32 };
                    proof {
                        assert(idx.x as int == x as int && idx.y as int == y as int);
                        assert(!out@.contains(idx));
                    }
                    let ghost prev = out@;
                    out.push(idx);
                    proof {
                        lemma_push_nodup(prev, idx);
                        assert forall|t1: int, t2: int|
                            0 <= t1 < t2 < out@.len() implies idx_lex_less(
                            #[trigger] out@[t1],
                            #[trigger] out@[t2],
                        ) by {
                            if t2 == prev.len() {
                                assert(out@[t1] == prev[t1]);
                                assert(prev.contains(prev[t1]));
                                assert(out@[t2] == idx);
                            }
                        }
                        assert forall|c: ChunkIdx|
                            out@.contains(c) <==> ((lo_x as int <= c.x as int
                                && (c.x as int) < x as int && lo_y as int <= c.y as int
                                && c.y as int <= hi_y as int) || (c.x as int == x as int
                                && lo_y as int <= c.y as int && (c.y as int) < y as int
                                + 1)) by {
                            if out@.contains(c) {
                                let k = choose|k: int|
                                    0 <= k < out@.len() && out@[k] == c;
                                if k < prev.len() {
                                    assert(prev[k] == c);
                                    assert(prev.contains(c));
                                } else {
                                    assert(c == idx);
                                }
                            }
                            if (lo_x as int <= c.x as int && (c.x as int) < x as int
                                && lo_y as int <= c.y as int && c.y as int
                                <= hi_y as int) || (c.x as int == x as int && lo_y as int
                                <= c.y as int && (c.y as int) < y as int + 1) {
                                if c.x as int == x as int && c.y as int == y as int {
                                    assert(c == idx);
                                    assert(out@[prev.len() as int] == idx);
                                    assert(out@.contains(c));
                                } else {
                                    assert(prev.contains(c));
                                    let k = choose|k: int|
                                        0 <= k < prev.len() && prev[k] == c;
                                    assert(out@[k] == c);
                                    assert(out@.contains(c));
                                }
                            }
                        }
                    }
                    y = y + 1;
                }
                x = x + 1;
            }
        }
        out
    }
}

impl ChunkIdx {
    /// The lower corner of this index's cell: `index * cell`.
    pub fn to_point(&self, chunk_size: Point) -> (r: Point)
        requires
            valid_cell_size(chunk_size),
        ensures
            r.x == (self.x as int) * (chunk_size.x as int),
            r.y == (self.y as int) * (chunk_size.y as int),
    {
        proof {
            lemma_idx_cell_product(self.x as int, chunk_size.x as int);
            lemma_idx_cell_product(self.y as int, chunk_size.y as int);
        }
        Point { x: self.x as i64 * chunk_size.x, y: self.y as i64 * chunk_size.y }
    }

    /// The midpoint of this index's cell: `index * cell + cell / 2`.
    pub fn center(&self, chunk_size: Point) -> (r: Point)
        requires
            valid_cell_size(chunk_size),
        ensures
            r.x == (self.x as int) * (chunk_size.x as int) + (chunk_size.x as int) / 2,
            r.y == (self.y as int) * (chunk_size.y as int) + (chunk_size.y as int) / 2,
    {
        proof {
            lemma_idx_cell_product(self.x as int, chunk_size.x as int);
            lemma_idx_cell_product(self.y as int, chunk_size.y as int);
            lemma_fundamental_div_mod(chunk_size.x as int, 2);
            lemma_fundamental_div_mod(chunk_size.y as int, 2);
        }
        let hx: i64 = chunk_size.x.checked_div_euclid(2).unwrap();
        let hy: i64 = chunk_size.y.checked_div_euclid(2).unwrap();
        Point { x: self.x as i64 * chunk_size.x + hx, y: self.y as i64 * chunk_size.y + hy }
    }

    /// The closed cell rectangle of this index: `[index * cell, (index + 1) * cell]`.
    pub fn to_bounds(&self, width: i64, height: i64) -> (r: Bounds)
        requires
            1 <= width <= MAX_CELL_SIZE,
            1 <= height <= MAX_CELL_SIZE,
        ensures
            r.min.x == (self.x as int) * (width as int),
            r.min.y == (self.y as int) * (height as int),
            r.max.x == (self.x as int + 1) * (width as int),
            r.max.y == (self.y as int + 1) * (height as int),
            r.wf(),
    {
        proof {
            lemma_idx_cell_product(self.x as int, width as int);
            lemma_idx_cell_product(self.x as int + 1, width as int);
            lemma_idx_cell_product(self.y as int, height as int);
            lemma_idx_cell_product(self.y as int + 1, height as int);
            assert((self.x as int) * (width as int) <= (self.x as int + 1) * (width as int)
                && (self.y as int) * (height as int) <= (self.y as int + 1) * (
            height as int)) by (nonlinear_arith)
                requires
                    width >= 1,
                    height >= 1,
            ;
        }
        Bounds {
            min: Point { x: self.x as i64 * width, y: self.y as i64 * height },
            max: Point { x: (self.x as i64 + 1) * width, y: (self.y as i64 + 1) * height },
        }
    }

    /// The index whose cell's lower corner is at or below `pos`:
    /// `floor(pos / cell)`, clamped to the representable range.
    pub fn from_point(pos: Point, chunk_width: i64, chunk_height: i64) -> (r: ChunkIdx)
        requires
            1 <= chunk_width,
            1 <= chunk_height,
        ensures
            r.x as int == clamp_idx((pos.x as int) / (chunk_width as int)),
            r.y as int == clamp_idx((pos.y as int) / (chunk_height as int)),
    {
        let qx: i128 = floor_div_i128(pos.x as i128, chunk_width as i128);
        let qy: i128 = floor_div_i128(pos.y as i128, chunk_height as i128);
        let x: i32 = if qx < i32::MIN as i128 {
            i32::MIN
        } else if qx > i32::MAX as i128 {
            i32::MAX
        } else {
            qx as i32
        };
        let y: i32 = if qy < i32::MIN as i128 {
            i32::MIN
        } else if qy > i32::MAX as i128 {
            i32::MAX
        } else {
            qy as i32
        };
        ChunkIdx { x, y }
    }
}

/// `a` comes before `b` in the x-major enumeration of the grid: smaller
/// column first, and within a column smaller row first.
pub open spec fn idx_lex_less(a: ChunkIdx, b: ChunkIdx) -> bool {
    a.x < b.x || (a.x == b.x && a.y < b.y)
}

/// The set of representable indices whose cell touches `b` under cell
/// size `s`: what one `chunks` enumeration covers.
pub open spec fn covered_set(b: Bounds, s: Point) -> Set<ChunkIdx> {
    Set::new(|c: ChunkIdx| covered(b, s, c))
}

/// Pushing a value that a duplicate-free sequence does not yet hold keeps
/// it duplicate-free.
pub proof fn lemma_push_nodup<T>(s: Seq<T>, v: T)
    requires
        s.no_duplicates(),
        !s.contains(v),
    ensures
        s.push(v).no_duplicates(),
{
    let t = s.push(v);
    assert forall|i: int, j: int| 0 <= i < j < t.len() implies t[i] != t[j] by {
        if j == s.len() {
            assert(t[i] == s[i]);
            if t[i] == v {
                assert(s.contains(v));
            }
        } else {
            assert(t[i] == s[i] && t[j] == s[j]);
        }
    }
}

/// An x-major-sorted, duplicate-free enumeration is determined by its
/// member set: two such sequences with the same members are equal.  With
/// `chunks`' contract, two calls on equal arguments yield equal sequences.
pub proof fn lemma_lex_sorted_unique(s1: Seq<ChunkIdx>, s2: Seq<ChunkIdx>)
    requires
        forall|t1: int, t2: int|
            0 <= t1 < t2 < s1.len() ==> idx_lex_less(#[trigger] s1[t1], #[trigger] s1[t2]),
        forall|t1: int, t2: int|
            0 <= t1 < t2 < s2.len() ==> idx_lex_less(#[trigger] s2[t1], #[trigger] s2[t2]),
        forall|c: ChunkIdx| s1.contains(c) <==> s2.contains(c),
    ensures
        s1 == s2,
    decreases s1.len(),
{
    if s1.len() == 0 {
        if s2.len() > 0 {
            assert(s2.contains(s2[0]));
            assert(s1.contains(s2[0]));
        }
        assert(s1 =~= s2);
    } else {
        assert(s1.contains(s1[0]));
        assert(s2.contains(s1[0]));
        let k = choose|k: int| 0 <= k < s2.len() && s2[k] == s1[0];
        if k > 0 {
            assert(idx_lex_less(s2[0], s2[k]));
            assert(s2.contains(s2[0]));
            assert(s1.contains(s2[0]));
            let k2 = choose|k2: int| 0 <= k2 < s1.len() && s1[k2] == s2[0];
            if k2 > 0 {
                assert(idx_lex_less(s1[0], s1[k2]));
            }
            assert(false);
        }
        assert(s1[0] == s2[0]);
        let r1 = s1.subrange(1, s1.len() as int);
        let r2 = s2.subrange(1, s2.len() as int);
        assert forall|t1: int, t2: int|
            0 <= t1 < t2 < r1.len() implies idx_lex_less(
            #[trigger] r1[t1],
            #[trigger] r1[t2],
        ) by {
            assert(r1[t1] == s1[t1 + 1] && r1[t2] == s1[t2 + 1]);
        }
        assert forall|t1: int, t2: int|
            0 <= t1 < t2 < r2.len() implies idx_lex_less(
            #[trigger] r2[t1],
            #[trigger] r2[t2],
        ) by {
            assert(r2[t1] == s2[t1 + 1] && r2[t2] == s2[t2 + 1]);
        }
        assert forall|c: ChunkIdx| r1.contains(c) <==> (s1.contains(c) && c != s1[0]) by {
            if r1.contains(c) {
                let v = choose|v: int| 0 <= v < r1.len() && r1[v] == c;
                assert(s1[v + 1] == c);
                assert(idx_lex_less(s1[0], s1[v + 1]));
            }
            if s1.contains(c) && c != s1[0] {
                let v = choose|v: int| 0 <= v < s1.len() && s1[v] == c;
                assert(v > 0);
                assert(r1[v - 1] == c);
            }
        }
        assert forall|c: ChunkIdx| r2.contains(c) <==> (s2.contains(c) && c != s2[0]) by {
            if r2.contains(c) {
                let v = choose|v: int| 0 <= v < r2.len() && r2[v] == c;
                assert(s2[v + 1] == c);
                assert(idx_lex_less(s2[0], s2[v + 1]));
            }
            if s2.contains(c) && c != s2[0] {
                let v = choose|v: int| 0 <= v < s2.len() && s2[v] == c;
                assert(v > 0);
                assert(r2[v - 1] == c);
            }
        }
        lemma_lex_sorted_unique(r1, r2);
        assert(s1 =~= s2) by {
            assert(s1.len() == r1.len() + 1 && s2.len() == r2.len() + 1);
            assert forall|v: int| 0 <= v < s1.len() implies s1[v] == s2[v] by {
                if v > 0 {
                    assert(s1[v] == r1[v - 1] && s2[v] == r2[v - 1]);
                }
            }
        }
    }
}

/// Round trip: mapping an index to its cell's center and the center back to
/// an index recovers the original index, for every index and every valid
/// cell size.
pub proof fn lemma_center_round_trip(idx: ChunkIdx, s: Point)
    requires
        valid_cell_size(s),
    ensures
        clamp_idx(((idx.x as int) * (s.x as int) + (s.x as int) / 2) / (s.x as int))
            == idx.x as int,
        clamp_idx(((idx.y as int) * (s.y as int) + (s.y as int) / 2) / (s.y as int))
            == idx.y as int,
{
    lemma_axis_round_trip(idx.x as int, s.x as int);
    lemma_axis_round_trip(idx.y as int, s.y as int);
}

proof fn lemma_axis_round_trip(i: int, s: int)
    requires
        1 <= s,
        i32::MIN as int <= i <= i32::MAX as int,
    ensures
        clamp_idx((i * s + s / 2) / s) == i,
{
    lemma_fundamental_div_mod(s, 2);
    assert(0 <= s / 2 < s) by (nonlinear_arith)
        requires
            s >= 1,
            s == 2 * (s / 2) + s % 2,
            0 <= s % 2 < 2,
    ;
    lemma_fundamental_div_mod_converse(i * s + s / 2, s, i, s / 2);
}

} // verus!
