use generative_chunks::bounds::{Bounds, ChunkIdx, Point};

fn chunk_set(b: &Bounds, s: Point) -> Vec<ChunkIdx> {
    b.chunks(s)
}

#[test]
fn coverage_simple_square() {
    // bounds [-2,2]^2 at cell size 1: cells -3..=2 touch on each axis
    let b = Bounds::new(Point::new(-2, -2), Point::new(2, 2));
    let cov = chunk_set(&b, Point::new(1, 1));
    assert_eq!(cov.len(), 36);
    assert!(cov.contains(&ChunkIdx { x: 0, y: 0 }));
    assert!(cov.contains(&ChunkIdx { x: 2, y: 2 }));
    assert!(cov.contains(&ChunkIdx { x: -3, y: -3 }));
    assert!(!cov.contains(&ChunkIdx { x: 3, y: 0 }));
    assert!(!cov.contains(&ChunkIdx { x: 0, y: -4 }));
}

#[test]
fn coverage_no_duplicates() {
    let b = Bounds::new(Point::new(0, 0), Point::new(9, 4));
    let cov = chunk_set(&b, Point::new(5, 5));
    for i in 0..cov.len() {
        for j in (i + 1)..cov.len() {
            assert_ne!(cov[i], cov[j]);
        }
    }
    // x: cells -1..=1 (0 and 9 both touch a boundary), y: cells -1..=0
    assert_eq!(cov.len(), 6);
}

#[test]
fn coverage_unaligned_point() {
    // a degenerate rectangle strictly inside one cell covers only that cell
    let b = Bounds::from_point(Point::new(3, 7));
    let cov = chunk_set(&b, Point::new(5, 5));
    assert_eq!(cov, vec![ChunkIdx { x: 0, y: 1 }]);
}

#[test]
fn coverage_boundary_touch() {
    // a point on a cell corner touches all four cells around it
    let b = Bounds::from_point(Point::new(5, 5));
    let cov = chunk_set(&b, Point::new(5, 5));
    assert_eq!(cov.len(), 4);
    assert!(cov.contains(&ChunkIdx { x: 0, y: 0 }));
    assert!(cov.contains(&ChunkIdx { x: 1, y: 1 }));
    assert!(cov.contains(&ChunkIdx { x: 0, y: 1 }));
    assert!(cov.contains(&ChunkIdx { x: 1, y: 0 }));
}

#[test]
fn round_trip_center() {
    // pointToIndex(indexToCenter(i, s), s) == i
    for &(x, y) in &[(0, 0), (2, 2), (-1, -1), (17, -23), (1000, -1000)] {
        for &s in &[1i64, 2, 3, 5, 7, 16, 4096] {
            let idx = ChunkIdx { x, y };
            let cell = Point::new(s, s);
            let center = idx.center(cell);
            let back = ChunkIdx::from_point(center, s, s);
            assert_eq!(back, idx);
        }
    }
}

#[test]
fn from_point_floors() {
    assert_eq!(ChunkIdx::from_point(Point::new(2, 2), 1, 1), ChunkIdx { x: 2, y: 2 });
    assert_eq!(ChunkIdx::from_point(Point::new(-1, -1), 1, 1), ChunkIdx { x: -1, y: -1 });
    assert_eq!(ChunkIdx::from_point(Point::new(-1, 4), 5, 5), ChunkIdx { x: -1, y: 0 });
    assert_eq!(ChunkIdx::from_point(Point::new(9, 10), 5, 5), ChunkIdx { x: 1, y: 2 });
}

#[test]
fn to_bounds_is_cell() {
    let b = ChunkIdx { x: 2, y: -1 }.to_bounds(5, 5);
    assert_eq!(b.min, Point::new(10, -5));
    assert_eq!(b.max, Point::new(15, 0));
}

#[test]
fn contains_and_intersects() {
    let a = Bounds::new(Point::new(0, 0), Point::new(10, 10));
    assert!(a.contains(Point::new(0, 10)));
    assert!(a.contains(Point::new(5, 5)));
    assert!(!a.contains(Point::new(11, 5)));
    let cross_h = Bounds::new(Point::new(-5, 4), Point::new(15, 6));
    assert!(a.intersects(&cross_h));
    assert!(cross_h.intersects(&a));
    let touch = Bounds::new(Point::new(10, 10), Point::new(20, 20));
    assert!(a.intersects(&touch));
    let apart = Bounds::new(Point::new(11, 11), Point::new(20, 20));
    assert!(!a.intersects(&apart));
}

#[test]
fn expand_and_padding() {
    let a = Bounds::from_point(Point::new(3, 4)).expand(2, 1);
    assert_eq!(a.min, Point::new(1, 3));
    assert_eq!(a.max, Point::new(5, 5));
    let p = a.add_padding(Point::new(1, 1));
    assert_eq!(p.min, Point::new(0, 2));
    assert_eq!(p.max, Point::new(6, 6));
}

#[test]
fn center_and_misc() {
    let a = Bounds::new(Point::new(0, 0), Point::new(10, 5));
    assert_eq!(a.get_center(), Point::new(5, 2));
    assert_eq!(Bounds::center_and_padding((10, 10), (3, 4)), (7, 6));
    let grown = a.add_point((-2, 7));
    assert_eq!(grown.min, Point::new(-2, 0));
    assert_eq!(grown.max, Point::new(10, 7));
}

#[test]
fn coverage_enumeration_is_x_major_and_repeatable() {
    let b = Bounds::new(Point::new(-3, 1), Point::new(4, 6));
    let s = Point::new(2, 3);
    let first = b.chunks(s);
    for w in first.windows(2) {
        assert!(w[0].x < w[1].x || (w[0].x == w[1].x && w[0].y < w[1].y));
    }
    let second = b.chunks(s);
    assert_eq!(first, second);
}
