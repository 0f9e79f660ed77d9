//! Tests for the sparse grid: cell enumeration, inserts, queries and clears.
//! Coordinates are fixed-point subunits; a scale of 1000 subunits per world
//! unit is used throughout, so tile size 1 is `SparseGrid2d<1000>` and tile
//! size 10 is `SparseGrid2d<10000>`.

use sparse_grid_2d::cell::{Aabb, CellKey, Point};
use sparse_grid_2d::grid::SparseGrid2d;
use sparse_grid_2d::keys::KeyIter;

fn pt(x: i64, y: i64) -> Point {
    Point { x, y }
}

fn aabb(min_x: i64, min_y: i64, max_x: i64, max_y: i64) -> Aabb {
    Aabb { min: pt(min_x, min_y), max: pt(max_x, max_y) }
}

fn key(x: i64, y: i64) -> CellKey {
    CellKey { x, y }
}

fn collect_keys(mut it: KeyIter) -> Vec<CellKey> {
    let mut keys = Vec::new();
    while let Some(k) = it.next() {
        keys.push(k);
    }
    keys
}

#[test]
fn keys_single() {
    let keys = collect_keys(KeyIter::new::<1000>(aabb(1, 1, 1, 1)));
    assert_eq!(keys.len(), 1);
    assert_eq!(keys[0], key(0, 0));
}

#[test]
fn keys_four_around_origin() {
    let keys = collect_keys(KeyIter::new::<1000>(aabb(-1, -1, 1, 1)));
    assert!(keys.contains(&key(0, 0)));
    assert!(keys.contains(&key(0, -1)));
    assert!(keys.contains(&key(-1, 0)));
    assert!(keys.contains(&key(-1, -1)));
    assert_eq!(keys.len(), 4);
}

#[test]
fn matches() {
    let entity: u64 = 123;
    let mut db: SparseGrid2d<1000> = Default::default();
    db.insert_aabb(aabb(-1, -1, 1, 1), entity);

    let matches = db.aabb_iter(aabb(1, 1, 1, 1));
    assert_eq!(matches.len(), 1);
    assert_eq!(matches[0], entity);
}

#[test]
fn key_negative() {
    let keys = collect_keys(KeyIter::new::<1000>(aabb(-500, -500, -500, -500)));
    assert!(keys.contains(&key(-1, -1)));
    assert_eq!(keys.len(), 1);
}

#[test]
fn query_points() {
    let mut db: SparseGrid2d<1000> = Default::default();
    let e1: u64 = 1;
    let e2: u64 = 2;
    db.insert_point(pt(500, 500), e1);
    db.insert_point(pt(499, 501), e2);

    let matches = db.point_iter(pt(499, 501));
    assert!(matches.contains(&e1));
    assert!(matches.contains(&e2));
    assert_eq!(matches.len(), 2);
}

#[test]
fn query_points_negative() {
    let mut db: SparseGrid2d<1000> = Default::default();
    let e1: u64 = 1;
    let e2: u64 = 2;
    db.insert_point(pt(500, 500), e1);
    db.insert_point(pt(-500, -500), e2);

    let matches = db.point_iter(pt(-500, -500));
    assert!(!matches.contains(&e1));
    assert!(matches.contains(&e2));
    assert_eq!(matches.len(), 1);
}

#[test]
fn matches_complex() {
    let h: i64 = 500;
    let e1: u64 = 1;
    let e2: u64 = 2;
    let e3: u64 = 3;
    let mut db: SparseGrid2d<1000> = Default::default();
    db.insert_aabb(aabb(-h, -h, h, h), e1);
    db.insert_aabb(aabb(h, h, h, h), e2);
    db.insert_aabb(aabb(-h, -h, -h, -h), e3);

    let matches = db.aabb_iter(aabb(-h, -h, h, h));
    assert!(matches.contains(&e1));
    assert!(matches.contains(&e2));
    assert!(matches.contains(&e3));

    let matches = db.query_aabb(aabb(-1, -1, -1, -1));
    assert_eq!(matches.len(), 2);
    assert!(matches.contains(&e1));
    assert!(matches.contains(&e3));

    let matches = db.aabb_iter(aabb(-1, -1, -1, -1));
    assert_eq!(matches[0], e1);
}

#[test]
fn query_points_tilesize_10() {
    let mut db: SparseGrid2d<10000> = Default::default();
    let e1: u64 = 1;
    let e2: u64 = 2;
    let e3: u64 = 3;
    db.insert_point(pt(12000, 15000), e1);
    db.insert_point(pt(15000, 12000), e2);
    db.insert_point(pt(15000, 20000), e3);
    let matches = db.point_iter(pt(19900, 19900));
    assert!(matches.contains(&e1));
    assert!(matches.contains(&e2));
    assert!(!matches.contains(&e3));
    assert_eq!(matches.len(), 2);
}

#[test]
fn keys_degenerate_on_corner_empty() {
    // A degenerate box whose corner is an exact multiple of the tile size:
    // floor and ceiling agree, the key rectangle has zero extent, and the
    // enumeration is empty.
    let keys = collect_keys(KeyIter::new::<1000>(aabb(0, 0, 0, 0)));
    assert_eq!(keys.len(), 0);
    let keys = collect_keys(KeyIter::new::<1000>(aabb(2000, -3000, 2000, -3000)));
    assert_eq!(keys.len(), 0);
}

#[test]
fn negative_key_mapping() {
    // Tile size 1 (scale 1000): -0.5 maps to cell -1, 0.5 maps to cell 0.
    assert_eq!(SparseGrid2d::<1000>::key_from_point(pt(-500, -500)), key(-1, -1));
    assert_eq!(SparseGrid2d::<1000>::key_from_point(pt(500, 500)), key(0, 0));
}

#[test]
fn point_round_trip_exactly_once() {
    let mut db: SparseGrid2d<1000> = Default::default();
    db.insert_point(pt(250, 750), 42);
    let matches = db.point_iter(pt(250, 750));
    assert_eq!(matches, vec![42]);
}

#[test]
fn aabb_insert_covers_point_query() {
    let mut db: SparseGrid2d<1000> = Default::default();
    // Spans cells (-1..=0) x (-1..=0).
    db.insert_aabb(aabb(-800, -700, 600, 900), 9);
    for p in [pt(-800, -700), pt(-1, -1), pt(0, 0), pt(600, 900), pt(999, 999)] {
        let matches = db.point_iter(p);
        assert_eq!(matches, vec![9]);
    }
}

#[test]
fn dedup_multi_cell() {
    let mut db: SparseGrid2d<1000> = Default::default();
    // Spans 4 cells, so the id is stored once per cell.
    db.insert_aabb(aabb(-500, -500, 500, 500), 7);
    let with_duplicates = db.aabb_iter(aabb(-500, -500, 500, 500));
    assert_eq!(with_duplicates, vec![7, 7, 7, 7]);
    let deduplicated = db.query_aabb(aabb(-500, -500, 500, 500));
    assert_eq!(deduplicated, vec![7]);
}

#[test]
fn duplicate_inserts_kept() {
    let mut db: SparseGrid2d<1000> = Default::default();
    db.insert_point(pt(100, 100), 5);
    db.insert_point(pt(200, 200), 5);
    let matches = db.point_iter(pt(150, 150));
    assert_eq!(matches, vec![5, 5]);
}

#[test]
fn query_empty_grid() {
    let db: SparseGrid2d<1000> = Default::default();
    assert!(db.point_iter(pt(0, 0)).is_empty());
    assert!(db.aabb_iter(aabb(-1500, -1500, 1500, 1500)).is_empty());
    assert!(db.query_aabb(aabb(-1500, -1500, 1500, 1500)).is_empty());
}

#[test]
fn clear_then_empty() {
    let mut db: SparseGrid2d<1000> = Default::default();
    db.insert_point(pt(500, 500), 1);
    db.insert_aabb(aabb(-500, -500, 500, 500), 2);
    assert!(!db.point_iter(pt(500, 500)).is_empty());
    db.clear();
    assert!(db.point_iter(pt(500, 500)).is_empty());
    assert!(db.aabb_iter(aabb(-500, -500, 500, 500)).is_empty());
    assert!(db.query_aabb(aabb(-500, -500, 500, 500)).is_empty());
}

#[test]
fn soft_clear_then_empty() {
    let mut db: SparseGrid2d<1000> = Default::default();
    db.insert_point(pt(500, 500), 1);
    db.insert_aabb(aabb(-500, -500, 500, 500), 2);
    db.soft_clear();
    assert!(db.point_iter(pt(500, 500)).is_empty());
    assert!(db.aabb_iter(aabb(-500, -500, 500, 500)).is_empty());
    assert!(db.query_aabb(aabb(-500, -500, 500, 500)).is_empty());
    // The grid stays usable after a soft clear.
    db.insert_point(pt(500, 500), 3);
    assert_eq!(db.point_iter(pt(500, 500)), vec![3]);
}

#[test]
fn insertion_order_preserved() {
    let mut db: SparseGrid2d<1000> = Default::default();
    db.insert_point(pt(10, 10), 30);
    db.insert_point(pt(20, 20), 10);
    db.insert_point(pt(30, 30), 20);
    assert_eq!(db.point_iter(pt(0, 0)), vec![30, 10, 20]);
}
