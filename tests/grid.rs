use raycasting::arith::{floor_div, floor_mod};
use raycasting::grid::{GridMap, Point};

#[test]
fn new_checks_sizes() {
    assert!(GridMap::new(2, 3, 64, vec![false; 6]).is_some());
    assert!(GridMap::new(2, 3, 64, vec![false; 5]).is_none());
    assert!(GridMap::new(0, 3, 64, vec![]).is_none());
    assert!(GridMap::new(2, 0, 64, vec![]).is_none());
    assert!(GridMap::new(2, 3, 0, vec![false; 6]).is_none());
    assert!(GridMap::new(4097, 1, 64, vec![false; 4097]).is_none());
}

#[test]
fn queries_follow_cells() {
    let mut cells = vec![false; 6];
    cells[1 * 3 + 2] = true;
    let m = GridMap::new(2, 3, 10, cells).unwrap();
    assert_eq!((m.rows(), m.columns(), m.tile()), (2, 3, 10));
    assert!(m.occupied(1, 2));
    assert!(!m.occupied(0, 2));
    assert!(m.blocks(1, 2));
    assert!(m.blocks(-1, 0));
    assert!(m.blocks(0, 3));
    assert!(!m.blocks(0, 0));
    assert!(m.contains(Point { x: 30, y: 20 }));
    assert!(m.contains(Point { x: 0, y: 0 }));
    assert!(!m.contains(Point { x: 31, y: 5 }));
    assert!(!m.contains(Point { x: 5, y: -1 }));
    assert!(m.is_open(Point { x: 5, y: 5 }));
    assert!(!m.is_open(Point { x: 25, y: 15 }));
    assert!(!m.is_open(Point { x: 30, y: 5 }));
}

#[test]
fn floor_division() {
    assert_eq!(floor_div(7, 2), 3);
    assert_eq!(floor_div(-7, 2), -4);
    assert_eq!(floor_div(-8, 2), -4);
    assert_eq!(floor_div(-1, 64), -1);
    assert_eq!(floor_mod(-1, 64), 63);
    assert_eq!(floor_mod(-128, 64), 0);
    assert_eq!(floor_mod(i64::MIN, 3), 1);
}

