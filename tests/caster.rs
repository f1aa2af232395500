use raycasting::caster::{cast_ray, HitRecord, Side};
use raycasting::grid::{Direction, GridMap, Point};
use raycasting::projector::distance_floor;

fn map_with(rows: usize, columns: usize, tile: u64, walls: &[(usize, usize)]) -> GridMap {
    let mut cells = vec![false; rows * columns];
    for &(r, c) in walls {
        cells[r * columns + c] = true;
    }
    GridMap::new(rows, columns, tile, cells).unwrap()
}

fn hit_x(h: &HitRecord) -> f64 {
    h.x_num as f64 / h.t_den as f64
}

fn hit_y(h: &HitRecord) -> f64 {
    h.y_num as f64 / h.t_den as f64
}

#[test]
fn straight_up_into_single_cell() {
    let map = map_with(1, 1, 64, &[(0, 0)]);
    let h = cast_ray(&map, Point { x: 32, y: 96 }, Direction { dx: 0, dy: -1 });
    assert_eq!(h.side, Side::Horizontal);
    assert_eq!((h.t_num, h.t_den), (32, 1));
    assert_eq!((h.x_num, h.y_num), (32, 64));
    assert_eq!(h.offset_num, 32);
    assert_eq!(distance_floor(&h, Direction { dx: 0, dy: -1 }), 32);
}

#[test]
fn straight_up_with_longer_direction_vector() {
    let map = map_with(1, 1, 64, &[(0, 0)]);
    let h = cast_ray(&map, Point { x: 32, y: 96 }, Direction { dx: 0, dy: -5 });
    assert_eq!(h.side, Side::Horizontal);
    assert_eq!(hit_x(&h), 32.0);
    assert_eq!(hit_y(&h), 64.0);
    assert_eq!(h.offset_num / h.t_den, 32);
    assert_eq!(distance_floor(&h, Direction { dx: 0, dy: -5 }), 32);
}

#[test]
fn single_wall_hit_on_near_edge() {
    let map = map_with(3, 3, 64, &[(1, 1)]);
    // from the centre of cell (1, 0) towards the centre of cell (1, 1)
    let h = cast_ray(&map, Point { x: 32, y: 96 }, Direction { dx: 1, dy: 0 });
    assert_eq!(h.side, Side::Vertical);
    assert_eq!(hit_x(&h), 64.0);
    assert_eq!(hit_y(&h), 96.0);
    assert!(h.offset_num < 64 * h.t_den);
    assert_eq!(h.offset_num, 32);
    // from the centre of cell (0, 1) straight down
    let h = cast_ray(&map, Point { x: 96, y: 32 }, Direction { dx: 0, dy: 1 });
    assert_eq!(h.side, Side::Horizontal);
    assert_eq!((hit_x(&h), hit_y(&h)), (96.0, 64.0));
    assert_eq!(h.offset_num, 32);
}

#[test]
fn empty_map_hits_top_edge() {
    let map = map_with(4, 5, 64, &[]);
    let h = cast_ray(&map, Point { x: 100, y: 70 }, Direction { dx: 3, dy: -2 });
    assert_eq!(h.side, Side::Horizontal);
    assert_eq!((h.t_num, h.t_den), (70, 2));
    assert_eq!((h.x_num, h.y_num), (410, 0));
    assert_eq!(h.offset_num, 26);
}

#[test]
fn empty_map_every_direction_ends_on_boundary() {
    let map = map_with(4, 5, 64, &[]);
    let (w, hgt) = (320i64, 256i64);
    let origins = [
        (100i64, 70i64),
        (1, 1),
        (319, 255),
        (64, 128),
        (160, 128),
        (0, 100),
        (320, 0),
        (320, 256),
        (0, 0),
        (200, 256),
    ];
    for &(x, y) in &origins {
        for dx in -3i64..=3 {
            for dy in -3i64..=3 {
                if dx == 0 && dy == 0 {
                    continue;
                }
                let h = cast_ray(&map, Point { x, y }, Direction { dx, dy });
                let den = h.t_den as i64;
                assert!(0 <= h.x_num && h.x_num <= w * den);
                assert!(0 <= h.y_num && h.y_num <= hgt * den);
                assert!(
                    h.x_num == 0 || h.x_num == w * den || h.y_num == 0 || h.y_num == hgt * den
                );
                let interior = 0 < x && x < w && 0 < y && y < hgt;
                assert!(h.t_num > 0 || !interior);
            }
        }
    }
}

#[test]
fn angle_zero_keeps_height() {
    let map = map_with(4, 5, 64, &[]);
    let h = cast_ray(&map, Point { x: 100, y: 70 }, Direction { dx: 1, dy: 0 });
    assert_eq!(h.side, Side::Vertical);
    assert_eq!(hit_y(&h), 70.0);
    assert_eq!(hit_x(&h), 320.0);
    let h = cast_ray(&map, Point { x: 100, y: 70 }, Direction { dx: 7, dy: 0 });
    assert_eq!(h.y_num, 70 * h.t_den as i64);
}

#[test]
fn origin_on_grid_lines_sees_touching_walls() {
    let map = map_with(3, 3, 64, &[(1, 0), (1, 2), (0, 1), (2, 1)]);
    let cases = [
        ((1i64, 0i64), 64u64),
        ((-1, 0), 0),
        ((0, 1), 64),
        ((0, -1), 0),
        ((1, 1), 128),
        ((-1, -1), 64),
    ];
    for &((dx, dy), t) in &cases {
        let h = cast_ray(&map, Point { x: 64, y: 64 }, Direction { dx, dy });
        assert_eq!((h.t_num, h.t_den), (t, 1));
    }
}

#[test]
fn hit_distance_is_positive_off_walls() {
    let map = map_with(3, 3, 64, &[(1, 0), (1, 2), (0, 1), (2, 1)]);
    for &(x, y) in &[(100i64, 100i64), (96, 80), (40, 150), (10, 10)] {
        for &(dx, dy) in &[(1i64, 0i64), (-1, 0), (0, 1), (0, -1), (1, 1), (-3, 2)] {
            let h = cast_ray(&map, Point { x, y }, Direction { dx, dy });
            assert!(h.t_num > 0);
        }
    }
}

#[test]
fn wall_beside_origin_on_interior_line_is_not_skipped() {
    let map = map_with(1, 2, 64, &[(0, 0)]);
    let h = cast_ray(&map, Point { x: 64, y: 32 }, Direction { dx: -1, dy: 0 });
    assert_eq!(h.side, Side::Vertical);
    assert_eq!(h.t_num, 0);
    assert_eq!((hit_x(&h), hit_y(&h)), (64.0, 32.0));
}

#[test]
fn origin_on_field_edge_stays_on_boundary() {
    let map = map_with(1, 1, 64, &[]);
    let h = cast_ray(&map, Point { x: 0, y: 32 }, Direction { dx: -1, dy: 0 });
    assert_eq!((hit_x(&h), hit_y(&h)), (0.0, 32.0));
    let h = cast_ray(&map, Point { x: 20, y: 0 }, Direction { dx: 1, dy: -1 });
    assert_eq!((hit_x(&h), hit_y(&h)), (20.0, 0.0));
    let h = cast_ray(&map, Point { x: 64, y: 64 }, Direction { dx: 1, dy: 1 });
    assert_eq!((hit_x(&h), hit_y(&h)), (64.0, 64.0));
    let h = cast_ray(&map, Point { x: 64, y: 10 }, Direction { dx: -1, dy: 0 });
    assert_eq!((hit_x(&h), hit_y(&h)), (0.0, 10.0));
}

#[test]
fn mirror_directions_give_mirrored_hits() {
    // rows 0 and 3 mirror each other about y = 128
    let map = map_with(4, 5, 64, &[(0, 3), (3, 3), (1, 4), (2, 4)]);
    let o = Point { x: 40, y: 128 };
    for &(dx, dy) in &[(3i64, 2i64), (5, 1), (1, 4), (-2, 3), (7, 0)] {
        let a = cast_ray(&map, o, Direction { dx, dy });
        let b = cast_ray(&map, o, Direction { dx, dy: -dy });
        assert_eq!(a.side, b.side);
        assert_eq!(a.t_den, b.t_den);
        assert_eq!(a.x_num, b.x_num);
        assert_eq!(a.y_num + b.y_num, 2 * 128 * a.t_den as i64);
    }
}

#[test]
fn repeated_cast_is_identical() {
    let map = map_with(4, 5, 64, &[(0, 3), (2, 1)]);
    let o = Point { x: 150, y: 90 };
    let d = Direction { dx: -11, dy: 4 };
    assert_eq!(cast_ray(&map, o, d), cast_ray(&map, o, d));
}

#[test]
fn tie_prefers_vertical() {
    // the ray passes exactly through the grid corner (64, 64)
    let map = map_with(2, 2, 64, &[(1, 1)]);
    let h = cast_ray(&map, Point { x: 32, y: 32 }, Direction { dx: 1, dy: 1 });
    assert_eq!(h.side, Side::Vertical);
    assert_eq!((hit_x(&h), hit_y(&h)), (64.0, 64.0));
}

#[test]
fn origin_outside_grid_is_stopped_at_once() {
    let map = map_with(1, 1, 64, &[]);
    let h = cast_ray(&map, Point { x: 32, y: 160 }, Direction { dx: 0, dy: -1 });
    assert_eq!((hit_x(&h), hit_y(&h)), (32.0, 128.0));
}

#[test]
fn distance_is_euclidean_and_floored() {
    let map = map_with(1, 1, 1000, &[]);
    let d = Direction { dx: 3, dy: 4 };
    let h = cast_ray(&map, Point { x: 970, y: 900 }, d);
    assert_eq!(distance_floor(&h, d), 50);
    let map = map_with(1, 1, 64, &[]);
    let d = Direction { dx: 1, dy: 1 };
    let h = cast_ray(&map, Point { x: 32, y: 32 }, d);
    assert_eq!(distance_floor(&h, d), 45);
}

#[test]
fn mirror_across_vertical_axis() {
    // columns 0 and 3, 1 and 2 mirror each other about x = 128
    let map = map_with(3, 4, 64, &[(0, 0), (0, 3), (2, 1), (2, 2)]);
    let o = Point { x: 128, y: 100 };
    for &(dx, dy) in &[(3i64, 2i64), (1, -5), (4, 1), (0, 3), (2, -1)] {
        let a = cast_ray(&map, o, Direction { dx, dy });
        let b = cast_ray(&map, o, Direction { dx: -dx, dy });
        assert_eq!(a.side, b.side);
        assert_eq!((a.t_num, a.t_den), (b.t_num, b.t_den));
        assert_eq!(a.y_num, b.y_num);
        assert_eq!(a.x_num + b.x_num, 2 * 128 * a.t_den as i64);
    }
}
