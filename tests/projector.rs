use raycasting::caster::{cast_ray, Side};
use raycasting::grid::{Direction, GridMap, Point};
use raycasting::player::{normalize_angle, Player, ViewConfig, ANGLE_TURN};
use raycasting::projector::{distance_floor, isqrt, project};

#[test]
fn strip_of_close_wall() {
    let map = GridMap::new(1, 1, 64, vec![true]).unwrap();
    let d = Direction { dx: 0, dy: -1 };
    let h = cast_ray(&map, Point { x: 32, y: 96 }, d);
    let s = project(64, &h, d, 7, 480, 1500);
    assert_eq!(s.column, 7);
    assert_eq!(s.height, 960);
    assert_eq!((s.top, s.bottom), (-240, 720));
    assert_eq!((s.offset_num, s.offset_den), (32, 1));
    assert_eq!(s.shade, 250);
    assert_eq!(s.side, Side::Horizontal);
}

#[test]
fn strip_height_uses_euclidean_distance() {
    // 3-4-5 direction: distance 50 after t = 10
    let map = GridMap::new(1, 1, 1000, vec![false]).unwrap();
    let d = Direction { dx: 3, dy: 4 };
    let h = cast_ray(&map, Point { x: 970, y: 900 }, d);
    assert_eq!((h.x_num / h.t_den as i64, h.t_num / h.t_den), (1000, 10));
    let s = project(1000, &h, d, 0, 100, 100);
    assert_eq!(s.height, 2000);
    assert_eq!((s.top, s.bottom), (-950, 1050));
    assert_eq!(s.shade, 128);
}

#[test]
fn shade_vanishes_beyond_visibility() {
    let map = GridMap::new(1, 1, 64, vec![true]).unwrap();
    let d = Direction { dx: 0, dy: -1 };
    let h = cast_ray(&map, Point { x: 32, y: 96 }, d);
    assert_eq!(project(64, &h, d, 0, 480, 10).shade, 0);
    assert_eq!(project(64, &h, d, 0, 480, 32).shade, 0);
    assert_eq!(project(64, &h, d, 0, 480, 64).shade, 128);
}

#[test]
fn strip_of_touching_wall_is_capped() {
    let map = GridMap::new(1, 2, 64, vec![true, false]).unwrap();
    let d = Direction { dx: -1, dy: 0 };
    let h = cast_ray(&map, Point { x: 64, y: 32 }, d);
    assert_eq!(h.t_num, 0);
    let s = project(64, &h, d, 3, 480, 1500);
    assert_eq!(s.height, 64 * 480);
    assert_eq!((s.top, s.bottom), (-15120, 15600));
    assert_eq!(s.shade, 256);
    assert_eq!(distance_floor(&h, d), 0);
}

#[test]
fn square_roots() {
    assert_eq!(isqrt(0), 0);
    assert_eq!(isqrt(15), 3);
    assert_eq!(isqrt(16), 4);
    assert_eq!(isqrt(u128::MAX), u64::MAX as u128);
}

#[test]
fn angles_wrap() {
    assert_eq!(normalize_angle(-1), ANGLE_TURN - 1);
    assert_eq!(normalize_angle(65536 * 3 + 5), 5);
    let mut p = Player { pos: Point { x: 0, y: 0 }, angle: 65000 };
    p.turn(1000);
    assert_eq!(p.angle, 464);
    p.turn(-465);
    assert_eq!(p.angle, 65535);
}

#[test]
fn column_angles_span_the_field_of_view() {
    let view = ViewConfig { screen_width: 4, screen_height: 100, fov: 16384, visibility: 1000 };
    let p = Player { pos: Point { x: 0, y: 0 }, angle: 0 };
    assert_eq!(p.column_angle(0, &view), 57344);
    assert_eq!(p.column_angle(2, &view), 0);
    assert_eq!(p.column_angle(3, &view), 4096);
}

#[test]
fn frame_casts_each_column() {
    let map = GridMap::new(2, 2, 64, vec![false, true, false, false]).unwrap();
    let view = ViewConfig { screen_width: 2, screen_height: 200, fov: 16384, visibility: 500 };
    let p = Player { pos: Point { x: 32, y: 32 }, angle: 0 };
    let dirs = vec![Direction { dx: 1, dy: 0 }, Direction { dx: 0, dy: 1 }];
    let strips = p.cast(&map, &view, &dirs);
    assert_eq!(strips.len(), 2);
    for (i, d) in dirs.iter().enumerate() {
        let h = cast_ray(&map, p.pos, *d);
        assert_eq!(strips[i], project(64, &h, *d, i as u64, 200, 500));
    }
    assert_eq!(strips[0].height, 400);
    assert_eq!(strips[1].height, 133);
}
