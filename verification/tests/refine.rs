//! Cleanup, improvements and the validity checker.

use hightower::refine::{cleanup, improve_extension, improve_probe, validate_path};
use hightower::{Bounds, ObstacleSet, Point, Segment};

fn p(x: i64, y: i64) -> Point {
    Point::new(x, y)
}

#[test]
fn cleanup_removes_collinear_and_overshoot() {
    let mut path = vec![
        p(0, 0),
        p(5, 0),
        p(10, 0),
        p(10, 5),
        p(10, 5),
        p(10, 3),
        p(20, 3),
    ];
    cleanup(&mut path);
    assert_eq!(path, vec![p(0, 0), p(10, 0), p(10, 3), p(20, 3)]);
}

#[test]
fn cleanup_handles_backtracking_overshoot() {
    let mut path = vec![p(0, 0), p(10, 0), p(4, 0), p(4, 7)];
    cleanup(&mut path);
    assert_eq!(path, vec![p(0, 0), p(4, 0), p(4, 7)]);
}

#[test]
fn extension_shortcut_removes_detour() {
    let obstacles = ObstacleSet::new(Bounds::new(p(0, 0), p(100, 100)));
    // A detour: up, right, down, right, up, right
    let mut path = vec![
        p(0, 0),
        p(0, 20),
        p(30, 20),
        p(30, 5),
        p(60, 5),
        p(60, 20),
        p(90, 20),
    ];
    assert!(improve_extension(&obstacles, &mut path));
    assert_eq!(path, vec![p(0, 0), p(0, 20), p(90, 20)]);
    assert!(validate_path(&obstacles, p(0, 0), p(90, 20), &path).is_ok());
}

#[test]
fn probe_removes_u_turn_bulge() {
    let obstacles = ObstacleSet::new(Bounds::new(p(0, 0), p(100, 100)));
    // Goes right to x=10, up, back left to x=4, then up again.
    let mut path = vec![p(0, 0), p(10, 0), p(10, 10), p(4, 10), p(4, 20)];
    assert!(!improve_extension(&obstacles, &mut path));
    assert!(improve_probe(&obstacles, &mut path));
    assert_eq!(path, vec![p(0, 0), p(4, 0), p(4, 20)]);
    assert!(validate_path(&obstacles, p(0, 0), p(4, 20), &path).is_ok());
}

#[test]
fn probe_leaves_monotone_staircase_alone() {
    let obstacles = ObstacleSet::new(Bounds::new(p(0, 0), p(100, 100)));
    let mut path = vec![
        p(0, 0),
        p(10, 0),
        p(10, 10),
        p(20, 10),
        p(20, 20),
        p(30, 20),
    ];
    assert!(!improve_probe(&obstacles, &mut path));
    assert_eq!(path.len(), 6);
}

#[test]
fn validator_rejects_bad_paths() {
    let mut obstacles = ObstacleSet::new(Bounds::new(p(0, 0), p(100, 100)));
    obstacles.add_segment(Segment::vertical(50, 0, 80));
    assert!(validate_path(&obstacles, p(10, 10), p(90, 10), &[p(10, 10), p(90, 10)]).is_err());
    assert!(
        validate_path(
            &obstacles,
            p(10, 10),
            p(90, 10),
            &[p(10, 10), p(50, 90), p(90, 10)]
        )
        .is_err()
    );
    assert!(
        validate_path(
            &obstacles,
            p(10, 10),
            p(90, 10),
            &[p(10, 10), p(10, 90), p(90, 90), p(90, 10)]
        )
        .is_ok()
    );
}
