use aoc2024::robots::{safety_factor, simulate, Point, Robot, Velocity};

fn robot(x: i64, y: i64, vx: i64, vy: i64) -> Robot {
    Robot::new(Point::new(x, y), Velocity::new(vx, vy))
}

#[test]
fn robot_steps_wrap_around() {
    let mut r = robot(2, 4, 2, -3);
    r.step();
    assert_eq!(r.point, Point::new(4, 1));
    r.step();
    assert_eq!(r.point, Point::new(6, 101));
    let mut v = vec![robot(2, 4, 2, -3)];
    simulate(&mut v, 5);
    assert_eq!(v[0].point, Point::new(12, 92));
    assert_eq!(v[0].velocity, Velocity::new(2, -3));
}

#[test]
fn robot_wraps_left_edge() {
    let mut v = vec![robot(0, 0, -1, -1)];
    simulate(&mut v, 1);
    assert_eq!(v[0].point, Point::new(100, 102));
}

#[test]
fn safety_factor_multiplies_quadrants() {
    let robots = vec![
        robot(0, 0, 0, 0),
        robot(1, 1, 0, 0),
        robot(100, 0, 0, 0),
        robot(0, 102, 0, 0),
        robot(100, 102, 0, 0),
        robot(50, 50, 0, 0),
        robot(10, 51, 0, 0),
    ];
    assert_eq!(safety_factor(&robots, 0), 2);
    assert_eq!(safety_factor(&robots, 100), 2);
    assert_eq!(safety_factor(&vec![robot(0, 0, 1, 0)], 3), 0);
    // After one second the robot at (0, 0) moving left sits in the upper right.
    let moving = vec![robot(0, 0, -1, 0), robot(1, 1, 0, 0), robot(0, 102, 0, 0), robot(100, 102, 0, 0)];
    assert_eq!(safety_factor(&moving, 0), 0);
    assert_eq!(safety_factor(&moving, 1), 1);
}
