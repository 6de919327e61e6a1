use sierpinski::error::ParameterError;
use sierpinski::point::{halve_sum, GridPoint, Point2, Point3};
use sierpinski::points::{generate_points, generate_points_with, next_point};

fn p(x: i64, y: i64) -> Point2 {
    Point2 { x, y }
}

fn q(x: i64, y: i64, z: i64) -> Point3 {
    Point3 { x, y, z }
}

/// The corners (-0.5, -0.5), (0.75, -0.25), (0.0, 0.5) in thousandths.
fn demo_corners() -> [Point2; 3] {
    [p(-500, -500), p(750, -250), p(0, 500)]
}

/// The seed (0.0, 0.25) in thousandths.
fn demo_seed() -> Point2 {
    p(0, 250)
}

fn tetrahedron() -> [Point3; 4] {
    [q(-1024, -1024, -1024), q(1024, -1024, -1024), q(0, 1024, -1024), q(0, 0, 1024)]
}

#[test]
fn halve_sum_rounds_down() {
    assert_eq!(halve_sum(0, 0), 0);
    assert_eq!(halve_sum(2, 4), 3);
    assert_eq!(halve_sum(3, 4), 3);
    assert_eq!(halve_sum(-3, -4), -4);
    assert_eq!(halve_sum(-1, 0), -1);
    assert_eq!(halve_sum(-1, 1), 0);
    assert_eq!(halve_sum(-1, 2), 0);
    assert_eq!(halve_sum(-2, 1), -1);
}

#[test]
fn halve_sum_has_no_overflow() {
    assert_eq!(halve_sum(i64::MAX, i64::MAX), i64::MAX);
    assert_eq!(halve_sum(i64::MIN, i64::MIN), i64::MIN);
    assert_eq!(halve_sum(i64::MAX, i64::MIN), -1);
    assert_eq!(halve_sum(i64::MIN, i64::MAX), -1);
    assert_eq!(halve_sum(i64::MAX, i64::MAX - 1), i64::MAX - 1);
    assert_eq!(halve_sum(i64::MIN, 0), -(1 << 62));
}

#[test]
fn midpoint_is_taken_coordinate_by_coordinate() {
    assert_eq!(p(-900, -700).midpoint(p(900, 0)), p(0, -350));
    assert_eq!(p(1, -1).midpoint(p(2, -2)), p(1, -2));
    assert_eq!(q(1, 2, 3).midpoint(q(3, 5, -8)), q(2, 3, -3));
    assert_eq!(p(5, 7).midpoint(p(5, 7)), p(5, 7));
    assert_eq!(p(1, 8).midpoint(p(4, 3)), p(4, 3).midpoint(p(1, 8)));
}

#[test]
fn a_simplex_has_one_corner_more_than_dimensions() {
    assert_eq!(Point2::corner_count(), 3);
    assert_eq!(Point3::corner_count(), 4);
}

#[test]
fn next_point_takes_the_draw_by_its_remainder() {
    let corners = demo_corners();
    assert_eq!(next_point(&corners, demo_seed(), 0), p(-250, -125));
    assert_eq!(next_point(&corners, demo_seed(), 1), p(375, 0));
    assert_eq!(next_point(&corners, demo_seed(), 2), p(0, 375));
    assert_eq!(next_point(&corners, demo_seed(), 3), p(-250, -125));
    assert_eq!(next_point(&corners, demo_seed(), 3000001), p(375, 0));
    let last = usize::MAX % 3;
    assert_eq!(
        next_point(&corners, demo_seed(), usize::MAX),
        demo_seed().midpoint(corners[last])
    );
}

#[test]
fn given_draws_give_the_exact_cloud() {
    let cloud = generate_points_with(&demo_corners(), demo_seed(), &[0, 1, 2, 4, 3]).unwrap();
    assert_eq!(
        cloud,
        vec![p(0, 250), p(-250, -125), p(250, -188), p(125, 156), p(437, -47), p(-32, -274)]
    );
}

#[test]
fn no_draws_give_the_seed_alone() {
    let cloud = generate_points_with(&demo_corners(), demo_seed(), &[]).unwrap();
    assert_eq!(cloud, vec![demo_seed()]);
}

#[test]
fn given_draws_in_space() {
    let cloud = generate_points_with(&tetrahedron(), q(0, 0, 0), &[3, 0, 5, 2]).unwrap();
    assert_eq!(
        cloud,
        vec![q(0, 0, 0), q(0, 0, 512), q(-512, -512, -256), q(256, -768, -640), q(128, 128, -832)]
    );
}

#[test]
fn two_points_are_the_seed_and_one_of_three_midpoints() {
    let midpoints = [p(-250, -125), p(375, 0), p(0, 375)];
    let in_units = [(-0.25, -0.125), (0.375, 0.0), (0.0, 0.375)];
    let mut seen = [false; 3];
    for _ in 0..300 {
        let cloud = generate_points(&demo_corners(), demo_seed(), 2).unwrap();
        assert_eq!(cloud.len(), 2);
        assert_eq!(cloud[0], demo_seed());
        assert_eq!((cloud[0].x as f64 / 1000.0, cloud[0].y as f64 / 1000.0), (0.0, 0.25));
        let which = midpoints.iter().position(|m| *m == cloud[1]);
        assert!(which.is_some());
        let which = which.unwrap();
        assert_eq!((cloud[1].x as f64 / 1000.0, cloud[1].y as f64 / 1000.0), in_units[which]);
        seen[which] = true;
    }
    assert_eq!(seen, [true; 3]);
}

#[test]
fn every_point_jumps_halfway_to_a_corner() {
    let corners = [p(-900 << 16, -700 << 16), p(900 << 16, 0), p(0, 750 << 16)];
    let seed = p(0, 250 << 16);
    let cloud = generate_points(&corners, seed, 5000).unwrap();
    assert_eq!(cloud.len(), 5000);
    assert_eq!(cloud[0], seed);
    for i in 1..cloud.len() {
        assert!(corners.iter().any(|c| cloud[i] == cloud[i - 1].midpoint(*c)));
    }
}

#[test]
fn doubling_gives_the_corner_back_while_sums_are_even() {
    // Coordinates that are multiples of 2^20 stay even for twenty jumps.
    let corners = [p(-5 << 20, -5 << 20), p(7 << 20, -2 << 20), p(0, 5 << 20)];
    let seed = p(0, 2 << 20);
    let cloud = generate_points(&corners, seed, 21).unwrap();
    for i in 1..cloud.len() {
        let back = p(2 * cloud[i].x - cloud[i - 1].x, 2 * cloud[i].y - cloud[i - 1].y);
        assert!(corners.contains(&back));
    }
}

#[test]
fn doubling_falls_short_by_one_on_an_odd_sum() {
    let m = p(0, 0).midpoint(p(1, -1));
    assert_eq!(m, p(0, -1));
    assert_eq!(p(2 * m.x - 0, 2 * m.y - 0), p(0, -2));
}

#[test]
fn cloud_stays_in_the_box_of_seed_and_corners() {
    let corners = demo_corners();
    let cloud = generate_points(&corners, demo_seed(), 2000).unwrap();
    for point in cloud {
        assert!(-500 <= point.x && point.x <= 750);
        assert!(-500 <= point.y && point.y <= 500);
    }
}

#[test]
fn cloud_in_space_jumps_towards_the_four_corners() {
    let corners = tetrahedron();
    let cloud = generate_points(&corners, q(0, 0, 0), 3000).unwrap();
    assert_eq!(cloud.len(), 3000);
    assert_eq!(cloud[0], q(0, 0, 0));
    let mut used = [false; 4];
    for i in 1..cloud.len() {
        let which = corners.iter().position(|c| cloud[i] == cloud[i - 1].midpoint(*c));
        assert!(which.is_some());
        used[which.unwrap()] = true;
    }
    assert_eq!(used, [true; 4]);
}

#[test]
fn count_of_zero_gives_no_points() {
    assert_eq!(generate_points(&demo_corners(), demo_seed(), 0), Ok(vec![]));
    assert_eq!(generate_points(&tetrahedron(), q(1, 2, 3), 0), Ok(vec![]));
}

#[test]
fn count_of_one_gives_the_seed() {
    assert_eq!(generate_points(&demo_corners(), demo_seed(), 1), Ok(vec![demo_seed()]));
}

#[test]
fn too_few_corners_are_refused() {
    let two = [p(0, 0), p(4, 4)];
    assert_eq!(generate_points(&two, p(1, 1), 10), Err(ParameterError::TooFewCorners));
    assert_eq!(generate_points(&two, p(1, 1), 0), Err(ParameterError::TooFewCorners));
    assert_eq!(generate_points_with(&two, p(1, 1), &[0, 1]), Err(ParameterError::TooFewCorners));
    let none: [Point2; 0] = [];
    assert_eq!(generate_points(&none, p(1, 1), 1), Err(ParameterError::TooFewCorners));
    let three = [q(0, 0, 0), q(4, 0, 0), q(0, 4, 0)];
    assert_eq!(generate_points(&three, q(1, 1, 0), 10), Err(ParameterError::TooFewCorners));
    assert_eq!(generate_points_with(&three, q(1, 1, 0), &[]), Err(ParameterError::TooFewCorners));
}

#[test]
fn more_corners_than_a_simplex_are_accepted() {
    let square = [p(0, 0), p(8, 0), p(8, 8), p(0, 8)];
    let cloud = generate_points_with(&square, p(4, 4), &[2, 3, 7]).unwrap();
    assert_eq!(cloud, vec![p(4, 4), p(6, 6), p(3, 7), p(1, 7)]);
}

#[test]
fn runs_of_the_game_differ() {
    let first = generate_points(&demo_corners(), demo_seed(), 200).unwrap();
    let differs = (0..20).any(|_| generate_points(&demo_corners(), demo_seed(), 200).unwrap() != first);
    assert!(differs);
}

#[test]
fn every_cloud_is_the_cloud_of_some_draws() {
    let corners = tetrahedron();
    let seed = q(3, -5, 7);
    let cloud = generate_points(&corners, seed, 400).unwrap();
    let draws: Vec<usize> = (1..cloud.len())
        .map(|i| corners.iter().position(|c| cloud[i] == cloud[i - 1].midpoint(*c)).unwrap())
        .collect();
    assert_eq!(draws.len() + 1, cloud.len());
    assert_eq!(generate_points_with(&corners, seed, &draws), Ok(cloud));
}

#[test]
fn draws_are_taken_in_their_order() {
    let corners = demo_corners();
    let forth = generate_points_with(&corners, demo_seed(), &[0, 1]).unwrap();
    let back = generate_points_with(&corners, demo_seed(), &[1, 0]).unwrap();
    assert_eq!(forth, vec![p(0, 250), p(-250, -125), p(250, -188)]);
    assert_eq!(back, vec![p(0, 250), p(375, 0), p(-63, -250)]);
}

/// Whether `v` lies in the triangle `a`, `b`, `c`, edges included.
fn inside(v: Point2, a: Point2, b: Point2, c: Point2) -> bool {
    let turn = |s: Point2, t: Point2, u: Point2| {
        (t.x as i128 - s.x as i128) * (u.y as i128 - s.y as i128)
            - (t.y as i128 - s.y as i128) * (u.x as i128 - s.x as i128)
    };
    let turns = [turn(a, b, v), turn(b, c, v), turn(c, a, v)];
    turns.iter().all(|t| *t >= 0) || turns.iter().all(|t| *t <= 0)
}

#[test]
fn cloud_stays_in_the_triangle_while_no_jump_is_rounded() {
    // Coordinates that are multiples of 2^39 stay even for thirty-nine jumps.
    let [a, b, c] = [p(-9 << 40, -7 << 40), p(9 << 40, 0), p(0, 15 << 39)];
    let seed = p(0, 1 << 40);
    assert!(inside(seed, a, b, c));
    for _ in 0..20 {
        let cloud = generate_points(&[a, b, c], seed, 40).unwrap();
        assert!(cloud.iter().all(|v| inside(*v, a, b, c)));
    }
}

#[test]
fn a_rounded_jump_may_leave_a_thin_triangle() {
    let [a, b, c] = [p(0, 0), p(3, 1), p(1, 3)];
    let cloud = generate_points_with(&[a, b, c], a, &[1]).unwrap();
    assert_eq!(cloud, vec![p(0, 0), p(1, 0)]);
    assert!(!inside(cloud[1], a, b, c));
}
