use code_vs_zombies::{distance, integer_sqrt, is_on_course, pythagorean_theorem, Position};

#[test]
fn integer_sqrt_rounds_down() {
    assert_eq!(integer_sqrt(0), 0);
    assert_eq!(integer_sqrt(1), 1);
    assert_eq!(integer_sqrt(3), 1);
    assert_eq!(integer_sqrt(4), 2);
    assert_eq!(integer_sqrt(24), 4);
    assert_eq!(integer_sqrt(25), 5);
    assert_eq!(integer_sqrt(26), 5);
    assert_eq!(integer_sqrt(1_000_000), 1000);
}

#[test]
fn integer_sqrt_of_the_greatest_number() {
    assert_eq!(integer_sqrt(u128::MAX), u64::MAX);
    assert_eq!(integer_sqrt((u64::MAX as u128) * (u64::MAX as u128)), u64::MAX);
    assert_eq!(integer_sqrt((u64::MAX as u128) * (u64::MAX as u128) - 1), u64::MAX - 1);
}

#[test]
fn pythagorean_theorem_on_whole_triangles() {
    assert_eq!(pythagorean_theorem(3, 4), 5);
    assert_eq!(pythagorean_theorem(-3, 4), 5);
    assert_eq!(pythagorean_theorem(3, -4), 5);
    assert_eq!(pythagorean_theorem(5, 12), 13);
    assert_eq!(pythagorean_theorem(0, 0), 0);
    assert_eq!(pythagorean_theorem(0, -7), 7);
}

#[test]
fn pythagorean_theorem_rounds_down() {
    assert_eq!(pythagorean_theorem(1, 1), 1);
    assert_eq!(pythagorean_theorem(2, 2), 2);
    assert_eq!(pythagorean_theorem(10, 5), 11);
    assert_eq!(pythagorean_theorem(1000, 1000), 1414);
}

#[test]
fn pythagorean_theorem_on_the_longest_legs() {
    assert_eq!(pythagorean_theorem(i64::MIN, i64::MIN), 13_043_817_825_332_782_212);
    assert_eq!(pythagorean_theorem(i64::MAX, 0), i64::MAX as u64);
    assert_eq!(pythagorean_theorem(i64::MIN, 0), 9_223_372_036_854_775_808);
}

#[test]
fn distance_is_symmetric() {
    let a = Position(120, -45);
    let b = Position(-7000, 8999);
    assert_eq!(distance(a, b), distance(b, a));
    assert_eq!(distance(a, b), 11_510);
    let c = Position(0, 0);
    let d = Position(3, 4);
    assert_eq!(distance(c, d), 5);
    assert_eq!(distance(d, c), 5);
}

#[test]
fn distance_to_self_is_zero() {
    assert_eq!(distance(Position(0, 0), Position(0, 0)), 0);
    assert_eq!(distance(Position(16000, 9000), Position(16000, 9000)), 0);
    assert_eq!(distance(Position(i32::MIN, i32::MAX), Position(i32::MIN, i32::MAX)), 0);
}

#[test]
fn distance_across_the_whole_plane() {
    let low = Position(i32::MIN, i32::MIN);
    let high = Position(i32::MAX, i32::MAX);
    assert_eq!(distance(low, high), 6_074_000_998);
    assert_eq!(distance(high, low), 6_074_000_998);
    assert_eq!(distance(Position(i32::MIN, 0), Position(i32::MAX, 0)), 4_294_967_295);
}

#[test]
fn collision_course_straight_ahead() {
    let from = Position(0, 0);
    let next = Position(10, 0);
    assert!(is_on_course(from, next, Position(20, 0)));
    assert!(!is_on_course(from, next, Position(10, 5)));
    assert!(!is_on_course(from, next, Position(0, 0)));
}

#[test]
fn collision_course_reaches_the_target_this_turn() {
    assert!(is_on_course(Position(0, 0), Position(10, 0), Position(10, 0)));
    assert!(is_on_course(Position(3, 3), Position(6, 9), Position(6, 9)));
}

#[test]
fn collision_course_behind_or_beside() {
    let from = Position(100, 100);
    let next = Position(103, 104);
    assert!(is_on_course(from, next, Position(106, 108)));
    assert!(is_on_course(from, next, Position(400, 500)));
    assert!(!is_on_course(from, next, Position(97, 96)));
    assert!(!is_on_course(from, next, Position(106, 109)));
    assert!(!is_on_course(from, next, Position(101, 101)));
}

#[test]
fn collision_course_of_a_zombie_that_stands_still() {
    let here = Position(5, 5);
    assert!(is_on_course(here, here, Position(5, 5)));
    assert!(is_on_course(here, here, Position(-40, 900)));
}

#[test]
fn collision_course_at_the_edges_of_the_plane() {
    let low = Position(i32::MIN, i32::MIN);
    let high = Position(i32::MAX, i32::MAX);
    assert!(is_on_course(low, Position(-1, -1), high));
    assert!(!is_on_course(high, Position(-1, -1), high));
    assert!(!is_on_course(low, Position(-1, 0), high));
}
