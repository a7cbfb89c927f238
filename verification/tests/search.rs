use depth_mask::geometry::Dimensions;
use depth_mask::geometry::Position;
use depth_mask::helpers;

fn sample_array() -> Vec<Vec<u16>> {
    vec![vec![0u16, 1, 2], vec![3, 4, 5], vec![6, 7, 8]]
}

fn found_distance(r: Option<(u32, Position)>) -> Option<u32> {
    r.map(|(d, _)| d)
}

#[test]
fn relative_pos_test() {
    assert_eq!(
        helpers::relative_pos(
            Position::new(5, 5),
            Dimensions::new(10, 10),
            Dimensions::new(20, 20)
        ),
        Position::new(10, 10)
    );
}

#[test]
fn distance_dot_dot_test() {
    assert_eq!(
        helpers::distance_dot_dot(Position::new(0, 0), Position::new(1, 0)),
        1
    );
    assert_eq!(
        helpers::distance_dot_dot(Position::new(0, 0), Position::new(1, 1)),
        1
    );
    assert_eq!(
        helpers::distance_dot_dot(Position::new(0, 0), Position::new(2, 2)),
        2
    );
    assert_eq!(
        helpers::distance_dot_dot(Position::new(0, 0), Position::new(2, 3)),
        3
    );
}

#[test]
fn distance_dot_array_test() {
    let arr = sample_array();
    assert_eq!(
        found_distance(helpers::distance_dot_array(&0, &arr, Position::new(0, 0), 10, 1)),
        Some(0)
    );
    assert_eq!(
        found_distance(helpers::distance_dot_array(&0, &arr, Position::new(1, 1), 10, 1)),
        Some(1)
    );
    assert_eq!(
        found_distance(helpers::distance_dot_array(&0, &arr, Position::new(2, 2), 10, 1)),
        Some(2)
    );
    assert_eq!(
        found_distance(helpers::distance_dot_array(&0, &arr, Position::new(2, 2), 1, 1)),
        None
    );
    assert_eq!(
        found_distance(helpers::distance_dot_array(&0, &arr, Position::new(22, 22), 100, 1)),
        None
    );
}

#[test]
fn search_with_exact_tolerance() {
    let arr = sample_array();
    assert_eq!(
        helpers::distance_dot_array(&0, &arr, Position::new(0, 0), 10, 0),
        Some((0, Position::new(0, 0)))
    );
    assert_eq!(
        helpers::distance_dot_array(&0, &arr, Position::new(1, 1), 10, 0),
        Some((1, Position::new(0, 0)))
    );
    assert_eq!(
        helpers::distance_dot_array(&0, &arr, Position::new(2, 2), 1, 0),
        None
    );
}

#[test]
fn search_over_no_ring_finds_nothing() {
    let arr = sample_array();
    assert_eq!(
        helpers::distance_dot_array(&4, &arr, Position::new(1, 1), 0, 0),
        None
    );
    assert_eq!(
        helpers::distance_dot_array(&4, &arr, Position::new(1, 1), 1, 0),
        Some((0, Position::new(1, 1)))
    );
}

#[test]
fn search_outside_the_array_finds_nothing() {
    let arr = sample_array();
    assert_eq!(
        helpers::distance_dot_array(&8, &arr, Position::new(50, 50), 40, 255),
        None
    );
    let empty: Vec<Vec<u16>> = Vec::new();
    assert_eq!(
        helpers::distance_dot_array(&8, &empty, Position::new(0, 0), 40, 255),
        None
    );
}

#[test]
fn search_is_repeatable() {
    let arr = sample_array();
    let first = helpers::distance_dot_array(&5, &arr, Position::new(0, 2), 10, 0);
    let second = helpers::distance_dot_array(&5, &arr, Position::new(0, 2), 10, 0);
    assert_eq!(first, second);
    assert_eq!(first, Some((2, Position::new(2, 1))));
}

#[test]
fn search_takes_first_match_not_best() {
    // From (1, 1) with tolerance 2, ring 1 is walked row y = 2 first: 6 at
    // (0, 2) is within 2 of 8 and is met before the exact 8 at (2, 2).
    let arr = sample_array();
    assert_eq!(
        helpers::distance_dot_array(&8, &arr, Position::new(1, 1), 10, 2),
        Some((1, Position::new(0, 2)))
    );
}

#[test]
fn search_walks_rows_before_columns() {
    // Ring 1 about (1, 1): the lower row, then the upper row, then the
    // right column, then the left column.
    let arr: Vec<Vec<u16>> = vec![vec![0, 9, 0], vec![9, 0, 9], vec![0, 0, 0]];
    assert_eq!(
        helpers::distance_dot_array(&9, &arr, Position::new(1, 1), 10, 0),
        Some((1, Position::new(1, 0)))
    );
    let arr: Vec<Vec<u16>> = vec![vec![0, 0, 0], vec![9, 0, 9], vec![0, 0, 0]];
    assert_eq!(
        helpers::distance_dot_array(&9, &arr, Position::new(1, 1), 10, 0),
        Some((1, Position::new(2, 1)))
    );
}

#[test]
fn search_handles_ragged_rows() {
    let arr: Vec<Vec<u16>> = vec![vec![1], vec![1, 1, 7], vec![]];
    assert_eq!(
        helpers::distance_dot_array(&7, &arr, Position::new(0, 0), 10, 0),
        Some((2, Position::new(2, 1)))
    );
}

#[test]
fn search_on_colour_pixels() {
    let arr: Vec<Vec<[u8; 3]>> = vec![
        vec![[0, 0, 0], [10, 10, 10]],
        vec![[100, 100, 100], [10, 20, 30]],
    ];
    assert_eq!(
        helpers::distance_dot_array(&[12, 18, 33], &arr, Position::new(0, 0), 5, [2, 2, 3]),
        Some((1, Position::new(1, 1)))
    );
    assert_eq!(
        helpers::distance_dot_array(&[12, 18, 33], &arr, Position::new(0, 0), 5, [2, 1, 3]),
        None
    );
}

#[test]
fn search_with_a_distance_floor() {
    let arr = sample_array();
    assert_eq!(
        helpers::distance_dot_array_floored(&0, &arr, Position::new(1, 1), 10, 0, 0),
        Some((1, Position::new(0, 0)))
    );
    assert_eq!(
        helpers::distance_dot_array_floored(&0, &arr, Position::new(1, 1), 10, 0, 1),
        Some((1, Position::new(0, 0)))
    );
    assert_eq!(
        helpers::distance_dot_array_floored(&0, &arr, Position::new(1, 1), 10, 0, 2),
        None
    );
}

#[test]
fn distance_is_rounded_down_and_held() {
    assert_eq!(
        helpers::distance_dot_dot(Position::new(3, 4), Position::new(0, 0)),
        5
    );
    assert_eq!(
        helpers::distance_dot_dot(Position::new(7, 7), Position::new(7, 7)),
        0
    );
    assert_eq!(
        helpers::distance_dot_dot(Position::new(0, 0), Position::new(u32::MAX, 0)),
        u32::MAX
    );
    assert_eq!(
        helpers::distance_dot_dot(Position::new(0, 0), Position::new(u32::MAX, u32::MAX)),
        u32::MAX
    );
    assert_eq!(
        helpers::distance_dot_dot(Position::new(0, 0), Position::new(3_000_000_000, 3_000_000_000)),
        4_242_640_687
    );
}

#[test]
fn relative_pos_rounds_down_and_handles_empty_axes() {
    assert_eq!(
        helpers::relative_pos(
            Position::new(1, 2),
            Dimensions::new(3, 3),
            Dimensions::new(10, 10)
        ),
        Position::new(3, 6)
    );
    assert_eq!(
        helpers::relative_pos(
            Position::new(5, 5),
            Dimensions::new(0, 0),
            Dimensions::new(20, 20)
        ),
        Position::new(0, 0)
    );
    assert_eq!(
        helpers::relative_pos(
            Position::new(u32::MAX, 1),
            Dimensions::new(1, 1),
            Dimensions::new(1, u32::MAX)
        ),
        Position::new(u32::MAX, 1)
    );
}

#[test]
fn position_and_dimensions_accessors() {
    let p = Position::new(3, 4);
    assert_eq!(p.tuplexy(), (3, 4));
    let d = Dimensions::new(7, 9);
    assert_eq!(d.height, 7);
    assert_eq!(d.width, 9);
    assert_eq!(d.tuplehw(), (7, 9));
    assert_eq!(Dimensions::from_tuplehw((7, 9)), d);
}
