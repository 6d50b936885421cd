use block_blast::block::{Block, Point, Variant};

fn rect_with_coords(width: usize, height: usize, expected: Vec<Point>) {
    let block = Block::rectangle(width, height);
    assert_eq!(width * height, block.coordinates().len());
    for c in expected {
        assert!(block.coordinates().contains(&c));
    }
}

#[test]
fn can_create_1x1() {
    rect_with_coords(1, 1, vec![Point { x: 0, y: 0 }]);
}

#[test]
fn can_create_2x2() {
    rect_with_coords(2, 2, vec![Point { x: 0, y: 0 }]);
}

#[test]
fn can_create_2x3_rect() {
    rect_with_coords(
        2,
        3,
        vec![
            Point { x: 0, y: 0 },
            Point { x: 0, y: 1 },
            Point { x: 0, y: 2 },
            Point { x: 1, y: 0 },
            Point { x: 1, y: 1 },
            Point { x: 1, y: 2 },
        ],
    );
}

#[test]
fn can_create_3x2_rect() {
    rect_with_coords(
        3,
        2,
        vec![
            Point { x: 0, y: 0 },
            Point { x: 0, y: 1 },
            Point { x: 1, y: 0 },
            Point { x: 1, y: 1 },
            Point { x: 2, y: 0 },
            Point { x: 2, y: 1 },
        ],
    );
}

#[test]
fn can_create_3x3_rect() {
    let mut expected = Vec::new();
    for x in 0..3 {
        for y in 0..3 {
            expected.push(Point { x, y });
        }
    }
    rect_with_coords(3, 3, expected);
}

#[test]
fn rectangle_clamps_small_and_large_sizes() {
    assert_eq!(1, Block::rectangle(0, 0).coordinates().len());
    assert_eq!(9, Block::rectangle(10, 10).coordinates().len());
}

#[test]
fn line_clamps_length() {
    assert_eq!(2, Block::line(0).coordinates().len());
    assert_eq!(5, Block::line(99).coordinates().len());
}

#[test]
fn elle_clamps_edges() {
    // arms clamp into 2..=3: one origin cell plus two arms of at most 2.
    assert_eq!(3, Block::elle(0, 0).coordinates().len());
    assert_eq!(5, Block::elle(9, 9).coordinates().len());
}

#[test]
fn diagonal_of_zero_width_still_holds_a_point() {
    let block = Block::diagonal(0);
    assert_eq!(1, block.coordinates().len());
    assert!(block.coordinates().contains(&Point { x: 0, y: 0 }));
}

#[test]
fn variant_tags_match_constructors() {
    assert_eq!(Variant::Rectangle, Block::rectangle(2, 2).variant_tag());
    assert_eq!(Variant::Tee, Block::tee().variant_tag());
    assert_eq!(Variant::Line, Block::line(3).variant_tag());
    assert_eq!(Variant::Diagonal, Block::diagonal(4).variant_tag());
    assert_eq!(Variant::Elle, Block::elle(2, 2).variant_tag());
}

fn assert_dimensions(block: &Block, expected_width: usize, expected_height: usize) {
    let dimensions = block.dimensions();
    assert_eq!(expected_width, dimensions.width);
    assert_eq!(expected_height, dimensions.height);
}

#[test]
fn test_dimensions_1x1_rect() {
    assert_dimensions(&Block::rectangle(1, 1), 1, 1);
}

#[test]
fn test_dimensions_1x1_rect_rot() {
    let mut b = Block::rectangle(1, 1);
    b.rotate_right();
    assert_dimensions(&b, 1, 1);
}

#[test]
fn test_dimensions_2x2_rect() {
    assert_dimensions(&Block::rectangle(2, 2), 2, 2);
}

#[test]
fn test_dimensions_2x2_rect_rot() {
    let mut b = Block::rectangle(2, 2);
    b.rotate_left();
    assert_dimensions(&b, 2, 2);
}

#[test]
fn test_dimensions_len2_line() {
    assert_dimensions(&Block::line(2), 2, 1);
}

#[test]
fn test_dimensions_len2_line_rot() {
    let mut b = Block::line(2);
    b.rotate_left();
    assert_dimensions(&b, 1, 2);
}

#[test]
fn test_dimensions_len3_line() {
    assert_dimensions(&Block::line(3), 3, 1);
}

#[test]
fn test_dimensions_len5_line() {
    assert_dimensions(&Block::line(5), 5, 1);
}

#[test]
fn test_dimensions_0deg_tee() {
    assert_dimensions(&Block::tee(), 3, 2);
}

#[test]
fn test_dimensions_90deg_tee() {
    let mut b = Block::tee();
    b.rotate_left();
    assert_dimensions(&b, 2, 3);
}

#[test]
fn test_dimensions_3x2_0deg_elle() {
    assert_dimensions(&Block::elle(2, 3), 3, 2);
}

#[test]
fn test_dimensions_3x2_90deg_elle() {
    let mut b = Block::elle(2, 3);
    b.rotate_right();
    assert_dimensions(&b, 2, 3);
}

#[test]
fn test_dimensions_2x2_0deg_elle() {
    assert_dimensions(&Block::elle(2, 2), 2, 2);
}

#[test]
fn test_dimensions_2x2_90deg_elle() {
    let mut b = Block::elle(2, 2);
    b.rotate_right();
    assert_dimensions(&b, 2, 2);
}

#[test]
fn test_dimensions_2_0deg_diag() {
    assert_dimensions(&Block::diagonal(2), 2, 2);
}

#[test]
fn test_dimensions_2_90deg_diag() {
    let mut b = Block::diagonal(2);
    b.rotate_left();
    assert_dimensions(&b, 2, 2);
}

#[test]
fn test_dimensions_5_0deg_diag() {
    assert_dimensions(&Block::diagonal(5), 5, 5);
}

#[test]
fn test_dimensions_5_90deg_diag() {
    let mut b = Block::diagonal(5);
    b.rotate_left();
    assert_dimensions(&b, 5, 5);
}

fn assert_rotated_right(num_rotations: usize, expected: Vec<Point>) {
    let mut shape = Block::tee();
    for _ in 0..num_rotations {
        shape.rotate_right();
    }
    assert_eq!(expected.len(), shape.coordinates().len());
    for p in expected {
        assert!(
            shape.coordinates().contains(&p),
            "Expected {:?} in coordinates after {} right rotation(s). Got {:?}",
            p,
            num_rotations,
            shape.coordinates(),
        );
    }
}

#[test]
fn can_rotate_right_once() {
    assert_rotated_right(
        1,
        vec![
            Point { x: 0, y: 0 },
            Point { x: 0, y: -1 },
            Point { x: 0, y: -2 },
            Point { x: 1, y: -1 },
        ],
    );
}

#[test]
fn can_rotate_right_twice() {
    assert_rotated_right(
        2,
        vec![
            Point { x: 0, y: 0 },
            Point { x: -1, y: 0 },
            Point { x: -2, y: 0 },
            Point { x: -1, y: -1 },
        ],
    );
}

#[test]
fn can_rotate_right_thrice() {
    assert_rotated_right(
        3,
        vec![
            Point { x: 0, y: 0 },
            Point { x: 0, y: 1 },
            Point { x: 0, y: 2 },
            Point { x: -1, y: 1 },
        ],
    );
}

#[test]
fn can_rotate_right_completely() {
    assert_rotated_right(4, Block::tee().coordinates().clone());
}

fn assert_rotated_left(num_rotations: usize, expected: Vec<Point>) {
    let mut shape = Block::tee();
    for _ in 0..num_rotations {
        shape.rotate_left();
    }
    assert_eq!(expected.len(), shape.coordinates().len());
    for p in expected {
        assert!(
            shape.coordinates().contains(&p),
            "Expected {:?} in coordinates after {} left rotation(s). Got {:?}",
            p,
            num_rotations,
            shape.coordinates(),
        );
    }
}

#[test]
fn can_rotate_left_once() {
    assert_rotated_left(
        1,
        vec![
            Point { x: 0, y: 0 },
            Point { x: 0, y: 1 },
            Point { x: 0, y: 2 },
            Point { x: -1, y: 1 },
        ],
    );
}

#[test]
fn can_rotate_left_twice() {
    assert_rotated_left(
        2,
        vec![
            Point { x: 0, y: 0 },
            Point { x: -1, y: 0 },
            Point { x: -2, y: 0 },
            Point { x: -1, y: -1 },
        ],
    );
}

#[test]
fn can_rotate_left_thrice() {
    assert_rotated_left(
        3,
        vec![
            Point { x: 0, y: 0 },
            Point { x: 0, y: -1 },
            Point { x: 0, y: -2 },
            Point { x: 1, y: -1 },
        ],
    );
}

#[test]
fn can_rotate_left_completely() {
    assert_rotated_left(4, Block::tee().coordinates().clone());
}

#[test]
fn rotate_left_then_right_is_identity() {
    let original = Block::elle(2, 3);
    let mut shape = original.clone();
    shape.rotate_left();
    shape.rotate_right();
    assert_eq!(original.coordinates(), shape.coordinates());
}

#[test]
fn point_rotations_are_inverse() {
    let mut p = Point { x: 3, y: -5 };
    p.rotate_right();
    assert_eq!(Point { x: -5, y: -3 }, p);
    p.rotate_left();
    assert_eq!(Point { x: 3, y: -5 }, p);
}

#[test]
fn coordinates_mut_allows_reanchoring() {
    let mut shape = Block::tee();
    for p in shape.coordinates_mut().iter_mut() {
        p.x += 1;
    }
    assert!(shape.coordinates().contains(&Point { x: 2, y: 1 }));
}
