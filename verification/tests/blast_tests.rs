use block_blast::blast::canvas::Canvas;
use block_blast::blast::rectangle::{Rectangle, LONGEST_RECTANGLE_EDGE};
use block_blast::blast::tee::Tee;
use block_blast::blast::Point;

#[test]
fn fresh_board_has_no_complete_lines() {
    let board = Canvas::new(8, 8);
    assert!(board.check_rows().is_empty());
    assert!(board.check_columns().is_empty());
}

#[test]
fn blast_line_queries_reject_out_of_range_indexes() {
    let board = Canvas::new(8, 8);
    assert!(board.is_complete_row(8).is_none());
    assert!(board.is_complete_column(9).is_none());
    assert_eq!(Some(false), board.is_complete_row(0));
    assert_eq!(Some(false), board.is_complete_column(7));
}

#[test]
fn zero_width_rows_are_vacuously_complete() {
    let board = Canvas::new(3, 0);
    assert_eq!(Some(true), board.is_complete_row(0));
    assert_eq!(vec![0, 1, 2], board.check_rows());
    assert!(board.check_columns().is_empty());
}

#[test]
fn rectangle_holds_height_times_width_points() {
    let rectangle = Rectangle::new(2, 3);
    assert_eq!(6, rectangle.coordinates().len());
    for x in 0..2 {
        for y in 0..3 {
            assert!(rectangle.coordinates().contains(&Point { x, y }));
        }
    }
}

#[test]
fn rectangles_of_every_allowed_size_build() {
    for height in 0..=LONGEST_RECTANGLE_EDGE {
        for width in 0..=LONGEST_RECTANGLE_EDGE {
            let rectangle = Rectangle::new(height, width);
            assert_eq!(height * width, rectangle.coordinates().len());
        }
    }
}

#[test]
fn tee_holds_its_four_cells() {
    let tee = Tee::new();
    assert_eq!(4, tee.coordinates().len());
    for p in [
        Point { x: 0, y: 0 },
        Point { x: 1, y: 0 },
        Point { x: 2, y: 0 },
        Point { x: 1, y: 1 },
    ] {
        assert!(tee.coordinates().contains(&p));
    }
}
