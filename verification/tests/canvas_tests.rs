use block_blast::block::{Block, Point};
use block_blast::canvas::{Canvas, PointStatus};

fn add_blocks(blocks: Vec<Block>, should_add: Vec<bool>, where_to_add: Vec<Point>) {
    let mut board = Canvas::new(8, 8);
    assert_eq!(blocks.len(), should_add.len(), "All lists should be equal length.");
    assert_eq!(blocks.len(), where_to_add.len(), "All lists should be equal length.");
    for (i, b) in blocks.into_iter().enumerate() {
        let maybe_playable = board.try_make_playable(&b, where_to_add[i].y, where_to_add[i].x);
        if let Some(playable) = maybe_playable {
            assert!(should_add[i], "Unexpectedly able to add block[{i}]");
            board.add(&playable);
        } else {
            assert!(!should_add[i], "Unable to add block[{i}]");
        }
    }
}

#[test]
fn can_add_one_and_only_one_1x1_in_a_position() {
    add_blocks(
        vec![Block::rectangle(1, 1), Block::rectangle(1, 1)],
        vec![true, false],
        vec![Point { x: 0, y: 0 }, Point { x: 0, y: 0 }],
    );
}

#[test]
fn can_add_many_1x1s_to_different_positions() {
    add_blocks(
        vec![
            Block::rectangle(1, 1),
            Block::rectangle(1, 1),
            Block::rectangle(1, 1),
            Block::rectangle(1, 1),
            Block::rectangle(1, 1),
        ],
        vec![true, true, true, true, true],
        vec![
            Point { x: 0, y: 0 },
            Point { x: 0, y: 1 },
            Point { x: 1, y: 0 },
            Point { x: 4, y: 4 },
            Point { x: 7, y: 7 },
        ],
    );
}

#[test]
fn can_add_many_rectangles() {
    add_blocks(
        vec![
            Block::rectangle(1, 1),
            Block::rectangle(2, 2),
            Block::rectangle(3, 3),
            Block::rectangle(3, 1),
            Block::rectangle(3, 1),
        ],
        vec![true, true, true, true, true],
        vec![
            Point { x: 0, y: 0 },
            Point { x: 0, y: 1 },
            Point { x: 0, y: 3 },
            Point { x: 0, y: 6 },
            Point { x: 3, y: 6 },
        ],
    );
}

#[test]
fn can_fill_board() {
    // Sixteen tall rectangles placed in sequence, one pair per column; the
    // requested 1x5 clamps to 1x3, so the pairs cover rows 0..3 and 5..8
    // without ever colliding.
    let mut blocks = Vec::new();
    let mut should_add = Vec::new();
    let mut where_to_add = Vec::new();
    for x in 0..8 {
        blocks.push(Block::rectangle(1, 5));
        should_add.push(true);
        where_to_add.push(Point { x, y: 0 });
    }
    for x in 0..8 {
        blocks.push(Block::rectangle(1, 3));
        should_add.push(true);
        where_to_add.push(Point { x, y: 5 });
    }
    add_blocks(blocks, should_add, where_to_add);
}

#[test]
fn failed_placement_leaves_board_unchanged() {
    let mut board = Canvas::new(8, 8);
    let unit = Block::rectangle(1, 1);
    let playable = board.try_make_playable(&unit, 0, 0).unwrap();
    board.add(&playable);
    let before = board.contents();
    assert!(board.try_make_playable(&unit, 0, 0).is_none());
    assert_eq!(before, board.contents());
}

#[test]
fn new_board_is_empty() {
    let board = Canvas::new(8, 8);
    let cells = board.contents();
    assert_eq!(64, cells.len());
    for c in cells {
        assert_eq!(PointStatus::Empty, c);
    }
}

#[test]
fn clear_all_empties_every_cell() {
    let mut board = Canvas::new(4, 4);
    let playable = board.try_make_playable(&Block::rectangle(2, 2), 1, 1).unwrap();
    board.add(&playable);
    board.clear_all();
    for c in board.contents() {
        assert_eq!(PointStatus::Empty, c);
    }
}

#[test]
fn add_marks_exactly_the_covered_cells() {
    let mut board = Canvas::new(8, 8);
    let playable = board.try_make_playable(&Block::rectangle(2, 1), 3, 2).unwrap();
    board.add(&playable);
    let cells = board.contents();
    // row 3, columns 2 and 3 (row-major index y * 8 + x)
    assert_eq!(PointStatus::Occupied, cells[3 * 8 + 2]);
    assert_eq!(PointStatus::Occupied, cells[3 * 8 + 3]);
    let occupied = cells.iter().filter(|c| **c == PointStatus::Occupied).count();
    assert_eq!(2, occupied);
}

#[test]
fn shape_may_hang_off_the_edge() {
    // Points that fall off the grid are silently ignored by the fit-check,
    // and never marked by add.
    let mut board = Canvas::new(8, 8);
    assert!(board.can_fit_at(&Block::rectangle(3, 3), 6, 6));
    let playable = board.try_make_playable(&Block::rectangle(3, 3), 6, 6).unwrap();
    board.add(&playable);
    let occupied = board.contents().iter().filter(|c| **c == PointStatus::Occupied).count();
    assert_eq!(4, occupied);
}

#[test]
fn can_fit_scans_all_origins() {
    let mut board = Canvas::new(8, 8);
    // Fill everything except the last cell.
    for y in 0..8 {
        for x in 0..8 {
            if y == 7 && x == 7 {
                continue;
            }
            let playable = board.try_make_playable(&Block::rectangle(1, 1), y, x).unwrap();
            board.add(&playable);
        }
    }
    assert!(board.can_fit(&Block::rectangle(1, 1)));
    // The tee also fits at the free corner: its other cells hang off the
    // edge, and off-grid points do not block a fit.
    assert!(board.can_fit(&Block::tee()));
    let playable = board.try_make_playable(&Block::rectangle(1, 1), 7, 7).unwrap();
    board.add(&playable);
    assert!(!board.can_fit(&Block::rectangle(1, 1)));
    assert!(!board.can_fit(&Block::tee()));
}

#[test]
fn line_queries_reject_out_of_range_indexes() {
    let board = Canvas::new(8, 8);
    assert!(board.is_complete_row(8).is_none());
    assert!(board.is_complete_column(8).is_none());
    assert_eq!(Some(false), board.is_complete_row(0));
    assert_eq!(Some(false), board.is_complete_column(0));
}

#[test]
fn filling_a_row_completes_only_that_row() {
    let mut board = Canvas::new(8, 8);
    for x in 0..8 {
        let playable = board.try_make_playable(&Block::rectangle(1, 1), 0, x).unwrap();
        board.add(&playable);
    }
    assert_eq!(Some(true), board.is_complete_row(0));
    for y in 1..8 {
        assert_eq!(Some(false), board.is_complete_row(y));
    }
    for x in 0..8 {
        assert_eq!(Some(false), board.is_complete_column(x));
    }
    let removed = board.clear_completed_lines();
    assert_eq!(1, removed);
    for c in board.contents() {
        assert_eq!(PointStatus::Empty, c);
    }
}

#[test]
fn clearing_a_full_board_removes_rows_plus_columns() {
    let mut board = Canvas::new(8, 8);
    for y in 0..8 {
        for x in 0..8 {
            let playable = board.try_make_playable(&Block::rectangle(1, 1), y, x).unwrap();
            board.add(&playable);
        }
    }
    for y in 0..8 {
        assert_eq!(Some(true), board.is_complete_row(y));
    }
    let removed = board.clear_completed_lines();
    assert_eq!(16, removed);
    for c in board.contents() {
        assert_eq!(PointStatus::Empty, c);
    }
}

#[test]
fn cross_clear_counts_both_lines_once_per_line() {
    // Fill row 3 and column 2 completely; the intersection cell is cleared
    // once but counts toward both totals.
    let mut board = Canvas::new(8, 8);
    for x in 0..8 {
        if let Some(p) = board.try_make_playable(&Block::rectangle(1, 1), 3, x) {
            board.add(&p);
        }
    }
    for y in 0..8 {
        if let Some(p) = board.try_make_playable(&Block::rectangle(1, 1), y, 2) {
            board.add(&p);
        }
    }
    assert_eq!(Some(true), board.is_complete_row(3));
    assert_eq!(Some(true), board.is_complete_column(2));
    let removed = board.clear_completed_lines();
    assert_eq!(2, removed);
    for c in board.contents() {
        assert_eq!(PointStatus::Empty, c);
    }
}

#[test]
fn clone_copies_the_grid() {
    let mut board = Canvas::new(8, 8);
    let playable = board.try_make_playable(&Block::tee(), 2, 2).unwrap();
    board.add(&playable);
    let copy = board.clone();
    assert_eq!(board.contents(), copy.contents());
    assert_eq!(board.rows, copy.rows);
    assert_eq!(board.columns, copy.columns);
}

#[test]
fn default_board_is_8_by_8() {
    let board = Canvas::default();
    assert_eq!(8, board.rows);
    assert_eq!(8, board.columns);
    assert_eq!(64, board.contents().len());
}
