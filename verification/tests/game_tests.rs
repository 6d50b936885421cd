use block_blast::block::Block;
use block_blast::canvas::PointStatus;
use block_blast::game::{Game, POINTS_PER_LINE_CLEAR};

#[test]
fn placing_one_unit_block_scores_nothing() {
    let mut game = Game::default();
    assert!(game.maybe_place_block(&Block::rectangle(1, 1), 0, 0).is_ok());
    assert_eq!(0, game.score);
    let occupied = game
        .canvas
        .contents()
        .iter()
        .filter(|c| **c == PointStatus::Occupied)
        .count();
    assert_eq!(1, occupied);
}

#[test]
fn completing_a_row_awards_the_per_line_constant() {
    let mut game = Game::default();
    assert!(game.maybe_place_block(&Block::rectangle(1, 1), 0, 0).is_ok());
    assert_eq!(0, game.score);
    for x in 1..7 {
        assert!(game.maybe_place_block(&Block::rectangle(1, 1), 0, x).is_ok());
        assert_eq!(0, game.score);
    }
    // The eighth placement completes row 0: one line, one award.
    assert!(game.maybe_place_block(&Block::rectangle(1, 1), 0, 7).is_ok());
    assert_eq!(POINTS_PER_LINE_CLEAR, game.score);
    assert_eq!(Some(false), game.canvas.is_complete_row(0));
    for c in game.canvas.contents() {
        assert_eq!(PointStatus::Empty, c);
    }
}

#[test]
fn failed_placement_changes_nothing() {
    let mut game = Game::default();
    assert!(game.maybe_place_block(&Block::rectangle(1, 1), 0, 0).is_ok());
    let before = game.canvas.contents();
    let result = game.maybe_place_block(&Block::rectangle(1, 1), 0, 0);
    assert_eq!(Err("Unable to place block."), result);
    assert_eq!(0, game.score);
    assert_eq!(before, game.canvas.contents());
}

#[test]
fn reset_empties_the_board_and_zeroes_the_score() {
    let mut game = Game::default();
    for x in 0..8 {
        assert!(game.maybe_place_block(&Block::rectangle(1, 1), 0, x).is_ok());
    }
    assert!(game.score > 0);
    assert!(game.maybe_place_block(&Block::tee(), 3, 3).is_ok());
    game.reset();
    assert_eq!(0, game.score);
    for c in game.canvas.contents() {
        assert_eq!(PointStatus::Empty, c);
    }
}

#[test]
fn generate_batch_on_empty_board_succeeds() {
    let game = Game::default();
    let blocks = game.generate_blocks(3).expect("an empty board fits any batch of three");
    assert_eq!(3, blocks.len());
    for b in &blocks {
        assert!(game.canvas.can_fit(b));
    }
}

#[test]
fn generate_zero_blocks_succeeds_trivially() {
    let game = Game::default();
    let blocks = game.generate_blocks(0).unwrap();
    assert!(blocks.is_empty());
}

#[test]
fn generate_fails_on_a_full_board() {
    let mut game = Game::default();
    // Occupy all 64 cells through the board directly: nothing clears here,
    // since only maybe_place_block triggers the clearing pass.
    for y in 0..8 {
        for x in 0..8 {
            let playable = game
                .canvas
                .try_make_playable(&Block::rectangle(1, 1), y, x)
                .unwrap();
            game.canvas.add(&playable);
        }
    }
    assert!(game.generate_blocks(1).is_none());
}

#[test]
fn naive_generate_commits_the_placement_to_the_shadow_board() {
    let game = Game::default();
    let mut shadow = game.canvas.clone();
    let block = game
        .naive_generate_block(&mut shadow)
        .expect("an empty board fits every candidate");
    let occupied = shadow
        .contents()
        .iter()
        .filter(|c| **c == PointStatus::Occupied)
        .count();
    assert_eq!(block.coordinates().len(), occupied);
    assert!(game.canvas.can_fit(&block));
}
