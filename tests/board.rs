use rmines::game::{Board, BoardError, CacheResult, CellLabel, ExploreResult, Tile};

fn board(rows: usize, cols: usize, samples: Vec<usize>) -> Board {
    match Board::from_samples(rows, cols, &samples) {
        Ok(b) => b,
        Err(e) => panic!("board refused: {:?}", e),
    }
}

fn drain(b: &mut Board) -> Vec<ExploreResult> {
    let mut out = Vec::new();
    loop {
        let r = b.explore();
        out.push(r);
        if r != ExploreResult::Revealed {
            return out;
        }
    }
}

#[test]
fn new_without_rows_or_columns_is_null_area() {
    assert!(matches!(Board::new(0, 5, 3), Err(BoardError::NullArea)));
    assert!(matches!(Board::new(5, 0, 3), Err(BoardError::NullArea)));
    assert!(matches!(Board::new(0, 0, 0), Err(BoardError::NullArea)));
}

#[test]
fn new_with_a_mine_per_cell_or_more_is_too_many_mines() {
    assert!(matches!(Board::new(2, 2, 4), Err(BoardError::TooManyMines)));
    assert!(matches!(Board::new(2, 2, 100), Err(BoardError::TooManyMines)));
    assert!(matches!(Board::new(1, 1, 1), Err(BoardError::TooManyMines)));
}

#[test]
fn new_places_at_most_the_mines_asked_for() {
    for _ in 0..20 {
        let b = Board::new(10, 10, 50).unwrap();
        assert_eq!(b.get_rows(), 10);
        assert_eq!(b.get_cols(), 10);
        assert!(b.get_mine_count() >= 1);
        assert!(b.get_mine_count() <= 50);
        assert_eq!(b.get_flagged_count(), 0);
    }
}

#[test]
fn new_draws_mines_on_a_nearly_full_board() {
    for _ in 0..20 {
        let b = Board::new(3, 3, 8).unwrap();
        assert!(b.get_mine_count() >= 1);
        assert!(b.get_mine_count() <= 8);
    }
}

#[test]
fn new_with_no_mine_has_none() {
    let b = Board::new(1, 1, 0).unwrap();
    assert_eq!(b.get_mine_count(), 0);
}

#[test]
fn repeated_draws_collapse_into_one_mine() {
    let b = board(2, 2, vec![0, 0, 3]);
    assert_eq!(b.get_mine_count(), 2);
    let b = board(3, 3, vec![4, 4, 4, 4]);
    assert_eq!(b.get_mine_count(), 1);
}

#[test]
fn from_samples_checks_area_and_count() {
    assert!(matches!(Board::from_samples(0, 3, &vec![]), Err(BoardError::NullArea)));
    assert!(matches!(Board::from_samples(2, 2, &vec![0, 1, 2, 3]), Err(BoardError::TooManyMines)));
    assert!(Board::from_samples(2, 2, &vec![0, 1, 2]).is_ok());
}

#[test]
fn draw_maps_to_row_and_column() {
    // Draw 5 on a board of 3 columns is the cell (1, 2).
    let mut b = board(2, 3, vec![5]);
    assert_eq!(b.cache((1, 2)), CacheResult::Cached);
    assert_eq!(b.explore(), ExploreResult::Mined);
    assert_eq!(b.tile_at((1, 2)), Some(Tile::MineRevealed));
}

#[test]
fn fresh_board_text() {
    let b = board(1, 5, vec![4]);
    assert_eq!(b.render(), "     1|  2|  3|  4|  5|\n 1|   .   .   .   .   .\n");
    let b = board(2, 3, vec![0]);
    assert_eq!(b.render(), "     1|  2|  3|\n 1|   .   .   .\n 2|   .   .   .\n");
}

#[test]
fn wide_numbers_widen_the_fields() {
    let b = board(10, 12, vec![0]);
    let text = b.render();
    let lines: Vec<&str> = text.lines().collect();
    assert_eq!(lines.len(), 11);
    assert_eq!(
        lines[0],
        "       1|   2|   3|   4|   5|   6|   7|   8|   9|  10|  11|  12|"
    );
    assert_eq!(lines[1], format!("  1|{}", "    .".repeat(12)));
    assert_eq!(lines[10], format!(" 10|{}", "    .".repeat(12)));
}

#[test]
fn flood_stops_at_the_cell_next_to_the_mine() {
    // One row of five cells, the mine in the last one.
    let mut b = board(1, 5, vec![4]);
    assert_eq!(b.cache((0, 0)), CacheResult::Cached);
    let results = drain(&mut b);
    assert_eq!(
        results,
        vec![
            ExploreResult::Revealed,
            ExploreResult::Revealed,
            ExploreResult::Revealed,
            ExploreResult::Revealed,
            ExploreResult::BoardClear,
        ]
    );
    assert_eq!(b.tile_at((0, 0)), Some(Tile::Blank));
    assert_eq!(b.tile_at((0, 1)), Some(Tile::Blank));
    assert_eq!(b.tile_at((0, 2)), Some(Tile::Blank));
    assert_eq!(b.tile_at((0, 3)), Some(Tile::NeighborCount(1)));
    assert_eq!(b.tile_at((0, 4)), Some(Tile::Hidden));
    assert_eq!(
        b.render(),
        format!("     1|  2|  3|  4|  5|\n 1|{}{}{}{}{}\n", "    ", "    ", "    ", "   1", "   .")
    );
}

#[test]
fn popping_the_mine_directly_reveals_it() {
    let mut b = board(1, 5, vec![4]);
    assert_eq!(b.cache((0, 4)), CacheResult::Cached);
    assert_eq!(b.explore(), ExploreResult::Mined);
    assert_eq!(b.tile_at((0, 4)), Some(Tile::MineRevealed));
    assert_eq!(b.render(), "     1|  2|  3|  4|  5|\n 1|   .   .   .   .   *\n");
}

#[test]
fn mine_next_to_first_cell_labels_it_one() {
    let mut b = board(3, 3, vec![1]);
    assert_eq!(b.cache((0, 0)), CacheResult::Cached);
    assert_eq!(b.explore(), ExploreResult::Revealed);
    assert_eq!(b.tile_at((0, 0)), Some(Tile::NeighborCount(1)));
    // No neighbour was queued.
    assert_eq!(b.explore(), ExploreResult::EmptyCache);
    assert_eq!(b.tile_at((1, 0)), Some(Tile::Hidden));
    assert_eq!(b.tile_at((1, 1)), Some(Tile::Hidden));
}

#[test]
fn counts_all_eight_neighbours() {
    // Mines all around the centre of a 3x3 board but for the centre itself.
    let mut b = board(4, 4, vec![0, 1, 2, 4, 6, 8, 9, 10]);
    assert_eq!(b.cache((1, 1)), CacheResult::Cached);
    assert_eq!(b.explore(), ExploreResult::Revealed);
    assert_eq!(b.tile_at((1, 1)), Some(Tile::NeighborCount(8)));
    assert!(b.render().contains('8'));
}

#[test]
fn corner_cell_has_three_neighbours() {
    let mut b = board(3, 3, vec![1, 3, 4]);
    b.cache((0, 0));
    b.explore();
    assert_eq!(b.tile_at((0, 0)), Some(Tile::NeighborCount(3)));
}

#[test]
fn flood_queues_neighbours_oldest_first() {
    // A 3x3 board with the mine in the bottom right corner.
    let mut b = board(3, 3, vec![8]);
    b.cache((0, 0));
    let results = drain(&mut b);
    // Every one of the eight safe cells is revealed exactly once.
    assert_eq!(results.len(), 9);
    assert_eq!(results[8], ExploreResult::BoardClear);
    assert_eq!(b.tile_at((0, 0)), Some(Tile::Blank));
    assert_eq!(b.tile_at((1, 1)), Some(Tile::NeighborCount(1)));
    assert_eq!(b.tile_at((1, 2)), Some(Tile::NeighborCount(1)));
    assert_eq!(b.tile_at((2, 1)), Some(Tile::NeighborCount(1)));
    assert_eq!(b.tile_at((2, 2)), Some(Tile::Hidden));
}

#[test]
fn board_clear_only_when_every_safe_cell_is_revealed() {
    let mut b = board(2, 2, vec![3]);
    b.cache((0, 0));
    assert_eq!(b.explore(), ExploreResult::Revealed);
    assert_eq!(b.explore(), ExploreResult::EmptyCache);
    b.cache((0, 1));
    assert_eq!(b.explore(), ExploreResult::Revealed);
    assert_eq!(b.explore(), ExploreResult::EmptyCache);
    b.cache((1, 0));
    assert_eq!(b.explore(), ExploreResult::Revealed);
    assert_eq!(b.explore(), ExploreResult::BoardClear);
}

#[test]
fn cache_reports_invalid_and_clear_cells() {
    let mut b = board(2, 2, vec![3]);
    assert_eq!(b.cache((2, 0)), CacheResult::InvalidCoordinate);
    assert_eq!(b.cache((0, 2)), CacheResult::InvalidCoordinate);
    assert_eq!(b.cache((0, 0)), CacheResult::Cached);
    assert_eq!(b.cache((0, 0)), CacheResult::Cached);
    assert_eq!(b.explore(), ExploreResult::Revealed);
    // The cell was queued once.
    assert_eq!(b.explore(), ExploreResult::EmptyCache);
    assert_eq!(b.cache((0, 0)), CacheResult::Clear);
    assert_eq!(b.explore(), ExploreResult::EmptyCache);
}

#[test]
fn flags_are_capped_by_the_mine_count() {
    let mut b = board(2, 2, vec![0]);
    assert!(b.toggle_flag_at((0, 1)));
    assert_eq!(b.get_flagged_count(), 1);
    assert!(b.toggle_flag_at((1, 0)));
    assert_eq!(b.get_flagged_count(), 1);
    assert_eq!(b.tile_at((1, 0)), Some(Tile::Hidden));
    assert_eq!(b.tile_at((0, 1)), Some(Tile::Flagged));
    assert!(b.render().contains('>'));
}

#[test]
fn toggling_twice_restores_the_board() {
    let mut b = board(2, 2, vec![0]);
    let before = b.render();
    assert!(b.toggle_flag_at((1, 1)));
    assert_eq!(b.get_flagged_count(), 1);
    assert_ne!(b.render(), before);
    assert!(b.toggle_flag_at((1, 1)));
    assert_eq!(b.get_flagged_count(), 0);
    assert_eq!(b.render(), before);
}

#[test]
fn toggle_outside_the_board_is_refused() {
    let mut b = board(2, 2, vec![0]);
    assert!(!b.toggle_flag_at((2, 0)));
    assert!(!b.toggle_flag_at((0, 7)));
    assert_eq!(b.get_flagged_count(), 0);
}

#[test]
fn revealed_cells_cannot_be_flagged() {
    let mut b = board(3, 3, vec![1]);
    b.cache((0, 0));
    b.explore();
    assert!(b.toggle_flag_at((0, 0)));
    assert_eq!(b.get_flagged_count(), 0);
    assert_eq!(b.tile_at((0, 0)), Some(Tile::NeighborCount(1)));
}

#[test]
fn revealing_a_flagged_cell_takes_its_flag() {
    let mut b = board(3, 3, vec![8]);
    assert!(b.toggle_flag_at((0, 0)));
    assert_eq!(b.get_flagged_count(), 1);
    b.cache((0, 0));
    assert_eq!(b.explore(), ExploreResult::Revealed);
    assert_eq!(b.get_flagged_count(), 0);
    assert_eq!(b.tile_at((0, 0)), Some(Tile::Blank));
}

#[test]
fn update_label_counts_from_one_for_the_ui() {
    let mut b = board(2, 2, vec![3]);
    assert!(!b.update_label((0, 1), CellLabel::Flag, true));
    assert!(!b.update_label((1, 0), CellLabel::Flag, true));
    assert!(!b.update_label((3, 1), CellLabel::Flag, true));
    assert!(b.update_label((1, 1), CellLabel::Flag, true));
    assert_eq!(b.tile_at((0, 0)), Some(Tile::Flagged));
    assert!(b.update_label((2, 2), CellLabel::Flag, false) == false);
}

#[test]
fn update_label_sets_revealed_labels() {
    let mut b = board(2, 2, vec![3]);
    assert!(b.update_label((0, 0), CellLabel::Flag, false));
    assert!(b.update_label((0, 0), CellLabel::MinedNeighbors(3), false));
    assert_eq!(b.tile_at((0, 0)), Some(Tile::NeighborCount(3)));
    assert_eq!(b.get_flagged_count(), 0);
    assert!(b.update_label((0, 1), CellLabel::Clear, false));
    assert_eq!(b.tile_at((0, 1)), Some(Tile::Blank));
    assert_eq!(b.render(), "     1|  2|\n 1|   3    \n 2|   .   .\n");
}

#[test]
fn same_layout_same_game() {
    let play = |b: &mut Board| {
        let mut log = Vec::new();
        b.cache((0, 0));
        log.extend(drain(b));
        b.toggle_flag_at((3, 3));
        b.cache((3, 0));
        log.extend(drain(b));
        log
    };
    let mut a = board(4, 4, vec![15, 5]);
    let mut c = board(4, 4, vec![5, 15, 5]);
    let la = play(&mut a);
    let lc = play(&mut c);
    assert_eq!(la, lc);
    assert_eq!(a.render(), c.render());
}
