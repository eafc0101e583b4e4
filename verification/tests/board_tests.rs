use minesweeper_core::{create_board, Board, Coordinates, FlagToggle, RevealOutcome, TileMap};

fn coords(x: u16, y: u16) -> Coordinates {
    Coordinates { x, y }
}

fn handle(width: u16, x: u16, y: u16) -> u64 {
    (y as u64) * (width as u64) + (x as u64)
}

/// A 5x5 session with three mines clustered in the top-left corner:
/// (0,0), (1,0) and (0,1). The other 22 cells are safe.
fn three_mine_board() -> Board {
    let mut tm = TileMap::new(5, 5);
    let mines = vec![coords(0, 0), coords(1, 0), coords(0, 1)];
    tm.set_bombs_at(&mines);
    Board::new(tm)
}

/// A 5x5 session with a wall of five mines down the middle column.
fn wall_board() -> Board {
    let mut tm = TileMap::new(5, 5);
    let mines = vec![coords(2, 0), coords(2, 1), coords(2, 2), coords(2, 3), coords(2, 4)];
    tm.set_bombs_at(&mines);
    Board::new(tm)
}

#[test]
fn fresh_board_is_fully_covered() {
    let b = three_mine_board();
    assert_eq!(b.covered_count, 25);
    assert_eq!(b.flagged_count, 0);
    assert_eq!(b.tile_selected(&coords(3, 3)), Some(handle(5, 3, 3)));
    assert_eq!(b.tile_selected(&coords(5, 0)), None);
}

#[test]
fn uncover_hands_the_handle_out_once() {
    let mut b = three_mine_board();
    let first = b.try_uncover_tile(&coords(3, 3));
    assert_eq!(first, Some(handle(5, 3, 3)));
    let second = b.try_uncover_tile(&coords(3, 3));
    assert_eq!(second, None);
    assert_eq!(b.covered_count, 24);
}

#[test]
fn uncover_ignores_flagged_and_out_of_range_cells() {
    let mut b = three_mine_board();
    assert!(matches!(b.try_toggle_flag(&coords(3, 3)), FlagToggle::FlagIsSet(_)));
    assert_eq!(b.try_uncover_tile(&coords(3, 3)), None);
    assert_eq!(b.try_uncover_tile(&coords(9, 9)), None);
    assert_eq!(b.covered_count, 25);
}

#[test]
fn flag_toggle_returns_to_the_original_state() {
    let mut b = three_mine_board();
    let c = coords(2, 2);
    let before_win_on = b.is_win(true);
    let before_win_off = b.is_win(false);
    match b.try_toggle_flag(&c) {
        FlagToggle::FlagIsSet(h) => assert_eq!(h, handle(5, 2, 2)),
        _ => panic!("expected the flag to be placed"),
    }
    assert_eq!(b.flagged_count, 1);
    match b.try_toggle_flag(&c) {
        FlagToggle::FlagIsUnset(h) => assert_eq!(h, handle(5, 2, 2)),
        _ => panic!("expected the flag to be lifted"),
    }
    assert_eq!(b.flagged_count, 0);
    assert_eq!(b.is_win(true), before_win_on);
    assert_eq!(b.is_win(false), before_win_off);
    // The cell is back to covered and unflagged: a reveal succeeds.
    assert_eq!(b.try_uncover_tile(&c), Some(handle(5, 2, 2)));
}

#[test]
fn flag_toggle_is_nothing_on_revealed_or_out_of_range_cells() {
    let mut b = three_mine_board();
    b.try_uncover_tile(&coords(4, 4));
    assert!(matches!(b.try_toggle_flag(&coords(4, 4)), FlagToggle::Nothing));
    assert!(matches!(b.try_toggle_flag(&coords(7, 7)), FlagToggle::Nothing));
}

#[test]
fn flood_fill_reveals_the_connected_region_and_its_border() {
    let mut b = wall_board();
    // Revealing a zero-count cell in the left half reveals the whole left
    // column plus the numbered cells bordering the wall, and nothing on the
    // far side of the wall.
    match b.uncover_tiles(coords(0, 2)) {
        RevealOutcome::Revealed(hs) => assert_eq!(hs.len(), 10),
        _ => panic!("expected a reveal"),
    }
    assert_eq!(b.covered_count, 15);
    for y in 0..5 {
        assert_eq!(b.tile_selected(&coords(0, y)), None);
        assert_eq!(b.tile_selected(&coords(1, y)), None);
        // The wall itself and the right half stay covered.
        assert!(b.tile_selected(&coords(2, y)).is_some());
        assert!(b.tile_selected(&coords(3, y)).is_some());
        assert!(b.tile_selected(&coords(4, y)).is_some());
    }
}

#[test]
fn flood_fill_stops_at_flags() {
    let mut b = wall_board();
    b.try_toggle_flag(&coords(1, 2));
    match b.uncover_tiles(coords(0, 2)) {
        RevealOutcome::Revealed(hs) => {
            assert_eq!(hs.len(), 9);
            assert!(!hs.contains(&handle(5, 1, 2)));
        },
        _ => panic!("expected a reveal"),
    }
    // The flagged cell keeps its cover.
    assert!(b.tile_selected(&coords(1, 2)).is_some());
}

#[test]
fn revealing_a_numbered_cell_reveals_it_alone() {
    let mut b = wall_board();
    match b.uncover_tiles(coords(1, 2)) {
        RevealOutcome::Revealed(hs) => assert_eq!(hs, vec![handle(5, 1, 2)]),
        _ => panic!("expected a reveal"),
    }
    assert_eq!(b.covered_count, 24);
}

#[test]
fn uncover_tiles_is_a_no_op_on_flagged_and_revealed_cells() {
    let mut b = three_mine_board();
    b.try_toggle_flag(&coords(3, 3));
    assert!(matches!(b.uncover_tiles(coords(3, 3)), RevealOutcome::Nothing));
    let mut b2 = three_mine_board();
    b2.try_uncover_tile(&coords(3, 0));
    assert!(matches!(b2.uncover_tiles(coords(3, 0)), RevealOutcome::Nothing));
}

#[test]
fn win_without_flag_mode_after_revealing_every_safe_cell() {
    let mut b = three_mine_board();
    assert!(!b.is_win(false));
    // One reveal in the far corner floods through all 22 safe cells.
    match b.uncover_tiles(coords(4, 4)) {
        RevealOutcome::Revealed(hs) => assert_eq!(hs.len(), 22),
        _ => panic!("expected a reveal"),
    }
    assert_eq!(b.covered_count, 3);
    assert!(b.is_win(false));
    // Without flags placed, the flag-mode win is still unmet.
    assert!(!b.is_win(true));
}

#[test]
fn striking_a_mine_reports_every_covered_mine() {
    let mut b = three_mine_board();
    match b.uncover_tiles(coords(0, 0)) {
        RevealOutcome::Exploded(hs) => {
            assert_eq!(hs.len(), 3);
            assert!(hs.contains(&handle(5, 0, 0)));
            assert!(hs.contains(&handle(5, 1, 0)));
            assert!(hs.contains(&handle(5, 0, 1)));
        },
        _ => panic!("expected a loss"),
    }
    // The board itself is untouched, so the loss screen can still ask for
    // every mine at once.
    let all = b.uncover_bomb();
    assert_eq!(all.len(), 3);
    assert!(all.contains(&handle(5, 0, 0)));
    assert!(all.contains(&handle(5, 1, 0)));
    assert!(all.contains(&handle(5, 0, 1)));
}

#[test]
fn win_with_flag_mode_needs_exactly_the_mines_flagged() {
    let mut b = three_mine_board();
    assert!(matches!(b.try_toggle_flag(&coords(0, 0)), FlagToggle::FlagIsSet(_)));
    assert!(matches!(b.try_toggle_flag(&coords(1, 0)), FlagToggle::FlagIsSet(_)));
    assert!(matches!(b.try_toggle_flag(&coords(0, 1)), FlagToggle::FlagIsSet(_)));
    match b.uncover_tiles(coords(4, 4)) {
        RevealOutcome::Revealed(hs) => assert_eq!(hs.len(), 22),
        _ => panic!("expected a reveal"),
    }
    assert!(b.is_win(true));
    assert!(b.is_win(false));
}

#[test]
fn flagging_a_safe_cell_never_satisfies_the_flag_mode_win() {
    let mut b = three_mine_board();
    // Three flags, but one sits on a safe cell.
    b.try_toggle_flag(&coords(0, 0));
    b.try_toggle_flag(&coords(1, 0));
    b.try_toggle_flag(&coords(3, 3));
    match b.uncover_tiles(coords(4, 4)) {
        RevealOutcome::Revealed(hs) => assert_eq!(hs.len(), 21),
        _ => panic!("expected a reveal"),
    }
    assert!(!b.is_win(true));
    assert!(!b.is_win(false));
}

#[test]
fn uncover_tile_neighbour_lists_covered_neighbors_only() {
    let mut b = three_mine_board();
    let mut around = b.uncover_tile_neighbour(coords(0, 0));
    around.sort();
    assert_eq!(around, vec![handle(5, 1, 0), handle(5, 0, 1), handle(5, 1, 1)]);
    b.try_uncover_tile(&coords(1, 1));
    let mut after = b.uncover_tile_neighbour(coords(0, 0));
    after.sort();
    assert_eq!(after, vec![handle(5, 1, 0), handle(5, 0, 1)]);
}

#[test]
fn wrong_flags_lists_exactly_the_misplaced_flags() {
    let mut b = three_mine_board();
    b.try_toggle_flag(&coords(0, 0));
    b.try_toggle_flag(&coords(3, 3));
    let wrong = b.uncover_wrong_flags();
    assert_eq!(wrong, vec![handle(5, 3, 3)]);
}

#[test]
fn create_board_rejects_impossible_configurations() {
    assert!(create_board(0, 5, 0, false).is_none());
    assert!(create_board(5, 0, 0, false).is_none());
    assert!(create_board(2, 2, 4, false).is_none());
    assert!(create_board(2, 2, 5, true).is_none());
}

#[test]
fn create_board_builds_a_covered_session() {
    let (b, sc) = create_board(9, 9, 10, false).expect("a valid configuration");
    assert!(sc.is_none());
    assert_eq!(b.covered_count, 81);
    assert_eq!(b.flagged_count, 0);
    assert_eq!(b.tile_map.get_bomb_count(), 10);
}

#[test]
fn safe_start_is_never_a_mine() {
    for _ in 0..20 {
        let (b, sc) = create_board(5, 5, 24, true).expect("a valid configuration");
        let c = sc.expect("easy mode designates a first reveal");
        assert!(!b.tile_map.is_bomb_at(c));
    }
    let (b, sc) = create_board(9, 9, 10, true).expect("a valid configuration");
    let c = sc.expect("easy mode designates a first reveal");
    assert!(!b.tile_map.is_bomb_at(c));
}

#[test]
fn full_session_on_a_random_board_reaches_the_win() {
    let (mut b, _) = create_board(6, 6, 5, false).expect("a valid configuration");
    for y in 0..6 {
        for x in 0..6 {
            if !b.tile_map.is_bomb_at(coords(x, y)) {
                b.uncover_tiles(coords(x, y));
            }
        }
    }
    assert_eq!(b.covered_count, 5);
    assert!(b.is_win(false));
    assert_eq!(b.uncover_bomb().len(), 5);
}
