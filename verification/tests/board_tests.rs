//! Board state: construction, reveal and flood fill, flags, reset, the
//! deferred mine seeding, and the monotone revealed counter.
use sweeper_engine::board::Board;

#[test]
fn new_board_is_fresh() {
    let b = Board::new(4, 3, 2);
    assert_eq!(b.width, 4);
    assert_eq!(b.height, 3);
    assert_eq!(b.mines, 2);
    assert_eq!(b.cells.len(), 12);
    assert!(!b.game_over && !b.game_won);
    assert_eq!(b.total_revealed, 0);
    assert_eq!(b.total_clicks, 0);
    for (i, c) in b.cells.iter().enumerate() {
        assert!(!c.is_mine && !c.is_revealed && !c.is_flagged);
        assert_eq!(c.adjacent_mines, 0);
        assert_eq!(c.x, i % 4);
        assert_eq!(c.y, i / 4);
    }
    assert_eq!(b.adjacency_map.len(), 12);
}

#[test]
fn reveal_out_of_range_is_rejected() {
    let mut b = Board::new(3, 3, 1);
    assert!(!b.reveal_cell(3, 0));
    assert!(!b.reveal_cell(0, 7));
    assert_eq!(b.total_clicks, 0);
}

#[test]
fn first_click_is_safe_and_zone_is_clear() {
    // on a 6x6 board the 3x3 zone around the first click stays mine-free
    let mut b = Board::new(6, 6, 8);
    assert!(b.reveal_cell(3, 3));
    assert!(!b.game_over);
    let mine_count = b.cells.iter().filter(|c| c.is_mine).count();
    assert_eq!(mine_count, 8);
    for dy in -1i64..=1 {
        for dx in -1i64..=1 {
            let x = (3 + dx) as usize;
            let y = (3 + dy) as usize;
            assert!(!b.cells[y * 6 + x].is_mine);
        }
    }
    // clue numbers match the seeded layout
    for i in 0..36 {
        if b.cells[i].is_mine {
            continue;
        }
        let mut count = 0u8;
        for &n in &b.adjacency_map[i] {
            if b.cells[n].is_mine {
                count += 1;
            }
        }
        assert_eq!(b.cells[i].adjacent_mines, count);
    }
}

/// A flood fill from a zero-count cell reveals the whole mine-free rest
/// of the board and wins the game: eight cells on a 3x3 with one mine.
#[test]
fn flood_fill_reveals_all_and_wins() {
    let mut b = Board::new(3, 3, 1);
    // lay the board out by hand: one mine in the top-left corner, one
    // cell already open from an earlier click
    b.cells[0].is_mine = true;
    b.calculate_adjacent_mines();
    b.cells[1].is_revealed = true;
    b.total_revealed = 1;
    b.total_clicks = 1;
    // the far corner has a zero count: clicking it floods the rest
    assert_eq!(b.cells[8].adjacent_mines, 0);
    assert!(b.reveal_cell(2, 2));
    assert_eq!(b.total_revealed, 8);
    assert!(b.game_won);
    assert!(!b.game_over);
    for i in 1..9 {
        assert!(b.cells[i].is_revealed);
    }
    assert!(!b.cells[0].is_revealed);
}

#[test]
fn first_click_zone_covering_the_board_seeds_no_mine() {
    // on a 3x3 board the whole board lies in the first click's safety
    // zone, so the deferred seeding finds no candidate cell
    let mut b = Board::new(3, 3, 1);
    assert!(b.reveal_cell(1, 1));
    assert_eq!(b.cells.iter().filter(|c| c.is_mine).count(), 0);
    assert_eq!(b.total_revealed, 9);
    assert!(!b.game_over);
}

#[test]
fn revealing_a_mine_loses() {
    let mut b = Board::new(3, 3, 1);
    b.cells[4].is_mine = true;
    b.calculate_adjacent_mines();
    b.cells[8].is_revealed = true;
    b.total_revealed = 1;
    b.total_clicks = 1;
    assert!(b.reveal_cell(1, 1));
    assert!(b.game_over);
    assert!(!b.game_won);
    assert_eq!(b.total_revealed, 1);
}

/// The revealed total never decreases within a game, over reveals and
/// flag toggles.
#[test]
fn total_revealed_is_monotone() {
    let mut b = Board::new(4, 4, 2);
    b.cells[0].is_mine = true;
    b.cells[5].is_mine = true;
    b.calculate_adjacent_mines();
    b.cells[3].is_revealed = true;
    b.total_revealed = 1;
    b.total_clicks = 1;
    let mut last = b.total_revealed;
    let moves = [(3usize, 3usize), (2, 2), (1, 3), (3, 1), (0, 3)];
    for &(x, y) in moves.iter() {
        b.reveal_cell(x, y);
        assert!(b.total_revealed >= last);
        last = b.total_revealed;
        b.toggle_flag(0, 0);
        assert!(b.total_revealed >= last);
        last = b.total_revealed;
    }
}

#[test]
fn toggle_flag_flips_only_unrevealed() {
    let mut b = Board::new(3, 3, 1);
    b.toggle_flag(0, 0);
    assert!(b.cells[0].is_flagged);
    b.toggle_flag(0, 0);
    assert!(!b.cells[0].is_flagged);
    // a revealed cell cannot be flagged
    b.cells[1].is_revealed = true;
    b.total_revealed = 1;
    b.total_clicks = 1;
    b.toggle_flag(1, 0);
    assert!(!b.cells[1].is_flagged);
    // and a flagged cell cannot be revealed
    b.toggle_flag(2, 0);
    assert!(!b.reveal_cell(2, 0));
}

#[test]
fn reset_clears_everything_and_reseeds_lazily() {
    let mut b = Board::new(4, 4, 3);
    assert!(b.reveal_cell(1, 1));
    assert!(b.total_clicks > 0);
    b.reset();
    assert_eq!(b.total_revealed, 0);
    assert_eq!(b.total_clicks, 0);
    assert!(!b.game_over && !b.game_won);
    for c in b.cells.iter() {
        assert!(!c.is_mine && !c.is_revealed && !c.is_flagged);
        assert_eq!(c.adjacent_mines, 0);
    }
    // the next first click is safe again
    assert!(b.reveal_cell(0, 0));
    assert!(!b.game_over);
    assert!(!b.cells[0].is_mine);
}

#[test]
fn board_with_custom_adjacency() {
    let adj = sweeper_engine::topology::build_cube_adjacency(2);
    let b = Board::with_adjacency(3, adj);
    assert_eq!(b.cells.len(), 24);
    assert_eq!(b.mines, 3);
    assert_eq!(b.width, 24);
    assert_eq!(b.height, 1);
}
