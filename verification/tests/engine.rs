use minesweeper::board::{BoardState, Entry, MultiplayerBoard};

fn hidden_grid(width: usize, height: usize) -> Vec<Vec<Entry>> {
    vec![vec![Entry::Unknown { flagged: false }; width]; height]
}

/// A 5x5 ongoing board with a single mine at (0, 0), counts filled in.
fn board_with_corner_mine(width: u16, height: u16) -> MultiplayerBoard {
    let w = width as usize;
    let h = height as usize;
    let mut layout = vec![vec![Entry::Revealed { num_mines: 0 }; w]; h];
    layout[0][0] = Entry::Mine;
    for i in 0..h {
        for j in 0..w {
            if (i, j) != (0, 0) {
                let mut count = 0;
                for di in -1i32..=1 {
                    for dj in -1i32..=1 {
                        let (a, b) = (i as i32 + di, j as i32 + dj);
                        if (a, b) == (0, 0) {
                            count += 1;
                        }
                    }
                }
                layout[i][j] = Entry::Revealed { num_mines: count };
            }
        }
    }
    MultiplayerBoard {
        width,
        height,
        num_mines: 1,
        entries_cleared: 0,
        board_state: BoardState::Ongoing,
        true_board: Some(layout),
        revealed_board: hidden_grid(w, h),
        player_ids: vec![vec![0; w]; h],
    }
}

fn count_revealed(board: &MultiplayerBoard) -> u32 {
    let mut n = 0;
    for row in board.revealed_board() {
        for e in row {
            if let Entry::Revealed { .. } = e {
                n += 1;
            }
        }
    }
    n
}

#[test]
fn empty_1x1_board_wins_on_first_reveal() {
    let mut board = MultiplayerBoard::new(1, 1, 0);
    assert_eq!(*board.board_state(), BoardState::Uninitialized);
    let changed = board.reveal_square((0, 0), 7);
    assert_eq!(changed, vec![(0, 0)]);
    assert_eq!(*board.board_state(), BoardState::Won);
}

#[test]
fn full_3x3_board_loses_on_any_reveal() {
    let mut board = MultiplayerBoard::new(3, 3, 9);
    let changed = board.reveal_square((1, 2), 4);
    assert_eq!(changed, vec![(1, 2)]);
    assert_eq!(*board.board_state(), BoardState::Lost);
    assert!(board.revealed_entry_at((1, 2)).is_mine());
}

#[test]
fn far_mine_cascade_spares_the_mine() {
    let mut board = board_with_corner_mine(5, 5);
    let changed = board.reveal_square((2, 2), 3);
    assert_eq!(changed.len(), 24);
    assert!(!changed.contains(&(0, 0)));
    assert!(board.revealed_entry_at((0, 0)).is_unknown());
    assert_eq!(*board.board_state(), BoardState::Won);
    assert_eq!(board.entries_cleared, 24);
    assert_eq!(count_revealed(&board), 24);
}

#[test]
fn cascade_attributes_click_to_actor_and_rest_to_system() {
    let mut board = board_with_corner_mine(5, 5);
    board.reveal_square((2, 2), 3);
    assert_eq!(board.player_at((2, 2)), 3);
    assert_eq!(board.player_at((4, 4)), 0);
    assert_eq!(board.player_at((0, 1)), 0);
}

#[test]
fn revealing_a_revealed_cell_is_a_noop() {
    let mut board = board_with_corner_mine(5, 5);
    board.reveal_square((2, 2), 3);
    let before = board.revealed_board().clone();
    let changed = board.reveal_square((2, 2), 9);
    assert!(changed.is_empty());
    assert_eq!(*board.revealed_board(), before);
    assert_eq!(count_revealed(&board), board.entries_cleared);
}

#[test]
fn first_reveal_spares_click_and_neighborhood() {
    let mut board = MultiplayerBoard::new(5, 5, 1);
    let changed = board.reveal_square((2, 2), 1);
    assert!(!changed.is_empty());
    assert_ne!(*board.board_state(), BoardState::Lost);
    for i in 1..=3u16 {
        for j in 1..=3u16 {
            let true_entry = board.true_entry_at((i, j)).unwrap();
            assert!(!true_entry.is_mine());
        }
    }
}

#[test]
fn flag_toggle_twice_restores_cell_and_attribution() {
    let mut board = MultiplayerBoard::new(2, 2, 4);
    assert!(board.toggle_flag_square((0, 1), 5));
    assert!(board.revealed_entry_at((0, 1)).is_flagged());
    assert_eq!(board.player_at((0, 1)), 5);
    assert!(board.toggle_flag_square((0, 1), 6));
    assert_eq!(board.revealed_entry_at((0, 1)), Entry::Unknown { flagged: false });
    assert_eq!(board.player_at((0, 1)), 0);
}

#[test]
fn flag_on_revealed_cell_is_refused() {
    let mut board = board_with_corner_mine(5, 5);
    board.reveal_square((2, 2), 3);
    assert!(!board.toggle_flag_square((2, 2), 3));
}

#[test]
fn chord_with_mismatched_flags_is_a_noop() {
    let mut board = board_with_corner_mine(2, 2);
    board.reveal_square((1, 1), 2);
    assert_eq!(board.revealed_entry_at((1, 1)), Entry::Revealed { num_mines: 1 });
    let before = board.revealed_board().clone();
    let changed = board.chord_square((1, 1), 2);
    assert!(changed.is_empty());
    assert_eq!(*board.revealed_board(), before);
}

#[test]
fn chord_reveals_remaining_neighbors() {
    let mut board = board_with_corner_mine(2, 2);
    board.reveal_square((1, 1), 2);
    assert!(board.toggle_flag_square((0, 0), 2));
    let changed = board.chord_square((1, 1), 2);
    assert_eq!(changed.len(), 2);
    assert!(changed.contains(&(0, 1)));
    assert!(changed.contains(&(1, 0)));
    assert_eq!(*board.board_state(), BoardState::Won);
    assert_eq!(count_revealed(&board), board.entries_cleared);
}

#[test]
fn chord_into_mine_returns_only_the_mine() {
    let mut board = board_with_corner_mine(2, 2);
    board.reveal_square((1, 1), 2);
    // a wrong flag: the count matches but the mine stays unflagged
    assert!(board.toggle_flag_square((0, 1), 2));
    let changed = board.chord_square((1, 1), 2);
    assert_eq!(changed, vec![(0, 0)]);
    assert_eq!(*board.board_state(), BoardState::Lost);
    assert!(board.revealed_entry_at((0, 0)).is_mine());
    // the safe neighbor revealed along the way is not in the result
    assert!(board.revealed_entry_at((1, 0)).is_mine() == false);
}

#[test]
fn chord_on_finished_board_is_a_noop() {
    let mut board = MultiplayerBoard::new(3, 3, 9);
    board.reveal_square((0, 0), 1);
    assert_eq!(*board.board_state(), BoardState::Lost);
    assert!(board.chord_square((1, 1), 1).is_empty());
    assert!(board.reveal_square((1, 1), 1).is_empty());
}

#[test]
fn cleared_counter_tracks_revealed_cells() {
    let mut board = board_with_corner_mine(5, 5);
    assert_eq!(board.entries_cleared, 0);
    board.reveal_square((4, 4), 1);
    assert_eq!(count_revealed(&board), board.entries_cleared);
}

#[test]
fn possible_config_enforces_policy_bounds() {
    assert!(MultiplayerBoard::possible_config(1, 1, 0));
    assert!(MultiplayerBoard::possible_config(100, 100, 10000));
    assert!(!MultiplayerBoard::possible_config(0, 5, 1));
    assert!(!MultiplayerBoard::possible_config(5, 0, 1));
    assert!(!MultiplayerBoard::possible_config(101, 5, 1));
    assert!(!MultiplayerBoard::possible_config(5, 101, 1));
    assert!(!MultiplayerBoard::possible_config(10, 10, 101));
}

#[test]
fn adjacency_respects_edges() {
    assert_eq!(minesweeper::board::adjacent_coords((0, 0), 1, 1), vec![]);
    let corner = minesweeper::board::adjacent_coords((0, 0), 3, 3);
    assert_eq!(corner.len(), 3);
    let interior = minesweeper::board::adjacent_coords((1, 1), 3, 3);
    assert_eq!(interior.len(), 8);
    assert!(minesweeper::board::adjacent((2, 2), (3, 3)));
    assert!(minesweeper::board::adjacent((2, 2), (2, 2)));
    assert!(!minesweeper::board::adjacent((2, 2), (2, 4)));
}
