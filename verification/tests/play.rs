use minesweeper::cell::{Point, Squares, State};
use minesweeper::game::MinesweeperGame;

fn fixed_game(w: i32, h: i32, mines: &[usize]) -> MinesweeperGame {
    let mut board = vec![Squares::ClosedSafe; (w * h) as usize];
    for &i in mines {
        board[i] = Squares::ClosedMine;
    }
    MinesweeperGame {
        board_size: Point { x: w, y: h },
        board,
        ori_bomb_amount: mines.len() as i32,
        game_state: State::Ongoing,
    }
}

#[test]
fn revealing_a_mine_loses_and_keeps_the_board() {
    // 2x2 board, one mine in the top-left corner
    let mut g = fixed_game(2, 2, &[0]);
    assert_eq!(g.reveal_cell(0, 0), Ok(()));
    assert_eq!(g.game_state, State::Lost);
    assert_eq!(g.board[0], Squares::ClosedMine);
    assert_eq!(g.board[1], Squares::ClosedSafe);
    assert_eq!(g.board[2], Squares::ClosedSafe);
    assert_eq!(g.board[3], Squares::ClosedSafe);
}

#[test]
fn after_a_loss_reveal_and_flag_change_nothing() {
    let mut g = fixed_game(2, 2, &[0]);
    g.reveal_cell(0, 0).unwrap();
    assert_eq!(g.game_state, State::Lost);
    let snapshot = g.board.clone();
    assert_eq!(g.reveal_cell(1, 1), Ok(()));
    assert_eq!(g.flag(1, 0), Ok(()));
    assert_eq!(g.board, snapshot);
    assert_eq!(g.game_state, State::Lost);
}

#[test]
fn reveal_cascades_from_a_zero_count_cell_and_wins() {
    // 3x3 board, one mine at the bottom-right corner: revealing the
    // opposite corner floods every safe cell open
    let mut g = fixed_game(3, 3, &[8]);
    assert_eq!(g.reveal_cell(0, 0), Ok(()));
    for i in 0..8 {
        assert_eq!(g.board[i], Squares::OpenSafe);
    }
    assert_eq!(g.board[8], Squares::ClosedMine);
    assert_eq!(g.game_state, State::Won);
}

#[test]
fn reveal_of_a_numbered_cell_opens_only_that_cell() {
    let mut g = fixed_game(3, 3, &[8]);
    assert_eq!(g.reveal_cell(1, 1), Ok(()));
    assert_eq!(g.board[4], Squares::OpenSafe);
    for i in [0usize, 1, 2, 3, 5, 6, 7] {
        assert_eq!(g.board[i], Squares::ClosedSafe);
    }
    assert_eq!(g.game_state, State::Ongoing);
}

#[test]
fn reveal_rejects_coordinates_off_the_board() {
    let mut g = fixed_game(2, 2, &[0]);
    assert_eq!(
        g.reveal_cell(2, 0),
        Err(minesweeper::cell::GameError::InvalidCoordinate)
    );
    assert_eq!(
        g.flag(0, -1),
        Err(minesweeper::cell::GameError::InvalidCoordinate)
    );
    assert_eq!(g.game_state, State::Ongoing);
}

#[test]
fn reveal_is_a_no_op_on_a_flagged_cell() {
    // two mines, so that one flag never completes a win
    let mut g = fixed_game(2, 2, &[0, 1]);
    g.flag(1, 1).unwrap();
    assert_eq!(g.reveal_cell(1, 1), Ok(()));
    assert_eq!(g.board[3], Squares::FlaggedSafe);
    g.flag(0, 0).unwrap();
    assert_eq!(g.reveal_cell(0, 0), Ok(()));
    assert_eq!(g.board[0], Squares::FlaggedMine);
    assert_eq!(g.game_state, State::Ongoing);
}

#[test]
fn flag_twice_restores_a_closed_safe_cell() {
    let mut g = fixed_game(2, 2, &[0]);
    assert_eq!(g.flag(1, 0), Ok(()));
    assert_eq!(g.board[1], Squares::FlaggedSafe);
    assert_eq!(g.flag(1, 0), Ok(()));
    assert_eq!(g.board[1], Squares::ClosedSafe);
    assert_eq!(g.game_state, State::Ongoing);
}

#[test]
fn flag_twice_restores_a_closed_mine_and_flag_skips_open_cells() {
    // a second mine keeps the game going while the first is flagged
    let mut g = fixed_game(3, 3, &[0, 8]);
    g.reveal_cell(1, 1).unwrap();
    let before = g.board.clone();
    assert_eq!(g.flag(1, 1), Ok(()));
    assert_eq!(g.board, before);
    assert_eq!(g.flag(2, 2), Ok(()));
    assert_eq!(g.board[8], Squares::FlaggedMine);
    assert_eq!(g.flag(2, 2), Ok(()));
    assert_eq!(g.board[8], Squares::ClosedMine);
}

#[test]
fn opening_the_last_safe_cell_wins() {
    // 2x2 board, one mine: open the three safe cells one by one
    let mut g = fixed_game(2, 2, &[0]);
    g.reveal_cell(1, 0).unwrap();
    assert_eq!(g.game_state, State::Ongoing);
    g.reveal_cell(0, 1).unwrap();
    assert_eq!(g.game_state, State::Ongoing);
    g.reveal_cell(1, 1).unwrap();
    assert_eq!(g.game_state, State::Won);
    assert!(g.has_won());
    assert_eq!(g.board[0], Squares::ClosedMine);
}

#[test]
fn has_won_is_false_while_a_mine_and_a_closed_safe_cell_remain() {
    let g = fixed_game(2, 2, &[0]);
    assert!(!g.has_won());
}

#[test]
fn has_won_holds_once_no_unflagged_mine_remains() {
    // the scan looks for an unflagged mine next to an unopened safe cell;
    // flagging every mine therefore also counts as won
    let mut g = fixed_game(2, 2, &[0]);
    g.flag(0, 0).unwrap();
    assert!(g.has_won());
    assert_eq!(g.game_state, State::Won);
}

#[test]
fn chord_reveal_opens_the_unflagged_neighbours() {
    // 4x3 board, mines in the two upper corners of the centre cell's
    // neighbourhood and a third far away that keeps the game going;
    // the cell at (1, 1) counts two mine neighbours
    let mut g = fixed_game(4, 3, &[0, 2, 11]);
    g.reveal_cell(1, 1).unwrap();
    assert_eq!(g.board[5], Squares::OpenSafe);
    g.flag(0, 0).unwrap();
    g.flag(2, 0).unwrap();
    assert_eq!(g.game_state, State::Ongoing);
    assert_eq!(g.reveal_cell(1, 1), Ok(()));
    // every closed safe neighbour of (1, 1) is now open, and the flood
    // carried on through the zero-count cells below
    for i in [1usize, 4, 5, 6, 8, 9, 10] {
        assert_eq!(g.board[i], Squares::OpenSafe);
    }
    assert_eq!(g.board[0], Squares::FlaggedMine);
    assert_eq!(g.board[2], Squares::FlaggedMine);
    assert_eq!(g.board[3], Squares::ClosedSafe);
    assert_eq!(g.board[7], Squares::ClosedSafe);
    assert_eq!(g.board[11], Squares::ClosedMine);
    assert_eq!(g.game_state, State::Ongoing);
}

#[test]
fn chord_reveal_needs_matching_flag_count() {
    let mut g = fixed_game(3, 3, &[0, 2]);
    g.reveal_cell(1, 1).unwrap();
    g.flag(0, 0).unwrap();
    let before = g.board.clone();
    assert_eq!(g.reveal_cell(1, 1), Ok(()));
    assert_eq!(g.board, before);
    assert_eq!(g.game_state, State::Ongoing);
}

#[test]
fn chord_reveal_over_a_wrong_flag_loses() {
    // two flags placed, but one on a safe cell: the chord meets the
    // unflagged mine and the game is lost at once
    let mut g = fixed_game(3, 3, &[0, 2]);
    g.reveal_cell(1, 1).unwrap();
    g.flag(0, 0).unwrap();
    g.flag(1, 0).unwrap();
    assert_eq!(g.reveal_cell(1, 1), Ok(()));
    assert_eq!(g.game_state, State::Lost);
    assert_eq!(g.board[0], Squares::FlaggedMine);
    assert_eq!(g.board[1], Squares::FlaggedSafe);
    assert_eq!(g.board[2], Squares::ClosedMine);
}

#[test]
fn restart_resets_the_phase_and_replaces_the_mines() {
    let mut g = fixed_game(2, 2, &[0]);
    g.reveal_cell(0, 0).unwrap();
    assert_eq!(g.game_state, State::Lost);
    g.restart_game();
    assert_eq!(g.game_state, State::Ongoing);
    assert_eq!(g.board.len(), 4);
    let mines = g
        .board
        .iter()
        .filter(|c| matches!(c, Squares::ClosedMine))
        .count();
    assert_eq!(mines, 1);
    let closed = g
        .board
        .iter()
        .filter(|c| matches!(c, Squares::ClosedSafe | Squares::ClosedMine))
        .count();
    assert_eq!(closed, 4);
}

#[test]
fn lose_and_win_set_the_phase() {
    let mut g = fixed_game(2, 2, &[0]);
    g.lose();
    assert_eq!(g.game_state, State::Lost);
    g.win();
    assert_eq!(g.game_state, State::Won);
}
