use minesweeper::cell::{GameError, Point, Squares};
use minesweeper::game::MinesweeperGame;

fn mines_on(g: &MinesweeperGame) -> usize {
    g.board
        .iter()
        .filter(|c| matches!(c, Squares::ClosedMine | Squares::FlaggedMine))
        .count()
}

#[test]
fn construction_places_exactly_the_requested_mines() {
    let g = MinesweeperGame::new(5, 4, 7).unwrap();
    assert_eq!(g.board_size, Point { x: 5, y: 4 });
    assert_eq!(g.ori_bomb_amount, 7);
    assert_eq!(g.board.len(), 20);
    assert_eq!(mines_on(&g), 7);
    let safe = g
        .board
        .iter()
        .filter(|c| matches!(c, Squares::ClosedSafe))
        .count();
    assert_eq!(safe, 13);
    assert_eq!(g.game_state, minesweeper::cell::State::Ongoing);
}

#[test]
fn construction_clamps_the_mine_count_to_leave_a_safe_cell() {
    let g = MinesweeperGame::new(2, 2, 10).unwrap();
    assert_eq!(g.ori_bomb_amount, 3);
    assert_eq!(mines_on(&g), 3);
    let g2 = MinesweeperGame::new(3, 3, 0).unwrap();
    assert_eq!(g2.ori_bomb_amount, 0);
    assert_eq!(mines_on(&g2), 0);
}

#[test]
fn construction_rejects_non_positive_dimensions() {
    assert!(matches!(
        MinesweeperGame::new(0, 5, 1),
        Err(GameError::InvalidDimensions)
    ));
    assert!(matches!(
        MinesweeperGame::new(5, -1, 1),
        Err(GameError::InvalidDimensions)
    ));
}

#[test]
fn index_and_coordinate_conversion_are_inverse() {
    let g = MinesweeperGame::new(4, 3, 2).unwrap();
    for y in 0..3 {
        for x in 0..4 {
            let i = g.calculate_index_by_coords(x, y).unwrap();
            assert_eq!(i, y * 4 + x);
            let p = g.calculate_coords_by_index(i).unwrap();
            assert_eq!(p, Point { x, y });
        }
    }
}

#[test]
fn conversion_rejects_out_of_range_inputs() {
    let g = MinesweeperGame::new(4, 3, 2).unwrap();
    assert_eq!(
        g.calculate_index_by_coords(4, 0),
        Err(GameError::InvalidCoordinate)
    );
    assert_eq!(
        g.calculate_index_by_coords(0, -1),
        Err(GameError::InvalidCoordinate)
    );
    assert_eq!(
        g.calculate_coords_by_index(12),
        Err(GameError::InvalidCoordinate)
    );
    assert_eq!(
        g.calculate_coords_by_index(-1),
        Err(GameError::InvalidCoordinate)
    );
}

#[test]
fn is_inside_matches_the_bounds() {
    let g = MinesweeperGame::new(3, 2, 1).unwrap();
    assert!(g.is_inside(0, 0));
    assert!(g.is_inside(2, 1));
    assert!(!g.is_inside(3, 0));
    assert!(!g.is_inside(0, 2));
    assert!(!g.is_inside(-1, 0));
}

#[test]
fn pos_moves_lists_the_eight_neighbour_offsets() {
    let moves = MinesweeperGame::pos_moves();
    let expect = [
        (-1, -1),
        (-1, 0),
        (-1, 1),
        (0, -1),
        (0, 1),
        (1, -1),
        (1, 0),
        (1, 1),
    ];
    assert_eq!(moves.len(), 8);
    for (p, (ex, ey)) in moves.iter().zip(expect.iter()) {
        assert_eq!(p, &Point { x: *ex, y: *ey });
    }
}

#[test]
fn neighbour_counts_match_the_layout() {
    // 3x3 board, one mine in the bottom-right corner
    let mut board = vec![Squares::ClosedSafe; 9];
    board[8] = Squares::ClosedMine;
    let g = MinesweeperGame {
        board_size: Point { x: 3, y: 3 },
        board,
        ori_bomb_amount: 1,
        game_state: minesweeper::cell::State::Ongoing,
    };
    assert_eq!(g.calculate_neighbours(0, 0), Ok(0));
    assert_eq!(g.calculate_neighbours(1, 1), Ok(1));
    assert_eq!(g.calculate_neighbours(2, 1), Ok(1));
    assert_eq!(g.calculate_neighbours(2, 2), Ok(0));
    assert_eq!(
        g.calculate_neighbours(3, 0),
        Err(GameError::InvalidCoordinate)
    );
}

#[test]
fn flag_neighbour_counts_follow_the_flags() {
    let mut board = vec![Squares::ClosedSafe; 9];
    board[0] = Squares::FlaggedMine;
    board[1] = Squares::FlaggedSafe;
    let g = MinesweeperGame {
        board_size: Point { x: 3, y: 3 },
        board,
        ori_bomb_amount: 1,
        game_state: minesweeper::cell::State::Ongoing,
    };
    assert_eq!(g.calculate_flag_neighbours(1, 1), Ok(2));
    assert_eq!(g.calculate_flag_neighbours(2, 2), Ok(0));
    assert_eq!(
        g.calculate_flag_neighbours(-1, 1),
        Err(GameError::InvalidCoordinate)
    );
}

#[test]
fn square_at_coords_reads_cells_and_rejects_bad_coordinates() {
    let mut board = vec![Squares::ClosedSafe; 4];
    board[2] = Squares::ClosedMine;
    let g = MinesweeperGame {
        board_size: Point { x: 2, y: 2 },
        board,
        ori_bomb_amount: 1,
        game_state: minesweeper::cell::State::Ongoing,
    };
    assert_eq!(g.square_at_coords(0, 1), Ok(Squares::ClosedMine));
    assert_eq!(g.square_at_coords(1, 0), Ok(Squares::ClosedSafe));
    assert_eq!(
        g.square_at_coords(2, 0),
        Err(GameError::InvalidCoordinate)
    );
}
