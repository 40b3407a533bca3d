//! The Minesweeper board-state engine: mine placement, neighbour counting,
//! reveal with flood fill and chording, flag toggling, and win/loss
//! detection.

use vstd::prelude::*;
use crate::cell::{Squares, State, Point, GameError, is_mine, is_unopened_safe, is_flagged,
    toggle_flag};
use crate::grid::{grid_valid, grid_index, lemma_grid_index_bounds, lemma_grid_index_injective,
    lemma_grid_coords_of_index};
use rand::Rng;

verus! {

/// The engine: a rectangular board of cells, the requested mine count, and
/// the current phase of the game.
pub struct MinesweeperGame {
    pub board_size: Point,
    pub board: Vec<Squares>,
    pub ori_bomb_amount: i32,
    pub game_state: State,
}

/// How many cells of `s` satisfy `p`.
pub open spec fn count_matching(s: Seq<Squares>, p: spec_fn(Squares) -> bool) -> int
    decreases s.len(),
{
    if s.len() == 0 {
        0
    } else {
        count_matching(s.drop_last(), p) + (if p(s.last()) { 1int } else { 0int })
    }
}

/// The predicate of `count_mines`, as a named value so that the counting
/// lemmas can be applied to it.
pub open spec fn mine_pred() -> spec_fn(Squares) -> bool {
    |c: Squares| is_mine(c)
}

/// The predicate of `count_closed_safe`, as a named value.
pub open spec fn closed_safe_pred() -> spec_fn(Squares) -> bool {
    |c: Squares| c == Squares::ClosedSafe
}

/// How many cells of `s` hold a mine, flagged or not.
pub open spec fn count_mines(s: Seq<Squares>) -> int {
    count_matching(s, mine_pred())
}

/// How many cells of `s` are closed safe cells.
pub open spec fn count_closed_safe(s: Seq<Squares>) -> int {
    count_matching(s, closed_safe_pred())
}

pub proof fn lemma_count_matching_bounds(s: Seq<Squares>, p: spec_fn(Squares) -> bool)
    ensures
        0 <= count_matching(s, p) <= s.len(),
    decreases s.len(),
{
    if s.len() > 0 {
        lemma_count_matching_bounds(s.drop_last(), p);
    }
}

pub proof fn lemma_count_matching_push(s: Seq<Squares>, p: spec_fn(Squares) -> bool, c: Squares)
    ensures
        count_matching(s.push(c), p) == count_matching(s, p) + (if p(c) { 1int } else { 0int }),
{
    assert(s.push(c).drop_last() =~= s);
    assert(s.push(c).last() == c);
}

pub proof fn lemma_count_matching_update(
    s: Seq<Squares>,
    p: spec_fn(Squares) -> bool,
    i: int,
    c: Squares,
)
    requires
        0 <= i < s.len(),
    ensures
        count_matching(s.update(i, c), p) == count_matching(s, p) - (if p(s[i]) {
            1int
        } else {
            0int
        }) + (if p(c) {
            1int
        } else {
            0int
        }),
    decreases s.len(),
{
    let t = s.update(i, c);
    if i == s.len() - 1 {
        assert(t.drop_last() =~= s.drop_last());
        assert(t.last() == c);
    } else {
        assert(t.drop_last() =~= s.drop_last().update(i, c));
        assert(t.last() == s.last());
        lemma_count_matching_update(s.drop_last(), p, i, c);
    }
}

pub proof fn lemma_count_matching_take_step(s: Seq<Squares>, p: spec_fn(Squares) -> bool, i: int)
    requires
        0 <= i < s.len(),
    ensures
        count_matching(s.take(i + 1), p) == count_matching(s.take(i), p) + (if p(s[i]) {
            1int
        } else {
            0int
        }),
{
    assert(s.take(i + 1).drop_last() =~= s.take(i));
    assert(s.take(i + 1).last() == s[i]);
}

/// There is a cell with an unflagged mine.
pub open spec fn has_closed_mine(s: Seq<Squares>) -> bool {
    exists|i: int| 0 <= i < s.len() && s[i] == Squares::ClosedMine
}

/// There is a safe cell that the player has not opened.
pub open spec fn has_unopened_safe(s: Seq<Squares>) -> bool {
    exists|i: int| 0 <= i < s.len() && is_unopened_safe(s[i])
}

/// The winning condition on a board: the scan finds no unflagged mine
/// together with an unopened safe cell.
pub open spec fn won_board(s: Seq<Squares>) -> bool {
    !(has_closed_mine(s) && has_unopened_safe(s))
}

/// Every safe cell has been opened.
pub open spec fn all_safe_open(s: Seq<Squares>) -> bool {
    forall|i: int| 0 <= i < s.len() && !is_mine(s[i]) ==> s[i] == Squares::OpenSafe
}

/// `b2` differs from `b1` at most by opening closed safe cells.
pub open spec fn opened_only(b1: Seq<Squares>, b2: Seq<Squares>) -> bool {
    &&& b1.len() == b2.len()
    &&& forall|i: int|
        0 <= i < b1.len() ==> (b2[i] == b1[i] || (b1[i] == Squares::ClosedSafe && b2[i]
            == Squares::OpenSafe))
}

/// A transition that only opens closed safe cells never opens, moves or
/// unflags a mine: the mine layout is exactly preserved.
pub proof fn lemma_opened_only_preserves_mines(b1: Seq<Squares>, b2: Seq<Squares>)
    requires
        opened_only(b1, b2),
    ensures
        forall|i: int| 0 <= i < b1.len() ==> is_mine(#[trigger] b2[i]) == is_mine(b1[i]),
        forall|i: int| 0 <= i < b1.len() ==> is_mine(#[trigger] b1[i]) ==> b2[i] == b1[i],
{
}

pub proof fn lemma_opened_only_trans(b1: Seq<Squares>, b2: Seq<Squares>, b3: Seq<Squares>)
    requires
        opened_only(b1, b2),
        opened_only(b2, b3),
    ensures
        opened_only(b1, b3),
{
    assert forall|i: int| 0 <= i < b1.len() implies (b3[i] == b1[i] || (b1[i]
        == Squares::ClosedSafe && b3[i] == Squares::OpenSafe)) by {
        assert(b2[i] == b1[i] || (b1[i] == Squares::ClosedSafe && b2[i] == Squares::OpenSafe));
        assert(b3[i] == b2[i] || (b2[i] == Squares::ClosedSafe && b3[i] == Squares::OpenSafe));
    }
}

/// The stack of coordinates `s` holds the coordinate pair (a, b).
pub open spec fn stack_has(s: Seq<Point>, a: int, b: int) -> bool {
    exists|k: int| 0 <= k < s.len() && #[trigger] s[k] == (Point { x: a as i32, y: b as i32 })
}

/// (d, e) is one of the eight neighbours of (a, c).
pub open spec fn adjacent(a: int, c: int, d: int, e: int) -> bool {
    ||| (d == a - 1 && (e == c - 1 || e == c || e == c + 1))
    ||| (d == a && (e == c - 1 || e == c + 1))
    ||| (d == a + 1 && (e == c - 1 || e == c || e == c + 1))
}

impl MinesweeperGame {
    pub open spec fn width(self) -> int {
        self.board_size.x as int
    }

    pub open spec fn height(self) -> int {
        self.board_size.y as int
    }

    /// The number of cells of the board.
    pub open spec fn area(self) -> int {
        self.width() * self.height()
    }

    /// (x, y) lies on the board.
    pub open spec fn valid_coord(self, x: int, y: int) -> bool {
        grid_valid(self.width(), self.height(), x, y)
    }

    /// The row-major index of (x, y).
    pub open spec fn idx(self, x: int, y: int) -> int {
        grid_index(self.width(), x, y)
    }

    /// The structural invariant of an engine value: positive dimensions, an
    /// area that index arithmetic can carry, a mine count that leaves at
    /// least one safe cell, and a board of exactly one cell per coordinate.
    pub open spec fn well_formed(self) -> bool {
        &&& 1 <= self.width()
        &&& 1 <= self.height()
        &&& self.area() <= i32::MAX as int
        &&& (self.ori_bomb_amount as int) < self.area()
        &&& self.board@.len() == self.area()
    }

    /// The number of mines the construction places: the stored amount, or
    /// none when a non-positive amount was requested.
    pub open spec fn effective_mines(self) -> int {
        if self.ori_bomb_amount >= 0 {
            self.ori_bomb_amount as int
        } else {
            0
        }
    }

    /// (x, y) is on the board and holds a mine in `b`.
    pub open spec fn mine_at(self, b: Seq<Squares>, x: int, y: int) -> bool {
        self.valid_coord(x, y) && is_mine(b[self.idx(x, y)])
    }

    /// (x, y) is on the board and is flagged in `b`.
    pub open spec fn flag_at(self, b: Seq<Squares>, x: int, y: int) -> bool {
        self.valid_coord(x, y) && is_flagged(b[self.idx(x, y)])
    }

    /// (x, y) is on the board and is a closed safe cell in `b`.
    pub open spec fn closed_safe_at(self, b: Seq<Squares>, x: int, y: int) -> bool {
        self.valid_coord(x, y) && b[self.idx(x, y)] == Squares::ClosedSafe
    }

    /// (x, y) is on the board and is an unflagged mine in `b`.
    pub open spec fn closed_mine_at(self, b: Seq<Squares>, x: int, y: int) -> bool {
        self.valid_coord(x, y) && b[self.idx(x, y)] == Squares::ClosedMine
    }

    /// How many of the eight neighbours of (x, y) hold a mine in `b`.
    pub open spec fn mine_neighbours(self, b: Seq<Squares>, x: int, y: int) -> int {
        bool_to_int(self.mine_at(b, x - 1, y - 1)) + bool_to_int(self.mine_at(b, x - 1, y))
            + bool_to_int(self.mine_at(b, x - 1, y + 1)) + bool_to_int(self.mine_at(b, x, y - 1))
            + bool_to_int(self.mine_at(b, x, y + 1)) + bool_to_int(self.mine_at(b, x + 1, y - 1))
            + bool_to_int(self.mine_at(b, x + 1, y)) + bool_to_int(self.mine_at(b, x + 1, y + 1))
    }

    /// How many of the eight neighbours of (x, y) are flagged in `b`.
    pub open spec fn flag_neighbours(self, b: Seq<Squares>, x: int, y: int) -> int {
        bool_to_int(self.flag_at(b, x - 1, y - 1)) + bool_to_int(self.flag_at(b, x - 1, y))
            + bool_to_int(self.flag_at(b, x - 1, y + 1)) + bool_to_int(self.flag_at(b, x, y - 1))
            + bool_to_int(self.flag_at(b, x, y + 1)) + bool_to_int(self.flag_at(b, x + 1, y - 1))
            + bool_to_int(self.flag_at(b, x + 1, y)) + bool_to_int(self.flag_at(b, x + 1, y + 1))
    }

    /// No neighbour of (x, y) is a closed safe cell in `b`: a flood fill
    /// that opened (x, y) has nothing left to do around it.
    pub open spec fn no_closed_safe_neighbour(self, b: Seq<Squares>, x: int, y: int) -> bool {
        &&& !self.closed_safe_at(b, x - 1, y - 1)
        &&& !self.closed_safe_at(b, x - 1, y)
        &&& !self.closed_safe_at(b, x - 1, y + 1)
        &&& !self.closed_safe_at(b, x, y - 1)
        &&& !self.closed_safe_at(b, x, y + 1)
        &&& !self.closed_safe_at(b, x + 1, y - 1)
        &&& !self.closed_safe_at(b, x + 1, y)
        &&& !self.closed_safe_at(b, x + 1, y + 1)
    }

    /// Some neighbour of (x, y) is an unflagged mine in `b`: the cell a
    /// chord reveal trips over.
    pub open spec fn closed_mine_neighbour(self, b: Seq<Squares>, x: int, y: int) -> bool {
        ||| self.closed_mine_at(b, x - 1, y - 1)
        ||| self.closed_mine_at(b, x - 1, y)
        ||| self.closed_mine_at(b, x - 1, y + 1)
        ||| self.closed_mine_at(b, x, y - 1)
        ||| self.closed_mine_at(b, x, y + 1)
        ||| self.closed_mine_at(b, x + 1, y - 1)
        ||| self.closed_mine_at(b, x + 1, y)
        ||| self.closed_mine_at(b, x + 1, y + 1)
    }
}

pub open spec fn bool_to_int(b: bool) -> int {
    if b {
        1
    } else {
        0
    }
}

impl MinesweeperGame {
    /// The bounds test used everywhere: (x, y) lies on the board.
    pub fn is_inside(&self, x: i32, y: i32) -> (r: bool)
        ensures
            r == self.valid_coord(x as int, y as int),
    {
        x < self.board_size.x && x >= 0 && y < self.board_size.y && y >= 0
    }

    /// Row-major index of a coordinate, rejecting coordinates off the board.
    pub fn calculate_index_by_coords(&self, x: i32, y: i32) -> (r: Result<i32, GameError>)
        requires
            self.well_formed(),
        ensures
            r is Err <==> !self.valid_coord(x as int, y as int),
            r is Err ==> r == Err::<i32, GameError>(GameError::InvalidCoordinate),
            r matches Ok(i) ==> (i as int == self.idx(x as int, y as int) && 0 <= i as int
                && (i as int) < self.area()),
    {
        if self.is_inside(x, y) {
            proof {
                lemma_grid_index_bounds(self.width(), self.height(), x as int, y as int);
            }
            Ok(y * self.board_size.x + x)
        } else {
            Err(GameError::InvalidCoordinate)
        }
    }

    /// Coordinates of a row-major index, rejecting indices off the board:
    /// the exact inverse of `calculate_index_by_coords`.
    pub fn calculate_coords_by_index(&self, i: i32) -> (r: Result<Point, GameError>)
        requires
            self.well_formed(),
        ensures
            r is Err <==> !(0 <= i as int && (i as int) < self.area()),
            r is Err ==> r == Err::<Point, GameError>(GameError::InvalidCoordinate),
            r matches Ok(p) ==> (p.x as int == i as int % self.width() && p.y as int == i as int
                / self.width() && self.valid_coord(p.x as int, p.y as int) && self.idx(
                p.x as int,
                p.y as int,
            ) == i as int),
    {
        let w = self.board_size.x;
        let h = self.board_size.y;
        proof {
            assert(w as int * h as int == self.area());
        }
        if i >= 0 && i < w * h {
            proof {
                lemma_grid_coords_of_index(w as int, h as int, i as int);
            }
            Ok(Point { x: i % w, y: i / w })
        } else {
            Err(GameError::InvalidCoordinate)
        }
    }

    /// The cell at a valid coordinate.
    fn square_at(&self, x: i32, y: i32) -> (c: Squares)
        requires
            self.well_formed(),
            self.valid_coord(x as int, y as int),
        ensures
            c == self.board@[self.idx(x as int, y as int)],
    {
        proof {
            lemma_grid_index_bounds(self.width(), self.height(), x as int, y as int);
        }
        let id = (y * self.board_size.x + x) as usize;
        self.board[id]
    }

    /// The cell at a coordinate, rejecting coordinates off the board.
    pub fn square_at_coords(&self, x: i32, y: i32) -> (r: Result<Squares, GameError>)
        requires
            self.well_formed(),
        ensures
            r is Err <==> !self.valid_coord(x as int, y as int),
            r is Err ==> r == Err::<Squares, GameError>(GameError::InvalidCoordinate),
            r matches Ok(c) ==> c == self.board@[self.idx(x as int, y as int)],
    {
        if self.is_inside(x, y) {
            Ok(self.square_at(x, y))
        } else {
            Err(GameError::InvalidCoordinate)
        }
    }

    /// Mark the game as lost; nothing else changes.
    pub fn lose(&mut self)
        ensures
            final(self).game_state == State::Lost,
            final(self).board@ == old(self).board@,
            final(self).board_size == old(self).board_size,
            final(self).ori_bomb_amount == old(self).ori_bomb_amount,
    {
        self.game_state = State::Lost;
    }

    /// Mark the game as won; nothing else changes.
    pub fn win(&mut self)
        ensures
            final(self).game_state == State::Won,
            final(self).board@ == old(self).board@,
            final(self).board_size == old(self).board_size,
            final(self).ori_bomb_amount == old(self).ori_bomb_amount,
    {
        self.game_state = State::Won;
    }

    /// The board is won: there is no unflagged mine together with an
    /// unopened safe cell.
    pub fn has_won(&self) -> (r: bool)
        ensures
            r == won_board(self.board@),
    {
        let mut found_bomb = false;
        let mut found_nonrevealed = false;
        let n = self.board.len();
        let mut i: usize = 0;
        while i < n
            invariant
                n == self.board@.len(),
                i <= n,
                found_bomb == (exists|j: int|
                    0 <= j < i && self.board@[j] == Squares::ClosedMine),
                found_nonrevealed == (exists|j: int|
                    0 <= j < i && is_unopened_safe(#[trigger] self.board@[j])),
                !(found_bomb && found_nonrevealed),
            decreases n - i,
        {
            let c = self.board[i];
            if c == Squares::ClosedMine {
                found_bomb = true;
            } else if c == Squares::FlaggedSafe || c == Squares::ClosedSafe {
                found_nonrevealed = true;
            }
            if found_bomb && found_nonrevealed {
                proof {
                    assert(has_closed_mine(self.board@));
                    assert(has_unopened_safe(self.board@));
                }
                return false;
            }
            i = i + 1;
        }
        proof {
            assert(found_bomb == has_closed_mine(self.board@));
            assert(found_nonrevealed == has_unopened_safe(self.board@));
        }
        true
    }

    /// The eight coordinate offsets of a cell's neighbourhood.
    pub fn pos_moves() -> (r: Vec<Point>)
        ensures
            r@.len() == 8,
            r@[0] == (Point { x: -1i32, y: -1i32 }),
            r@[1] == (Point { x: -1i32, y: 0i32 }),
            r@[2] == (Point { x: -1i32, y: 1i32 }),
            r@[3] == (Point { x: 0i32, y: -1i32 }),
            r@[4] == (Point { x: 0i32, y: 1i32 }),
            r@[5] == (Point { x: 1i32, y: -1i32 }),
            r@[6] == (Point { x: 1i32, y: 0i32 }),
            r@[7] == (Point { x: 1i32, y: 1i32 }),
    {
        let mut v: Vec<Point> = Vec::new();
        v.push(Point::new(-1, -1));
        v.push(Point::new(-1, 0));
        v.push(Point::new(-1, 1));
        v.push(Point::new(0, -1));
        v.push(Point::new(0, 1));
        v.push(Point::new(1, -1));
        v.push(Point::new(1, 0));
        v.push(Point::new(1, 1));
        v
    }
}

impl MinesweeperGame {
    /// (x, y) holds a mine; coordinates off the board count as no mine.
    fn test_mine(&self, x: i32, y: i32) -> (r: bool)
        requires
            self.well_formed(),
        ensures
            r == self.mine_at(self.board@, x as int, y as int),
    {
        if self.is_inside(x, y) {
            let c = self.square_at(x, y);
            c == Squares::ClosedMine || c == Squares::FlaggedMine
        } else {
            false
        }
    }

    /// (x, y) is flagged; coordinates off the board count as unflagged.
    fn test_flag(&self, x: i32, y: i32) -> (r: bool)
        requires
            self.well_formed(),
        ensures
            r == self.flag_at(self.board@, x as int, y as int),
    {
        if self.is_inside(x, y) {
            let c = self.square_at(x, y);
            c == Squares::FlaggedSafe || c == Squares::FlaggedMine
        } else {
            false
        }
    }

    /// Mine-neighbour count of a valid coordinate.
    fn count_mine_neighbours_at(&self, x: i32, y: i32) -> (r: i32)
        requires
            self.well_formed(),
            self.valid_coord(x as int, y as int),
        ensures
            r as int == self.mine_neighbours(self.board@, x as int, y as int),
            0 <= r <= 8,
    {
        let mut res: i32 = 0;
        if self.test_mine(x - 1, y - 1) {
            res = res + 1;
        }
        if self.test_mine(x - 1, y) {
            res = res + 1;
        }
        if self.test_mine(x - 1, y + 1) {
            res = res + 1;
        }
        if self.test_mine(x, y - 1) {
            res = res + 1;
        }
        if self.test_mine(x, y + 1) {
            res = res + 1;
        }
        if self.test_mine(x + 1, y - 1) {
            res = res + 1;
        }
        if self.test_mine(x + 1, y) {
            res = res + 1;
        }
        if self.test_mine(x + 1, y + 1) {
            res = res + 1;
        }
        res
    }

    /// Flag-neighbour count of a valid coordinate.
    fn count_flag_neighbours_at(&self, x: i32, y: i32) -> (r: i32)
        requires
            self.well_formed(),
            self.valid_coord(x as int, y as int),
        ensures
            r as int == self.flag_neighbours(self.board@, x as int, y as int),
            0 <= r <= 8,
    {
        let mut res: i32 = 0;
        if self.test_flag(x - 1, y - 1) {
            res = res + 1;
        }
        if self.test_flag(x - 1, y) {
            res = res + 1;
        }
        if self.test_flag(x - 1, y + 1) {
            res = res + 1;
        }
        if self.test_flag(x, y - 1) {
            res = res + 1;
        }
        if self.test_flag(x, y + 1) {
            res = res + 1;
        }
        if self.test_flag(x + 1, y - 1) {
            res = res + 1;
        }
        if self.test_flag(x + 1, y) {
            res = res + 1;
        }
        if self.test_flag(x + 1, y + 1) {
            res = res + 1;
        }
        res
    }

    /// How many of the eight neighbours of (x, y) hold a mine, flagged or
    /// not; rejects coordinates off the board.
    pub fn calculate_neighbours(&self, x: i32, y: i32) -> (r: Result<i32, GameError>)
        requires
            self.well_formed(),
        ensures
            r is Err <==> !self.valid_coord(x as int, y as int),
            r is Err ==> r == Err::<i32, GameError>(GameError::InvalidCoordinate),
            r matches Ok(n) ==> (n as int == self.mine_neighbours(self.board@, x as int, y as int)
                && 0 <= n <= 8),
    {
        if self.is_inside(x, y) {
            Ok(self.count_mine_neighbours_at(x, y))
        } else {
            Err(GameError::InvalidCoordinate)
        }
    }

    /// How many of the eight neighbours of (x, y) are flagged; rejects
    /// coordinates off the board.
    pub fn calculate_flag_neighbours(&self, x: i32, y: i32) -> (r: Result<i32, GameError>)
        requires
            self.well_formed(),
        ensures
            r is Err <==> !self.valid_coord(x as int, y as int),
            r is Err ==> r == Err::<i32, GameError>(GameError::InvalidCoordinate),
            r matches Ok(n) ==> (n as int == self.flag_neighbours(self.board@, x as int, y as int)
                && 0 <= n <= 8),
    {
        if self.is_inside(x, y) {
            Ok(self.count_flag_neighbours_at(x, y))
        } else {
            Err(GameError::InvalidCoordinate)
        }
    }

    /// Set the phase to `Won` exactly when the board is won.
    fn check_win(&mut self)
        requires
            old(self).well_formed(),
        ensures
            final(self).well_formed(),
            final(self).board@ == old(self).board@,
            final(self).board_size == old(self).board_size,
            final(self).ori_bomb_amount == old(self).ori_bomb_amount,
            final(self).game_state == (if won_board(old(self).board@) {
                State::Won
            } else {
                old(self).game_state
            }),
    {
        if self.has_won() {
            self.game_state = State::Won;
        }
    }

    /// Toggle the flag on the cell at (x, y): closed and flagged swap, an
    /// open cell stays open. A no-op once the game is over; rejects
    /// coordinates off the board; re-evaluates the win condition.
    pub fn flag(&mut self, xpos: i32, ypos: i32) -> (r: Result<(), GameError>)
        requires
            old(self).well_formed(),
        ensures
            final(self).well_formed(),
            final(self).board_size == old(self).board_size,
            final(self).ori_bomb_amount == old(self).ori_bomb_amount,
            r is Err <==> !old(self).valid_coord(xpos as int, ypos as int),
            r is Err ==> (r == Err::<(), GameError>(GameError::InvalidCoordinate)
                && final(self).board@ == old(self).board@
                && final(self).game_state == old(self).game_state),
            (r is Ok && old(self).game_state != State::Ongoing) ==> (final(self).board@
                == old(self).board@ && final(self).game_state == old(self).game_state),
            (r is Ok && old(self).game_state == State::Ongoing) ==> (final(self).board@
                == flag_board(old(self).board@, old(self).idx(xpos as int, ypos as int))
                && final(self).game_state == (if won_board(final(self).board@) {
                State::Won
            } else {
                State::Ongoing
            })),
    {
        if !self.is_inside(xpos, ypos) {
            return Err(GameError::InvalidCoordinate);
        }
        if !(self.game_state == State::Ongoing) {
            return Ok(());
        }
        proof {
            lemma_grid_index_bounds(self.width(), self.height(), xpos as int, ypos as int);
        }
        let id = (ypos * self.board_size.x + xpos) as usize;
        let c = self.board[id];
        let t = match c {
            Squares::ClosedMine => Squares::FlaggedMine,
            Squares::ClosedSafe => Squares::FlaggedSafe,
            Squares::FlaggedMine => Squares::ClosedMine,
            Squares::FlaggedSafe => Squares::ClosedSafe,
            Squares::OpenSafe => Squares::OpenSafe,
        };
        self.board[id] = t;
        self.check_win();
        Ok(())
    }
}

/// The mine count stored at construction: the requested amount, clamped so
/// that at least one safe cell remains.
pub open spec fn clamp_mines(m: int, area: int) -> int {
    if m < area {
        m
    } else {
        area - 1
    }
}

/// Relies on rand::thread_rng and rand::Rng::gen_range over the range 0..n:
/// the result is uniformly random and below n; the call panics only on an
/// empty range, which the precondition rules out.
#[verifier::external_body]
fn random_below(n: usize) -> (r: usize)
    requires
        n > 0,
    ensures
        r < n,
{
    rand::thread_rng().gen_range(0..n)
}

impl MinesweeperGame {
    /// The index of the (r+1)-th cell that holds no mine, scanning in index
    /// order; used to place a fresh mine on a uniformly chosen safe cell.
    fn find_rth_safe(&self, r: usize) -> (id: usize)
        requires
            (r as int) < self.board@.len() - count_mines(self.board@),
        ensures
            (id as int) < self.board@.len(),
            !is_mine(self.board@[id as int]),
    {
        let n = self.board.len();
        let mut i: usize = 0;
        let mut k: usize = 0;
        while i < n
            invariant
                i <= n,
                n == self.board@.len(),
                k as int == i as int - count_mines(self.board@.take(i as int)),
                k <= r,
                (r as int) < n - count_mines(self.board@),
            decreases n - i,
        {
            let c = self.board[i];
            let safe = !(c == Squares::ClosedMine || c == Squares::FlaggedMine);
            proof {
                lemma_count_matching_take_step(self.board@, mine_pred(), i as int);
                lemma_count_matching_bounds(self.board@.take(i as int), mine_pred());
            }
            if safe {
                if k == r {
                    return i;
                }
                k = k + 1;
            }
            i = i + 1;
        }
        proof {
            assert(self.board@.take(n as int) =~= self.board@);
            assert(false);
        }
        0
    }

    /// Rebuild the board: every cell closed, and exactly the stored number
    /// of mines placed on distinct uniformly chosen cells.
    fn reset_board(&mut self)
        requires
            1 <= old(self).width(),
            1 <= old(self).height(),
            old(self).area() <= i32::MAX as int,
            (old(self).ori_bomb_amount as int) < old(self).area(),
        ensures
            final(self).well_formed(),
            final(self).board_size == old(self).board_size,
            final(self).ori_bomb_amount == old(self).ori_bomb_amount,
            final(self).game_state == old(self).game_state,
            count_mines(final(self).board@) == final(self).effective_mines(),
            forall|i: int|
                0 <= i < final(self).board@.len() ==> (#[trigger] final(self).board@[i]
                    == Squares::ClosedSafe || final(self).board@[i] == Squares::ClosedMine),
    {
        let ghost bs0 = self.board_size;
        let ghost ori0 = self.ori_bomb_amount;
        let ghost gs0 = self.game_state;
        let ghost area0 = self.area();
        let n_i32 = self.board_size.x * self.board_size.y;
        let n = n_i32 as usize;
        self.board.clear();
        while self.board.len() < n
            invariant
                self.board_size == bs0,
                self.ori_bomb_amount == ori0,
                self.game_state == gs0,
                n as int == area0,
                area0 == self.area(),
                self.board@.len() <= n as int,
                count_mines(self.board@) == 0,
                forall|i: int|
                    0 <= i < self.board@.len() ==> #[trigger] self.board@[i]
                        == Squares::ClosedSafe,
            decreases n - self.board@.len(),
        {
            proof {
                lemma_count_matching_push(self.board@, mine_pred(), Squares::ClosedSafe);
            }
            self.board.push(Squares::ClosedSafe);
        }
        proof {
            assert(area0 >= 1) by (nonlinear_arith)
                requires
                    1 <= bs0.x as int,
                    1 <= bs0.y as int,
                    area0 == bs0.x as int * bs0.y as int,
            ;
        }
        let m: usize = if self.ori_bomb_amount >= 0 {
            self.ori_bomb_amount as usize
        } else {
            0
        };
        let mut placed: usize = 0;
        while placed < m
            invariant
                self.board_size == bs0,
                self.ori_bomb_amount == ori0,
                self.game_state == gs0,
                n as int == area0,
                area0 == self.area(),
                m as int == self.effective_mines(),
                m < n,
                placed <= m,
                self.board@.len() == n as int,
                count_mines(self.board@) == placed as int,
                forall|i: int|
                    0 <= i < self.board@.len() ==> (#[trigger] self.board@[i]
                        == Squares::ClosedSafe || self.board@[i] == Squares::ClosedMine),
            decreases m - placed,
        {
            let r = random_below(n - placed);
            let id = self.find_rth_safe(r);
            proof {
                lemma_count_matching_update(self.board@, mine_pred(), id as int,
                    Squares::ClosedMine);
            }
            self.board[id] = Squares::ClosedMine;
            placed = placed + 1;
        }
    }

    /// A fresh engine: phase `Ongoing`, the mine count clamped to leave a
    /// safe cell, every cell closed, and exactly that many mines placed at
    /// random. Rejects non-positive dimensions.
    pub fn new(xsize: i32, ysize: i32, bomb_amount: i32) -> (r: Result<MinesweeperGame, GameError>)
        requires
            (xsize > 0 && ysize > 0) ==> xsize as int * ysize as int <= i32::MAX as int,
        ensures
            r is Err <==> (xsize <= 0 || ysize <= 0),
            r is Err ==> r == Err::<MinesweeperGame, GameError>(GameError::InvalidDimensions),
            r matches Ok(g) ==> (g.well_formed() && g.board_size == (Point { x: xsize, y: ysize })
                && g.ori_bomb_amount as int == clamp_mines(
                bomb_amount as int,
                xsize as int * ysize as int,
            ) && g.game_state == State::Ongoing && count_mines(g.board@) == g.effective_mines()
                && forall|i: int|
                0 <= i < g.board@.len() ==> (#[trigger] g.board@[i] == Squares::ClosedSafe
                    || g.board@[i] == Squares::ClosedMine)),
    {
        if xsize <= 0 || ysize <= 0 {
            return Err(GameError::InvalidDimensions);
        }
        let area = xsize * ysize;
        let ori = if bomb_amount < area {
            bomb_amount
        } else {
            area - 1
        };
        let mut game = MinesweeperGame {
            board_size: Point { x: xsize, y: ysize },
            board: Vec::new(),
            ori_bomb_amount: ori,
            game_state: State::Ongoing,
        };
        game.reset_board();
        Ok(game)
    }

    /// Begin a new game on the same dimensions with the same mine count:
    /// phase back to `Ongoing` and a freshly generated mine placement.
    pub fn restart_game(&mut self)
        requires
            old(self).well_formed(),
        ensures
            final(self).well_formed(),
            final(self).board_size == old(self).board_size,
            final(self).ori_bomb_amount == old(self).ori_bomb_amount,
            final(self).game_state == State::Ongoing,
            count_mines(final(self).board@) == final(self).effective_mines(),
            forall|i: int|
                0 <= i < final(self).board@.len() ==> (#[trigger] final(self).board@[i]
                    == Squares::ClosedSafe || final(self).board@[i] == Squares::ClosedMine),
    {
        self.game_state = State::Ongoing;
        self.reset_board();
    }
}

/// Opening closed safe cells never creates a closed safe cell.
proof fn lemma_opened_only_not_cs(
    g: MinesweeperGame,
    b1: Seq<Squares>,
    b2: Seq<Squares>,
    x: int,
    y: int,
)
    requires
        g.well_formed(),
        b1.len() == g.area(),
        opened_only(b1, b2),
        !g.closed_safe_at(b1, x, y),
    ensures
        !g.closed_safe_at(b2, x, y),
{
    if g.valid_coord(x, y) {
        lemma_grid_index_bounds(g.width(), g.height(), x, y);
    }
}

/// Opening closed safe cells keeps a cleared neighbourhood cleared.
proof fn lemma_opened_only_no_cs_nbr(
    g: MinesweeperGame,
    b1: Seq<Squares>,
    b2: Seq<Squares>,
    x: int,
    y: int,
)
    requires
        g.well_formed(),
        b1.len() == g.area(),
        opened_only(b1, b2),
        g.no_closed_safe_neighbour(b1, x, y),
    ensures
        g.no_closed_safe_neighbour(b2, x, y),
{
    lemma_opened_only_not_cs(g, b1, b2, x - 1, y - 1);
    lemma_opened_only_not_cs(g, b1, b2, x - 1, y);
    lemma_opened_only_not_cs(g, b1, b2, x - 1, y + 1);
    lemma_opened_only_not_cs(g, b1, b2, x, y - 1);
    lemma_opened_only_not_cs(g, b1, b2, x, y + 1);
    lemma_opened_only_not_cs(g, b1, b2, x + 1, y - 1);
    lemma_opened_only_not_cs(g, b1, b2, x + 1, y);
    lemma_opened_only_not_cs(g, b1, b2, x + 1, y + 1);
}

/// Opening closed safe cells moves no mine.
proof fn lemma_opened_only_mine_at(
    g: MinesweeperGame,
    b1: Seq<Squares>,
    b2: Seq<Squares>,
    x: int,
    y: int,
)
    requires
        g.well_formed(),
        b1.len() == g.area(),
        opened_only(b1, b2),
    ensures
        g.mine_at(b2, x, y) == g.mine_at(b1, x, y),
        g.closed_mine_at(b2, x, y) == g.closed_mine_at(b1, x, y),
        g.flag_at(b2, x, y) == g.flag_at(b1, x, y),
{
    if g.valid_coord(x, y) {
        lemma_grid_index_bounds(g.width(), g.height(), x, y);
    }
}

/// Opening closed safe cells changes no neighbour count.
proof fn lemma_opened_only_counts(
    g: MinesweeperGame,
    b1: Seq<Squares>,
    b2: Seq<Squares>,
    x: int,
    y: int,
)
    requires
        g.well_formed(),
        b1.len() == g.area(),
        opened_only(b1, b2),
    ensures
        g.mine_neighbours(b2, x, y) == g.mine_neighbours(b1, x, y),
        g.flag_neighbours(b2, x, y) == g.flag_neighbours(b1, x, y),
{
    lemma_opened_only_mine_at(g, b1, b2, x - 1, y - 1);
    lemma_opened_only_mine_at(g, b1, b2, x - 1, y);
    lemma_opened_only_mine_at(g, b1, b2, x - 1, y + 1);
    lemma_opened_only_mine_at(g, b1, b2, x, y - 1);
    lemma_opened_only_mine_at(g, b1, b2, x, y + 1);
    lemma_opened_only_mine_at(g, b1, b2, x + 1, y - 1);
    lemma_opened_only_mine_at(g, b1, b2, x + 1, y);
    lemma_opened_only_mine_at(g, b1, b2, x + 1, y + 1);
}

/// A coordinate stays in a stack that only grows at the end.
proof fn lemma_stack_has_push(s: Seq<Point>, q: Point, a: int, c: int)
    requires
        stack_has(s, a, c) || q == (Point { x: a as i32, y: c as i32 }),
    ensures
        stack_has(s.push(q), a, c),
{
    if stack_has(s, a, c) {
        let k = choose|k: int| 0 <= k < s.len() && #[trigger] s[k] == (Point {
            x: a as i32,
            y: c as i32,
        });
        assert(s.push(q)[k] == s[k]);
    } else {
        assert(s.push(q)[s.len() as int] == q);
    }
}

impl MinesweeperGame {
    /// Every coordinate on `s` is on the board and open in `b`.
    pub open spec fn stack_ok(self, b: Seq<Squares>, s: Seq<Point>) -> bool {
        forall|k: int|
            #![trigger s[k]]
            0 <= k < s.len() ==> (self.valid_coord(s[k].x as int, s[k].y as int) && b[self.idx(
                s[k].x as int,
                s[k].y as int,
            )] == Squares::OpenSafe)
    }

    /// The flood-fill progress claim: every cell of interest (a worklist
    /// seed, or a cell the flood has opened) whose mine-neighbour count is
    /// zero and which is no longer pending has no closed safe neighbour
    /// left.
    pub open spec fn flood_closure(
        self,
        b0: Seq<Squares>,
        b: Seq<Squares>,
        w0: Seq<Point>,
        pend: Seq<Point>,
    ) -> bool {
        forall|a: int, c: int|
            #![trigger self.mine_neighbours(b, a, c)]
            (self.valid_coord(a, c) && (stack_has(w0, a, c) || (b0[self.idx(a, c)]
                == Squares::ClosedSafe && b[self.idx(a, c)] == Squares::OpenSafe))
                && self.mine_neighbours(b, a, c) == 0 && !stack_has(pend, a, c))
                ==> self.no_closed_safe_neighbour(b, a, c)
    }

    /// The only way a flood fill ever opens the cell (a, c): it touches a
    /// cell that is open with no mine neighbour and that is a worklist seed
    /// or was itself a closed safe cell before the flood began.
    pub open spec fn opened_from_zero(
        self,
        b0: Seq<Squares>,
        b: Seq<Squares>,
        w0: Seq<Point>,
        a: int,
        c: int,
    ) -> bool {
        exists|d: int, e: int|
            adjacent(a, c, d, e) && self.valid_coord(d, e) && b[self.idx(d, e)]
                == Squares::OpenSafe && #[trigger] self.mine_neighbours(b, d, e) == 0 && (
            stack_has(w0, d, e) || b0[self.idx(d, e)] == Squares::ClosedSafe)
    }

    /// Open the cell at (x, y) if it is a closed safe cell, and push its
    /// coordinate on the worklist; otherwise change nothing. One step of
    /// the flood fill's neighbour scan.
    fn open_step(&mut self, x: i32, y: i32, st: &mut Vec<Point>)
        requires
            old(self).well_formed(),
            old(self).stack_ok(old(self).board@, old(st)@),
        ensures
            final(self).well_formed(),
            final(self).board_size == old(self).board_size,
            final(self).ori_bomb_amount == old(self).ori_bomb_amount,
            final(self).game_state == old(self).game_state,
            final(self).stack_ok(final(self).board@, final(st)@),
            opened_only(old(self).board@, final(self).board@),
            !final(self).closed_safe_at(final(self).board@, x as int, y as int),
            old(self).closed_safe_at(old(self).board@, x as int, y as int) ==> (final(self).board@
                == old(self).board@.update(old(self).idx(x as int, y as int), Squares::OpenSafe)
                && final(st)@ == old(st)@.push(Point { x, y }) && count_closed_safe(
                final(self).board@,
            ) == count_closed_safe(old(self).board@) - 1),
            !old(self).closed_safe_at(old(self).board@, x as int, y as int) ==> (final(self).board@
                == old(self).board@ && final(st)@ == old(st)@),
            forall|a: int, c: int|
                #![trigger old(self).valid_coord(a, c)]
                (old(self).valid_coord(a, c) && final(self).board@[old(self).idx(a, c)] != old(
                    self,
                ).board@[old(self).idx(a, c)]) ==> (a == x as int && c == y as int && stack_has(
                    final(st)@,
                    a,
                    c,
                )),
            forall|a: int, c: int|
                #[trigger] stack_has(old(st)@, a, c) ==> stack_has(final(st)@, a, c),
    {
        if self.is_inside(x, y) {
            let c = self.square_at(x, y);
            if c == Squares::ClosedSafe {
                proof {
                    lemma_grid_index_bounds(self.width(), self.height(), x as int, y as int);
                    lemma_count_matching_update(
                        self.board@,
                        closed_safe_pred(),
                        self.idx(x as int, y as int),
                        Squares::OpenSafe,
                    );
                }
                let id = (y * self.board_size.x + x) as usize;
                self.board[id] = Squares::OpenSafe;
                st.push(Point::new(x, y));
                proof {
                    let g = *old(self);
                    let i0 = g.idx(x as int, y as int);
                    assert forall|a: int, cc: int|
                        (g.valid_coord(a, cc) && self.board@[g.idx(a, cc)] != g.board@[g.idx(
                            a,
                            cc,
                        )]) implies (a == x as int && cc == y as int && stack_has(
                        st@,
                        a,
                        cc,
                    )) by {
                        lemma_grid_index_bounds(g.width(), g.height(), a, cc);
                        lemma_grid_index_injective(
                            g.width(),
                            g.height(),
                            a,
                            cc,
                            x as int,
                            y as int,
                        );
                        assert(st@[st@.len() - 1] == (Point { x: a as i32, y: cc as i32 }));
                    }
                    assert forall|a: int, cc: int| stack_has(old(st)@, a, cc) implies stack_has(
                        st@,
                        a,
                        cc,
                    ) by {
                        lemma_stack_has_push(old(st)@, Point { x, y }, a, cc);
                    }
                    assert forall|k: int|
                        0 <= k < st@.len() implies (self.valid_coord(
                        #[trigger] st@[k].x as int,
                        st@[k].y as int,
                    ) && self.board@[self.idx(st@[k].x as int, st@[k].y as int)]
                        == Squares::OpenSafe) by {
                        if k < st@.len() - 1 {
                            assert(st@[k] == old(st)@[k]);
                            lemma_grid_index_bounds(
                                g.width(),
                                g.height(),
                                st@[k].x as int,
                                st@[k].y as int,
                            );
                        }
                    }
                }
            }
        }
    }
}

impl MinesweeperGame {
    /// The flood fill, run on an explicit worklist of already-open cells:
    /// repeatedly take a pending coordinate; when its mine-neighbour count
    /// is zero, open every closed safe neighbour and make it pending in
    /// turn. Only closed safe cells change, each to open; when the worklist
    /// is exhausted, no worklist seed and no cell this call opened both
    /// counts zero mine neighbours and still has a closed safe neighbour.
    #[verifier::rlimit(100)]
    #[verifier::spinoff_prover]
    fn cascade(&mut self, work: Vec<Point>)
        requires
            old(self).well_formed(),
            old(self).stack_ok(old(self).board@, work@),
        ensures
            final(self).well_formed(),
            final(self).board_size == old(self).board_size,
            final(self).ori_bomb_amount == old(self).ori_bomb_amount,
            final(self).game_state == old(self).game_state,
            opened_only(old(self).board@, final(self).board@),
            final(self).flood_closure(
                old(self).board@,
                final(self).board@,
                work@,
                Seq::<Point>::empty(),
            ),
            forall|a: int, c: int|
                #![trigger old(self).board@[old(self).idx(a, c)]]
                (old(self).valid_coord(a, c) && old(self).board@[old(self).idx(a, c)]
                    == Squares::ClosedSafe && final(self).board@[old(self).idx(a, c)]
                    == Squares::OpenSafe) ==> old(self).opened_from_zero(
                    old(self).board@,
                    final(self).board@,
                    work@,
                    a,
                    c,
                ),
    {
        let ghost gbase = *self;
        let ghost b0 = self.board@;
        let ghost w0 = work@;
        let ghost bs0 = self.board_size;
        let ghost ori0 = self.ori_bomb_amount;
        let ghost gs0 = self.game_state;
        let mut st = work;
        proof {
            assert forall|k: int| 0 <= k < st@.len() implies stack_has(
                w0,
                st@[k].x as int,
                st@[k].y as int,
            ) by {
                assert(w0[k] == (Point {
                    x: (st@[k].x as int) as i32,
                    y: (st@[k].y as int) as i32,
                }));
            }
        }
        while st.len() > 0
            invariant
                self.well_formed(),
                self.board_size == bs0,
                self.ori_bomb_amount == ori0,
                self.game_state == gs0,
                b0.len() == self.board@.len(),
                opened_only(b0, self.board@),
                self.stack_ok(self.board@, st@),
                self.flood_closure(b0, self.board@, w0, st@),
                gbase.well_formed(),
                gbase.board_size == bs0,
                gbase.board@ == b0,
                forall|k: int|
                    #![trigger st@[k]]
                    0 <= k < st@.len() ==> (stack_has(w0, st@[k].x as int, st@[k].y as int)
                        || b0[gbase.idx(st@[k].x as int, st@[k].y as int)]
                        == Squares::ClosedSafe),
                forall|a: int, c: int|
                    #![trigger b0[gbase.idx(a, c)]]
                    (gbase.valid_coord(a, c) && b0[gbase.idx(a, c)] == Squares::ClosedSafe
                        && self.board@[gbase.idx(a, c)] == Squares::OpenSafe)
                        ==> gbase.opened_from_zero(b0, self.board@, w0, a, c),
            decreases count_closed_safe(self.board@), st@.len(),
        {
            let ghost gprev = *self;
            let ghost prev = self.board@;
            let ghost st_prev = st@;
            let p = st.pop().unwrap();
            proof {
                assert(st_prev[st_prev.len() - 1] == p);
                assert(self.valid_coord(p.x as int, p.y as int));
                assert(self.board@[self.idx(p.x as int, p.y as int)] == Squares::OpenSafe);
                assert(stack_has(w0, p.x as int, p.y as int) || b0[gbase.idx(
                    p.x as int,
                    p.y as int,
                )] == Squares::ClosedSafe);
                assert forall|k: int|
                    0 <= k < st@.len() implies (self.valid_coord(
                    #[trigger] st@[k].x as int,
                    st@[k].y as int,
                ) && self.board@[self.idx(st@[k].x as int, st@[k].y as int)]
                    == Squares::OpenSafe) by {
                    assert(st@[k] == st_prev[k]);
                }
            }
            let ghost s_pop = st@;
            let n = self.count_mine_neighbours_at(p.x, p.y);
            if n == 0 {
                self.open_step(p.x - 1, p.y - 1, &mut st);
                let ghost g1 = *self;
                let ghost m1 = self.board@;
                let ghost t1 = st@;
                self.open_step(p.x - 1, p.y, &mut st);
                let ghost g2 = *self;
                let ghost m2 = self.board@;
                let ghost t2 = st@;
                self.open_step(p.x - 1, p.y + 1, &mut st);
                let ghost g3 = *self;
                let ghost m3 = self.board@;
                let ghost t3 = st@;
                self.open_step(p.x, p.y - 1, &mut st);
                let ghost g4 = *self;
                let ghost m4 = self.board@;
                let ghost t4 = st@;
                self.open_step(p.x, p.y + 1, &mut st);
                let ghost g5 = *self;
                let ghost m5 = self.board@;
                let ghost t5 = st@;
                self.open_step(p.x + 1, p.y - 1, &mut st);
                let ghost g6 = *self;
                let ghost m6 = self.board@;
                let ghost t6 = st@;
                self.open_step(p.x + 1, p.y, &mut st);
                let ghost g7 = *self;
                let ghost m7 = self.board@;
                let ghost t7 = st@;
                self.open_step(p.x + 1, p.y + 1, &mut st);
                proof {
                    let g8 = *self;
                    let m8 = self.board@;
                    let t8 = st@;
                    let px = p.x as int;
                    let py = p.y as int;
                    // chain the one-step frames into iteration-level frames
                    lemma_opened_only_trans(prev, m1, m2);
                    lemma_opened_only_trans(prev, m2, m3);
                    lemma_opened_only_trans(prev, m3, m4);
                    lemma_opened_only_trans(prev, m4, m5);
                    lemma_opened_only_trans(prev, m5, m6);
                    lemma_opened_only_trans(prev, m6, m7);
                    lemma_opened_only_trans(prev, m7, m8);
                    lemma_opened_only_trans(b0, prev, m8);
                    // the popped cell keeps a cleared neighbourhood
                    lemma_opened_only_trans(m1, m2, m8);
                    lemma_opened_only_trans(m2, m3, m8);
                    lemma_opened_only_trans(m3, m4, m8);
                    lemma_opened_only_trans(m4, m5, m8);
                    lemma_opened_only_trans(m5, m6, m8);
                    lemma_opened_only_trans(m6, m7, m8);
                    lemma_opened_only_not_cs(gprev, m1, m8, px - 1, py - 1);
                    lemma_opened_only_not_cs(gprev, m2, m8, px - 1, py);
                    lemma_opened_only_not_cs(gprev, m3, m8, px - 1, py + 1);
                    lemma_opened_only_not_cs(gprev, m4, m8, px, py - 1);
                    lemma_opened_only_not_cs(gprev, m5, m8, px, py + 1);
                    lemma_opened_only_not_cs(gprev, m6, m8, px + 1, py - 1);
                    lemma_opened_only_not_cs(gprev, m7, m8, px + 1, py);
                    assert(gprev.no_closed_safe_neighbour(m8, px, py));
                    // the closure claim survives the iteration
                    assert forall|a: int, c: int|
                        (gprev.valid_coord(a, c) && (stack_has(w0, a, c) || (b0[gprev.idx(a, c)]
                            == Squares::ClosedSafe && m8[gprev.idx(a, c)] == Squares::OpenSafe))
                            && gprev.mine_neighbours(m8, a, c) == 0 && !stack_has(
                            t8,
                            a,
                            c,
                        )) implies gprev.no_closed_safe_neighbour(m8, a, c) by {
                        let i = gprev.idx(a, c);
                        lemma_grid_index_bounds(gprev.width(), gprev.height(), a, c);
                        lemma_opened_only_counts(gprev, prev, m8, a, c);
                        if a == px && c == py {
                            // handled above: its neighbourhood was just cleared
                        } else {
                            // it was not pushed this iteration
                            assert(gprev.valid_coord(a, c));
                            assert(g1.valid_coord(a, c));
                            assert(g2.valid_coord(a, c));
                            assert(g3.valid_coord(a, c));
                            assert(g4.valid_coord(a, c));
                            assert(g5.valid_coord(a, c));
                            assert(g6.valid_coord(a, c));
                            assert(g7.valid_coord(a, c));
                            if m8[i] != prev[i] {
                                // opened by one of the eight steps, hence pushed,
                                // hence still pending: nothing to show
                                if m1[i] != prev[i] {
                                    assert(stack_has(t1, a, c));
                                } else if m2[i] != m1[i] {
                                    assert(stack_has(t2, a, c));
                                } else if m3[i] != m2[i] {
                                    assert(stack_has(t3, a, c));
                                } else if m4[i] != m3[i] {
                                    assert(stack_has(t4, a, c));
                                } else if m5[i] != m4[i] {
                                    assert(stack_has(t5, a, c));
                                } else if m6[i] != m5[i] {
                                    assert(stack_has(t6, a, c));
                                } else if m7[i] != m6[i] {
                                    assert(stack_has(t7, a, c));
                                } else {
                                    assert(m8[i] != m7[i]);
                                    assert(stack_has(t8, a, c));
                                }
                                assert(stack_has(t8, a, c));
                                assert(false);
                            } else {
                                // untouched this iteration: the claim held before
                                if stack_has(st_prev, a, c) {
                                    let k = choose|k: int|
                                        0 <= k < st_prev.len() && #[trigger] st_prev[k] == (Point {
                                            x: a as i32,
                                            y: c as i32,
                                        });
                                    if k < st_prev.len() - 1 {
                                        assert(s_pop[k] == st_prev[k]);
                                        assert(stack_has(s_pop, a, c));
                                        assert(stack_has(t1, a, c));
                                        assert(stack_has(t2, a, c));
                                        assert(stack_has(t3, a, c));
                                        assert(stack_has(t4, a, c));
                                        assert(stack_has(t5, a, c));
                                        assert(stack_has(t6, a, c));
                                        assert(stack_has(t7, a, c));
                                        assert(stack_has(t8, a, c));
                                        assert(false);
                                    } else {
                                        assert(st_prev[k] == p);
                                        assert(false);
                                    }
                                }
                                assert(gprev.mine_neighbours(prev, a, c) == 0);
                                assert(gprev.no_closed_safe_neighbour(prev, a, c));
                                lemma_opened_only_no_cs_nbr(gprev, prev, m8, a, c);
                            }
                        }
                    }
                    assert(self.flood_closure(b0, self.board@, w0, st@));
                    // every worklist entry is still a seed or a cell that
                    // was closed safe before the flood began
                    assert forall|k: int|
                        0 <= k < t8.len() implies (stack_has(w0, t8[k].x as int, t8[k].y as int)
                        || b0[gbase.idx(t8[k].x as int, t8[k].y as int)]
                        == Squares::ClosedSafe) by {
                        if k < s_pop.len() {
                            assert(s_pop[k] == st_prev[k]);
                            assert(t1[k] == s_pop[k]);
                            assert(t2[k] == t1[k]);
                            assert(t3[k] == t2[k]);
                            assert(t4[k] == t3[k]);
                            assert(t5[k] == t4[k]);
                            assert(t6[k] == t5[k]);
                            assert(t7[k] == t6[k]);
                            assert(t8[k] == t7[k]);
                        } else if k < t1.len() {
                            assert(t8[k] == t1[k]);
                            assert(t1[k] == (Point { x: (p.x - 1) as i32, y: (p.y - 1) as i32 }));
                            assert(gprev.closed_safe_at(prev, px - 1, py - 1));
                            lemma_grid_index_bounds(gbase.width(), gbase.height(), px - 1, py - 1);
                        } else if k < t2.len() {
                            assert(t8[k] == t2[k]);
                            assert(t2[k] == (Point { x: (p.x - 1) as i32, y: p.y }));
                            assert(g1.closed_safe_at(m1, px - 1, py));
                            lemma_grid_index_bounds(gbase.width(), gbase.height(), px - 1, py);
                        } else if k < t3.len() {
                            assert(t8[k] == t3[k]);
                            assert(t3[k] == (Point { x: (p.x - 1) as i32, y: (p.y + 1) as i32 }));
                            assert(g2.closed_safe_at(m2, px - 1, py + 1));
                            lemma_grid_index_bounds(gbase.width(), gbase.height(), px - 1, py + 1);
                        } else if k < t4.len() {
                            assert(t8[k] == t4[k]);
                            assert(t4[k] == (Point { x: p.x, y: (p.y - 1) as i32 }));
                            assert(g3.closed_safe_at(m3, px, py - 1));
                            lemma_grid_index_bounds(gbase.width(), gbase.height(), px, py - 1);
                        } else if k < t5.len() {
                            assert(t8[k] == t5[k]);
                            assert(t5[k] == (Point { x: p.x, y: (p.y + 1) as i32 }));
                            assert(g4.closed_safe_at(m4, px, py + 1));
                            lemma_grid_index_bounds(gbase.width(), gbase.height(), px, py + 1);
                        } else if k < t6.len() {
                            assert(t8[k] == t6[k]);
                            assert(t6[k] == (Point { x: (p.x + 1) as i32, y: (p.y - 1) as i32 }));
                            assert(g5.closed_safe_at(m5, px + 1, py - 1));
                            lemma_grid_index_bounds(gbase.width(), gbase.height(), px + 1, py - 1);
                        } else if k < t7.len() {
                            assert(t8[k] == t7[k]);
                            assert(t7[k] == (Point { x: (p.x + 1) as i32, y: p.y }));
                            assert(g6.closed_safe_at(m6, px + 1, py));
                            lemma_grid_index_bounds(gbase.width(), gbase.height(), px + 1, py);
                        } else {
                            assert(t8[k] == (Point { x: (p.x + 1) as i32, y: (p.y + 1) as i32 }));
                            assert(g7.closed_safe_at(m7, px + 1, py + 1));
                            lemma_grid_index_bounds(gbase.width(), gbase.height(), px + 1, py + 1);
                        }
                    }
                    // every cell this iteration opened touches the popped
                    // cell, which counts zero mines and was itself a seed or
                    // a closed safe cell: openings stay justified
                    assert(gbase.mine_neighbours(prev, px, py) == 0);
                    lemma_opened_only_counts(gbase, prev, m8, px, py);
                    assert forall|a: int, c: int|
                        (gbase.valid_coord(a, c) && b0[gbase.idx(a, c)] == Squares::ClosedSafe
                            && m8[gbase.idx(a, c)] == Squares::OpenSafe) implies
                        gbase.opened_from_zero(b0, m8, w0, a, c) by {
                        let i = gbase.idx(a, c);
                        lemma_grid_index_bounds(gbase.width(), gbase.height(), a, c);
                        if prev[i] == Squares::OpenSafe {
                            assert(gbase.opened_from_zero(b0, prev, w0, a, c));
                            let (d, e) = choose|d: int, e: int|
                                adjacent(a, c, d, e) && gbase.valid_coord(d, e) && prev[gbase.idx(
                                    d,
                                    e,
                                )] == Squares::OpenSafe && #[trigger] gbase.mine_neighbours(
                                    prev,
                                    d,
                                    e,
                                ) == 0 && (stack_has(w0, d, e) || b0[gbase.idx(d, e)]
                                == Squares::ClosedSafe);
                            lemma_grid_index_bounds(gbase.width(), gbase.height(), d, e);
                            lemma_opened_only_counts(gbase, prev, m8, d, e);
                            assert(gbase.mine_neighbours(m8, d, e) == 0);
                            assert(gbase.opened_from_zero(b0, m8, w0, a, c));
                        } else {
                            assert(prev[i] == Squares::ClosedSafe);
                            assert(gprev.valid_coord(a, c));
                            assert(g1.valid_coord(a, c));
                            assert(g2.valid_coord(a, c));
                            assert(g3.valid_coord(a, c));
                            assert(g4.valid_coord(a, c));
                            assert(g5.valid_coord(a, c));
                            assert(g6.valid_coord(a, c));
                            assert(g7.valid_coord(a, c));
                            if m1[i] != prev[i] {
                                assert(a == px - 1 && c == py - 1);
                            } else if m2[i] != m1[i] {
                                assert(a == px - 1 && c == py);
                            } else if m3[i] != m2[i] {
                                assert(a == px - 1 && c == py + 1);
                            } else if m4[i] != m3[i] {
                                assert(a == px && c == py - 1);
                            } else if m5[i] != m4[i] {
                                assert(a == px && c == py + 1);
                            } else if m6[i] != m5[i] {
                                assert(a == px + 1 && c == py - 1);
                            } else if m7[i] != m6[i] {
                                assert(a == px + 1 && c == py);
                            } else {
                                assert(m8[i] != m7[i]);
                                assert(a == px + 1 && c == py + 1);
                            }
                            assert(adjacent(a, c, px, py));
                            lemma_grid_index_bounds(gbase.width(), gbase.height(), px, py);
                            assert(prev[gbase.idx(px, py)] == Squares::OpenSafe);
                            assert(m8[gbase.idx(px, py)] == Squares::OpenSafe);
                            assert(gbase.mine_neighbours(m8, px, py) == 0);
                            assert(stack_has(w0, px, py) || b0[gbase.idx(px, py)]
                                == Squares::ClosedSafe);
                            assert(gbase.opened_from_zero(b0, m8, w0, a, c));
                        }
                    }
                    // the termination measure falls: opening a cell lowers the
                    // closed-safe count and is matched by its push, so the
                    // count-plus-pending sum drops by exactly the pop
                    lemma_count_matching_bounds(m8, closed_safe_pred());
                    assert(count_closed_safe(m1) + t1.len() == count_closed_safe(prev)
                        + s_pop.len());
                    assert(count_closed_safe(m2) + t2.len() == count_closed_safe(prev)
                        + s_pop.len());
                    assert(count_closed_safe(m3) + t3.len() == count_closed_safe(prev)
                        + s_pop.len());
                    assert(count_closed_safe(m4) + t4.len() == count_closed_safe(prev)
                        + s_pop.len());
                    assert(count_closed_safe(m5) + t5.len() == count_closed_safe(prev)
                        + s_pop.len());
                    assert(count_closed_safe(m6) + t6.len() == count_closed_safe(prev)
                        + s_pop.len());
                    assert(count_closed_safe(m7) + t7.len() == count_closed_safe(prev)
                        + s_pop.len());
                    assert(count_closed_safe(m8) + t8.len() == count_closed_safe(prev)
                        + s_pop.len());
                    assert(count_closed_safe(m1) <= count_closed_safe(prev));
                    assert(count_closed_safe(m2) <= count_closed_safe(m1));
                    assert(count_closed_safe(m3) <= count_closed_safe(m2));
                    assert(count_closed_safe(m4) <= count_closed_safe(m3));
                    assert(count_closed_safe(m5) <= count_closed_safe(m4));
                    assert(count_closed_safe(m6) <= count_closed_safe(m5));
                    assert(count_closed_safe(m7) <= count_closed_safe(m6));
                    assert(count_closed_safe(m8) <= count_closed_safe(prev));
                    assert(count_closed_safe(m8) == count_closed_safe(prev) ==> t8.len()
                        < st_prev.len());
                }
            } else {
                proof {
                    assert forall|a: int, c: int|
                        (gprev.valid_coord(a, c) && (stack_has(w0, a, c) || (b0[gprev.idx(a, c)]
                            == Squares::ClosedSafe && prev[gprev.idx(a, c)] == Squares::OpenSafe))
                            && gprev.mine_neighbours(prev, a, c) == 0 && !stack_has(
                            s_pop,
                            a,
                            c,
                        )) implies gprev.no_closed_safe_neighbour(prev, a, c) by {
                        if a == p.x as int && c == p.y as int {
                            assert(gprev.mine_neighbours(prev, a, c) == n as int);
                            assert(false);
                        } else {
                            if stack_has(st_prev, a, c) {
                                let k = choose|k: int|
                                    0 <= k < st_prev.len() && #[trigger] st_prev[k] == (Point {
                                        x: a as i32,
                                        y: c as i32,
                                    });
                                if k < st_prev.len() - 1 {
                                    assert(s_pop[k] == st_prev[k]);
                                    assert(stack_has(s_pop, a, c));
                                    assert(false);
                                } else {
                                    assert(st_prev[k] == p);
                                    assert(false);
                                }
                            }
                        }
                    }
                    assert(self.flood_closure(b0, self.board@, w0, st@));
                }
            }
        }
        proof {
            assert forall|a: int, c: int| !stack_has(st@, a, c) by {
                if stack_has(st@, a, c) {
                    let k = choose|k: int|
                        0 <= k < st@.len() && #[trigger] st@[k] == (Point {
                            x: a as i32,
                            y: c as i32,
                        });
                    assert(false);
                }
            }
        }
    }
}

impl MinesweeperGame {
    /// The closure property a reveal establishes: every cell this call
    /// opened (and the origin itself, when open) whose mine-neighbour count
    /// is zero has no closed safe neighbour left, so the flood stopped only
    /// at numbered cells, flags and edges.
    pub open spec fn reveal_closure(self, b1: Seq<Squares>, b2: Seq<Squares>, ox: int, oy: int) -> bool {
        forall|a: int, c: int|
            #![trigger self.mine_neighbours(b2, a, c)]
            (self.valid_coord(a, c) && ((b1[self.idx(a, c)] == Squares::ClosedSafe && b2[self.idx(
                a,
                c,
            )] == Squares::OpenSafe) || (a == ox && c == oy && b2[self.idx(a, c)]
                == Squares::OpenSafe)) && self.mine_neighbours(b2, a, c) == 0)
                ==> self.no_closed_safe_neighbour(b2, a, c)
    }

    /// One step of a chord reveal's neighbour scan: report an unflagged
    /// mine, or open the cell if it is closed and safe.
    fn chord_step(&mut self, x: i32, y: i32, st: &mut Vec<Point>) -> (hit: bool)
        requires
            old(self).well_formed(),
            old(self).stack_ok(old(self).board@, old(st)@),
        ensures
            final(self).well_formed(),
            final(self).board_size == old(self).board_size,
            final(self).ori_bomb_amount == old(self).ori_bomb_amount,
            final(self).game_state == old(self).game_state,
            final(self).stack_ok(final(self).board@, final(st)@),
            opened_only(old(self).board@, final(self).board@),
            hit == old(self).closed_mine_at(old(self).board@, x as int, y as int),
            hit ==> (final(self).board@ == old(self).board@ && final(st)@ == old(st)@),
            !hit ==> !final(self).closed_safe_at(final(self).board@, x as int, y as int),
            old(self).closed_safe_at(old(self).board@, x as int, y as int) ==> (final(self).board@
                == old(self).board@.update(old(self).idx(x as int, y as int), Squares::OpenSafe)
                && final(st)@ == old(st)@.push(Point { x, y })),
            (!hit && !old(self).closed_safe_at(old(self).board@, x as int, y as int))
                ==> (final(self).board@ == old(self).board@ && final(st)@ == old(st)@),
            forall|a: int, c: int|
                #![trigger old(self).valid_coord(a, c)]
                (old(self).valid_coord(a, c) && final(self).board@[old(self).idx(a, c)] != old(
                    self,
                ).board@[old(self).idx(a, c)]) ==> (a == x as int && c == y as int && stack_has(
                    final(st)@,
                    a,
                    c,
                )),
            forall|a: int, c: int|
                #[trigger] stack_has(old(st)@, a, c) ==> stack_has(final(st)@, a, c),
    {
        if self.is_inside(x, y) {
            let c = self.square_at(x, y);
            if c == Squares::ClosedMine {
                return true;
            }
        }
        self.open_step(x, y, st);
        false
    }

    /// The neighbour scan of a chord reveal: open every closed safe
    /// neighbour of (x, y), aborting the scan on the first unflagged mine.
    #[verifier::rlimit(100)]
    #[verifier::spinoff_prover]
    fn chord_scan(&mut self, x: i32, y: i32, st: &mut Vec<Point>) -> (hit: bool)
        requires
            old(self).well_formed(),
            old(self).valid_coord(x as int, y as int),
            old(st)@.len() == 0,
        ensures
            final(self).well_formed(),
            final(self).board_size == old(self).board_size,
            final(self).ori_bomb_amount == old(self).ori_bomb_amount,
            final(self).game_state == old(self).game_state,
            opened_only(old(self).board@, final(self).board@),
            final(self).stack_ok(final(self).board@, final(st)@),
            hit == old(self).closed_mine_neighbour(old(self).board@, x as int, y as int),
            !hit ==> final(self).no_closed_safe_neighbour(
                final(self).board@,
                x as int,
                y as int,
            ),
            !hit ==> forall|a: int, c: int|
                #![trigger old(self).valid_coord(a, c)]
                (old(self).valid_coord(a, c) && final(self).board@[old(self).idx(a, c)] != old(
                    self,
                ).board@[old(self).idx(a, c)]) ==> (stack_has(final(st)@, a, c) && adjacent(
                    a,
                    c,
                    x as int,
                    y as int,
                )),
            !hit ==> forall|k: int|
                #![trigger final(st)@[k]]
                0 <= k < final(st)@.len() ==> (old(self).valid_coord(
                    final(st)@[k].x as int,
                    final(st)@[k].y as int,
                ) && old(self).board@[old(self).idx(
                    final(st)@[k].x as int,
                    final(st)@[k].y as int,
                )] == Squares::ClosedSafe),
    {
        let ghost g0 = *self;
        let ghost b0 = self.board@;
        let px = x;
        let py = y;
        if self.chord_step(px - 1, py - 1, st) {
            return true;
        }
        let ghost g1 = *self;
        let ghost m1 = self.board@;
        let ghost t1 = st@;
        if self.chord_step(px - 1, py, st) {
            proof {
                lemma_opened_only_mine_at(g0, b0, m1, px as int - 1, py as int);
            }
            return true;
        }
        let ghost g2 = *self;
        let ghost m2 = self.board@;
        let ghost t2 = st@;
        if self.chord_step(px - 1, py + 1, st) {
            proof {
                lemma_opened_only_trans(b0, m1, m2);
                lemma_opened_only_mine_at(g0, b0, m2, px as int - 1, py as int + 1);
            }
            return true;
        }
        let ghost g3 = *self;
        let ghost m3 = self.board@;
        let ghost t3 = st@;
        if self.chord_step(px, py - 1, st) {
            proof {
                lemma_opened_only_trans(b0, m1, m2);
                lemma_opened_only_trans(b0, m2, m3);
                lemma_opened_only_mine_at(g0, b0, m3, px as int, py as int - 1);
            }
            return true;
        }
        let ghost g4 = *self;
        let ghost m4 = self.board@;
        let ghost t4 = st@;
        if self.chord_step(px, py + 1, st) {
            proof {
                lemma_opened_only_trans(b0, m1, m2);
                lemma_opened_only_trans(b0, m2, m3);
                lemma_opened_only_trans(b0, m3, m4);
                lemma_opened_only_mine_at(g0, b0, m4, px as int, py as int + 1);
            }
            return true;
        }
        let ghost g5 = *self;
        let ghost m5 = self.board@;
        let ghost t5 = st@;
        if self.chord_step(px + 1, py - 1, st) {
            proof {
                lemma_opened_only_trans(b0, m1, m2);
                lemma_opened_only_trans(b0, m2, m3);
                lemma_opened_only_trans(b0, m3, m4);
                lemma_opened_only_trans(b0, m4, m5);
                lemma_opened_only_mine_at(g0, b0, m5, px as int + 1, py as int - 1);
            }
            return true;
        }
        let ghost g6 = *self;
        let ghost m6 = self.board@;
        let ghost t6 = st@;
        if self.chord_step(px + 1, py, st) {
            proof {
                lemma_opened_only_trans(b0, m1, m2);
                lemma_opened_only_trans(b0, m2, m3);
                lemma_opened_only_trans(b0, m3, m4);
                lemma_opened_only_trans(b0, m4, m5);
                lemma_opened_only_trans(b0, m5, m6);
                lemma_opened_only_mine_at(g0, b0, m6, px as int + 1, py as int);
            }
            return true;
        }
        let ghost g7 = *self;
        let ghost m7 = self.board@;
        let ghost t7 = st@;
        if self.chord_step(px + 1, py + 1, st) {
            proof {
                lemma_opened_only_trans(b0, m1, m2);
                lemma_opened_only_trans(b0, m2, m3);
                lemma_opened_only_trans(b0, m3, m4);
                lemma_opened_only_trans(b0, m4, m5);
                lemma_opened_only_trans(b0, m5, m6);
                lemma_opened_only_trans(b0, m6, m7);
                lemma_opened_only_mine_at(g0, b0, m7, px as int + 1, py as int + 1);
            }
            return true;
        }
        proof {
            let g8 = *self;
            let m8 = self.board@;
            let t8 = st@;
            let ox = px as int;
            let oy = py as int;
            lemma_opened_only_trans(b0, m1, m2);
            lemma_opened_only_trans(b0, m2, m3);
            lemma_opened_only_trans(b0, m3, m4);
            lemma_opened_only_trans(b0, m4, m5);
            lemma_opened_only_trans(b0, m5, m6);
            lemma_opened_only_trans(b0, m6, m7);
            lemma_opened_only_trans(b0, m7, m8);
            // no unflagged mine was met anywhere in the scan
            lemma_opened_only_mine_at(g0, b0, m1, ox - 1, oy);
            lemma_opened_only_mine_at(g0, b0, m2, ox - 1, oy + 1);
            lemma_opened_only_mine_at(g0, b0, m3, ox, oy - 1);
            lemma_opened_only_mine_at(g0, b0, m4, ox, oy + 1);
            lemma_opened_only_mine_at(g0, b0, m5, ox + 1, oy - 1);
            lemma_opened_only_mine_at(g0, b0, m6, ox + 1, oy);
            lemma_opened_only_mine_at(g0, b0, m7, ox + 1, oy + 1);
            assert(!g0.closed_mine_neighbour(b0, ox, oy));
            // every closed safe neighbour was opened and stays open
            lemma_opened_only_trans(m1, m2, m8);
            lemma_opened_only_trans(m2, m3, m8);
            lemma_opened_only_trans(m3, m4, m8);
            lemma_opened_only_trans(m4, m5, m8);
            lemma_opened_only_trans(m5, m6, m8);
            lemma_opened_only_trans(m6, m7, m8);
            lemma_opened_only_not_cs(g0, m1, m8, ox - 1, oy - 1);
            lemma_opened_only_not_cs(g0, m2, m8, ox - 1, oy);
            lemma_opened_only_not_cs(g0, m3, m8, ox - 1, oy + 1);
            lemma_opened_only_not_cs(g0, m4, m8, ox, oy - 1);
            lemma_opened_only_not_cs(g0, m5, m8, ox, oy + 1);
            lemma_opened_only_not_cs(g0, m6, m8, ox + 1, oy - 1);
            lemma_opened_only_not_cs(g0, m7, m8, ox + 1, oy);
            assert(g0.no_closed_safe_neighbour(m8, ox, oy));
            // every cell the scan opened went on the worklist
            assert forall|a: int, c: int|
                (g0.valid_coord(a, c) && m8[g0.idx(a, c)] != b0[g0.idx(a, c)]) implies (stack_has(
                t8,
                a,
                c,
            ) && adjacent(a, c, ox, oy)) by {
                let i = g0.idx(a, c);
                assert(g1.valid_coord(a, c));
                assert(g2.valid_coord(a, c));
                assert(g3.valid_coord(a, c));
                assert(g4.valid_coord(a, c));
                assert(g5.valid_coord(a, c));
                assert(g6.valid_coord(a, c));
                assert(g7.valid_coord(a, c));
                if m1[i] != b0[i] {
                    assert(stack_has(t1, a, c));
                    assert(a == ox - 1 && c == oy - 1);
                } else if m2[i] != m1[i] {
                    assert(stack_has(t2, a, c));
                    assert(a == ox - 1 && c == oy);
                } else if m3[i] != m2[i] {
                    assert(stack_has(t3, a, c));
                    assert(a == ox - 1 && c == oy + 1);
                } else if m4[i] != m3[i] {
                    assert(stack_has(t4, a, c));
                    assert(a == ox && c == oy - 1);
                } else if m5[i] != m4[i] {
                    assert(stack_has(t5, a, c));
                    assert(a == ox && c == oy + 1);
                } else if m6[i] != m5[i] {
                    assert(stack_has(t6, a, c));
                    assert(a == ox + 1 && c == oy - 1);
                } else if m7[i] != m6[i] {
                    assert(stack_has(t7, a, c));
                    assert(a == ox + 1 && c == oy);
                } else {
                    assert(m8[i] != m7[i]);
                    assert(stack_has(t8, a, c));
                    assert(a == ox + 1 && c == oy + 1);
                }
            }
            // every worklist entry the scan pushed was a closed safe cell
            assert forall|k: int|
                0 <= k < t8.len() implies (g0.valid_coord(t8[k].x as int, t8[k].y as int)
                && b0[g0.idx(t8[k].x as int, t8[k].y as int)] == Squares::ClosedSafe) by {
                if k < t1.len() {
                    assert(t8[k] == t1[k]);
                    assert(t1[k] == (Point { x: (px - 1) as i32, y: (py - 1) as i32 }));
                    assert(g0.closed_safe_at(b0, ox - 1, oy - 1));
                    lemma_grid_index_bounds(g0.width(), g0.height(), ox - 1, oy - 1);
                } else if k < t2.len() {
                    assert(t8[k] == t2[k]);
                    assert(t2[k] == (Point { x: (px - 1) as i32, y: py }));
                    assert(g1.closed_safe_at(m1, ox - 1, oy));
                    lemma_grid_index_bounds(g0.width(), g0.height(), ox - 1, oy);
                } else if k < t3.len() {
                    assert(t8[k] == t3[k]);
                    assert(t3[k] == (Point { x: (px - 1) as i32, y: (py + 1) as i32 }));
                    assert(g2.closed_safe_at(m2, ox - 1, oy + 1));
                    lemma_grid_index_bounds(g0.width(), g0.height(), ox - 1, oy + 1);
                } else if k < t4.len() {
                    assert(t8[k] == t4[k]);
                    assert(t4[k] == (Point { x: px, y: (py - 1) as i32 }));
                    assert(g3.closed_safe_at(m3, ox, oy - 1));
                    lemma_grid_index_bounds(g0.width(), g0.height(), ox, oy - 1);
                } else if k < t5.len() {
                    assert(t8[k] == t5[k]);
                    assert(t5[k] == (Point { x: px, y: (py + 1) as i32 }));
                    assert(g4.closed_safe_at(m4, ox, oy + 1));
                    lemma_grid_index_bounds(g0.width(), g0.height(), ox, oy + 1);
                } else if k < t6.len() {
                    assert(t8[k] == t6[k]);
                    assert(t6[k] == (Point { x: (px + 1) as i32, y: (py - 1) as i32 }));
                    assert(g5.closed_safe_at(m5, ox + 1, oy - 1));
                    lemma_grid_index_bounds(g0.width(), g0.height(), ox + 1, oy - 1);
                } else if k < t7.len() {
                    assert(t8[k] == t7[k]);
                    assert(t7[k] == (Point { x: (px + 1) as i32, y: py }));
                    assert(g6.closed_safe_at(m6, ox + 1, oy));
                    lemma_grid_index_bounds(g0.width(), g0.height(), ox + 1, oy);
                } else {
                    assert(t8[k] == (Point { x: (px + 1) as i32, y: (py + 1) as i32 }));
                    assert(g7.closed_safe_at(m7, ox + 1, oy + 1));
                    lemma_grid_index_bounds(g0.width(), g0.height(), ox + 1, oy + 1);
                }
            }
        }
        false
    }
}

impl MinesweeperGame {
    /// Reveal the cell at (x, y), dispatching on its current state: an
    /// unflagged mine loses the game and stays closed; a closed safe cell
    /// opens, flooding outward when its mine-neighbour count is zero; an
    /// open cell whose flag count matches its mine count chord-reveals its
    /// neighbours, losing at once on an unflagged mine; flagged cells are
    /// left alone. A no-op once the game is over; rejects coordinates off
    /// the board; re-evaluates the win condition after a reveal that did
    /// not lose.
    #[verifier::rlimit(100)]
    #[verifier::spinoff_prover]
    pub fn reveal_cell(&mut self, xpos: i32, ypos: i32) -> (r: Result<(), GameError>)
        requires
            old(self).well_formed(),
        ensures
            final(self).well_formed(),
            final(self).board_size == old(self).board_size,
            final(self).ori_bomb_amount == old(self).ori_bomb_amount,
            r is Err <==> !old(self).valid_coord(xpos as int, ypos as int),
            r is Err ==> (r == Err::<(), GameError>(GameError::InvalidCoordinate)
                && final(self).board@ == old(self).board@
                && final(self).game_state == old(self).game_state),
            (r is Ok && old(self).game_state != State::Ongoing) ==> (final(self).board@
                == old(self).board@ && final(self).game_state == old(self).game_state),
            (r is Ok && old(self).game_state == State::Ongoing && old(self).board@[old(self).idx(
                xpos as int,
                ypos as int,
            )] == Squares::ClosedMine) ==> (final(self).board@ == old(self).board@
                && final(self).game_state == State::Lost),
            (r is Ok && old(self).game_state == State::Ongoing && is_flagged(
                old(self).board@[old(self).idx(xpos as int, ypos as int)],
            )) ==> (final(self).board@ == old(self).board@ && final(self).game_state
                == State::Ongoing),
            (r is Ok && old(self).game_state == State::Ongoing && old(self).board@[old(self).idx(
                xpos as int,
                ypos as int,
            )] == Squares::ClosedSafe && old(self).mine_neighbours(
                old(self).board@,
                xpos as int,
                ypos as int,
            ) != 0) ==> (final(self).board@ == old(self).board@.update(
                old(self).idx(xpos as int, ypos as int),
                Squares::OpenSafe,
            ) && final(self).game_state == (if won_board(final(self).board@) {
                State::Won
            } else {
                State::Ongoing
            })),
            (r is Ok && old(self).game_state == State::Ongoing && old(self).board@[old(self).idx(
                xpos as int,
                ypos as int,
            )] == Squares::ClosedSafe && old(self).mine_neighbours(
                old(self).board@,
                xpos as int,
                ypos as int,
            ) == 0) ==> (opened_only(old(self).board@, final(self).board@)
                && final(self).board@[old(self).idx(xpos as int, ypos as int)] == Squares::OpenSafe
                && old(self).reveal_closure(
                old(self).board@,
                final(self).board@,
                xpos as int,
                ypos as int,
            ) && (forall|a: int, c: int|
                #![trigger old(self).board@[old(self).idx(a, c)]]
                (old(self).valid_coord(a, c) && old(self).board@[old(self).idx(a, c)]
                    == Squares::ClosedSafe && final(self).board@[old(self).idx(a, c)]
                    == Squares::OpenSafe && !(a == xpos as int && c == ypos as int))
                    ==> old(self).opened_from_zero(
                    old(self).board@,
                    final(self).board@,
                    Seq::<Point>::empty(),
                    a,
                    c,
                )) && final(self).game_state == (if won_board(final(self).board@) {
                State::Won
            } else {
                State::Ongoing
            })),
            (r is Ok && old(self).game_state == State::Ongoing && old(self).board@[old(self).idx(
                xpos as int,
                ypos as int,
            )] == Squares::OpenSafe && old(self).mine_neighbours(
                old(self).board@,
                xpos as int,
                ypos as int,
            ) != old(self).flag_neighbours(old(self).board@, xpos as int, ypos as int))
                ==> (final(self).board@ == old(self).board@ && final(self).game_state
                == State::Ongoing),
            (r is Ok && old(self).game_state == State::Ongoing && old(self).board@[old(self).idx(
                xpos as int,
                ypos as int,
            )] == Squares::OpenSafe && old(self).mine_neighbours(
                old(self).board@,
                xpos as int,
                ypos as int,
            ) == old(self).flag_neighbours(old(self).board@, xpos as int, ypos as int)) ==> (
            opened_only(old(self).board@, final(self).board@) && ((final(self).game_state
                == State::Lost) <==> old(self).closed_mine_neighbour(
                old(self).board@,
                xpos as int,
                ypos as int,
            )) && (final(self).game_state != State::Lost
                ==> (old(self).no_closed_safe_neighbour(final(self).board@, xpos as int, ypos as int)
                && old(self).reveal_closure(old(self).board@, final(self).board@, xpos as int, ypos as int)
                && (forall|a: int, c: int|
                #![trigger old(self).board@[old(self).idx(a, c)]]
                (old(self).valid_coord(a, c) && old(self).board@[old(self).idx(a, c)]
                    == Squares::ClosedSafe && final(self).board@[old(self).idx(a, c)]
                    == Squares::OpenSafe) ==> (adjacent(a, c, xpos as int, ypos as int)
                    || old(self).opened_from_zero(
                    old(self).board@,
                    final(self).board@,
                    Seq::<Point>::empty(),
                    a,
                    c,
                )))
                && final(self).game_state == (if won_board(final(self).board@) {
                State::Won
            } else {
                State::Ongoing
            })))),
    {
        if !self.is_inside(xpos, ypos) {
            return Err(GameError::InvalidCoordinate);
        }
        if !(self.game_state == State::Ongoing) {
            return Ok(());
        }
        let ghost g0 = *self;
        let ghost b0 = self.board@;
        let ghost ox = xpos as int;
        let ghost oy = ypos as int;
        let ghost i0 = g0.idx(ox, oy);
        proof {
            lemma_grid_index_bounds(g0.width(), g0.height(), ox, oy);
        }
        let c = self.square_at(xpos, ypos);
        match c {
            Squares::ClosedMine => {
                self.game_state = State::Lost;
                Ok(())
            },
            Squares::FlaggedSafe => Ok(()),
            Squares::FlaggedMine => Ok(()),
            Squares::ClosedSafe => {
                let n = self.count_mine_neighbours_at(xpos, ypos);
                let id = (ypos * self.board_size.x + xpos) as usize;
                self.board[id] = Squares::OpenSafe;
                if n == 0 {
                    let ghost g1 = *self;
                    let ghost b1 = self.board@;
                    let mut st: Vec<Point> = Vec::new();
                    st.push(Point::new(xpos, ypos));
                    proof {
                        assert(st@[0] == (Point { x: xpos, y: ypos }));
                        assert forall|k: int|
                            0 <= k < st@.len() implies (g1.valid_coord(
                            #[trigger] st@[k].x as int,
                            st@[k].y as int,
                        ) && b1[g1.idx(st@[k].x as int, st@[k].y as int)] == Squares::OpenSafe) by {
                            assert(st@[k] == (Point { x: xpos, y: ypos }));
                        }
                    }
                    let ghost st0 = st@;
                    self.cascade(st);
                    proof {
                        let m = self.board@;
                        assert(opened_only(b0, m)) by {
                            lemma_opened_only_trans(b0, b1, m);
                        }
                        assert(m[i0] == Squares::OpenSafe);
                        assert forall|a: int, c2: int|
                            (g0.valid_coord(a, c2) && ((b0[g0.idx(a, c2)] == Squares::ClosedSafe
                                && m[g0.idx(a, c2)] == Squares::OpenSafe) || (a == ox && c2 == oy
                                && m[g0.idx(a, c2)] == Squares::OpenSafe)) && g0.mine_neighbours(
                                m,
                                a,
                                c2,
                            ) == 0) implies g0.no_closed_safe_neighbour(m, a, c2) by {
                            let i = g0.idx(a, c2);
                            lemma_grid_index_bounds(g0.width(), g0.height(), a, c2);
                            assert(!stack_has(Seq::<Point>::empty(), a, c2)) by {
                                if stack_has(Seq::<Point>::empty(), a, c2) {
                                    let k = choose|k: int|
                                        0 <= k < Seq::<Point>::empty().len()
                                            && #[trigger] Seq::<Point>::empty()[k] == (Point {
                                            x: a as i32,
                                            y: c2 as i32,
                                        });
                                    assert(false);
                                }
                            }
                            assert(self.mine_neighbours(m, a, c2) == 0);
                            if a == ox && c2 == oy {
                                assert(st0[0] == (Point { x: a as i32, y: c2 as i32 }));
                                assert(stack_has(st0, a, c2));
                            } else {
                                if g0.idx(a, c2) == i0 {
                                    lemma_grid_index_injective(
                                        g0.width(),
                                        g0.height(),
                                        a,
                                        c2,
                                        ox,
                                        oy,
                                    );
                                    assert(false);
                                }
                                assert(b1[i] == b0[i]);
                            }
                            assert(self.no_closed_safe_neighbour(m, a, c2));
                        }
                        // every cell the flood opened, other than the origin,
                        // touches an open zero-count cell that the call found
                        // closed safe or used as its origin
                        assert forall|a: int, c2: int|
                            (g0.valid_coord(a, c2) && b0[g0.idx(a, c2)] == Squares::ClosedSafe
                                && m[g0.idx(a, c2)] == Squares::OpenSafe && !(a == ox && c2
                                == oy)) implies g0.opened_from_zero(
                            b0,
                            m,
                            Seq::<Point>::empty(),
                            a,
                            c2,
                        ) by {
                            let i = g0.idx(a, c2);
                            lemma_grid_index_bounds(g0.width(), g0.height(), a, c2);
                            if g0.idx(a, c2) == i0 {
                                lemma_grid_index_injective(g0.width(), g0.height(), a, c2, ox, oy);
                                assert(false);
                            }
                            assert(b1[g1.idx(a, c2)] == Squares::ClosedSafe);
                            assert(g1.opened_from_zero(b1, m, st0, a, c2));
                            let (d, e) = choose|d: int, e: int|
                                adjacent(a, c2, d, e) && g1.valid_coord(d, e) && m[g1.idx(d, e)]
                                    == Squares::OpenSafe && #[trigger] g1.mine_neighbours(m, d, e)
                                    == 0 && (stack_has(st0, d, e) || b1[g1.idx(d, e)]
                                    == Squares::ClosedSafe);
                            lemma_grid_index_bounds(g0.width(), g0.height(), d, e);
                            if stack_has(st0, d, e) {
                                let k = choose|k: int|
                                    0 <= k < st0.len() && #[trigger] st0[k] == (Point {
                                        x: d as i32,
                                        y: e as i32,
                                    });
                                assert(st0[k] == (Point { x: xpos, y: ypos }));
                                assert(b0[g0.idx(d, e)] == Squares::ClosedSafe);
                            } else {
                                assert(b0[g0.idx(d, e)] == Squares::ClosedSafe);
                            }
                            assert(g0.mine_neighbours(m, d, e) == 0);
                            assert(g0.opened_from_zero(b0, m, Seq::<Point>::empty(), a, c2));
                        }
                    }
                }
                self.check_win();
                Ok(())
            },
            Squares::OpenSafe => {
                let bombs = self.count_mine_neighbours_at(xpos, ypos);
                let flags = self.count_flag_neighbours_at(xpos, ypos);
                if bombs == flags {
                    let mut st: Vec<Point> = Vec::new();
                    let hit = self.chord_scan(xpos, ypos, &mut st);
                    if hit {
                        self.game_state = State::Lost;
                        return Ok(());
                    }
                    let ghost gmid = *self;
                    let ghost mid = self.board@;
                    let ghost st_scan = st@;
                    self.cascade(st);
                    proof {
                        let m = self.board@;
                        assert(opened_only(b0, m)) by {
                            lemma_opened_only_trans(b0, mid, m);
                        }
                        lemma_opened_only_no_cs_nbr(g0, mid, m, ox, oy);
                        assert forall|a: int, c2: int|
                            (g0.valid_coord(a, c2) && ((b0[g0.idx(a, c2)] == Squares::ClosedSafe
                                && m[g0.idx(a, c2)] == Squares::OpenSafe) || (a == ox && c2 == oy
                                && m[g0.idx(a, c2)] == Squares::OpenSafe)) && g0.mine_neighbours(
                                m,
                                a,
                                c2,
                            ) == 0) implies g0.no_closed_safe_neighbour(m, a, c2) by {
                            let i = g0.idx(a, c2);
                            lemma_grid_index_bounds(g0.width(), g0.height(), a, c2);
                            assert(!stack_has(Seq::<Point>::empty(), a, c2)) by {
                                if stack_has(Seq::<Point>::empty(), a, c2) {
                                    let k = choose|k: int|
                                        0 <= k < Seq::<Point>::empty().len()
                                            && #[trigger] Seq::<Point>::empty()[k] == (Point {
                                            x: a as i32,
                                            y: c2 as i32,
                                        });
                                    assert(false);
                                }
                            }
                            assert(self.mine_neighbours(m, a, c2) == 0);
                            if a == ox && c2 == oy {
                                // its whole neighbourhood was cleared above
                            } else {
                                if mid[i] != b0[i] {
                                    assert(stack_has(st_scan, a, c2));
                                } else {
                                    assert(mid[i] == Squares::ClosedSafe);
                                }
                                assert(self.no_closed_safe_neighbour(m, a, c2));
                            }
                        }
                        // every cell this call opened is a neighbour of the
                        // chorded cell or was reached through an open
                        // zero-count cell
                        assert forall|a: int, c2: int|
                            (g0.valid_coord(a, c2) && b0[g0.idx(a, c2)] == Squares::ClosedSafe
                                && m[g0.idx(a, c2)] == Squares::OpenSafe) implies (adjacent(
                            a,
                            c2,
                            ox,
                            oy,
                        ) || g0.opened_from_zero(b0, m, Seq::<Point>::empty(), a, c2)) by {
                            let i = g0.idx(a, c2);
                            lemma_grid_index_bounds(g0.width(), g0.height(), a, c2);
                            if mid[i] != b0[i] {
                                // opened by the scan itself: a neighbour of the origin
                            } else {
                                assert(mid[gmid.idx(a, c2)] == Squares::ClosedSafe);
                                assert(gmid.opened_from_zero(mid, m, st_scan, a, c2));
                                let (d, e) = choose|d: int, e: int|
                                    adjacent(a, c2, d, e) && gmid.valid_coord(d, e) && m[gmid.idx(
                                        d,
                                        e,
                                    )] == Squares::OpenSafe && #[trigger] gmid.mine_neighbours(
                                        m,
                                        d,
                                        e,
                                    ) == 0 && (stack_has(st_scan, d, e) || mid[gmid.idx(d, e)]
                                    == Squares::ClosedSafe);
                                lemma_grid_index_bounds(g0.width(), g0.height(), d, e);
                                if stack_has(st_scan, d, e) {
                                    let k = choose|k: int|
                                        0 <= k < st_scan.len() && #[trigger] st_scan[k] == (Point {
                                            x: d as i32,
                                            y: e as i32,
                                        });
                                    assert(b0[g0.idx(st_scan[k].x as int, st_scan[k].y as int)]
                                        == Squares::ClosedSafe);
                                    assert(b0[g0.idx(d, e)] == Squares::ClosedSafe);
                                } else {
                                    assert(b0[g0.idx(d, e)] == Squares::ClosedSafe);
                                }
                                assert(g0.mine_neighbours(m, d, e) == 0);
                                assert(g0.opened_from_zero(
                                    b0,
                                    m,
                                    Seq::<Point>::empty(),
                                    a,
                                    c2,
                                ));
                            }
                        }
                    }
                    self.check_win();
                }
                Ok(())
            },
        }
    }
}

/// One flag toggle, seen on the whole board: the cell at `i` toggled, all
/// other cells untouched.
pub open spec fn flag_board(s: Seq<Squares>, i: int) -> Seq<Squares> {
    s.update(i, toggle_flag(s[i]))
}

/// Flagging a cell and then flagging it again restores the exact prior
/// board.
pub proof fn lemma_flag_roundtrip(s: Seq<Squares>, i: int)
    requires
        0 <= i < s.len(),
    ensures
        flag_board(flag_board(s, i), i) == s,
{
    crate::cell::lemma_toggle_flag_involution(s[i]);
    assert(flag_board(flag_board(s, i), i) =~= s);
}

/// A board on which every safe cell is open is won.
pub proof fn lemma_all_safe_open_won(s: Seq<Squares>)
    requires
        all_safe_open(s),
    ensures
        won_board(s),
{
    if has_unopened_safe(s) {
        let i = choose|i: int| 0 <= i < s.len() && is_unopened_safe(s[i]);
        assert(!is_mine(s[i]));
        assert(false);
    }
}

/// While an unflagged mine remains on the board, the win scan is exact: the
/// board is won precisely when every safe cell is open. (Without that
/// premiss only the backward direction holds: flagging the last unflagged
/// mine also wins, with safe cells still closed.)
pub proof fn lemma_won_iff_all_safe_open(s: Seq<Squares>)
    requires
        has_closed_mine(s),
    ensures
        won_board(s) <==> all_safe_open(s),
{
    if won_board(s) {
        assert forall|i: int| 0 <= i < s.len() && !is_mine(s[i]) implies s[i] == Squares::OpenSafe
        by {
            if s[i] != Squares::OpenSafe {
                assert(is_unopened_safe(s[i]));
                assert(has_unopened_safe(s));
            }
        }
    }
    if all_safe_open(s) {
        lemma_all_safe_open_won(s);
    }
}

} // verus!
