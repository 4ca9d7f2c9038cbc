//! The position held as bit masks, the moves, and their generation.

use vstd::prelude::*;
use crate::constants::{DRAW_AFTER_QUIET_KING_MOVES, PAWN_COST, QUEEN_COST};
use crate::rules::{
    board_value, dist, lemma_board_value_bound, lemma_board_value_steps, lemma_board_value_update,
    lemma_path, on_board, path_sq, Position, same_diagonal,
};
use crate::useful_functions::{
    bit, bit_at, cleared_bit, get_bit, INITIAL_PIECES, INITIAL_WHITE_PIECES, lemma_bit_edits,
    lemma_bit_logic, lemma_initial_masks, lemma_lowest_set, lowest_set, moved_bit, toggled_bit,
    toggled_pair,
};

verus! {

/// What a square of the board holds.
#[derive(Clone, Copy, Debug, PartialEq, Eq, Structural)]
pub enum Checker {
    Empty,
    White,
    Black,
    WhiteQueen,
    BlackQueen,
}

/// A move of one side.
///
/// `Take` holds the squares that the capturing piece visits, the square it
/// starts from first; each pair of neighbours in it is one jump.
#[derive(Clone, Debug)]
pub enum Move {
    Simple(i8, i8),
    Take(Vec<i8>),
}

/// A move over mathematical integers.
pub enum MoveView {
    Simple(int, int),
    Take(Seq<int>),
}

/// The squares of a path as mathematical integers.
pub open spec fn squares(v: Seq<i8>) -> Seq<int> {
    v.map_values(|x: i8| x as int)
}

impl Move {
    /// The squares of the move: the two squares of a move without capture,
    /// or the squares that a capture visits.
    pub open spec fn squares_spec(&self) -> Seq<i8> {
        match self {
            Move::Simple(a, b) => seq![*a, *b],
            Move::Take(v) => v@,
        }
    }

    /// The squares of the move: the two squares of a move without capture,
    /// or the squares that a capture visits.
    pub fn as_vec(&self) -> (r: Vec<i8>)
        ensures
            r@ == self.squares_spec(),
    {
        let mut r: Vec<i8> = Vec::new();
        match self {
            Move::Simple(a, b) => {
                r.push(*a);
                r.push(*b);
                assert(r@ =~= seq![*a, *b]);
            },
            Move::Take(v) => {
                let mut i: usize = 0;
                while i < v.len()
                    invariant
                        i <= v.len(),
                        r@ == v@.take(i as int),
                    decreases v.len() - i,
                {
                    r.push(v[i]);
                    i += 1;
                    assert(r@ =~= v@.take(i as int));
                }
                assert(v@.take(v.len() as int) =~= v@);
            },
        }
        r
    }

    /// A copy of the move.
    pub fn duplicate(&self) -> (r: Move)
        ensures
            r@ == self@,
    {
        match self {
            Move::Simple(a, b) => Move::Simple(*a, *b),
            Move::Take(v) => {
                let w = self.as_vec();
                assert(w@ =~= v@);
                Move::Take(w)
            },
        }
    }
}

impl Winner {
    /// The outcome in words.
    pub fn to_string(&self) -> (r: String)
        ensures
            r@ == match self {
                Winner::White => "White won!"@,
                Winner::Black => "Black won!"@,
                Winner::Draw => "Draw"@,
            },
    {
        match self {
            Winner::White => "White won!".to_owned(),
            Winner::Black => "Black won!".to_owned(),
            Winner::Draw => "Draw".to_owned(),
        }
    }
}

impl Checker {
    /// The cell as one character: `.` for an empty cell, `w` and `b` for
    /// men, `W` and `B` for kings.
    pub fn to_string(&self) -> (r: String)
        ensures
            r@ == match self {
                Checker::Empty => "."@,
                Checker::White => "w"@,
                Checker::Black => "b"@,
                Checker::WhiteQueen => "W"@,
                Checker::BlackQueen => "B"@,
            },
    {
        match self {
            Checker::Empty => ".".to_owned(),
            Checker::White => "w".to_owned(),
            Checker::Black => "b".to_owned(),
            Checker::WhiteQueen => "W".to_owned(),
            Checker::BlackQueen => "B".to_owned(),
        }
    }
}

impl Default for Game {
    /// The position at the start of a game: twelve men a side, white to move.
    fn default() -> (r: Self)
        ensures
            r.is_start(),
            r.wf(),
    {
        let r = Game {
            not_empty: INITIAL_PIECES,
            is_white: INITIAL_WHITE_PIECES,
            is_queen: 0,
            eval_white: 0,
            boring_moves_counter: 0,
            current_player: true,
        };
        proof {
            lemma_initial_masks();
            lemma_bit_logic();
            let b = r.board();
            lemma_board_value_steps(b);
            assert(b.take(64) =~= b);
            assert forall|i: int| 0 <= i < 64 implies #[trigger] b[i] == (if (i / 8) % 2 != i % 2
                && i < 24 {
                Checker::White
            } else if (i / 8) % 2 != i % 2 && i >= 40 {
                Checker::Black
            } else {
                Checker::Empty
            }) by {
                let iu = i as u64;
                assert(bit_at(INITIAL_PIECES, iu) == ((iu < 24 || iu >= 40) && (iu / 8) % 2 != iu
                    % 2));
                assert(bit_at(INITIAL_WHITE_PIECES, iu) == (iu < 24 && (iu / 8) % 2 != iu % 2));
                assert(!bit_at(0, iu));
            }
            assert(board_value(b.take(8)) == 4016);
            assert(board_value(b.take(16)) == 8060);
            assert(board_value(b.take(24)) == 12140);
            assert(board_value(b.take(40)) == 12140);
            assert(board_value(b.take(48)) == 8060);
            assert(board_value(b.take(56)) == 4016);
            assert(board_value(b.take(64)) == 0);
        }
        r
    }
}

impl View for Move {
    type V = MoveView;

    open spec fn view(&self) -> MoveView {
        match self {
            Move::Simple(a, b) => MoveView::Simple(*a as int, *b as int),
            Move::Take(v) => MoveView::Take(squares(v@)),
        }
    }
}

/// How a game has ended.
#[derive(Clone, Copy, Debug, PartialEq, Eq, Structural)]
pub enum Winner {
    White,
    Black,
    Draw,
}

/// A position of the game.
///
/// Bit `i` of each mask speaks of square `i`. `is_white` and `is_queen`
/// have no bit set where `not_empty` has none.
#[derive(Clone, Copy, Debug)]
pub struct Game {
    pub not_empty: u64,
    pub is_white: u64,
    pub is_queen: u64,
    /// Value of the board for white, kept up to date move by move.
    pub eval_white: i32,
    /// Number of king moves without capture made in a row.
    pub boring_moves_counter: u8,
    /// `true` if white is to move.
    pub current_player: bool,
}

impl Game {
    /// The position at the start of a game: twelve men a side on the
    /// squares of odd row-plus-column of the three rows nearest to each
    /// side, white to move.
    pub open spec fn is_start(&self) -> bool {
        &&& self.not_empty == INITIAL_PIECES
        &&& self.is_white == INITIAL_WHITE_PIECES
        &&& self.is_queen == 0
        &&& self.eval_white == 0
        &&& self.boring_moves_counter == 0
        &&& self.current_player
    }

    /// What square `i` holds.
    pub open spec fn checker_at(&self, i: int) -> Checker {
        if !bit(self.not_empty, i) {
            Checker::Empty
        } else if bit(self.is_white, i) {
            if bit(self.is_queen, i) {
                Checker::WhiteQueen
            } else {
                Checker::White
            }
        } else {
            if bit(self.is_queen, i) {
                Checker::BlackQueen
            } else {
                Checker::Black
            }
        }
    }

    /// The 64 cells of the board.
    pub open spec fn board(&self) -> Seq<Checker> {
        Seq::new(64, |i: int| self.checker_at(i))
    }

    /// The board and the side to move.
    pub open spec fn position(&self) -> Position {
        Position { board: self.board(), white: self.current_player }
    }

    /// The colour and crown masks are empty where the board is, and the
    /// score is the value of the board.
    pub open spec fn wf(&self) -> bool {
        &&& forall|i: u64|
            i < 64 && #[trigger] bit_at(self.is_white, i) ==> bit_at(self.not_empty, i)
        &&& forall|i: u64|
            i < 64 && #[trigger] bit_at(self.is_queen, i) ==> bit_at(self.not_empty, i)
        &&& self.eval_white == board_value(self.board())
    }

    /// Whether square `i` is empty.
    #[inline(always)]
    pub fn is_empty_cell(&self, i: i8) -> (r: bool)
        requires
            0 <= i < 64,
        ensures
            r == !bit(self.not_empty, i as int),
            self.wf() ==> r == (self.board()[i as int] == Checker::Empty),
    {
        get_bit(self.not_empty, i) == 0
    }

    /// Whether the white mask has square `i`: on a sound board, whether a
    /// white piece stands there.
    #[inline(always)]
    pub fn is_white_checker(&self, i: i8) -> (r: bool)
        requires
            0 <= i < 64,
        ensures
            r == bit(self.is_white, i as int),
            self.wf() ==> r == self.board()[i as int].is_white_piece(),
    {
        get_bit(self.is_white, i) == 1
    }

    /// Whether the crown mask has square `i`: on a sound board, whether a
    /// king stands there.
    #[inline(always)]
    pub fn is_queen_checker(&self, i: i8) -> (r: bool)
        requires
            0 <= i < 64,
        ensures
            r == bit(self.is_queen, i as int),
            self.wf() ==> r == self.board()[i as int].is_king(),
    {
        get_bit(self.is_queen, i) == 1
    }

    /// Hands the move to the other side.
    #[inline(always)]
    pub fn change_player(&mut self)
        ensures
            final(self).current_player == !old(self).current_player,
            final(self).not_empty == old(self).not_empty,
            final(self).is_white == old(self).is_white,
            final(self).is_queen == old(self).is_queen,
            final(self).eval_white == old(self).eval_white,
            final(self).boring_moves_counter == old(self).boring_moves_counter,
            final(self).position() == old(self).position().passed(),
            old(self).wf() ==> final(self).wf(),
    {
        self.current_player = !self.current_player;
        assert(self.board() =~= old(self).board());
    }

    /// The score of the position, counted for white.
    #[inline(always)]
    pub fn evaluate(&self) -> (r: i32)
        ensures
            r == self.eval_white,
            self.wf() ==> r == board_value(self.board()),
    {
        self.eval_white
    }

    /// The score of the position, counted for the side to move.
    #[inline(always)]
    pub fn evaluate_for_me(&self) -> (r: i32)
        requires
            self.eval_white > i32::MIN,
        ensures
            r == (if self.current_player {
                self.eval_white as int
            } else {
                -self.eval_white
            }),
    {
        if self.current_player {
            self.evaluate()
        } else {
            -self.evaluate()
        }
    }

    /// Whether the game is drawn by quiet king moves.
    #[inline(always)]
    pub fn is_draw(&self) -> (r: bool)
        ensures
            r == (self.boring_moves_counter >= DRAW_AFTER_QUIET_KING_MOVES),
    {
        self.boring_moves_counter >= DRAW_AFTER_QUIET_KING_MOVES
    }

    /// Moves the piece on `from` to the empty square `to` and crowns a man
    /// that reaches its far row. The score follows the board.
    pub fn make_pawn_move(&mut self, from: i8, to: i8)
        requires
            old(self).wf(),
            old(self).position().can_relocate(from as int, to as int),
        ensures
            final(self).wf(),
            final(self).eval_white == board_value(final(self).board()),
            final(self).position() == old(self).position().relocated(from as int, to as int),
            final(self).current_player == old(self).current_player,
            final(self).boring_moves_counter == old(self).boring_moves_counter,
    {
        let f: u64 = from as u64;
        let t: u64 = to as u64;
        let from_mask: u64 = 1u64 << f;
        let to_mask: u64 = 1u64 << t;
        let is_white_from_bit: u64 = self.is_white & from_mask;
        let is_queen_from_bit: u64 = self.is_queen & from_mask;
        proof {
            lemma_bit_edits();
            lemma_board_value_bound(self.board());
        }
        let ghost b0 = self.board();
        let ghost piece = b0[from as int];
        assert((is_queen_from_bit == 0) == !bit(self.is_queen, from as int));
        // Copy the piece to the new square and clear the old one.
        self.not_empty ^= from_mask ^ to_mask;
        self.is_white ^= ((is_white_from_bit >> f) << t) ^ is_white_from_bit;
        self.is_queen ^= ((is_queen_from_bit >> f) << t) ^ is_queen_from_bit;
        if is_queen_from_bit == 0 {
            self.eval_white += (to - from) as i32;
        }
        let ghost b1 = b0.update(to as int, piece).update(from as int, Checker::Empty);
        proof {
            assert(self.not_empty == toggled_pair(old(self).not_empty, f, t));
            assert(self.is_white == moved_bit(old(self).is_white, f, t));
            assert(self.is_queen == moved_bit(old(self).is_queen, f, t));
            assert forall|i: int| 0 <= i < 64 implies #[trigger] self.checker_at(i) == b1[i] by {
                let iu = i as u64;
                assert(bit_at(old(self).not_empty, iu) == bit(old(self).not_empty, i));
            }
            assert(self.board() =~= b1);
            lemma_board_value_update(b0, to as int, piece);
            lemma_board_value_update(b0.update(to as int, piece), from as int, Checker::Empty);
        }
        // Promotion to king.
        if (to > 55 && self.current_player || to < 8 && !self.current_player) && is_queen_from_bit
            == 0 {
            let ghost q1 = self.is_queen;
            self.is_queen ^= to_mask;
            assert(self.is_queen == toggled_bit(q1, t));
            if self.current_player {
                self.eval_white += QUEEN_COST - PAWN_COST;
                self.eval_white += -(to as i32);
            } else {
                self.eval_white += -(QUEEN_COST - PAWN_COST);
                self.eval_white += 63 - to as i32;
            }
            proof {
                let b2 = b1.update(to as int, piece.arriving_at(to as int));
                assert forall|i: int| 0 <= i < 64 implies #[trigger] self.checker_at(i)
                    == b2[i] by {}
                assert(self.board() =~= b2);
                lemma_board_value_update(b1, to as int, piece.arriving_at(to as int));
            }
        }
        assert(self.board() =~= old(self).position().relocated(from as int, to as int).board);
    }

    /// Makes one capturing jump from `from` to `to`: the piece between the
    /// two squares leaves the board and the jumping piece moves. The score
    /// follows the board.
    pub fn make_cutting_move(&mut self, from: i8, to: i8)
        requires
            old(self).wf(),
            old(self).position().flying_jump(from as int, to as int),
        ensures
            final(self).wf(),
            final(self).eval_white == board_value(final(self).board()),
            final(self).position() == old(self).position().after_jump(from as int, to as int),
            final(self).current_player == old(self).current_player,
            final(self).boring_moves_counter == old(self).boring_moves_counter,
    {
        let ghost p0 = self.position();
        let ghost s = from as int;
        let ghost t = to as int;
        let ghost m = choose|m: int| p0.jump_over(s, t, m);
        proof {
            lemma_path(s, t);
            lemma_bit_edits();
            lemma_board_value_bound(self.board());
        }
        let dr: i8 = if to / 8 > from / 8 {
            8
        } else {
            -8
        };
        let dc: i8 = if to % 8 > from % 8 {
            1
        } else {
            -1
        };
        let delta: i8 = dr + dc;
        let mut curr_cell: i8 = from + delta;
        let ghost mut j: int = 1;
        while get_bit(self.not_empty, curr_cell) == 0
            invariant
                1 <= j <= m,
                p0.jump_over(s, t, m),
                p0 == self.position(),
                same_diagonal(s, t),
                curr_cell == path_sq(s, t, j),
                forall|i: int| 0 <= i <= dist(s, t) ==> on_board(#[trigger] path_sq(s, t, i)),
                delta == path_sq(s, t, 1) - s,
                s == from,
                t == to,
            decreases m - j,
        {
            assert(p0.board[path_sq(s, t, j)] == Checker::Empty);
            assert(on_board(path_sq(s, t, j + 1)));
            curr_cell += delta;
            proof {
                j = j + 1;
            }
        }
        let captured_cell: i8 = curr_cell;
        assert(j == m) by {
            if j != m {
                assert(p0.board[path_sq(s, t, j)] == Checker::Empty);
            }
        }
        let ghost victim = p0.board[captured_cell as int];
        if get_bit(self.is_queen, captured_cell) == 1 {
            if self.current_player {
                self.eval_white += QUEEN_COST;
            } else {
                self.eval_white += -QUEEN_COST;
            }
        } else {
            if self.current_player {
                self.eval_white += 63 - captured_cell as i32;
                self.eval_white += PAWN_COST;
            } else {
                self.eval_white += -(captured_cell as i32);
                self.eval_white += -PAWN_COST;
            }
        }
        // Clear the square of the captured piece.
        let mask: u64 = !(1u64 << (captured_cell as u64));
        self.is_white &= mask;
        self.not_empty &= mask;
        self.is_queen &= mask;
        proof {
            let c = captured_cell as u64;
            assert(self.is_white == cleared_bit(old(self).is_white, c));
            assert(self.not_empty == cleared_bit(old(self).not_empty, c));
            assert(self.is_queen == cleared_bit(old(self).is_queen, c));
            let b1 = p0.board.update(captured_cell as int, Checker::Empty);
            assert forall|i: int| 0 <= i < 64 implies #[trigger] self.checker_at(i) == b1[i] by {
                let iu = i as u64;
                assert(bit_at(old(self).not_empty, iu) == bit(old(self).not_empty, i));
            }
            assert(self.board() =~= b1);
            lemma_board_value_update(p0.board, captured_cell as int, Checker::Empty);
        }
        self.make_pawn_move(from, to);
    }

    /// Applies a move of the side to move. The side to move stays the same:
    /// `change_player` ends the turn.
    ///
    /// A move without capture by a king counts as a quiet king move; any
    /// other move sets that count back to zero. The count stays at the
    /// greatest number it can hold, far beyond the number that draws the
    /// game.
    pub fn make_move(&mut self, move_to_make: Move)
        requires
            old(self).wf(),
            old(self).position().applicable(move_to_make@),
        ensures
            final(self).wf(),
            final(self).eval_white == board_value(final(self).board()),
            final(self).current_player == old(self).current_player,
            final(self).position() == old(self).position().after_move(move_to_make@),
            final(self).boring_moves_counter == old(self).quiet_count_after(move_to_make@),
    {
        match move_to_make {
            Move::Simple(a, b) => {
                if get_bit(self.is_queen, a) == 1 {
                    if self.boring_moves_counter < u8::MAX {
                        self.boring_moves_counter += 1;
                    }
                } else {
                    self.boring_moves_counter = 0;
                }
                assert(self.board() =~= old(self).board());
                self.make_pawn_move(a, b)
            },
            Move::Take(v) => {
                self.boring_moves_counter = 0;
                assert(self.board() =~= old(self).board());
                let ghost p0 = self.position();
                let ghost path = squares(v@);
                assert(path.skip(0) =~= path);
                let mut i: usize = 1;
                while i < v.len()
                    invariant
                        1 <= i,
                        self.wf(),
                        self.current_player == old(self).current_player,
                        self.boring_moves_counter == 0,
                        path == squares(v@),
                        i <= v.len() ==> self.position().jumps_ok(path.skip(i - 1)),
                        i <= v.len() ==> self.position().after_jumps(path.skip(i - 1))
                            == p0.after_jumps(path),
                        i > v.len() ==> self.position() == p0.after_jumps(path),
                    decreases v.len() - i,
                {
                    let ghost rest = path.skip(i - 1);
                    assert(rest.len() >= 2);
                    assert(rest[0] == v[i - 1] as int && rest[1] == v[i as int] as int);
                    assert(rest.drop_first() =~= path.skip(i as int));
                    self.make_cutting_move(v[i - 1], v[i]);
                    i += 1;
                }
            },
        }
    }

    /// The count of quiet king moves after the given move.
    pub open spec fn quiet_count_after(&self, m: MoveView) -> int {
        match m {
            MoveView::Simple(a, _) => if !self.board()[a].is_king() {
                0
            } else if self.boring_moves_counter < u8::MAX {
                self.boring_moves_counter + 1
            } else {
                u8::MAX as int
            },
            MoveView::Take(_) => 0,
        }
    }

    /// The value of the board for white, counted anew from the masks.
    pub fn evaluate_from_scratch(&self) -> (r: i32)
        ensures
            r == board_value(self.board()),
    {
        let ghost b = self.board();
        let mut total: i32 = 0;
        let mut k: i8 = 0;
        proof {
            lemma_board_value_steps(b);
        }
        while k < 64
            invariant
                0 <= k <= 64,
                b == self.board(),
                total == board_value(b.take(k as int)),
            decreases 64 - k,
        {
            proof {
                lemma_board_value_steps(b);
                lemma_board_value_bound(b.take(k as int));
            }
            if !self.is_empty_cell(k) {
                let white: bool = self.is_white_checker(k);
                let king: bool = self.is_queen_checker(k);
                if king {
                    if white {
                        total += QUEEN_COST;
                    } else {
                        total -= QUEEN_COST;
                    }
                } else {
                    if white {
                        total += PAWN_COST + k as i32;
                    } else {
                        total -= PAWN_COST + 63 - k as i32;
                    }
                }
            }
            k += 1;
        }
        assert(b.take(64) =~= b);
        total
    }

    /// Whether the masks and the score fit together: no colour or crown
    /// on an empty square, and the score is the value of the board.
    pub fn is_consistent(&self) -> (r: bool)
        ensures
            r == self.wf(),
    {
        proof {
            lemma_bit_logic();
        }
        let stray_white: u64 = self.is_white & !self.not_empty;
        let stray_crown: u64 = self.is_queen & !self.not_empty;
        proof {
            if stray_white != 0 {
                lemma_lowest_set(stray_white);
                assert(bit_at(stray_white, lowest_set(stray_white) as u64));
            }
            if stray_crown != 0 {
                lemma_lowest_set(stray_crown);
                assert(bit_at(stray_crown, lowest_set(stray_crown) as u64));
            }
            if stray_white == 0 {
                assert forall|i: u64| i < 64 && #[trigger] bit_at(self.is_white, i) implies bit_at(
                    self.not_empty,
                    i,
                ) by {
                    assert(!bit_at(stray_white, i));
                }
            }
            if stray_crown == 0 {
                assert forall|i: u64| i < 64 && #[trigger] bit_at(self.is_queen, i) implies bit_at(
                    self.not_empty,
                    i,
                ) by {
                    assert(!bit_at(stray_crown, i));
                }
            }
        }
        stray_white == 0 && stray_crown == 0 && self.eval_white == self.evaluate_from_scratch()
    }

    /// The board as rows of cells for display: the first row is row 7 of
    /// the board, and within a row the first cell is column 7.
    pub fn get_data(&self) -> (result: Vec<Vec<Checker>>)
        ensures
            result.len() == 8,
            forall|y: int| 0 <= y < 8 ==> (#[trigger] result[y]).len() == 8,
            forall|y: int, x: int|
                0 <= y < 8 && 0 <= x < 8 ==> #[trigger] result[y][x] == self.checker_at(
                    63 - 8 * y - x,
                ),
    {
        let mut result: Vec<Vec<Checker>> = Vec::new();
        let mut y: i8 = 0;
        while y < 8
            invariant
                0 <= y <= 8,
                result.len() == y,
                forall|r: int| 0 <= r < y ==> (#[trigger] result[r]).len() == 8,
                forall|r: int, x: int|
                    0 <= r < y && 0 <= x < 8 ==> #[trigger] result[r][x] == self.checker_at(
                        63 - 8 * r - x,
                    ),
            decreases 8 - y,
        {
            let mut line: Vec<Checker> = Vec::new();
            let mut x: i8 = 0;
            while x < 8
                invariant
                    0 <= x <= 8,
                    0 <= y < 8,
                    line.len() == x,
                    forall|c: int|
                        0 <= c < x ==> #[trigger] line[c] == self.checker_at(63 - 8 * y - c),
                decreases 8 - x,
            {
                let k: i8 = 63 - 8 * y - x;
                line.push(
                    if self.is_empty_cell(k) {
                        Checker::Empty
                    } else if self.is_white_checker(k) {
                        if self.is_queen_checker(k) {
                            Checker::WhiteQueen
                        } else {
                            Checker::White
                        }
                    } else {
                        if self.is_queen_checker(k) {
                            Checker::BlackQueen
                        } else {
                            Checker::Black
                        }
                    },
                );
                x += 1;
            }
            result.push(line);
            y += 1;
        }
        result
    }
}

/// The score is a matter of the board alone: two sound games with the
/// same masks have the same score, whatever moves have led to them.
pub proof fn lemma_score_follows_board(a: Game, b: Game)
    requires
        a.wf(),
        b.wf(),
        a.not_empty == b.not_empty,
        a.is_white == b.is_white,
        a.is_queen == b.is_queen,
    ensures
        a.eval_white == b.eval_white,
{
    assert(a.board() =~= b.board());
}

} // verus!
