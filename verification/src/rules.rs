//! The rules of the game over a mathematical board: a sequence of 64 cells
//! and the side to move.
//!
//! Square `i` lies in row `i / 8` and column `i % 8`. White starts in rows
//! 0 to 2 and moves towards row 7; black starts in rows 5 to 7 and moves
//! towards row 0.

use vstd::prelude::*;
use crate::constants::{PAWN_COST, QUEEN_COST};
use crate::game::{Checker, MoveView};

verus! {

/// `i` is a square of the board.
pub open spec fn on_board(i: int) -> bool {
    0 <= i < 64
}

/// The row of square `i`, 0 on white's side.
pub open spec fn row(i: int) -> int {
    i / 8
}

/// The column of square `i`.
pub open spec fn col(i: int) -> int {
    i % 8
}

/// The distance between two numbers.
pub open spec fn abs_diff(a: int, b: int) -> int {
    if a >= b {
        a - b
    } else {
        b - a
    }
}

/// Two distinct squares of the board that share a diagonal.
pub open spec fn same_diagonal(s: int, t: int) -> bool {
    on_board(s) && on_board(t) && s != t && abs_diff(row(s), row(t)) == abs_diff(col(s), col(t))
}

/// Number of diagonal steps between two squares of one diagonal.
pub open spec fn dist(s: int, t: int) -> int {
    abs_diff(row(s), row(t))
}

/// `i` steps from coordinate `a` in the direction of coordinate `b`.
pub open spec fn toward(a: int, b: int, i: int) -> int {
    if b > a {
        a + i
    } else {
        a - i
    }
}

/// The square `i` diagonal steps from `s` in the direction of `t`.
pub open spec fn path_sq(s: int, t: int, i: int) -> int {
    8 * toward(row(s), row(t), i) + toward(col(s), col(t), i)
}

/// The square `i` diagonal steps from `s`, towards higher rows if `up` and
/// towards higher columns if `east`.
pub open spec fn ray_sq(s: int, up: bool, east: bool, i: int) -> int {
    8 * (if up {
        row(s) + i
    } else {
        row(s) - i
    }) + (if east {
        col(s) + i
    } else {
        col(s) - i
    })
}

/// `t` lies from `s` in the direction given by `up` and `east`.
pub open spec fn heading(s: int, t: int, up: bool, east: bool) -> bool {
    (row(t) > row(s)) == up && (col(t) > col(s)) == east
}

/// The squares on the way from `s` to `t` lie on the board, and the last of them is `t`.
pub proof fn lemma_path(s: int, t: int)
    requires
        same_diagonal(s, t),
    ensures
        1 <= dist(s, t) <= 7,
        path_sq(s, t, dist(s, t)) == t,
        path_sq(s, t, 0) == s,
        forall|i: int|
            0 <= i <= dist(s, t) ==> on_board(#[trigger] path_sq(s, t, i)) && (0 < i ==> same_diagonal(
                s,
                path_sq(s, t, i),
            ) && dist(s, path_sq(s, t, i)) == i),
        forall|i: int, j: int|
            0 < i <= dist(s, t) ==> #[trigger] path_sq(s, path_sq(s, t, i), j) == path_sq(s, t, j),
{
    assert forall|i: int| 0 <= i <= dist(s, t) implies on_board(#[trigger] path_sq(s, t, i)) && (0
        < i ==> same_diagonal(s, path_sq(s, t, i)) && dist(s, path_sq(s, t, i)) == i) by {
        let r = toward(row(s), row(t), i);
        let c = toward(col(s), col(t), i);
        assert(0 <= r < 8 && 0 <= c < 8);
        assert((8 * r + c) / 8 == r && (8 * r + c) % 8 == c);
    }
    assert forall|i: int, j: int| 0 < i <= dist(s, t) implies #[trigger] path_sq(
        s,
        path_sq(s, t, i),
        j,
    ) == path_sq(s, t, j) by {
        let r = toward(row(s), row(t), i);
        let c = toward(col(s), col(t), i);
        assert(0 <= r < 8 && 0 <= c < 8);
        assert((8 * r + c) / 8 == r && (8 * r + c) % 8 == c);
    }
}

impl Checker {
    /// The cell holds a piece.
    pub open spec fn is_piece(self) -> bool {
        self != Checker::Empty
    }

    /// The cell holds a white piece.
    pub open spec fn is_white_piece(self) -> bool {
        self == Checker::White || self == Checker::WhiteQueen
    }

    /// The cell holds a king.
    pub open spec fn is_king(self) -> bool {
        self == Checker::WhiteQueen || self == Checker::BlackQueen
    }

    /// The cell holds a man.
    pub open spec fn is_man(self) -> bool {
        self == Checker::White || self == Checker::Black
    }

    /// The cell holds a piece of the given side.
    pub open spec fn belongs_to(self, white: bool) -> bool {
        self.is_piece() && self.is_white_piece() == white
    }

    /// What the piece becomes when it comes to rest on square `to`: a man
    /// that reaches the far row is crowned.
    pub open spec fn arriving_at(self, to: int) -> Checker {
        match self {
            Checker::White => if row(to) == 7 {
                Checker::WhiteQueen
            } else {
                Checker::White
            },
            Checker::Black => if row(to) == 0 {
                Checker::BlackQueen
            } else {
                Checker::Black
            },
            other => other,
        }
    }

    /// Worth of the piece on square `sq`, counted for white.
    ///
    /// A man is worth its material plus the number of squares it has
    /// advanced towards its far row; a king is worth its material alone.
    pub open spec fn value_at(self, sq: int) -> int {
        match self {
            Checker::Empty => 0,
            Checker::White => PAWN_COST + sq,
            Checker::WhiteQueen => QUEEN_COST as int,
            Checker::Black => -(PAWN_COST + 63 - sq),
            Checker::BlackQueen => -(QUEEN_COST as int),
        }
    }
}

/// Sum of the worth of all pieces of a board, counted for white.
pub open spec fn board_value(b: Seq<Checker>) -> int
    decreases b.len(),
{
    if b.len() == 0 {
        0
    } else {
        board_value(b.drop_last()) + b.last().value_at(b.len() - 1)
    }
}

/// Number of pieces on a board.
pub open spec fn piece_count(b: Seq<Checker>) -> nat
    decreases b.len(),
{
    if b.len() == 0 {
        0
    } else {
        piece_count(b.drop_last()) + (if b.last().is_piece() {
            1nat
        } else {
            0nat
        })
    }
}

/// Changing one cell changes the value of the board by the difference of the two cells' worth.
pub proof fn lemma_board_value_update(b: Seq<Checker>, i: int, c: Checker)
    requires
        0 <= i < b.len(),
    ensures
        board_value(b.update(i, c)) == board_value(b) - b[i].value_at(i) + c.value_at(i),
    decreases b.len(),
{
    if i == b.len() - 1 {
        assert(b.update(i, c).drop_last() =~= b.drop_last());
    } else {
        lemma_board_value_update(b.drop_last(), i, c);
        assert(b.update(i, c).drop_last() =~= b.drop_last().update(i, c));
    }
}

/// Changing one cell changes the number of pieces by at most one.
pub proof fn lemma_piece_count_update(b: Seq<Checker>, i: int, c: Checker)
    requires
        0 <= i < b.len(),
    ensures
        piece_count(b.update(i, c)) + (if b[i].is_piece() {
            1nat
        } else {
            0nat
        }) == piece_count(b) + (if c.is_piece() {
            1nat
        } else {
            0nat
        }),
    decreases b.len(),
{
    if i == b.len() - 1 {
        assert(b.update(i, c).drop_last() =~= b.drop_last());
    } else {
        lemma_piece_count_update(b.drop_last(), i, c);
        assert(b.update(i, c).drop_last() =~= b.drop_last().update(i, c));
    }
}

/// The value of the first `k` cells is the value of the first `k - 1` and the worth of the next.
pub proof fn lemma_board_value_steps(b: Seq<Checker>)
    ensures
        forall|k: int|
            0 < k <= b.len() ==> #[trigger] board_value(b.take(k)) == board_value(b.take(k - 1))
                + b[k - 1].value_at(k - 1),
        board_value(b.take(0)) == 0,
{
    assert forall|k: int| 0 < k <= b.len() implies #[trigger] board_value(b.take(k))
        == board_value(b.take(k - 1)) + b[k - 1].value_at(k - 1) by {
        assert(b.take(k).drop_last() =~= b.take(k - 1));
    }
}

/// The value of a board of at most 64 cells is far from the limits of `i32`.
pub proof fn lemma_board_value_bound(b: Seq<Checker>)
    requires
        b.len() <= 64,
    ensures
        -3063 * b.len() <= board_value(b) <= 3063 * b.len(),
        piece_count(b) <= b.len(),
    decreases b.len(),
{
    if b.len() > 0 {
        lemma_board_value_bound(b.drop_last());
    }
}

/// A position: the 64 cells of the board and the side to move.
pub struct Position {
    pub board: Seq<Checker>,
    pub white: bool,
}

impl Position {
    /// The board has its 64 cells.
    pub open spec fn wf(self) -> bool {
        self.board.len() == 64
    }

    /// The side to move has a piece on `from`, and `to` is an empty square.
    pub open spec fn can_relocate(self, from: int, to: int) -> bool {
        on_board(from) && on_board(to) && self.board[from].belongs_to(self.white)
            && self.board[to] == Checker::Empty
    }

    /// The position after the piece on `from` has come to rest on `to`.
    pub open spec fn relocated(self, from: int, to: int) -> Position {
        Position {
            board: self.board.update(to, self.board[from].arriving_at(to)).update(
                from,
                Checker::Empty,
            ),
            white: self.white,
        }
    }

    /// The same board with the other side to move.
    pub open spec fn passed(self) -> Position {
        Position { board: self.board, white: !self.white }
    }

    /// A piece of the side to move on `s` can jump to the empty square `t`
    /// of the same diagonal over the piece `m` steps away: that piece is
    /// the opponent's, and it is the only piece between `s` and `t`.
    pub open spec fn jump_over(self, s: int, t: int, m: int) -> bool {
        &&& same_diagonal(s, t)
        &&& self.board[s].belongs_to(self.white)
        &&& self.board[t] == Checker::Empty
        &&& 1 <= m < dist(s, t)
        &&& self.board[path_sq(s, t, m)].belongs_to(!self.white)
        &&& forall|i: int|
            1 <= i < dist(s, t) && i != m ==> self.board[#[trigger] path_sq(s, t, i)]
                == Checker::Empty
    }

    /// A jump from `s` to `t` over exactly one piece of the opponent, at any distance.
    pub open spec fn flying_jump(self, s: int, t: int) -> bool {
        exists|m: int| self.jump_over(s, t, m)
    }

    /// One capturing jump as the rules allow it: a king jumps at any
    /// distance, a man over the adjacent square to the one behind it, in
    /// any of the four directions.
    pub open spec fn legal_jump(self, s: int, t: int) -> bool {
        self.flying_jump(s, t) && (self.board[s].is_king() || dist(s, t) == 2)
    }

    /// The square of the piece that a jump from `s` to `t` captures.
    pub open spec fn captured_square(self, s: int, t: int) -> int {
        path_sq(s, t, choose|m: int| self.jump_over(s, t, m))
    }

    /// The position after one jump: the captured piece is gone at once and
    /// the jumping piece rests on `t`, crowned if it reached its far row.
    pub open spec fn after_jump(self, s: int, t: int) -> Position {
        Position {
            board: self.board.update(self.captured_square(s, t), Checker::Empty),
            white: self.white,
        }.relocated(s, t)
    }
}

/// A jump captures one piece: the board has one piece less after it.
pub proof fn lemma_jump_takes_one_piece(p: Position, s: int, t: int)
    requires
        p.wf(),
        p.flying_jump(s, t),
    ensures
        p.after_jump(s, t).wf(),
        piece_count(p.after_jump(s, t).board) + 1 == piece_count(p.board),
        p.after_jump(s, t).board[t].belongs_to(p.white),
        on_board(p.captured_square(s, t)),
        p.captured_square(s, t) != s,
        p.captured_square(s, t) != t,
{
    let m = choose|m: int| p.jump_over(s, t, m);
    lemma_path(s, t);
    let c = path_sq(s, t, m);
    assert(on_board(c));
    let b1 = p.board.update(c, Checker::Empty);
    lemma_piece_count_update(p.board, c, Checker::Empty);
    let b2 = b1.update(t, b1[s].arriving_at(t));
    lemma_piece_count_update(b1, t, b1[s].arriving_at(t));
    lemma_piece_count_update(b2, s, Checker::Empty);
}

impl Position {
    /// Every jump of the path is a legal jump in the position that the
    /// jumps before it have left. A path of fewer than two squares holds no jump.
    pub open spec fn jumps_ok(self, path: Seq<int>) -> bool
        decreases path.len(),
    {
        path.len() >= 2 ==> self.legal_jump(path[0], path[1]) && self.after_jump(
            path[0],
            path[1],
        ).jumps_ok(path.drop_first())
    }

    /// The position after all jumps of the path, from the first to the last.
    pub open spec fn after_jumps(self, path: Seq<int>) -> Position
        decreases path.len(),
    {
        if path.len() >= 2 {
            self.after_jump(path[0], path[1]).after_jumps(path.drop_first())
        } else {
            self
        }
    }
}

impl Position {
    /// The move can be made: a move without capture takes a piece of the
    /// side to move to an empty square, and every jump of a capture is
    /// legal where it is made.
    pub open spec fn applicable(self, m: MoveView) -> bool {
        match m {
            MoveView::Simple(a, b) => self.can_relocate(a, b),
            MoveView::Take(path) => self.jumps_ok(path),
        }
    }

    /// The position after a move; the side to move stays the same.
    pub open spec fn after_move(self, m: MoveView) -> Position {
        match m {
            MoveView::Simple(a, b) => self.relocated(a, b),
            MoveView::Take(path) => self.after_jumps(path),
        }
    }
}

} // verus!
