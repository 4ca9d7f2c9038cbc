//! Generation of the moves of a position from its bit masks.

use vstd::prelude::*;
use crate::diagonals::{slide_reach, slide_targets};
use crate::game::{Checker, Game, Move, MoveView};
use crate::moves::{gather, lemma_gather_skip};
use crate::rules::{dist, lemma_path, path_sq, Position, row, same_diagonal};
use crate::useful_functions::{
    bit, bit_at, EXCLUDE_LEFT_COLUMN, EXCLUDE_RIGHT_COLUMN, lemma_bit_logic, lemma_step_masks,
    step_down_mask, step_up_mask, take_lowest_bit,
};

verus! {

/// A list of moves over mathematical integers.
pub open spec fn moves_view(s: Seq<Move>) -> Seq<MoveView> {
    s.map_values(|m: Move| m@)
}

impl Game {
    /// What the masks say of a square is what the board holds there.
    pub proof fn lemma_cells(&self)
        requires
            self.wf(),
        ensures
            forall|i: u64|
                i < 64 ==> (#[trigger] bit_at(self.not_empty, i) <==> self.board()[i as int].is_piece()),
            forall|i: u64|
                i < 64 ==> (#[trigger] bit_at(self.is_white, i)
                    <==> self.board()[i as int].is_white_piece()),
            forall|i: u64|
                i < 64 ==> (#[trigger] bit_at(self.is_queen, i) <==> self.board()[i as int].is_king()),
    {
        assert forall|i: u64| i < 64 implies (#[trigger] bit_at(self.not_empty, i)
            <==> self.board()[i as int].is_piece()) by {
            assert(bit(self.not_empty, i as int) == bit_at(self.not_empty, i));
        }
        assert forall|i: u64| i < 64 implies (#[trigger] bit_at(self.is_white, i)
            <==> self.board()[i as int].is_white_piece()) by {
            assert(bit(self.is_white, i as int) == bit_at(self.is_white, i));
        }
        assert forall|i: u64| i < 64 implies (#[trigger] bit_at(self.is_queen, i)
            <==> self.board()[i as int].is_king()) by {
            assert(bit(self.is_queen, i as int) == bit_at(self.is_queen, i));
        }
    }

    /// The squares that hold a piece of the side to move.
    pub(crate) fn own_pieces(&self) -> (r: u64)
        requires
            self.wf(),
        ensures
            forall|i: u64|
                i < 64 ==> (#[trigger] bit_at(r, i) <==> self.board()[i as int].belongs_to(
                    self.current_player,
                )),
    {
        proof {
            lemma_bit_logic();
            self.lemma_cells();
        }
        if self.current_player {
            self.is_white & self.not_empty
        } else {
            !self.is_white & self.not_empty
        }
    }

    /// Adds the steps of the men on the squares of `mask` from `i` to `i + add`.
    fn push_steps(&self, mask: u64, add: i8, moves: &mut Vec<Move>)
        requires
            add == 7 || add == 9 || add == -7 || add == -9,
            forall|i: u64|
                i < 64 ==> (#[trigger] bit_at(mask, i) <==> self.position().man_step(
                    i as int,
                    i + add,
                )),
        ensures
            moves_view(final(moves)@) == moves_view(old(moves)@) + self.position().man_steps(
                add as int,
            ),
    {
        let ghost f = self.position().man_step_family(add as int);
        let ghost m0 = mask;
        let ghost base = moves_view(moves@);
        let ghost mut k: int = 0;
        let mut mask = mask;
        assert(base + gather(0, f) =~= base);
        while mask != 0
            invariant
                0 <= k <= 64,
                add == 7 || add == 9 || add == -7 || add == -9,
                f == self.position().man_step_family(add as int),
                forall|j: u64| j < 64 ==> #[trigger] bit_at(mask, j) == (bit_at(m0, j) && j >= k),
                forall|i: u64|
                    i < 64 ==> (#[trigger] bit_at(m0, i) <==> self.position().man_step(
                        i as int,
                        i + add,
                    )),
                moves_view(moves@) == base + gather(k, f),
            decreases 64 - k,
        {
            let ghost prev = mask;
            let i: i8 = take_lowest_bit(&mut mask);
            proof {
                assert forall|j: int| k <= j < i implies (#[trigger] f(j)).len() == 0 by {
                    assert(!bit_at(prev, j as u64));
                }
                lemma_gather_skip(k, i as int, f);
                assert(bit_at(m0, i as u64));
                assert(f(i as int) == seq![MoveView::Simple(i as int, i + add)]);
            }
            let ghost before = moves@;
            moves.push(Move::Simple(i, i + add));
            proof {
                assert(moves_view(moves@) =~= moves_view(before).push(
                    MoveView::Simple(i as int, i + add),
                ));
                assert(gather(i + 1, f) == gather(i as int, f) + f(i as int));
                assert(moves_view(moves@) =~= base + gather(i + 1, f));
                k = i + 1;
            }
        }
        proof {
            lemma_bit_logic();
            assert forall|j: int| k <= j < 64 implies (#[trigger] f(j)).len() == 0 by {
                assert(!bit_at(mask, j as u64));
                assert(!bit_at(m0, j as u64));
            }
            lemma_gather_skip(k, 64, f);
        }
    }

    /// Adds the slides of the king of the side to move on `coord`.
    fn push_slides_from(&self, coord: i8, moves: &mut Vec<Move>)
        requires
            self.wf(),
            0 <= coord < 64,
            self.board()[coord as int].is_king(),
            self.board()[coord as int].belongs_to(self.current_player),
        ensures
            moves_view(final(moves)@) == moves_view(old(moves)@)
                + self.position().king_slides_from(coord as int),
    {
        let ghost pos = self.position();
        let ghost s = coord as int;
        let ghost f = pos.king_slide_family(s);
        let ghost base = moves_view(moves@);
        let ghost mut k: int = 0;
        let mut can_move_to: u64 = slide_targets(coord, self.not_empty);
        let ghost m0 = can_move_to;
        proof {
            self.lemma_cells();
            assert forall|t: u64| t < 64 implies (#[trigger] bit_at(m0, t) <==> pos.king_slide(
                s,
                t as int,
            )) by {
                let ti = t as int;
                if same_diagonal(s, ti) {
                    lemma_path(s, ti);
                    if slide_reach(s, self.not_empty, ti) {
                        assert forall|i: int| 1 <= i <= dist(s, ti) implies pos.board[#[trigger] path_sq(
                            s,
                            ti,
                            i,
                        )] == Checker::Empty by {
                            let q = path_sq(s, ti, i);
                            assert(!bit(self.not_empty, q));
                            assert(!bit_at(self.not_empty, q as u64));
                        }
                    }
                    if pos.king_slide(s, ti) {
                        assert forall|i: int| 1 <= i <= dist(s, ti) implies !bit(
                            self.not_empty,
                            #[trigger] path_sq(s, ti, i),
                        ) by {
                            let q = path_sq(s, ti, i);
                            assert(pos.board[q] == Checker::Empty);
                            assert(!bit_at(self.not_empty, q as u64));
                        }
                    }
                }
            }
            assert(base + gather(0, f) =~= base);
        }
        while can_move_to != 0
            invariant
                0 <= k <= 64,
                0 <= coord < 64,
                s == coord,
                pos == self.position(),
                f == pos.king_slide_family(s),
                forall|j: u64|
                    j < 64 ==> #[trigger] bit_at(can_move_to, j) == (bit_at(m0, j) && j >= k),
                forall|t: u64| t < 64 ==> (#[trigger] bit_at(m0, t) <==> pos.king_slide(s, t as int)),
                moves_view(moves@) == base + gather(k, f),
            decreases 64 - k,
        {
            let ghost prev = can_move_to;
            let j: i8 = take_lowest_bit(&mut can_move_to);
            proof {
                assert forall|i: int| k <= i < j implies (#[trigger] f(i)).len() == 0 by {
                    assert(!bit_at(prev, i as u64));
                }
                lemma_gather_skip(k, j as int, f);
                assert(bit_at(m0, j as u64));
                assert(f(j as int) == seq![MoveView::Simple(s, j as int)]);
            }
            let ghost before = moves@;
            moves.push(Move::Simple(coord, j));
            proof {
                assert(moves_view(moves@) =~= moves_view(before).push(
                    MoveView::Simple(s, j as int),
                ));
                assert(gather(j + 1, f) == gather(j as int, f) + f(j as int));
                assert(moves_view(moves@) =~= base + gather(j + 1, f));
                k = j + 1;
            }
        }
        proof {
            lemma_bit_logic();
            assert forall|i: int| k <= i < 64 implies (#[trigger] f(i)).len() == 0 by {
                assert(!bit_at(can_move_to, i as u64));
                assert(!bit_at(m0, i as u64));
            }
            lemma_gather_skip(k, 64, f);
        }
    }

    /// Adds the slides of all kings of the side to move.
    fn push_slides(&self, moves: &mut Vec<Move>)
        requires
            self.wf(),
        ensures
            moves_view(final(moves)@) == moves_view(old(moves)@) + self.position().king_slides(),
    {
        let ghost pos = self.position();
        let ghost f = pos.king_slides_family();
        let ghost base = moves_view(moves@);
        let ghost mut k: int = 0;
        let own: u64 = self.own_pieces();
        let mut my_queens: u64 = own & self.is_queen;
        let ghost m0 = my_queens;
        proof {
            lemma_bit_logic();
            self.lemma_cells();
            assert(base + gather(0, f) =~= base);
        }
        while my_queens != 0
            invariant
                0 <= k <= 64,
                self.wf(),
                pos == self.position(),
                f == pos.king_slides_family(),
                forall|j: u64| j < 64 ==> #[trigger] bit_at(my_queens, j) == (bit_at(m0, j) && j >= k),
                forall|i: u64|
                    i < 64 ==> (#[trigger] bit_at(m0, i) <==> pos.board[i as int].is_king()
                        && pos.board[i as int].belongs_to(pos.white)),
                moves_view(moves@) == base + gather(k, f),
            decreases 64 - k,
        {
            let ghost prev = my_queens;
            let coord: i8 = take_lowest_bit(&mut my_queens);
            proof {
                assert forall|j: int| k <= j < coord implies (#[trigger] f(j)).len() == 0 by {
                    assert(!bit_at(prev, j as u64));
                    lemma_no_slides(pos, j);
                }
                lemma_gather_skip(k, coord as int, f);
                assert(bit_at(m0, coord as u64));
            }
            self.push_slides_from(coord, moves);
            proof {
                assert(gather(coord + 1, f) == gather(coord as int, f) + f(coord as int));
                assert(moves_view(moves@) =~= base + gather(coord + 1, f));
                k = coord + 1;
            }
        }
        proof {
            lemma_bit_logic();
            assert forall|j: int| k <= j < 64 implies (#[trigger] f(j)).len() == 0 by {
                assert(!bit_at(my_queens, j as u64));
                assert(!bit_at(m0, j as u64));
                lemma_no_slides(pos, j);
            }
            lemma_gather_skip(k, 64, f);
        }
    }

    /// The moves without capture of the side to move: the steps of its men,
    /// then the slides of its kings.
    pub fn get_moves_without_takes(&self) -> (moves: Vec<Move>)
        requires
            self.wf(),
        ensures
            moves_view(moves@) == self.position().simple_moves(),
    {
        let ghost pos = self.position();
        let my_pieces: u64 = self.own_pieces();
        let my_pawns: u64 = !self.is_queen & my_pieces;
        let empty: u64 = !self.not_empty;
        let mut moves: Vec<Move> = Vec::new();
        proof {
            lemma_bit_logic();
            lemma_step_masks();
            self.lemma_cells();
            assert forall|i: u64| i < 64 implies (#[trigger] bit_at(my_pawns, i)
                <==> pos.board[i as int].is_man() && pos.board[i as int].belongs_to(pos.white)) by {}
            assert forall|i: u64| i < 64 implies (#[trigger] bit_at(empty, i) <==> pos.board[i as int]
                == Checker::Empty) by {}
            assert forall|i: int| 0 <= i < 64 implies #[trigger] step_geometry(i) by {
                lemma_step_geometry(i);
            }
            assert(moves_view(moves@) =~= Seq::empty());
        }
        if self.current_player {
            let up_right: u64 = (empty >> 7) & EXCLUDE_RIGHT_COLUMN & my_pawns;
            let up_left: u64 = (empty >> 9) & EXCLUDE_LEFT_COLUMN & my_pawns;
            proof {
                assert(up_right == step_up_mask(empty, my_pawns, 7, EXCLUDE_RIGHT_COLUMN));
                assert(up_left == step_up_mask(empty, my_pawns, 9, EXCLUDE_LEFT_COLUMN));
                assert forall|i: u64| i < 64 implies (#[trigger] bit_at(up_right, i)
                    <==> pos.man_step(i as int, i + 7)) by {
                    assert(step_geometry(i as int));
                }
                assert forall|i: u64| i < 64 implies (#[trigger] bit_at(up_left, i) <==> pos.man_step(
                    i as int,
                    i + 9,
                )) by {
                    assert(step_geometry(i as int));
                }
            }
            self.push_steps(up_right, 7, &mut moves);
            self.push_steps(up_left, 9, &mut moves);
        } else {
            let down_left: u64 = (empty << 7) & EXCLUDE_LEFT_COLUMN & my_pawns;
            let down_right: u64 = (empty << 9) & EXCLUDE_RIGHT_COLUMN & my_pawns;
            proof {
                assert(down_left == step_down_mask(empty, my_pawns, 7, EXCLUDE_LEFT_COLUMN));
                assert(down_right == step_down_mask(empty, my_pawns, 9, EXCLUDE_RIGHT_COLUMN));
                assert forall|i: u64| i < 64 implies (#[trigger] bit_at(down_left, i)
                    <==> pos.man_step(i as int, i + (-7))) by {
                    assert(step_geometry(i as int));
                }
                assert forall|i: u64| i < 64 implies (#[trigger] bit_at(down_right, i)
                    <==> pos.man_step(i as int, i + (-9))) by {
                    assert(step_geometry(i as int));
                }
            }
            self.push_steps(down_left, -7, &mut moves);
            self.push_steps(down_right, -9, &mut moves);
        }
        self.push_slides(&mut moves);
        moves
    }
}

/// Which squares next to `i` are one diagonal step away: adding 7 or 9 to
/// `i`, or taking it away, wraps round the edge of the board from the
/// outer columns.
pub open spec fn step_geometry(i: int) -> bool {
    &&& (i % 8 >= 1 && i + 7 < 64) <==> (same_diagonal(i, i + 7) && dist(i, i + 7) == 1 && row(
        i + 7,
    ) == row(i) + 1)
    &&& (i % 8 <= 6 && i + 9 < 64) <==> (same_diagonal(i, i + 9) && dist(i, i + 9) == 1 && row(
        i + 9,
    ) == row(i) + 1)
    &&& (i % 8 <= 6 && i >= 7) <==> (same_diagonal(i, i - 7) && dist(i, i - 7) == 1 && row(i - 7)
        == row(i) - 1)
    &&& (i % 8 >= 1 && i >= 9) <==> (same_diagonal(i, i - 9) && dist(i, i - 9) == 1 && row(i - 9)
        == row(i) - 1)
}

/// [`step_geometry`] holds of every square.
pub proof fn lemma_step_geometry(i: int)
    requires
        0 <= i < 64,
    ensures
        step_geometry(i),
{
}

/// A square that holds no king of the side to move starts no slide.
pub proof fn lemma_no_slides(p: Position, s: int)
    requires
        !(p.board[s].is_king() && p.board[s].belongs_to(p.white)),
    ensures
        p.king_slides_from(s).len() == 0,
{
    let f = p.king_slide_family(s);
    assert forall|t: int| 0 <= t < 64 implies (#[trigger] f(t)).len() == 0 by {}
    lemma_gather_skip(0, 64, f);
}

} // verus!
