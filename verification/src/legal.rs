//! The moves that a side may make, and the end of the game.

use vstd::prelude::*;
use crate::captures::{lemma_man_jump, side_masks, takes_of};
use crate::constants::DRAW_AFTER_QUIET_KING_MOVES;
use crate::game::{Game, Move, squares, Winner};
use crate::movegen::moves_view;
use crate::moves::{gather, lemma_gather_skip, rev_chains, start_of, starting_on};
use crate::rules::Position;
use crate::useful_functions::{bit_at, lemma_bit_logic, take_lowest_bit};

verus! {

/// A square that holds no king of the side to move starts no capture by a king.
pub proof fn lemma_no_king_captures(p: Position, i: int)
    requires
        !(p.board[i].is_king() && p.board[i].belongs_to(p.white)),
    ensures
        (p.king_capture_family())(i).len() == 0,
{
}

impl Move {
    /// Whether the move starts on the square `from`.
    pub fn starts_on(&self, from: i8) -> (r: bool)
        requires
            0 <= from < 64,
        ensures
            r == (start_of(self@) == from),
    {
        match self {
            Move::Simple(a, _) => *a == from,
            Move::Take(v) => {
                if v.len() > 0 {
                    assert(squares(v@)[0] == v[0] as int);
                    v[0] == from
                } else {
                    false
                }
            },
        }
    }
}

impl Game {
    /// Adds the full captures that start with a jump of a man from a
    /// square `i` of `mask` to `i + step`.
    fn push_man_takes(&self, mask: u64, step: i8, out: &mut Vec<Vec<i8>>)
        requires
            self.wf(),
            step == 14 || step == 18 || step == -14 || step == -18,
            forall|i: u64|
                i < 64 ==> (#[trigger] bit_at(mask, i) <==> self.board()[i as int].is_man()
                    && self.position().legal_jump(i as int, i + step)),
        ensures
            rev_chains(final(out)@) == rev_chains(old(out)@) + self.position().man_captures(
                step as int,
            ),
    {
        let ghost pos = self.position();
        let ghost f = pos.man_capture_family(step as int);
        let ghost base = rev_chains(out@);
        let ghost m0 = mask;
        let ghost mut k: int = 0;
        let mut mask = mask;
        assert(base + gather(0, f) =~= base);
        while mask != 0
            invariant
                0 <= k <= 64,
                self.wf(),
                pos == self.position(),
                step == 14 || step == 18 || step == -14 || step == -18,
                f == pos.man_capture_family(step as int),
                forall|j: u64| j < 64 ==> #[trigger] bit_at(mask, j) == (bit_at(m0, j) && j >= k),
                forall|i: u64|
                    i < 64 ==> (#[trigger] bit_at(m0, i) <==> pos.board[i as int].is_man()
                        && pos.legal_jump(i as int, i + step)),
                rev_chains(out@) == base + gather(k, f),
            decreases 64 - k,
        {
            let ghost prev = mask;
            let i: i8 = take_lowest_bit(&mut mask);
            proof {
                assert forall|j: int| k <= j < i implies (#[trigger] f(j)).len() == 0 by {
                    assert(!bit_at(prev, j as u64));
                }
                lemma_gather_skip(k, i as int, f);
                assert(bit_at(m0, i as u64));
            }
            self.takes_via_rev(i, i + step, out);
            proof {
                assert(gather(i + 1, f) == gather(i as int, f) + f(i as int));
                assert(rev_chains(out@) =~= base + gather(i + 1, f));
                k = i + 1;
            }
        }
        proof {
            lemma_bit_logic();
            assert forall|j: int| k <= j < 64 implies (#[trigger] f(j)).len() == 0 by {
                assert(!bit_at(mask, j as u64));
                assert(!bit_at(m0, j as u64));
            }
            lemma_gather_skip(k, 64, f);
        }
    }

    /// Adds the full captures of the kings of the side to move.
    fn push_king_takes(&self, out: &mut Vec<Vec<i8>>)
        requires
            self.wf(),
        ensures
            rev_chains(final(out)@) == rev_chains(old(out)@) + self.position().king_captures(),
    {
        let ghost pos = self.position();
        let ghost f = pos.king_capture_family();
        let ghost base = rev_chains(out@);
        let ghost mut k: int = 0;
        let own: u64 = self.own_pieces();
        let mut cells_to_consider: u64 = own & self.not_empty & self.is_queen;
        let ghost m0 = cells_to_consider;
        proof {
            lemma_bit_logic();
            self.lemma_cells();
            assert(base + gather(0, f) =~= base);
        }
        while cells_to_consider != 0
            invariant
                0 <= k <= 64,
                self.wf(),
                pos == self.position(),
                f == pos.king_capture_family(),
                forall|j: u64|
                    j < 64 ==> #[trigger] bit_at(cells_to_consider, j) == (bit_at(m0, j) && j >= k),
                forall|i: u64|
                    i < 64 ==> (#[trigger] bit_at(m0, i) <==> pos.board[i as int].is_king()
                        && pos.board[i as int].belongs_to(pos.white)),
                rev_chains(out@) == base + gather(k, f),
            decreases 64 - k,
        {
            let ghost prev = cells_to_consider;
            let i: i8 = take_lowest_bit(&mut cells_to_consider);
            proof {
                assert forall|j: int| k <= j < i implies (#[trigger] f(j)).len() == 0 by {
                    assert(!bit_at(prev, j as u64));
                    lemma_no_king_captures(pos, j);
                }
                lemma_gather_skip(k, i as int, f);
                assert(bit_at(m0, i as u64));
            }
            self.takes_from_cell_rev_into(i, out);
            proof {
                assert(gather(i + 1, f) == gather(i as int, f) + f(i as int));
                assert(rev_chains(out@) =~= base + gather(i + 1, f));
                k = i + 1;
            }
        }
        proof {
            lemma_bit_logic();
            assert forall|j: int| k <= j < 64 implies (#[trigger] f(j)).len() == 0 by {
                assert(!bit_at(cells_to_consider, j as u64));
                assert(!bit_at(m0, j as u64));
                lemma_no_king_captures(pos, j);
            }
            lemma_gather_skip(k, 64, f);
        }
    }

    /// The squares of the men of the side to move that can jump to the square `step` away.
    fn men_that_jump(&self, my: u64, enemy: u64, step: i8) -> (r: u64)
        requires
            self.wf(),
            step == 14 || step == 18 || step == -14 || step == -18,
            side_masks(self, enemy, !self.not_empty),
            forall|i: u64|
                i < 64 ==> (#[trigger] bit_at(my, i) <==> self.board()[i as int].is_man()
                    && self.board()[i as int].belongs_to(self.current_player)),
        ensures
            forall|i: u64|
                i < 64 ==> (#[trigger] bit_at(r, i) <==> self.board()[i as int].is_man()
                    && self.position().legal_jump(i as int, i + step)),
    {
        let r: u64 = if step == 18 {
            self.get_pawns_left_up_takes_mask(my, enemy)
        } else if step == 14 {
            self.get_pawns_right_up_takes_mask(my, enemy)
        } else if step == -14 {
            self.get_pawns_left_down_takes_mask(my, enemy)
        } else {
            self.get_pawns_right_down_takes_mask(my, enemy)
        };
        proof {
            assert forall|i: u64| i < 64 implies (#[trigger] bit_at(r, i)
                <==> self.board()[i as int].is_man() && self.position().legal_jump(
                i as int,
                i + step,
            )) by {
                if bit_at(my, i) {
                    lemma_man_jump(self, enemy, !self.not_empty, i as int, step as int);
                }
            }
        }
        r
    }

    /// The capturing moves of the side to move: every full capture of
    /// every one of its pieces.
    ///
    /// First come the captures of men, by direction of the first jump and
    /// then by square of the man, then the captures of kings by square of
    /// the king.
    pub fn get_moves_with_takes(&self) -> (moves: Vec<Move>)
        requires
            self.wf(),
        ensures
            moves_view(moves@) == self.position().capture_moves(),
    {
        let ghost pos = self.position();
        let own: u64 = self.own_pieces();
        let my: u64 = self.get_pawns() & own;
        let enemy: u64 = self.enemy_pieces();
        proof {
            lemma_bit_logic();
            self.lemma_cells();
        }
        let mut chains: Vec<Vec<i8>> = Vec::new();
        assert(rev_chains(chains@) =~= Seq::empty());
        let m1: u64 = self.men_that_jump(my, enemy, 14);
        self.push_man_takes(m1, 14, &mut chains);
        let m2: u64 = self.men_that_jump(my, enemy, -18);
        self.push_man_takes(m2, -18, &mut chains);
        let m3: u64 = self.men_that_jump(my, enemy, 18);
        self.push_man_takes(m3, 18, &mut chains);
        let m4: u64 = self.men_that_jump(my, enemy, -14);
        self.push_man_takes(m4, -14, &mut chains);
        self.push_king_takes(&mut chains);
        assert(rev_chains(chains@) =~= pos.capture_chains());
        takes_of(&chains)
    }

    /// The moves that the side to move may make: its captures if it has
    /// one, else its moves without capture.
    pub fn get_moves(&self) -> (moves: Vec<Move>)
        requires
            self.wf(),
        ensures
            moves_view(moves@) == self.position().legal_moves(),
    {
        let moves_with_cutting: Vec<Move> = self.get_moves_with_takes();
        if moves_with_cutting.len() != 0 {
            return moves_with_cutting;
        }
        self.get_moves_without_takes()
    }

    /// The moves that the side to move may make with the piece on `from`.
    pub fn get_moves_from_cell(&self, from: i8) -> (moves: Vec<Move>)
        requires
            self.wf(),
            0 <= from < 64,
        ensures
            moves_view(moves@) == starting_on(self.position().legal_moves(), from as int),
    {
        let all: Vec<Move> = self.get_moves();
        let ghost legal = moves_view(all@);
        let mut moves: Vec<Move> = Vec::new();
        let mut i: usize = 0;
        assert(moves_view(moves@) =~= starting_on(legal.take(0), from as int));
        while i < all.len()
            invariant
                i <= all.len(),
                0 <= from < 64,
                legal == moves_view(all@),
                moves_view(moves@) == starting_on(legal.take(i as int), from as int),
            decreases all.len() - i,
        {
            let starts: bool = all[i].starts_on(from);
            proof {
                assert(legal.take(i + 1).drop_last() =~= legal.take(i as int));
                assert(legal.take(i + 1).last() == all[i as int]@);
            }
            if starts {
                let ghost before = moves@;
                moves.push(all[i].duplicate());
                assert(moves_view(moves@) =~= moves_view(before).push(all[i as int]@));
            }
            i += 1;
        }
        assert(legal.take(all.len() as int) =~= legal);
        moves
    }

    /// How the game has ended, if it has: the side to move loses when it
    /// has no move; else the game is drawn once the count of quiet king
    /// moves has reached its limit.
    pub fn get_winner(&self) -> (r: Option<Winner>)
        requires
            self.wf(),
        ensures
            r == self.outcome(),
    {
        let moves: Vec<Move> = self.get_moves();
        if moves.len() == 0 {
            return Some(
                if self.current_player {
                    Winner::Black
                } else {
                    Winner::White
                },
            );
        }
        if self.is_draw() {
            return Some(Winner::Draw);
        }
        None
    }

    /// How the game has ended, if it has.
    pub open spec fn outcome(&self) -> Option<Winner> {
        if self.position().legal_moves().len() == 0 {
            Some(
                if self.current_player {
                    Winner::Black
                } else {
                    Winner::White
                },
            )
        } else if self.boring_moves_counter >= DRAW_AFTER_QUIET_KING_MOVES {
            Some(Winner::Draw)
        } else {
            None
        }
    }
}

} // verus!
