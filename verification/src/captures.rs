//! Generation of the capturing moves of a position.

use vstd::prelude::*;
use crate::diagonals::{
    capture_reach, capture_reach_over, capture_targets, slide_reach, slide_targets,
};
use crate::game::{Checker, Game, Move, MoveView, squares};
use crate::movegen::moves_view;
use crate::moves::{lemma_chains_below_skip, prefixed, rev_chains, take_moves};
use crate::rules::{
    dist, lemma_jump_takes_one_piece, lemma_path, path_sq, piece_count, same_diagonal,
};
use crate::useful_functions::{
    bit, bit_at, EXCLUDE_2_LEFT_COLUMNS, EXCLUDE_2_RIGHT_COLUMNS, jump_down_mask, jump_up_mask,
    lemma_bit_logic, lemma_bit_single, lemma_jump_masks, lemma_lowest_set, lowest_set,
    take_lowest_bit,
};

verus! {

/// Which squares two rows from `i` are two diagonal steps away, and the square in between.
pub open spec fn jump_geometry(i: int) -> bool {
    &&& (i % 8 >= 2 && i + 14 < 64) <==> (same_diagonal(i, i + 14) && dist(i, i + 14) == 2)
    &&& (i % 8 <= 5 && i + 18 < 64) <==> (same_diagonal(i, i + 18) && dist(i, i + 18) == 2)
    &&& (i % 8 <= 5 && i >= 14) <==> (same_diagonal(i, i - 14) && dist(i, i - 14) == 2)
    &&& (i % 8 >= 2 && i >= 18) <==> (same_diagonal(i, i - 18) && dist(i, i - 18) == 2)
    &&& path_sq(i, i + 14, 1) == i + 7 || !(i % 8 >= 2 && i + 14 < 64)
    &&& path_sq(i, i + 18, 1) == i + 9 || !(i % 8 <= 5 && i + 18 < 64)
    &&& path_sq(i, i - 14, 1) == i - 7 || !(i % 8 <= 5 && i >= 14)
    &&& path_sq(i, i - 18, 1) == i - 9 || !(i % 8 >= 2 && i >= 18)
}

/// [`jump_geometry`] holds of every square.
pub proof fn lemma_jump_geometry(i: int)
    requires
        0 <= i < 64,
    ensures
        jump_geometry(i),
{
}

/// The opponent's piece on the square next to `i` and the empty square
/// behind it that a jump of a man from `i` to `i + step` needs, read from
/// the masks of the opponent's pieces and of the empty squares.
pub open spec fn man_jump_cond(enemy: u64, open: u64, i: int, step: int) -> bool {
    if step == 14 {
        i % 8 >= 2 && i + 14 < 64 && bit(enemy, i + 7) && bit(open, i + 14)
    } else if step == 18 {
        i % 8 <= 5 && i + 18 < 64 && bit(enemy, i + 9) && bit(open, i + 18)
    } else if step == -14 {
        i % 8 <= 5 && i >= 14 && bit(enemy, i - 7) && bit(open, i - 14)
    } else {
        i % 8 >= 2 && i >= 18 && bit(enemy, i - 9) && bit(open, i - 18)
    }
}

/// The word-level tests for a jump of a man select the squares for which [`man_jump_cond`] holds.
pub proof fn lemma_man_jump_masks(enemy: u64, open: u64, men: u64)
    ensures
        forall|i: u64|
            i < 64 ==> (#[trigger] bit_at(
                jump_up_mask(enemy, open, men, 7, EXCLUDE_2_RIGHT_COLUMNS),
                i,
            ) <==> bit_at(men, i) && man_jump_cond(enemy, open, i as int, 14)),
        forall|i: u64|
            i < 64 ==> (#[trigger] bit_at(
                jump_up_mask(enemy, open, men, 9, EXCLUDE_2_LEFT_COLUMNS),
                i,
            ) <==> bit_at(men, i) && man_jump_cond(enemy, open, i as int, 18)),
        forall|i: u64|
            i < 64 ==> (#[trigger] bit_at(
                jump_down_mask(enemy, open, men, 7, EXCLUDE_2_LEFT_COLUMNS),
                i,
            ) <==> bit_at(men, i) && man_jump_cond(enemy, open, i as int, -14)),
        forall|i: u64|
            i < 64 ==> (#[trigger] bit_at(
                jump_down_mask(enemy, open, men, 9, EXCLUDE_2_RIGHT_COLUMNS),
                i,
            ) <==> bit_at(men, i) && man_jump_cond(enemy, open, i as int, -18)),
{
    lemma_jump_masks();
    assert forall|i: u64| i < 64 implies (#[trigger] bit_at(
        jump_up_mask(enemy, open, men, 7, EXCLUDE_2_RIGHT_COLUMNS),
        i,
    ) <==> bit_at(men, i) && man_jump_cond(enemy, open, i as int, 14)) by {
        if i % 8 >= 2 && i + 14 < 64 {
            assert(bit(enemy, i + 7) == bit_at(enemy, (i + 7) as u64));
            assert(bit(open, i + 14) == bit_at(open, (i + 14) as u64));
        }
    }
    assert forall|i: u64| i < 64 implies (#[trigger] bit_at(
        jump_up_mask(enemy, open, men, 9, EXCLUDE_2_LEFT_COLUMNS),
        i,
    ) <==> bit_at(men, i) && man_jump_cond(enemy, open, i as int, 18)) by {
        if i % 8 <= 5 && i + 18 < 64 {
            assert(bit(enemy, i + 9) == bit_at(enemy, (i + 9) as u64));
            assert(bit(open, i + 18) == bit_at(open, (i + 18) as u64));
        }
    }
    assert forall|i: u64| i < 64 implies (#[trigger] bit_at(
        jump_down_mask(enemy, open, men, 7, EXCLUDE_2_LEFT_COLUMNS),
        i,
    ) <==> bit_at(men, i) && man_jump_cond(enemy, open, i as int, -14)) by {
        if i % 8 <= 5 && i >= 14 {
            assert(bit(enemy, i - 7) == bit_at(enemy, (i - 7) as u64));
            assert(bit(open, i - 14) == bit_at(open, (i - 14) as u64));
        }
    }
    assert forall|i: u64| i < 64 implies (#[trigger] bit_at(
        jump_down_mask(enemy, open, men, 9, EXCLUDE_2_RIGHT_COLUMNS),
        i,
    ) <==> bit_at(men, i) && man_jump_cond(enemy, open, i as int, -18)) by {
        if i % 8 >= 2 && i >= 18 {
            assert(bit(enemy, i - 9) == bit_at(enemy, (i - 9) as u64));
            assert(bit(open, i - 18) == bit_at(open, (i - 18) as u64));
        }
    }
}

/// The masks of the pieces of the side that is not to move and of the empty squares.
pub open spec fn side_masks(g: &Game, enemy: u64, open: u64) -> bool {
    &&& forall|i: u64|
        i < 64 ==> (#[trigger] bit_at(enemy, i) <==> g.board()[i as int].belongs_to(
            !g.current_player,
        ))
    &&& forall|i: u64| i < 64 ==> (#[trigger] bit_at(open, i) <==> g.board()[i as int] == Checker::Empty)
}

/// A man of the side to move on `i` can jump to `i + step` exactly if the masks say so.
pub proof fn lemma_man_jump(g: &Game, enemy: u64, open: u64, i: int, step: int)
    requires
        g.wf(),
        0 <= i < 64,
        step == 14 || step == 18 || step == -14 || step == -18,
        side_masks(g, enemy, open),
        g.board()[i].is_man(),
        g.board()[i].belongs_to(g.current_player),
    ensures
        man_jump_cond(enemy, open, i, step) <==> g.position().legal_jump(i, i + step),
{
    let p = g.position();
    let t = i + step;
    lemma_jump_geometry(i);
    if man_jump_cond(enemy, open, i, step) {
        let mid = path_sq(i, t, 1);
        assert(bit_at(enemy, mid as u64));
        assert(bit_at(open, t as u64));
        assert(p.jump_over(i, t, 1));
    }
    if p.legal_jump(i, t) {
        let m = choose|m: int| p.jump_over(i, t, m);
        assert(m == 1);
        let mid = path_sq(i, t, 1);
        assert(bit_at(enemy, mid as u64));
        assert(bit_at(open, t as u64));
    }
}

/// A king of the side to move on `s` can jump to `t` exactly if sliding
/// reaches `t` past the opponent's pieces and a capture reaches it past
/// exactly one of them.
pub proof fn lemma_king_jump(g: &Game, own: u64, enemy: u64, s: int, t: int)
    requires
        g.wf(),
        0 <= s < 64,
        0 <= t < 64,
        forall|i: u64|
            i < 64 ==> (#[trigger] bit_at(own, i) <==> g.board()[i as int].belongs_to(
                g.current_player,
            )),
        forall|i: u64|
            i < 64 ==> (#[trigger] bit_at(enemy, i) <==> g.board()[i as int].belongs_to(
                !g.current_player,
            )),
        g.board()[s].is_king(),
        g.board()[s].belongs_to(g.current_player),
    ensures
        slide_reach(s, own, t) && capture_reach(s, enemy, t) <==> g.position().legal_jump(s, t),
{
    let p = g.position();
    if same_diagonal(s, t) {
        lemma_path(s, t);
        let d = dist(s, t);
        if slide_reach(s, own, t) && capture_reach(s, enemy, t) {
            let m = choose|m: int| capture_reach_over(s, enemy, t, m);
            assert(p.jump_over(s, t, m)) by {
                assert(!bit(own, path_sq(s, t, d)));
                assert(!bit_at(own, t as u64));
                assert(!bit_at(enemy, t as u64));
                let c = path_sq(s, t, m);
                assert(bit_at(enemy, c as u64));
                assert forall|i: int| 1 <= i < d && i != m implies p.board[#[trigger] path_sq(
                    s,
                    t,
                    i,
                )] == Checker::Empty by {
                    let q = path_sq(s, t, i);
                    assert(!bit(own, q));
                    assert(!bit(enemy, q));
                    assert(!bit_at(own, q as u64));
                    assert(!bit_at(enemy, q as u64));
                }
            }
        }
        if p.legal_jump(s, t) {
            let m = choose|m: int| p.jump_over(s, t, m);
            let c = path_sq(s, t, m);
            assert(bit_at(enemy, c as u64));
            assert(!bit_at(enemy, t as u64));
            assert(!bit_at(own, t as u64));
            assert forall|i: int| 1 <= i <= d implies !bit(own, #[trigger] path_sq(s, t, i)) by {
                let q = path_sq(s, t, i);
                assert(!bit_at(own, q as u64));
            }
            assert forall|i: int| 1 <= i < d && i != m implies !bit(
                enemy,
                #[trigger] path_sq(s, t, i),
            ) by {
                let q = path_sq(s, t, i);
                assert(p.board[q] == Checker::Empty);
                assert(!bit_at(enemy, q as u64));
            }
            assert(capture_reach_over(s, enemy, t, m));
        }
    }
}

/// A copy of `v` with `x` added at the end.
fn extended(v: &Vec<i8>, x: i8) -> (r: Vec<i8>)
    ensures
        r@ == v@.push(x),
{
    let mut r: Vec<i8> = Vec::new();
    let mut i: usize = 0;
    while i < v.len()
        invariant
            i <= v.len(),
            r@ == v@.take(i as int),
        decreases v.len() - i,
    {
        r.push(v[i]);
        i += 1;
        assert(r@ =~= v@.take(i as int));
    }
    r.push(x);
    assert(v@.take(v.len() as int) =~= v@);
    r
}

/// A copy of `v` in reverse order.
fn reversed(v: &Vec<i8>) -> (r: Vec<i8>)
    ensures
        r@ == v@.reverse(),
{
    let mut r: Vec<i8> = Vec::new();
    let mut i: usize = v.len();
    while i > 0
        invariant
            i <= v.len(),
            r.len() == v.len() - i,
            forall|k: int| 0 <= k < r.len() ==> r[k] == v[v.len() - 1 - k],
        decreases i,
    {
        i -= 1;
        r.push(v[i]);
    }
    assert(r@ =~= v@.reverse());
    r
}

impl Game {
    /// The squares that hold a man.
    #[inline(always)]
    pub fn get_pawns(&self) -> (r: u64)
        ensures
            r == !self.is_queen & self.not_empty,
            forall|i: u64|
                i < 64 ==> (#[trigger] bit_at(r, i) <==> bit_at(self.not_empty, i) && !bit_at(
                    self.is_queen,
                    i,
                )),
    {
        proof {
            lemma_bit_logic();
        }
        !self.is_queen & self.not_empty
    }

    /// The squares `i` of `current` from which a man can jump to `i + 18`.
    #[inline(always)]
    pub fn get_pawns_left_up_takes_mask(&self, current: u64, enemy: u64) -> (r: u64)
        ensures
            r == jump_up_mask(enemy, !self.not_empty, current, 9, EXCLUDE_2_LEFT_COLUMNS),
            forall|i: u64|
                i < 64 ==> (#[trigger] bit_at(r, i) <==> bit_at(current, i) && man_jump_cond(
                    enemy,
                    !self.not_empty,
                    i as int,
                    18,
                )),
    {
        proof {
            lemma_man_jump_masks(enemy, !self.not_empty, current);
        }
        let r: u64 = current & (enemy >> 9) & (!self.not_empty >> 18) & EXCLUDE_2_LEFT_COLUMNS;
        assert(r == jump_up_mask(enemy, !self.not_empty, current, 9, EXCLUDE_2_LEFT_COLUMNS));
        r
    }

    /// The squares `i` of `current` from which a man can jump to `i + 14`.
    #[inline(always)]
    pub fn get_pawns_right_up_takes_mask(&self, current: u64, enemy: u64) -> (r: u64)
        ensures
            r == jump_up_mask(enemy, !self.not_empty, current, 7, EXCLUDE_2_RIGHT_COLUMNS),
            forall|i: u64|
                i < 64 ==> (#[trigger] bit_at(r, i) <==> bit_at(current, i) && man_jump_cond(
                    enemy,
                    !self.not_empty,
                    i as int,
                    14,
                )),
    {
        proof {
            lemma_man_jump_masks(enemy, !self.not_empty, current);
        }
        let r: u64 = current & (enemy >> 7) & (!self.not_empty >> 14) & EXCLUDE_2_RIGHT_COLUMNS;
        assert(r == jump_up_mask(enemy, !self.not_empty, current, 7, EXCLUDE_2_RIGHT_COLUMNS));
        r
    }

    /// The squares `i` of `current` from which a man can jump to `i - 14`.
    #[inline(always)]
    pub fn get_pawns_left_down_takes_mask(&self, current: u64, enemy: u64) -> (r: u64)
        ensures
            r == jump_down_mask(enemy, !self.not_empty, current, 7, EXCLUDE_2_LEFT_COLUMNS),
            forall|i: u64|
                i < 64 ==> (#[trigger] bit_at(r, i) <==> bit_at(current, i) && man_jump_cond(
                    enemy,
                    !self.not_empty,
                    i as int,
                    -14,
                )),
    {
        proof {
            lemma_man_jump_masks(enemy, !self.not_empty, current);
        }
        let r: u64 = current & (enemy << 7) & (!self.not_empty << 14) & EXCLUDE_2_LEFT_COLUMNS;
        assert(r == jump_down_mask(enemy, !self.not_empty, current, 7, EXCLUDE_2_LEFT_COLUMNS));
        r
    }

    /// The squares `i` of `current` from which a man can jump to `i - 18`.
    #[inline(always)]
    pub fn get_pawns_right_down_takes_mask(&self, current: u64, enemy: u64) -> (r: u64)
        ensures
            r == jump_down_mask(enemy, !self.not_empty, current, 9, EXCLUDE_2_RIGHT_COLUMNS),
            forall|i: u64|
                i < 64 ==> (#[trigger] bit_at(r, i) <==> bit_at(current, i) && man_jump_cond(
                    enemy,
                    !self.not_empty,
                    i as int,
                    -18,
                )),
    {
        proof {
            lemma_man_jump_masks(enemy, !self.not_empty, current);
        }
        let r: u64 = current & (enemy << 9) & (!self.not_empty << 18) & EXCLUDE_2_RIGHT_COLUMNS;
        assert(r == jump_down_mask(enemy, !self.not_empty, current, 9, EXCLUDE_2_RIGHT_COLUMNS));
        r
    }

    /// The squares that hold a piece of the side that is not to move.
    pub(crate) fn enemy_pieces(&self) -> (r: u64)
        requires
            self.wf(),
        ensures
            side_masks(self, r, !self.not_empty),
    {
        proof {
            lemma_bit_logic();
            self.lemma_cells();
        }
        self.not_empty & if self.current_player {
            !self.is_white
        } else {
            self.is_white
        }
    }

    /// Adds the full captures that start with the jump from `from` to `to`,
    /// each with its squares in reverse order.
    pub(crate) fn takes_via_rev(&self, from: i8, to: i8, out: &mut Vec<Vec<i8>>)
        requires
            self.wf(),
            self.position().legal_jump(from as int, to as int),
        ensures
            rev_chains(final(out)@) == rev_chains(old(out)@) + self.position().chains_via(
                from as int,
                to as int,
            ),
        decreases piece_count(self.board()), 0nat,
    {
        let ghost pos = self.position();
        let ghost s = from as int;
        let ghost t = to as int;
        let ghost base = rev_chains(out@);
        proof {
            lemma_jump_takes_one_piece(pos, s, t);
        }
        let mut game_copy: Game = *self;
        game_copy.make_cutting_move(from, to);
        let part2: Vec<Vec<i8>> = game_copy.get_takes_from_cell_rev(to);
        let ghost rest = pos.after_jump(s, t).chains_from(t);
        if part2.len() == 0 {
            let ghost before = out@;
            let mut single: Vec<i8> = Vec::new();
            single.push(to);
            single.push(from);
            out.push(single);
            proof {
                assert(squares(single@).reverse() =~= seq![s, t]);
                assert(rev_chains(out@) =~= base + seq![seq![s, t]]);
            }
        } else {
            let mut i: usize = 0;
            assert(base + prefixed(rest.take(0), s) =~= base);
            while i < part2.len()
                invariant
                    i <= part2.len(),
                    rev_chains(part2@) == rest,
                    rev_chains(out@) == base + prefixed(rest.take(i as int), s),
                    s == from,
                decreases part2.len() - i,
            {
                let longer: Vec<i8> = extended(&part2[i], from);
                let ghost before = out@;
                out.push(longer);
                proof {
                    let c = rest[i as int];
                    assert(c == squares(part2[i as int]@).reverse());
                    assert(squares(longer@).reverse() =~= seq![s] + c);
                    assert(rev_chains(out@) =~= rev_chains(before).push(seq![s] + c));
                    assert(rest.take(i + 1) =~= rest.take(i as int).push(c));
                    assert(prefixed(rest.take(i as int).push(c), s) =~= prefixed(
                        rest.take(i as int),
                        s,
                    ).push(seq![s] + c));
                    assert(rev_chains(out@) =~= base + prefixed(rest.take(i + 1), s));
                }
                i += 1;
            }
            assert(rest.take(part2.len() as int) =~= rest);
        }
    }

    /// Whether the man of the side to move on `from` can jump to `from + step`.
    fn man_can_jump(&self, from: i8, enemy: u64, step: i8) -> (r: bool)
        requires
            self.wf(),
            0 <= from < 64,
            step == 14 || step == 18 || step == -14 || step == -18,
            side_masks(self, enemy, !self.not_empty),
            self.board()[from as int].is_man(),
            self.board()[from as int].belongs_to(self.current_player),
        ensures
            r == self.position().legal_jump(from as int, from + step),
    {
        let cell_mask: u64 = 1u64 << (from as u64);
        let mask: u64 = if step == 18 {
            self.get_pawns_left_up_takes_mask(cell_mask, enemy)
        } else if step == 14 {
            self.get_pawns_right_up_takes_mask(cell_mask, enemy)
        } else if step == -14 {
            self.get_pawns_left_down_takes_mask(cell_mask, enemy)
        } else {
            self.get_pawns_right_down_takes_mask(cell_mask, enemy)
        };
        proof {
            lemma_bit_single();
            lemma_man_jump(self, enemy, !self.not_empty, from as int, step as int);
            lemma_single_mask(mask, cell_mask, from as u64);
            assert(bit_at(cell_mask, from as u64));
        }
        mask != 0
    }

    /// Adds the full captures that start with the jump of the man on `from`
    /// to `from + step`, if it can make that jump.
    fn man_takes_via_rev(&self, from: i8, enemy: u64, step: i8, out: &mut Vec<Vec<i8>>)
        requires
            self.wf(),
            0 <= from < 64,
            step == 14 || step == 18 || step == -14 || step == -18,
            side_masks(self, enemy, !self.not_empty),
            self.board()[from as int].is_man(),
            self.board()[from as int].belongs_to(self.current_player),
        ensures
            rev_chains(final(out)@) == rev_chains(old(out)@) + self.position().chains_via(
                from as int,
                from + step,
            ),
        decreases piece_count(self.board()), 1nat,
    {
        if self.man_can_jump(from, enemy, step) {
            self.takes_via_rev(from, from + step, out);
        } else {
            assert(rev_chains(out@) + self.position().chains_via(from as int, from + step)
                =~= rev_chains(out@));
        }
    }

    /// Adds the full captures of the man on `from`.
    fn man_takes_rev_into(&self, from: i8, enemy: u64, out: &mut Vec<Vec<i8>>)
        requires
            self.wf(),
            0 <= from < 64,
            side_masks(self, enemy, !self.not_empty),
            self.board()[from as int].is_man(),
            self.board()[from as int].belongs_to(self.current_player),
        ensures
            rev_chains(final(out)@) == rev_chains(old(out)@) + self.position().chains_from(
                from as int,
            ),
        decreases piece_count(self.board()), 2nat,
    {
        let ghost pos = self.position();
        let ghost s = from as int;
        let ghost base = rev_chains(out@);
        self.man_takes_via_rev(from, enemy, 18, out);
        self.man_takes_via_rev(from, enemy, 14, out);
        self.man_takes_via_rev(from, enemy, -14, out);
        self.man_takes_via_rev(from, enemy, -18, out);
        assert(rev_chains(out@) =~= base + (pos.chains_via(s, s + 18) + pos.chains_via(s, s + 14)
            + pos.chains_via(s, s - 14) + pos.chains_via(s, s - 18)));
    }

    /// The squares on which the king of the side to move on `from` can land by one jump.
    fn king_jump_targets(&self, from: i8, enemy: u64) -> (r: u64)
        requires
            self.wf(),
            0 <= from < 64,
            side_masks(self, enemy, !self.not_empty),
            self.board()[from as int].is_king(),
            self.board()[from as int].belongs_to(self.current_player),
        ensures
            forall|t: u64|
                t < 64 ==> (#[trigger] bit_at(r, t) <==> self.position().legal_jump(
                    from as int,
                    t as int,
                )),
    {
        let me: u64 = !enemy & self.not_empty;
        let before_blocker: u64 = slide_targets(from, me);
        let after_capture: u64 = capture_targets(from, enemy);
        proof {
            lemma_bit_logic();
            self.lemma_cells();
            assert forall|i: u64| i < 64 implies (#[trigger] bit_at(me, i)
                <==> self.board()[i as int].belongs_to(self.current_player)) by {}
            assert forall|t: u64| t < 64 implies (#[trigger] bit_at(
                before_blocker & after_capture,
                t,
            ) <==> self.position().legal_jump(from as int, t as int)) by {
                lemma_king_jump(self, me, enemy, from as int, t as int);
            }
        }
        before_blocker & after_capture
    }

    /// Adds the full captures of the king on `from`.
    fn king_takes_rev_into(&self, from: i8, enemy: u64, out: &mut Vec<Vec<i8>>)
        requires
            self.wf(),
            0 <= from < 64,
            side_masks(self, enemy, !self.not_empty),
            self.board()[from as int].is_king(),
            self.board()[from as int].belongs_to(self.current_player),
        ensures
            rev_chains(final(out)@) == rev_chains(old(out)@) + self.position().chains_from(
                from as int,
            ),
        decreases piece_count(self.board()), 2nat,
    {
        let ghost pos = self.position();
        let ghost s = from as int;
        let ghost base = rev_chains(out@);
        let mut can_move_to: u64 = self.king_jump_targets(from, enemy);
        let ghost m0 = can_move_to;
        let ghost mut k: int = 0;
        assert(base + pos.chains_below(s, 0) =~= base);
        while can_move_to != 0
            invariant
                0 <= k <= 64,
                self.wf(),
                pos == self.position(),
                s == from,
                forall|j: u64|
                    j < 64 ==> #[trigger] bit_at(can_move_to, j) == (bit_at(m0, j) && j >= k),
                forall|t: u64| t < 64 ==> (#[trigger] bit_at(m0, t) <==> pos.legal_jump(s, t as int)),
                rev_chains(out@) == base + pos.chains_below(s, k),
            decreases 64 - k,
        {
            let ghost prev = can_move_to;
            let j: i8 = take_lowest_bit(&mut can_move_to);
            proof {
                assert forall|i: int| k <= i < j implies (#[trigger] pos.chains_via(s, i)).len()
                    == 0 by {
                    assert(!bit_at(prev, i as u64));
                }
                lemma_chains_below_skip(pos, s, k, j as int);
                assert(bit_at(m0, j as u64));
            }
            self.takes_via_rev(from, j, out);
            proof {
                assert(pos.chains_below(s, j + 1) == pos.chains_below(s, j as int) + pos.chains_via(
                    s,
                    j as int,
                ));
                assert(rev_chains(out@) =~= base + pos.chains_below(s, j + 1));
                k = j + 1;
            }
        }
        proof {
            lemma_bit_logic();
            assert forall|i: int| k <= i < 64 implies (#[trigger] pos.chains_via(s, i)).len()
                == 0 by {
                assert(!bit_at(can_move_to, i as u64));
                assert(!bit_at(m0, i as u64));
            }
            lemma_chains_below_skip(pos, s, k, 64);
        }
    }

    /// Adds the full captures of the piece on `from`, each with its squares in reverse order.
    pub(crate) fn takes_from_cell_rev_into(&self, from: i8, out: &mut Vec<Vec<i8>>)
        requires
            self.wf(),
            0 <= from < 64,
            self.board()[from as int].belongs_to(self.current_player),
        ensures
            rev_chains(final(out)@) == rev_chains(old(out)@) + self.position().chains_from(
                from as int,
            ),
        decreases piece_count(self.board()), 3nat,
    {
        let enemy: u64 = self.enemy_pieces();
        if self.is_queen_checker(from) {
            self.king_takes_rev_into(from, enemy, out);
        } else {
            self.man_takes_rev_into(from, enemy, out);
        }
    }

    /// The full captures of the piece of the side to move on `from`, each
    /// as the squares visited in reverse order: the last landing square
    /// first, `from` last.
    pub fn get_takes_from_cell_rev(&self, from: i8) -> (r: Vec<Vec<i8>>)
        requires
            self.wf(),
            0 <= from < 64,
            self.board()[from as int].belongs_to(self.current_player),
        ensures
            rev_chains(r@) == self.position().chains_from(from as int),
        decreases piece_count(self.board()), 4nat,
    {
        let mut new_moves: Vec<Vec<i8>> = Vec::new();
        assert(rev_chains(new_moves@) =~= Seq::empty());
        self.takes_from_cell_rev_into(from, &mut new_moves);
        assert(Seq::<Seq<int>>::empty() + self.position().chains_from(from as int)
            =~= self.position().chains_from(from as int));
        new_moves
    }

    /// The full captures of the piece of the side to move on `i`, as moves.
    #[inline(always)]
    pub fn get_cuts_from_cell(&self, i: i8) -> (r: Vec<Move>)
        requires
            self.wf(),
            0 <= i < 64,
            self.board()[i as int].belongs_to(self.current_player),
        ensures
            moves_view(r@) == take_moves(self.position().chains_from(i as int)),
    {
        let res: Vec<Vec<i8>> = self.get_takes_from_cell_rev(i);
        takes_of(&res)
    }
}

/// A word that lies within a one-bit mask is not zero exactly if it has that bit.
pub proof fn lemma_single_mask(r: u64, cell_mask: u64, f: u64)
    requires
        f < 64,
        cell_mask == 1u64 << f,
        forall|i: u64| i < 64 && #[trigger] bit_at(r, i) ==> bit_at(cell_mask, i),
    ensures
        r != 0 <==> bit_at(r, f),
{
    lemma_bit_logic();
    lemma_bit_single();
    if r != 0 {
        lemma_lowest_set(r);
        assert(bit_at(r, lowest_set(r) as u64));
    }
}

/// The capturing moves of paths stored last square first.
pub fn takes_of(chains: &Vec<Vec<i8>>) -> (r: Vec<Move>)
    ensures
        moves_view(r@) == take_moves(rev_chains(chains@)),
{
    let mut r: Vec<Move> = Vec::new();
    let mut i: usize = 0;
    assert(moves_view(r@) =~= take_moves(rev_chains(chains@).take(0)));
    while i < chains.len()
        invariant
            i <= chains.len(),
            moves_view(r@) == take_moves(rev_chains(chains@).take(i as int)),
        decreases chains.len() - i,
    {
        let path: Vec<i8> = reversed(&chains[i]);
        let ghost before = r@;
        r.push(Move::Take(path));
        proof {
            assert(squares(path@) =~= squares(chains[i as int]@).reverse());
            assert(moves_view(r@) =~= moves_view(before).push(
                MoveView::Take(rev_chains(chains@)[i as int]),
            ));
            assert(moves_view(r@) =~= take_moves(rev_chains(chains@).take(i + 1)));
        }
        i += 1;
    }
    assert(rev_chains(chains@).take(chains.len() as int) =~= rev_chains(chains@));
    r
}

} // verus!
