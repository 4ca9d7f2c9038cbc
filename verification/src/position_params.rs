//! A game in progress as a player at the board sees it: the position, the
//! piece that is picked up, the squares it can go to, and the move that
//! is shown.

use vstd::prelude::*;
use crate::bot::model::lemma_game_determined;
use crate::bot::SearchResult;
use crate::cells::{Cells, cells_clone, cells_contains, cells_insert, cells_of};
use crate::chains::{
    lemma_after_jump, lemma_after_jumps, lemma_capture_is_mandatory, lemma_capture_moves_sound,
    lemma_chains_from_sound, lemma_legal_moves_applicable, lemma_simple_moves_sound,
};
use crate::game::{Game, Move, MoveView, squares, Winner};
use crate::movegen::moves_view;
use crate::moves::{start_of, starting_on, take_moves};
use crate::useful_functions::{bit, bit_at};

verus! {

/// The state of a game in progress.
pub struct PositionParams {
    pub game: Game,
    /// The position at the start of the turn.
    pub last_correct_game_state: Game,
    /// The square of the piece that is picked up.
    pub selected_checker: Option<i8>,
    /// The squares of the move that is shown: the last move made, or the
    /// jumps made so far of a capture under way.
    pub full_current_move: Vec<i8>,
    /// The squares of `full_current_move` as a set.
    pub full_current_move_hash_set: Cells,
    /// The squares that the piece picked up can go to.
    pub next_possible_cells: Cells,
    /// Whether the piece picked up goes to those squares by a jump.
    pub selected_move_with_capture: bool,
    pub winner: Option<Winner>,
    /// The number of turns made.
    pub moves_cnt: i32,
}

/// The state of a game in progress over mathematical sequences and sets.
pub struct PositionView {
    pub game: Game,
    pub last_correct_game_state: Game,
    pub selected_checker: Option<i8>,
    pub full_current_move: Seq<i8>,
    pub shown: Set<i8>,
    pub targets: Set<i8>,
    pub with_capture: bool,
    pub winner: Option<Winner>,
    pub moves_cnt: i32,
}

impl View for PositionParams {
    type V = PositionView;

    open spec fn view(&self) -> PositionView {
        PositionView {
            game: self.game,
            last_correct_game_state: self.last_correct_game_state,
            selected_checker: self.selected_checker,
            full_current_move: self.full_current_move@,
            shown: self.full_current_move_hash_set@,
            targets: self.next_possible_cells@,
            with_capture: self.selected_move_with_capture,
            winner: self.winner,
            moves_cnt: self.moves_cnt,
        }
    }
}

/// The square that a move reaches first; -1 for a capture without jump.
pub open spec fn second_square(m: MoveView) -> int {
    match m {
        MoveView::Simple(_, b) => b,
        MoveView::Take(path) => if path.len() > 1 {
            path[1]
        } else {
            -1
        },
    }
}

/// The squares that the moves reach first.
pub open spec fn targets_of(moves: Seq<MoveView>) -> Set<i8> {
    Set::new(|t: i8| exists|k: int| 0 <= k < moves.len() && second_square(#[trigger] moves[k]) == t)
}

impl Move {
    /// The square that the move reaches first.
    pub fn second(&self) -> (r: i8)
        requires
            self@ matches MoveView::Take(path) ==> path.len() > 1,
        ensures
            r == second_square(self@),
    {
        match self {
            Move::Simple(_, b) => *b,
            Move::Take(v) => {
                assert(squares(v@)[1] == v[1] as int);
                v[1]
            },
        }
    }
}

/// Adds the squares that the moves reach first.
fn add_targets(moves: &Vec<Move>, cells: &mut Cells)
    requires
        forall|k: int|
            0 <= k < moves.len() ==> ((#[trigger] moves[k])@ matches MoveView::Take(path)
                ==> path.len() > 1),
    ensures
        final(cells)@ == old(cells)@.union(targets_of(moves_view(moves@))),
{
    let ghost all = moves_view(moves@);
    let mut i: usize = 0;
    assert(cells@ =~= old(cells)@.union(targets_of(all.take(0))));
    while i < moves.len()
        invariant
            i <= moves.len(),
            all == moves_view(moves@),
            forall|k: int|
                0 <= k < moves.len() ==> ((#[trigger] moves[k])@ matches MoveView::Take(path)
                    ==> path.len() > 1),
            cells@ == old(cells)@.union(targets_of(all.take(i as int))),
        decreases moves.len() - i,
    {
        let t: i8 = moves[i].second();
        cells_insert(cells, t);
        proof {
            let before = all.take(i as int);
            let after = all.take(i + 1);
            assert(after[i as int] == moves[i as int]@);
            assert forall|x: i8| targets_of(after).contains(x) <==> targets_of(before).insert(
                t,
            ).contains(x) by {
                if targets_of(after).contains(x) {
                    let k = choose|k: int|
                        0 <= k < after.len() && second_square(#[trigger] after[k]) == x;
                    if k < i {
                        assert(before[k] == after[k]);
                    }
                }
                if targets_of(before).contains(x) {
                    let k = choose|k: int|
                        0 <= k < before.len() && second_square(#[trigger] before[k]) == x;
                    assert(after[k] == before[k]);
                }
                if x == t {
                    assert(second_square(after[i as int]) == x);
                }
            }
            assert(targets_of(after) =~= targets_of(before).insert(t));
            assert(cells@ =~= old(cells)@.union(targets_of(after)));
        }
        i += 1;
    }
    assert(all.take(moves.len() as int) =~= all);
}

/// What is among the moves that start on a square is among the moves and starts there.
pub proof fn lemma_starting_on(moves: Seq<MoveView>, from: int, k: int)
    requires
        0 <= k < starting_on(moves, from).len(),
    ensures
        moves.contains(starting_on(moves, from)[k]),
        start_of(starting_on(moves, from)[k]) == from,
    decreases moves.len(),
{
    if moves.len() > 0 {
        let rest = moves.drop_last();
        let sub = starting_on(rest, from);
        if k < sub.len() {
            lemma_starting_on(rest, from, k);
            let w = choose|w: int| 0 <= w < rest.len() && rest[w] == sub[k];
            assert(moves[w] == sub[k]);
        } else {
            assert(moves[moves.len() - 1] == moves.last());
        }
    }
}

impl PositionParams {
    /// The piece picked up can go to the square `c`.
    pub open spec fn can_move_to(&self, c: i8) -> bool {
        self.selected_checker is Some && self.next_possible_cells@.contains(c)
    }

    /// A capture is under way: the piece picked up has jumped to its
    /// square and must jump on.
    pub open spec fn in_capture(&self) -> bool {
        &&& self.selected_checker is Some
        &&& self.selected_move_with_capture
        &&& self.full_current_move@.len() > 0
        &&& self.full_current_move@.last() == self.selected_checker->Some_0
        &&& !self.next_possible_cells@.is_empty()
    }

    /// Both positions are sound, the squares shown are squares of the
    /// board, and the piece picked up can go to each of its squares by a
    /// move that the rules allow.
    pub open spec fn wf(&self) -> bool {
        &&& self.game.wf()
        &&& self.last_correct_game_state.wf()
        &&& forall|k: int|
            0 <= k < self.full_current_move@.len() ==> 0 <= #[trigger] self.full_current_move@[k]
                < 64
        &&& match self.selected_checker {
            Some(s) => 0 <= s < 64 && forall|t: i8| #[trigger]
                self.next_possible_cells@.contains(t) ==> 0 <= t < 64 && (
                if self.selected_move_with_capture {
                    self.game.position().legal_jump(s as int, t as int)
                } else {
                    self.game.position().legal_moves().contains(
                        MoveView::Simple(s as int, t as int),
                    )
                }),
            None => true,
        }
    }

    /// The squares shown for a jump from `from`: the squares shown so far
    /// if they belong to the capture under way, else `from` alone.
    ///
    /// A move shown whose last square holds a piece of the other side is
    /// the last move of that side; the capture starts anew.
    pub open spec fn path_before_jump(&self, from: i8) -> Seq<i8> {
        let path = self.full_current_move@;
        if path.len() > 0 && !self.game.board()[path.last() as int].belongs_to(
            !self.game.current_player,
        ) {
            path
        } else {
            seq![from]
        }
    }

    /// A copy of the state.
    pub fn snapshot(&self) -> (r: PositionParams)
        ensures
            r@ == self@,
    {
        let mut path: Vec<i8> = Vec::new();
        let mut i: usize = 0;
        while i < self.full_current_move.len()
            invariant
                i <= self.full_current_move.len(),
                path@ == self.full_current_move@.take(i as int),
            decreases self.full_current_move.len() - i,
        {
            path.push(self.full_current_move[i]);
            i += 1;
            assert(path@ =~= self.full_current_move@.take(i as int));
        }
        assert(self.full_current_move@.take(self.full_current_move.len() as int)
            =~= self.full_current_move@);
        PositionParams {
            game: self.game,
            last_correct_game_state: self.last_correct_game_state,
            selected_checker: self.selected_checker,
            full_current_move: path,
            full_current_move_hash_set: cells_clone(&self.full_current_move_hash_set),
            next_possible_cells: cells_clone(&self.next_possible_cells),
            selected_move_with_capture: self.selected_move_with_capture,
            winner: self.winner,
            moves_cnt: self.moves_cnt,
        }
    }

    /// Brings the set of the squares shown up to date.
    pub fn update_current_move_hash_set(&mut self)
        ensures
            final(self).full_current_move_hash_set@ == old(self).full_current_move@.to_set(),
            final(self)@ == (PositionView {
                shown: old(self).full_current_move@.to_set(),
                ..old(self)@
            }),
    {
        self.full_current_move_hash_set = cells_of(&self.full_current_move);
    }

    /// Ends the turn: the other side is to move, the turn is counted, and
    /// the end of the game is looked for.
    pub fn complete_full_move(&mut self)
        requires
            old(self).game.wf(),
            old(self).moves_cnt < i32::MAX,
        ensures
            final(self).selected_checker is None,
            final(self).game.position() == old(self).game.position().passed(),
            final(self).game.wf(),
            final(self).game.boring_moves_counter == old(self).game.boring_moves_counter,
            final(self).last_correct_game_state == final(self).game,
            final(self).moves_cnt == old(self).moves_cnt + 1,
            final(self).winner == final(self).game.outcome(),
            final(self).full_current_move@ == old(self).full_current_move@,
            final(self).full_current_move_hash_set@ == old(self).full_current_move_hash_set@,
            final(self).next_possible_cells@ == old(self).next_possible_cells@,
            final(self).selected_move_with_capture == old(self).selected_move_with_capture,
    {
        self.selected_checker = None;
        self.game.change_player();
        self.last_correct_game_state = self.game;
        self.moves_cnt += 1;
        self.winner = self.game.get_winner();
    }
}

impl PositionParams {
    /// Picks up the piece on `from`: the squares it can go to are those
    /// that the moves of the side to move from that square reach first.
    fn select(&mut self, from: i8)
        requires
            old(self).wf(),
            0 <= from < 64,
        ensures
            final(self).wf(),
            final(self)@ == (PositionView {
                selected_checker: Some(from),
                targets: targets_of(old(self).moves_from(from)),
                with_capture: old(self).moves_from(from).len() > 0 && old(self).moves_from(
                    from,
                )[0] is Take,
                ..old(self)@
            }),
    {
        let ghost p = self.game.position();
        let ghost list = self.moves_from(from);
        let moves: Vec<Move> = self.game.get_moves_from_cell(from);
        proof {
            assert forall|k: int| 0 <= k < moves.len() implies ((#[trigger] moves[k])@ matches MoveView::Take(
                path,
            ) ==> path.len() > 1) by {
                assert(list[k] == moves[k]@);
                lemma_starting_on(p.legal_moves(), from as int, k);
                if list[k] is Take {
                    if p.capture_moves().len() > 0 {
                        lemma_capture_moves_sound(p, list[k]);
                    } else {
                        lemma_simple_moves_sound(p, list[k]);
                    }
                }
            }
        }
        let mut cells: Cells = Default::default();
        add_targets(&moves, &mut cells);
        let with_capture: bool = moves.len() > 0 && match &moves[0] {
            Move::Take(_) => true,
            Move::Simple(_, _) => false,
        };
        proof {
            assert(cells@ =~= targets_of(list));
            if moves.len() > 0 {
                assert(list[0] == moves[0]@);
            }
            assert forall|t: i8| #[trigger] cells@.contains(t) implies 0 <= t < 64 && (
            if with_capture {
                p.legal_jump(from as int, t as int)
            } else {
                p.legal_moves().contains(MoveView::Simple(from as int, t as int))
            }) by {
                let k = choose|k: int| 0 <= k < list.len() && second_square(#[trigger] list[k]) == t;
                lemma_starting_on(p.legal_moves(), from as int, k);
                lemma_starting_on(p.legal_moves(), from as int, 0);
                let m = list[k];
                if p.capture_moves().len() > 0 {
                    lemma_capture_is_mandatory(p, m);
                    lemma_capture_is_mandatory(p, list[0]);
                    lemma_capture_moves_sound(p, m);
                    lemma_after_jump(p, from as int, t as int);
                } else {
                    lemma_simple_moves_sound(p, m);
                    lemma_simple_moves_sound(p, list[0]);
                }
            }
        }
        self.next_possible_cells = cells;
        self.selected_move_with_capture = with_capture;
        self.selected_checker = Some(from);
    }

    /// The moves that the side to move may make from the square `from`.
    pub open spec fn moves_from(&self, from: i8) -> Seq<MoveView> {
        starting_on(self.game.position().legal_moves(), from as int)
    }

    /// Takes the piece picked up to the square `to`, by the move without
    /// capture or by one jump. Returns whether the turn is over: after a
    /// jump it is not if the piece can jump on; it is then picked up on
    /// `to`, to go to the squares it can jump to.
    fn step(&mut self, history: &mut Vec<PositionParams>, to: i8) -> (done: bool)
        requires
            old(self).wf(),
            old(self).can_move_to(to),
        ensures
            final(self).wf(),
            final(history)@.len() == old(history)@.len() + 1,
            final(history)@.last()@ == old(self)@,
            forall|i: int| 0 <= i < old(history)@.len() ==> final(history)@[i] == old(history)@[i],
            final(self)@ == old(self).after_step(to),
            done == old(self).step_ends_turn(to),
    {
        history.push(self.snapshot());
        let from: i8 = match self.selected_checker {
            Some(s) => s,
            None => 0,
        };
        let ghost p = self.game.position();
        self.next_possible_cells.clear();
        if !self.selected_move_with_capture {
            proof {
                lemma_legal_moves_applicable(p, MoveView::Simple(from as int, to as int));
            }
            self.game.make_move(Move::Simple(from, to));
            proof {
                lemma_game_determined(self.game, old(self).game_after_step(to));
            }
            let mut path: Vec<i8> = Vec::new();
            path.push(from);
            path.push(to);
            assert(path@ =~= seq![from, to]);
            self.full_current_move = path;
            self.update_current_move_hash_set();
            assert(self@.targets =~= Set::<i8>::empty());
            return true;
        }
        let stale: bool = if self.full_current_move.len() > 0 {
            let last: i8 = self.full_current_move[self.full_current_move.len() - 1];
            proof {
                self.game.lemma_cells();
                assert(bit(self.game.not_empty, last as int)
                    == bit_at(self.game.not_empty, last as u64));
                assert(bit(self.game.is_white, last as int)
                    == bit_at(self.game.is_white, last as u64));
            }
            !self.game.is_empty_cell(last) && self.game.is_white_checker(last)
                != self.game.current_player
        } else {
            true
        };
        if stale {
            self.full_current_move.clear();
            self.full_current_move.push(from);
        }
        self.full_current_move.push(to);
        assert(self.full_current_move@ =~= old(self).path_before_jump(from).push(to));
        let mut jump: Vec<i8> = Vec::new();
        jump.push(from);
        jump.push(to);
        proof {
            let one = seq![from as int, to as int];
            let after = p.after_jump(from as int, to as int);
            assert(squares(jump@) =~= one);
            assert(one.drop_first() =~= seq![to as int]);
            lemma_after_jump(p, from as int, to as int);
            assert(after.jumps_ok(one.drop_first()));
            assert(after.after_jumps(one.drop_first()) == after);
            assert(p.jumps_ok(one));
            assert(p.after_jumps(one) == after);
        }
        self.game.make_move(Move::Take(jump));
        proof {
            lemma_game_determined(self.game, old(self).game_after_step(to));
        }
        let ghost q = self.game.position();
        let new_cuts: Vec<Move> = self.game.get_cuts_from_cell(to);
        let ghost chains = q.chains_from(to as int);
        proof {
            assert forall|k: int| 0 <= k < new_cuts.len() implies ((#[trigger] new_cuts[k])@ matches MoveView::Take(
                path,
            ) ==> path.len() > 1) by {
                assert(new_cuts[k]@ == take_moves(chains)[k]);
                assert(chains.contains(chains[k]));
                lemma_chains_from_sound(q, to as int, chains[k]);
            }
        }
        let done: bool = new_cuts.len() == 0;
        if !done {
            self.selected_checker = Some(to);
            add_targets(&new_cuts, &mut self.next_possible_cells);
            proof {
                assert(self.next_possible_cells@ =~= targets_of(take_moves(chains)));
                assert forall|t: i8| #[trigger]
                    self.next_possible_cells@.contains(t) implies 0 <= t < 64 && q.legal_jump(
                    to as int,
                    t as int,
                ) by {
                    let k = choose|k: int|
                        0 <= k < take_moves(chains).len() && second_square(
                            #[trigger] take_moves(chains)[k],
                        ) == t;
                    assert(chains.contains(chains[k]));
                    lemma_chains_from_sound(q, to as int, chains[k]);
                    lemma_after_jump(q, to as int, t as int);
                }
            }
        } else {
            assert(self.next_possible_cells@ =~= Set::<i8>::empty());
        }
        self.update_current_move_hash_set();
        done
    }

    /// Whether taking the piece picked up to `to` ends the turn: a move
    /// without capture does, and a jump after which the piece cannot jump on.
    pub open spec fn step_ends_turn(&self, to: i8) -> bool {
        let from = self.selected_checker->Some_0;
        !self.selected_move_with_capture || self.game.position().after_jump(
            from as int,
            to as int,
        ).chains_from(to as int).len() == 0
    }

    /// The game after the piece picked up was taken to `to`.
    pub open spec fn game_after_step(&self, to: i8) -> Game {
        let from = self.selected_checker->Some_0;
        let m = if self.selected_move_with_capture {
            MoveView::Take(seq![from as int, to as int])
        } else {
            MoveView::Simple(from as int, to as int)
        };
        choose|g: Game|
            g.wf() && g.position() == self.game.position().after_move(m)
                && g.boring_moves_counter == self.game.quiet_count_after(m)
    }

    /// The state after the piece picked up was taken to `to`.
    pub open spec fn after_step(&self, to: i8) -> PositionView {
        let from = self.selected_checker->Some_0;
        let game = self.game_after_step(to);
        let path = if self.selected_move_with_capture {
            self.path_before_jump(from).push(to)
        } else {
            seq![from, to]
        };
        let onward = take_moves(game.position().chains_from(to as int));
        PositionView {
            game,
            selected_checker: if self.step_ends_turn(to) {
                Some(from)
            } else {
                Some(to)
            },
            full_current_move: path,
            shown: path.to_set(),
            targets: if self.step_ends_turn(to) {
                Set::<i8>::empty()
            } else {
                targets_of(onward)
            },
            ..self@
        }
    }
}

/// What a click on the square `clicked_cell` does to the game in progress.
/// Returns whether the turn is over; it is then for the caller to end it
/// with `complete_full_move`.
///
/// If the piece picked up can go to the square, it goes there, and the
/// state before is added to `history`. Else, while a capture is under
/// way, nothing happens: the piece that has jumped must jump on. Else the
/// piece on the square is picked up.
pub fn process_click_on_board(
    pos_params: &mut PositionParams,
    history: &mut Vec<PositionParams>,
    clicked_cell: i8,
) -> (done: bool)
    requires
        old(pos_params).wf(),
        0 <= clicked_cell < 64,
    ensures
        final(pos_params).wf(),
        final(pos_params)@ == old(pos_params).after_click(clicked_cell),
        done == (old(pos_params).can_move_to(clicked_cell) && old(pos_params).step_ends_turn(
            clicked_cell,
        )),
        old(pos_params).can_move_to(clicked_cell) ==> final(history)@.len() == old(history)@.len()
            + 1 && final(history)@.last()@ == old(pos_params)@,
        !old(pos_params).can_move_to(clicked_cell) ==> final(history)@ == old(history)@,
        forall|i: int| 0 <= i < old(history)@.len() ==> final(history)@[i] == old(history)@[i],
{
    let picked: bool = match pos_params.selected_checker {
        Some(_) => cells_contains(&pos_params.next_possible_cells, clicked_cell),
        None => false,
    };
    if picked {
        return pos_params.step(history, clicked_cell);
    }
    let jumping: bool = match pos_params.selected_checker {
        Some(s) => pos_params.selected_move_with_capture && pos_params.full_current_move.len() > 0
            && pos_params.full_current_move[pos_params.full_current_move.len() - 1] == s
            && !pos_params.next_possible_cells.is_empty(),
        None => false,
    };
    if jumping {
        return false;
    }
    pos_params.select(clicked_cell);
    pos_params.update_current_move_hash_set();
    false
}

impl PositionParams {
    /// The state after a click on the square `c`.
    pub open spec fn after_click(&self, c: i8) -> PositionView {
        if self.can_move_to(c) {
            self.after_step(c)
        } else if self.in_capture() {
            self@
        } else {
            PositionView {
                selected_checker: Some(c),
                targets: targets_of(self.moves_from(c)),
                with_capture: self.moves_from(c).len() > 0 && self.moves_from(c)[0] is Take,
                shown: self.full_current_move@.to_set(),
                ..self@
            }
        }
    }

    /// Makes the move that a search has found and ends the turn.
    pub fn make_bot_move(&mut self, search_result: &SearchResult)
        requires
            old(self).wf(),
            old(self).game.position().legal_moves().contains(search_result.best_move@),
            old(self).moves_cnt < i32::MAX,
        ensures
            final(self).wf(),
            final(self).game.position() == old(self).game.position().after_move(
                search_result.best_move@,
            ).passed(),
            final(self).game.boring_moves_counter == old(self).game.quiet_count_after(
                search_result.best_move@,
            ),
            final(self).last_correct_game_state == final(self).game,
            final(self).full_current_move@ == search_result.best_move.squares_spec(),
            final(self).full_current_move_hash_set@ == final(self).full_current_move@.to_set(),
            final(self).selected_checker is None,
            final(self).moves_cnt == old(self).moves_cnt + 1,
            final(self).winner == final(self).game.outcome(),
    {
        let ghost p = self.game.position();
        proof {
            lemma_legal_moves_applicable(p, search_result.best_move@);
            if p.capture_moves().len() > 0 {
                lemma_capture_moves_sound(p, search_result.best_move@);
                lemma_after_jumps(p, search_result.best_move@->Take_0);
            } else {
                lemma_simple_moves_sound(p, search_result.best_move@);
            }
        }
        self.full_current_move = search_result.best_move.as_vec();
        assert forall|k: int| 0 <= k < self.full_current_move@.len() implies 0
            <= #[trigger] self.full_current_move@[k] < 64 by {
            match search_result.best_move {
                Move::Simple(a, b) => {},
                Move::Take(v) => {
                    assert(squares(v@)[k] == v[k] as int);
                },
            }
        }
        self.game.make_move(search_result.best_move.duplicate());
        self.complete_full_move();
        self.update_current_move_hash_set();
    }
}

impl Default for PositionParams {
    /// A game at its start, with nothing picked up and nothing shown.
    fn default() -> (r: PositionParams)
        ensures
            r.game.is_start(),
            r.last_correct_game_state.is_start(),
            r.selected_checker is None,
            r.full_current_move@ == Seq::<i8>::empty(),
            r.full_current_move_hash_set@ == Set::<i8>::empty(),
            r.next_possible_cells@ == Set::<i8>::empty(),
            !r.selected_move_with_capture,
            r.winner is None,
            r.moves_cnt == 0,
            r.wf(),
    {
        PositionParams {
            game: Game::default(),
            last_correct_game_state: Game::default(),
            selected_checker: None,
            full_current_move: Vec::new(),
            full_current_move_hash_set: Default::default(),
            next_possible_cells: Default::default(),
            selected_move_with_capture: false,
            winner: None,
            moves_cnt: 0,
        }
    }
}

} // verus!
