//! The search against plain negamax: as long as the transposition table
//! takes no part, the windows and the order of the moves change nothing
//! of the score.

use vstd::prelude::*;
use crate::bot::model::{
    after_checkpoint, best_move, by_gain, child, children, Engine, follows, leaf_score, loss_score,
    max_of, mover_gain, negascout, place_by_gain, plies, probe_spec, root_scan, scan, scout, search_ready,
    TableHit,
};
use crate::constants::MAX_MOVE_NUMBER;
use crate::game::MoveView;
use crate::bot::table::no_entries;
use crate::chains::{lemma_capture_is_mandatory, lemma_legal_moves_applicable};
use crate::constants::{
    HALF_OF_INFINITY, INFINITY, LOSS_DEPTH_PENALTY, MAX_SEARCH_DEPTH,
    MIN_HASH_MAP_SAVE_SEARCH_DEPTH,
};
use crate::rules::{lemma_board_value_bound, piece_count, Position};

verus! {

/// Whether the position `kid` is searched at all: once no depth is left,
/// only positions with fewer pieces than `bound` are.
pub open spec fn counts(kid: Position, bound: nat, depth: int) -> bool {
    depth > 0 || piece_count(kid.board) < bound
}

/// The score of a position for the side to move by plain negamax to the
/// depth `depth`: the greatest of the scores that its moves lead to, each
/// the negated score of the position after it one ply less deep.
///
/// With no depth left, captures are still searched; a position without
/// capture then has the score it has without search. A side without move
/// has lost.
pub open spec fn negamax(p: Position, depth: int) -> int
    decreases plies(depth), piece_count(p.board), 1nat, 0nat,
{
    if depth <= 0 && p.capture_moves().len() == 0 {
        leaf_score(p)
    } else if p.legal_moves().len() == 0 {
        loss_score(p, depth)
    } else {
        best_reply(children(p, p.legal_moves()), piece_count(p.board), depth)
    }
}

/// The greatest negated negamax score of the positions, one ply less
/// deep; `-INFINITY` if there is none.
pub open spec fn best_reply(kids: Seq<Position>, bound: nat, depth: int) -> int
    decreases plies(depth), bound, 0nat, kids.len(),
{
    if kids.len() == 0 {
        -INFINITY as int
    } else if counts(kids.last(), bound, depth) {
        max_of(best_reply(kids.drop_last(), bound, depth), -negamax(kids.last(), depth - 1))
    } else {
        best_reply(kids.drop_last(), bound, depth)
    }
}

/// What one position adds to the best reply.
pub open spec fn reply(kid: Position, bound: nat, depth: int) -> int {
    if counts(kid, bound, depth) {
        -negamax(kid, depth - 1)
    } else {
        -INFINITY as int
    }
}

/// The best reply among positions with one more is the greater of the
/// best reply among them and what the new one adds, wherever it is put.
pub proof fn lemma_best_reply_insert(
    kids: Seq<Position>,
    at: int,
    kid: Position,
    bound: nat,
    depth: int,
)
    requires
        0 <= at <= kids.len(),
    ensures
        best_reply(kids.insert(at, kid), bound, depth) == max_of(
            best_reply(kids, bound, depth),
            reply(kid, bound, depth),
        ),
        best_reply(kids, bound, depth) >= -INFINITY,
    decreases kids.len() - at,
{
    lemma_best_reply_floor(kids, bound, depth);
    let more = kids.insert(at, kid);
    if at == kids.len() {
        assert(more.drop_last() =~= kids);
        assert(more.last() == kid);
    } else {
        assert(more.drop_last() =~= kids.drop_last().insert(at, kid));
        assert(more.last() == kids.last());
        lemma_best_reply_insert(kids.drop_last(), at, kid, bound, depth);
    }
}

/// The best reply is never below `-INFINITY`.
pub proof fn lemma_best_reply_floor(kids: Seq<Position>, bound: nat, depth: int)
    ensures
        best_reply(kids, bound, depth) >= -INFINITY,
    decreases kids.len(),
{
    if kids.len() > 0 {
        lemma_best_reply_floor(kids.drop_last(), bound, depth);
    }
}

/// The place for a position in an ordered sequence lies within the sequence.
pub proof fn lemma_place_by_gain(sorted: Seq<Position>, kid: Position, i: int)
    requires
        0 <= i <= sorted.len(),
    ensures
        i <= place_by_gain(sorted, kid, i) <= sorted.len(),
    decreases sorted.len() - i,
{
    if i < sorted.len() {
        lemma_place_by_gain(sorted, kid, i + 1);
    }
}

/// Ordering the positions by gain keeps them: as many as before, each one
/// of those that were there.
pub proof fn lemma_by_gain_keeps(kids: Seq<Position>)
    ensures
        by_gain(kids).len() == kids.len(),
        forall|j: int| 0 <= j < kids.len() ==> kids.contains(#[trigger] by_gain(kids)[j]),
    decreases kids.len(),
{
    if kids.len() > 0 {
        let rest = kids.drop_last();
        let sorted = by_gain(rest);
        lemma_by_gain_keeps(rest);
        let at = place_by_gain(sorted, kids.last(), 0);
        lemma_place_by_gain(sorted, kids.last(), 0);
        assert forall|j: int| 0 <= j < kids.len() implies kids.contains(
            #[trigger] by_gain(kids)[j],
        ) by {
            let x = by_gain(kids)[j];
            if j == at {
                assert(kids[kids.len() - 1] == x);
            } else {
                let k = if j < at {
                    j
                } else {
                    j - 1
                };
                assert(sorted[k] == x);
                assert(rest.contains(sorted[k]));
                let w = choose|w: int| 0 <= w < rest.len() && rest[w] == x;
                assert(kids[w] == x);
            }
        }
    }
}

/// The place for a position lies behind every position of at least its
/// gain and before one of less.
pub proof fn lemma_place_by_gain_splits(sorted: Seq<Position>, kid: Position, i: int)
    requires
        0 <= i <= sorted.len(),
        forall|a: int, b: int|
            0 <= a < b < sorted.len() ==> mover_gain(#[trigger] sorted[a]) >= mover_gain(
                #[trigger] sorted[b],
            ),
        forall|a: int| 0 <= a < i ==> mover_gain(#[trigger] sorted[a]) >= mover_gain(kid),
    ensures
        forall|a: int|
            0 <= a < place_by_gain(sorted, kid, i) ==> mover_gain(#[trigger] sorted[a])
                >= mover_gain(kid),
        forall|a: int|
            place_by_gain(sorted, kid, i) <= a < sorted.len() ==> mover_gain(
                #[trigger] sorted[a],
            ) < mover_gain(kid),
    decreases sorted.len() - i,
{
    if i < sorted.len() && mover_gain(sorted[i]) >= mover_gain(kid) {
        lemma_place_by_gain_splits(sorted, kid, i + 1);
    }
}

/// The positions ordered by gain are in the order of falling gain.
pub proof fn lemma_by_gain_is_ordered(kids: Seq<Position>)
    ensures
        forall|a: int, b: int|
            0 <= a < b < by_gain(kids).len() ==> mover_gain(#[trigger] by_gain(kids)[a])
                >= mover_gain(#[trigger] by_gain(kids)[b]),
    decreases kids.len(),
{
    if kids.len() > 0 {
        let sorted = by_gain(kids.drop_last());
        let kid = kids.last();
        lemma_by_gain_is_ordered(kids.drop_last());
        lemma_place_by_gain(sorted, kid, 0);
        lemma_place_by_gain_splits(sorted, kid, 0);
        let at = place_by_gain(sorted, kid, 0);
        let all = by_gain(kids);
        assert forall|a: int, b: int| 0 <= a < b < all.len() implies mover_gain(#[trigger] all[a])
            >= mover_gain(#[trigger] all[b]) by {
            let x = if a < at {
                a
            } else {
                a - 1
            };
            let y = if b < at {
                b
            } else {
                b - 1
            };
            if a != at {
                assert(all[a] == sorted[x]);
            }
            if b != at {
                assert(all[b] == sorted[y]);
            }
        }
    }
}

/// The order of the positions does not change the best reply.
pub proof fn lemma_best_reply_by_gain(kids: Seq<Position>, bound: nat, depth: int)
    ensures
        best_reply(by_gain(kids), bound, depth) == best_reply(kids, bound, depth),
    decreases kids.len(),
{
    if kids.len() > 0 {
        let rest = kids.drop_last();
        let sorted = by_gain(rest);
        lemma_best_reply_by_gain(rest, bound, depth);
        lemma_by_gain_keeps(rest);
        lemma_place_by_gain(sorted, kids.last(), 0);
        lemma_best_reply_insert(
            sorted,
            place_by_gain(sorted, kids.last(), 0),
            kids.last(),
            bound,
            depth,
        );
        lemma_best_reply_floor(rest, bound, depth);
    }
}

/// The best reply from index `i` on is the greater of what position `i`
/// adds and the best reply from the next index on.
pub proof fn lemma_best_reply_front(kids: Seq<Position>, i: int, bound: nat, depth: int)
    requires
        0 <= i < kids.len(),
    ensures
        best_reply(kids.skip(i), bound, depth) == max_of(
            reply(kids[i], bound, depth),
            best_reply(kids.skip(i + 1), bound, depth),
        ),
{
    let tail = kids.skip(i + 1);
    assert(kids.skip(i) =~= tail.insert(0, kids[i]));
    lemma_best_reply_insert(tail, 0, kids[i], bound, depth);
}

/// Every position that a legal move leads to follows from the position before it.
pub proof fn lemma_children_follow(p: Position)
    requires
        p.wf(),
    ensures
        children(p, p.legal_moves()).len() == p.legal_moves().len(),
        forall|j: int|
            0 <= j < p.legal_moves().len() ==> follows(
                p,
                #[trigger] children(p, p.legal_moves())[j],
            ),
{
    let moves = p.legal_moves();
    assert forall|j: int| 0 <= j < moves.len() implies follows(
        p,
        #[trigger] children(p, moves)[j],
    ) by {
        let m = moves[j];
        assert(moves.contains(m));
        lemma_legal_moves_applicable(p, m);
        if p.capture_moves().len() > 0 {
            lemma_capture_is_mandatory(p, m);
        }
    }
}

/// The depth is within the limits of the engine for the position.
pub open spec fn depth_ok(p: Position, depth: int) -> bool {
    p.wf() && piece_count(p.board) - 65 - MAX_SEARCH_DEPTH <= depth <= MAX_SEARCH_DEPTH
}

/// Every negamax score lies strictly between `-INFINITY` and `INFINITY`.
pub proof fn lemma_negamax_range(p: Position, depth: int)
    requires
        depth_ok(p, depth),
    ensures
        -INFINITY < negamax(p, depth) < INFINITY,
    decreases plies(depth), piece_count(p.board), 1nat, 0nat,
{
    lemma_board_value_bound(p.board);
    if depth <= 0 && p.capture_moves().len() == 0 {
    } else if p.legal_moves().len() == 0 {
        assert(-INFINITY < loss_score(p, depth) < INFINITY) by (nonlinear_arith)
            requires
                -65 - MAX_SEARCH_DEPTH <= depth <= MAX_SEARCH_DEPTH,
                -200_000 <= leaf_score(p) <= 200_000,
                loss_score(p, depth) == -HALF_OF_INFINITY - depth * LOSS_DEPTH_PENALTY
                    + leaf_score(p),
        ;
    } else {
        lemma_children_follow(p);
        lemma_best_reply_range(p, children(p, p.legal_moves()), depth);
    }
}

/// The best reply among positions that follow from `p` lies below
/// `INFINITY`, and above `-INFINITY` if there is a position at all.
pub proof fn lemma_best_reply_range(p: Position, kids: Seq<Position>, depth: int)
    requires
        depth_ok(p, depth),
        depth <= 0 ==> p.capture_moves().len() > 0,
        forall|j: int| 0 <= j < kids.len() ==> follows(p, #[trigger] kids[j]),
    ensures
        -INFINITY <= best_reply(kids, piece_count(p.board), depth) < INFINITY,
        kids.len() > 0 ==> -INFINITY < best_reply(kids, piece_count(p.board), depth),
    decreases plies(depth), piece_count(p.board), 0nat, kids.len(),
{
    if kids.len() > 0 {
        let kid = kids.last();
        assert(follows(p, kids[kids.len() - 1]));
        lemma_board_value_bound(p.board);
        lemma_board_value_bound(kid.board);
        lemma_negamax_range(kid, depth - 1);
        assert forall|j: int| 0 <= j < kids.drop_last().len() implies follows(
            p,
            #[trigger] kids.drop_last()[j],
        ) by {
            assert(kids.drop_last()[j] == kids[j]);
        }
        lemma_best_reply_range(p, kids.drop_last(), depth);
    }
}

/// The searcher has no entry in its table and room for one.
pub open spec fn quiet(e: Engine) -> bool {
    e.table == no_entries() && e.capacity > 0
}

/// What a search with the window from `alpha` to `beta` may report of
/// the score `truth`: the score itself if what it reports lies inside the
/// window; at or below `alpha` a number that the score does not exceed;
/// at or above `beta` a number that the score reaches.
pub open spec fn answers(found: int, truth: int, alpha: int, beta: int) -> bool {
    &&& found <= alpha ==> truth <= found
    &&& found >= beta ==> truth >= found
    &&& alpha < found < beta ==> truth == found
}

/// A checkpoint leaves a searcher without entries as it is, but for its count of calls.
pub proof fn lemma_checkpoint_quiet(e: Engine, horizon: int)
    requires
        quiet(e),
    ensures
        quiet(after_checkpoint(e, horizon)),
        after_checkpoint(e, horizon).capacity == e.capacity,
{
    assert(e.table.dom() =~= Set::empty());
}

/// The search of a position into which a move has led, with its two
/// windows, reports the negated negamax score of that position soundly.
pub proof fn lemma_scout_is_sound(
    e: Engine,
    kid: Position,
    game_move: int,
    depth: int,
    alpha: int,
    beta: int,
)
    requires
        quiet(e),
        search_ready(kid, game_move, depth),
        depth < MIN_HASH_MAP_SAVE_SEARCH_DEPTH,
        -INFINITY <= alpha < beta <= INFINITY,
    ensures
        quiet(scout(e, kid, game_move, depth, alpha, beta).engine),
        scout(e, kid, game_move, depth, alpha, beta).engine.capacity == e.capacity,
        answers(
            scout(e, kid, game_move, depth, alpha, beta).score,
            -negamax(kid, depth),
            alpha,
            beta,
        ),
    decreases plies(depth), piece_count(kid.board), 2nat, 0nat,
{
    lemma_search_is_sound(e, kid, game_move, depth, -alpha - 1, -alpha);
    let first = negascout(e, kid, game_move, depth, -alpha - 1, -alpha);
    if alpha < -first.score && -first.score < beta {
        lemma_search_is_sound(first.engine, kid, game_move, depth, -beta, first.score);
    }
}

/// The scan of the positions from index `i` on reports the best reply
/// soundly, given that the score so far reports the best reply `so_far`
/// among the positions before `i` soundly.
pub proof fn lemma_scan_is_sound(
    e: Engine,
    p: Position,
    kids: Seq<Position>,
    i: int,
    game_move: int,
    depth: int,
    alpha: int,
    raised: int,
    beta: int,
    score: int,
    so_far: int,
)
    requires
        quiet(e),
        search_ready(p, game_move, depth),
        depth <= MIN_HASH_MAP_SAVE_SEARCH_DEPTH,
        depth <= 0 ==> p.capture_moves().len() > 0,
        forall|j: int| 0 <= j < kids.len() ==> follows(p, #[trigger] kids[j]),
        0 <= i <= kids.len(),
        -INFINITY <= alpha < beta <= INFINITY,
        raised == max_of(alpha, score),
        -INFINITY <= so_far,
        answers(score, so_far, alpha, beta),
    ensures
        quiet(
            scan(e, kids, i, piece_count(p.board), game_move, depth, raised, beta, score).engine,
        ),
        scan(
            e,
            kids,
            i,
            piece_count(p.board),
            game_move,
            depth,
            raised,
            beta,
            score,
        ).engine.capacity == e.capacity,
        answers(
            scan(e, kids, i, piece_count(p.board), game_move, depth, raised, beta, score).score,
            max_of(so_far, best_reply(kids.skip(i), piece_count(p.board), depth)),
            alpha,
            beta,
        ),
    decreases plies(depth), piece_count(p.board), 0nat, kids.len() - i,
{
    let bound = piece_count(p.board);
    lemma_best_reply_floor(kids.skip(i), bound, depth);
    if i >= kids.len() {
        assert(kids.skip(i) =~= Seq::<Position>::empty());
    } else if raised >= beta {
    } else {
        let kid = kids[i];
        assert(follows(p, kid));
        lemma_board_value_bound(p.board);
        lemma_board_value_bound(kid.board);
        assert(counts(kid, bound, depth));
        lemma_scout_is_sound(e, kid, game_move + 1, depth - 1, raised, beta);
        let found = scout(e, kid, game_move + 1, depth - 1, raised, beta);
        let best = max_of(score, found.score);
        let truth = -negamax(kid, depth - 1);
        lemma_negamax_range(kid, depth - 1);
        lemma_best_reply_front(kids, i, bound, depth);
        lemma_best_reply_floor(kids.skip(i + 1), bound, depth);
        assert(answers(best, max_of(so_far, truth), alpha, beta));
        lemma_scan_is_sound(
            found.engine,
            p,
            kids,
            i + 1,
            game_move,
            depth,
            alpha,
            max_of(raised, best),
            beta,
            best,
            max_of(so_far, truth),
        );
    }
}

/// As long as the table takes no part, the search is sound: searched to
/// less than the least depth that is stored, by a searcher without
/// entries, a position gets a score that reports its negamax score
/// soundly for the window, and the searcher is left without entries.
pub proof fn lemma_search_is_sound(
    e: Engine,
    p: Position,
    game_move: int,
    depth: int,
    alpha: int,
    beta: int,
)
    requires
        quiet(e),
        search_ready(p, game_move, depth),
        depth < MIN_HASH_MAP_SAVE_SEARCH_DEPTH,
        -INFINITY <= alpha < beta <= INFINITY,
    ensures
        quiet(negascout(e, p, game_move, depth, alpha, beta).engine),
        negascout(e, p, game_move, depth, alpha, beta).engine.capacity == e.capacity,
        answers(
            negascout(e, p, game_move, depth, alpha, beta).score,
            negamax(p, depth),
            alpha,
            beta,
        ),
    decreases plies(depth), piece_count(p.board), 1nat, 0nat,
{
    let e1 = after_checkpoint(e, game_move + depth);
    lemma_checkpoint_quiet(e, game_move + depth);
    lemma_board_value_bound(p.board);
    if depth <= 0 && p.capture_moves().len() == 0 {
    } else {
        assert(e1.entry(p) is None);
        assert(probe_spec(e1.entry(p), depth, alpha as i32, beta as i32) == TableHit::Window(
            alpha as i32,
            beta as i32,
        ));
        if p.legal_moves().len() == 0 {
        } else {
            let all = children(p, p.legal_moves());
            let kids = by_gain(all);
            lemma_children_follow(p);
            lemma_by_gain_keeps(all);
            assert forall|j: int| 0 <= j < kids.len() implies follows(p, #[trigger] kids[j]) by {
                let w = choose|w: int| 0 <= w < all.len() && all[w] == kids[j];
                assert(follows(p, all[w]));
            }
            lemma_scan_is_sound(
                e1,
                p,
                kids,
                0,
                game_move,
                depth,
                alpha,
                alpha,
                beta,
                -INFINITY as int,
                -INFINITY as int,
            );
            assert(kids.skip(0) =~= kids);
            lemma_best_reply_by_gain(all, piece_count(p.board), depth);
            lemma_best_reply_floor(all, piece_count(p.board), depth);
        }
    }
}

/// Up to the least depth that is stored the search is sound from a table
/// without entries: what it stores, it stores when the score is found.
pub proof fn lemma_search_answers(
    e: Engine,
    p: Position,
    game_move: int,
    depth: int,
    alpha: int,
    beta: int,
)
    requires
        quiet(e),
        search_ready(p, game_move, depth),
        depth <= MIN_HASH_MAP_SAVE_SEARCH_DEPTH,
        -INFINITY <= alpha < beta <= INFINITY,
    ensures
        answers(
            negascout(e, p, game_move, depth, alpha, beta).score,
            negamax(p, depth),
            alpha,
            beta,
        ),
{
    if depth < MIN_HASH_MAP_SAVE_SEARCH_DEPTH {
        lemma_search_is_sound(e, p, game_move, depth, alpha, beta);
    } else {
        let e1 = after_checkpoint(e, game_move + depth);
        lemma_checkpoint_quiet(e, game_move + depth);
        lemma_board_value_bound(p.board);
        assert(e1.entry(p) is None);
        assert(probe_spec(e1.entry(p), depth, alpha as i32, beta as i32) == TableHit::Window(
            alpha as i32,
            beta as i32,
        ));
        if p.legal_moves().len() > 0 {
            let all = children(p, p.legal_moves());
            let kids = by_gain(all);
            lemma_children_follow(p);
            lemma_by_gain_keeps(all);
            assert forall|j: int| 0 <= j < kids.len() implies follows(p, #[trigger] kids[j]) by {
                let w = choose|w: int| 0 <= w < all.len() && all[w] == kids[j];
                assert(follows(p, all[w]));
            }
            lemma_scan_is_sound(
                e1,
                p,
                kids,
                0,
                game_move,
                depth,
                alpha,
                alpha,
                beta,
                -INFINITY as int,
                -INFINITY as int,
            );
            assert(kids.skip(0) =~= kids);
            lemma_best_reply_by_gain(all, piece_count(p.board), depth);
            lemma_best_reply_floor(all, piece_count(p.board), depth);
        }
    }
}

/// With the widest window, a searcher without entries finds the negamax
/// score of a position at every depth up to the least depth that is
/// stored.
pub proof fn lemma_search_finds_negamax(e: Engine, p: Position, game_move: int, depth: int)
    requires
        quiet(e),
        search_ready(p, game_move, depth),
        depth <= MIN_HASH_MAP_SAVE_SEARCH_DEPTH,
    ensures
        negascout(e, p, game_move, depth, -INFINITY as int, INFINITY as int).score == negamax(
            p,
            depth,
        ),
{
    lemma_search_answers(e, p, game_move, depth, -INFINITY as int, INFINITY as int);
    lemma_negamax_range(p, depth);
}

/// The negamax score that the move `moves[j]` leads to, for the side that makes it.
pub open spec fn move_score(p: Position, moves: Seq<MoveView>, j: int, depth: int) -> int {
    -negamax(child(p, moves[j]), depth - 1)
}

/// The move with index `best` is the first of the best among the first
/// `n` moves, and `score` is the score it leads to.
pub open spec fn first_best(
    p: Position,
    moves: Seq<MoveView>,
    n: int,
    depth: int,
    best: int,
    score: int,
) -> bool {
    &&& 0 <= best < n
    &&& score == move_score(p, moves, best, depth)
    &&& forall|j: int| 0 <= j < n ==> #[trigger] move_score(p, moves, j, depth) <= score
    &&& forall|j: int| 0 <= j < best ==> #[trigger] move_score(p, moves, j, depth) < score
}

/// The choice among the moves from index `i` on ends with the first of
/// the best of all moves, given that it holds the first of the best of
/// the moves before `i`.
pub proof fn lemma_root_scan_is_sound(
    e: Engine,
    p: Position,
    i: int,
    game_move: int,
    depth: int,
    alpha: int,
    score: int,
    best: int,
)
    requires
        quiet(e),
        p.wf(),
        0 <= game_move <= MAX_MOVE_NUMBER,
        -MAX_SEARCH_DEPTH <= depth <= MIN_HASH_MAP_SAVE_SEARCH_DEPTH,
        0 <= i <= p.legal_moves().len(),
        p.legal_moves().len() > 0,
        i == 0 ==> best == -1 && score == -INFINITY && alpha == -INFINITY,
        i > 0 ==> first_best(p, p.legal_moves(), i, depth, best, score) && alpha == score,
    ensures
        quiet(root_scan(e, p, p.legal_moves(), i, game_move, depth, alpha, score, best).engine),
        first_best(
            p,
            p.legal_moves(),
            p.legal_moves().len() as int,
            depth,
            root_scan(e, p, p.legal_moves(), i, game_move, depth, alpha, score, best).best,
            root_scan(e, p, p.legal_moves(), i, game_move, depth, alpha, score, best).score,
        ),
    decreases p.legal_moves().len() - i,
{
    let moves = p.legal_moves();
    lemma_children_follow(p);
    lemma_board_value_bound(p.board);
    if i > 0 {
        let kid0 = child(p, moves[best]);
        assert(follows(p, children(p, moves)[best]));
        lemma_board_value_bound(kid0.board);
        lemma_negamax_range(kid0, depth - 1);
    }
    if i < moves.len() {
        let kid = child(p, moves[i]);
        assert(follows(p, children(p, moves)[i]));
        lemma_board_value_bound(kid.board);
        lemma_negamax_range(kid, depth - 1);
        lemma_scout_is_sound(e, kid, game_move + 1, depth - 1, alpha, INFINITY as int);
        let found = scout(e, kid, game_move + 1, depth - 1, alpha, INFINITY as int);
        let truth = move_score(p, moves, i, depth);
        if found.score > score || best < 0 {
            assert(found.score == truth);
            assert(first_best(p, moves, i + 1, depth, i, found.score)) by {
                assert forall|j: int| 0 <= j < i + 1 implies #[trigger] move_score(
                    p,
                    moves,
                    j,
                    depth,
                ) <= found.score by {}
            }
            lemma_root_scan_is_sound(
                found.engine,
                p,
                i + 1,
                game_move,
                depth,
                max_of(alpha, found.score),
                found.score,
                i,
            );
        } else {
            assert(truth <= score);
            assert(first_best(p, moves, i + 1, depth, best, score)) by {
                assert forall|j: int| 0 <= j < i + 1 implies #[trigger] move_score(
                    p,
                    moves,
                    j,
                    depth,
                ) <= score by {}
            }
            lemma_root_scan_is_sound(
                found.engine,
                p,
                i + 1,
                game_move,
                depth,
                max_of(alpha, found.score),
                score,
                best,
            );
        }
    }
}

/// As long as the table takes no part, the move chosen is the first of
/// the best: searched to at most the least depth that is stored, by a
/// searcher without entries, the move chosen leads to the greatest
/// negamax score that any move leads to, and no move listed before it
/// does so.
pub proof fn lemma_best_move_is_first_best(e: Engine, p: Position, game_move: int, depth: int)
    requires
        quiet(e),
        p.wf(),
        0 <= game_move <= MAX_MOVE_NUMBER,
        -MAX_SEARCH_DEPTH <= depth <= MIN_HASH_MAP_SAVE_SEARCH_DEPTH,
        p.legal_moves().len() > 0,
    ensures
        first_best(
            p,
            p.legal_moves(),
            p.legal_moves().len() as int,
            depth,
            best_move(e, p, game_move, depth).best,
            best_move(e, p, game_move, depth).score,
        ),
{
    lemma_root_scan_is_sound(
        e,
        p,
        0,
        game_move,
        depth,
        -INFINITY as int,
        -INFINITY as int,
        -1,
    );
}

} // verus!
