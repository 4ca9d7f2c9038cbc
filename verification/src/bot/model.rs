//! What the search computes, as a function of the position, the window
//! and the contents of the transposition table.

use vstd::prelude::*;
use crate::bot::nega_scout_bot::{HMapGameInfo, ValType};
use crate::bot::table::{PositionKey, retained, Retention};
use crate::constants::{
    CANCEL_CHECK_INTERVAL, HALF_OF_INFINITY, INFINITY, LOSS_DEPTH_PENALTY, MAX_MOVE_NUMBER,
    MAX_SEARCH_DEPTH, MIN_HASH_MAP_SAVE_SEARCH_DEPTH,
};
use crate::game::{Game, MoveView};
use crate::rules::{board_value, piece_count, Position};
use crate::useful_functions::{bit_at, lemma_same_bits};

verus! {

/// The key `k` is that of the position `p`.
pub open spec fn key_matches(k: PositionKey, p: Position) -> bool {
    &&& k.3 == p.white
    &&& forall|i: u64| i < 64 ==> #[trigger] bit_at(k.0, i) == p.board[i as int].is_piece()
    &&& forall|i: u64| i < 64 ==> #[trigger] bit_at(k.1, i) == p.board[i as int].is_white_piece()
    &&& forall|i: u64| i < 64 ==> #[trigger] bit_at(k.2, i) == p.board[i as int].is_king()
}

/// The key under which the table holds the position.
pub open spec fn key_of(p: Position) -> PositionKey {
    choose|k: PositionKey| key_matches(k, p)
}

/// The key of a game is the key of its position: two games with the same
/// board and side to move have the same key.
pub proof fn lemma_key_of(g: &Game)
    requires
        g.wf(),
    ensures
        key_of(g.position()) == (g.not_empty, g.is_white, g.is_queen, g.current_player),
{
    let k = (g.not_empty, g.is_white, g.is_queen, g.current_player);
    let p = g.position();
    g.lemma_cells();
    assert(key_matches(k, p));
    let c = key_of(p);
    assert(key_matches(c, p));
    lemma_same_bits(c.0, k.0);
    lemma_same_bits(c.1, k.1);
    lemma_same_bits(c.2, k.2);
}

/// A sound game is a matter of its position and its count of quiet king
/// moves: two sound games that agree in these are the same game.
pub proof fn lemma_game_determined(a: Game, b: Game)
    requires
        a.wf(),
        b.wf(),
        a.position() == b.position(),
        a.boring_moves_counter == b.boring_moves_counter,
    ensures
        a == b,
{
    lemma_key_of(&a);
    lemma_key_of(&b);
}

/// The state of a searcher: its table, the number of search calls since
/// the last checkpoint, and the number of entries at which it thins out
/// its table.
pub struct Engine {
    pub table: Map<PositionKey, HMapGameInfo>,
    pub calls: int,
    pub capacity: int,
}

/// The entry has a score strictly within the limits of the widest search
/// window, so that it can be negated. Its depth, its kind and its move
/// number may be any.
pub open spec fn valid_entry(info: HMapGameInfo) -> bool {
    -INFINITY < info.eval < INFINITY
}

impl Engine {
    /// Every entry has a score that can be negated.
    pub open spec fn wf(self) -> bool {
        forall|k: PositionKey| #[trigger] self.table.contains_key(k) ==> valid_entry(self.table[k])
    }

    /// The entry of the position, if the table has one.
    pub open spec fn entry(self, p: Position) -> Option<HMapGameInfo> {
        if self.table.contains_key(key_of(p)) {
            Some(self.table[key_of(p)])
        } else {
            None
        }
    }
}

/// The score of a position for the side to move, without search.
pub open spec fn leaf_score(p: Position) -> int {
    if p.white {
        board_value(p.board)
    } else {
        -board_value(p.board)
    }
}

/// The score of a position in which the side to move has no move: the
/// more depth is left, the worse, so that a loss is put off.
pub open spec fn loss_score(p: Position, depth: int) -> int {
    -HALF_OF_INFINITY - depth * LOSS_DEPTH_PENALTY + leaf_score(p)
}

/// What a table entry does to a search: it answers it, or leaves it a window.
#[derive(Clone, Copy, Debug, PartialEq, Eq, Structural)]
pub enum TableHit {
    Cutoff(i32),
    Window(i32, i32),
}

/// What the entry of a position does to a search of it to the depth
/// `depth` with the window from `alpha` to `beta`.
///
/// An entry searched less deep than asked changes nothing. Else an exact
/// score answers the search, a lower bound raises `alpha` and an upper
/// bound lowers `beta`, and the bound answers the search if the window
/// is empty after that.
pub open spec fn probe_spec(
    entry: Option<HMapGameInfo>,
    depth: int,
    alpha: i32,
    beta: i32,
) -> TableHit {
    match entry {
        Some(info) => if info.depth >= depth {
            match info.val_type {
                ValType::Exact => TableHit::Cutoff(info.eval),
                ValType::Beta => {
                    let raised = if info.eval > alpha {
                        info.eval
                    } else {
                        alpha
                    };
                    if raised >= beta {
                        TableHit::Cutoff(raised)
                    } else {
                        TableHit::Window(raised, beta)
                    }
                },
                ValType::Alpha => {
                    let lowered = if info.eval < beta {
                        info.eval
                    } else {
                        beta
                    };
                    if alpha >= lowered {
                        TableHit::Cutoff(lowered)
                    } else {
                        TableHit::Window(alpha, lowered)
                    }
                },
                ValType::Missing => TableHit::Window(alpha, beta),
            }
        } else {
            TableHit::Window(alpha, beta)
        },
        None => TableHit::Window(alpha, beta),
    }
}

/// An entry that was searched less deep than a search asks for neither
/// answers that search nor changes its window.
pub proof fn lemma_shallow_entry_is_not_used(info: HMapGameInfo, depth: int, alpha: i32, beta: i32)
    requires
        info.depth < depth,
    ensures
        probe_spec(Some(info), depth, alpha, beta) == TableHit::Window(alpha, beta),
{
}

/// What a search result is worth against the window it was searched with:
/// exact if strictly inside, a lower bound if it reached `beta`, else an
/// upper bound.
pub open spec fn classify(score: int, old_alpha: int, beta: int) -> ValType {
    if old_alpha < score && score < beta {
        ValType::Exact
    } else if score >= beta {
        ValType::Beta
    } else {
        ValType::Alpha
    }
}

/// The entry that a finished search stores, if it stores one.
///
/// Nothing is stored below the least depth for storing, nor over an entry
/// that was searched deeper. An exact score is stored in any other case;
/// a lower bound unless the entry holds an exact score of the same depth;
/// an upper bound unless the entry holds an exact score or a lower bound.
pub open spec fn entry_to_store(
    existing: Option<HMapGameInfo>,
    score: i32,
    depth: i32,
    old_alpha: i32,
    beta: i32,
    game_move: i32,
) -> Option<HMapGameInfo> {
    if depth < MIN_HASH_MAP_SAVE_SEARCH_DEPTH {
        None
    } else if existing is Some && existing->Some_0.depth > depth {
        None
    } else {
        let kind = classify(score as int, old_alpha as int, beta as int);
        let fresh = Some(HMapGameInfo { eval: score, depth, val_type: kind, move_n: game_move });
        match kind {
            ValType::Exact => fresh,
            ValType::Beta => if existing is Some && existing->Some_0.val_type == ValType::Exact
                && existing->Some_0.depth == depth {
                None
            } else {
                fresh
            },
            _ => if existing is Some && (existing->Some_0.val_type == ValType::Exact
                || existing->Some_0.val_type == ValType::Beta) {
                None
            } else {
                fresh
            },
        }
    }
}

/// The table after the second pass of thinning out: the entries not
/// searched deeper than a threshold leave, and the threshold goes up by
/// one until fewer than half the capacity are left.
pub open spec fn thinned(
    table: Map<PositionKey, HMapGameInfo>,
    capacity: int,
    threshold: int,
) -> Map<PositionKey, HMapGameInfo>
    decreases MAX_SEARCH_DEPTH - threshold,
{
    let t = retained(table, Retention::DeeperThan(threshold as i32));
    if t.dom().len() < capacity / 2 || threshold >= MAX_SEARCH_DEPTH {
        t
    } else {
        thinned(t, capacity, threshold + 1)
    }
}

/// The table after it was thinned out at a search node whose move number
/// plus depth is `horizon`: first the entries whose own move number plus
/// depth lies before it leave; if half the capacity or more are left, the
/// shallow ones follow.
pub open spec fn evicted(
    table: Map<PositionKey, HMapGameInfo>,
    capacity: int,
    horizon: int,
) -> Map<PositionKey, HMapGameInfo> {
    let t = retained(table, Retention::Horizon(horizon as i32));
    if t.dom().len() >= capacity / 2 {
        thinned(t, capacity, MIN_HASH_MAP_SAVE_SEARCH_DEPTH as int)
    } else {
        t
    }
}

/// The searcher after the checkpoint at the entry of a search call: every
/// `CANCEL_CHECK_INTERVAL` calls the table is thinned out if it is full.
pub open spec fn after_checkpoint(e: Engine, horizon: int) -> Engine {
    if e.calls + 1 < CANCEL_CHECK_INTERVAL {
        Engine { calls: e.calls + 1, ..e }
    } else if e.table.dom().len() >= e.capacity {
        Engine { calls: 0, table: evicted(e.table, e.capacity, horizon), ..e }
    } else {
        Engine { calls: 0, ..e }
    }
}

/// The searcher after a search has offered it a result for the position.
pub open spec fn after_store(
    e: Engine,
    p: Position,
    score: i32,
    depth: i32,
    old_alpha: i32,
    beta: i32,
    game_move: i32,
) -> Engine {
    match entry_to_store(e.entry(p), score, depth, old_alpha, beta, game_move) {
        Some(info) => Engine { table: e.table.insert(key_of(p), info), ..e },
        None => e,
    }
}

/// The position that the opponent faces after the move.
pub open spec fn child(p: Position, m: MoveView) -> Position {
    p.after_move(m).passed()
}

/// The positions after each of the moves, in the order of the moves.
pub open spec fn children(p: Position, moves: Seq<MoveView>) -> Seq<Position> {
    moves.map_values(|m: MoveView| child(p, m))
}

/// What the mover has on the board once it has reached the position `kid`.
pub open spec fn mover_gain(kid: Position) -> int {
    -leaf_score(kid)
}

/// The index from `i` on at which `kid` is put into a sequence ordered by
/// falling gain: behind every position of at least its gain.
pub open spec fn place_by_gain(sorted: Seq<Position>, kid: Position, i: int) -> int
    decreases sorted.len() - i,
{
    if 0 <= i < sorted.len() && mover_gain(sorted[i]) >= mover_gain(kid) {
        place_by_gain(sorted, kid, i + 1)
    } else {
        i
    }
}

/// The positions ordered by falling gain of the mover; positions of equal
/// gain keep their order.
pub open spec fn by_gain(kids: Seq<Position>) -> Seq<Position>
    decreases kids.len(),
{
    if kids.len() == 0 {
        kids
    } else {
        let sorted = by_gain(kids.drop_last());
        sorted.insert(place_by_gain(sorted, kids.last(), 0), kids.last())
    }
}

/// Where a search may start: the depth and the move number are within
/// the limits of the engine, counted with the pieces that can still be
/// captured once no depth is left.
pub open spec fn search_ready(p: Position, game_move: int, depth: int) -> bool {
    &&& p.wf()
    &&& piece_count(p.board) - 65 - MAX_SEARCH_DEPTH <= depth <= MAX_SEARCH_DEPTH
    &&& 0 <= game_move
    &&& game_move + plies(depth) + piece_count(p.board) <= MAX_MOVE_NUMBER + MAX_SEARCH_DEPTH + 64
}

/// What holds of the position `kid` after a legal move from `p`: the
/// other side is to move, and no piece has come onto the board; if `p`
/// has a capture, a piece has left it.
pub open spec fn follows(p: Position, kid: Position) -> bool {
    &&& kid.wf()
    &&& kid.white == !p.white
    &&& piece_count(kid.board) <= piece_count(p.board)
    &&& p.capture_moves().len() > 0 ==> piece_count(kid.board) < piece_count(p.board)
}

/// A score and the searcher that is left after finding it.
pub struct Outcome {
    pub score: int,
    pub engine: Engine,
}

/// The depth that is left, not less than zero.
pub open spec fn plies(depth: int) -> nat {
    if depth > 0 {
        depth as nat
    } else {
        0
    }
}

/// The greater of two numbers.
pub open spec fn max_of(a: int, b: int) -> int {
    if a >= b {
        a
    } else {
        b
    }
}

/// The score of the position `kid` for the side that has moved into it,
/// searched with the window from `alpha` to `beta` of that side: first
/// with a window of width one above `alpha`; if the score found lies
/// inside the window, once more with the window from that score to `beta`.
pub open spec fn scout(
    e: Engine,
    kid: Position,
    game_move: int,
    depth: int,
    alpha: int,
    beta: int,
) -> Outcome
    decreases plies(depth), piece_count(kid.board), 2nat, 0nat,
{
    let first = negascout(e, kid, game_move, depth, -alpha - 1, -alpha);
    if alpha < -first.score && -first.score < beta {
        let second = negascout(first.engine, kid, game_move, depth, -beta, first.score);
        Outcome { score: -second.score, engine: second.engine }
    } else {
        Outcome { score: -first.score, engine: first.engine }
    }
}

/// The best score among the positions `kids` from index `i` on and the
/// score so far, for the side that moves into them. The scan ends once
/// `alpha` has reached `beta`.
///
/// `bound` is the number of pieces before the move; once no depth is
/// left, only positions with fewer pieces are searched.
pub open spec fn scan(
    e: Engine,
    kids: Seq<Position>,
    i: int,
    bound: nat,
    game_move: int,
    depth: int,
    alpha: int,
    beta: int,
    score: int,
) -> Outcome
    decreases plies(depth), bound, 0nat, kids.len() - i,
{
    if i < 0 || i >= kids.len() || alpha >= beta {
        Outcome { score, engine: e }
    } else if depth <= 0 && piece_count(kids[i].board) >= bound {
        Outcome { score, engine: e }
    } else {
        let found = scout(e, kids[i], game_move + 1, depth - 1, alpha, beta);
        let best = max_of(score, found.score);
        scan(
            found.engine,
            kids,
            i + 1,
            bound,
            game_move,
            depth,
            max_of(alpha, best),
            beta,
            best,
        )
    }
}

/// The score of the position for the side to move, searched to the depth
/// `depth` with the window from `alpha` to `beta`, and the searcher
/// afterwards.
///
/// With no depth left and no capture to make, it is the score without
/// search. Else the table is asked; if it does not answer, the side to
/// move loses if it has no move, and else its moves are searched in the
/// order of falling gain and the result is offered to the table.
pub open spec fn negascout(
    e: Engine,
    p: Position,
    game_move: int,
    depth: int,
    alpha: int,
    beta: int,
) -> Outcome
    decreases plies(depth), piece_count(p.board), 1nat, 0nat,
{
    let e1 = after_checkpoint(e, game_move + depth);
    if depth <= 0 && p.capture_moves().len() == 0 {
        Outcome { score: leaf_score(p), engine: e1 }
    } else {
        match probe_spec(e1.entry(p), depth, alpha as i32, beta as i32) {
            TableHit::Cutoff(s) => Outcome { score: s as int, engine: e1 },
            TableHit::Window(a, b) => {
                if p.legal_moves().len() == 0 {
                    Outcome { score: loss_score(p, depth), engine: e1 }
                } else {
                    let kids = by_gain(children(p, p.legal_moves()));
                    let found = scan(
                        e1,
                        kids,
                        0,
                        piece_count(p.board),
                        game_move,
                        depth,
                        a as int,
                        b as int,
                        -INFINITY,
                    );
                    Outcome {
                        score: found.score,
                        engine: after_store(
                            found.engine,
                            p,
                            found.score as i32,
                            depth as i32,
                            alpha as i32,
                            b,
                            game_move as i32,
                        ),
                    }
                }
            },
        }
    }
}

/// The index of the move chosen at the root, its score, and the searcher afterwards.
pub struct RootOutcome {
    pub best: int,
    pub score: int,
    pub engine: Engine,
}

/// The choice among the moves from index `i` on, given the best move so
/// far: a move replaces it if it scores more, and the first move is
/// taken whatever it scores.
pub open spec fn root_scan(
    e: Engine,
    p: Position,
    moves: Seq<MoveView>,
    i: int,
    game_move: int,
    depth: int,
    alpha: int,
    score: int,
    best: int,
) -> RootOutcome
    decreases moves.len() - i,
{
    if i < 0 || i >= moves.len() || alpha >= INFINITY {
        RootOutcome { best, score, engine: e }
    } else {
        let found = scout(e, child(p, moves[i]), game_move + 1, depth - 1, alpha, INFINITY as int);
        if found.score > score || best < 0 {
            root_scan(
                found.engine,
                p,
                moves,
                i + 1,
                game_move,
                depth,
                max_of(alpha, found.score),
                found.score,
                i,
            )
        } else {
            root_scan(
                found.engine,
                p,
                moves,
                i + 1,
                game_move,
                depth,
                max_of(alpha, found.score),
                score,
                best,
            )
        }
    }
}

/// The move that a search of the position to the depth `depth` chooses
/// among the moves the side to move may make, taken in the order in which
/// they are listed.
pub open spec fn best_move(e: Engine, p: Position, game_move: int, depth: int) -> RootOutcome {
    root_scan(e, p, p.legal_moves(), 0, game_move, depth, -INFINITY, -INFINITY, -1)
}

/// An entry that was searched less deep than a search asks for leaves
/// the search to the moves: the score is the one that the scan of the
/// positions after the moves finds with the window as it was given, or
/// the score of a loss if there is no move. What the entry holds as its
/// score and its kind takes no part in this.
pub proof fn lemma_shallow_entry_leaves_search_to_moves(
    e: Engine,
    p: Position,
    game_move: int,
    depth: int,
    alpha: int,
    beta: int,
    info: HMapGameInfo,
)
    requires
        after_checkpoint(e, game_move + depth).entry(p) == Some(info),
        info.depth < depth,
        depth > 0 || p.capture_moves().len() > 0,
        -INFINITY <= alpha <= INFINITY,
        -INFINITY <= beta <= INFINITY,
    ensures
        negascout(e, p, game_move, depth, alpha, beta).score == (if p.legal_moves().len() == 0 {
            loss_score(p, depth)
        } else {
            scan(
                after_checkpoint(e, game_move + depth),
                by_gain(children(p, p.legal_moves())),
                0,
                piece_count(p.board),
                game_move,
                depth,
                alpha,
                beta,
                -INFINITY as int,
            ).score
        }),
{
    lemma_shallow_entry_is_not_used(info, depth, alpha as i32, beta as i32);
}

} // verus!
