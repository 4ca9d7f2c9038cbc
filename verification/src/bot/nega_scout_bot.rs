//! Alpha-beta search with null-window probes and a transposition table.

use vstd::prelude::*;
use crate::bot::model::{
    after_checkpoint, after_store, best_move, by_gain, child, children, Engine, entry_to_store,
    evicted, follows, key_of, lemma_key_of, mover_gain, negascout, place_by_gain, plies, probe_spec,
    root_scan, scan, scout, search_ready, TableHit, thinned, valid_entry,
};
use crate::bot::SearchResult;
use crate::chains::{lemma_capture_is_mandatory, lemma_legal_moves_applicable};
use crate::game::{Game, Move};
use crate::movegen::moves_view;
use crate::rules::{lemma_board_value_bound, piece_count, Position};
use crate::bot::table::{
    PositionKey, retained, Retention, Table, table_get, table_insert, table_len, table_new,
    table_retain,
};
use crate::constants::{
    CANCEL_CHECK_INTERVAL, HALF_OF_INFINITY, INFINITY, LOSS_DEPTH_PENALTY, MAX_MOVE_NUMBER,
    MAX_NEGA_SCOUT_HASH_MAP_SIZE, MAX_SEARCH_DEPTH, MIN_HASH_MAP_SAVE_SEARCH_DEPTH,
};

verus! {

/// What the score of a table entry says of the true score of its position.
///
/// `Exact`: it is the score. `Beta`: the search was cut off, the score is
/// at least this. `Alpha`: no move reached the window, the score is at
/// most this. `Missing` stands for a position without entry.
#[derive(PartialEq, Eq, Clone, Copy, Debug, Structural)]
pub enum ValType {
    Exact,
    Beta,
    Alpha,
    Missing,
}

/// An entry of the transposition table.
#[derive(Clone, Copy, Debug)]
pub struct HMapGameInfo {
    pub eval: i32,
    /// The depth to which the position was searched.
    pub depth: i32,
    pub val_type: ValType,
    /// The number of the move at which the entry was made.
    pub move_n: i32,
}

impl HMapGameInfo {
    /// An entry of the given fields.
    pub fn new(eval: i32, depth: i32, val_type: ValType, move_n: i32) -> (r: HMapGameInfo)
        ensures
            r.eval == eval,
            r.depth == depth,
            r.val_type == val_type,
            r.move_n == move_n,
    {
        HMapGameInfo { eval, depth, val_type, move_n }
    }
}

/// Why a search has not chosen a move.
#[derive(Clone, Copy, Debug, PartialEq, Eq, Structural)]
pub enum SearchError {
    /// The side to move has no move: the game is over.
    NoLegalMove,
    /// The search was told to stop.
    Cancelled,
}

/// The signal by which a running search is told to stop.
///
/// A search asks its token at its checkpoints: at every
/// `CANCEL_CHECK_INTERVAL`th call, and between the passes in which a full
/// table is thinned out. Once the token has answered yes, the search and
/// every call that encloses it end without result.
pub trait CancelToken {
    /// The token will never tell a search to stop.
    spec fn never_cancels(&self) -> bool;

    /// The token is set: it is sure to tell the search to stop when it is
    /// asked next.
    spec fn is_set(&self) -> bool;

    /// The token has told a search to stop at least once.
    spec fn tripped(&self) -> bool;

    /// Whether the search shall stop now.
    fn is_cancelled(&mut self) -> (r: bool)
        ensures
            final(self).tripped() == (old(self).tripped() || r),
            old(self).is_set() ==> r,
            old(self).never_cancels() ==> !r && final(self).never_cancels(),
    ;
}

/// A token that never tells a search to stop.
#[derive(Clone, Copy, Debug)]
pub struct NeverCancel;

impl CancelToken for NeverCancel {
    open spec fn never_cancels(&self) -> bool {
        true
    }

    open spec fn is_set(&self) -> bool {
        false
    }

    open spec fn tripped(&self) -> bool {
        false
    }

    fn is_cancelled(&mut self) -> (r: bool)
        ensures
            !r,
    {
        false
    }
}

/// A token that tells a search to stop once it has been asked a given
/// number of times.
#[derive(Clone, Copy, Debug)]
pub struct CancelAfter {
    /// How often the token still answers no.
    pub polls_left: u64,
    /// Whether the token has answered yes.
    pub has_cancelled: bool,
}

impl CancelAfter {
    /// A token that answers no `polls` times and yes from then on.
    pub fn new(polls: u64) -> (r: CancelAfter)
        ensures
            r.polls_left == polls,
            !r.has_cancelled,
    {
        CancelAfter { polls_left: polls, has_cancelled: false }
    }
}

impl CancelToken for CancelAfter {
    open spec fn never_cancels(&self) -> bool {
        false
    }

    open spec fn is_set(&self) -> bool {
        self.polls_left == 0
    }

    open spec fn tripped(&self) -> bool {
        self.has_cancelled
    }

    fn is_cancelled(&mut self) -> (r: bool)
        ensures
            r == (old(self).polls_left == 0),
            final(self).polls_left == (if old(self).polls_left == 0 {
                0
            } else {
                old(self).polls_left - 1
            }),
            final(self).has_cancelled == (old(self).has_cancelled || r),
    {
        if self.polls_left == 0 {
            self.has_cancelled = true;
            true
        } else {
            self.polls_left -= 1;
            false
        }
    }
}

/// What the entry of a position does to a search of it.
pub fn probe(entry: Option<HMapGameInfo>, depth: i32, alpha: i32, beta: i32) -> (r: TableHit)
    ensures
        r == probe_spec(entry, depth as int, alpha, beta),
{
    match entry {
        Some(info) => {
            if info.depth >= depth {
                match info.val_type {
                    ValType::Exact => TableHit::Cutoff(info.eval),
                    ValType::Beta => {
                        let raised: i32 = if info.eval > alpha {
                            info.eval
                        } else {
                            alpha
                        };
                        if raised >= beta {
                            TableHit::Cutoff(raised)
                        } else {
                            TableHit::Window(raised, beta)
                        }
                    },
                    ValType::Alpha => {
                        let lowered: i32 = if info.eval < beta {
                            info.eval
                        } else {
                            beta
                        };
                        if alpha >= lowered {
                            TableHit::Cutoff(lowered)
                        } else {
                            TableHit::Window(alpha, lowered)
                        }
                    },
                    ValType::Missing => TableHit::Window(alpha, beta),
                }
            } else {
                TableHit::Window(alpha, beta)
            }
        },
        None => TableHit::Window(alpha, beta),
    }
}

/// The entry that a finished search stores for its position, if it stores one.
pub fn fresh_entry(
    existing: Option<HMapGameInfo>,
    score: i32,
    depth: i32,
    old_alpha: i32,
    beta: i32,
    game_move: i32,
) -> (r: Option<HMapGameInfo>)
    ensures
        r == entry_to_store(existing, score, depth, old_alpha, beta, game_move),
{
    if depth < MIN_HASH_MAP_SAVE_SEARCH_DEPTH {
        return None;
    }
    let curr_type: ValType = match existing {
        None => ValType::Missing,
        Some(val) => val.val_type,
    };
    let curr_depth: i32 = match existing {
        None => depth,
        Some(val) => val.depth,
    };
    if curr_depth > depth {
        return None;
    }
    if old_alpha < score && score < beta {
        Some(HMapGameInfo::new(score, depth, ValType::Exact, game_move))
    } else if score >= beta {
        if curr_type != ValType::Exact || curr_depth != depth {
            Some(HMapGameInfo::new(score, depth, ValType::Beta, game_move))
        } else {
            None
        }
    } else if curr_type != ValType::Exact && curr_type != ValType::Beta {
        Some(HMapGameInfo::new(score, depth, ValType::Alpha, game_move))
    } else {
        None
    }
}

/// A searcher: the transposition table that its searches fill and use.
pub struct NegaScoutSearcher {
    pub hash_map: Table,
    /// The number of entries at which the table is thinned out.
    pub capacity: usize,
    /// The number of search calls since the last checkpoint.
    pub calls: u32,
}

impl View for NegaScoutSearcher {
    type V = Engine;

    open spec fn view(&self) -> Engine {
        Engine { table: self.hash_map@, calls: self.calls as int, capacity: self.capacity as int }
    }
}

impl NegaScoutSearcher {
    /// Every entry of the table is one that a search can have stored.
    pub open spec fn wf(&self) -> bool {
        self@.wf()
    }

    /// A searcher with an empty table that is thinned out at
    /// `MAX_NEGA_SCOUT_HASH_MAP_SIZE` entries.
    pub fn new() -> (r: NegaScoutSearcher)
        ensures
            r.wf(),
            r@.table == Map::<PositionKey, HMapGameInfo>::empty(),
            r@.calls == 0,
            r@.capacity == MAX_NEGA_SCOUT_HASH_MAP_SIZE,
    {
        NegaScoutSearcher {
            hash_map: table_new(MAX_NEGA_SCOUT_HASH_MAP_SIZE),
            capacity: MAX_NEGA_SCOUT_HASH_MAP_SIZE,
            calls: 0,
        }
    }

    /// A searcher with an empty table that is thinned out at `capacity` entries.
    pub fn with_capacity(capacity: usize) -> (r: NegaScoutSearcher)
        requires
            capacity <= MAX_NEGA_SCOUT_HASH_MAP_SIZE,
        ensures
            r.wf(),
            r@.table == Map::<PositionKey, HMapGameInfo>::empty(),
            r@.calls == 0,
            r@.capacity == capacity,
    {
        NegaScoutSearcher { hash_map: table_new(capacity), capacity, calls: 0 }
    }

    /// The number of entries in the table.
    pub fn len(&self) -> (n: usize)
        ensures
            n == self@.table.dom().len(),
    {
        table_len(&self.hash_map)
    }

    /// The entry stored for the key, if there is one.
    pub fn get(&self, key: PositionKey) -> (r: Option<HMapGameInfo>)
        ensures
            r == (if self@.table.contains_key(key) {
                Some(self@.table[key])
            } else {
                None
            }),
    {
        table_get(&self.hash_map, key)
    }

    /// Removes the entries that do not stay under the rule.
    pub fn retain(&mut self, rule: Retention)
        requires
            old(self).wf(),
        ensures
            final(self).wf(),
            final(self)@.calls == old(self)@.calls,
            final(self)@.capacity == old(self)@.capacity,
            final(self)@.table == retained(old(self)@.table, rule),
    {
        table_retain(&mut self.hash_map, rule);
        proof {
            assert forall|k: PositionKey| #[trigger] self@.table.contains_key(k) implies valid_entry(
                self@.table[k],
            ) by {
                assert(old(self)@.table.contains_key(k));
            }
        }
    }

    /// Thins out a full table. Returns `false` if the token told the
    /// search to stop before the table was thinned out as far as it is
    /// to be.
    pub fn evict<T: CancelToken>(&mut self, horizon: i32, token: &mut T) -> (done: bool)
        requires
            old(self).wf(),
        ensures
            final(self).wf(),
            final(self)@.calls == old(self)@.calls,
            final(self)@.capacity == old(self)@.capacity,
            done ==> final(self)@.table == evicted(
                old(self)@.table,
                old(self)@.capacity,
                horizon as int,
            ),
            !old(token).tripped() ==> (done <==> !final(token).tripped()),
            old(token).is_set() ==> !done,
            old(token).never_cancels() ==> done && final(token).never_cancels(),
    {
        let half: usize = self.capacity / 2;
        self.retain(Retention::Horizon(horizon));
        if token.is_cancelled() {
            return false;
        }
        if table_len(&self.hash_map) < half {
            return true;
        }
        let mut threshold: i32 = MIN_HASH_MAP_SAVE_SEARCH_DEPTH;
        let mut finished: bool = false;
        let mut go: bool = true;
        let ghost start = self.hash_map@;
        while go
            invariant
                self.wf(),
                self@.calls == old(self)@.calls,
                self@.capacity == old(self)@.capacity,
                half == self.capacity / 2,
                MIN_HASH_MAP_SAVE_SEARCH_DEPTH <= threshold <= MAX_SEARCH_DEPTH,
                go ==> !finished && thinned(self@.table, self@.capacity, threshold as int)
                    == thinned(start, self@.capacity, MIN_HASH_MAP_SAVE_SEARCH_DEPTH as int),
                finished ==> self@.table == thinned(
                    start,
                    self@.capacity,
                    MIN_HASH_MAP_SAVE_SEARCH_DEPTH as int,
                ),
                old(token).never_cancels() ==> token.never_cancels() && (go || finished),
                !old(token).tripped() ==> (token.tripped() <==> !go && !finished),
            decreases
                    (if go {
                        MAX_SEARCH_DEPTH - threshold + 1
                    } else {
                        0
                    }),
        {
            self.retain(Retention::DeeperThan(threshold));
            if table_len(&self.hash_map) < half || threshold >= MAX_SEARCH_DEPTH {
                finished = true;
                go = false;
            } else {
                threshold += 1;
                if token.is_cancelled() {
                    go = false;
                }
            }
        }
        finished
    }

    /// The checkpoint at the entry of a search call. Returns `false` if
    /// the token told the search to stop.
    pub fn checkpoint<T: CancelToken>(&mut self, horizon: i32, token: &mut T) -> (go_on: bool)
        requires
            old(self).wf(),
        ensures
            final(self).wf(),
            go_on ==> final(self)@ == after_checkpoint(old(self)@, horizon as int),
            final(self)@.capacity == old(self)@.capacity,
            old(self)@.calls + 1 < CANCEL_CHECK_INTERVAL ==> go_on && *final(token) == *old(token),
            old(self)@.calls + 1 >= CANCEL_CHECK_INTERVAL && old(token).is_set() ==> !go_on
                && final(self)@.table == old(self)@.table,
            !old(token).tripped() ==> (go_on <==> !final(token).tripped()),
            old(token).never_cancels() ==> go_on && final(token).never_cancels(),
    {
        if self.calls < CANCEL_CHECK_INTERVAL - 1 {
            self.calls += 1;
            proof {
                assert forall|k: PositionKey| #[trigger]
                    self@.table.contains_key(k) implies valid_entry(self@.table[k]) by {
                    assert(old(self)@.table.contains_key(k));
                }
            }
            return true;
        }
        self.calls = 0;
        proof {
            assert forall|k: PositionKey| #[trigger] self@.table.contains_key(k) implies valid_entry(
                self@.table[k],
            ) by {
                assert(old(self)@.table.contains_key(k));
            }
        }
        if token.is_cancelled() {
            return false;
        }
        if table_len(&self.hash_map) >= self.capacity {
            return self.evict(horizon, token);
        }
        true
    }

    /// Offers the table the result of a finished search of the position.
    pub fn store(&mut self, game: &Game, score: i32, depth: i32, old_alpha: i32, beta: i32, game_move: i32)
        requires
            old(self).wf(),
            game.wf(),
            -INFINITY < score < INFINITY,
        ensures
            final(self).wf(),
            final(self)@ == after_store(
                old(self)@,
                game.position(),
                score,
                depth,
                old_alpha,
                beta,
                game_move,
            ),
            final(self)@.capacity == old(self)@.capacity,
    {
        proof {
            lemma_key_of(game);
        }
        let key: PositionKey = game.key();
        let existing: Option<HMapGameInfo> = table_get(&self.hash_map, key);
        match fresh_entry(existing, score, depth, old_alpha, beta, game_move) {
            Some(info) => {
                table_insert(&mut self.hash_map, key, info);
                proof {
                    assert forall|k: PositionKey| #[trigger]
                        self@.table.contains_key(k) implies valid_entry(self@.table[k]) by {
                        if k != key {
                            assert(old(self)@.table.contains_key(k));
                        }
                    }
                }
            },
            None => {},
        }
    }

    /// The score of the position `kid` for the side that has moved into
    /// it, or `None` if the token told the search to stop.
    pub fn search_child<T: CancelToken>(
        &mut self,
        kid: &Game,
        game_move: i32,
        depth: i32,
        alpha: i32,
        beta: i32,
        token: &mut T,
    ) -> (r: Option<i32>)
        requires
            old(self).wf(),
            kid.wf(),
            search_ready(kid.position(), game_move as int, depth as int),
            -INFINITY <= alpha < beta <= INFINITY,
        ensures
            final(self).wf(),
            r matches Some(v) ==> {
                let o = scout(
                    old(self)@,
                    kid.position(),
                    game_move as int,
                    depth as int,
                    alpha as int,
                    beta as int,
                );
                &&& v == o.score
                &&& final(self)@ == o.engine
                &&& -INFINITY < v < INFINITY
            },
            final(self)@.capacity == old(self)@.capacity,
            !old(token).tripped() ==> (r is None <==> final(token).tripped()),
            old(self)@.calls + 1 >= CANCEL_CHECK_INTERVAL && old(token).is_set() ==> r is None
                && final(self)@.table == old(self)@.table,
            old(token).never_cancels() ==> r is Some && final(token).never_cancels(),
        decreases plies(depth as int), piece_count(kid.board()), 2nat, 0nat,
    {
        let first: i32 = match self.search(kid, game_move, depth, -alpha - 1, -alpha, token) {
            Some(v) => v,
            None => {
                return None;
            },
        };
        let tmp: i32 = -first;
        if tmp > alpha && tmp < beta {
            match self.search(kid, game_move, depth, -beta, first, token) {
                Some(v) => Some(-v),
                None => None,
            }
        } else {
            Some(tmp)
        }
    }

    /// The score of the position for the side to move, searched to the
    /// depth `depth` with the window from `alpha` to `beta`, or `None` if
    /// the token told the search to stop. A search that was stopped
    /// leaves the table fit for further searches.
    pub fn search<T: CancelToken>(
        &mut self,
        game: &Game,
        game_move: i32,
        depth: i32,
        alpha: i32,
        beta: i32,
        token: &mut T,
    ) -> (r: Option<i32>)
        requires
            old(self).wf(),
            game.wf(),
            search_ready(game.position(), game_move as int, depth as int),
            -INFINITY <= alpha < beta <= INFINITY,
        ensures
            final(self).wf(),
            r matches Some(v) ==> {
                let o = negascout(
                    old(self)@,
                    game.position(),
                    game_move as int,
                    depth as int,
                    alpha as int,
                    beta as int,
                );
                &&& v == o.score
                &&& final(self)@ == o.engine
                &&& -INFINITY < v < INFINITY
            },
            final(self)@.capacity == old(self)@.capacity,
            !old(token).tripped() ==> (r is None <==> final(token).tripped()),
            old(self)@.calls + 1 >= CANCEL_CHECK_INTERVAL && old(token).is_set() ==> r is None
                && final(self)@.table == old(self)@.table,
            old(token).never_cancels() ==> r is Some && final(token).never_cancels(),
        decreases plies(depth as int), piece_count(game.board()), 1nat, 0nat,
    {
        let ghost p = game.position();
        proof {
            lemma_board_value_bound(game.board());
        }
        if !self.checkpoint(game_move + depth, token) {
            return None;
        }
        let ghost e1 = self@;
        let captures: Vec<Move> = game.get_moves_with_takes();
        if depth <= 0 && captures.len() == 0 {
            return Some(game.evaluate_for_me());
        }
        let entry: Option<HMapGameInfo> = self.get(game.key());
        assert(entry == e1.entry(p));
        let hit: TableHit = probe(entry, depth, alpha, beta);
        let (a, b): (i32, i32) = match hit {
            TableHit::Cutoff(s) => {
                assert(entry is Some && valid_entry(entry->Some_0)) by {
                    assert(e1.table.contains_key(key_of(p)));
                }
                return Some(s);
            },
            TableHit::Window(a, b) => (a, b),
        };
        assert(-INFINITY <= a < b <= INFINITY);
        let moves: Vec<Move> = if captures.len() != 0 {
            captures
        } else {
            game.get_moves_without_takes()
        };
        assert(moves_view(moves@) == p.legal_moves());
        if moves.len() == 0 {
            return Some(-HALF_OF_INFINITY - depth * LOSS_DEPTH_PENALTY + game.evaluate_for_me());
        }
        let kids: Vec<Game> = ordered_children(game, &moves);
        let ghost kv = positions(kids@);
        let ghost bound = piece_count(p.board);
        let mut score: i32 = -INFINITY;
        let mut cur: i32 = a;
        let mut i: usize = 0;
        while i < kids.len() && cur < b
            invariant
                self.wf(),
                game.wf(),
                p == game.position(),
                i <= kids.len(),
                kids.len() >= 1,
                kv == positions(kids@),
                bound == piece_count(p.board),
                search_ready(p, game_move as int, depth as int),
                depth <= 0 ==> p.capture_moves().len() > 0,
                -INFINITY <= cur <= INFINITY,
                b <= INFINITY,
                i == 0 ==> score == -INFINITY && cur == a && a < b,
                i > 0 ==> -INFINITY < score < INFINITY,
                forall|j: int|
                    0 <= j < kids.len() ==> follows(p, (#[trigger] kids[j]).position())
                        && kids[j].wf(),
                self@.capacity == old(self)@.capacity,
                old(token).never_cancels() ==> token.never_cancels(),
                !old(token).tripped() ==> !token.tripped(),
                !(old(self)@.calls + 1 >= CANCEL_CHECK_INTERVAL && old(token).is_set()),
                scan(
                    self@,
                    kv,
                    i as int,
                    bound,
                    game_move as int,
                    depth as int,
                    cur as int,
                    b as int,
                    score as int,
                ) == scan(
                    e1,
                    kv,
                    0,
                    bound,
                    game_move as int,
                    depth as int,
                    a as int,
                    b as int,
                    -INFINITY as int,
                ),
            decreases kids.len() - i,
        {
            let ghost before = self@;
            proof {
                let kid = kids[i as int];
                assert(kv[i as int] == kid.position());
                assert(follows(p, kid.position()));
                lemma_board_value_bound(kid.board());
            }
            let tmp: i32 = match self.search_child(
                &kids[i],
                game_move + 1,
                depth - 1,
                cur,
                b,
                token,
            ) {
                Some(v) => v,
                None => {
                    return None;
                },
            };
            if tmp > score {
                score = tmp;
            }
            if score > cur {
                cur = score;
            }
            i += 1;
        }
        self.store(game, score, depth, alpha, b, game_move);
        Some(score)
    }

    /// Searches every move that the side to move may make and returns
    /// the first one of the best score.
    ///
    /// Fails with `NoLegalMove` exactly if the side to move has no move;
    /// the searcher is then unchanged. Fails with `Cancelled` if the token
    /// told the search to stop; the table is then fit for further searches.
    pub fn choose_best_move<T: CancelToken>(
        &mut self,
        game: &Game,
        game_move: i32,
        depth: i32,
        token: &mut T,
    ) -> (r: Result<SearchResult, SearchError>)
        requires
            old(self).wf(),
            game.wf(),
            0 <= game_move <= MAX_MOVE_NUMBER,
            -MAX_SEARCH_DEPTH <= depth <= MAX_SEARCH_DEPTH,
        ensures
            final(self).wf(),
            r matches Err(SearchError::NoLegalMove) <==> game.position().legal_moves().len() == 0,
            r matches Err(SearchError::NoLegalMove) ==> final(self)@ == old(self)@,
            r matches Ok(found) ==> {
                let o = best_move(old(self)@, game.position(), game_move as int, depth as int);
                &&& 0 <= o.best < game.position().legal_moves().len()
                &&& found.best_move@ == game.position().legal_moves()[o.best]
                &&& found.game_evaluation == o.score
                &&& final(self)@ == o.engine
            },
            final(self)@.capacity == old(self)@.capacity,
            game.position().legal_moves().len() == 0 ==> *final(token) == *old(token),
            !old(token).tripped() && game.position().legal_moves().len() > 0 ==> (r matches Err(
                SearchError::Cancelled,
            ) <==> final(token).tripped()),
            old(self)@.calls + 1 >= CANCEL_CHECK_INTERVAL && old(token).is_set()
                && game.position().legal_moves().len() > 0 ==> (r matches Err(
                SearchError::Cancelled,
            )) && final(self)@.table == old(self)@.table,
            old(token).never_cancels() ==> !(r matches Err(SearchError::Cancelled))
                && final(token).never_cancels(),
    {
        let ghost p = game.position();
        let ghost e0 = self@;
        let all_moves: Vec<Move> = game.get_moves();
        let ghost mv = moves_view(all_moves@);
        if all_moves.len() == 0 {
            return Err(SearchError::NoLegalMove);
        }
        let mut alpha: i32 = -INFINITY;
        let mut score: i32 = -INFINITY;
        let mut best: usize = 0;
        let mut chosen: bool = false;
        let mut i: usize = 0;
        proof {
            lemma_board_value_bound(game.board());
        }
        while i < all_moves.len() && alpha < INFINITY
            invariant
                self.wf(),
                game.wf(),
                p == game.position(),
                mv == moves_view(all_moves@),
                mv == p.legal_moves(),
                i <= all_moves.len(),
                all_moves.len() >= 1,
                0 <= game_move <= MAX_MOVE_NUMBER,
                -MAX_SEARCH_DEPTH <= depth <= MAX_SEARCH_DEPTH,
                -INFINITY <= alpha < INFINITY,
                -INFINITY <= score < INFINITY,
                chosen == (i > 0),
                chosen ==> best < i,
                self@.capacity == old(self)@.capacity,
                old(token).never_cancels() ==> token.never_cancels(),
                !old(token).tripped() ==> !token.tripped(),
                i == 0 ==> self@ == old(self)@ && *token == *old(token) && alpha == -INFINITY,
                i > 0 && old(self)@.calls + 1 >= CANCEL_CHECK_INTERVAL ==> !old(token).is_set(),
                root_scan(
                    self@,
                    p,
                    mv,
                    i as int,
                    game_move as int,
                    depth as int,
                    alpha as int,
                    score as int,
                    if chosen {
                        best as int
                    } else {
                        -1
                    },
                ) == best_move(e0, p, game_move as int, depth as int),
            decreases all_moves.len() - i,
        {
            proof {
                let m = mv[i as int];
                assert(m == all_moves[i as int]@);
                assert(p.legal_moves().contains(m));
                lemma_legal_moves_applicable(p, m);
            }
            let kid: Game = child_of(game, &all_moves[i]);
            proof {
                lemma_board_value_bound(kid.board());
            }
            let tmp: i32 = match self.search_child(
                &kid,
                game_move + 1,
                depth - 1,
                alpha,
                INFINITY,
                token,
            ) {
                Some(v) => v,
                None => {
                    return Err(SearchError::Cancelled);
                },
            };
            if tmp > score || !chosen {
                score = tmp;
                best = i;
                chosen = true;
            }
            if tmp > alpha {
                alpha = tmp;
            }
            i += 1;
        }
        Ok(SearchResult { best_move: all_moves[best].duplicate(), game_evaluation: score })
    }
}

/// The positions of the games.
pub open spec fn positions(games: Seq<Game>) -> Seq<Position> {
    games.map_values(|g: Game| g.position())
}

/// The position that the opponent faces after the move, with the count
/// of quiet king moves set to zero.
pub fn child_of(game: &Game, m: &Move) -> (kid: Game)
    requires
        game.wf(),
        game.position().applicable(m@),
    ensures
        kid.wf(),
        kid.position() == child(game.position(), m@),
        kid.boring_moves_counter == 0,
{
    let mut kid: Game = *game;
    kid.make_move(m.duplicate());
    let ghost after = kid.board();
    kid.boring_moves_counter = 0;
    assert(kid.board() =~= after);
    kid.change_player();
    kid
}

/// The positions after each of the moves, ordered by falling gain of the mover.
pub fn ordered_children(game: &Game, moves: &Vec<Move>) -> (kids: Vec<Game>)
    requires
        game.wf(),
        moves_view(moves@) == game.position().legal_moves(),
    ensures
        positions(kids@) == by_gain(children(game.position(), moves_view(moves@))),
        kids.len() == moves.len(),
        forall|j: int|
            0 <= j < kids.len() ==> follows(game.position(), (#[trigger] kids[j]).position())
                && kids[j].wf() && -200_000 < kids[j].eval_white < 200_000,
{
    let ghost p = game.position();
    let ghost all = children(p, moves_view(moves@));
    let mut kids: Vec<Game> = Vec::new();
    let mut i: usize = 0;
    assert(positions(kids@) =~= by_gain(all.take(0)));
    while i < moves.len()
        invariant
            i <= moves.len(),
            game.wf(),
            p == game.position(),
            moves_view(moves@) == p.legal_moves(),
            all == children(p, moves_view(moves@)),
            positions(kids@) == by_gain(all.take(i as int)),
            kids.len() == i,
            forall|j: int|
                0 <= j < kids.len() ==> follows(p, (#[trigger] kids[j]).position()) && kids[j].wf()
                    && -200_000 < kids[j].eval_white < 200_000,
        decreases moves.len() - i,
    {
        let ghost mv = moves_view(moves@)[i as int];
        proof {
            assert(mv == moves[i as int]@);
            assert(p.legal_moves().contains(mv));
            lemma_legal_moves_applicable(p, mv);
            if p.capture_moves().len() > 0 {
                lemma_capture_is_mandatory(p, mv);
            }
        }
        let kid: Game = child_of(game, &moves[i]);
        proof {
            lemma_board_value_bound(kid.board());
        }
        let gain: i32 = -kid.evaluate_for_me();
        let ghost sorted = positions(kids@);
        let mut j: usize = 0;
        while j < kids.len() && -kids[j].evaluate_for_me() >= gain
            invariant
                j <= kids.len(),
                sorted == positions(kids@),
                gain == mover_gain(kid.position()),
                forall|j: int|
                    0 <= j < kids.len() ==> (#[trigger] kids[j]).wf() && -200_000
                        < kids[j].eval_white < 200_000,
                place_by_gain(sorted, kid.position(), j as int) == place_by_gain(
                    sorted,
                    kid.position(),
                    0,
                ),
            decreases kids.len() - j,
        {
            j += 1;
        }
        proof {
            assert(place_by_gain(sorted, kid.position(), j as int) == j);
        }
        let ghost before = kids@;
        kids.insert(j, kid);
        proof {
            assert(positions(kids@) =~= sorted.insert(j as int, kid.position()));
            assert(all.take(i + 1).drop_last() =~= all.take(i as int));
            assert(all.take(i + 1).last() == kid.position());
            assert forall|x: int| 0 <= x < kids.len() implies follows(
                p,
                (#[trigger] kids[x]).position(),
            ) && kids[x].wf() && -200_000 < kids[x].eval_white < 200_000 by {
                if x < j {
                    assert(kids[x] == before[x]);
                } else if x > j {
                    assert(kids[x] == before[x - 1]);
                }
            }
        }
        i += 1;
    }
    assert(all.take(moves.len() as int) =~= all);
    kids
}

impl Game {
    /// The key under which the transposition table holds the position:
    /// its three masks and the side to move.
    pub fn key(&self) -> (k: PositionKey)
        ensures
            k == (self.not_empty, self.is_white, self.is_queen, self.current_player),
            self.wf() ==> k == key_of(self.position()),
    {
        proof {
            if self.wf() {
                lemma_key_of(self);
            }
        }
        (self.not_empty, self.is_white, self.is_queen, self.current_player)
    }
}

} // verus!
