use checkers::bot::model::TableHit;
use checkers::bot::nega_scout_bot::{
    child_of, fresh_entry, ordered_children, probe, CancelAfter, CancelToken, HMapGameInfo,
    NegaScoutSearcher, NeverCancel, SearchError, ValType,
};
use checkers::bot::table::Retention;
use checkers::constants::{HALF_OF_INFINITY, INFINITY};
use checkers::game::{Game, Move};
use std::collections::HashMap;

fn board(white_to_move: bool, pieces: &[(i8, bool, bool)]) -> Game {
    let mut game = Game {
        not_empty: 0,
        is_white: 0,
        is_queen: 0,
        eval_white: 0,
        boring_moves_counter: 0,
        current_player: white_to_move,
    };
    for (square, white, king) in pieces {
        game.not_empty |= 1u64 << *square;
        if *white {
            game.is_white |= 1u64 << *square;
        }
        if *king {
            game.is_queen |= 1u64 << *square;
        }
    }
    game.eval_white = game.evaluate_from_scratch();
    assert!(game.is_consistent());
    game
}

/// Plain negamax without window and without table.
fn negamax(game: &Game, depth: i32) -> i32 {
    let captures = game.get_moves_with_takes();
    if depth <= 0 && captures.is_empty() {
        return game.evaluate_for_me();
    }
    let moves = if captures.is_empty() { game.get_moves_without_takes() } else { captures };
    if moves.is_empty() {
        return -HALF_OF_INFINITY - depth * 100_000 + game.evaluate_for_me();
    }
    let mut best = -INFINITY;
    for m in &moves {
        let kid = child_of(game, m);
        best = best.max(-negamax(&kid, depth - 1));
    }
    best
}

fn positions() -> Vec<Game> {
    vec![
        Game::default(),
        board(true, &[(19, true, false), (28, false, false), (46, false, false), (3, true, false)]),
        board(false, &[(27, true, true), (60, false, true), (10, true, false), (53, false, false)]),
        board(true, &[(0, true, true), (18, false, false), (43, false, false), (62, false, false)]),
        board(true, &[(42, true, false), (51, false, false), (46, false, false), (17, true, false)]),
        board(
            false,
            &[
                (17, true, false),
                (19, true, false),
                (10, true, false),
                (40, false, false),
                (42, false, false),
                (49, false, false),
                (35, false, false),
            ],
        ),
        board(true, &[(56, true, false)]),
        board(false, &[(5, true, true), (58, false, true)]),
    ]
}

#[test]
fn search_agrees_with_plain_negamax() {
    for game in positions() {
        for depth in 0..=5 {
            let mut searcher = NegaScoutSearcher::with_capacity(1 << 16);
            let found = searcher.search(&game, 0, depth, -INFINITY, INFINITY, &mut NeverCancel);
            assert_eq!(found, Some(negamax(&game, depth)), "depth {depth}");
        }
    }
}

#[test]
fn search_of_small_positions_agrees_with_plain_negamax_at_depth_six() {
    for game in positions().into_iter().skip(1) {
        let mut searcher = NegaScoutSearcher::with_capacity(1 << 16);
        let found = searcher.search(&game, 3, 6, -INFINITY, INFINITY, &mut NeverCancel);
        assert_eq!(found, Some(negamax(&game, 6)));
    }
}

/// Plain negamax that remembers the score of each position at each depth.
fn negamax_remembering(
    game: &Game,
    depth: i32,
    memo: &mut HashMap<((u64, u64, u64, bool), i32), i32>,
) -> i32 {
    if let Some(v) = memo.get(&(game.key(), depth)) {
        return *v;
    }
    let captures = game.get_moves_with_takes();
    let value = if depth <= 0 && captures.is_empty() {
        game.evaluate_for_me()
    } else {
        let moves = if captures.is_empty() { game.get_moves_without_takes() } else { captures };
        if moves.is_empty() {
            -HALF_OF_INFINITY - depth * 100_000 + game.evaluate_for_me()
        } else {
            let mut best = -INFINITY;
            for m in &moves {
                best = best.max(-negamax_remembering(&child_of(game, m), depth - 1, memo));
            }
            best
        }
    };
    memo.insert((game.key(), depth), value);
    value
}

#[test]
fn entry_of_a_deeper_search_answers_a_shallower_one() {
    // With kings on the board a position comes up again at another depth.
    // The table then answers with the score of the deeper search, which
    // plain negamax to the depth asked for does not know.
    let game = board(
        true,
        &[(28, true, false), (23, false, false), (62, true, true), (49, false, true)],
    );
    let mut memo = HashMap::new();
    for depth in 0..=5 {
        let mut searcher = NegaScoutSearcher::with_capacity(1 << 20);
        let found = searcher.search(&game, 0, depth, -INFINITY, INFINITY, &mut NeverCancel);
        assert_eq!(found, Some(negamax_remembering(&game, depth, &mut memo)));
    }
    let mut searcher = NegaScoutSearcher::with_capacity(1 << 20);
    let found = searcher.search(&game, 0, 6, -INFINITY, INFINITY, &mut NeverCancel);
    assert_eq!(negamax_remembering(&game, 6, &mut memo), -1040);
    assert_eq!(found, Some(-1049));
    let game = board(true, &[(1, true, true), (23, false, true), (26, false, false)]);
    let mut searcher = NegaScoutSearcher::with_capacity(1 << 20);
    let found = searcher.search(&game, 0, 8, -INFINITY, INFINITY, &mut NeverCancel);
    assert_eq!(negamax_remembering(&game, 8, &mut HashMap::new()), -1051);
    assert_eq!(found, Some(-1055));
}

#[test]
fn search_is_the_same_every_time() {
    let game = Game::default();
    let mut first = NegaScoutSearcher::with_capacity(1 << 16);
    let mut second = NegaScoutSearcher::with_capacity(1 << 16);
    let a = first.choose_best_move(&game, 0, 6, &mut NeverCancel).unwrap();
    let b = second.choose_best_move(&game, 0, 6, &mut NeverCancel).unwrap();
    assert_eq!(a.best_move.as_vec(), b.best_move.as_vec());
    assert_eq!(a.game_evaluation, b.game_evaluation);
    assert_eq!(first.len(), second.len());
}

#[test]
fn leaf_and_loss_scores() {
    let mut searcher = NegaScoutSearcher::with_capacity(16);
    // No depth left and nothing to capture: the score without search.
    let game = board(false, &[(10, true, false), (50, false, false)]);
    assert_eq!(
        searcher.search(&game, 0, 0, -INFINITY, INFINITY, &mut NeverCancel),
        Some(-(1010 - 1013))
    );
    // No move at all: a loss, the worse the more depth is left.
    let stuck = board(true, &[(56, true, false)]);
    assert_eq!(
        searcher.search(&stuck, 0, 3, -INFINITY, INFINITY, &mut NeverCancel),
        Some(-500_000_000 - 300_000 + 1056)
    );
    assert_eq!(
        searcher.search(&stuck, 0, 1, -INFINITY, INFINITY, &mut NeverCancel),
        Some(-500_000_000 - 100_000 + 1056)
    );
    // No depth left but a capture to make: the capture is searched.
    let game = board(true, &[(19, true, false), (28, false, false)]);
    assert_eq!(searcher.search(&game, 0, 0, -INFINITY, INFINITY, &mut NeverCancel), Some(1037));
}

#[test]
fn best_move_takes_the_piece() {
    let game = board(
        true,
        &[(19, true, false), (28, false, false), (3, true, false), (60, false, false)],
    );
    let mut searcher = NegaScoutSearcher::with_capacity(1 << 12);
    let found = searcher.choose_best_move(&game, 0, 3, &mut NeverCancel).unwrap();
    assert_eq!(found.best_move.as_vec(), vec![19, 37]);
    assert!(matches!(found.best_move, Move::Take(_)));
    let moves = game.get_moves();
    let mut best = -INFINITY;
    for m in &moves {
        best = best.max(-negamax(&child_of(&game, m), 2));
    }
    assert_eq!(found.game_evaluation, best);
}

#[test]
fn best_move_is_the_first_of_the_best() {
    for game in positions() {
        let moves = game.get_moves();
        if moves.is_empty() {
            continue;
        }
        let mut searcher = NegaScoutSearcher::with_capacity(1 << 16);
        let found = searcher.choose_best_move(&game, 0, 4, &mut NeverCancel).unwrap();
        let scores: Vec<i32> = moves.iter().map(|m| -negamax(&child_of(&game, m), 3)).collect();
        let best = *scores.iter().max().unwrap();
        assert_eq!(found.game_evaluation, best);
        let first = scores.iter().position(|s| *s == best).unwrap();
        assert_eq!(found.best_move.as_vec(), moves[first].as_vec());
    }
}

#[test]
fn no_legal_move_is_an_error_of_its_own() {
    let stuck = board(true, &[(56, true, false)]);
    let mut searcher = NegaScoutSearcher::with_capacity(16);
    let found = searcher.choose_best_move(&stuck, 0, 4, &mut NeverCancel);
    assert_eq!(found.err(), Some(SearchError::NoLegalMove));
    assert_eq!(searcher.len(), 0);
    let found = searcher.choose_best_move(&stuck, 0, 4, &mut CancelAfter::new(0));
    assert_eq!(found.err(), Some(SearchError::NoLegalMove));
}

#[test]
fn cancelled_search_reports_cancelled_and_leaves_the_searcher_usable() {
    let game = Game::default();
    let mut searcher = NegaScoutSearcher::with_capacity(1 << 16);
    let mut token = CancelAfter::new(0);
    let found = searcher.choose_best_move(&game, 0, 9, &mut token);
    assert_eq!(found.err(), Some(SearchError::Cancelled));
    let mut token = CancelAfter::new(3);
    let found = searcher.choose_best_move(&game, 0, 9, &mut token);
    assert_eq!(found.err(), Some(SearchError::Cancelled));
    assert_eq!(token.polls_left, 0);
    let found = searcher.choose_best_move(&game, 0, 4, &mut NeverCancel).unwrap();
    assert!(game.get_moves().iter().any(|m| m.as_vec() == found.best_move.as_vec()));
}

#[test]
fn short_search_is_never_asked_to_stop() {
    // A search of fewer calls than one checkpoint interval ends before the token is asked.
    let game = board(true, &[(19, true, false), (28, false, false)]);
    let mut searcher = NegaScoutSearcher::with_capacity(16);
    let mut token = CancelAfter::new(0);
    let found = searcher.choose_best_move(&game, 0, 2, &mut token).unwrap();
    assert_eq!(found.best_move.as_vec(), vec![19, 37]);
}

#[test]
fn tokens_answer_as_they_say() {
    let mut never = NeverCancel;
    assert!(!never.is_cancelled());
    assert!(!never.is_cancelled());
    let mut token = CancelAfter::new(2);
    assert_eq!(token.polls_left, 2);
    assert!(!token.is_cancelled());
    assert!(!token.is_cancelled());
    assert!(!token.has_cancelled);
    assert!(token.is_cancelled());
    assert!(token.has_cancelled);
    assert!(token.is_cancelled());
    assert!(token.has_cancelled);
}

#[test]
fn set_token_stops_the_search_at_a_due_checkpoint() {
    let game = Game::default();
    let mut other = game;
    other.change_player();
    let mut searcher = NegaScoutSearcher::with_capacity(1 << 12);
    searcher.store(&other, 12, 5, -100, 100, 3);
    // The next call is the one at which the token is asked.
    searcher.calls = 1023;
    let mut token = CancelAfter::new(0);
    assert_eq!(searcher.search(&game, 0, 3, -INFINITY, INFINITY, &mut token), None);
    assert!(token.has_cancelled);
    assert_eq!(searcher.calls, 0);
    assert_eq!(searcher.len(), 1);
    assert_eq!(kind(searcher.get(other.key())), Some((12, 5, ValType::Exact, 3)));
    // The same holds of the choice of a move, and of every call that encloses the one that asks.
    searcher.calls = 1023;
    let mut token = CancelAfter::new(0);
    let found = searcher.choose_best_move(&game, 0, 3, &mut token);
    assert_eq!(found.err(), Some(SearchError::Cancelled));
    assert!(token.has_cancelled);
    searcher.calls = 1020;
    let mut token = CancelAfter::new(0);
    assert_eq!(searcher.search(&game, 0, 3, -INFINITY, INFINITY, &mut token), None);
    assert!(token.has_cancelled);
    assert_eq!(searcher.len(), 1);
}

#[test]
fn token_is_not_asked_before_a_checkpoint_is_due() {
    let game = board(true, &[(19, true, false), (28, false, false)]);
    let mut searcher = NegaScoutSearcher::with_capacity(16);
    let mut token = CancelAfter::new(5);
    assert_eq!(
        searcher.search(&game, 0, 2, -INFINITY, INFINITY, &mut token),
        Some(500_000_000 + 100_000 + 1037)
    );
    assert_eq!(token.polls_left, 5);
    assert!(!token.has_cancelled);
    assert!(searcher.calls > 0);
    // A token that is asked and answers no lets the search go on.
    searcher.calls = 1023;
    assert_eq!(
        searcher.search(&game, 0, 2, -INFINITY, INFINITY, &mut token),
        Some(500_000_000 + 100_000 + 1037)
    );
    assert_eq!(token.polls_left, 4);
    assert!(!token.has_cancelled);
}

#[test]
fn entry_less_deep_than_the_search_is_left_alone() {
    // The table holds an exact entry of depth 0 for the start position.
    let game = Game::default();
    let mut searcher = NegaScoutSearcher::with_capacity(16);
    searcher.hash_map.insert(game.key(), HMapGameInfo::new(12345, 0, ValType::Exact, 0));
    assert_eq!(searcher.len(), 1);
    let found = searcher.search(&game, 0, 1, -INFINITY, INFINITY, &mut NeverCancel);
    assert_eq!(found, Some(9));
    assert_eq!(searcher.len(), 1);
    assert_eq!(kind(searcher.get(game.key())), Some((12345, 0, ValType::Exact, 0)));
    // With no depth left and nothing to capture the table is not asked.
    let found = searcher.search(&game, 0, 0, -INFINITY, INFINITY, &mut NeverCancel);
    assert_eq!(found, Some(0));
    // A search that is not deeper than an entry takes its score.
    let mut after = game;
    after.make_move(Move::Simple(17, 26));
    after.change_player();
    searcher.hash_map.insert(after.key(), HMapGameInfo::new(-777, 3, ValType::Exact, 0));
    let found = searcher.search(&game, 0, 2, -INFINITY, INFINITY, &mut NeverCancel);
    assert_eq!(found, Some(777));
    let found = searcher.search(&after, 0, 3, -INFINITY, INFINITY, &mut NeverCancel);
    assert_eq!(found, Some(-777));
}

#[test]
fn shallow_entry_answers_its_position_where_it_comes_up_again() {
    // Two kings: after four plies the position can be the same again. The
    // entry of depth 1 does not answer the search of depth 5, but it
    // answers the search of depth 1 of the same position four plies on.
    let game = board(true, &[(8, true, true), (62, false, true)]);
    let mut empty = NegaScoutSearcher::with_capacity(1 << 16);
    let mut filled = NegaScoutSearcher::with_capacity(1 << 16);
    filled.hash_map.insert(game.key(), HMapGameInfo::new(-12345, 1, ValType::Exact, 0));
    assert_eq!(empty.search(&game, 0, 5, -INFINITY, INFINITY, &mut NeverCancel), Some(0));
    assert_eq!(filled.search(&game, 0, 5, -INFINITY, INFINITY, &mut NeverCancel), Some(-12345));
    assert_eq!(filled.search(&game, 0, 1, -INFINITY, INFINITY, &mut NeverCancel), Some(-12345));
}

#[test]
fn table_takes_entries_of_any_depth_and_move_number() {
    let mut searcher = NegaScoutSearcher::with_capacity(0);
    let game = Game::default();
    searcher.hash_map.insert(
        game.key(),
        HMapGameInfo::new(5, i32::MAX, ValType::Missing, i32::MAX),
    );
    let mut other = game;
    other.change_player();
    searcher.hash_map.insert(other.key(), HMapGameInfo::new(5, i32::MIN, ValType::Alpha, i32::MIN));
    searcher.retain(Retention::Horizon(0));
    assert_eq!(searcher.len(), 1);
    assert!(searcher.get(game.key()).is_some());
    searcher.retain(Retention::DeeperThan(i32::MAX));
    assert_eq!(searcher.len(), 0);
}

fn info(eval: i32, depth: i32, val_type: ValType) -> HMapGameInfo {
    HMapGameInfo::new(eval, depth, val_type, 0)
}

#[test]
fn exact_entry_answers_only_searches_that_are_not_deeper() {
    let entry = Some(info(42, 5, ValType::Exact));
    assert_eq!(probe(entry, 5, -100, 100), TableHit::Cutoff(42));
    assert_eq!(probe(entry, 3, -100, 100), TableHit::Cutoff(42));
    assert_eq!(probe(entry, 6, -100, 100), TableHit::Window(-100, 100));
    assert_eq!(probe(None, 1, -100, 100), TableHit::Window(-100, 100));
}

#[test]
fn bounds_narrow_the_window_or_answer() {
    let lower = Some(info(42, 5, ValType::Beta));
    assert_eq!(probe(lower, 5, -100, 100), TableHit::Window(42, 100));
    assert_eq!(probe(lower, 5, 50, 100), TableHit::Window(50, 100));
    assert_eq!(probe(lower, 5, -100, 42), TableHit::Cutoff(42));
    assert_eq!(probe(lower, 5, -100, 10), TableHit::Cutoff(42));
    assert_eq!(probe(lower, 6, -100, 10), TableHit::Window(-100, 10));
    let upper = Some(info(42, 5, ValType::Alpha));
    assert_eq!(probe(upper, 5, -100, 100), TableHit::Window(-100, 42));
    assert_eq!(probe(upper, 5, -100, 10), TableHit::Window(-100, 10));
    assert_eq!(probe(upper, 5, 42, 100), TableHit::Cutoff(42));
    assert_eq!(probe(upper, 5, 60, 100), TableHit::Cutoff(42));
    assert_eq!(probe(upper, 6, 60, 100), TableHit::Window(60, 100));
    let missing = Some(info(42, 5, ValType::Missing));
    assert_eq!(probe(missing, 5, -100, 100), TableHit::Window(-100, 100));
}

fn kind(entry: Option<HMapGameInfo>) -> Option<(i32, i32, ValType, i32)> {
    entry.map(|e| (e.eval, e.depth, e.val_type, e.move_n))
}

#[test]
fn results_are_stored_by_depth_and_kind() {
    // Below the least depth nothing is stored.
    assert_eq!(kind(fresh_entry(None, 5, 3, -10, 10, 7)), None);
    // Inside the window: exact. At or above beta: lower bound. Else: upper bound.
    assert_eq!(kind(fresh_entry(None, 5, 4, -10, 10, 7)), Some((5, 4, ValType::Exact, 7)));
    assert_eq!(kind(fresh_entry(None, 10, 4, -10, 10, 7)), Some((10, 4, ValType::Beta, 7)));
    assert_eq!(kind(fresh_entry(None, -10, 4, -10, 10, 7)), Some((-10, 4, ValType::Alpha, 7)));
    // A deeper entry is kept.
    let deep = Some(info(1, 6, ValType::Alpha));
    assert_eq!(kind(fresh_entry(deep, 5, 5, -10, 10, 7)), None);
    // An exact score replaces anything not deeper.
    let same = Some(info(1, 5, ValType::Exact));
    assert_eq!(kind(fresh_entry(same, 5, 5, -10, 10, 7)), Some((5, 5, ValType::Exact, 7)));
    // A lower bound does not replace an exact score of the same depth, but one less deep.
    assert_eq!(kind(fresh_entry(same, 10, 5, -10, 10, 7)), None);
    let shallow = Some(info(1, 4, ValType::Exact));
    assert_eq!(kind(fresh_entry(shallow, 10, 5, -10, 10, 7)), Some((10, 5, ValType::Beta, 7)));
    // An upper bound replaces neither an exact score nor a lower bound.
    assert_eq!(kind(fresh_entry(shallow, -10, 5, -10, 10, 7)), None);
    let lower = Some(info(1, 4, ValType::Beta));
    assert_eq!(kind(fresh_entry(lower, -10, 5, -10, 10, 7)), None);
    let upper = Some(info(1, 4, ValType::Alpha));
    assert_eq!(kind(fresh_entry(upper, -10, 5, -10, 10, 7)), Some((-10, 5, ValType::Alpha, 7)));
}

#[test]
fn table_holds_what_was_stored() {
    let mut searcher = NegaScoutSearcher::with_capacity(16);
    assert_eq!(searcher.len(), 0);
    let game = Game::default();
    assert_eq!(kind(searcher.get(game.key())), None);
    searcher.store(&game, 12, 5, -100, 100, 3);
    assert_eq!(searcher.len(), 1);
    assert_eq!(kind(searcher.get(game.key())), Some((12, 5, ValType::Exact, 3)));
    let mut other = game;
    other.change_player();
    assert_eq!(kind(searcher.get(other.key())), None);
    searcher.store(&other, 100, 4, -100, 100, 4);
    assert_eq!(searcher.len(), 2);
    assert_eq!(kind(searcher.get(other.key())), Some((100, 4, ValType::Beta, 4)));
    // The same position with another count of quiet king moves is the same key.
    let mut counted = game;
    counted.boring_moves_counter = 9;
    assert_eq!(counted.key(), game.key());
    // A shallower result does not replace the entry.
    searcher.store(&game, 50, 4, -100, 100, 9);
    assert_eq!(kind(searcher.get(game.key())), Some((12, 5, ValType::Exact, 3)));
    assert_eq!(searcher.len(), 2);
}

fn filled(capacity: usize) -> (NegaScoutSearcher, Vec<Game>) {
    let mut searcher = NegaScoutSearcher::with_capacity(capacity);
    let mut games = Vec::new();
    let mut game = Game::default();
    for n in 0..8 {
        let moves = game.get_moves();
        let pick = moves[n % moves.len()].duplicate();
        game.make_move(pick);
        game.change_player();
        searcher.store(&game, n as i32, 4 + n as i32, -100, 100, n as i32);
        games.push(game);
    }
    assert_eq!(searcher.len(), 8);
    (searcher, games)
}

#[test]
fn retain_keeps_what_the_rule_keeps() {
    let (mut searcher, games) = filled(16);
    // Entry n has the depth 4 + n and the move number n.
    searcher.retain(Retention::DeeperThan(6));
    assert_eq!(searcher.len(), 5);
    for (n, game) in games.iter().enumerate() {
        assert_eq!(searcher.get(game.key()).is_some(), n >= 3);
    }
    searcher.retain(Retention::Horizon(4 + 2 * 5));
    assert_eq!(searcher.len(), 3);
    for (n, game) in games.iter().enumerate() {
        assert_eq!(searcher.get(game.key()).is_some(), n >= 5);
    }
}

#[test]
fn eviction_drops_old_entries_first() {
    // Entry n has move number plus depth 4 + 2 n. With the horizon 12 the
    // entries 0 to 3 leave; 4 are left, which is less than half of 16.
    let (mut searcher, games) = filled(16);
    assert!(searcher.evict(12, &mut NeverCancel));
    assert_eq!(searcher.len(), 4);
    for (n, game) in games.iter().enumerate() {
        assert_eq!(searcher.get(game.key()).is_some(), n >= 4);
    }
}

#[test]
fn eviction_drops_shallow_entries_until_half_is_free() {
    // With the horizon 0 nothing is old. Half of 10 is 5: the depths 4, 5, 6
    // and 7 leave one after the other until 4 entries are left.
    let (mut searcher, games) = filled(10);
    assert!(searcher.evict(0, &mut NeverCancel));
    assert_eq!(searcher.len(), 4);
    for (n, game) in games.iter().enumerate() {
        assert_eq!(searcher.get(game.key()).is_some(), n >= 4);
    }
}

#[test]
fn eviction_can_be_cancelled_between_its_passes() {
    let (mut searcher, _) = filled(10);
    let mut token = CancelAfter::new(0);
    assert!(!searcher.evict(0, &mut token));
    assert_eq!(searcher.len(), 8);
    let mut token = CancelAfter::new(2);
    assert!(!searcher.evict(0, &mut token));
    // The first pass and two rounds of the second were made: the depths 4 and 5 have left.
    assert_eq!(searcher.len(), 6);
    assert!(searcher.evict(0, &mut NeverCancel));
    assert_eq!(searcher.len(), 4);
}

#[test]
fn full_table_is_thinned_out_at_a_checkpoint() {
    let (mut searcher, _) = filled(8);
    searcher.calls = 1022;
    assert!(searcher.checkpoint(0, &mut NeverCancel));
    assert_eq!(searcher.calls, 1023);
    assert_eq!(searcher.len(), 8);
    assert!(searcher.checkpoint(0, &mut NeverCancel));
    assert_eq!(searcher.calls, 0);
    // Half of 8 is 4: the depths 4 to 8 leave, 3 entries are left.
    assert_eq!(searcher.len(), 3);
    searcher.calls = 1023;
    assert!(!searcher.checkpoint(0, &mut CancelAfter::new(0)));
}

#[test]
fn small_table_still_finds_the_same_move() {
    let game = Game::default();
    let mut small = NegaScoutSearcher::with_capacity(2);
    let mut large = NegaScoutSearcher::with_capacity(1 << 20);
    let a = small.choose_best_move(&game, 0, 6, &mut NeverCancel).unwrap();
    let b = large.choose_best_move(&game, 0, 6, &mut NeverCancel).unwrap();
    assert_eq!(a.game_evaluation, b.game_evaluation);
    assert_eq!(a.best_move.as_vec(), b.best_move.as_vec());
    assert!(small.len() < 2 + 1024);
}

#[test]
fn children_are_ordered_by_falling_gain() {
    let game = board(
        true,
        &[(19, true, false), (3, true, false), (49, true, false), (60, false, false)],
    );
    let moves = game.get_moves();
    assert_eq!(
        moves.iter().map(|m| m.as_vec()).collect::<Vec<_>>(),
        vec![vec![3, 10], vec![19, 26], vec![49, 56], vec![3, 12], vec![19, 28], vec![49, 58]]
    );
    let kids = ordered_children(&game, &moves);
    let gains: Vec<i32> = kids.iter().map(|k| -k.evaluate_for_me()).collect();
    let base = game.evaluate();
    // Crowning gains most; then the steps by 9, then the steps by 7, each in the order of the moves.
    assert_eq!(
        gains,
        vec![base + 3000 - 1049, base + 3000 - 1049, base + 9, base + 9, base + 7, base + 7]
    );
    let order = [2, 5, 3, 4, 0, 1];
    for (kid, m) in kids.iter().zip(order) {
        assert_eq!(kid.not_empty, child_of(&game, &moves[m]).not_empty);
        assert_eq!(kid.is_queen, child_of(&game, &moves[m]).is_queen);
    }
    assert!(kids.iter().all(|k| !k.current_player && k.boring_moves_counter == 0));
}
