use checkers::bot::controller::SearchRequest;
use checkers::bot::nega_scout_bot::{NegaScoutSearcher, NeverCancel, SearchError};
use checkers::bot::{BotState, NegaScoutBot, SearchResult};
use checkers::game::{Game, Move};

fn result(score: i32) -> SearchResult {
    SearchResult { best_move: Move::Simple(17, 24), game_evaluation: score }
}

fn finished_score(bot: &NegaScoutBot) -> Option<i32> {
    match bot.poll() {
        BotState::Finished(found) => Some(found.game_evaluation),
        _ => None,
    }
}

#[test]
fn new_controller_has_no_search() {
    let bot = NegaScoutBot::new(5);
    assert!(matches!(bot.poll(), BotState::NotStarted));
    assert_eq!(bot.search_depth, 5);
    assert!(matches!(BotState::default(), BotState::NotStarted));
}

#[test]
fn started_search_is_pending_until_it_comes_back() {
    let mut bot = NegaScoutBot::new(5);
    let request: SearchRequest = bot.start_search(Game::default(), 7);
    assert_eq!(request.ticket, 1);
    assert_eq!(request.depth, 5);
    assert_eq!(request.game_move, 7);
    assert_eq!(request.game.not_empty, Game::default().not_empty);
    assert!(matches!(bot.poll(), BotState::Pending(1)));
    assert!(matches!(bot.poll(), BotState::Pending(1)));
    bot.deliver(request.ticket, Ok(result(11)));
    assert_eq!(finished_score(&bot), Some(11));
    assert_eq!(finished_score(&bot), Some(11));
}

#[test]
fn stopped_search_never_shows_its_result() {
    let mut bot = NegaScoutBot::new(5);
    let request = bot.start_search(Game::default(), 0);
    bot.stop();
    assert!(matches!(bot.poll(), BotState::NotStarted));
    bot.deliver(request.ticket, Ok(result(11)));
    assert!(matches!(bot.poll(), BotState::NotStarted));
    let next = bot.start_search(Game::default(), 0);
    assert_eq!(next.ticket, 2);
    bot.deliver(request.ticket, Ok(result(11)));
    assert!(matches!(bot.poll(), BotState::Pending(2)));
    bot.deliver(next.ticket, Ok(result(22)));
    assert_eq!(finished_score(&bot), Some(22));
    bot.deliver(request.ticket, Ok(result(11)));
    assert_eq!(finished_score(&bot), Some(22));
}

#[test]
fn replaced_search_never_shows_its_result() {
    let mut bot = NegaScoutBot::new(5);
    let first = bot.start_search(Game::default(), 0);
    let second = bot.start_search(Game::default(), 1);
    bot.deliver(first.ticket, Ok(result(11)));
    assert!(matches!(bot.poll(), BotState::Pending(2)));
    bot.deliver(second.ticket, Ok(result(22)));
    assert_eq!(finished_score(&bot), Some(22));
}

#[test]
fn second_start_shows_with_or_without_a_stop_between() {
    for stop_between in [false, true] {
        let mut bot = NegaScoutBot::new(5);
        let first = bot.start_search(Game::default(), 0);
        if stop_between {
            bot.stop();
        }
        let second = bot.start_search(Game::default(), 1);
        assert!(matches!(bot.poll(), BotState::Pending(2)));
        bot.deliver(first.ticket, Ok(result(11)));
        assert!(matches!(bot.poll(), BotState::Pending(2)));
        bot.deliver(second.ticket, Ok(result(22)));
        assert_eq!(finished_score(&bot), Some(22));
        bot.deliver(first.ticket, Err(SearchError::Cancelled));
        assert_eq!(finished_score(&bot), Some(22));
        assert_eq!(finished_score(&bot), Some(22));
    }
}

#[test]
fn failed_search_leaves_no_result() {
    let mut bot = NegaScoutBot::new(5);
    let request = bot.start_search(Game::default(), 0);
    bot.deliver(request.ticket, Err(SearchError::Cancelled));
    assert!(matches!(bot.poll(), BotState::NotStarted));
    let request = bot.start_search(Game::default(), 0);
    bot.deliver(request.ticket, Err(SearchError::NoLegalMove));
    assert!(matches!(bot.poll(), BotState::NotStarted));
}

#[test]
fn stop_drops_a_waiting_result() {
    let mut bot = NegaScoutBot::new(5);
    let request = bot.start_search(Game::default(), 0);
    bot.deliver(request.ticket, Ok(result(11)));
    bot.stop();
    assert!(matches!(bot.poll(), BotState::NotStarted));
}

#[test]
fn recreated_controller_still_drops_old_results() {
    let mut bot = NegaScoutBot::new(5);
    let request = bot.start_search(Game::default(), 0);
    bot.recreate();
    assert!(matches!(bot.poll(), BotState::NotStarted));
    assert_eq!(bot.search_depth, 5);
    bot.deliver(request.ticket, Ok(result(11)));
    assert!(matches!(bot.poll(), BotState::NotStarted));
    assert_eq!(bot.start_search(Game::default(), 0).ticket, 2);
}

#[test]
fn each_result_taken_deepens_the_next_search() {
    let mut bot = NegaScoutBot::new(1);
    assert!(bot.take_result_and_deepen().is_none());
    assert_eq!(bot.search_depth, 1);
    for depth in 1..=3 {
        let request = bot.start_search(Game::default(), 0);
        assert_eq!(request.depth, depth);
        assert!(bot.take_result_and_deepen().is_none());
        assert!(matches!(bot.poll(), BotState::Pending(_)));
        bot.deliver(request.ticket, Ok(result(depth)));
        let found = bot.take_result_and_deepen().unwrap();
        assert_eq!(found.game_evaluation, depth);
        assert!(matches!(bot.poll(), BotState::NotStarted));
    }
    assert_eq!(bot.search_depth, 4);
    let request = bot.start_search(Game::default(), 0);
    bot.position_changed(1);
    assert_eq!(bot.search_depth, 1);
    bot.deliver(request.ticket, Ok(result(9)));
    assert!(matches!(bot.poll(), BotState::NotStarted));
    bot.search_depth = 4000;
    let request = bot.start_search(Game::default(), 0);
    bot.deliver(request.ticket, Ok(result(9)));
    assert!(bot.take_result_and_deepen().is_some());
    assert_eq!(bot.search_depth, 4000);
}

#[test]
fn request_can_be_run_and_brought_back() {
    let mut bot = NegaScoutBot::new(3);
    let mut searcher = NegaScoutSearcher::with_capacity(1 << 12);
    let request = bot.start_search(Game::default(), 0);
    let outcome =
        searcher.choose_best_move(&request.game, request.game_move, request.depth, &mut NeverCancel);
    bot.deliver(request.ticket, outcome);
    let found = bot.take_result_and_deepen().unwrap();
    assert!(Game::default().get_moves().iter().any(|m| m.as_vec() == found.best_move.as_vec()));
    assert_eq!(bot.search_depth, 4);
}
