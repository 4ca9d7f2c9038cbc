use checkers::bot::SearchResult;
use checkers::game::{Checker, Game, Move, Winner};
use checkers::position_params::{process_click_on_board, PositionParams};

fn board(white_to_move: bool, pieces: &[(i8, bool, bool)]) -> Game {
    let mut game = Game {
        not_empty: 0,
        is_white: 0,
        is_queen: 0,
        eval_white: 0,
        boring_moves_counter: 0,
        current_player: white_to_move,
    };
    for (square, white, king) in pieces {
        game.not_empty |= 1u64 << *square;
        if *white {
            game.is_white |= 1u64 << *square;
        }
        if *king {
            game.is_queen |= 1u64 << *square;
        }
    }
    game.eval_white = game.evaluate_from_scratch();
    assert!(game.is_consistent());
    game
}

fn started(game: Game) -> PositionParams {
    PositionParams { game, last_correct_game_state: game, ..Default::default() }
}

fn sorted(cells: impl IntoIterator<Item = i8>) -> Vec<i8> {
    let mut v: Vec<i8> = cells.into_iter().collect();
    v.sort();
    v
}

fn targets(params: &PositionParams) -> Vec<i8> {
    sorted(params.next_possible_cells.iter().copied())
}

fn shown(params: &PositionParams) -> Vec<i8> {
    sorted(params.full_current_move_hash_set.iter().copied())
}

fn cell(game: &Game, square: i8) -> Checker {
    let i = square as usize;
    game.get_data()[7 - i / 8][7 - i % 8]
}

#[test]
fn new_game_has_nothing_picked_up() {
    let params = PositionParams::default();
    assert_eq!(params.game.not_empty, Game::default().not_empty);
    assert_eq!(params.last_correct_game_state.not_empty, Game::default().not_empty);
    assert!(params.game.current_player);
    assert_eq!(params.selected_checker, None);
    assert!(params.full_current_move.is_empty());
    assert!(params.full_current_move_hash_set.is_empty());
    assert!(params.next_possible_cells.is_empty());
    assert!(!params.selected_move_with_capture);
    assert_eq!(params.winner, None);
    assert_eq!(params.moves_cnt, 0);
}

#[test]
fn click_picks_up_a_piece_and_shows_where_it_can_go() {
    let mut params = PositionParams::default();
    let mut history = Vec::new();
    assert!(!process_click_on_board(&mut params, &mut history, 17));
    assert_eq!(params.selected_checker, Some(17));
    assert_eq!(targets(&params), vec![24, 26]);
    assert!(!params.selected_move_with_capture);
    assert!(history.is_empty());
    // Another piece is picked up instead.
    assert!(!process_click_on_board(&mut params, &mut history, 23));
    assert_eq!(params.selected_checker, Some(23));
    assert_eq!(targets(&params), vec![30]);
    // A square without a piece that can move gives no targets.
    assert!(!process_click_on_board(&mut params, &mut history, 40));
    assert_eq!(params.selected_checker, Some(40));
    assert!(targets(&params).is_empty());
    assert_eq!(params.game.not_empty, Game::default().not_empty);
}

#[test]
fn click_on_a_target_makes_the_move() {
    let mut params = PositionParams::default();
    let mut history = Vec::new();
    process_click_on_board(&mut params, &mut history, 17);
    assert!(process_click_on_board(&mut params, &mut history, 26));
    assert!(params.game.is_empty_cell(17));
    assert_eq!(cell(&params.game, 26), Checker::White);
    assert_eq!(params.full_current_move, vec![17, 26]);
    assert_eq!(shown(&params), vec![17, 26]);
    assert!(targets(&params).is_empty());
    assert!(params.game.is_consistent());
    assert!(params.game.current_player);
    // The state before the move is kept.
    assert_eq!(history.len(), 1);
    assert_eq!(history[0].game.not_empty, Game::default().not_empty);
    assert_eq!(history[0].selected_checker, Some(17));
    assert_eq!(targets(&history[0]), vec![24, 26]);
    params.complete_full_move();
    assert!(!params.game.current_player);
    assert_eq!(params.selected_checker, None);
    assert_eq!(params.moves_cnt, 1);
    assert_eq!(params.winner, None);
    assert_eq!(params.last_correct_game_state.not_empty, params.game.not_empty);
    assert!(!params.last_correct_game_state.current_player);
}

#[test]
fn capture_is_made_jump_by_jump_and_must_go_on() {
    let game = board(
        true,
        &[(19, true, false), (28, false, false), (46, false, false), (3, true, false)],
    );
    let mut params = started(game);
    let mut history = Vec::new();
    // Only the piece that can capture has a move.
    assert!(!process_click_on_board(&mut params, &mut history, 3));
    assert!(targets(&params).is_empty());
    assert!(!process_click_on_board(&mut params, &mut history, 19));
    assert_eq!(targets(&params), vec![37]);
    assert!(params.selected_move_with_capture);
    // The first jump does not end the turn.
    assert!(!process_click_on_board(&mut params, &mut history, 37));
    assert_eq!(params.selected_checker, Some(37));
    assert_eq!(targets(&params), vec![55]);
    assert_eq!(params.full_current_move, vec![19, 37]);
    assert_eq!(shown(&params), vec![19, 37]);
    assert!(params.game.is_empty_cell(28));
    assert_eq!(history.len(), 1);
    // While the capture is under way no other piece can be picked up.
    assert!(!process_click_on_board(&mut params, &mut history, 3));
    assert_eq!(params.selected_checker, Some(37));
    assert_eq!(targets(&params), vec![55]);
    assert!(!process_click_on_board(&mut params, &mut history, 19));
    assert_eq!(params.selected_checker, Some(37));
    assert_eq!(history.len(), 1);
    // The second jump ends it.
    assert!(process_click_on_board(&mut params, &mut history, 55));
    assert_eq!(params.full_current_move, vec![19, 37, 55]);
    assert_eq!(shown(&params), vec![19, 37, 55]);
    assert!(targets(&params).is_empty());
    assert_eq!(params.game.not_empty, (1u64 << 55) | (1u64 << 3));
    assert!(params.game.is_consistent());
    assert_eq!(history.len(), 2);
    params.complete_full_move();
    assert_eq!(params.winner, Some(Winner::White));
}

#[test]
fn capture_starts_the_shown_move_anew() {
    // The move shown is the last move of black, which ended on 28.
    let game = board(true, &[(19, true, false), (28, false, false)]);
    let mut params = started(game);
    params.full_current_move = vec![35, 28];
    params.update_current_move_hash_set();
    assert_eq!(shown(&params), vec![28, 35]);
    let mut history = Vec::new();
    process_click_on_board(&mut params, &mut history, 19);
    assert_eq!(params.full_current_move, vec![35, 28]);
    assert!(process_click_on_board(&mut params, &mut history, 37));
    assert_eq!(params.full_current_move, vec![19, 37]);
    assert_eq!(shown(&params), vec![19, 37]);
}

#[test]
fn king_in_capture_shows_every_landing_square() {
    let game = board(true, &[(0, true, true), (18, false, false), (43, false, false)]);
    let mut params = started(game);
    let mut history = Vec::new();
    process_click_on_board(&mut params, &mut history, 0);
    assert_eq!(targets(&params), vec![27, 36, 45, 54, 63]);
    assert!(!process_click_on_board(&mut params, &mut history, 36));
    assert_eq!(targets(&params), vec![50, 57]);
    assert!(process_click_on_board(&mut params, &mut history, 57));
    assert_eq!(params.full_current_move, vec![0, 36, 57]);
    assert_eq!(params.game.not_empty, 1u64 << 57);
}

#[test]
fn engine_move_is_made_and_ends_the_turn() {
    let game = board(true, &[(19, true, false), (28, false, false), (60, false, false)]);
    let mut params = started(game);
    let found = SearchResult { best_move: Move::Take(vec![19, 37]), game_evaluation: 5 };
    params.make_bot_move(&found);
    assert_eq!(params.full_current_move, vec![19, 37]);
    assert_eq!(shown(&params), vec![19, 37]);
    assert!(params.game.is_empty_cell(28));
    assert!(!params.game.current_player);
    assert_eq!(params.moves_cnt, 1);
    assert_eq!(params.winner, None);
    assert_eq!(params.selected_checker, None);
    assert!(params.game.is_consistent());
    assert_eq!(params.last_correct_game_state.not_empty, params.game.not_empty);
}

#[test]
fn snapshot_is_a_copy() {
    let mut params = PositionParams::default();
    let mut history = Vec::new();
    process_click_on_board(&mut params, &mut history, 17);
    let copy = params.snapshot();
    process_click_on_board(&mut params, &mut history, 26);
    assert_eq!(copy.selected_checker, Some(17));
    assert_eq!(targets(&copy), vec![24, 26]);
    assert_eq!(copy.game.not_empty, Game::default().not_empty);
    assert!(copy.full_current_move.is_empty());
}
