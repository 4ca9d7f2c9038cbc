use checkers::game::{Checker, Game, Move, Winner};

fn put(game: &mut Game, square: i8, white: bool, king: bool) {
    game.not_empty |= 1u64 << square;
    if white {
        game.is_white |= 1u64 << square;
    }
    if king {
        game.is_queen |= 1u64 << square;
    }
}

fn empty_board(white_to_move: bool) -> Game {
    Game {
        not_empty: 0,
        is_white: 0,
        is_queen: 0,
        eval_white: 0,
        boring_moves_counter: 0,
        current_player: white_to_move,
    }
}

fn ready(mut game: Game) -> Game {
    game.eval_white = game.evaluate_from_scratch();
    assert!(game.is_consistent());
    game
}

fn paths(moves: &[Move]) -> Vec<Vec<i8>> {
    moves.iter().map(|m| m.as_vec()).collect()
}

#[test]
fn start_position_has_seven_opening_moves() {
    let game = Game::default();
    assert!(game.is_consistent());
    assert_eq!(game.evaluate(), 0);
    let moves = game.get_moves();
    assert_eq!(moves.len(), 7);
    for m in &moves {
        assert!(matches!(m, Move::Simple(_, _)));
    }
    assert_eq!(
        paths(&moves),
        vec![
            vec![17, 24],
            vec![19, 26],
            vec![21, 28],
            vec![23, 30],
            vec![17, 26],
            vec![19, 28],
            vec![21, 30]
        ]
    );
    assert!(game.get_moves_with_takes().is_empty());
    assert_eq!(game.get_winner(), None);
}

#[test]
fn start_position_black_has_seven_moves() {
    let mut game = Game::default();
    game.change_player();
    let moves = game.get_moves();
    assert_eq!(
        paths(&moves),
        vec![
            vec![40, 33],
            vec![42, 35],
            vec![44, 37],
            vec![46, 39],
            vec![42, 33],
            vec![44, 35],
            vec![46, 37]
        ]
    );
}

#[test]
fn start_position_grid() {
    let game = Game::default();
    let data = game.get_data();
    assert_eq!(data.len(), 8);
    let text: Vec<String> = data
        .iter()
        .map(|row| row.iter().map(|c| c.to_string()).collect::<Vec<_>>().join(""))
        .collect();
    assert_eq!(
        text,
        vec![
            ".b.b.b.b", "b.b.b.b.", ".b.b.b.b", "........", "........", "w.w.w.w.", ".w.w.w.w",
            "w.w.w.w."
        ]
    );
    assert_eq!(data[7][0], Checker::White);
    assert_eq!(data[0][1], Checker::Black);
}

#[test]
fn man_with_two_branching_jumps_yields_every_maximal_chain() {
    let mut game = empty_board(true);
    put(&mut game, 19, true, false);
    // Towards higher columns: 19 -> 37 over 28, then 37 -> 55 over 46.
    put(&mut game, 28, false, false);
    put(&mut game, 46, false, false);
    // Towards lower columns: 19 -> 33 over 26, then 33 -> 51 over 42.
    put(&mut game, 26, false, false);
    put(&mut game, 42, false, false);
    let game = ready(game);
    let moves = game.get_moves();
    let got = paths(&moves);
    assert_eq!(got, vec![vec![19, 33, 51], vec![19, 37, 55]]);
    for a in &got {
        for b in &got {
            if a != b {
                assert!(!(a.len() < b.len() && b[..a.len()] == a[..]));
            }
        }
    }
    assert_eq!(paths(&game.get_cuts_from_cell(19)), vec![vec![19, 37, 55], vec![19, 33, 51]]);
    assert_eq!(game.get_takes_from_cell_rev(19), vec![vec![55, 37, 19], vec![51, 33, 19]]);
}

#[test]
fn branching_captures_are_all_listed_and_none_begins_another() {
    // As above, with a black man on 44 that links the two branches: from 51
    // the man can come back to 37 or to 33, and from there to where it started.
    let mut game = empty_board(true);
    put(&mut game, 19, true, false);
    for square in [28, 46, 26, 42, 44] {
        put(&mut game, square, false, false);
    }
    let game = ready(game);
    let got = paths(&game.get_moves());
    assert_eq!(
        got,
        vec![
            vec![19, 33, 51, 37, 55],
            vec![19, 33, 51, 37, 19],
            vec![19, 37, 55],
            vec![19, 37, 51, 33, 19]
        ]
    );
    for a in &got {
        for b in &got {
            assert!(!(a.len() < b.len() && b[..a.len()] == a[..]));
        }
    }
    for path in &got {
        let mut after = game;
        after.make_move(Move::Take(path.clone()));
        assert!(after.is_consistent());
        assert!(after.get_cuts_from_cell(*path.last().unwrap()).is_empty());
    }
}

#[test]
fn capture_is_mandatory() {
    let mut game = empty_board(true);
    put(&mut game, 19, true, false);
    put(&mut game, 3, true, false);
    put(&mut game, 28, false, false);
    let game = ready(game);
    assert!(!game.get_moves_without_takes().is_empty());
    let moves = game.get_moves();
    assert_eq!(paths(&moves), vec![vec![19, 37]]);
    assert!(matches!(moves[0], Move::Take(_)));
}

#[test]
fn side_without_moves_loses() {
    let mut game = empty_board(true);
    put(&mut game, 63 - 1, false, false);
    let game = ready(game);
    assert_eq!(game.get_winner(), Some(Winner::Black));
    let mut other = game;
    other.change_player();
    assert_eq!(other.get_winner(), None);
}
