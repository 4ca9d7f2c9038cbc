use checkers::game::{Checker, Game, Move, Winner};

fn put(game: &mut Game, square: i8, white: bool, king: bool) {
    game.not_empty |= 1u64 << square;
    if white {
        game.is_white |= 1u64 << square;
    }
    if king {
        game.is_queen |= 1u64 << square;
    }
}

fn board(white_to_move: bool, pieces: &[(i8, bool, bool)]) -> Game {
    let mut game = Game {
        not_empty: 0,
        is_white: 0,
        is_queen: 0,
        eval_white: 0,
        boring_moves_counter: 0,
        current_player: white_to_move,
    };
    for (square, white, king) in pieces {
        put(&mut game, *square, *white, *king);
    }
    game.eval_white = game.evaluate_from_scratch();
    assert!(game.is_consistent());
    game
}

fn paths(moves: &[Move]) -> Vec<Vec<i8>> {
    moves.iter().map(|m| m.as_vec()).collect()
}

fn cell(game: &Game, square: i8) -> Checker {
    let data = game.get_data();
    let i = square as usize;
    data[7 - i / 8][7 - i % 8]
}

#[test]
fn cell_queries_read_the_masks() {
    let game = board(true, &[(10, true, false), (21, false, true)]);
    assert!(game.is_empty_cell(0));
    assert!(!game.is_empty_cell(10));
    assert!(game.is_white_checker(10));
    assert!(!game.is_queen_checker(10));
    assert!(!game.is_white_checker(21));
    assert!(game.is_queen_checker(21));
    assert_eq!(cell(&game, 10), Checker::White);
    assert_eq!(cell(&game, 21), Checker::BlackQueen);
    assert_eq!(cell(&game, 22), Checker::Empty);
}

#[test]
fn score_formula_counts_material_and_advance() {
    // A white man on 10 is worth 1000 + 10, a black man on 50 is worth 1000 + 63 - 50.
    assert_eq!(board(true, &[(10, true, false)]).evaluate(), 1010);
    assert_eq!(board(true, &[(50, false, false)]).evaluate(), -1013);
    assert_eq!(board(true, &[(10, true, true)]).evaluate(), 3000);
    assert_eq!(board(true, &[(50, false, true)]).evaluate(), -3000);
    let game = board(false, &[(10, true, false), (50, false, false), (3, true, true)]);
    assert_eq!(game.evaluate(), 1010 - 1013 + 3000);
    assert_eq!(game.evaluate_for_me(), -(1010 - 1013 + 3000));
    let mut other = game;
    other.change_player();
    assert_eq!(other.evaluate_for_me(), 1010 - 1013 + 3000);
}

#[test]
fn inconsistent_masks_are_detected() {
    let mut game = Game::default();
    assert!(game.is_consistent());
    game.eval_white = 5;
    assert!(!game.is_consistent());
    game.eval_white = 0;
    game.is_queen |= 1 << 32;
    assert!(!game.is_consistent());
    game.is_queen = 0;
    game.is_white |= 1 << 33;
    assert!(!game.is_consistent());
}

#[test]
fn men_step_forward_and_kings_slide() {
    let game = board(true, &[(27, true, true), (45, true, false)]);
    let moves = game.get_moves();
    assert_eq!(
        paths(&moves),
        vec![
            vec![45, 52],
            vec![45, 54],
            vec![27, 0],
            vec![27, 6],
            vec![27, 9],
            vec![27, 13],
            vec![27, 18],
            vec![27, 20],
            vec![27, 34],
            vec![27, 36],
            vec![27, 41],
            vec![27, 48]
        ]
    );
    assert_eq!(paths(&game.get_moves_without_takes()), paths(&moves));
}

#[test]
fn men_on_the_edge_do_not_wrap() {
    // White men on column 0 (square 16) and column 7 (square 23).
    let game = board(true, &[(16, true, false), (23, true, false)]);
    assert_eq!(paths(&game.get_moves()), vec![vec![23, 30], vec![16, 25]]);
    let game = board(false, &[(40, false, false), (47, false, false)]);
    assert_eq!(paths(&game.get_moves()), vec![vec![40, 33], vec![47, 38]]);
}

#[test]
fn simple_move_of_a_man_keeps_the_score_in_step() {
    let mut game = board(true, &[(19, true, false), (44, false, false)]);
    let before = game.evaluate();
    game.make_move(Move::Simple(19, 26));
    assert_eq!(game.evaluate(), before + 7);
    assert!(game.is_consistent());
    assert!(game.is_empty_cell(19));
    assert_eq!(cell(&game, 26), Checker::White);
    assert!(game.current_player);
    game.change_player();
    game.make_move(Move::Simple(44, 35));
    assert_eq!(game.evaluate(), before + 7 - 9);
    assert!(game.is_consistent());
}

#[test]
fn man_is_crowned_on_the_far_row() {
    let mut game = board(true, &[(49, true, false)]);
    game.make_move(Move::Simple(49, 56));
    assert_eq!(cell(&game, 56), Checker::WhiteQueen);
    assert_eq!(game.evaluate(), 3000);
    assert!(game.is_consistent());
    let mut game = board(false, &[(9, false, false)]);
    game.make_move(Move::Simple(9, 0));
    assert_eq!(cell(&game, 0), Checker::BlackQueen);
    assert_eq!(game.evaluate(), -3000);
    assert!(game.is_consistent());
}

#[test]
fn capture_removes_the_piece_and_pays_its_value() {
    let mut game = board(true, &[(19, true, false), (28, false, false)]);
    assert_eq!(game.evaluate(), 1019 - (1063 - 28));
    game.make_move(Move::Take(vec![19, 37]));
    assert!(game.is_empty_cell(28));
    assert!(game.is_empty_cell(19));
    assert_eq!(cell(&game, 37), Checker::White);
    assert_eq!(game.evaluate(), 1037);
    assert!(game.is_consistent());
    let mut game = board(false, &[(19, true, true), (28, false, false)]);
    game.make_move(Move::Take(vec![28, 10]));
    assert_eq!(game.evaluate(), -(1063 - 10));
    assert!(game.is_consistent());
}

#[test]
fn men_capture_backwards_too() {
    let game = board(true, &[(35, true, false), (26, false, false)]);
    assert_eq!(paths(&game.get_moves()), vec![vec![35, 17]]);
    let game = board(false, &[(26, false, false), (35, true, false)]);
    assert_eq!(paths(&game.get_moves()), vec![vec![26, 44]]);
}

#[test]
fn men_do_not_jump_over_their_own_pieces_or_onto_pieces() {
    let game = board(true, &[(19, true, false), (28, true, false)]);
    assert!(game.get_moves_with_takes().is_empty());
    let game = board(true, &[(19, true, false), (28, false, false), (37, false, false)]);
    assert!(game.get_moves_with_takes().is_empty());
}

#[test]
fn flying_king_lands_on_any_square_behind_the_captured_piece() {
    let game = board(true, &[(0, true, true), (18, false, false)]);
    assert_eq!(
        paths(&game.get_moves()),
        vec![vec![0, 27], vec![0, 36], vec![0, 45], vec![0, 54], vec![0, 63]]
    );
}

#[test]
fn flying_king_goes_on_where_it_can() {
    let game = board(true, &[(0, true, true), (18, false, false), (43, false, false)]);
    assert_eq!(
        paths(&game.get_moves()),
        vec![vec![0, 27], vec![0, 36, 50], vec![0, 36, 57], vec![0, 45], vec![0, 54], vec![0, 63]]
    );
    assert_eq!(
        game.get_takes_from_cell_rev(0),
        vec![vec![27, 0], vec![50, 36, 0], vec![57, 36, 0], vec![45, 0], vec![54, 0], vec![63, 0]]
    );
}

#[test]
fn king_cannot_pass_two_pieces_or_its_own() {
    let game = board(true, &[(0, true, true), (18, false, false), (27, false, false)]);
    assert!(game.get_moves_with_takes().is_empty());
    let game = board(true, &[(0, true, true), (9, true, false), (18, false, false)]);
    assert!(paths(&game.get_moves_with_takes()).iter().all(|p| p[0] != 0));
}

#[test]
fn man_crowned_during_a_capture_goes_on_as_king() {
    let mut game = board(true, &[(42, true, false), (51, false, false), (46, false, false)]);
    let moves = game.get_moves();
    assert_eq!(paths(&moves), vec![vec![42, 60, 39]]);
    game.make_move(Move::Take(vec![42, 60, 39]));
    assert_eq!(cell(&game, 39), Checker::WhiteQueen);
    assert_eq!(game.not_empty, 1u64 << 39);
    assert_eq!(game.evaluate(), 3000);
    assert!(game.is_consistent());
}

#[test]
fn capture_can_be_made_jump_by_jump() {
    let mut game = board(true, &[(19, true, false), (28, false, false), (46, false, false)]);
    assert_eq!(paths(&game.get_moves()), vec![vec![19, 37, 55]]);
    game.make_move(Move::Take(vec![19, 37]));
    assert!(game.is_consistent());
    let more = game.get_cuts_from_cell(37);
    assert_eq!(paths(&more), vec![vec![37, 55]]);
    game.make_move(Move::Take(vec![37, 55]));
    assert!(game.get_cuts_from_cell(55).is_empty());
    assert_eq!(game.not_empty, 1u64 << 55);
    assert!(game.is_consistent());
}

#[test]
fn captures_of_men_come_by_direction_then_kings() {
    // Two white men that can each capture, and a white king that can capture.
    let game = board(
        true,
        &[
            (17, true, false),
            (26, false, false),
            (21, true, false),
            (28, false, false),
            (5, true, true),
            (12, false, false),
        ],
    );
    let got = paths(&game.get_moves());
    // 21 -> 35 over 28 (step 14), 21 -> 3 over 12 (step -18), 17 -> 35 over 26
    // (step 18), then the king 5 over 12 to 19, from where it takes 26 or 28.
    assert_eq!(
        got,
        vec![
            vec![21, 35],
            vec![21, 3],
            vec![17, 35],
            vec![5, 19, 33],
            vec![5, 19, 37],
            vec![5, 19, 40],
            vec![5, 19, 46],
            vec![5, 19, 55]
        ]
    );
}

#[test]
fn quiet_king_moves_are_counted_and_draw_the_game() {
    let mut game = board(true, &[(27, true, true), (60, false, true), (10, true, false)]);
    for n in 1..=14u8 {
        let (from, to) = if n % 2 == 1 { (27, 36) } else { (36, 27) };
        game.make_move(Move::Simple(from, to));
        assert_eq!(game.boring_moves_counter, n);
        assert!(!game.is_draw());
        assert_eq!(game.get_winner(), None);
    }
    game.make_move(Move::Simple(27, 36));
    assert_eq!(game.boring_moves_counter, 15);
    assert!(game.is_draw());
    assert_eq!(game.get_winner(), Some(Winner::Draw));
    game.make_move(Move::Simple(10, 17));
    assert_eq!(game.boring_moves_counter, 0);
    assert!(!game.is_draw());
}

#[test]
fn count_of_quiet_king_moves_stops_at_its_limit() {
    let mut game = board(true, &[(27, true, true), (60, false, true)]);
    game.boring_moves_counter = 254;
    game.make_move(Move::Simple(27, 36));
    assert_eq!(game.boring_moves_counter, 255);
    game.make_move(Move::Simple(36, 27));
    assert_eq!(game.boring_moves_counter, 255);
    assert!(game.is_draw());
    assert!(game.is_consistent());
}

#[test]
fn capture_resets_the_count_of_quiet_king_moves() {
    let mut game = board(true, &[(0, true, true), (18, false, false), (61, false, false)]);
    game.boring_moves_counter = 9;
    game.make_move(Move::Take(vec![0, 27]));
    assert_eq!(game.boring_moves_counter, 0);
}

#[test]
fn loser_is_the_side_without_moves() {
    // An uncrowned man on its far row has no step to make.
    let game = board(true, &[(56, true, false)]);
    assert_eq!(game.get_winner(), Some(Winner::Black));
    let game = board(false, &[(7, false, false)]);
    assert_eq!(game.get_winner(), Some(Winner::White));
    let game = board(false, &[(56, true, false), (40, false, false)]);
    assert_eq!(game.get_winner(), None);
    assert_eq!(Winner::White.to_string(), "White won!");
    assert_eq!(Winner::Black.to_string(), "Black won!");
    assert_eq!(Winner::Draw.to_string(), "Draw");
}

#[test]
fn cells_print_as_one_character() {
    assert_eq!(Checker::Empty.to_string(), ".");
    assert_eq!(Checker::White.to_string(), "w");
    assert_eq!(Checker::Black.to_string(), "b");
    assert_eq!(Checker::WhiteQueen.to_string(), "W");
    assert_eq!(Checker::BlackQueen.to_string(), "B");
}

#[test]
fn moves_of_one_piece_are_those_that_start_on_its_square() {
    let game = Game::default();
    assert_eq!(paths(&game.get_moves_from_cell(17)), vec![vec![17, 24], vec![17, 26]]);
    assert_eq!(paths(&game.get_moves_from_cell(23)), vec![vec![23, 30]]);
    assert!(game.get_moves_from_cell(0).is_empty());
    assert!(game.get_moves_from_cell(40).is_empty());
    // Where a capture must be made, a piece that cannot capture has no move.
    let game = board(true, &[(19, true, false), (28, false, false), (3, true, false)]);
    assert_eq!(paths(&game.get_moves_from_cell(19)), vec![vec![19, 37]]);
    assert!(game.get_moves_from_cell(3).is_empty());
    assert!(Move::Simple(3, 12).starts_on(3));
    assert!(!Move::Simple(3, 12).starts_on(12));
    assert!(Move::Take(vec![19, 37]).starts_on(19));
    assert!(!Move::Take(vec![]).starts_on(19));
}

#[test]
fn moves_give_their_squares() {
    assert_eq!(Move::Simple(3, 12).as_vec(), vec![3, 12]);
    assert_eq!(Move::Take(vec![3, 21, 35]).as_vec(), vec![3, 21, 35]);
    assert_eq!(Move::Take(vec![3, 21, 35]).duplicate().as_vec(), vec![3, 21, 35]);
}

struct Lcg(u64);

impl Lcg {
    fn next(&mut self, bound: usize) -> usize {
        self.0 = self.0.wrapping_mul(6364136223846793005).wrapping_add(1442695040888963407);
        ((self.0 >> 33) as usize) % bound
    }
}

#[test]
fn score_stays_equal_to_a_recount_during_random_games() {
    for seed in 1..=40u64 {
        let mut rng = Lcg(seed);
        let mut game = Game::default();
        for _ in 0..400 {
            if game.get_winner().is_some() {
                break;
            }
            let moves = game.get_moves();
            let captures = game.get_moves_with_takes();
            if !captures.is_empty() {
                assert_eq!(paths(&moves), paths(&captures));
                assert!(moves.iter().all(|m| matches!(m, Move::Take(_))));
            }
            let pick = moves[rng.next(moves.len())].duplicate();
            let squares = pick.as_vec();
            let capture = matches!(pick, Move::Take(_));
            game.make_move(pick);
            assert_eq!(game.evaluate(), game.evaluate_from_scratch());
            assert!(game.is_consistent());
            if capture {
                let last = *squares.last().unwrap();
                assert!(game.get_takes_from_cell_rev(last).is_empty());
                assert!(game.get_cuts_from_cell(last).is_empty());
            }
            game.change_player();
        }
    }
}
