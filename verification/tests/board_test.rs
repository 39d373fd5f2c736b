use conesnake::api::{Customizations, GameApi, RoyaleSettings, Ruleset, Settings, SnakeApi, SquadSettings};
use conesnake::board::{Board, BoardSquare, HeadOnCol};
use conesnake::config::MAX_BOARD_SIZE;
use conesnake::game::{Game, GameMap, Rules};
use conesnake::random::{FastRand, MaxRand, Rand};
use conesnake::util::{Coord, Move};

fn test_game() -> Game {
    Game {
        api: GameApi {
            id: "".to_owned(),
            timeout: 500,
            source: "".to_owned(),
            map: GameMap::Standard,
            ruleset: Ruleset {
                name: "standard".to_owned(),
                version: "".to_owned(),
                settings: Settings {
                    food_spawn_chance: 15,
                    minimum_food: 1,
                    hazard_damage_per_turn: 100,
                    royale: RoyaleSettings { shrink_every_n_turns: 20 },
                    squad: SquadSettings {
                        allow_body_collisions: false,
                        shared_elimination: false,
                        shared_health: false,
                        shared_length: false,
                    },
                },
            },
        },
        ruleset: Rules::Standard,
        is_solo: false,
    }
}

fn solo_game() -> Game {
    let mut game = test_game();
    game.ruleset = Rules::Solo;
    game.api.ruleset.name = "solo".to_owned();
    game
}

fn wrapped_game() -> Game {
    let mut game = test_game();
    game.ruleset = Rules::Wrapped;
    game.api.ruleset.name = "wrapped".to_owned();
    game
}

fn test_snake(coords: &[Coord], health: i32) -> SnakeApi {
    SnakeApi {
        id: "0".to_owned(),
        name: "conesnake".to_owned(),
        customizations: Customizations { color: None, head: None, tail: None },
        body: coords.to_vec(),
        head: coords[0],
        health,
        latency: "10".to_owned(),
        length: coords.len() as i32,
        shout: None,
        squad: "".to_owned(),
    }
}

#[test]
fn basic_str_test() {
    let game = test_game();

    let mut board = Board::new(7, 7);
    board.turn = 4;

    let snake = test_snake(&[Coord::new(3, 4), Coord::new(4, 4), Coord::new(4, 3)], 87);
    board.add_api_snake(&game, &snake).unwrap();

    board.set_at(Coord::new(5, 6), BoardSquare::Food);
    board.num_food += 1;

    board.set_at(Coord::new(1, 3), BoardSquare::Hazard);

    let board_string = board.to_string();
    let parsed_board = Board::from_str(board_string.as_str(), &game).unwrap();

    assert_eq!(board, parsed_board);
}

#[test]
fn multiple_snake_str_test() {
    let game = test_game();

    let mut board = Board::new(11, 11);
    board.turn = 4;

    board.set_at(Coord::new(10, 7), BoardSquare::Food);
    board.num_food += 1;

    let snake_0 = test_snake(&[Coord::new(3, 4), Coord::new(2, 4)], 87);
    let snake_1 = test_snake(
        &[
            Coord::new(5, 6),
            Coord::new(5, 5),
            Coord::new(6, 5),
            Coord::new(7, 5),
            Coord::new(7, 4),
        ],
        76,
    );

    board.add_api_snake(&game, &snake_0).unwrap();
    board.add_api_snake(&game, &snake_1).unwrap();

    let board_string = board.to_string();
    let parsed_board = Board::from_str(board_string.as_str(), &game).unwrap();

    assert_eq!(board, parsed_board);
}

#[test]
fn stacked_str_test() {
    let game = test_game();

    let mut board = Board::new(7, 7);

    let snake = test_snake(&[Coord::new(3, 5), Coord::new(3, 5), Coord::new(3, 5)], 100);
    board.add_api_snake(&game, &snake).unwrap();

    let board_string = board.to_string();
    let parsed_board = Board::from_str(board_string.as_str(), &game).unwrap();

    assert_eq!(board, parsed_board);
}

#[test]
fn hazard_str_test() {
    let game = test_game();

    let mut board = Board::new(11, 11);

    let snake = test_snake(
        &[Coord::new(3, 4), Coord::new(4, 4), Coord::new(4, 3), Coord::new(4, 2)],
        100,
    );

    board.set_at(Coord::new(3, 4), BoardSquare::Hazard);
    board.set_at(Coord::new(4, 4), BoardSquare::Hazard);
    board.set_at(Coord::new(4, 2), BoardSquare::Hazard);

    board.add_api_snake(&game, &snake).unwrap();

    let board_string = board.to_string();
    let parsed_board = Board::from_str(board_string.as_str(), &game).unwrap();

    assert_eq!(board, parsed_board);
}

const BOARD_A: &str = "
    turn: 10 health: 45 health: 42
    - - - - - -
    - d - - - -
    1 v - - - -
    ^ < 0 - - -
    - - ^ v < a
    - - ^ < - -
";

const BOARD_B: &str = "
    turn: 10 health: 45 health: 42
    > v - - - -
    ^ 1 - - - +
    ^ - 0 - - -
    ^ - ^ - - -
    c - ^ < < a
    - - - - - -
";

const BOARD_TAIL: &str = "
    turn: 10 health: 45 health: 42 health: 42
    - - - - - -
    - - b > > 1
    v e 0 - - -
    v - ^ - - -
    v - ^ < < a
    2 - - - - -
";

const BOARD_TAIL_HAZARD: &str = "
    turn: 10 health: 45 health: 42 health: 42
    * * * - - -
    * * B > > 1
    u E S - - -
    u * n - - -
    u * n < < a
    U * * - - -
";

const BOARD_D: &str = "
    turn: 1 health: 42
    - - - - - -
    - - - - - -
    - - 0 + - -
    - - - - - -
    - - - - - -
    - - - - - -
";

const BOARD_X: &str = "
    turn: 10 health: 45
    + - - - - -
    - - 0 < - -
    - - - ^ - +
    - - - ^ - -
    - - - ^ < a
    - - - - - -
";

const BOARD_Y: &str = "
    turn: 10 health: 45 health: 42
    - - - - - -
    - d - > > 0
    1 v - ^ - -
    ^ < - ^ - -
    - - - ^ < a
    - - - - - -
";

#[test]
fn move_to_coord_test() {
    let game = test_game();
    let board_a = Board::from_str(BOARD_A, &game).unwrap();

    let test_coord = Coord { x: 4, y: 3 };

    assert_eq!(
        board_a.move_to_coord(test_coord, Move::Left, game.ruleset),
        Coord { x: 3, y: 3 }
    );
    assert_eq!(
        board_a.move_to_coord(test_coord, Move::Right, game.ruleset),
        Coord { x: 5, y: 3 }
    );
    assert_eq!(
        board_a.move_to_coord(test_coord, Move::Up, game.ruleset),
        Coord { x: 4, y: 4 }
    );
    assert_eq!(
        board_a.move_to_coord(test_coord, Move::Down, game.ruleset),
        Coord { x: 4, y: 2 }
    );
}

#[test]
fn move_to_coord_wrapped_test() {
    let game = wrapped_game();
    let board_a = Board::from_str(BOARD_A, &game).unwrap();

    let test_coord = Coord { x: 0, y: 5 };

    assert_eq!(
        board_a.move_to_coord(test_coord, Move::Left, game.ruleset),
        Coord { x: 5, y: 5 }
    );
    assert_eq!(
        board_a.move_to_coord(test_coord, Move::Right, game.ruleset),
        Coord { x: 1, y: 5 }
    );
    assert_eq!(
        board_a.move_to_coord(test_coord, Move::Up, game.ruleset),
        Coord { x: 0, y: 0 }
    );
    assert_eq!(
        board_a.move_to_coord(test_coord, Move::Down, game.ruleset),
        Coord { x: 0, y: 4 }
    );
}

#[test]
fn next_to_test() {
    let game = test_game();
    let board = Board::from_str(BOARD_A, &game).unwrap();

    let a = Coord { x: 1, y: 1 };
    let b = Coord { x: 2, y: 2 };
    let c = Coord { x: 3, y: 3 };
    let d = Coord { x: 3, y: 4 };
    let e = Coord { x: 5, y: 2 };
    let f = Coord { x: 4, y: 2 };

    assert!(board.next_to(e, f, game.ruleset));
    assert!(!board.next_to(a, b, game.ruleset));
    assert!(!board.next_to(b, a, game.ruleset));
    assert!(board.next_to(c, d, game.ruleset));
    assert!(!board.next_to(d, e, game.ruleset));
}

#[test]
fn next_to_wrapped_test() {
    let game = wrapped_game();
    let board = Board::from_str(BOARD_A, &game).unwrap();

    let a = Coord { x: 0, y: 4 };
    let b = Coord { x: 5, y: 4 };
    let c = Coord { x: 3, y: 5 };
    let d = Coord { x: 3, y: 0 };
    let e = Coord { x: 0, y: 5 };
    let f = Coord { x: 5, y: 0 };

    let g = Coord { x: 1, y: 1 };
    let h = Coord { x: 2, y: 2 };
    let i = Coord { x: 3, y: 2 };

    assert!(board.next_to(a, b, game.ruleset));
    assert!(board.next_to(b, a, game.ruleset));
    assert!(!board.next_to(e, f, game.ruleset));
    assert!(board.next_to(c, d, game.ruleset));
    assert!(!board.next_to(d, e, game.ruleset));

    assert!(!board.next_to(g, h, game.ruleset));
    assert!(!board.next_to(h, g, game.ruleset));
    assert!(board.next_to(h, i, game.ruleset));
    assert!(board.next_to(i, h, game.ruleset));
}

#[test]
fn coord_to_move_test() {
    let game = test_game();
    let board = Board::from_str(BOARD_A, &game).unwrap();

    let a = Coord { x: 1, y: 1 };
    let b = Coord { x: 1, y: 2 };
    let c = Coord { x: 0, y: 0 };
    let d = Coord { x: 1, y: 0 };

    assert_eq!(board.coord_to_move(a, b, game.ruleset), (Some(Move::Up), None));
    assert_eq!(board.coord_to_move(b, a, game.ruleset), (Some(Move::Down), None));
    assert_eq!(board.coord_to_move(c, d, game.ruleset), (Some(Move::Right), None));
    assert_eq!(board.coord_to_move(d, c, game.ruleset), (Some(Move::Left), None));

    // More than one coord away
    assert_eq!(
        board.coord_to_move(Coord::new(0, 3), Coord::new(5, 3), game.ruleset),
        (Some(Move::Right), None)
    );
    assert_eq!(
        board.coord_to_move(Coord::new(0, 3), Coord::new(1, 4), game.ruleset),
        (Some(Move::Right), Some(Move::Up))
    );
    assert_eq!(
        board.coord_to_move(Coord::new(0, 3), Coord::new(1, 5), game.ruleset),
        (Some(Move::Up), Some(Move::Right))
    );

    // Equal
    assert_eq!(
        board.coord_to_move(Coord::new(0, 3), Coord::new(0, 3), game.ruleset),
        (None, None)
    );
}

#[test]
fn coord_to_move_wrapped_test() {
    let game = wrapped_game();
    let board = Board::from_str(BOARD_A, &game).unwrap();

    // Immediately next to
    let a = Coord { x: 1, y: 1 };
    let b = Coord { x: 1, y: 2 };
    let c = Coord { x: 0, y: 0 };
    let d = Coord { x: 1, y: 0 };
    let e = Coord { x: 5, y: 0 };
    let f = Coord { x: 0, y: 5 };

    assert_eq!(board.coord_to_move(a, b, game.ruleset), (Some(Move::Up), None));
    assert_eq!(board.coord_to_move(b, a, game.ruleset), (Some(Move::Down), None));
    assert_eq!(board.coord_to_move(c, d, game.ruleset), (Some(Move::Right), None));
    assert_eq!(board.coord_to_move(d, c, game.ruleset), (Some(Move::Left), None));
    assert_eq!(board.coord_to_move(c, e, game.ruleset), (Some(Move::Left), None));
    assert_eq!(board.coord_to_move(e, c, game.ruleset), (Some(Move::Right), None));
    assert_eq!(board.coord_to_move(c, f, game.ruleset), (Some(Move::Down), None));
    assert_eq!(board.coord_to_move(d, c, game.ruleset), (Some(Move::Left), None));

    // More than one coord away
    assert_eq!(
        board.coord_to_move(Coord::new(0, 3), Coord::new(5, 3), game.ruleset),
        (Some(Move::Left), None)
    );
    assert_eq!(
        board.coord_to_move(Coord::new(0, 3), Coord::new(5, 4), game.ruleset),
        (Some(Move::Left), Some(Move::Up))
    );
    assert_eq!(
        board.coord_to_move(Coord::new(0, 3), Coord::new(5, 5), game.ruleset),
        (Some(Move::Up), Some(Move::Left))
    );

    // Equal
    assert_eq!(
        board.coord_to_move(Coord::new(0, 3), Coord::new(0, 3), game.ruleset),
        (None, None)
    );
}

#[test]
fn move_test() {
    let game = test_game();

    let board_a = Board::from_str(BOARD_A, &game).unwrap();
    let board_b = Board::from_str(BOARD_B, &game).unwrap();

    let head_a_1 = Coord::new(0, 3);
    let head_b_0 = Coord::new(2, 3);

    assert!(board_a.on_board(board_a.move_to_coord(head_a_1, Move::Right, game.ruleset)));
    assert!(!board_a.on_board(board_a.move_to_coord(head_a_1, Move::Left, game.ruleset)));
    assert!(board_b.on_board(board_b.move_to_coord(head_b_0, Move::Up, game.ruleset)));

    assert!(!board_a.valid_move(&game, 0, Move::Left));
    assert!(board_a.valid_move(&game, 0, Move::Right));
    assert!(board_a.valid_move(&game, 0, Move::Up));

    assert!(!board_a.valid_move(&game, 1, Move::Left));
    assert!(!board_a.valid_move(&game, 1, Move::Right));
    assert!(board_a.valid_move(&game, 1, Move::Up));
    assert!(!board_a.valid_move(&game, 1, Move::Down));

    assert!(board_b.valid_move(&game, 0, Move::Up));
    assert!(board_b.valid_move(&game, 1, Move::Right));
}

#[test]
fn tail_test() {
    let mut game = test_game();

    let board_tail = Board::from_str(BOARD_TAIL, &game).unwrap();

    game.api.ruleset.settings.hazard_damage_per_turn = 10;
    let mut board_hazard = Board::from_str(BOARD_TAIL_HAZARD, &game).unwrap();

    assert!(board_tail.valid_move(&game, 0, Move::Up));

    // Stacked, shouldn't be able to move into tail
    assert!(!board_tail.valid_move(&game, 0, Move::Left));

    assert!(board_hazard.valid_move(&game, 0, Move::Up));
    assert!(!board_hazard.valid_move(&game, 0, Move::Left));

    game.api.ruleset.settings.hazard_damage_per_turn = 80;
    board_hazard = Board::from_str(BOARD_TAIL_HAZARD, &game).unwrap();
    assert!(!board_hazard.valid_move(&game, 0, Move::Up));
    assert!(!board_hazard.valid_move(&game, 0, Move::Left));
}

#[test]
fn head_on_col_test() {
    let game = test_game();

    let board_b = Board::from_str(BOARD_B, &game).unwrap();

    assert_eq!(board_b.head_on_col(&game, 0, Move::Left), HeadOnCol::PossibleCollision);
    assert_eq!(board_b.head_on_col(&game, 0, Move::Right), HeadOnCol::NoCollision);
    assert_eq!(board_b.head_on_col(&game, 0, Move::Up), HeadOnCol::PossibleCollision);
    assert_eq!(board_b.head_on_col(&game, 0, Move::Down), HeadOnCol::NoCollision);

    assert_eq!(board_b.head_on_col(&game, 1, Move::Left), HeadOnCol::NoCollision);
    assert_eq!(
        board_b.head_on_col(&game, 1, Move::Right),
        HeadOnCol::PossibleElimination
    );
    assert_eq!(board_b.head_on_col(&game, 1, Move::Up), HeadOnCol::NoCollision);
    assert_eq!(
        board_b.head_on_col(&game, 1, Move::Down),
        HeadOnCol::PossibleElimination
    );
}

#[test]
fn head_on_col_wrapped_test() {
    let game = wrapped_game();

    let board_y = Board::from_str(BOARD_Y, &game).unwrap();

    assert_eq!(board_y.head_on_col(&game, 0, Move::Left), HeadOnCol::NoCollision);
    assert_eq!(
        board_y.head_on_col(&game, 0, Move::Right),
        HeadOnCol::PossibleElimination
    );
    assert_eq!(board_y.head_on_col(&game, 0, Move::Up), HeadOnCol::NoCollision);
    assert_eq!(
        board_y.head_on_col(&game, 0, Move::Down),
        HeadOnCol::PossibleElimination
    );

    assert_eq!(board_y.head_on_col(&game, 1, Move::Left), HeadOnCol::PossibleCollision);
    assert_eq!(board_y.head_on_col(&game, 1, Move::Right), HeadOnCol::NoCollision);
    assert_eq!(board_y.head_on_col(&game, 1, Move::Up), HeadOnCol::PossibleCollision);
    assert_eq!(board_y.head_on_col(&game, 1, Move::Down), HeadOnCol::NoCollision);
}

#[test]
fn closest_snake_test() {
    let game = test_game();

    let board_tail = Board::from_str(BOARD_TAIL, &game).unwrap();
    let board_x = Board::from_str(BOARD_X, &game).unwrap();

    assert_eq!(board_tail.closest_snake(&game, 0), Some(Coord::new(5, 4)));
    assert_eq!(board_x.closest_snake(&game, 0), None);
}

#[test]
fn gen_board_food_test() {
    let mut game = solo_game();
    let mut rng = FastRand::new();

    game.api.ruleset.settings.food_spawn_chance = 15;
    game.api.ruleset.settings.minimum_food = 5;

    let mut board_food = Board::from_str(BOARD_D, &game).unwrap();
    let mut food_buff = [Default::default(); MAX_BOARD_SIZE];

    board_food.gen_board(Move::Right as u16, &game, &mut food_buff, &mut rng);

    assert!(board_food.num_food() > 0);
}

const PLAYOUT_TRAPPED: &str = "
    turn: 2 health: 45 health: 93
    > 0 v <
    ^ - v g
    ^ - > 1
    ^ < < e
";

const PLAYOUT_WIN: &str = "
    turn: 2 health: 45 health: 0
    > 0 - -
    ^ - - -
    ^ - - -
    ^ < < e
";

#[test]
fn playout_test() {
    let game = test_game();
    let mut rng = MaxRand::new();
    let mut food_buff = [0usize; MAX_BOARD_SIZE];
    for text in [PLAYOUT_TRAPPED, PLAYOUT_WIN] {
        let mut board = Board::from_str(text, &game).unwrap();
        board.play_out(&game, false, &mut food_buff, &mut rng);
        assert_eq!(board.num_snakes(), 2);
        // Snake 0 wins the playout and snake 1 loses it.
        assert!(board.snakes[0].alive());
        assert!(!board.snakes[1].alive());
    }
}

fn without_food(sq: BoardSquare) -> BoardSquare {
    match sq {
        BoardSquare::Food => BoardSquare::Empty,
        BoardSquare::FoodHazard => BoardSquare::Hazard,
        other => other,
    }
}

// The children of a search node: the joint moves that are not pruned, in
// order, and the boards they lead to. Food lands on squares drawn at random,
// so the boards are compared apart from where new food lies.
#[test]
fn expand_children_match() {
    let game = test_game();

    let test_cases = [
        (
            "turn: 2 health: 45 health: 93
            > 0 - -
            ^ - 1 d
            ^ d ^ v
            ^ < ^ <",
            vec![
                (
                    "turn: 3 health: 44 health: 92
                    > > 0 -
                    ^ 1 < +
                    ^ - ^ d
                    ^ a ^ <",
                    vec![Move::Right, Move::Left],
                ),
                (
                    "turn: 3 health: 44 health: 0
                    > v - -
                    ^ 0 - -
                    ^ - + -
                    ^ a - -",
                    vec![Move::Down, Move::Left],
                ),
                (
                    "turn: 3 health: 44 health: 92
                    > > 0 -
                    ^ + > 1
                    ^ - ^ d
                    ^ a ^ <",
                    vec![Move::Right, Move::Right],
                ),
                (
                    "turn: 3 health: 44 health: 92
                    > v + -
                    ^ 0 > 1
                    ^ - ^ d
                    ^ a ^ <",
                    vec![Move::Down, Move::Right],
                ),
                (
                    "turn: 3 health: 44 health: 0
                    > > 0 -
                    ^ + - -
                    ^ - - -
                    ^ a - -",
                    vec![Move::Right, Move::Up],
                ),
                (
                    "turn: 3 health: 44 health: 92
                    > v 1 -
                    ^ 0 ^ +
                    ^ - ^ d
                    ^ a ^ <",
                    vec![Move::Down, Move::Up],
                ),
            ],
        ),
        (
            "turn: 2 health: 45 health: 93
            > v - -
            ^ v 1 d
            ^ 0 ^ v
            ^ e ^ <",
            vec![
                (
                    "turn: 3 health: 0 health: 92
                    - - - -
                    - - > 1
                    + - ^ d
                    - - ^ <",
                    vec![Move::Left, Move::Right],
                ),
                (
                    "turn: 3 health: 0 health: 92
                    - - 1 -
                    - - ^ -
                    + - ^ d
                    - - ^ <",
                    vec![Move::Left, Move::Up],
                ),
            ],
        ),
        (
            "turn: 2 health: 45  health: 0 health: 100
            > 0 - -
            ^ - - -
            ^ - 2 h
            ^ a ^ <",
            vec![
                (
                    "turn: 3 health: 44 health: 0 health: 99
                    > > 0 -
                    ^ - - +
                    ^ 2 < d
                    c  - ^ <
                    ",
                    vec![Move::Right, Move::Left, Move::Left],
                ),
                (
                    "turn: 3 health: 44 health: 0 health: 99
                    > v - -
                    ^ 0 - +
                    ^ 2 < d
                    c  - ^ <
                    ",
                    vec![Move::Down, Move::Left, Move::Left],
                ),
                (
                    "turn: 3 health: 44 health: 0 health: 99
                    > > 0 -
                    ^ - 2 -
                    ^ + ^ d
                    c  - ^ <
                    ",
                    vec![Move::Right, Move::Left, Move::Up],
                ),
                (
                    "turn: 3 health: 44 health: 0 health: 99
                    > v - +
                    ^ 0 2 -
                    ^ - ^ d
                    c  - ^ <
                    ",
                    vec![Move::Down, Move::Left, Move::Up],
                ),
            ],
        ),
        (
            "turn: 3 health: 97 health: 97 health: 97
            > > > 1 - - - -
            ^ - - d d - - -
            ^ - - v v v < <
            ^ < < < 0 v - ^
            - - - - - v - ^
            - - - - - v - c
            - - - - - > > 2",
            vec![
                (
                    "turn: 4 health: 96 health: 96 health: 96
                    > > > > 1 - - -
                    ^ - - - - - - -
                    ^ - - d d v < <
                    ^ < < < v v - ^
                    - - - - 0 v - c
                    + - - - - v - 2
                    - - - - - > > ^",
                    vec![Move::Down, Move::Right, Move::Up],
                ),
                (
                    "turn: 4 health: 96 health: 96 health: 96
                    > > > v - - - -
                    ^ - - 1 - - - -
                    ^ - - d d v < <
                    ^ < < < v v - ^
                    - - - - 0 v - c
                    + - - - - v - 2
                    - - - - - > > ^",
                    vec![Move::Down, Move::Down, Move::Up],
                ),
            ],
        ),
    ];

    for (start_board, expected_results) in &test_cases {
        let board = Board::from_str(start_board, &game).unwrap();
        let num_alive = board.num_alive_snakes();
        let mut children = Vec::new();
        for perm in 0..Move::num_perm(num_alive) {
            if let Some(moves) = board.perm_moves(&game, perm) {
                children.push(moves);
            }
        }
        assert_eq!(children.len(), expected_results.len());
        for (idx, (expected_board, exp_moves)) in expected_results.iter().enumerate() {
            let mut act_moves = Move::decode(children[idx], board.num_snakes());
            for snake_idx in 0..board.num_snakes() as usize {
                if !board.snakes[snake_idx].alive() {
                    act_moves[snake_idx] = Move::Left;
                }
            }
            assert_eq!(*exp_moves, act_moves, "Expected moves: {:?}, actual moves: {:?}", *exp_moves, act_moves);

            let mut child = board.clone();
            let mut rng = MaxRand::new();
            let mut food_buff = [0usize; MAX_BOARD_SIZE];
            child.gen_board(children[idx], &game, &mut food_buff, &mut rng);
            // Ignore the status of dead snakes and the previous heads, which the
            // text does not encode.
            for snake_idx in 0..child.num_snakes() as usize {
                child.snakes[snake_idx].old_head = Coord::new(0, 0);
                if !child.snakes[snake_idx].alive() {
                    child.snakes[snake_idx] = Default::default();
                }
            }
            let mut expected = Board::from_str(expected_board, &game).unwrap();
            for snake_idx in 0..expected.num_snakes() as usize {
                if !expected.snakes[snake_idx].alive() {
                    expected.snakes[snake_idx] = Default::default();
                }
            }
            assert_eq!(child.turn, expected.turn, "turn, case {idx}");
            assert_eq!(child.num_food, expected.num_food, "food count, case {idx}");
            for snake_idx in 0..child.num_snakes() as usize {
                assert_eq!(child.snakes[snake_idx], expected.snakes[snake_idx], "snake {snake_idx}, case {idx}");
            }
            for y in 0..child.height {
                for x in 0..child.width {
                    let c = Coord::new(x as i8, y as i8);
                    assert_eq!(without_food(child.at(c)), without_food(expected.at(c)), "square {x},{y}, case {idx}");
                }
            }
        }
    }
}
