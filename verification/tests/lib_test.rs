use conesnake::api::{
    ApiCoord, BattleState, BoardApi, Customizations, GameApi, RoyaleSettings, Ruleset, Settings, SnakeApi,
    SquadSettings,
};
use conesnake::board::{Board, BoardSquare, HeadOnCol};
use conesnake::config::MAX_BOARD_SIZE;
use conesnake::delay::Delay;
use conesnake::game::{rules_from_name, Game, GameMap, Rules};
use conesnake::random::{FastRand, MaxRand, Rand};
use conesnake::util::{
    char_to_square, rand_move, rand_move_arr, rand_rem_moves, square_from_char, square_to_char, Coord, Error, Move,
};

fn game_with(map: GameMap, rules: Rules, name: &str) -> Game {
    Game {
        api: GameApi {
            id: "g".to_owned(),
            timeout: 500,
            source: "".to_owned(),
            map,
            ruleset: Ruleset {
                name: name.to_owned(),
                version: "".to_owned(),
                settings: Settings {
                    food_spawn_chance: 15,
                    minimum_food: 1,
                    hazard_damage_per_turn: 14,
                    royale: RoyaleSettings { shrink_every_n_turns: 20 },
                    squad: SquadSettings::default(),
                },
            },
        },
        ruleset: rules,
        is_solo: false,
    }
}

fn std_game() -> Game {
    game_with(GameMap::Standard, Rules::Standard, "standard")
}

fn api_snake(id: &str, coords: &[Coord], health: i32) -> SnakeApi {
    SnakeApi {
        id: id.to_owned(),
        name: id.to_owned(),
        health,
        body: coords.to_vec(),
        latency: "0".to_owned(),
        head: coords[0],
        length: coords.len() as i32,
        shout: None,
        squad: "".to_owned(),
        customizations: Customizations::default(),
    }
}

fn request(game: &Game, you: SnakeApi, snakes: Vec<SnakeApi>, food: Vec<Coord>) -> BattleState {
    BattleState {
        game: game.api.clone(),
        turn: 7,
        board: BoardApi { height: 7, width: 7, food, hazards: vec![Coord::new(0, 0)], snakes },
        you,
    }
}

#[test]
fn encode_decode_round_trip() {
    let moves = [Move::Down, Move::Left, Move::Up, Move::Right];
    let enc = Move::encode(&moves);
    assert_eq!(Move::decode(enc, 4), moves.to_vec());
    assert_eq!(Move::extract(enc, 2), Move::Up);
    assert_eq!(Move::extract_idx(enc, 0), 3);
}

#[test]
fn set_move_then_extract() {
    let moves = Move::set_move(0, 1, Move::Down);
    assert_eq!(Move::extract(moves, 1), Move::Down);
    assert_eq!(Move::extract(moves, 0), Move::Left);
    let moves = Move::set_move(moves, 1, Move::Right);
    assert_eq!(Move::extract(moves, 1), Move::Right);
}

#[test]
fn move_indices() {
    assert_eq!(Move::num_perm(1), 4);
    assert_eq!(Move::num_perm(3), 64);
    for i in 0..4 {
        assert_eq!(Move::from_idx(i).idx(), i);
    }
    assert_eq!(Move::from_idx(2), Move::Up);
}

#[test]
fn square_char_round_trip() {
    let squares = [
        BoardSquare::Empty,
        BoardSquare::Food,
        BoardSquare::FoodHazard,
        BoardSquare::Hazard,
        BoardSquare::SnakeHead(2),
        BoardSquare::SnakeHeadHazard(3),
        BoardSquare::SnakeBody(0, Move::Up),
        BoardSquare::SnakeBodyHazard(0, Move::Down),
        BoardSquare::SnakeTail(0, Move::Left),
        BoardSquare::SnakeTailHazard(0, Move::Right),
    ];
    for sq in squares {
        let (back, _, _, _) = char_to_square(square_to_char(sq, 0));
        assert_eq!(back, sq);
    }
    assert_eq!(square_to_char(BoardSquare::SnakeTail(1, Move::Up), 1), 'g');
    assert_eq!(char_to_square('g'), (BoardSquare::SnakeTail(0, Move::Up), 0, 1, Some(Move::Up)));
    assert_eq!(square_to_char(BoardSquare::SnakeBodyHazard(0, Move::Up), 0), 'n');
    assert_eq!(square_from_char('x'), None);
}

#[test]
fn api_coord_round_trip() {
    let c = Coord::new(3, 9);
    let a: ApiCoord = c.to_api();
    assert_eq!(a.to_internal(), c);
}

#[test]
fn coord_keeps_four_bits() {
    let c = Coord::new(-1, 3);
    assert_eq!(c.x(), 15);
    assert_eq!(c.y(), 3);
    assert_eq!(Coord::new(17, 31), Coord::new(1, 15));
    let mut d = Coord::new(2, 2);
    d.set_x(-2);
    d.set_y(20);
    assert_eq!((d.x(), d.y()), (14, 4));
    assert_eq!(ApiCoord::new(-1, 16).to_internal(), Coord::new(15, 0));
}

#[test]
fn game_from_ruleset_name() {
    let api = std_game().api;
    let g = Game::new(api.clone(), false).unwrap();
    assert_eq!(g.ruleset, Rules::Standard);
    let mut wrapped = api.clone();
    wrapped.ruleset.name = "wrapped".to_owned();
    assert_eq!(Game::new(wrapped, true).unwrap().ruleset, Rules::Wrapped);
    let mut unnamed = api.clone();
    unnamed.ruleset.name = "".to_owned();
    assert_eq!(Game::new(unnamed, false).unwrap().ruleset, Rules::Standard);
    let mut unknown = api;
    unknown.ruleset.name = "chess".to_owned();
    assert!(matches!(Game::new(unknown, false), Err(Error::SerdeError(_))));
    assert_eq!(rules_from_name(&"royale".to_owned()), Some(Rules::Royale));
}

#[test]
fn game_limits() {
    let game = std_game();
    let board = Board::new(11, 11);
    assert_eq!(game.max_turn(&board), 11800);
    assert_eq!(game.min_alive_snakes(), 2);
    assert!(game.over(&board));
    let solo = game_with(GameMap::Standard, Rules::Solo, "solo");
    assert_eq!(solo.min_alive_snakes(), 1);
}

#[test]
fn max_rand_picks_largest() {
    let mut r = MaxRand::new();
    assert_eq!(r.int_n(10), 9);
    assert_eq!(r.range(3, 8), 8);
    let mut arr = [1, 2, 3, 4];
    r.shuffle(&mut arr, 4);
    assert_eq!(arr, [2, 3, 4, 1]);
    let mut sample = [0u32; 3];
    r.sample_n(&mut sample, 10, 2);
    assert_eq!(sample, [9, 8, 0]);
}

#[test]
fn fast_rand_shuffle_keeps_items() {
    let mut r = FastRand::new();
    let mut arr = [5, 6, 7, 8, 9];
    r.shuffle(&mut arr, 5);
    let mut sorted = arr;
    sorted.sort();
    assert_eq!(sorted, [5, 6, 7, 8, 9]);
    for _ in 0..50 {
        let v = r.range(2, 4);
        assert!((2..=4).contains(&v));
    }
    let draws: Vec<i32> = (0..20).map(|_| r.range(0, 1000)).collect();
    assert!(draws.iter().any(|v| *v != draws[0]));
    assert!(draws.iter().any(|v| *v != 0));
    let mut long: Vec<u32> = (0..20).collect();
    r.shuffle(&mut long, 20);
    assert_ne!(long, (0..20).collect::<Vec<u32>>());
    let mut sample = [100u32; 6];
    r.sample_n(&mut sample, 50, 6);
    assert!(sample.iter().all(|v| *v < 50));
    assert!(r.int_n(7) < 7);
}

#[test]
fn rem_moves_put_given_first() {
    let mut r = FastRand::new();
    let moves = rand_rem_moves(&mut r, Some(Move::Up), Some(Move::Down));
    assert_eq!(moves[0], Move::Up);
    assert_eq!(moves[1], Move::Down);
    let mut sorted = moves;
    sorted.sort();
    assert_eq!(sorted, [Move::Left, Move::Right, Move::Up, Move::Down]);
    let one = rand_rem_moves(&mut r, None, Some(Move::Right));
    assert_eq!(one[0], Move::Right);
    let both = rand_rem_moves(&mut r, Some(Move::Up), Some(Move::Left));
    assert_eq!(&both[0..2], &[Move::Up, Move::Left]);
    let mut all = both;
    all.sort();
    assert_eq!(all, [Move::Left, Move::Right, Move::Up, Move::Down]);
}

#[test]
fn test_delay() {
    let mut delay = Delay::new(10, 5);
    assert_eq!(delay.next_delay_us(0, 200), 185000);
    assert_eq!(delay.next_delay_us(200, 200), 180000);
    assert_eq!(delay.next_delay_us(195, 200), 180000);
    assert_eq!(delay.next_delay_us(195, 200), 180000);
    assert_eq!(delay.next_delay_us(195, 190), 170000);
    assert_eq!(delay.next_delay_us(185, 190), 170000);
    assert_eq!(delay.next_delay_us(190, 210), 185000);
}

#[test]
fn request_round_trip() {
    let game = std_game();
    let you = api_snake("a", &[Coord::new(1, 1), Coord::new(1, 2), Coord::new(1, 3)], 90);
    let other = api_snake("b", &[Coord::new(5, 5), Coord::new(5, 4), Coord::new(5, 4)], 80);
    let req = request(&game, you.clone(), vec![you, other], vec![Coord::new(3, 3)]);
    let board = Board::from_req(&game, &req).unwrap();
    assert_eq!(board.num_snakes(), 2);
    assert_eq!(board.num_food(), 1);
    assert_eq!(board.turn, 7);
    assert_eq!(board.snake_len(1), 3);
    assert_eq!(board.snakes[1].num_stacked, 1);
    assert_eq!(board.at(Coord::new(0, 0)), BoardSquare::Hazard);
    let back = board.to_req(&game).unwrap();
    assert_eq!(back.board.food, vec![Coord::new(3, 3)]);
    assert_eq!(back.board.hazards, vec![Coord::new(0, 0)]);
    assert_eq!(back.board.snakes[1].body, vec![Coord::new(5, 5), Coord::new(5, 4), Coord::new(5, 4)]);
    assert_eq!(back.you.id, "0");
    let again = Board::from_req(&game, &back).unwrap();
    assert_eq!(again, board);
}

#[test]
fn request_errors() {
    let game = std_game();
    let you = api_snake("a", &[Coord::new(1, 1), Coord::new(1, 2)], 90);
    let req = request(&game, you.clone(), vec![], vec![]);
    assert!(matches!(Board::from_req(&game, &req), Err(Error::BadBoardReq(_))));
    let broken = api_snake("a", &[Coord::new(1, 1), Coord::new(3, 3)], 90);
    let req = request(&game, broken.clone(), vec![broken], vec![]);
    assert!(matches!(Board::from_req(&game, &req), Err(Error::BadBoard(_))));
    let on_food = api_snake("a", &[Coord::new(1, 1), Coord::new(1, 2)], 90);
    let req = request(&game, on_food.clone(), vec![on_food], vec![Coord::new(1, 1)]);
    assert!(matches!(Board::from_req(&game, &req), Err(Error::BadBoard(_))));
    let empty = Board::new(5, 5);
    assert!(matches!(empty.to_req(&game), Err(Error::BadBoard(_))));
}

const ROYALE_BOARD: &str = "
    turn: 20 health: 50 health: 50
    * * * * *
    * - - 0 *
    * - - ^ *
    * 1 - c *
    * * * * *
";

#[test]
fn text_reads_board() {
    let game = std_game();
    let board = Board::from_str(ROYALE_BOARD, &game).unwrap();
    assert_eq!(board.width, 5);
    assert_eq!(board.height, 5);
    assert_eq!(board.turn, 20);
    assert_eq!(board.at(Coord::new(3, 3)), BoardSquare::SnakeHead(0));
    assert_eq!(board.at(Coord::new(3, 1)), BoardSquare::SnakeTail(0, Move::Up));
    assert_eq!(board.at(Coord::new(2, 1)), BoardSquare::Empty);
    assert_eq!(board.snake_head(1), Coord::new(1, 1));
    assert_eq!(board.snake_len(1), 3);
    assert_eq!(board.snake_len(0), 3);
    assert_eq!((board.royale_min_x, board.royale_max_x), (0, 0));
    let text = board.to_string();
    assert!(text.starts_with("turn: 20 health: 50 health: 50 \n* * * * * \n"));
    assert_eq!(Board::from_str(&text, &game).unwrap(), board);
}

#[test]
fn text_royale_bounds() {
    let game = game_with(GameMap::Royale, Rules::Royale, "royale");
    let board = Board::from_str(ROYALE_BOARD, &game).unwrap();
    assert_eq!((board.royale_min_x, board.royale_max_x), (1, 3));
    assert_eq!((board.royale_min_y, board.royale_max_y), (1, 3));
}

#[test]
fn text_errors() {
    let game = std_game();
    let uneven = "turn: 1 health: 10\n- - -\n- 0\n";
    assert!(matches!(Board::from_str(uneven, &game), Err(Error::BadBoardStr(_))));
    let bad_header = "turns: 1 health: 10\n- 0\n";
    assert!(matches!(Board::from_str(bad_header, &game), Err(Error::BadBoardStr(_))));
    let bad_number = "turn: x health: 10\n- 0\n";
    assert!(matches!(Board::from_str(bad_number, &game), Err(Error::BadBoardStr(_))));
    let unknown = "turn: 1 health: 10\n- ?\n";
    assert!(matches!(Board::from_str(unknown, &game), Err(Error::BadBoardStr(_))));
    let missing_head = "turn: 1 health: 10 health: 5\n- 0\n";
    assert!(matches!(Board::from_str(missing_head, &game), Err(Error::BadBoardStr(_))));
    let no_head = "turn: 1 health: 10\n0 > >\n";
    assert!(matches!(Board::from_str(no_head, &game), Err(Error::BadBoardStr(_))));
    assert!(matches!(Board::from_str("   \n", &game), Err(Error::BadBoardStr(_))));
    let negative_turn = "turn: -3 health: 10\n- 0\n";
    assert_eq!(Board::from_str(negative_turn, &game).unwrap().turn, -3);
}

#[test]
fn turn_moves_snakes() {
    let game = std_game();
    let text = "
        turn: 3 health: 50 health: 50
        - - - - -
        - - 0 - -
        - - ^ - -
        - - c - 1
        - - - - c
    ";
    let mut board = Board::from_str(text, &game).unwrap();
    let mut rng = MaxRand::new();
    let mut food_buff = [0usize; MAX_BOARD_SIZE];
    let moves = Move::encode(&[Move::Up, Move::Right]);
    board.gen_board(moves, &game, &mut food_buff, &mut rng);
    assert_eq!(board.turn, 4);
    assert_eq!(board.snake_head(0), Coord::new(2, 4));
    assert_eq!(board.snakes[0].health, 49);
    assert_eq!(board.snake_tail(0), Coord::new(2, 2));
    assert!(!board.snakes[1].alive());
    assert_eq!(board.num_alive_snakes(), 1);
}

#[test]
fn simd_helpers() {
    let game = std_game();
    let board = Board::from_str(ROYALE_BOARD, &game).unwrap();
    let heads = board.snake_head_simd();
    assert_eq!(&heads[0..4], &[3, 3, 1, 1]);
    let moved = board.move_to_coord_simd(heads, Move::Left, Rules::Standard);
    assert_eq!(&moved[0..4], &[2, 3, 0, 1]);
    let off = board.move_to_coord_simd([0, 0, 4, 4, 1, 1, 2, 2], Move::Left, Rules::Standard);
    assert_eq!(off[0], u16::MAX);
    assert_eq!(board.on_board_simd(off), [false, true, true, true]);
    let wrapped = board.move_to_coord_simd([0, 0, 4, 4, 1, 1, 2, 2], Move::Left, Rules::Wrapped);
    assert_eq!(wrapped[0], 4);
    let squares = board.at_idx_simd(20, 22);
    assert_eq!(squares[0], BoardSquare::Hazard);
    assert_eq!(squares[2], BoardSquare::Empty);
    assert_eq!(conesnake::board::board_simd::any_bits_set_simd([1, 2, 3, 4, 0, 8, 9, 6], 1),
        [true, false, true, false, false, false, true, false]);
}

#[test]
fn head_collision_classes() {
    let game = std_game();
    let text = "
        turn: 3 health: 50 health: 50
        - - - - -
        - 0 - 1 -
        - ^ - ^ -
        - c - ^ -
        - - - c -
    ";
    let board = Board::from_str(text, &game).unwrap();
    assert_eq!(board.head_on_col(&game, 0, Move::Right), HeadOnCol::PossibleCollision);
    assert_eq!(board.head_on_col(&game, 1, Move::Left), HeadOnCol::PossibleElimination);
    assert_eq!(board.head_on_col(&game, 0, Move::Up), HeadOnCol::NoCollision);
    assert!(!board.is_trapped(&game, 0));
    assert_eq!(board.pick_move(&game, 0, 0), Move::Left);
    assert_eq!(board.pick_move(&game, 0, 1), Move::Right);
    assert_eq!(board.pick_move(&game, 0, 2), Move::Up);
    assert_eq!(board.pick_move(&game, 0, 3), Move::Left);
    assert_eq!(board.pick_strong_move(&game, 0, 1), Move::Up);
    assert_eq!(board.pick_strong_move(&game, 1, 0), Move::Left);
    let mut rng = MaxRand::new();
    assert_eq!(board.gen_move(&game, 0, &mut rng), Move::Up);
    assert_eq!(board.gen_strong_move(&game, 0, &mut rng), Move::Up);
    assert!(board.move_pruned(&game, 0, Move::Down));
    assert!(!board.move_pruned(&game, 0, Move::Left));
    assert_eq!(board.perm_moves(&game, 0), Some(Move::encode(&[Move::Left, Move::Left])));
    assert_eq!(board.perm_moves(&game, 3), None);
    assert_eq!(board.perm_moves(&game, 6), Some(Move::encode(&[Move::Up, Move::Right])));
    let mut fast = FastRand::new();
    for _ in 0..10 {
        assert_ne!(board.gen_move(&game, 0, &mut fast), Move::Down);
        assert_ne!(board.gen_strong_move(&game, 0, &mut fast), Move::Right);
    }
}

#[test]
fn play_out_ends_game() {
    let game = std_game();
    let text = "
        turn: 3 health: 50 health: 50
        - - - - -
        - - 0 - -
        - - ^ - -
        - - c - 1
        - - - - c
    ";
    let mut board = Board::from_str(text, &game).unwrap();
    let mut rng = FastRand::new();
    let mut food_buff = [0usize; MAX_BOARD_SIZE];
    let (terminal, turns) = board.play_out(&game, false, &mut food_buff, &mut rng);
    assert!(!terminal);
    assert!(turns > 0);
    assert_eq!(board.turn as i64, 3 + turns);
    assert!(game.over(&board));
    let (terminal, turns) = board.play_out(&game, true, &mut food_buff, &mut rng);
    assert!(terminal);
    assert_eq!(turns, 0);
}

fn food_squares(board: &Board) -> Vec<Coord> {
    let mut found = Vec::new();
    for y in 0..board.height {
        for x in 0..board.width {
            let c = Coord::new(x as i8, y as i8);
            if matches!(board.at(c), BoardSquare::Food | BoardSquare::FoodHazard) {
                found.push(c);
            }
        }
    }
    found
}

#[test]
fn food_fills_free_squares() {
    let mut game = std_game();
    game.api.ruleset.settings.minimum_food = 10;
    let text = "
        turn: 3 health: 50
        - - -
        - 0 -
        - c -
    ";
    let mut board = Board::from_str(text, &game).unwrap();
    let mut rng = FastRand::new();
    let mut food_buff = [0usize; MAX_BOARD_SIZE];
    board.update_board_asm(&game, &mut food_buff, &mut rng);
    assert_eq!(board.num_food, 4);
    let food = food_squares(&board);
    assert_eq!(food.len(), 4);
    for corner in [Coord::new(0, 0), Coord::new(2, 0), Coord::new(0, 2), Coord::new(2, 2)] {
        assert!(food.contains(&corner));
    }
}

#[test]
fn food_stops_at_minimum() {
    let mut game = std_game();
    game.api.ruleset.settings.minimum_food = 3;
    game.api.ruleset.settings.food_spawn_chance = 0;
    let text = "
        turn: 3 health: 50
        - - - - -
        - - - - -
        - - 0 - -
        - - c - -
        - - - - -
    ";
    let mut board = Board::from_str(text, &game).unwrap();
    let mut rng = FastRand::new();
    let mut food_buff = [0usize; MAX_BOARD_SIZE];
    board.update_board_asm(&game, &mut food_buff, &mut rng);
    assert_eq!(board.num_food, 3);
    let food = food_squares(&board);
    assert_eq!(food.len(), 3);
    for c in food {
        assert!(!board.next_to(c, board.snake_head(0), game.ruleset));
    }
    board.update_board_asm(&game, &mut food_buff, &mut rng);
    assert_eq!(board.num_food, 3);
    assert_eq!(food_squares(&board).len(), 3);
}

#[test]
fn head_to_head_turns() {
    let game = std_game();
    let equal = "
        turn: 3 health: 50 health: 50
        - - - - -
        - - - - -
        - 0 - 1 -
        - ^ - ^ -
        - c - c -
    ";
    let mut board = Board::from_str(equal, &game).unwrap();
    let mut rng = MaxRand::new();
    let mut food_buff = [0usize; MAX_BOARD_SIZE];
    let moves = Move::encode(&[Move::Right, Move::Left]);
    board.gen_board(moves, &game, &mut food_buff, &mut rng);
    assert!(!board.snakes[0].alive());
    assert!(!board.snakes[1].alive());
    assert_eq!(board.num_alive_snakes(), 0);

    let longer = "
        turn: 3 health: 50 health: 50
        - - - - -
        - - - - -
        - 0 - 1 -
        - ^ - ^ -
        - c - ^ -
        - - - c -
    ";
    let mut board = Board::from_str(longer, &game).unwrap();
    board.gen_board(moves, &game, &mut food_buff, &mut rng);
    assert!(!board.snakes[0].alive());
    assert!(board.snakes[1].alive());
    assert_eq!(board.snake_head(1), board.snakes[1].head);
    assert_eq!(board.at(board.snake_head(1)), BoardSquare::SnakeHead(1));
}

#[test]
fn royale_shrinks_one_side() {
    let game = game_with(GameMap::Royale, Rules::Royale, "royale");
    let mut board = Board::from_str(ROYALE_BOARD, &game).unwrap();
    let mut rng = FastRand::new();
    let mut food_buff = [0usize; MAX_BOARD_SIZE];
    board.update_board_asm(&game, &mut food_buff, &mut rng);
    let bounds = [board.royale_min_x, board.royale_max_x, board.royale_min_y, board.royale_max_y];
    let changed: Vec<usize> = (0..4).filter(|&i| bounds[i] != [1, 3, 1, 3][i]).collect();
    assert_eq!(changed.len(), 1);
    let side = changed[0];
    assert_eq!(bounds[side], [2, 2, 2, 2][side]);
    // An x side hazards its column, a y side its row.
    let line = [1, 3, 1, 3][side];
    for z in 0..5 {
        let c = if side < 2 { Coord::new(line, z) } else { Coord::new(z, line) };
        assert!(board.at(c).is_hazard());
    }
    assert!(!board.at(Coord::new(2, 2)).is_hazard());
    board.turn = 21;
    let before = board.clone();
    board.update_board_asm(&game, &mut food_buff, &mut rng);
    let after = [board.royale_min_x, board.royale_max_x, board.royale_min_y, board.royale_max_y];
    assert_eq!(after, bounds);
    for y in 0..5 {
        for x in 0..5 {
            let c = Coord::new(x, y);
            assert_eq!(board.at(c).is_hazard(), before.at(c).is_hazard());
        }
    }
}

#[test]
fn head_into_body_loses() {
    let game = std_game();
    let text = "
        turn: 3 health: 50 health: 50
        - - - - -
        - 1 - - -
        - ^ 0 - -
        - ^ ^ - -
        - c c - -
    ";
    let mut board = Board::from_str(text, &game).unwrap();
    let mut rng = MaxRand::new();
    let mut food_buff = [0usize; MAX_BOARD_SIZE];
    let moves = Move::encode(&[Move::Left, Move::Up]);
    board.gen_board(moves, &game, &mut food_buff, &mut rng);
    assert!(!board.snakes[0].alive());
    assert!(board.snakes[1].alive());
    assert_eq!(board.snake_head(1), Coord::new(1, 4));
    assert!(matches!(board.at(Coord::new(1, 2)), BoardSquare::SnakeBody(1, _)));
}

#[test]
fn add_api_snake_draws_bodies() {
    let game = std_game();
    let mut b = Board::new(7, 7);
    let s = api_snake("a", &[Coord::new(3, 4), Coord::new(4, 4), Coord::new(4, 3)], 87);
    assert!(b.add_api_snake(&game, &s).is_ok());
    assert_eq!(b.at(Coord::new(3, 4)), BoardSquare::SnakeHead(0));
    assert_eq!(b.at(Coord::new(4, 4)), BoardSquare::SnakeBody(0, Move::Left));
    assert_eq!(b.at(Coord::new(4, 3)), BoardSquare::SnakeTail(0, Move::Up));
    assert_eq!((b.num_snakes, b.snakes[0].len, b.snakes[0].health), (1, 3, 87));

    let mut b = Board::new(7, 7);
    let stacked = api_snake("a", &[Coord::new(3, 5), Coord::new(3, 5), Coord::new(3, 5)], 100);
    assert!(b.add_api_snake(&game, &stacked).is_ok());
    assert_eq!(b.at(Coord::new(3, 5)), BoardSquare::SnakeHead(0));
    assert_eq!((b.snakes[0].len, b.snakes[0].num_stacked), (3, 2));

    let mut b = Board::new(11, 11);
    b.set_at(Coord::new(10, 7), BoardSquare::Food);
    b.num_food += 1;
    let s0 = api_snake("a", &[Coord::new(3, 4), Coord::new(2, 4)], 87);
    let s1 = api_snake(
        "b",
        &[Coord::new(5, 6), Coord::new(5, 5), Coord::new(6, 5), Coord::new(7, 5), Coord::new(7, 4)],
        76,
    );
    assert!(b.add_api_snake(&game, &s0).is_ok());
    assert!(b.add_api_snake(&game, &s1).is_ok());
    assert_eq!((b.num_snakes, b.num_food), (2, 1));
    assert_eq!(b.snake_head(1), Coord::new(5, 6));

    let mut b = Board::new(7, 7);
    let gap = api_snake("a", &[Coord::new(1, 1), Coord::new(1, 2), Coord::new(3, 2)], 90);
    assert!(matches!(b.add_api_snake(&game, &gap), Err(Error::BadBoard(_))));
    let mut b = Board::new(7, 7);
    let crossing = api_snake(
        "a",
        &[Coord::new(1, 1), Coord::new(1, 2), Coord::new(2, 2), Coord::new(2, 1), Coord::new(1, 1), Coord::new(1, 0)],
        90,
    );
    assert!(matches!(b.add_api_snake(&game, &crossing), Err(Error::BadBoard(_))));
}

#[test]
fn max_rand_move_orders() {
    let mut r = MaxRand::new();
    assert_eq!(rand_move(&mut r), Move::Down);
    assert_eq!(rand_move_arr(&mut r), [Move::Right, Move::Up, Move::Down, Move::Left]);
    assert_eq!(rand_rem_moves(&mut r, None, None), [Move::Right, Move::Up, Move::Down, Move::Left]);
    assert_eq!(rand_rem_moves(&mut r, Some(Move::Up), None), [Move::Up, Move::Left, Move::Down, Move::Right]);
}

#[test]
fn royale_max_rand_shrinks_high_y() {
    let mut game = game_with(GameMap::Royale, Rules::Royale, "royale");
    game.api.ruleset.settings.minimum_food = 0;
    game.api.ruleset.settings.food_spawn_chance = 0;
    let mut board = Board::new(3, 3);
    board.turn = 19;
    board.royale_max_x = 2;
    board.royale_max_y = 2;
    let mut rng = MaxRand::new();
    let mut food_buff = [0usize; MAX_BOARD_SIZE];
    board.gen_board(0, &game, &mut food_buff, &mut rng);
    assert_eq!(board.turn, 20);
    assert_eq!(
        [board.royale_min_x, board.royale_max_x, board.royale_min_y, board.royale_max_y],
        [0, 2, 0, 1]
    );
    for x in 0..3 {
        assert_eq!(board.at(Coord::new(x, 2)), BoardSquare::Hazard);
        for y in 0..2 {
            assert_eq!(board.at(Coord::new(x, y)), BoardSquare::Empty);
        }
    }
    assert_eq!(board.num_food, 0);
}

#[test]
fn head_onto_stacked_tail_loses() {
    let game = std_game();
    let text = "
        turn: 3 health: 50 health: 50
        - - - - -
        - 1 - - -
        - ^ - - -
        - g 0 - -
        - - c - -
    ";
    let mut board = Board::from_str(text, &game).unwrap();
    let mut rng = MaxRand::new();
    let mut food_buff = [0usize; MAX_BOARD_SIZE];
    let moves = Move::encode(&[Move::Left, Move::Up]);
    board.gen_board(moves, &game, &mut food_buff, &mut rng);
    assert!(!board.snakes[0].alive());
    assert!(board.snakes[0].eliminated);
    assert!(board.snakes[1].alive());
    assert_eq!(board.snake_head(1), Coord::new(1, 4));
    assert!(matches!(board.at(Coord::new(1, 1)), BoardSquare::SnakeTail(1, _)));
}

#[test]
fn set_royale_scans_columns_and_rows() {
    let game = game_with(GameMap::Royale, Rules::Royale, "royale");
    let text = "
        turn: 20 health: 50
        * * * * *
        * - - - -
        * - 0 - -
        * - ^ - -
        * * c * *
    ";
    let board = Board::from_str(text, &game).unwrap();
    assert_eq!((board.royale_min_x, board.royale_max_x), (1, 4));
    assert_eq!((board.royale_min_y, board.royale_max_y), (0, 3));
}

fn owns_no_square(board: &Board, s: u8) -> bool {
    for y in 0..board.height {
        for x in 0..board.width {
            match board.at(Coord::new(x as i8, y as i8)) {
                BoardSquare::SnakeHead(i)
                | BoardSquare::SnakeHeadHazard(i)
                | BoardSquare::SnakeBody(i, _)
                | BoardSquare::SnakeBodyHazard(i, _)
                | BoardSquare::SnakeTail(i, _)
                | BoardSquare::SnakeTailHazard(i, _) => {
                    if i == s {
                        return false;
                    }
                }
                _ => {}
            }
        }
    }
    true
}

#[test]
fn head_on_on_vacated_tail_longer_wins() {
    let game = std_game();
    let text = "
        turn: 3 health: 50 health: 50
        - - - - -
        - - - - -
        - 0 < - -
        1 b ^ - -
        c - - - -
    ";
    let mut board = Board::from_str(text, &game).unwrap();
    let mut rng = MaxRand::new();
    let mut food_buff = [0usize; MAX_BOARD_SIZE];
    let moves = Move::encode(&[Move::Down, Move::Right]);
    board.gen_board(moves, &game, &mut food_buff, &mut rng);
    assert!(board.snakes[0].alive());
    assert_eq!(board.snake_head(0), Coord::new(1, 1));
    assert!(!board.snakes[1].alive());
    assert!(board.snakes[1].eliminated);
    assert!(owns_no_square(&board, 1));
}

#[test]
fn eliminated_snake_leaves_no_square() {
    let game = std_game();
    let text = "
        turn: 3 health: 50 health: 50
        - - - - -
        - 1 - - -
        - ^ 0 - -
        - ^ ^ - -
        - c c - -
    ";
    let mut board = Board::from_str(text, &game).unwrap();
    let mut rng = MaxRand::new();
    let mut food_buff = [0usize; MAX_BOARD_SIZE];
    board.gen_board(Move::encode(&[Move::Left, Move::Up]), &game, &mut food_buff, &mut rng);
    assert!(board.snakes[0].eliminated);
    assert!(owns_no_square(&board, 0));
    assert!(!owns_no_square(&board, 1));
}

#[test]
fn encode_after_decode_keeps_low_bits() {
    let m: u16 = 0b1110_0100_1011_0001;
    assert_eq!(Move::encode(&Move::decode(m, 2)), m % 16);
    assert_eq!(Move::encode(&Move::decode(m, 5)), m % 1024);
    assert_eq!(Move::encode(&Move::decode(m, 8)), m);
}

#[test]
fn eating_leaves_neck_and_takes_food() {
    let mut game = std_game();
    game.api.ruleset.settings.minimum_food = 0;
    game.api.ruleset.settings.food_spawn_chance = 0;
    let text = "
        turn: 3 health: 50
        - - - - -
        - - - - -
        - 0 + - -
        - ^ - - -
        - c - - -
    ";
    let mut board = Board::from_str(text, &game).unwrap();
    assert_eq!(board.num_food, 1);
    let mut rng = MaxRand::new();
    let mut food_buff = [0usize; MAX_BOARD_SIZE];
    board.gen_board(Move::encode(&[Move::Right]), &game, &mut food_buff, &mut rng);
    assert_eq!(board.num_food, 0);
    assert_eq!(board.snake_head(0), Coord::new(2, 2));
    assert_eq!(board.at(Coord::new(1, 2)), BoardSquare::SnakeBody(0, Move::Right));
    assert_eq!(board.snakes[0].health, 100);
    assert_eq!(board.snakes[0].num_stacked, 1);
    assert!(!board.snakes[0].eliminated);
}

#[test]
fn head_onto_neck_loses() {
    let game = std_game();
    let text = "
        turn: 3 health: 50 health: 50
        - - - - -
        - - - - -
        - 0 1 - -
        - ^ ^ - -
        - c c - -
    ";
    let mut board = Board::from_str(text, &game).unwrap();
    let mut rng = MaxRand::new();
    let mut food_buff = [0usize; MAX_BOARD_SIZE];
    board.gen_board(Move::encode(&[Move::Up, Move::Left]), &game, &mut food_buff, &mut rng);
    assert!(board.snakes[0].alive());
    assert!(!board.snakes[0].eliminated);
    assert_eq!(board.snake_head(0), Coord::new(1, 3));
    assert_eq!(board.at(Coord::new(1, 2)), BoardSquare::SnakeBody(0, Move::Up));
    assert!(!board.snakes[1].alive());
    assert!(board.snakes[1].eliminated);
}

#[test]
fn empty_map_needs_no_shrink_period() {
    let mut game = game_with(GameMap::Empty, Rules::Royale, "royale");
    game.api.ruleset.settings.royale.shrink_every_n_turns = 0;
    let text = "
        turn: 3 health: 50 health: 50
        - - - - -
        - - - - -
        - 0 1 - -
        - ^ ^ - -
        - c c - -
    ";
    let mut board = Board::from_str(text, &game).unwrap();
    assert!(board.turn_playable(&game));
    let before = board.clone();
    let mut rng = FastRand::new();
    let mut food_buff = [0usize; MAX_BOARD_SIZE];
    board.update_board_asm(&game, &mut food_buff, &mut rng);
    assert_eq!(board, before);
    board.gen_board(Move::encode(&[Move::Up, Move::Up]), &game, &mut food_buff, &mut rng);
    assert_eq!(board.turn, 4);
}
