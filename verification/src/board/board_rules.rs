use vstd::prelude::*;

use crate::board::{
    count_alive, lemma_count_alive_bounds, abs, movable, spec_abs_dist, spec_move_to_coord, sq_hazard, sq_is_body, sq_is_head, sq_is_tail,
    sq_owner, Board, BoardSquare, HeadOnCol,
};
use crate::config::{MAX_BOARD_SIZE, MAX_SNAKES};
use crate::game::{Game, GameMap, Rules};
use crate::random::Rand;
use crate::util::{move_bits, move_index, move_of_index, Coord, Move};

verus! {

/// The hazard damage of a game.
pub open spec fn hazard_damage(game: &Game) -> int {
    game.api.ruleset.settings.hazard_damage_per_turn as int
}

/// The square that a snake's head reaches with a move.
pub open spec fn dest_of(b: &Board, game: &Game, s: int, mv: Move) -> Coord {
    spec_move_to_coord(b.snakes[s].head, mv, game.ruleset, b.width as int, b.height as int)
}

/// A move that does not leave the board and does not run into a head or a body;
/// a tail may be entered when it is not stacked, a tail in a hazard only by a
/// snake with health left after the hazard's damage.
pub open spec fn spec_valid_move(b: &Board, game: &Game, s: int, mv: Move) -> bool {
    let dest = dest_of(b, game, s, mv);
    if !b.in_bounds(dest) {
        false
    } else {
        let sq = b.square(dest);
        if sq_is_head(sq) || sq_is_body(sq) {
            false
        } else if sq_is_tail(sq) {
            let stacked = b.snakes[sq_owner(sq)->0 as int].num_stacked > 0;
            if !sq_hazard(sq) {
                !stacked
            } else {
                b.snakes[s].health - hazard_damage(game) > 0 && !stacked
            }
        } else {
            true
        }
    }
}

pub open spec fn any_valid_move(b: &Board, game: &Game, s: int) -> bool {
    exists|k: int| 0 <= k < 4 && #[trigger] spec_valid_move(b, game, s, move_of_index(k))
}

/// What a head reaching `dest` may meet: scanning the squares next to `dest` in
/// the order Left, Right, Up, Down from move `k` on, the first head of another
/// snake decides; a longer snake may eliminate it, a snake that is not longer
/// may collide.
pub open spec fn head_col_from(b: &Board, game: &Game, s: int, dest: Coord, k: int) -> HeadOnCol
    decreases 4 - k,
{
    if k >= 4 || k < 0 {
        HeadOnCol::NoCollision
    } else {
        let adj = spec_move_to_coord(
            dest,
            move_of_index(k),
            game.ruleset,
            b.width as int,
            b.height as int,
        );
        let sq = b.square(adj);
        if b.in_bounds(adj) && sq_is_head(sq) && sq_owner(sq)->0 as int != s {
            if b.snakes[s].len > b.snakes[sq_owner(sq)->0 as int].len {
                HeadOnCol::PossibleElimination
            } else {
                HeadOnCol::PossibleCollision
            }
        } else {
            head_col_from(b, game, s, dest, k + 1)
        }
    }
}

pub open spec fn spec_head_on_col(b: &Board, game: &Game, s: int, mv: Move) -> HeadOnCol {
    head_col_from(b, game, s, dest_of(b, game, s, mv), 0)
}

/// The sum of the two axis distances between two heads.
pub open spec fn head_dist(b: &Board, game: &Game, a: int, c: int) -> int {
    let d = spec_abs_dist(
        b.snakes[a].head,
        b.snakes[c].head,
        game.ruleset,
        b.width as int,
        b.height as int,
    );
    d.0 + d.1
}

/// The first snake among the first `n`, other than `s`, whose head is nearest
/// to the head of `s`.
pub open spec fn closest_from(b: &Board, game: &Game, s: int, n: int) -> Option<int>
    decreases n,
{
    if n <= 0 {
        None
    } else {
        let prev = closest_from(b, game, s, n - 1);
        if n - 1 == s {
            prev
        } else {
            match prev {
                None => Some(n - 1),
                Some(k) => if head_dist(b, game, s, n - 1) < head_dist(b, game, s, k) {
                    Some(n - 1)
                } else {
                    Some(k)
                },
            }
        }
    }
}

/// The snake that `closest_snake` picks among the first `n` is another one of
/// them whose head lies nearest to the head of `s` by the sum of the two axis
/// distances: no other snake among the first `n` has its head strictly nearer.
/// None is picked only when `s` is the only snake among the first `n`.
pub proof fn lemma_closest_nearest(b: &Board, game: &Game, s: int, n: int)
    ensures
        match closest_from(b, game, s, n) {
            Some(k) => 0 <= k < n && k != s && forall|t: int|
                0 <= t < n && t != s ==> spec_abs_dist(
                    b.snakes[s].head,
                    b.snakes[k].head,
                    game.ruleset,
                    b.width as int,
                    b.height as int,
                ).0 + spec_abs_dist(
                    b.snakes[s].head,
                    b.snakes[k].head,
                    game.ruleset,
                    b.width as int,
                    b.height as int,
                ).1 <= spec_abs_dist(
                    b.snakes[s].head,
                    #[trigger] b.snakes[t].head,
                    game.ruleset,
                    b.width as int,
                    b.height as int,
                ).0 + spec_abs_dist(
                    b.snakes[s].head,
                    b.snakes[t].head,
                    game.ruleset,
                    b.width as int,
                    b.height as int,
                ).1,
            None => n <= 0 || (n == 1 && s == 0),
        },
    decreases n,
{
    if n > 0 {
        lemma_closest_nearest(b, game, s, n - 1);
        lemma_closest_from_range(b, game, s, n - 1);
    }
}

proof fn lemma_closest_from_range(b: &Board, game: &Game, s: int, n: int)
    ensures
        closest_from(b, game, s, n) matches Some(k) ==> 0 <= k < n && k != s,
    decreases n,
{
    if n > 0 {
        lemma_closest_from_range(b, game, s, n - 1);
    }
}

impl Board {
    /// Whether a snake may make a move.
    pub fn valid_move(&self, game: &Game, snake_idx: usize, mv: Move) -> (b: bool)
        requires
            self.wf(),
            snake_idx < MAX_SNAKES,
        ensures
            b == spec_valid_move(self, game, snake_idx as int, mv),
    {
        let head = self.snake_head(snake_idx);
        let coord = self.move_to_coord(head, mv, game.ruleset);
        if !self.on_board(coord) {
            return false;
        }
        let sqr = self.at(coord);
        match sqr {
            BoardSquare::SnakeHead(_) | BoardSquare::SnakeHeadHazard(_) | BoardSquare::SnakeBody(
                _,
                _,
            )
            | BoardSquare::SnakeBodyHazard(_, _) => false,
            BoardSquare::SnakeTail(idx, _) => self.snakes[idx as usize].num_stacked <= 0,
            BoardSquare::SnakeTailHazard(idx, _) => {
                let stacked = self.snakes[idx as usize].num_stacked > 0;
                (self.snakes[snake_idx].health as i64
                    - game.api.ruleset.settings.hazard_damage_per_turn as i64) > 0 && !stacked
            },
            _ => true,
        }
    }

    /// Whether a snake has no valid move.
    pub fn is_trapped(&self, game: &Game, snake_idx: usize) -> (b: bool)
        requires
            self.wf(),
            snake_idx < MAX_SNAKES,
        ensures
            b == !any_valid_move(self, game, snake_idx as int),
    {
        let l = self.valid_move(game, snake_idx, Move::Left);
        let r = self.valid_move(game, snake_idx, Move::Right);
        let u = self.valid_move(game, snake_idx, Move::Up);
        let d = self.valid_move(game, snake_idx, Move::Down);
        proof {
            assert(move_of_index(0) == Move::Left);
            assert(move_of_index(1) == Move::Right);
            assert(move_of_index(2) == Move::Up);
            assert(move_of_index(3) == Move::Down);
            if l || r || u || d {
                if l {
                    assert(spec_valid_move(self, game, snake_idx as int, move_of_index(0)));
                } else if r {
                    assert(spec_valid_move(self, game, snake_idx as int, move_of_index(1)));
                } else if u {
                    assert(spec_valid_move(self, game, snake_idx as int, move_of_index(2)));
                } else {
                    assert(spec_valid_move(self, game, snake_idx as int, move_of_index(3)));
                }
            } else {
                assert forall|k: int| 0 <= k < 4 implies !#[trigger] spec_valid_move(
                    self,
                    game,
                    snake_idx as int,
                    move_of_index(k),
                ) by {
                    if k == 0 {
                    } else if k == 1 {
                    } else if k == 2 {
                    } else {
                    }
                }
            }
        }
        !l && !r && !u && !d
    }

    /// Whether a move may meet another snake's head: eliminating it if we are
    /// longer, colliding with it otherwise.
    pub fn head_on_col(&self, game: &Game, snake_idx: usize, mv: Move) -> (r: HeadOnCol)
        requires
            self.wf(),
            snake_idx < MAX_SNAKES,
        ensures
            r == spec_head_on_col(self, game, snake_idx as int, mv),
    {
        let snake_head = self.snake_head(snake_idx);
        let dest_square = self.move_to_coord(snake_head, mv, game.ruleset);
        let mut mv_idx: usize = 0;
        while mv_idx < 4
            invariant
                self.wf(),
                snake_idx < MAX_SNAKES,
                mv_idx <= 4,
                dest_square == dest_of(self, game, snake_idx as int, mv),
                movable(dest_square),
                game.ruleset is Wrapped ==> self.in_bounds(dest_square),
                spec_head_on_col(self, game, snake_idx as int, mv) == head_col_from(
                    self,
                    game,
                    snake_idx as int,
                    dest_square,
                    mv_idx as int,
                ),
            decreases 4 - mv_idx,
        {
            let adj_coord = self.move_to_coord(dest_square, Move::from_idx(mv_idx), game.ruleset);
            if self.on_board(adj_coord) {
                match self.at(adj_coord) {
                    BoardSquare::SnakeHead(idx) | BoardSquare::SnakeHeadHazard(idx) => {
                        if idx as usize != snake_idx {
                            let len_us = self.snake_len(snake_idx);
                            let len_other = self.snake_len(idx as usize);
                            if len_us > len_other {
                                return HeadOnCol::PossibleElimination;
                            } else {
                                return HeadOnCol::PossibleCollision;
                            }
                        }
                    },
                    _ => {},
                }
            }
            mv_idx = mv_idx + 1;
        }
        HeadOnCol::NoCollision
    }

    /// The head of the snake nearest to a snake's head, the first one when
    /// several are as near; `None` when there is no other snake.
    pub fn closest_snake(&self, game: &Game, snake_idx: usize) -> (r: Option<Coord>)
        requires
            self.wf(),
            snake_idx < MAX_SNAKES,
        ensures
            r == match closest_from(self, game, snake_idx as int, self.num_snakes as int) {
                Some(k) => Some(self.snakes[k].head),
                None => None::<Coord>,
            },
    {
        let mut min_abs_dist: i32 = i32::MAX;
        let mut closest: Option<Coord> = None;
        let ghost mut closest_idx: Option<int> = None;
        let snake_head = self.snake_head(snake_idx);
        let mut s_idx: usize = 0;
        while s_idx < self.num_snakes() as usize
            invariant
                self.wf(),
                snake_idx < MAX_SNAKES,
                s_idx <= self.num_snakes,
                snake_head == self.snakes[snake_idx as int].head,
                closest_idx == closest_from(self, game, snake_idx as int, s_idx as int),
                closest == match closest_idx {
                    Some(k) => Some(self.snakes[k].head),
                    None => None::<Coord>,
                },
                closest_idx matches Some(k) ==> 0 <= k < s_idx && min_abs_dist == head_dist(
                    self,
                    game,
                    snake_idx as int,
                    k,
                ),
                closest_idx is None ==> min_abs_dist == i32::MAX,
            decreases self.num_snakes - s_idx,
        {
            if s_idx != snake_idx {
                let other_head = self.snake_head(s_idx);
                let (dist_x, dist_y) = self.abs_dist(snake_head, other_head, game.ruleset);
                proof {
                    lemma_abs_dist_bounds(self, snake_head, other_head, game.ruleset);
                }
                let abs_dist = dist_x + dist_y;
                if abs_dist < min_abs_dist {
                    min_abs_dist = abs_dist;
                    closest = Some(other_head);
                    proof {
                        closest_idx = Some(s_idx as int);
                    }
                }
            }
            s_idx = s_idx + 1;
        }
        closest
    }

    /// The moves of snake `s` that qualify (valid moves when `class` is
    /// `None`, valid moves of that collision class otherwise), in the order
    /// Left, Right, Up, Down, as move indices.
    fn collect_moves(&self, game: &Game, snake_idx: usize, class: Option<HeadOnCol>) -> (r: ([usize; 4], i32))
        requires
            self.wf(),
            snake_idx < MAX_SNAKES,
        ensures
            0 <= r.1 <= 4,
            r.1 == moves_where(self, game, snake_idx as int, class, 4).len(),
            forall|i: int| 0 <= i < r.1 ==> #[trigger] r.0[i] < 4 && move_of_index(r.0[i] as int) == moves_where(
                self,
                game,
                snake_idx as int,
                class,
                4,
            )[i],
    {
        let mut moves: [usize; 4] = [0, 0, 0, 0];
        let mut n: i32 = 0;
        let mut mv_idx: usize = 0;
        proof {
            lemma_moves_where(self, game, snake_idx as int, class, 4);
        }
        while mv_idx < 4
            invariant
                self.wf(),
                snake_idx < MAX_SNAKES,
                mv_idx <= 4,
                n == moves_where(self, game, snake_idx as int, class, mv_idx as int).len(),
                n <= mv_idx,
                forall|i: int| 0 <= i < n ==> #[trigger] moves[i] < 4 && move_of_index(moves[i] as int) == moves_where(
                    self,
                    game,
                    snake_idx as int,
                    class,
                    mv_idx as int,
                )[i],
            decreases 4 - mv_idx,
        {
            let mv = Move::from_idx(mv_idx);
            let fits = if self.valid_move(game, snake_idx, mv) {
                match class {
                    None => true,
                    Some(c) => self.head_on_col(game, snake_idx, mv) == c,
                }
            } else {
                false
            };
            if fits {
                moves[n as usize] = mv_idx;
                n = n + 1;
            }
            mv_idx = mv_idx + 1;
        }
        (moves, n)
    }

    /// The move that a draw picks among the valid moves of snake `s`: the
    /// valid move at position `draw` in the order Left, Right, Up, Down, and
    /// Left when there is none at that position.
    pub fn pick_move(&self, game: &Game, snake_idx: usize, draw: i32) -> (mv: Move)
        requires
            self.wf(),
            snake_idx < MAX_SNAKES,
        ensures
            mv == pick_from(moves_where(self, game, snake_idx as int, None, 4), draw as int),
    {
        let (moves, n) = self.collect_moves(game, snake_idx, None);
        if 0 <= draw && draw < n {
            Move::from_idx(moves[draw as usize])
        } else {
            Move::Left
        }
    }

    /// A random valid move of snake `s`, Left when it has none.
    pub fn gen_move<R: Rand>(&self, game: &Game, snake_idx: usize, rng: &mut R) -> (mv: Move)
        requires
            self.wf(),
            snake_idx < MAX_SNAKES,
        ensures
            any_valid_move(self, game, snake_idx as int) ==> spec_valid_move(
                self,
                game,
                snake_idx as int,
                mv,
            ),
            !any_valid_move(self, game, snake_idx as int) ==> mv == Move::Left,
            exists|draw: int|
                (moves_where(self, game, snake_idx as int, None, 4).len() > 0 ==> R::range_gives(
                    0,
                    moves_where(self, game, snake_idx as int, None, 4).len() - 1,
                    draw,
                )) && #[trigger] pick_from(moves_where(self, game, snake_idx as int, None, 4), draw) == mv,
            moves_where(self, game, snake_idx as int, None, 4).len() == 0 ==> *final(rng) == *old(rng),
            move_drawn::<R>(self, game, snake_idx as int, mv),
    {
        let (moves, n) = self.collect_moves(game, snake_idx, None);
        proof {
            lemma_moves_where(self, game, snake_idx as int, None, 4);
        }
        if n > 0 {
            let draw = rng.range(0, n - 1);
            let mv = Move::from_idx(moves[draw as usize]);
            assert(pick_from(moves_where(self, game, snake_idx as int, None, 4), draw as int) == mv);
            mv
        } else {
            assert(pick_from(moves_where(self, game, snake_idx as int, None, 4), 0) == Move::Left);
            Move::Left
        }
    }

    /// The move that a draw picks among the strongest moves of snake `s`: the
    /// moves that may eliminate a shorter snake if there are any, else those that
    /// meet no head, else those that may collide; the move at position `draw`
    /// among them, and Left when there is none at that position.
    pub fn pick_strong_move(&self, game: &Game, snake_idx: usize, draw: i32) -> (mv: Move)
        requires
            self.wf(),
            snake_idx < MAX_SNAKES,
        ensures
            mv == pick_from(strong_moves(self, game, snake_idx as int), draw as int),
    {
        let (moves, n) = self.strong_list(game, snake_idx);
        if 0 <= draw && draw < n {
            Move::from_idx(moves[draw as usize])
        } else {
            Move::Left
        }
    }

    fn strong_list(&self, game: &Game, snake_idx: usize) -> (r: ([usize; 4], i32))
        requires
            self.wf(),
            snake_idx < MAX_SNAKES,
        ensures
            0 <= r.1 <= 4,
            r.1 == strong_moves(self, game, snake_idx as int).len(),
            forall|i: int| 0 <= i < r.1 ==> #[trigger] r.0[i] < 4 && move_of_index(r.0[i] as int) == strong_moves(
                self,
                game,
                snake_idx as int,
            )[i],
    {
        let good = self.collect_moves(game, snake_idx, Some(HeadOnCol::PossibleElimination));
        if good.1 > 0 {
            return good;
        }
        let neutral = self.collect_moves(game, snake_idx, Some(HeadOnCol::NoCollision));
        if neutral.1 > 0 {
            return neutral;
        }
        self.collect_moves(game, snake_idx, Some(HeadOnCol::PossibleCollision))
    }

    /// A random move among the strongest moves of snake `s` (see
    /// `pick_strong_move`); the generator is asked only when there are several.
    pub fn gen_strong_move<R: Rand>(&self, game: &Game, snake_idx: usize, rng: &mut R) -> (mv: Move)
        requires
            self.wf(),
            snake_idx < MAX_SNAKES,
        ensures
            strong_choice(self, game, snake_idx as int, mv),
            exists|draw: int|
                (if strong_moves(self, game, snake_idx as int).len() > 1 {
                    R::range_gives(0, strong_moves(self, game, snake_idx as int).len() - 1, draw)
                } else {
                    draw == 0
                }) && #[trigger] pick_from(strong_moves(self, game, snake_idx as int), draw) == mv,
            strong_moves(self, game, snake_idx as int).len() <= 1 ==> *final(rng) == *old(rng),
            strong_drawn::<R>(self, game, snake_idx as int, mv),
    {
        let ghost s = snake_idx as int;
        let (moves, n) = self.strong_list(game, snake_idx);
        proof {
            lemma_moves_where(self, game, s, Some(HeadOnCol::PossibleElimination), 4);
            lemma_moves_where(self, game, s, Some(HeadOnCol::NoCollision), 4);
            lemma_moves_where(self, game, s, Some(HeadOnCol::PossibleCollision), 4);
        }
        let draw: i32 = if n > 1 {
            rng.range(0, n - 1)
        } else {
            0
        };
        let mv = if 0 <= draw && draw < n {
            Move::from_idx(moves[draw as usize])
        } else {
            Move::Left
        };
        assert(pick_from(strong_moves(self, game, s), draw as int) == mv);
        proof {
            if n == 0 {
                assert forall|k: int| 0 <= k < 4 implies !#[trigger] spec_valid_move(self, game, s, move_of_index(k)) by {
                    assert(!in_class(self, game, s, move_of_index(k), HeadOnCol::PossibleElimination));
                    assert(!in_class(self, game, s, move_of_index(k), HeadOnCol::NoCollision));
                    assert(!in_class(self, game, s, move_of_index(k), HeadOnCol::PossibleCollision));
                    let c = spec_head_on_col(self, game, s, move_of_index(k));
                    assert(c == HeadOnCol::PossibleElimination || c == HeadOnCol::NoCollision || c
                        == HeadOnCol::PossibleCollision);
                }
            }
        }
        mv
    }
}

/// A valid move whose head-on outlook is `class`.
/// The moves among the first `k` (in index order) that are valid, and of the
/// given collision class when one is given.
pub open spec fn moves_where(b: &Board, game: &Game, s: int, class: Option<HeadOnCol>, k: int) -> Seq<Move>
    decreases k,
{
    if k <= 0 {
        Seq::empty()
    } else {
        let prev = moves_where(b, game, s, class, k - 1);
        let mv = move_of_index(k - 1);
        let fits = match class {
            None => spec_valid_move(b, game, s, mv),
            Some(c) => in_class(b, game, s, mv, c),
        };
        if fits {
            prev.push(mv)
        } else {
            prev
        }
    }
}

/// The moves that qualify hold the class, and there are none only when no move
/// qualifies.
proof fn lemma_moves_where(b: &Board, game: &Game, s: int, class: Option<HeadOnCol>, k: int)
    requires
        0 <= k <= 4,
    ensures
        forall|i: int| 0 <= i < moves_where(b, game, s, class, k).len() ==> match class {
            None => spec_valid_move(b, game, s, #[trigger] moves_where(b, game, s, class, k)[i]),
            Some(c) => in_class(b, game, s, moves_where(b, game, s, class, k)[i], c),
        },
        moves_where(b, game, s, class, k).len() == 0 <==> forall|j: int| 0 <= j < k ==> !match class {
            None => spec_valid_move(b, game, s, #[trigger] move_of_index(j)),
            Some(c) => in_class(b, game, s, move_of_index(j), c),
        },
        moves_where(b, game, s, class, k).len() <= k,
    decreases k,
{
    if k > 0 {
        lemma_moves_where(b, game, s, class, k - 1);
    }
}

/// The move at position `draw` of a list, Left when there is none.
pub open spec fn pick_from(list: Seq<Move>, draw: int) -> Move {
    if 0 <= draw < list.len() {
        list[draw]
    } else {
        Move::Left
    }
}

/// The strongest moves of snake `s`: those that may eliminate a shorter snake,
/// else those that meet no head, else those that may collide.
pub open spec fn strong_moves(b: &Board, game: &Game, s: int) -> Seq<Move> {
    let good = moves_where(b, game, s, Some(HeadOnCol::PossibleElimination), 4);
    let neutral = moves_where(b, game, s, Some(HeadOnCol::NoCollision), 4);
    if good.len() > 0 {
        good
    } else if neutral.len() > 0 {
        neutral
    } else {
        moves_where(b, game, s, Some(HeadOnCol::PossibleCollision), 4)
    }
}

pub open spec fn in_class(b: &Board, game: &Game, s: int, mv: Move, class: HeadOnCol) -> bool {
    spec_valid_move(b, game, s, mv) && spec_head_on_col(b, game, s, mv) == class
}

pub open spec fn class_exists(b: &Board, game: &Game, s: int, class: HeadOnCol) -> bool {
    exists|k: int| 0 <= k < 4 && #[trigger] in_class(b, game, s, move_of_index(k), class)
}

/// The choice of the strong playout policy: a move of the best class that has
/// one, Left when no move is valid.
pub open spec fn strong_choice(b: &Board, game: &Game, s: int, mv: Move) -> bool {
    if class_exists(b, game, s, HeadOnCol::PossibleElimination) {
        in_class(b, game, s, mv, HeadOnCol::PossibleElimination)
    } else if class_exists(b, game, s, HeadOnCol::NoCollision) {
        in_class(b, game, s, mv, HeadOnCol::NoCollision)
    } else if class_exists(b, game, s, HeadOnCol::PossibleCollision) {
        in_class(b, game, s, mv, HeadOnCol::PossibleCollision)
    } else {
        mv == Move::Left
    }
}

/// A move that `gen_move` can give for snake `s` with a draw of the generator
/// `R`: a valid move when there is one, else Left, picked from the valid moves
/// by a draw that `R` can make.
pub open spec fn move_drawn<R: Rand>(b: &Board, game: &Game, s: int, mv: Move) -> bool {
    let list = moves_where(b, game, s, None, 4);
    &&& any_valid_move(b, game, s) ==> spec_valid_move(b, game, s, mv)
    &&& !any_valid_move(b, game, s) ==> mv == Move::Left
    &&& exists|draw: int|
        (list.len() > 0 ==> R::range_gives(0, list.len() - 1, draw)) && #[trigger] pick_from(list, draw) == mv
}

/// A move that `gen_strong_move` can give for snake `s` with a draw of the
/// generator `R`: one of the strongest moves, picked by a draw that `R` can
/// make when there are several.
pub open spec fn strong_drawn<R: Rand>(b: &Board, game: &Game, s: int, mv: Move) -> bool {
    let list = strong_moves(b, game, s);
    &&& strong_choice(b, game, s, mv)
    &&& exists|draw: int|
        (if list.len() > 1 {
            R::range_gives(0, list.len() - 1, draw)
        } else {
            draw == 0
        }) && #[trigger] pick_from(list, draw) == mv
}

/// The move of snake `s` in a set of encoded moves.
pub open spec fn snake_move(moves: u16, s: int) -> Move {
    move_of_index(move_bits(moves, s as nat) as int)
}

/// The square `c` holds the head of snake `s`.
pub open spec fn owns_head(b: &Board, s: int, c: Coord) -> bool {
    b.in_bounds(c) && sq_is_head(b.square(c)) && sq_owner(b.square(c)) == Some(s as u8)
}

/// The fields that a stage of the rules leaves alone.
pub open spec fn same_frame(a: &Board, b: &Board) -> bool {
    &&& a.width == b.width
    &&& a.height == b.height
    &&& a.num_snakes == b.num_snakes
    &&& a.turn == b.turn
    &&& a.royale_min_x == b.royale_min_x
    &&& a.royale_max_x == b.royale_max_x
    &&& a.royale_min_y == b.royale_min_y
    &&& a.royale_max_y == b.royale_max_y
}

/// Health and length limits under which the health stage cannot overflow.
pub open spec fn health_fits(b: &Board, game: &Game) -> bool {
    forall|s: int|
        0 <= s < MAX_SNAKES ==> {
            &&& #[trigger] b.snakes[s].len < i32::MAX - 1
            &&& b.snakes[s].num_stacked < i32::MAX
            &&& b.snakes[s].health - 1 - hazard_damage(game) <= i32::MAX
        }
}

/// Turn, food, health and length limits under which one turn cannot overflow.
pub open spec fn turn_fits(b: &Board, game: &Game) -> bool {
    &&& b.turn < i32::MAX
    &&& i32::MIN + MAX_SNAKES <= b.num_food <= i32::MAX - MAX_BOARD_SIZE
    &&& health_fits(b, game)
}

proof fn lemma_abs_dist_bounds(b: &Board, a: Coord, c: Coord, rules: Rules)
    requires
        b.wf(),
        b.in_bounds(a),
        b.in_bounds(c),
    ensures
        0 <= spec_abs_dist(a, c, rules, b.width as int, b.height as int).0 < MAX_BOARD_SIZE,
        0 <= spec_abs_dist(a, c, rules, b.width as int, b.height as int).1 < MAX_BOARD_SIZE,
{
}


/// Whether a search prunes move `mv` of snake `s`: an invalid move while the
/// snake has a valid one, or, for a trapped snake, any move but Left (which
/// stands for its death).
pub open spec fn move_pruned_spec(b: &Board, game: &Game, s: int, mv: Move) -> bool {
    if any_valid_move(b, game, s) {
        !spec_valid_move(b, game, s, mv)
    } else {
        mv != Move::Left
    }
}

/// The move of snake `s` in move permutation `perm`: the digit (in base 4) at
/// the position of `s` among the snakes with health.
pub open spec fn perm_move(b: &Board, perm: u16, s: int) -> Move {
    move_of_index(move_bits(perm, count_alive(b.snakes@, s) as nat) as int)
}

/// Whether permutation `perm` has a pruned move for a snake with health.
pub open spec fn perm_pruned(b: &Board, game: &Game, perm: u16) -> bool {
    exists|s: int| 0 <= s < b.num_snakes && b.snakes[s].health > 0 && #[trigger] move_pruned_spec(b, game, s, perm_move(b, perm, s))
}

impl Board {
    /// Whether a search prunes move `mv` of snake `s` (see `move_pruned_spec`).
    pub fn move_pruned(&self, game: &Game, snake_idx: usize, mv: Move) -> (r: bool)
        requires
            self.wf(),
            snake_idx < MAX_SNAKES,
        ensures
            r == move_pruned_spec(self, game, snake_idx as int, mv),
    {
        if self.is_trapped(game, snake_idx) {
            mv != Move::Left
        } else {
            !self.valid_move(game, snake_idx, mv)
        }
    }

    /// The joint moves that move permutation `perm` stands for, encoded by
    /// snake slot (snakes without health keep Left); `None` when it holds a
    /// pruned move.
    pub fn perm_moves(&self, game: &Game, perm: u16) -> (r: Option<u16>)
        requires
            self.wf(),
        ensures
            r is None <==> perm_pruned(self, game, perm),
            r matches Some(m) ==> forall|s: int|
                0 <= s < MAX_SNAKES ==> #[trigger] move_bits(m, s as nat) == if s < self.num_snakes
                    && self.snakes[s].health > 0 {
                    move_index(perm_move(self, perm, s)) as int
                } else {
                    0
                },
    {
        let mut moves: u16 = 0;
        let mut alive_index: u32 = 0;
        let mut s: usize = 0;
        assert forall|j: nat| j < 8 implies #[trigger] move_bits(0u16, j) == 0 by {
            let sh = (2 * j) as u16;
            assert((0u16 >> sh) & 3u16 == 0) by (bit_vector);
        }
        while s < self.num_snakes as usize
            invariant
                self.wf(),
                s <= self.num_snakes,
                alive_index == count_alive(self.snakes@, s as int),
                alive_index <= s,
                forall|j: int|
                    0 <= j < s && self.snakes[j].health > 0 ==> !#[trigger] move_pruned_spec(
                        self,
                        game,
                        j,
                        perm_move(self, perm, j),
                    ),
                forall|j: nat|
                    j < 8 ==> #[trigger] move_bits(moves, j) == if j < s && self.snakes[j as int].health > 0 {
                        move_index(perm_move(self, perm, j as int)) as int
                    } else {
                        0
                    },
            decreases self.num_snakes - s,
        {
            if self.snakes[s].alive() {
                let mv = Move::from_idx(Move::extract_idx(perm, alive_index) as usize);
                assert(mv == perm_move(self, perm, s as int));
                if self.move_pruned(game, s, mv) {
                    return None;
                }
                moves = Move::set_move(moves, s as u32, mv);
                alive_index = alive_index + 1;
            }
            s = s + 1;
        }
        assert forall|j: int| 0 <= j < MAX_SNAKES implies #[trigger] move_bits(moves, j as nat) == if j < self.num_snakes
            && self.snakes[j].health > 0 {
            move_index(perm_move(self, perm, j)) as int
        } else {
            0
        } by {
            assert(move_bits(moves, j as nat) == if (j as nat) < s && self.snakes[j].health > 0 {
                move_index(perm_move(self, perm, j)) as int
            } else {
                0
            });
        }
        Some(moves)
    }
}

} // verus!
