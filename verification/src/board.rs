use vstd::prelude::*;

use crate::config::{MAX_BOARD_SIZE, MAX_SNAKES};
use crate::game::{GameMap, Rules};
use crate::util::{move_index, Coord, Move};

pub mod board_rules;
pub mod board_turn;
pub mod board_api;
pub mod board_str;
pub mod board_simd;
pub mod board_text;

verus! {

/// The contents of one square. Snake squares carry the index of their snake;
/// body and tail squares also carry the move that leads to the next segment
/// towards the head.
#[derive(Copy, Clone, Debug, PartialEq, Eq, Structural)]
pub enum BoardSquare {
    Empty,
    SnakeHead(u8),
    SnakeHeadHazard(u8),
    SnakeBody(u8, Move),
    SnakeBodyHazard(u8, Move),
    SnakeTail(u8, Move),
    SnakeTailHazard(u8, Move),
    Food,
    FoodHazard,
    Hazard,
}

/// Whether a square lies in a hazard.
pub open spec fn sq_hazard(s: BoardSquare) -> bool {
    match s {
        BoardSquare::SnakeHeadHazard(_) => true,
        BoardSquare::SnakeBodyHazard(_, _) => true,
        BoardSquare::SnakeTailHazard(_, _) => true,
        BoardSquare::FoodHazard => true,
        BoardSquare::Hazard => true,
        _ => false,
    }
}

/// The snake that a square belongs to, if any.
pub open spec fn sq_owner(s: BoardSquare) -> Option<u8> {
    match s {
        BoardSquare::SnakeHead(i) => Some(i),
        BoardSquare::SnakeHeadHazard(i) => Some(i),
        BoardSquare::SnakeBody(i, _) => Some(i),
        BoardSquare::SnakeBodyHazard(i, _) => Some(i),
        BoardSquare::SnakeTail(i, _) => Some(i),
        BoardSquare::SnakeTailHazard(i, _) => Some(i),
        _ => None,
    }
}

pub open spec fn sq_is_head(s: BoardSquare) -> bool {
    s is SnakeHead || s is SnakeHeadHazard
}

pub open spec fn sq_is_body(s: BoardSquare) -> bool {
    s is SnakeBody || s is SnakeBodyHazard
}

pub open spec fn sq_is_tail(s: BoardSquare) -> bool {
    s is SnakeTail || s is SnakeTailHazard
}

pub open spec fn sq_is_food(s: BoardSquare) -> bool {
    s is Food || s is FoodHazard
}

/// A square whose snake index, if it has one, names one of the snake slots.
pub open spec fn sq_owner_ok(s: BoardSquare) -> bool {
    match sq_owner(s) {
        Some(i) => i < MAX_SNAKES,
        None => true,
    }
}

/// The square with the same contents and the given hazard flag.
pub open spec fn sq_with_hazard(s: BoardSquare, hazard: bool) -> BoardSquare {
    match s {
        BoardSquare::Empty | BoardSquare::Hazard => if hazard {
            BoardSquare::Hazard
        } else {
            BoardSquare::Empty
        },
        BoardSquare::Food | BoardSquare::FoodHazard => if hazard {
            BoardSquare::FoodHazard
        } else {
            BoardSquare::Food
        },
        BoardSquare::SnakeHead(i) | BoardSquare::SnakeHeadHazard(i) => if hazard {
            BoardSquare::SnakeHeadHazard(i)
        } else {
            BoardSquare::SnakeHead(i)
        },
        BoardSquare::SnakeBody(i, m) | BoardSquare::SnakeBodyHazard(i, m) => if hazard {
            BoardSquare::SnakeBodyHazard(i, m)
        } else {
            BoardSquare::SnakeBody(i, m)
        },
        BoardSquare::SnakeTail(i, m) | BoardSquare::SnakeTailHazard(i, m) => if hazard {
            BoardSquare::SnakeTailHazard(i, m)
        } else {
            BoardSquare::SnakeTail(i, m)
        },
    }
}

impl BoardSquare {
    pub fn is_hazard(&self) -> (b: bool)
        ensures
            b == sq_hazard(*self),
    {
        match self {
            BoardSquare::SnakeHeadHazard(_) => true,
            BoardSquare::SnakeBodyHazard(_, _) => true,
            BoardSquare::SnakeTailHazard(_, _) => true,
            BoardSquare::FoodHazard => true,
            BoardSquare::Hazard => true,
            _ => false,
        }
    }

    pub fn with_hazard(&self, hazard: bool) -> (s: BoardSquare)
        ensures
            s == sq_with_hazard(*self, hazard),
    {
        match *self {
            BoardSquare::Empty | BoardSquare::Hazard => if hazard {
                BoardSquare::Hazard
            } else {
                BoardSquare::Empty
            },
            BoardSquare::Food | BoardSquare::FoodHazard => if hazard {
                BoardSquare::FoodHazard
            } else {
                BoardSquare::Food
            },
            BoardSquare::SnakeHead(i) | BoardSquare::SnakeHeadHazard(i) => if hazard {
                BoardSquare::SnakeHeadHazard(i)
            } else {
                BoardSquare::SnakeHead(i)
            },
            BoardSquare::SnakeBody(i, m) | BoardSquare::SnakeBodyHazard(i, m) => if hazard {
                BoardSquare::SnakeBodyHazard(i, m)
            } else {
                BoardSquare::SnakeBody(i, m)
            },
            BoardSquare::SnakeTail(i, m) | BoardSquare::SnakeTailHazard(i, m) => if hazard {
                BoardSquare::SnakeTailHazard(i, m)
            } else {
                BoardSquare::SnakeTail(i, m)
            },
        }
    }
}

/// A possible head-on collision of a move.
#[derive(Copy, Clone, Debug, PartialEq, Eq, Structural)]
pub enum HeadOnCol {
    NoCollision,
    PossibleCollision,
    PossibleElimination,
}

#[derive(Copy, Clone, Debug, PartialEq, Eq, Structural)]
pub struct Snake {
    pub health: i32,
    pub eliminated: bool,
    pub len: i32,
    pub tail: Coord,
    pub num_stacked: i32,
    pub head: Coord,
    pub old_head: Coord,
}

pub open spec fn origin() -> Coord {
    Coord { x: 0, y: 0 }
}

pub open spec fn empty_snake() -> Snake {
    Snake {
        health: 0,
        eliminated: false,
        len: 0,
        head: origin(),
        tail: origin(),
        num_stacked: 0,
        old_head: origin(),
    }
}

impl Default for Snake {
    fn default() -> (s: Self)
        ensures
            s == empty_snake(),
    {
        Self::new()
    }
}

impl Snake {
    pub fn new() -> (s: Self)
        ensures
            s == empty_snake(),
    {
        Self {
            health: 0,
            eliminated: false,
            len: 0,
            head: Coord::new(0, 0),
            tail: Coord::new(0, 0),
            num_stacked: 0,
            old_head: Coord::new(0, 0),
        }
    }

    pub fn alive(&self) -> (b: bool)
        ensures
            b == (self.health > 0),
    {
        self.health > 0
    }
}

/// Whether a coordinate lies on a board of the given size.
pub open spec fn in_grid(c: Coord, w: int, h: int) -> bool {
    0 <= c.x < w && 0 <= c.y < h
}

/// The position of a coordinate in the row-major square array.
pub open spec fn grid_index(c: Coord, w: int) -> int {
    c.x + c.y * w
}

pub proof fn lemma_grid_index(c: Coord, w: int, h: int)
    requires
        in_grid(c, w, h),
        w * h <= MAX_BOARD_SIZE,
    ensures
        0 <= grid_index(c, w) < w * h,
        grid_index(c, w) < MAX_BOARD_SIZE,
{
    assert(c.y * w <= (h - 1) * w) by (nonlinear_arith)
        requires
            0 <= c.y < h,
            0 < w,
    ;
    assert(c.y * w >= 0) by (nonlinear_arith)
        requires
            0 <= c.y,
            0 < w,
    ;
    assert((h - 1) * w == w * h - w) by (nonlinear_arith);
}

/// Different on-board coordinates have different positions in the square array.
pub proof fn lemma_grid_index_injective(a: Coord, b: Coord, w: int, h: int)
    requires
        in_grid(a, w, h),
        in_grid(b, w, h),
        a != b,
    ensures
        grid_index(a, w) != grid_index(b, w),
{
    if a.y == b.y {
        assert(a.x != b.x);
    } else if a.y < b.y {
        assert(a.y * w + w <= b.y * w) by (nonlinear_arith)
            requires
                a.y < b.y,
                0 < w,
        ;
    } else {
        assert(b.y * w + w <= a.y * w) by (nonlinear_arith)
            requires
                b.y < a.y,
                0 < w,
        ;
    }
}

/// A coordinate one step in the direction of a move, wrapped around the
/// board edges when the rules wrap.
pub open spec fn spec_move_to_coord(c: Coord, mv: Move, rules: Rules, w: int, h: int) -> Coord {
    let x = match mv {
        Move::Left => c.x - 1,
        Move::Right => c.x + 1,
        _ => c.x as int,
    };
    let y = match mv {
        Move::Up => c.y + 1,
        Move::Down => c.y - 1,
        _ => c.y as int,
    };
    if rules is Wrapped {
        Coord { x: (x % w) as i8, y: (y % h) as i8 }
    } else {
        Coord { x: x as i8, y: y as i8 }
    }
}

/// The signed distance along one axis, the shorter way round when the board
/// wraps.
pub open spec fn axis_diff(o: int, d: int, n: int, wrapped: bool) -> int {
    let diff = d - o;
    if !wrapped {
        diff
    } else {
        let alt = if diff < 0 {
            n - o + d
        } else {
            -(o + n - d)
        };
        if abs(alt) < abs(diff) {
            alt
        } else {
            diff
        }
    }
}

pub open spec fn abs(v: int) -> int {
    if v < 0 {
        -v
    } else {
        v
    }
}

pub open spec fn x_move(d: int) -> Option<Move> {
    if d > 0 {
        Some(Move::Right)
    } else if d < 0 {
        Some(Move::Left)
    } else {
        None
    }
}

pub open spec fn y_move(d: int) -> Option<Move> {
    if d > 0 {
        Some(Move::Up)
    } else if d < 0 {
        Some(Move::Down)
    } else {
        None
    }
}

/// The moves that lead from one square towards another: the move along the
/// longer axis first (x when both are as long), then the move along the other.
pub open spec fn spec_coord_to_move(o: Coord, d: Coord, rules: Rules, w: int, h: int) -> (
    Option<Move>,
    Option<Move>,
) {
    let dx = axis_diff(o.x as int, d.x as int, w, rules is Wrapped);
    let dy = axis_diff(o.y as int, d.y as int, h, rules is Wrapped);
    if abs(dx) >= abs(dy) {
        (x_move(dx), y_move(dy))
    } else {
        (y_move(dy), x_move(dx))
    }
}

/// The distance along one axis, the shorter way round when the board wraps.
pub open spec fn axis_dist(a: int, b: int, n: int, wrapped: bool) -> int {
    let d = abs(b - a);
    if wrapped && n - d < d {
        n - d
    } else {
        d
    }
}

pub open spec fn spec_abs_dist(a: Coord, b: Coord, rules: Rules, w: int, h: int) -> (int, int) {
    (axis_dist(a.x as int, b.x as int, w, rules is Wrapped), axis_dist(a.y as int, b.y as int, h, rules is Wrapped))
}

pub open spec fn spec_next_to(a: Coord, b: Coord, rules: Rules, w: int, h: int) -> bool {
    let d = spec_abs_dist(a, b, rules, w, h);
    (d.0 == 1 && d.1 == 0) || (d.0 == 0 && d.1 == 1)
}

/// A coordinate that a one-step move from it cannot overflow.
pub open spec fn movable(c: Coord) -> bool {
    -127 <= c.x <= 126 && -127 <= c.y <= 126
}

/// The number of snakes with health left among the first `n`.
pub open spec fn count_alive(snakes: Seq<Snake>, n: int) -> int
    decreases n,
{
    if n <= 0 {
        0
    } else {
        count_alive(snakes, n - 1) + if snakes[n - 1].health > 0 {
            1int
        } else {
            0
        }
    }
}

pub proof fn lemma_count_alive_bounds(snakes: Seq<Snake>, n: int)
    requires
        0 <= n,
    ensures
        0 <= count_alive(snakes, n) <= n,
    decreases n,
{
    if n > 0 {
        lemma_count_alive_bounds(snakes, n - 1);
    }
}

#[derive(Clone, Debug, PartialEq, Eq)]
pub struct Board {
    pub width: i32,
    pub height: i32,
    pub turn: i32,
    pub num_snakes: i32,
    pub num_food: i32,
    pub royale_min_x: i32,
    pub royale_max_x: i32,
    pub royale_min_y: i32,
    pub royale_max_y: i32,
    pub snakes: [Snake; MAX_SNAKES],
    pub board_mat: [BoardSquare; MAX_BOARD_SIZE],
}

impl Board {
    /// The squares in row-major order.
    pub open spec fn cells(&self) -> Seq<BoardSquare> {
        self.board_mat@
    }

    pub open spec fn square(&self, c: Coord) -> BoardSquare {
        self.cells()[grid_index(c, self.width as int)]
    }

    pub open spec fn in_bounds(&self, c: Coord) -> bool {
        in_grid(c, self.width as int, self.height as int)
    }

    pub open spec fn dims_ok(&self) -> bool {
        &&& 1 <= self.width <= MAX_BOARD_SIZE
        &&& 1 <= self.height <= MAX_BOARD_SIZE
        &&& self.width * self.height <= MAX_BOARD_SIZE
    }

    pub open spec fn area(&self) -> int {
        self.width * self.height
    }

    /// The board's own consistency: sizes, snake count, snake indices in the
    /// squares, snake ends and royale bounds on the board.
    pub open spec fn wf(&self) -> bool {
        &&& self.dims_ok()
        &&& 0 <= self.num_snakes <= MAX_SNAKES
        &&& self.cells().len() == MAX_BOARD_SIZE
        &&& forall|i: int| 0 <= i < MAX_BOARD_SIZE ==> sq_owner_ok(#[trigger] self.cells()[i])
        &&& forall|s: int|
            0 <= s < MAX_SNAKES ==> self.in_bounds(#[trigger] self.snakes[s].head)
                && self.in_bounds(self.snakes[s].tail)
        &&& 0 <= self.royale_min_x && self.royale_max_x < self.width
        &&& 0 <= self.royale_min_y && self.royale_max_y < self.height
    }

    /// All fields but the squares are those of `other`.
    pub open spec fn same_fields(&self, other: &Board) -> bool {
        &&& self.width == other.width
        &&& self.height == other.height
        &&& self.turn == other.turn
        &&& self.num_snakes == other.num_snakes
        &&& self.num_food == other.num_food
        &&& self.royale_min_x == other.royale_min_x
        &&& self.royale_max_x == other.royale_max_x
        &&& self.royale_min_y == other.royale_min_y
        &&& self.royale_max_y == other.royale_max_y
        &&& self.snakes == other.snakes
    }
    pub fn new(width: i32, height: i32) -> (b: Self)
        ensures
            b.width == width,
            b.height == height,
            b.turn == 1,
            b.num_snakes == 0,
            b.num_food == 0,
            b.royale_min_x == 0 && b.royale_max_x == 0,
            b.royale_min_y == 0 && b.royale_max_y == 0,
            forall|s: int| 0 <= s < MAX_SNAKES ==> #[trigger] b.snakes[s] == empty_snake(),
            b.cells() == Seq::new(MAX_BOARD_SIZE as nat, |i: int| BoardSquare::Empty),
            1 <= width <= MAX_BOARD_SIZE && 1 <= height <= MAX_BOARD_SIZE && width * height
                <= MAX_BOARD_SIZE ==> b.wf(),
    {
        let s = Snake::new();
        let b = Self {
            width,
            height,
            turn: 1,
            num_snakes: 0,
            num_food: 0,
            royale_min_x: 0,
            royale_max_x: 0,
            royale_min_y: 0,
            royale_max_y: 0,
            snakes: [s, s, s, s],
            board_mat: [BoardSquare::Empty; MAX_BOARD_SIZE],
        };
        assert(b.cells() =~= Seq::new(MAX_BOARD_SIZE as nat, |i: int| BoardSquare::Empty));
        b
    }

    pub fn num_snakes(&self) -> (n: i32)
        ensures
            n == self.num_snakes,
    {
        self.num_snakes
    }

    /// The number of snakes that are still alive.
    pub open spec fn alive_count(&self) -> int {
        count_alive(self.snakes@, self.num_snakes as int)
    }

    pub fn num_alive_snakes(&self) -> (n: i32)
        requires
            0 <= self.num_snakes <= MAX_SNAKES,
        ensures
            n == self.alive_count(),
            0 <= n <= self.num_snakes,
    {
        let mut alive: i32 = 0;
        let mut s_idx: usize = 0;
        while s_idx < self.num_snakes as usize
            invariant
                0 <= self.num_snakes <= MAX_SNAKES,
                s_idx <= self.num_snakes,
                alive == count_alive(self.snakes@, s_idx as int),
                0 <= alive <= s_idx,
            decreases self.num_snakes - s_idx,
        {
            if self.snakes[s_idx].alive() {
                alive = alive + 1;
            }
            s_idx = s_idx + 1;
        }
        alive
    }

    pub fn max_snakes(&self) -> (n: i32)
        ensures
            n == MAX_SNAKES,
    {
        MAX_SNAKES as i32
    }

    pub fn num_food(&self) -> (n: i32)
        ensures
            n == self.num_food,
    {
        self.num_food
    }

    pub fn len(&self) -> (n: i32)
        requires
            self.dims_ok(),
        ensures
            n == self.width * self.height,
    {
        self.width * self.height
    }

    pub fn snake_head(&self, snake_idx: usize) -> (c: Coord)
        requires
            snake_idx < MAX_SNAKES,
        ensures
            c == self.snakes[snake_idx as int].head,
    {
        self.snakes[snake_idx].head
    }

    pub fn snake_tail(&self, snake_idx: usize) -> (c: Coord)
        requires
            snake_idx < MAX_SNAKES,
        ensures
            c == self.snakes[snake_idx as int].tail,
    {
        self.snakes[snake_idx].tail
    }

    pub fn snake_len(&self, snake_idx: usize) -> (n: i32)
        requires
            snake_idx < MAX_SNAKES,
        ensures
            n == self.snakes[snake_idx as int].len,
    {
        self.snakes[snake_idx].len
    }

    pub(crate) fn idx_from_coord(&self, loc: Coord) -> (i: usize)
        requires
            self.dims_ok(),
            self.in_bounds(loc),
        ensures
            i == grid_index(loc, self.width as int),
            i < MAX_BOARD_SIZE,
            i < self.width * self.height,
    {
        proof {
            lemma_grid_index(loc, self.width as int, self.height as int);
        }
        (loc.x as i32 + (loc.y as i32) * self.width) as usize
    }

    pub fn at(&self, loc: Coord) -> (s: BoardSquare)
        requires
            self.wf(),
            self.in_bounds(loc),
        ensures
            s == self.square(loc),
            sq_owner_ok(s),
    {
        let i = self.idx_from_coord(loc);
        self.board_mat[i]
    }

    pub fn at_idx(&self, idx: usize) -> (s: BoardSquare)
        requires
            self.wf(),
            idx < MAX_BOARD_SIZE,
        ensures
            s == self.cells()[idx as int],
            sq_owner_ok(s),
    {
        self.board_mat[idx]
    }

    pub fn coord_from_idx(&self, idx: usize) -> (c: Coord)
        requires
            1 <= self.width <= MAX_BOARD_SIZE,
            idx < MAX_BOARD_SIZE,
        ensures
            c.x == idx as int % self.width as int,
            c.y == idx as int / self.width as int,
    {
        let i = idx as i32;
        let x = i % self.width;
        let y = i / self.width;
        proof {
            assert(y <= i) by (nonlinear_arith)
                requires
                    y == i / self.width,
                    1 <= self.width,
                    0 <= i,
            ;
        }
        Coord { x: x as i8, y: y as i8 }
    }

    pub fn set_at(&mut self, loc: Coord, val: BoardSquare)
        requires
            old(self).wf(),
            old(self).in_bounds(loc),
            sq_owner_ok(val),
        ensures
            final(self).wf(),
            final(self).same_fields(old(self)),
            final(self).cells() == old(self).cells().update(
                grid_index(loc, old(self).width as int),
                val,
            ),
    {
        let i = self.idx_from_coord(loc);
        self.board_mat[i] = val;
    }

    pub fn set_at_idx(&mut self, idx: usize, val: BoardSquare)
        requires
            old(self).wf(),
            idx < MAX_BOARD_SIZE,
            sq_owner_ok(val),
        ensures
            final(self).wf(),
            final(self).same_fields(old(self)),
            final(self).cells() == old(self).cells().update(idx as int, val),
    {
        self.board_mat[idx] = val;
    }

    /// Replaces the snake in slot `s`.
    pub fn set_snake(&mut self, s: usize, sn: Snake)
        requires
            old(self).wf(),
            s < MAX_SNAKES,
            old(self).in_bounds(sn.head),
            old(self).in_bounds(sn.tail),
        ensures
            final(self).wf(),
            final(self).cells() == old(self).cells(),
            final(self).snakes@ == old(self).snakes@.update(s as int, sn),
            final(self).width == old(self).width,
            final(self).height == old(self).height,
            final(self).turn == old(self).turn,
            final(self).num_snakes == old(self).num_snakes,
            final(self).num_food == old(self).num_food,
            final(self).royale_min_x == old(self).royale_min_x,
            final(self).royale_max_x == old(self).royale_max_x,
            final(self).royale_min_y == old(self).royale_min_y,
            final(self).royale_max_y == old(self).royale_max_y,
    {
        self.snakes[s] = sn;
    }

    /// Copies another board into this one: its fields, its snakes and the
    /// squares of its area. Snake slots past the other board's snake count, and
    /// squares past its area, are left as they were.
    pub fn set_from(&mut self, other: &Board)
        requires
            other.dims_ok(),
            0 <= other.num_snakes <= MAX_SNAKES,
            old(self).cells().len() == MAX_BOARD_SIZE,
        ensures
            final(self).width == other.width,
            final(self).height == other.height,
            final(self).turn == other.turn,
            final(self).num_food == other.num_food,
            final(self).num_snakes == other.num_snakes,
            final(self).royale_min_x == other.royale_min_x,
            final(self).royale_max_x == other.royale_max_x,
            final(self).royale_min_y == other.royale_min_y,
            final(self).royale_max_y == other.royale_max_y,
            forall|i: int|
                0 <= i < MAX_SNAKES ==> #[trigger] final(self).snakes[i] == if i < other.num_snakes {
                    other.snakes[i]
                } else {
                    old(self).snakes[i]
                },
            forall|i: int|
                0 <= i < MAX_BOARD_SIZE ==> #[trigger] final(self).cells()[i] == if i
                    < other.width * other.height {
                    other.cells()[i]
                } else {
                    old(self).cells()[i]
                },
            old(self).wf() && other.wf() && old(self).width == other.width && old(self).height
                == other.height ==> final(self).wf(),
    {
        self.width = other.width;
        self.height = other.height;
        self.turn = other.turn;
        self.num_food = other.num_food;
        self.num_snakes = other.num_snakes;
        self.royale_max_x = other.royale_max_x;
        self.royale_min_x = other.royale_min_x;
        self.royale_max_y = other.royale_max_y;
        self.royale_min_y = other.royale_min_y;
        let board_len = (self.width * self.height) as usize;
        let mut s_idx: usize = 0;
        while s_idx < other.num_snakes as usize
            invariant
                0 <= other.num_snakes <= MAX_SNAKES,
                s_idx <= other.num_snakes,
                self.board_mat == old(self).board_mat,
                forall|i: int|
                    0 <= i < MAX_SNAKES ==> #[trigger] self.snakes[i] == if i < s_idx {
                        other.snakes[i]
                    } else {
                        old(self).snakes[i]
                    },
                self.width == other.width,
                self.height == other.height,
                self.turn == other.turn,
                self.num_food == other.num_food,
                self.num_snakes == other.num_snakes,
                self.royale_min_x == other.royale_min_x,
                self.royale_max_x == other.royale_max_x,
                self.royale_min_y == other.royale_min_y,
                self.royale_max_y == other.royale_max_y,
            decreases other.num_snakes - s_idx,
        {
            self.snakes[s_idx] = other.snakes[s_idx];
            s_idx = s_idx + 1;
        }
        let mut i: usize = 0;
        while i < board_len
            invariant
                board_len == other.width * other.height,
                board_len <= MAX_BOARD_SIZE,
                i <= board_len,
                self.board_mat@.len() == MAX_BOARD_SIZE,
                other.board_mat@.len() == MAX_BOARD_SIZE,
                forall|k: int|
                    0 <= k < MAX_BOARD_SIZE ==> #[trigger] self.board_mat@[k] == if k < i {
                        other.board_mat@[k]
                    } else {
                        old(self).board_mat@[k]
                    },
                forall|k: int|
                    0 <= k < MAX_SNAKES ==> #[trigger] self.snakes[k] == if k < other.num_snakes {
                        other.snakes[k]
                    } else {
                        old(self).snakes[k]
                    },
                self.width == other.width,
                self.height == other.height,
                self.turn == other.turn,
                self.num_food == other.num_food,
                self.num_snakes == other.num_snakes,
                self.royale_min_x == other.royale_min_x,
                self.royale_max_x == other.royale_max_x,
                self.royale_min_y == other.royale_min_y,
                self.royale_max_y == other.royale_max_y,
            decreases board_len - i,
        {
            self.board_mat[i] = other.board_mat[i];
            i = i + 1;
        }
        proof {
            if old(self).wf() && other.wf() && old(self).width == other.width && old(self).height
                == other.height {
                assert forall|k: int| 0 <= k < MAX_BOARD_SIZE implies sq_owner_ok(
                    #[trigger] self.cells()[k],
                ) by {
                    if k < board_len {
                        assert(sq_owner_ok(other.cells()[k]));
                    } else {
                        assert(sq_owner_ok(old(self).cells()[k]));
                    }
                }
                assert forall|k: int| 0 <= k < MAX_SNAKES implies self.in_bounds(
                    #[trigger] self.snakes[k].head,
                ) && self.in_bounds(self.snakes[k].tail) by {
                    if k < other.num_snakes {
                        assert(other.in_bounds(other.snakes[k].head));
                    } else {
                        assert(old(self).in_bounds(old(self).snakes[k].head));
                    }
                }
            }
        }
    }

    fn set_size(&mut self, w: i32, h: i32)
        requires
            i32::MIN <= w * h <= MAX_BOARD_SIZE,
        ensures
            final(self).width == w,
            final(self).height == h,
            final(self).turn == old(self).turn,
            final(self).num_snakes == old(self).num_snakes,
            final(self).num_food == old(self).num_food,
            final(self).snakes == old(self).snakes,
            final(self).board_mat == old(self).board_mat,
            final(self).royale_min_x == old(self).royale_min_x,
            final(self).royale_max_x == old(self).royale_max_x,
            final(self).royale_min_y == old(self).royale_min_y,
            final(self).royale_max_y == old(self).royale_max_y,
    {
        self.width = w;
        self.height = h;
    }

    /// The square at position `z` of line `v`: column `x == v` when `col`, row
    /// `y == v` otherwise.
    pub open spec fn line_coord(&self, col: bool, v: int, z: int) -> Coord {
        if col {
            Coord { x: v as i8, y: z as i8 }
        } else {
            Coord { x: z as i8, y: v as i8 }
        }
    }

    /// The length of a line: a column runs the height of the board, a row its
    /// width.
    pub open spec fn line_len(&self, col: bool) -> int {
        if col {
            self.height as int
        } else {
            self.width as int
        }
    }

    /// The number of lines: columns across the width, rows up the height.
    pub open spec fn line_count(&self, col: bool) -> int {
        if col {
            self.width as int
        } else {
            self.height as int
        }
    }

    /// All squares of a line lie in a hazard.
    pub open spec fn line_hazard(&self, col: bool, v: int) -> bool {
        forall|z: int| 0 <= z < self.line_len(col) ==> #[trigger] sq_hazard(self.square(self.line_coord(col, v, z)))
    }

    fn line_all_hazard(&self, col: bool, side_val: i32) -> (b: bool)
        requires
            self.wf(),
            0 <= side_val < self.line_count(col),
        ensures
            b == self.line_hazard(col, side_val as int),
    {
        let dim = if col {
            self.height
        } else {
            self.width
        };
        let mut z: i32 = 0;
        while z < dim
            invariant
                self.wf(),
                0 <= side_val < self.line_count(col),
                dim == self.line_len(col),
                0 <= z <= dim,
                forall|k: int| 0 <= k < z ==> #[trigger] sq_hazard(self.square(self.line_coord(col, side_val as int, k))),
            decreases dim - z,
        {
            let coord = if col {
                Coord { x: side_val as i8, y: z as i8 }
            } else {
                Coord { x: z as i8, y: side_val as i8 }
            };
            assert(coord == self.line_coord(col, side_val as int, z as int));
            if !self.at(coord).is_hazard() {
                return false;
            }
            z = z + 1;
        }
        true
    }

    /// Sets the royale bounds: from each side, the bounds move in past every
    /// line that lies wholly in a hazard, columns for the x bounds and rows for
    /// the y bounds.
    pub fn set_royale(&mut self)
        requires
            old(self).wf(),
        ensures
            final(self).wf(),
            final(self).same_fields_but_royale(old(self)),
            final(self).cells() == old(self).cells(),
            0 <= final(self).royale_min_x <= final(self).width,
            forall|x: int| 0 <= x < final(self).royale_min_x ==> #[trigger] final(self).line_hazard(true, x),
            final(self).royale_min_x < final(self).width ==> !final(self).line_hazard(true, final(self).royale_min_x as int),
            -1 <= final(self).royale_max_x < final(self).width,
            forall|x: int| final(self).royale_max_x < x < final(self).width ==> #[trigger] final(self).line_hazard(true, x),
            final(self).royale_max_x >= 0 ==> !final(self).line_hazard(true, final(self).royale_max_x as int),
            0 <= final(self).royale_min_y <= final(self).height,
            forall|y: int| 0 <= y < final(self).royale_min_y ==> #[trigger] final(self).line_hazard(false, y),
            final(self).royale_min_y < final(self).height ==> !final(self).line_hazard(false, final(self).royale_min_y as int),
            -1 <= final(self).royale_max_y < final(self).height,
            forall|y: int| final(self).royale_max_y < y < final(self).height ==> #[trigger] final(self).line_hazard(false, y),
            final(self).royale_max_y >= 0 ==> !final(self).line_hazard(false, final(self).royale_max_y as int),
    {
        let min_x = self.first_open_line(true);
        let max_x = self.last_open_line(true);
        let min_y = self.first_open_line(false);
        let max_y = self.last_open_line(false);
        let ghost before = *self;
        self.royale_min_x = min_x;
        self.royale_max_x = max_x;
        self.royale_min_y = min_y;
        self.royale_max_y = max_y;
        proof {
            lemma_line_hazard_same(&before, self);
        }
    }

    /// The first line (column when `col`, row otherwise) that does not lie
    /// wholly in a hazard, or the number of lines when they all do.
    fn first_open_line(&self, col: bool) -> (v: i32)
        requires
            self.wf(),
        ensures
            0 <= v <= self.line_count(col),
            forall|k: int| 0 <= k < v ==> #[trigger] self.line_hazard(col, k),
            v < self.line_count(col) ==> !self.line_hazard(col, v as int),
    {
        let count = if col {
            self.width
        } else {
            self.height
        };
        let mut v: i32 = 0;
        while v < count && self.line_all_hazard(col, v)
            invariant
                self.wf(),
                count == self.line_count(col),
                0 <= v <= count,
                forall|k: int| 0 <= k < v ==> #[trigger] self.line_hazard(col, k),
            decreases count - v,
        {
            v = v + 1;
        }
        v
    }

    /// The last line (column when `col`, row otherwise) that does not lie
    /// wholly in a hazard, or -1 when they all do.
    fn last_open_line(&self, col: bool) -> (v: i32)
        requires
            self.wf(),
        ensures
            -1 <= v < self.line_count(col),
            forall|k: int| v < k < self.line_count(col) ==> #[trigger] self.line_hazard(col, k),
            v >= 0 ==> !self.line_hazard(col, v as int),
    {
        let count = if col {
            self.width
        } else {
            self.height
        };
        let mut v: i32 = count - 1;
        while v >= 0 && self.line_all_hazard(col, v)
            invariant
                self.wf(),
                count == self.line_count(col),
                -1 <= v < count,
                forall|k: int| v < k < count ==> #[trigger] self.line_hazard(col, k),
            decreases v + 1,
        {
            v = v - 1;
        }
        v
    }

    /// Whether the board is consistent (`wf`): what every function on a board
    /// asks of it.
    pub fn well_formed(&self) -> (b: bool)
        ensures
            b == self.wf(),
    {
        if !(1 <= self.width && self.width as usize <= MAX_BOARD_SIZE && 1 <= self.height
            && self.height as usize <= MAX_BOARD_SIZE) {
            return false;
        }
        assert(self.width * self.height <= MAX_BOARD_SIZE * MAX_BOARD_SIZE) by (nonlinear_arith)
            requires
                1 <= self.width <= MAX_BOARD_SIZE,
                1 <= self.height <= MAX_BOARD_SIZE,
        ;
        if self.width * self.height > MAX_BOARD_SIZE as i32 {
            return false;
        }
        if !(0 <= self.num_snakes && self.num_snakes as usize <= MAX_SNAKES) {
            return false;
        }
        let mut i: usize = 0;
        while i < MAX_BOARD_SIZE
            invariant
                self.cells().len() == MAX_BOARD_SIZE,
                i <= MAX_BOARD_SIZE,
                forall|j: int| 0 <= j < i ==> sq_owner_ok(#[trigger] self.cells()[j]),
            decreases MAX_BOARD_SIZE - i,
        {
            let ok = match self.board_mat[i] {
                BoardSquare::SnakeHead(o) | BoardSquare::SnakeHeadHazard(o) | BoardSquare::SnakeBody(o, _)
                | BoardSquare::SnakeBodyHazard(o, _) | BoardSquare::SnakeTail(o, _)
                | BoardSquare::SnakeTailHazard(o, _) => (o as usize) < MAX_SNAKES,
                _ => true,
            };
            if !ok {
                return false;
            }
            i = i + 1;
        }
        let mut s: usize = 0;
        while s < MAX_SNAKES
            invariant
                s <= MAX_SNAKES,
                forall|j: int|
                    0 <= j < s ==> self.in_bounds(#[trigger] self.snakes[j].head) && self.in_bounds(
                        self.snakes[j].tail,
                    ),
            decreases MAX_SNAKES - s,
        {
            if !self.on_board(self.snakes[s].head) || !self.on_board(self.snakes[s].tail) {
                return false;
            }
            assert forall|j: int| 0 <= j < s + 1 implies self.in_bounds(#[trigger] self.snakes[j].head)
                && self.in_bounds(self.snakes[j].tail) by {
                if j == s {
                    assert(self.snakes[j] == self.snakes[s as int]);
                }
            }
            s = s + 1;
        }
        0 <= self.royale_min_x && self.royale_max_x < self.width && 0 <= self.royale_min_y
            && self.royale_max_y < self.height
    }

    /// All fields but the royale bounds are those of `other`.
    pub open spec fn same_fields_but_royale(&self, other: &Board) -> bool {
        &&& self.width == other.width
        &&& self.height == other.height
        &&& self.turn == other.turn
        &&& self.num_snakes == other.num_snakes
        &&& self.num_food == other.num_food
        &&& self.snakes == other.snakes
    }

    pub fn on_board(&self, square: Coord) -> (b: bool)
        ensures
            b == self.in_bounds(square),
    {
        !(square.x < 0 || square.x as i32 >= self.width || square.y < 0 || square.y as i32
            >= self.height)
    }

    pub fn move_to_coord(&self, head: Coord, mv: Move, rules: Rules) -> (c: Coord)
        requires
            self.dims_ok(),
            movable(head),
            rules is Wrapped ==> self.in_bounds(head),
        ensures
            c == spec_move_to_coord(head, mv, rules, self.width as int, self.height as int),
            rules is Wrapped ==> self.in_bounds(c),
            self.in_bounds(head) ==> movable(c),
    {
        let mut x: i8 = head.x;
        let mut y: i8 = head.y;
        match mv {
            Move::Left => x = head.x - 1,
            Move::Right => x = head.x + 1,
            Move::Up => y = head.y + 1,
            Move::Down => y = head.y - 1,
        }
        if let Rules::Wrapped = rules {
            let w = self.width as i8;
            let h = self.height as i8;
            proof {
                lemma_wrap(x as int, w as int);
                lemma_wrap(y as int, h as int);
            }
            if x < 0 {
                x = x + w;
            } else if x >= w {
                x = x - w;
            }
            if y < 0 {
                y = y + h;
            } else if y >= h {
                y = y - h;
            }
        }
        Coord { x, y }
    }

    pub fn coord_to_move(&self, orig: Coord, dest: Coord, rules: Rules) -> (r: (
        Option<Move>,
        Option<Move>,
    ))
        requires
            self.dims_ok(),
        ensures
            r == spec_coord_to_move(orig, dest, rules, self.width as int, self.height as int),
    {
        let mut diff_x: i32 = dest.x as i32 - orig.x as i32;
        let mut diff_y: i32 = dest.y as i32 - orig.y as i32;
        if let Rules::Wrapped = rules {
            let diff_x_wrapped: i32 = if diff_x < 0 {
                self.width - orig.x as i32 + dest.x as i32
            } else {
                -(orig.x as i32 + self.width - dest.x as i32)
            };
            if abs_i32(diff_x_wrapped) < abs_i32(diff_x) {
                diff_x = diff_x_wrapped;
            }
            let diff_y_wrapped: i32 = if diff_y < 0 {
                self.height - orig.y as i32 + dest.y as i32
            } else {
                -(orig.y as i32 + self.height - dest.y as i32)
            };
            if abs_i32(diff_y_wrapped) < abs_i32(diff_y) {
                diff_y = diff_y_wrapped;
            }
        }
        let mx = if diff_x > 0 {
            Some(Move::Right)
        } else if diff_x < 0 {
            Some(Move::Left)
        } else {
            None
        };
        let my = if diff_y > 0 {
            Some(Move::Up)
        } else if diff_y < 0 {
            Some(Move::Down)
        } else {
            None
        };
        if abs_i32(diff_x) >= abs_i32(diff_y) {
            (mx, my)
        } else {
            (my, mx)
        }
    }

    pub fn next_to(&self, square_1: Coord, square_2: Coord, rules: Rules) -> (b: bool)
        requires
            self.dims_ok(),
        ensures
            b == spec_next_to(square_1, square_2, rules, self.width as int, self.height as int),
    {
        let (diff_x, diff_y) = self.abs_dist(square_1, square_2, rules);
        (diff_x == 1 && diff_y == 0) || (diff_x == 0 && diff_y == 1)
    }

    pub fn abs_dist(&self, square_1: Coord, square_2: Coord, rules: Rules) -> (d: (i32, i32))
        requires
            self.dims_ok(),
        ensures
            d.0 == spec_abs_dist(square_1, square_2, rules, self.width as int, self.height as int).0,
            d.1 == spec_abs_dist(square_1, square_2, rules, self.width as int, self.height as int).1,
    {
        let mut diff_x = abs_i32(square_2.x as i32 - square_1.x as i32);
        let mut diff_y = abs_i32(square_2.y as i32 - square_1.y as i32);
        if let Rules::Wrapped = rules {
            if self.width - diff_x < diff_x {
                diff_x = self.width - diff_x;
            }
            if self.height - diff_y < diff_y {
                diff_y = self.height - diff_y;
            }
        }
        (diff_x, diff_y)
    }
}

/// A one-square move and the moves from a square towards another undo each
/// other: from a square, the direction to the square that a move reaches is
/// that move alone, and the two squares are next to each other. On a wrapping
/// board this needs at least three squares each way.
pub proof fn lemma_move_then_direction(c: Coord, mv: Move, rules: Rules, w: int, h: int)
    requires
        1 <= w <= MAX_BOARD_SIZE,
        1 <= h <= MAX_BOARD_SIZE,
        in_grid(c, w, h),
        in_grid(spec_move_to_coord(c, mv, rules, w, h), w, h),
        rules is Wrapped ==> w >= 3 && h >= 3,
    ensures
        spec_coord_to_move(c, spec_move_to_coord(c, mv, rules, w, h), rules, w, h) == (
            Some(mv),
            None::<Move>,
        ),
        spec_next_to(c, spec_move_to_coord(c, mv, rules, w, h), rules, w, h),
{
    let d = spec_move_to_coord(c, mv, rules, w, h);
    if rules is Wrapped {
        lemma_wrap(c.x - 1, w);
        lemma_wrap(c.x + 1, w);
        lemma_wrap(c.x as int, w);
        lemma_wrap(c.y - 1, h);
        lemma_wrap(c.y + 1, h);
        lemma_wrap(c.y as int, h);
    }
}

/// The distance between two squares does not depend on their order, and so
/// neither does being next to each other.
pub proof fn lemma_dist_symmetric(a: Coord, b: Coord, rules: Rules, w: int, h: int)
    ensures
        spec_abs_dist(a, b, rules, w, h) == spec_abs_dist(b, a, rules, w, h),
        spec_next_to(a, b, rules, w, h) == spec_next_to(b, a, rules, w, h),
{
}

proof fn lemma_line_hazard_same(a: &Board, b: &Board)
    requires
        a.cells() == b.cells(),
        a.width == b.width,
        a.height == b.height,
    ensures
        forall|d: bool, v: int|
            #![trigger a.line_hazard(d, v)]
            #![trigger b.line_hazard(d, v)]
            a.line_hazard(d, v) == b.line_hazard(d, v),
{
    assert forall|d: bool, v: int| #[trigger] a.line_hazard(d, v) == b.line_hazard(d, v) by {
        if a.line_hazard(d, v) {
            assert forall|z: int| 0 <= z < a.line_len(d) implies #[trigger] sq_hazard(b.square(b.line_coord(d, v, z))) by {
                assert(sq_hazard(a.square(a.line_coord(d, v, z))));
            }
        }
        if b.line_hazard(d, v) {
            assert forall|z: int| 0 <= z < b.line_len(d) implies #[trigger] sq_hazard(a.square(a.line_coord(d, v, z))) by {
                assert(sq_hazard(b.square(b.line_coord(d, v, z))));
            }
        }
    }
}

fn abs_i32(v: i32) -> (r: i32)
    requires
        v > i32::MIN,
    ensures
        r == abs(v as int),
{
    if v < 0 {
        -v
    } else {
        v
    }
}

proof fn lemma_wrap(v: int, n: int)
    requires
        1 <= n,
        -1 <= v <= n,
    ensures
        v < 0 ==> v % n == v + n,
        v >= n ==> v % n == v - n,
        0 <= v < n ==> v % n == v,
{
    if v < 0 {
        assert((v + n) % n == v % n) by {
            vstd::arithmetic::div_mod::lemma_mod_add_multiples_vanish(v, n);
        }
        vstd::arithmetic::div_mod::lemma_small_mod((v + n) as nat, n as nat);
    } else if v >= n {
        vstd::arithmetic::div_mod::lemma_mod_sub_multiples_vanish(v, n);
        vstd::arithmetic::div_mod::lemma_small_mod((v - n) as nat, n as nat);
    } else {
        vstd::arithmetic::div_mod::lemma_small_mod(v as nat, n as nat);
    }
}

} // verus!
