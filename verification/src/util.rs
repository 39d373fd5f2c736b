use vstd::prelude::*;

use crate::api::ApiCoord;
use crate::board::{sq_owner, BoardSquare};
use crate::random::Rand;

verus! {

/// A square of the board, `x` counted from the left and `y` from the bottom.
/// A coordinate holds four bits on each axis: `new`, the setters and the
/// getters keep the low four bits of a value, so -1 reads as 15.
#[derive(Copy, Clone, Debug, Default, PartialEq, Eq, Hash, Structural)]
pub struct Coord {
    pub x: i8,
    pub y: i8,
}

/// The low four bits of a value, from 0 to 15.
pub open spec fn low4(v: i8) -> i8 {
    ((v as int) % 16) as i8
}

/// Keeps the low four bits of a value.
fn keep_low4(v: i8) -> (r: i8)
    ensures
        r == low4(v),
        0 <= r < 16,
{
    let m = v % 16;
    if m < 0 {
        m + 16
    } else {
        m
    }
}

impl Coord {
    pub fn new(x: i8, y: i8) -> (c: Self)
        ensures
            c.x == low4(x),
            c.y == low4(y),
    {
        Coord { x: keep_low4(x), y: keep_low4(y) }
    }

    pub fn x(&self) -> (r: i8)
        ensures
            r == low4(self.x),
    {
        keep_low4(self.x)
    }

    pub fn y(&self) -> (r: i8)
        ensures
            r == low4(self.y),
    {
        keep_low4(self.y)
    }

    pub fn set_x(&mut self, x_val: i8)
        ensures
            final(self).x == low4(x_val),
            final(self).y == old(self).y,
    {
        self.x = keep_low4(x_val);
    }

    pub fn set_y(&mut self, y_val: i8)
        ensures
            final(self).y == low4(y_val),
            final(self).x == old(self).x,
    {
        self.y = keep_low4(y_val);
    }

    pub fn to_api(&self) -> (c: ApiCoord)
        ensures
            c.x == low4(self.x),
            c.y == low4(self.y),
    {
        ApiCoord { x: self.x(), y: self.y() }
    }
}

/// A move of one snake for one turn.
#[derive(Copy, Clone, Debug, Default, PartialEq, Eq, PartialOrd, Ord, Hash, Structural)]
pub enum Move {
    #[default]
    Left,
    Right,
    Up,
    Down,
}

/// The index of a move: Left 0, Right 1, Up 2, Down 3.
pub open spec fn move_index(mv: Move) -> nat {
    match mv {
        Move::Left => 0,
        Move::Right => 1,
        Move::Up => 2,
        Move::Down => 3,
    }
}

/// The move with a given index (indices above 3 give Down).
pub open spec fn move_of_index(i: int) -> Move {
    if i == 0 {
        Move::Left
    } else if i == 1 {
        Move::Right
    } else if i == 2 {
        Move::Up
    } else {
        Move::Down
    }
}

/// 4 to the power n: the number of move combinations of n snakes.
pub open spec fn pow4(n: nat) -> nat
    decreases n,
{
    if n == 0 {
        1
    } else {
        4 * pow4((n - 1) as nat)
    }
}

/// The two bits of snake `i` in a set of encoded moves.
pub open spec fn move_bits(moves: u16, i: nat) -> nat {
    ((moves >> (2 * i) as u16) & 3u16) as nat
}

/// Moves encoded two bits per snake, snake 0 in the lowest bits.
pub open spec fn spec_encode(moves: Seq<Move>) -> u16
    decreases moves.len(),
{
    if moves.len() == 0 {
        0
    } else {
        let rest = spec_encode(moves.drop_last());
        let i = (moves.len() - 1) as nat;
        (((move_index(moves.last()) as u16) << (2 * i) as u16) | (!(3u16 << (2 * i) as u16) & rest))
    }
}

/// The moves of the first `n` snakes in a set of encoded moves.
pub open spec fn spec_decode(moves: u16, n: nat) -> Seq<Move> {
    Seq::new(n, |i: int| move_of_index(move_bits(moves, i as nat) as int))
}

proof fn lemma_set_bits(m: u16, i: u16, v: u16, j: u16)
    by (bit_vector)
    requires
        i < 8,
        j < 8,
        v < 4,
    ensures
        (((v << (2 * i)) | (!(3u16 << (2 * i)) & m)) >> (2 * j)) & 3u16 == if i == j {
            v
        } else {
            (m >> (2 * j)) & 3u16
        },
{
}

proof fn lemma_bits_lt_4(m: u16, j: u16)
    by (bit_vector)
    ensures
        (m >> j) & 3u16 < 4,
{
}

proof fn lemma_extract_eq(m: u16, j: u16)
    by (bit_vector)
    requires
        j < 8,
    ensures
        (m & (3u16 << (2 * j))) >> (2 * j) == (m >> (2 * j)) & 3u16,
{
}

proof fn lemma_zero_bits(j: u16)
    by (bit_vector)
    ensures
        (0u16 >> j) & 3u16 == 0,
{
}

/// With no move written, every snake's bits read 0, the index of Left.
pub proof fn lemma_no_moves(j: nat)
    requires
        j < 8,
    ensures
        move_bits(0, j) == 0,
{
    lemma_zero_bits((2 * j) as u16);
}

/// What `spec_encode` holds in each snake's bits.
pub proof fn lemma_encode_bits(moves: Seq<Move>, j: nat)
    requires
        moves.len() <= 8,
        j < 8,
    ensures
        move_bits(spec_encode(moves), j) == if j < moves.len() {
            move_index(moves[j as int])
        } else {
            0
        },
    decreases moves.len(),
{
    if moves.len() == 0 {
        lemma_zero_bits((2 * j) as u16);
    } else {
        let rest = moves.drop_last();
        let i = (moves.len() - 1) as nat;
        lemma_encode_bits(rest, j);
        lemma_set_bits(spec_encode(rest), i as u16, move_index(moves.last()) as u16, j as u16);
    }
}

/// Decoding the encoding of at most 8 moves gives the same moves back.
pub proof fn lemma_decode_encode(moves: Seq<Move>)
    requires
        moves.len() <= 8,
    ensures
        spec_decode(spec_encode(moves), moves.len()) == moves,
{
    assert forall|i: int| 0 <= i < moves.len() implies spec_decode(
        spec_encode(moves),
        moves.len(),
    )[i] == moves[i] by {
        lemma_encode_bits(moves, i as nat);
    }
    assert(spec_decode(spec_encode(moves), moves.len()) =~= moves);
}

/// The moves that the bits of the first `n` snakes of `m` stand for, kept in
/// place, with the bits of the other snakes cleared.
pub open spec fn low_moves(m: u16, n: nat) -> u16 {
    if n >= 8 {
        m
    } else {
        m % (1u16 << (2 * n) as u16)
    }
}

proof fn lemma_low_bits(m: u16, n: u16, j: u16)
    by (bit_vector)
    requires
        n < 8,
        j < 8,
    ensures
        ((m % (1u16 << (2 * n))) >> (2 * j)) & 3u16 == if j < n {
            (m >> (2 * j)) & 3u16
        } else {
            0u16
        },
{
}

proof fn lemma_bits_equal(x: u16, y: u16)
    by (bit_vector)
    requires
        x & 3u16 == y & 3u16,
        (x >> 2u16) & 3u16 == (y >> 2u16) & 3u16,
        (x >> 4u16) & 3u16 == (y >> 4u16) & 3u16,
        (x >> 6u16) & 3u16 == (y >> 6u16) & 3u16,
        (x >> 8u16) & 3u16 == (y >> 8u16) & 3u16,
        (x >> 10u16) & 3u16 == (y >> 10u16) & 3u16,
        (x >> 12u16) & 3u16 == (y >> 12u16) & 3u16,
        (x >> 14u16) & 3u16 == (y >> 14u16) & 3u16,
    ensures
        x == y,
{
}

/// Encoding the moves read from the first `n` snakes of a set of encoded
/// moves gives back the bits of those snakes, the others cleared.
pub proof fn lemma_encode_decode(m: u16, n: nat)
    requires
        n <= 8,
    ensures
        spec_encode(spec_decode(m, n)) == low_moves(m, n),
{
    let e = spec_encode(spec_decode(m, n));
    let r = low_moves(m, n);
    assert forall|j: nat| j < 8 implies #[trigger] move_bits(e, j) == move_bits(r, j) by {
        lemma_encode_bits(spec_decode(m, n), j);
        lemma_bits_lt_4(m, (2 * j) as u16);
        if n < 8 {
            lemma_low_bits(m, n as u16, j as u16);
        }
    }
    assert(move_bits(e, 0) == move_bits(r, 0));
    assert(move_bits(e, 1) == move_bits(r, 1));
    assert(move_bits(e, 2) == move_bits(r, 2));
    assert(move_bits(e, 3) == move_bits(r, 3));
    assert(move_bits(e, 4) == move_bits(r, 4));
    assert(move_bits(e, 5) == move_bits(r, 5));
    assert(move_bits(e, 6) == move_bits(r, 6));
    assert(move_bits(e, 7) == move_bits(r, 7));
    assert(e >> 0u16 == e) by (bit_vector);
    assert(r >> 0u16 == r) by (bit_vector);
    lemma_bits_equal(e, r);
}

/// Writing the move of one snake and reading it back gives that move, and the
/// moves of the other snakes are left as they were.
pub proof fn lemma_set_move_extract(moves: u16, i: nat, mv: Move, j: nat)
    requires
        i < 8,
        j < 8,
    ensures
        move_bits(
            ((move_index(mv) as u16) << (2 * i) as u16) | (!(3u16 << (2 * i) as u16) & moves),
            j,
        ) == if i == j {
            move_index(mv)
        } else {
            move_bits(moves, j)
        },
{
    lemma_set_bits(moves, i as u16, move_index(mv) as u16, j as u16);
}

impl Move {
    pub fn from_idx(idx: usize) -> (mv: Self)
        requires
            idx < 4,
        ensures
            mv == move_of_index(idx as int),
            move_index(mv) == idx,
    {
        if idx == 0 {
            Move::Left
        } else if idx == 1 {
            Move::Right
        } else if idx == 2 {
            Move::Up
        } else {
            Move::Down
        }
    }

    /// The number of move combinations of `num_snakes` snakes.
    pub fn num_perm(num_snakes: i32) -> (n: u16)
        requires
            0 <= num_snakes < 8,
        ensures
            n == pow4(num_snakes as nat),
    {
        let shift: u16 = 2 * (num_snakes as u16);
        let n: u16 = 1u16 << shift;
        proof {
            reveal_with_fuel(pow4, 8);
            if num_snakes == 0 {
                assert(1u16 << 0u16 == 1) by (bit_vector);
            } else if num_snakes == 1 {
                assert(1u16 << 2u16 == 4) by (bit_vector);
            } else if num_snakes == 2 {
                assert(1u16 << 4u16 == 16) by (bit_vector);
            } else if num_snakes == 3 {
                assert(1u16 << 6u16 == 64) by (bit_vector);
            } else if num_snakes == 4 {
                assert(1u16 << 8u16 == 256) by (bit_vector);
            } else if num_snakes == 5 {
                assert(1u16 << 10u16 == 1024) by (bit_vector);
            } else if num_snakes == 6 {
                assert(1u16 << 12u16 == 4096) by (bit_vector);
            } else {
                assert(1u16 << 14u16 == 16384) by (bit_vector);
            }
        }
        n
    }

    /// The move index of snake `snake_idx` in a set of encoded moves.
    pub fn extract_idx(moves: u16, snake_idx: u32) -> (r: u16)
        requires
            snake_idx < 8,
        ensures
            r == move_bits(moves, snake_idx as nat),
            r < 4,
    {
        let shift: u16 = 2 * (snake_idx as u16);
        let r = (moves & (3u16 << shift)) >> shift;
        proof {
            lemma_extract_eq(moves, snake_idx as u16);
            lemma_bits_lt_4(moves, shift);
        }
        r
    }

    pub fn extract(moves: u16, snake_idx: u32) -> (mv: Self)
        requires
            snake_idx < 8,
        ensures
            mv == move_of_index(move_bits(moves, snake_idx as nat) as int),
            move_index(mv) == move_bits(moves, snake_idx as nat),
    {
        let i = Self::extract_idx(moves, snake_idx);
        Self::from_idx(i as usize)
    }

    /// Writes the move of snake `snake_idx` into a set of encoded moves.
    pub fn set_move(moves: u16, snake_idx: u32, mv: Self) -> (r: u16)
        requires
            snake_idx < 8,
        ensures
            r == ((move_index(mv) as u16) << (2 * snake_idx) as u16) | (!(3u16 << (2
                * snake_idx) as u16) & moves),
            forall|j: nat|
                j < 8 ==> #[trigger] move_bits(r, j) == if j == snake_idx {
                    move_index(mv)
                } else {
                    move_bits(moves, j)
                },
    {
        let shift: u16 = 2 * (snake_idx as u16);
        let r = ((mv.idx() as u16) << shift) | (!(3u16 << shift) & moves);
        proof {
            assert forall|j: nat| j < 8 implies #[trigger] move_bits(r, j) == if j == snake_idx {
                move_index(mv)
            } else {
                move_bits(moves, j)
            } by {
                lemma_set_move_extract(moves, snake_idx as nat, mv, j);
            }
        }
        r
    }

    /// Encodes a list of snake moves in a `u16`, two bits per snake.
    pub fn encode(moves: &[Self]) -> (r: u16)
        requires
            moves@.len() <= 8,
        ensures
            r == spec_encode(moves@),
    {
        let mut encoded_moves: u16 = 0;
        let mut idx: usize = 0;
        while idx < moves.len()
            invariant
                idx <= moves@.len() <= 8,
                encoded_moves == spec_encode(moves@.subrange(0, idx as int)),
            decreases moves@.len() - idx,
        {
            let ghost prev = moves@.subrange(0, idx as int);
            encoded_moves = Self::set_move(encoded_moves, idx as u32, moves[idx]);
            proof {
                let next = moves@.subrange(0, idx + 1);
                assert(next.drop_last() =~= prev);
                assert(next.last() == moves@[idx as int]);
            }
            idx = idx + 1;
        }
        assert(moves@.subrange(0, moves@.len() as int) =~= moves@);
        encoded_moves
    }

    /// Decodes the moves of the first `num_snakes` snakes.
    pub fn decode(moves: u16, num_snakes: i32) -> (r: Vec<Self>)
        requires
            0 <= num_snakes <= 8,
        ensures
            r@ == spec_decode(moves, num_snakes as nat),
    {
        let mut moves_vec: Vec<Move> = Vec::with_capacity(num_snakes as usize);
        let n: u32 = num_snakes as u32;
        let mut idx: u32 = 0;
        while idx < n
            invariant
                n == num_snakes,
                idx <= n <= 8,
                moves_vec@ =~= spec_decode(moves, idx as nat),
            decreases n - idx,
        {
            moves_vec.push(Self::extract(moves, idx));
            idx = idx + 1;
        }
        moves_vec
    }

    pub fn idx(&self) -> (i: usize)
        ensures
            i == move_index(*self),
    {
        match self {
            Move::Left => 0,
            Move::Right => 1,
            Move::Up => 2,
            Move::Down => 3,
        }
    }
}

/// The meaning of a character of the board text format: the square (body and
/// tail squares with snake index 0, as the text does not name their snake), the
/// index of a head's snake, whether a tail is stacked, and the move of a body or
/// tail square.
pub open spec fn spec_square_of_char(chr: char) -> Option<(BoardSquare, u8, i32, Option<Move>)> {
    match chr {
        '-' => Some((BoardSquare::Empty, 0, 0, None)),
        '+' => Some((BoardSquare::Food, 0, 0, None)),
        '@' => Some((BoardSquare::FoodHazard, 0, 0, None)),
        '*' => Some((BoardSquare::Hazard, 0, 0, None)),
        '<' => Some((BoardSquare::SnakeBody(0, Move::Left), 0, 0, Some(Move::Left))),
        '>' => Some((BoardSquare::SnakeBody(0, Move::Right), 0, 0, Some(Move::Right))),
        '^' => Some((BoardSquare::SnakeBody(0, Move::Up), 0, 0, Some(Move::Up))),
        'v' => Some((BoardSquare::SnakeBody(0, Move::Down), 0, 0, Some(Move::Down))),
        '{' => Some((BoardSquare::SnakeBodyHazard(0, Move::Left), 0, 0, Some(Move::Left))),
        '}' => Some((BoardSquare::SnakeBodyHazard(0, Move::Right), 0, 0, Some(Move::Right))),
        'n' => Some((BoardSquare::SnakeBodyHazard(0, Move::Up), 0, 0, Some(Move::Up))),
        'u' => Some((BoardSquare::SnakeBodyHazard(0, Move::Down), 0, 0, Some(Move::Down))),
        'a' => Some((BoardSquare::SnakeTail(0, Move::Left), 0, 0, Some(Move::Left))),
        'b' => Some((BoardSquare::SnakeTail(0, Move::Right), 0, 0, Some(Move::Right))),
        'c' => Some((BoardSquare::SnakeTail(0, Move::Up), 0, 0, Some(Move::Up))),
        'd' => Some((BoardSquare::SnakeTail(0, Move::Down), 0, 0, Some(Move::Down))),
        'e' => Some((BoardSquare::SnakeTail(0, Move::Left), 0, 1, Some(Move::Left))),
        'f' => Some((BoardSquare::SnakeTail(0, Move::Right), 0, 1, Some(Move::Right))),
        'g' => Some((BoardSquare::SnakeTail(0, Move::Up), 0, 1, Some(Move::Up))),
        'h' => Some((BoardSquare::SnakeTail(0, Move::Down), 0, 1, Some(Move::Down))),
        'A' => Some((BoardSquare::SnakeTailHazard(0, Move::Left), 0, 0, Some(Move::Left))),
        'B' => Some((BoardSquare::SnakeTailHazard(0, Move::Right), 0, 0, Some(Move::Right))),
        'C' => Some((BoardSquare::SnakeTailHazard(0, Move::Up), 0, 0, Some(Move::Up))),
        'D' => Some((BoardSquare::SnakeTailHazard(0, Move::Down), 0, 0, Some(Move::Down))),
        'E' => Some((BoardSquare::SnakeTailHazard(0, Move::Left), 0, 1, Some(Move::Left))),
        'F' => Some((BoardSquare::SnakeTailHazard(0, Move::Right), 0, 1, Some(Move::Right))),
        'G' => Some((BoardSquare::SnakeTailHazard(0, Move::Up), 0, 1, Some(Move::Up))),
        'H' => Some((BoardSquare::SnakeTailHazard(0, Move::Down), 0, 1, Some(Move::Down))),
        '0' => Some((BoardSquare::SnakeHead(0), 0, 0, None)),
        '1' => Some((BoardSquare::SnakeHead(1), 1, 0, None)),
        '2' => Some((BoardSquare::SnakeHead(2), 2, 0, None)),
        '3' => Some((BoardSquare::SnakeHead(3), 3, 0, None)),
        '4' => Some((BoardSquare::SnakeHead(4), 4, 0, None)),
        '5' => Some((BoardSquare::SnakeHead(5), 5, 0, None)),
        '6' => Some((BoardSquare::SnakeHead(6), 6, 0, None)),
        '7' => Some((BoardSquare::SnakeHead(7), 7, 0, None)),
        'S' => Some((BoardSquare::SnakeHeadHazard(0), 0, 0, None)),
        'T' => Some((BoardSquare::SnakeHeadHazard(1), 1, 0, None)),
        'U' => Some((BoardSquare::SnakeHeadHazard(2), 2, 0, None)),
        'V' => Some((BoardSquare::SnakeHeadHazard(3), 3, 0, None)),
        'W' => Some((BoardSquare::SnakeHeadHazard(4), 4, 0, None)),
        'X' => Some((BoardSquare::SnakeHeadHazard(5), 5, 0, None)),
        'Y' => Some((BoardSquare::SnakeHeadHazard(6), 6, 0, None)),
        'Z' => Some((BoardSquare::SnakeHeadHazard(7), 7, 0, None)),
        _ => None,
    }
}

/// The meaning of a character of the board text format, `None` for a character
/// that the format does not use.
pub fn square_from_char(chr: char) -> (r: Option<(BoardSquare, u8, i32, Option<Move>)>)
    ensures
        r == spec_square_of_char(chr),
{
    match chr {
        '-' => Some((BoardSquare::Empty, 0, 0, None)),
        '+' => Some((BoardSquare::Food, 0, 0, None)),
        '@' => Some((BoardSquare::FoodHazard, 0, 0, None)),
        '*' => Some((BoardSquare::Hazard, 0, 0, None)),
        '<' => Some((BoardSquare::SnakeBody(0, Move::Left), 0, 0, Some(Move::Left))),
        '>' => Some((BoardSquare::SnakeBody(0, Move::Right), 0, 0, Some(Move::Right))),
        '^' => Some((BoardSquare::SnakeBody(0, Move::Up), 0, 0, Some(Move::Up))),
        'v' => Some((BoardSquare::SnakeBody(0, Move::Down), 0, 0, Some(Move::Down))),
        '{' => Some((BoardSquare::SnakeBodyHazard(0, Move::Left), 0, 0, Some(Move::Left))),
        '}' => Some((BoardSquare::SnakeBodyHazard(0, Move::Right), 0, 0, Some(Move::Right))),
        'n' => Some((BoardSquare::SnakeBodyHazard(0, Move::Up), 0, 0, Some(Move::Up))),
        'u' => Some((BoardSquare::SnakeBodyHazard(0, Move::Down), 0, 0, Some(Move::Down))),
        'a' => Some((BoardSquare::SnakeTail(0, Move::Left), 0, 0, Some(Move::Left))),
        'b' => Some((BoardSquare::SnakeTail(0, Move::Right), 0, 0, Some(Move::Right))),
        'c' => Some((BoardSquare::SnakeTail(0, Move::Up), 0, 0, Some(Move::Up))),
        'd' => Some((BoardSquare::SnakeTail(0, Move::Down), 0, 0, Some(Move::Down))),
        'e' => Some((BoardSquare::SnakeTail(0, Move::Left), 0, 1, Some(Move::Left))),
        'f' => Some((BoardSquare::SnakeTail(0, Move::Right), 0, 1, Some(Move::Right))),
        'g' => Some((BoardSquare::SnakeTail(0, Move::Up), 0, 1, Some(Move::Up))),
        'h' => Some((BoardSquare::SnakeTail(0, Move::Down), 0, 1, Some(Move::Down))),
        'A' => Some((BoardSquare::SnakeTailHazard(0, Move::Left), 0, 0, Some(Move::Left))),
        'B' => Some((BoardSquare::SnakeTailHazard(0, Move::Right), 0, 0, Some(Move::Right))),
        'C' => Some((BoardSquare::SnakeTailHazard(0, Move::Up), 0, 0, Some(Move::Up))),
        'D' => Some((BoardSquare::SnakeTailHazard(0, Move::Down), 0, 0, Some(Move::Down))),
        'E' => Some((BoardSquare::SnakeTailHazard(0, Move::Left), 0, 1, Some(Move::Left))),
        'F' => Some((BoardSquare::SnakeTailHazard(0, Move::Right), 0, 1, Some(Move::Right))),
        'G' => Some((BoardSquare::SnakeTailHazard(0, Move::Up), 0, 1, Some(Move::Up))),
        'H' => Some((BoardSquare::SnakeTailHazard(0, Move::Down), 0, 1, Some(Move::Down))),
        '0' => Some((BoardSquare::SnakeHead(0), 0, 0, None)),
        '1' => Some((BoardSquare::SnakeHead(1), 1, 0, None)),
        '2' => Some((BoardSquare::SnakeHead(2), 2, 0, None)),
        '3' => Some((BoardSquare::SnakeHead(3), 3, 0, None)),
        '4' => Some((BoardSquare::SnakeHead(4), 4, 0, None)),
        '5' => Some((BoardSquare::SnakeHead(5), 5, 0, None)),
        '6' => Some((BoardSquare::SnakeHead(6), 6, 0, None)),
        '7' => Some((BoardSquare::SnakeHead(7), 7, 0, None)),
        'S' => Some((BoardSquare::SnakeHeadHazard(0), 0, 0, None)),
        'T' => Some((BoardSquare::SnakeHeadHazard(1), 1, 0, None)),
        'U' => Some((BoardSquare::SnakeHeadHazard(2), 2, 0, None)),
        'V' => Some((BoardSquare::SnakeHeadHazard(3), 3, 0, None)),
        'W' => Some((BoardSquare::SnakeHeadHazard(4), 4, 0, None)),
        'X' => Some((BoardSquare::SnakeHeadHazard(5), 5, 0, None)),
        'Y' => Some((BoardSquare::SnakeHeadHazard(6), 6, 0, None)),
        'Z' => Some((BoardSquare::SnakeHeadHazard(7), 7, 0, None)),
        _ => None,
    }
}

/// The meaning of a character of the board text format.
pub fn char_to_square(chr: char) -> (r: (BoardSquare, u8, i32, Option<Move>))
    requires
        spec_square_of_char(chr) is Some,
    ensures
        r == spec_square_of_char(chr)->0,
{
    match square_from_char(chr) {
        Some(r) => r,
        None => (BoardSquare::Empty, 0, 0, None),
    }
}

pub open spec fn move_char(mv: Move, left: char, right: char, up: char, down: char) -> char {
    match mv {
        Move::Left => left,
        Move::Right => right,
        Move::Up => up,
        Move::Down => down,
    }
}

pub open spec fn digit_char(i: u8, base: char) -> char {
    ((base as int) + i) as char
}

/// The character of the board text format for a square; a tail with stacked
/// segments has a character of its own.
pub open spec fn spec_char_of_square(sq: BoardSquare, num_stacked: i32) -> char {
    match sq {
        BoardSquare::Empty => '-',
        BoardSquare::Food => '+',
        BoardSquare::FoodHazard => '@',
        BoardSquare::Hazard => '*',
        BoardSquare::SnakeHead(i) => digit_char(i, '0'),
        BoardSquare::SnakeHeadHazard(i) => digit_char(i, 'S'),
        BoardSquare::SnakeBody(_, m) => move_char(m, '<', '>', '^', 'v'),
        BoardSquare::SnakeBodyHazard(_, m) => move_char(m, '{', '}', 'n', 'u'),
        BoardSquare::SnakeTail(_, m) => if num_stacked == 0 {
            move_char(m, 'a', 'b', 'c', 'd')
        } else {
            move_char(m, 'e', 'f', 'g', 'h')
        },
        BoardSquare::SnakeTailHazard(_, m) => if num_stacked == 0 {
            move_char(m, 'A', 'B', 'C', 'D')
        } else {
            move_char(m, 'E', 'F', 'G', 'H')
        },
    }
}

fn pick_move_char(mv: Move, left: char, right: char, up: char, down: char) -> (c: char)
    ensures
        c == move_char(mv, left, right, up, down),
{
    match mv {
        Move::Left => left,
        Move::Right => right,
        Move::Up => up,
        Move::Down => down,
    }
}

fn pick_digit(i: u8, hazard: bool) -> (c: char)
    requires
        i < 8,
    ensures
        c == if hazard { digit_char(i, 'S') } else { digit_char(i, '0') },
{
    let digits = if hazard { ['S', 'T', 'U', 'V', 'W', 'X', 'Y', 'Z'] } else { ['0', '1', '2', '3', '4', '5', '6', '7'] };
    proof {
        assert(digits@ == if hazard { seq!['S', 'T', 'U', 'V', 'W', 'X', 'Y', 'Z'] } else { seq!['0', '1', '2', '3', '4', '5', '6', '7'] });
    }
    digits[i as usize]
}

/// The character of the board text format for a square.
pub fn square_to_char(sqr: BoardSquare, num_stacked: i32) -> (c: char)
    requires
        sq_owner(sqr) matches Some(i) ==> i < 8,
    ensures
        c == spec_char_of_square(sqr, num_stacked),
{
    match sqr {
        BoardSquare::Empty => '-',
        BoardSquare::Food => '+',
        BoardSquare::FoodHazard => '@',
        BoardSquare::Hazard => '*',
        BoardSquare::SnakeHead(i) => pick_digit(i, false),
        BoardSquare::SnakeHeadHazard(i) => pick_digit(i, true),
        BoardSquare::SnakeBody(_, m) => pick_move_char(m, '<', '>', '^', 'v'),
        BoardSquare::SnakeBodyHazard(_, m) => pick_move_char(m, '{', '}', 'n', 'u'),
        BoardSquare::SnakeTail(_, m) => if num_stacked == 0 {
            pick_move_char(m, 'a', 'b', 'c', 'd')
        } else {
            pick_move_char(m, 'e', 'f', 'g', 'h')
        },
        BoardSquare::SnakeTailHazard(_, m) => if num_stacked == 0 {
            pick_move_char(m, 'A', 'B', 'C', 'D')
        } else {
            pick_move_char(m, 'E', 'F', 'G', 'H')
        },
    }
}

/// A square with the snake index of its body or tail set to 0, as the text
/// format writes it.
pub open spec fn text_square(sq: BoardSquare) -> BoardSquare {
    match sq {
        BoardSquare::SnakeBody(_, m) => BoardSquare::SnakeBody(0, m),
        BoardSquare::SnakeBodyHazard(_, m) => BoardSquare::SnakeBodyHazard(0, m),
        BoardSquare::SnakeTail(_, m) => BoardSquare::SnakeTail(0, m),
        BoardSquare::SnakeTailHazard(_, m) => BoardSquare::SnakeTailHazard(0, m),
        _ => sq,
    }
}

/// The square a character stands for is written as the text writes it.
pub proof fn lemma_text_square_of_char(ch: char)
    ensures
        spec_square_of_char(ch) matches Some((sq, _, _, _)) ==> text_square(sq) == sq,
{
}

/// Writing a square as a character and reading the character back gives the
/// square (with the body or tail index that the text leaves out set to 0), its
/// head index, whether its tail is stacked, and its move.
pub proof fn lemma_square_char_round_trip(sq: BoardSquare, num_stacked: i32)
    requires
        sq_owner(sq) matches Some(i) ==> i < 8,
    ensures
        spec_square_of_char(spec_char_of_square(sq, num_stacked)) == Some(
            (
                text_square(sq),
                match sq {
                    BoardSquare::SnakeHead(i) => i,
                    BoardSquare::SnakeHeadHazard(i) => i,
                    _ => 0u8,
                },
                if (sq is SnakeTail || sq is SnakeTailHazard) && num_stacked != 0 {
                    1i32
                } else {
                    0
                },
                match sq {
                    BoardSquare::SnakeBody(_, m) => Some(m),
                    BoardSquare::SnakeBodyHazard(_, m) => Some(m),
                    BoardSquare::SnakeTail(_, m) => Some(m),
                    BoardSquare::SnakeTailHazard(_, m) => Some(m),
                    _ => None::<Move>,
                },
            ),
        ),
{
    match sq {
        BoardSquare::SnakeHead(i) => {
            assert(i == 0 || i == 1 || i == 2 || i == 3 || i == 4 || i == 5 || i == 6 || i == 7);
        },
        BoardSquare::SnakeHeadHazard(i) => {
            assert(i == 0 || i == 1 || i == 2 || i == 3 || i == 4 || i == 5 || i == 6 || i == 7);
        },
        _ => {},
    }
}

/// The four moves in index order.
pub open spec fn all_moves() -> Seq<Move> {
    seq![Move::Left, Move::Right, Move::Up, Move::Down]
}

/// A uniformly chosen move.
pub fn rand_move<R: Rand>(r: &mut R) -> (mv: Move)
    ensures
        exists|x: int| 0 <= x < 4 && R::range_gives(0, 3, x) && mv == #[trigger] move_of_index(x),
{
    let x = r.range(0, 3);
    Move::from_idx(x as usize)
}

/// The four moves in a random order.
pub fn rand_move_arr<R: Rand>(r: &mut R) -> (moves: [Move; 4])
    ensures
        moves@.to_multiset() == all_moves().to_multiset(),
        R::shuffle_rotates() ==> moves@ == seq![Move::Right, Move::Up, Move::Down, Move::Left],
{
    let mut move_list = [Move::Left, Move::Right, Move::Up, Move::Down];
    assert(move_list@ == all_moves());
    r.shuffle(&mut move_list, 4);
    move_list
}

/// Puts `mv` at position `idx` and the move that stood at `idx` where `mv`
/// stood: the two trade places.
pub open spec fn spec_swap_in(list: Seq<Move>, mv: Move, idx: int) -> Seq<Move> {
    Seq::new(
        list.len(),
        |i: int|
            if i == idx {
                mv
            } else if list[i] == mv {
                list[idx]
            } else {
                list[i]
            },
    )
}

/// Trading places keeps every move in a list of the four moves.
proof fn lemma_swap_in_all(list: Seq<Move>, mv: Move, idx: int)
    requires
        list.len() == 4,
        0 <= idx < 4,
        forall|m: Move| list.contains(m),
    ensures
        forall|m: Move| #[trigger] spec_swap_in(list, mv, idx).contains(m),
{
    let out = spec_swap_in(list, mv, idx);
    assert forall|m: Move| #[trigger] out.contains(m) by {
        if m == mv {
            assert(out[idx] == m);
        } else if m == list[idx] {
            assert(list.contains(mv));
            let p = choose|p: int| 0 <= p < 4 && list[p] == mv;
            assert(out[p] == m);
        } else {
            assert(list.contains(m));
            let p = choose|p: int| 0 <= p < 4 && list[p] == m;
            assert(out[p] == m);
        }
    }
}

/// The move list before the shuffle of `rand_rem_moves`, and how many moves at
/// its end are shuffled.
pub open spec fn rem_moves_front(mv_one: Option<Move>, mv_two: Option<Move>) -> (Seq<Move>, int) {
    match (mv_one, mv_two) {
        (Some(a), Some(b)) => (spec_swap_in(spec_swap_in(all_moves(), a, 0), b, 1), 2),
        (Some(a), None) => (spec_swap_in(all_moves(), a, 0), 3),
        (None, Some(b)) => (spec_swap_in(all_moves(), b, 0), 3),
        (None, None) => (all_moves(), 4),
    }
}

fn swap_in(list: &mut [Move; 4], mv: Move, idx: usize)
    requires
        idx < 4,
    ensures
        final(list)@ == spec_swap_in(old(list)@, mv, idx as int),
{
    let orig: [Move; 4] = *list;
    let curr_val = list[idx];
    let mut i: usize = 0;
    while i < 4
        invariant
            idx < 4,
            orig@ == old(list)@,
            curr_val == orig@[idx as int],
            i <= 4,
            forall|j: int| 0 <= j < i ==> #[trigger] list@[j] == spec_swap_in(orig@, mv, idx as int)[j],
            forall|j: int| i <= j < 4 ==> #[trigger] list@[j] == orig@[j],
        decreases 4 - i,
    {
        if i == idx {
            list[i] = mv;
        } else if orig[i].idx() == mv.idx() {
            proof {
                lemma_move_index_injective(orig@[i as int], mv);
            }
            list[i] = curr_val;
        } else {
            proof {
                if orig@[i as int] == mv {
                    assert(move_index(orig@[i as int]) == move_index(mv));
                }
            }
        }
        i = i + 1;
    }
    assert(list@ =~= spec_swap_in(old(list)@, mv, idx as int));
}

/// A list made of the front of a list of all four moves and a reordering of
/// its rest holds every move.
proof fn lemma_rem_moves_all(front: Seq<Move>, h: Seq<Move>, t: Seq<Move>, rem: int, moves: Seq<Move>)
    requires
        front.len() == 4,
        0 <= rem <= 4,
        forall|m: Move| #[trigger] front.contains(m),
        h == front.subrange(0, 4 - rem),
        t.to_multiset() == front.subrange(4 - rem, 4).to_multiset(),
        moves == h + t,
    ensures
        forall|m: Move| #[trigger] moves.contains(m),
{
    broadcast use vstd::seq_lib::group_to_multiset_ensures;

    assert forall|m: Move| #[trigger] moves.contains(m) by {
        assert(front.contains(m));
        let p = choose|p: int| 0 <= p < 4 && front[p] == m;
        if p < 4 - rem {
            assert(moves[p] == m);
        } else {
            let ft = front.subrange(4 - rem, 4);
            assert(ft[p - (4 - rem)] == m);
            assert(ft.contains(m));
            assert(ft.to_multiset().count(m) > 0);
            assert(t.to_multiset().count(m) > 0);
            assert(t.contains(m));
            let q = choose|q: int| 0 <= q < t.len() && t[q] == m;
            assert(moves[h.len() + q] == m);
        }
    }
}

/// Moves with the same index are the same move.
proof fn lemma_move_index_injective(a: Move, b: Move)
    requires
        move_index(a) == move_index(b),
    ensures
        a == b,
{
}

/// The move list with the given moves put at its first places, each trading
/// places with the move that stood there, then the remaining places shuffled:
/// every move stays in the list.
pub fn rand_rem_moves<R: Rand>(r: &mut R, mv_one: Option<Move>, mv_two: Option<Move>) -> (moves: [Move; 4])
    ensures
        ({
            let (front, rem) = rem_moves_front(mv_one, mv_two);
            &&& moves@.subrange(0, 4 - rem) == front.subrange(0, 4 - rem)
            &&& moves@.subrange(4 - rem, 4).to_multiset() == front.subrange(4 - rem, 4).to_multiset()
            &&& R::shuffle_rotates() ==> moves@.subrange(4 - rem, 4) == front.subrange(4 - rem + 1, 4).push(
                front[4 - rem],
            )
        }),
        forall|m: Move| #[trigger] moves@.contains(m),
{
    let mut move_list = [Move::Left, Move::Right, Move::Up, Move::Down];
    assert(move_list@ == all_moves());
    let rem: usize = if mv_one.is_some() && mv_two.is_some() {
        swap_in(&mut move_list, mv_one.unwrap(), 0);
        swap_in(&mut move_list, mv_two.unwrap(), 1);
        2
    } else if mv_one.is_some() {
        swap_in(&mut move_list, mv_one.unwrap(), 0);
        3
    } else if mv_two.is_some() {
        swap_in(&mut move_list, mv_two.unwrap(), 0);
        3
    } else {
        4
    };
    let ghost front = move_list@;
    let ghost mut h: Seq<Move> = Seq::empty();
    let ghost mut t: Seq<Move> = Seq::empty();
    assert(front == rem_moves_front(mv_one, mv_two).0);
    assert(rem == rem_moves_front(mv_one, mv_two).1);
    {
        let whole: &mut [Move] = &mut move_list;
        let (head, tail) = whole.split_at_mut(4 - rem);
        r.shuffle(tail, rem);
        assert(head@ == front.subrange(0, 4 - rem));
        proof {
            h = head@;
            t = tail@;
        }
    }
    assert(move_list@ == h + t);
    assert(move_list@.subrange(0, 4 - rem as int) =~= h);
    assert(move_list@.subrange(4 - rem as int, 4) =~= t);
    proof {
        let all = all_moves();
        assert forall|m: Move| all.contains(m) by {
            match m {
                Move::Left => assert(all[0] == m),
                Move::Right => assert(all[1] == m),
                Move::Up => assert(all[2] == m),
                Move::Down => assert(all[3] == m),
            }
        }
        if mv_one.is_some() && mv_two.is_some() {
            lemma_swap_in_all(all, mv_one.unwrap(), 0);
            lemma_swap_in_all(spec_swap_in(all, mv_one.unwrap(), 0), mv_two.unwrap(), 1);
        } else if mv_one.is_some() {
            lemma_swap_in_all(all, mv_one.unwrap(), 0);
        } else if mv_two.is_some() {
            lemma_swap_in_all(all, mv_two.unwrap(), 0);
        }
        assert(t.to_multiset() == front.subrange(4 - rem as int, 4).to_multiset());
        lemma_rem_moves_all(front, h, t, rem as int, move_list@);
    }
    move_list
}

/// The errors that the library and the server report.
#[derive(Debug, Clone, PartialEq, Eq)]
pub enum Error {
    IoError(String),
    SerdeError(String),
    RequestError(String),
    BadBoard(String),
    BadBoardReq(String),
    BadBoardStr(String),
    LockHeld(String),
    WorkerError(String),
    ResourceError(String),
}


/// The name of a move.
pub open spec fn move_name(mv: Move) -> Seq<char> {
    match mv {
        Move::Left => seq!['L', 'e', 'f', 't'],
        Move::Right => seq!['R', 'i', 'g', 'h', 't'],
        Move::Up => seq!['U', 'p'],
        Move::Down => seq!['D', 'o', 'w', 'n'],
    }
}

impl Move {
    /// The name of the move: `Left`, `Right`, `Up` or `Down`.
    pub fn to_string(&self) -> (r: String)
        ensures
            r@ == move_name(*self),
    {
        proof {
            reveal_strlit("Left");
            reveal_strlit("Right");
            reveal_strlit("Up");
            reveal_strlit("Down");
        }
        match self {
            Move::Left => String::from_str("Left"),
            Move::Right => String::from_str("Right"),
            Move::Up => String::from_str("Up"),
            Move::Down => String::from_str("Down"),
        }
    }
}

/// The text of an error: its kind, a colon and a space, and its message.
pub open spec fn error_text(e: Error) -> Seq<char> {
    match e {
        Error::IoError(s) => "IoError: "@ + s@,
        Error::SerdeError(s) => "SerdeError: "@ + s@,
        Error::RequestError(s) => "RequestError: "@ + s@,
        Error::BadBoard(s) => "BadBoard: "@ + s@,
        Error::BadBoardReq(s) => "BadBoardReq: "@ + s@,
        Error::BadBoardStr(s) => "BadBoardStr: "@ + s@,
        Error::LockHeld(s) => "LockHeld: "@ + s@,
        Error::WorkerError(s) => "WorkerError: "@ + s@,
        Error::ResourceError(s) => "ResourceError: "@ + s@,
    }
}

impl Error {
    /// The text of the error, as a log line shows it.
    pub fn to_string(&self) -> (r: String)
        ensures
            r@ == error_text(*self),
    {
        match self {
            Error::IoError(s) => String::from_str("IoError: ").concat(s.as_str()),
            Error::SerdeError(s) => String::from_str("SerdeError: ").concat(s.as_str()),
            Error::RequestError(s) => String::from_str("RequestError: ").concat(s.as_str()),
            Error::BadBoard(s) => String::from_str("BadBoard: ").concat(s.as_str()),
            Error::BadBoardReq(s) => String::from_str("BadBoardReq: ").concat(s.as_str()),
            Error::BadBoardStr(s) => String::from_str("BadBoardStr: ").concat(s.as_str()),
            Error::LockHeld(s) => String::from_str("LockHeld: ").concat(s.as_str()),
            Error::WorkerError(s) => String::from_str("WorkerError: ").concat(s.as_str()),
            Error::ResourceError(s) => String::from_str("ResourceError: ").concat(s.as_str()),
        }
    }
}

} // verus!
