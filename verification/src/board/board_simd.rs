use vstd::prelude::*;

use crate::board::{in_grid, spec_move_to_coord, Board, BoardSquare};
use crate::config::{MAX_BOARD_SIZE, MAX_SNAKES};
use crate::game::Rules;
use crate::util::{move_index, Coord, Move};

verus! {

/// For each of eight squares written as bit sets, whether it has one of `bits`.
pub fn any_bits_set_simd(sqrs: [u8; 8], bits: u8) -> (r: [bool; 8])
    ensures
        forall|i: int| 0 <= i < 8 ==> #[trigger] r[i] == (sqrs[i] & bits != 0),
{
    let mut r = [false; 8];
    let mut i: usize = 0;
    while i < 8
        invariant
            i <= 8,
            forall|j: int| 0 <= j < i ==> #[trigger] r[j] == (sqrs[j] & bits != 0),
        decreases 8 - i,
    {
        r[i] = sqrs[i] & bits != 0;
        i = i + 1;
    }
    r
}

/// The step along x and y of a move: Left and Right move x, Up and Down move y.
pub open spec fn move_dx(mv: Move) -> int {
    match mv {
        Move::Left => -1,
        Move::Right => 1,
        _ => 0,
    }
}

pub open spec fn move_dy(mv: Move) -> int {
    match mv {
        Move::Up => 1,
        Move::Down => -1,
        _ => 0,
    }
}

/// One lane of `move_to_coord_simd`: a coordinate moved by `d`, wrapped round
/// `n` when the rules wrap and round the `u16` range otherwise.
pub open spec fn lane_step(v: u16, d: int, n: int, wrapped: bool) -> u16 {
    if wrapped {
        ((v + d) % n) as u16
    } else {
        ((v + d) % 0x1_0000) as u16
    }
}

/// A lane step moves an on-board coordinate as `move_to_coord` does, a
/// coordinate of -1 showing as its `u16` value.
pub proof fn lemma_lane_step_move(c: Coord, mv: Move, rules: Rules, w: int, h: int)
    requires
        1 <= w <= MAX_BOARD_SIZE,
        1 <= h <= MAX_BOARD_SIZE,
        in_grid(c, w, h),
    ensures
        lane_step(c.x as u16, move_dx(mv), w, rules is Wrapped) == ((spec_move_to_coord(c, mv, rules, w, h).x
            + 0x1_0000) % 0x1_0000) as u16,
        lane_step(c.y as u16, move_dy(mv), h, rules is Wrapped) == ((spec_move_to_coord(c, mv, rules, w, h).y
            + 0x1_0000) % 0x1_0000) as u16,
{
    let x = c.x as int + move_dx(mv);
    let y = c.y as int + move_dy(mv);
    assert(c.x as u16 == c.x as int);
    assert(c.y as u16 == c.y as int);
    if rules is Wrapped {
        assert(0 <= x % w < w);
        assert(0 <= y % h < h);
    }
}

fn step_lane(v: u16, d: i32, n: i32, wrapped: bool) -> (r: u16)
    requires
        -1 <= d <= 1,
        1 <= n <= MAX_BOARD_SIZE,
    ensures
        r == lane_step(v, d as int, n as int, wrapped),
{
    let s: i32 = v as i32 + d;
    if wrapped {
        let m = (s + n) % n;
        proof {
            vstd::arithmetic::div_mod::lemma_fundamental_div_mod(s as int, n as int);
            let q = s as int / n as int;
            let r = s as int % n as int;
            assert((q + 1) * n == q * n + n) by (nonlinear_arith);
            assert(n * q == q * n) by (nonlinear_arith);
            vstd::arithmetic::div_mod::lemma_fundamental_div_mod_converse(s + n, n as int, q + 1, r);
        }
        m as u16
    } else {
        let m = if s < 0 {
            s + 0x1_0000
        } else if s >= 0x1_0000 {
            s - 0x1_0000
        } else {
            s
        };
        proof {
            if s < 0 {
                vstd::arithmetic::div_mod::lemma_fundamental_div_mod_converse(s as int, 0x1_0000, -1, m as int);
            } else if s >= 0x1_0000 {
                vstd::arithmetic::div_mod::lemma_fundamental_div_mod_converse(s as int, 0x1_0000, 1, m as int);
            } else {
                vstd::arithmetic::div_mod::lemma_fundamental_div_mod_converse(s as int, 0x1_0000, 0, m as int);
            }
        }
        m as u16
    }
}

impl Board {
    /// Eight squares from index `idx`: those before `len` (and the end of the
    /// squares), `Empty` past it.
    pub fn at_idx_simd(&self, idx: usize, len: usize) -> (r: [BoardSquare; 8])
        requires
            self.wf(),
            idx <= len <= MAX_BOARD_SIZE,
        ensures
            forall|i: int| 0 <= i < 8 ==> #[trigger] r[i] == if idx + i < len {
                self.cells()[idx + i]
            } else {
                BoardSquare::Empty
            },
    {
        let mut r = [BoardSquare::Empty; 8];
        let mut i: usize = 0;
        while i < 8
            invariant
                self.wf(),
                idx <= len <= MAX_BOARD_SIZE,
                i <= 8,
                forall|j: int| 0 <= j < i ==> #[trigger] r[j] == if idx + j < len {
                    self.cells()[idx + j]
                } else {
                    BoardSquare::Empty
                },
                forall|j: int| i <= j < 8 ==> #[trigger] r[j] == BoardSquare::Empty,
            decreases 8 - i,
        {
            if idx + i < len {
                r[i] = self.board_mat[idx + i];
            }
            i = i + 1;
        }
        r
    }

    /// The heads of the four snake slots as `[x0, y0, x1, y1, ...]`.
    pub fn snake_head_simd(&self) -> (r: [u16; 8])
        requires
            self.wf(),
        ensures
            forall|s: int| 0 <= s < MAX_SNAKES ==> #[trigger] r[2 * s] == self.snakes[s].head.x && r[2 * s + 1]
                == self.snakes[s].head.y,
    {
        let r = [
            self.snakes[0].head.x as u16,
            self.snakes[0].head.y as u16,
            self.snakes[1].head.x as u16,
            self.snakes[1].head.y as u16,
            self.snakes[2].head.x as u16,
            self.snakes[2].head.y as u16,
            self.snakes[3].head.x as u16,
            self.snakes[3].head.y as u16,
        ];
        assert forall|s: int| 0 <= s < MAX_SNAKES implies #[trigger] r[2 * s] == self.snakes[s].head.x && r[2 * s + 1]
            == self.snakes[s].head.y by {
            assert(self.in_bounds(self.snakes[s].head));
            if s == 0 {
            } else if s == 1 {
            } else if s == 2 {
            } else {
            }
        }
        r
    }

    /// For four coordinates given as `[x0, y0, x1, y1, ...]`, whether each lies
    /// on the board.
    pub fn on_board_simd(&self, squares: [u16; 8]) -> (r: [bool; 4])
        ensures
            forall|s: int| 0 <= s < 4 ==> #[trigger] r[s] == (squares[2 * s] < self.width && squares[2 * s + 1]
                < self.height),
    {
        let mut r = [false; 4];
        let mut s: usize = 0;
        while s < 4
            invariant
                s <= 4,
                forall|j: int| 0 <= j < s ==> #[trigger] r[j] == (squares[2 * j] < self.width && squares[2 * j + 1]
                    < self.height),
            decreases 4 - s,
        {
            r[s] = (squares[2 * s] as i32) < self.width && (squares[2 * s + 1] as i32) < self.height;
            s = s + 1;
        }
        r
    }

    /// Four coordinates given as `[x0, y0, x1, y1, ...]`, each moved one step by
    /// `mv`: round the board when the rules wrap, and round the `u16` range
    /// otherwise (so that a step off the low edge leaves the board).
    pub fn move_to_coord_simd(&self, heads: [u16; 8], mv: Move, rules: Rules) -> (r: [u16; 8])
        requires
            self.dims_ok(),
        ensures
            forall|s: int|
                0 <= s < 4 ==> #[trigger] r[2 * s] == lane_step(heads[2 * s], move_dx(mv), self.width as int, rules is Wrapped)
                    && r[2 * s + 1] == lane_step(heads[2 * s + 1], move_dy(mv), self.height as int, rules is Wrapped),
    {
        let dx: i32 = match mv {
            Move::Left => -1,
            Move::Right => 1,
            _ => 0,
        };
        let dy: i32 = match mv {
            Move::Up => 1,
            Move::Down => -1,
            _ => 0,
        };
        let wrapped = match rules {
            Rules::Wrapped => true,
            _ => false,
        };
        let w = self.width;
        let h = self.height;
        let r = [
            step_lane(heads[0], dx, w, wrapped),
            step_lane(heads[1], dy, h, wrapped),
            step_lane(heads[2], dx, w, wrapped),
            step_lane(heads[3], dy, h, wrapped),
            step_lane(heads[4], dx, w, wrapped),
            step_lane(heads[5], dy, h, wrapped),
            step_lane(heads[6], dx, w, wrapped),
            step_lane(heads[7], dy, h, wrapped),
        ];
        assert forall|s: int|
            0 <= s < 4 implies #[trigger] r[2 * s] == lane_step(heads[2 * s], move_dx(mv), self.width as int, rules is Wrapped)
                && r[2 * s + 1] == lane_step(heads[2 * s + 1], move_dy(mv), self.height as int, rules is Wrapped) by {
            if s == 0 {
            } else if s == 1 {
            } else if s == 2 {
            } else {
            }
        }
        r
    }
}

} // verus!
