use vstd::prelude::*;

use crate::board::board_rules::{
    hazard_damage, health_fits, move_drawn, owns_head, same_frame, snake_move, strong_drawn, turn_fits,
};
use crate::board::{
    count_alive, grid_index, in_grid, movable, spec_move_to_coord, sq_hazard, sq_is_body, sq_is_food, sq_is_head, sq_is_tail,
    sq_owner, sq_owner_ok, sq_with_hazard, Board, BoardSquare, Snake,
};
use crate::config::{MAX_BOARD_SIZE, MAX_SNAKES};
use crate::game::{Game, GameMap, Rules};
use crate::random::{FastRand, Rand};
use crate::util::{move_bits, move_index, move_of_index, Coord, Move};

verus! {

/// Squares change only in their contents, not in which snake owns them, and
/// food and hazards stay where they are.
pub open spec fn kinds_kept(a: Seq<BoardSquare>, b: Seq<BoardSquare>) -> bool {
    forall|i: int|
        0 <= i < MAX_BOARD_SIZE ==> sq_hazard(#[trigger] b[i]) == sq_hazard(a[i])
            && sq_is_food(b[i]) == sq_is_food(a[i]) && (sq_is_head(a[i]) ==> b[i] == a[i])
            && (sq_is_head(b[i]) ==> b[i] == a[i])
}

/// The tail stage changes at most a snake's tail and uses up stacked segments.
pub open spec fn tail_step_kept(a: Snake, b: Snake) -> bool {
    &&& b.health == a.health
    &&& b.len == a.len
    &&& b.head == a.head
    &&& b.old_head == a.old_head
    &&& b.eliminated == a.eliminated
    &&& b.num_stacked <= a.num_stacked
}

/// Only squares of snake `s` change, and they become empty squares with their
/// hazard kept.
pub open spec fn only_cleared(a: Seq<BoardSquare>, b: Seq<BoardSquare>, s: int) -> bool {
    forall|i: int|
        0 <= i < MAX_BOARD_SIZE ==> #[trigger] b[i] == a[i] || (sq_owner(a[i]) == Some(s as u8)
            && b[i] == sq_with_hazard(BoardSquare::Empty, sq_hazard(a[i])))
}

/// Every square keeps its hazard flag.
pub open spec fn hazards_kept(a: Seq<BoardSquare>, b: Seq<BoardSquare>) -> bool {
    forall|i: int| 0 <= i < MAX_BOARD_SIZE ==> #[trigger] sq_hazard(b[i]) == sq_hazard(a[i])
}

/// Every square of `b` is that of `a` or an emptied square.
pub open spec fn cleared_only(a: Seq<BoardSquare>, b: Seq<BoardSquare>) -> bool {
    forall|i: int|
        0 <= i < MAX_BOARD_SIZE ==> #[trigger] b[i] == a[i] || b[i] is Empty || b[i] is Hazard
}

/// A step of snake `s` changes only squares of `s`: a changed square is
/// emptied or keeps its owner, and a body square stays or becomes a tail.
pub open spec fn owned_step(a: Seq<BoardSquare>, b: Seq<BoardSquare>, s: int) -> bool {
    forall|i: int|
        0 <= i < MAX_BOARD_SIZE ==> {
            &&& sq_owner(a[i]) != Some(s as u8) ==> #[trigger] b[i] == a[i]
            &&& b[i] != a[i] ==> sq_owner(b[i]) is None || sq_owner(b[i]) == sq_owner(a[i])
            &&& sq_is_body(a[i]) ==> b[i] == a[i] || (sq_is_tail(b[i]) && sq_owner(b[i]) == sq_owner(a[i]))
        }
}

/// Body squares stay, or become tails of the same snake.
pub open spec fn bodies_kept(a: Seq<BoardSquare>, b: Seq<BoardSquare>) -> bool {
    forall|i: int|
        0 <= i < MAX_BOARD_SIZE && sq_is_body(a[i]) ==> #[trigger] b[i] == a[i] || (sq_is_tail(b[i]) && sq_owner(b[i])
            == sq_owner(a[i]))
}

proof fn lemma_owned_step_update(a: Seq<BoardSquare>, b: Seq<BoardSquare>, k: int, v: BoardSquare, s: int)
    requires
        owned_step(a, b, s),
        0 <= k < MAX_BOARD_SIZE,
        b[k] == a[k],
        sq_owner(a[k]) == Some(s as u8),
        sq_owner(v) is None || sq_owner(v) == sq_owner(a[k]),
        sq_is_body(a[k]) ==> v == a[k] || (sq_is_tail(v) && sq_owner(v) == sq_owner(a[k])),
        b.len() == MAX_BOARD_SIZE,
    ensures
        owned_step(a, b.update(k, v), s),
{
    let c = b.update(k, v);
    assert forall|i: int| 0 <= i < MAX_BOARD_SIZE implies {
        &&& sq_owner(a[i]) != Some(s as u8) ==> #[trigger] c[i] == a[i]
        &&& c[i] != a[i] ==> sq_owner(c[i]) is None || sq_owner(c[i]) == sq_owner(a[i])
        &&& sq_is_body(a[i]) ==> c[i] == a[i] || (sq_is_tail(c[i]) && sq_owner(c[i]) == sq_owner(a[i]))
    } by {
        if i != k {
            assert(c[i] == b[i]);
        }
    }
}

/// The move that a tail square of snake `s` points along, towards the head.
pub open spec fn own_tail_move(sq: BoardSquare, s: int) -> Option<Move> {
    match sq {
        BoardSquare::SnakeTail(i, m) | BoardSquare::SnakeTailHazard(i, m) => if i as int == s {
            Some(m)
        } else {
            None
        },
        _ => None,
    }
}

/// The square at cell `i` of `a` is the tail of a snake with health and no
/// stacked segments that the tail stage moves on: the snake's tail lies there
/// and the square points to a square on the board.
pub open spec fn tail_leaves(a: &Board, rules: Rules, i: int) -> bool {
    match sq_owner(a.cells()[i]) {
        Some(j) => {
            let sn = a.snakes[j as int];
            &&& (j as int) < a.num_snakes
            &&& sn.health > 0
            &&& sn.num_stacked <= 0
            &&& grid_index(sn.tail, a.width as int) == i
            &&& match own_tail_move(a.cells()[i], j as int) {
                Some(m) => in_grid(
                    spec_move_to_coord(sn.tail, m, rules, a.width as int, a.height as int),
                    a.width as int,
                    a.height as int,
                ),
                None => false,
            }
        },
        None => false,
    }
}

/// The snake and the squares after snake `s`, drawn on squares `cells` of a
/// `w` by `h` board, moves its tail: a stacked segment is used up; otherwise,
/// when its tail square is its own and points to a square on the board, that
/// square becomes the tail (a body square of the snake turns into a tail
/// square) and the old tail square is emptied; else nothing changes.
pub open spec fn tail_advance(cells: Seq<BoardSquare>, sn: Snake, s: int, rules: Rules, w: int, h: int) -> (
    Snake,
    Seq<BoardSquare>,
) {
    let t = sn.tail;
    if sn.num_stacked > 0 {
        (Snake { num_stacked: (sn.num_stacked - 1) as i32, ..sn }, cells)
    } else {
        match own_tail_move(cells[grid_index(t, w)], s) {
            Some(m) => {
                let next = spec_move_to_coord(t, m, rules, w, h);
                if in_grid(next, w, h) {
                    let mid = cells.update(
                        grid_index(t, w),
                        sq_with_hazard(BoardSquare::Empty, sq_hazard(cells[grid_index(t, w)])),
                    );
                    let nsq = mid[grid_index(next, w)];
                    let out = match nsq {
                        BoardSquare::SnakeBody(i, m2) | BoardSquare::SnakeBodyHazard(i, m2) => if i as int == s {
                            mid.update(grid_index(next, w), sq_with_hazard(BoardSquare::SnakeTail(i, m2), sq_hazard(nsq)))
                        } else {
                            mid
                        },
                        _ => mid,
                    };
                    (Snake { tail: next, ..sn }, out)
                } else {
                    (sn, cells)
                }
            },
            None => (sn, cells),
        }
    }
}

/// No snake before `n` with health has its head at `c` or moves its head to
/// `c`.
pub open spec fn untouched(a: &Board, heads: [Coord; 4], n: int, c: Coord) -> bool {
    forall|v: int|
        0 <= v < n && v < a.num_snakes && a.snakes[v].health > 0 ==> #[trigger] heads[v] != c && a.snakes[v].head != c
}

/// Snake `u` eats the food at its new head square in the head stage: it has
/// health, its head moves onto a food square of `a` that no snake before it
/// with health touches.
pub open spec fn takes_food(a: &Board, heads: [Coord; 4], u: int) -> bool {
    &&& 0 <= u < a.num_snakes
    &&& a.snakes[u].health > 0
    &&& a.in_bounds(heads[u])
    &&& sq_is_food(a.square(heads[u]))
    &&& heads[u] != a.snakes[u].head
    &&& untouched(a, heads, u, heads[u])
}

/// How many of the snakes `0..n` take food in the head stage.
pub open spec fn food_taken(a: &Board, heads: [Coord; 4], n: int) -> int
    decreases n,
{
    if n <= 0 {
        0
    } else {
        food_taken(a, heads, n - 1) + if takes_food(a, heads, n - 1) {
            1int
        } else {
            0int
        }
    }
}

/// A snake without health touches no square in the head stage.
proof fn lemma_untouched_dead(a: &Board, heads: [Coord; 4], idx: int)
    requires
        0 <= idx,
        a.snakes[idx].health <= 0,
    ensures
        forall|c: Coord| #[trigger] untouched(a, heads, idx + 1, c) == untouched(a, heads, idx, c),
        !takes_food(a, heads, idx),
{
    assert forall|c: Coord| #[trigger] untouched(a, heads, idx + 1, c) == untouched(a, heads, idx, c) by {
        if untouched(a, heads, idx, c) {
            assert forall|v: int| 0 <= v < idx + 1 && v < a.num_snakes && a.snakes[v].health > 0 implies #[trigger] heads[v]
                != c && a.snakes[v].head != c by {
                if v < idx {
                    assert(heads[v] != c && a.snakes[v].head != c);
                }
            }
        }
    }
}

/// One snake's step of the head stage: the squares it touches hold no food
/// afterwards, and it takes food exactly when `takes_food` says.
proof fn lemma_food_step(a: &Board, start: &Board, cur: &Board, heads: [Coord; 4], idx: int, nsq: BoardSquare)
    requires
        a.wf(),
        0 <= idx < a.num_snakes,
        a.snakes[idx].health > 0,
        a.in_bounds(heads[idx]),
        start.width == a.width,
        start.height == a.height,
        cur.width == a.width,
        cur.height == a.height,
        forall|c: Coord|
            a.in_bounds(c) ==> (sq_is_food(#[trigger] start.square(c)) == (sq_is_food(a.square(c)) && untouched(
                a,
                heads,
                idx,
                c,
            ))),
        forall|c: Coord|
            a.in_bounds(c) && c != a.snakes[idx].head && c != heads[idx] ==> #[trigger] cur.square(c) == start.square(c),
        !sq_is_food(cur.square(heads[idx])),
        !sq_is_food(cur.square(a.snakes[idx].head)),
        heads[idx] != a.snakes[idx].head ==> nsq == start.square(heads[idx]),
        heads[idx] == a.snakes[idx].head ==> !sq_is_food(nsq),
    ensures
        forall|c: Coord|
            a.in_bounds(c) ==> (sq_is_food(#[trigger] cur.square(c)) == (sq_is_food(a.square(c)) && untouched(
                a,
                heads,
                idx + 1,
                c,
            ))),
        takes_food(a, heads, idx) == sq_is_food(nsq),
{
    assert forall|c: Coord| a.in_bounds(c) implies (sq_is_food(#[trigger] cur.square(c)) == (sq_is_food(a.square(c))
        && untouched(a, heads, idx + 1, c))) by {
        if c == a.snakes[idx].head || c == heads[idx] {
            assert(!untouched(a, heads, idx + 1, c));
        } else {
            assert(untouched(a, heads, idx + 1, c) == untouched(a, heads, idx, c));
        }
    }
}

/// The square that snake `s` of `a` leaves behind its head when it moves
/// along `mv`: a body square pointing along `mv`, or the tail square when its
/// head was its tail, with the hazard of the square.
pub open spec fn neck_square(a: &Board, s: int, mv: Move) -> BoardSquare {
    let sn = a.snakes[s];
    sq_with_hazard(
        if sn.head == sn.tail {
            BoardSquare::SnakeTail(s as u8, mv)
        } else {
            BoardSquare::SnakeBody(s as u8, mv)
        },
        sq_hazard(a.square(sn.head)),
    )
}

/// No other snake of `a` with health has its head where snake `s` has it.
pub open spec fn heads_apart(a: &Board, s: int) -> bool {
    forall|w: int| 0 <= w < a.num_snakes && w != s && a.snakes[w].health > 0 ==> #[trigger] a.snakes[w].head != a.snakes[s].head
}

/// The head stage leaves the neck of snake `s` behind it: when the snake has
/// health, was not eliminated, moves its head off its square, and no other
/// snake with health has its head there, that square is `neck_square`.
pub open spec fn neck_placed(a: &Board, b: &Board, moves: u16, heads: [Coord; 4], s: int) -> bool {
    0 <= s < a.num_snakes && a.snakes[s].health > 0 && !a.snakes[s].eliminated && heads[s] != a.snakes[s].head
        && heads_apart(a, s) ==> b.square(a.snakes[s].head) == neck_square(a, s, snake_move(moves, s))
}

/// Snake `u` of `a` has health, was not eliminated, owns its head square,
/// moves its head off it, and no other snake with health has its head there:
/// its head square becomes its neck and stays its own.
pub open spec fn leaves_neck(a: &Board, heads: [Coord; 4], u: int) -> bool {
    &&& 0 <= u < a.num_snakes
    &&& a.snakes[u].health > 0
    &&& !a.snakes[u].eliminated
    &&& owns_head(a, u, a.snakes[u].head)
    &&& heads[u] != a.snakes[u].head
    &&& heads_apart(a, u)
}

/// During the head stage, before snake `n`: the head square of a snake that
/// `leaves_neck` stays its own, and is its head exactly until the snake's
/// turn.
pub open spec fn neck_held(a: &Board, b: &Board, heads: [Coord; 4], u: int, n: int) -> bool {
    leaves_neck(a, heads, u) ==> sq_owner(b.square(a.snakes[u].head)) == Some(u as u8) && (n <= u <==> sq_is_head(
        b.square(a.snakes[u].head),
    ))
}

/// One snake's step of the head stage keeps the head squares of the snakes
/// that `leaves_neck` names their own.
proof fn lemma_neck_step(a: &Board, start: &Board, cur: &Board, heads: [Coord; 4], idx: int)
    requires
        a.wf(),
        0 <= idx < a.num_snakes,
        start.width == a.width,
        cur.width == a.width,
        forall|u: int| 0 <= u < MAX_SNAKES ==> #[trigger] neck_held(a, start, heads, u, idx),
        a.snakes[idx].health > 0 ==> forall|c: Coord|
            a.in_bounds(c) && c != a.snakes[idx].head && c != heads[idx] ==> #[trigger] cur.square(c) == start.square(c),
        a.snakes[idx].health > 0 && heads[idx] != a.snakes[idx].head ==> cur.square(heads[idx]) == arrive_sq(
            a,
            start.square(heads[idx]),
            idx,
        ),
        a.snakes[idx].health > 0 && heads[idx] != a.snakes[idx].head ==> sq_owner(cur.square(a.snakes[idx].head))
            == Some(idx as u8) && !sq_is_head(cur.square(a.snakes[idx].head)),
        a.snakes[idx].health <= 0 ==> cur.cells() == start.cells(),
    ensures
        forall|u: int| 0 <= u < MAX_SNAKES ==> #[trigger] neck_held(a, cur, heads, u, idx + 1),
{
    assert forall|u: int| 0 <= u < MAX_SNAKES implies #[trigger] neck_held(a, cur, heads, u, idx + 1) by {
        if leaves_neck(a, heads, u) {
            let h = a.snakes[u].head;
            assert(neck_held(a, start, heads, u, idx));
            if a.snakes[idx].health > 0 {
                if u == idx {
                } else {
                    assert(a.snakes[idx].head != h);
                    if heads[idx] == h {
                        assert(heads[idx] != a.snakes[idx].head);
                        assert(cur.square(h) == arrive_sq(a, start.square(h), idx));
                        assert(!a.snakes[u].eliminated);
                        assert(cur.square(h) == start.square(h));
                    } else {
                        assert(cur.square(h) == start.square(h));
                    }
                }
            } else {
                assert(cur.square(h) == start.square(h));
            }
        }
    }
}

/// After the head stage, a snake whose head moved onto the head square that
/// another snake leaves as its neck does not own its new head square.
pub open spec fn neck_blocks(a: &Board, b: &Board, heads: [Coord; 4], s: int, u: int) -> bool {
    0 <= s < a.num_snakes && a.snakes[s].health > 0 && u != s && leaves_neck(a, heads, u) && heads[s]
        == a.snakes[u].head ==> !owns_head(b, s, heads[s])
}

/// No square on the board holds a head, body or tail of snake `s`.
pub open spec fn snake_gone(b: &Board, s: int) -> bool {
    forall|c: Coord| b.in_bounds(c) ==> sq_owner(#[trigger] b.square(c)) != Some(s as u8)
}

/// Emptying squares keeps a snake off the board.
proof fn lemma_gone_cleared(a: &Board, b: &Board, t: int)
    requires
        a.wf(),
        snake_gone(a, t),
        b.width == a.width,
        b.height == a.height,
        a.cells().len() == MAX_BOARD_SIZE,
        forall|i: int|
            0 <= i < MAX_BOARD_SIZE ==> #[trigger] b.cells()[i] == a.cells()[i] || sq_owner(b.cells()[i]) is None,
    ensures
        snake_gone(b, t),
{
    assert forall|c: Coord| b.in_bounds(c) implies sq_owner(#[trigger] b.square(c)) != Some(t as u8) by {
        crate::board::lemma_grid_index(c, a.width as int, a.height as int);
        assert(sq_owner(a.square(c)) != Some(t as u8));
    }
}

/// The squares after snake `s` is taken off the first `n` of them: each
/// square of the snake among them is emptied, its hazard kept.
pub open spec fn owner_cleared(cells: Seq<BoardSquare>, s: int, n: int) -> Seq<BoardSquare> {
    Seq::new(
        cells.len(),
        |i: int|
            if i < n && sq_owner(cells[i]) == Some(s as u8) {
                sq_with_hazard(BoardSquare::Empty, sq_hazard(cells[i]))
            } else {
                cells[i]
            },
    )
}

/// The squares after the snakes `0..n` that had health before the health
/// stage (`was_alive`) and have none now are taken off the board, one after
/// the other in slot order.
pub open spec fn starved_removed(
    snakes: Seq<Snake>,
    cells: Seq<BoardSquare>,
    was_alive: Seq<bool>,
    rules: Rules,
    w: int,
    h: int,
    n: int,
) -> Seq<BoardSquare>
    decreases n,
{
    if n <= 0 {
        cells
    } else {
        let cs = starved_removed(snakes, cells, was_alive, rules, w, h, n - 1);
        if was_alive[n - 1] && snakes[n - 1].health <= 0 {
            owner_cleared(cs, n - 1, w * h)
        } else {
            cs
        }
    }
}

/// The snakes and squares after the tails of the snakes `0..n` that have
/// health move, one after the other in slot order.
pub open spec fn tails_after(
    snakes: Seq<Snake>,
    cells: Seq<BoardSquare>,
    rules: Rules,
    w: int,
    h: int,
    n: int,
) -> (Seq<Snake>, Seq<BoardSquare>)
    decreases n,
{
    if n <= 0 {
        (snakes, cells)
    } else {
        let (ss, cs) = tails_after(snakes, cells, rules, w, h, n - 1);
        if ss[n - 1].health > 0 {
            let (sn, out) = tail_advance(cs, ss[n - 1], n - 1, rules, w, h);
            (ss.update(n - 1, sn), out)
        } else {
            (ss, cs)
        }
    }
}

/// One square keeps its hazard, its food and its head.
pub open spec fn kind_kept(a: BoardSquare, b: BoardSquare) -> bool {
    sq_hazard(b) == sq_hazard(a) && sq_is_food(b) == sq_is_food(a) && (sq_is_head(a) ==> b == a)
        && (sq_is_head(b) ==> b == a)
}

proof fn lemma_kinds_kept_update(a: Seq<BoardSquare>, k: int, v: BoardSquare)
    requires
        a.len() == MAX_BOARD_SIZE,
        0 <= k < MAX_BOARD_SIZE,
        kind_kept(a[k], v),
    ensures
        kinds_kept(a, a.update(k, v)),
{
    assert forall|i: int| 0 <= i < MAX_BOARD_SIZE implies kind_kept(a[i], #[trigger] a.update(k, v)[i]) by {
        if i == k {
        } else {
        }
    }
}

proof fn lemma_kinds_kept_trans(a: Seq<BoardSquare>, b: Seq<BoardSquare>, c: Seq<BoardSquare>)
    requires
        kinds_kept(a, b),
        kinds_kept(b, c),
    ensures
        kinds_kept(a, c),
{
    assert forall|i: int| 0 <= i < MAX_BOARD_SIZE implies kind_kept(a[i], #[trigger] c[i]) by {
        assert(kind_kept(a[i], b[i]));
        assert(kind_kept(b[i], c[i]));
    }
}

proof fn lemma_kinds_kept_refl(a: Seq<BoardSquare>)
    ensures
        kinds_kept(a, a),
{
}

proof fn lemma_only_cleared_step(a: Seq<BoardSquare>, b: Seq<BoardSquare>, k: int, s: int)
    requires
        a.len() == MAX_BOARD_SIZE,
        b.len() == MAX_BOARD_SIZE,
        0 <= k < MAX_BOARD_SIZE,
        0 <= s < MAX_SNAKES,
        only_cleared(a, b, s),
        sq_owner(b[k]) == Some(s as u8),
    ensures
        only_cleared(a, b.update(k, sq_with_hazard(BoardSquare::Empty, sq_hazard(b[k]))), s),
{
    assert(b[k] == a[k]);
    let c = b.update(k, sq_with_hazard(BoardSquare::Empty, sq_hazard(b[k])));
    assert forall|i: int| 0 <= i < MAX_BOARD_SIZE implies #[trigger] c[i] == a[i] || (sq_owner(a[i]) == Some(s as u8)
        && c[i] == sq_with_hazard(BoardSquare::Empty, sq_hazard(a[i]))) by {
        if i != k {
            assert(c[i] == b[i]);
        }
    }
}

impl Board {
    /// Empties a square, keeping its hazard.
    fn clear_square(&mut self, c: Coord)
        requires
            old(self).wf(),
            old(self).in_bounds(c),
        ensures
            final(self).wf(),
            final(self).same_fields(old(self)),
            final(self).cells() == old(self).cells().update(
                grid_index(c, old(self).width as int),
                sq_with_hazard(BoardSquare::Empty, sq_hazard(old(self).square(c))),
            ),
    {
        let sq = self.at(c);
        let cleared = BoardSquare::Empty.with_hazard(sq.is_hazard());
        self.set_at(c, cleared);
    }

    /// Moves the tail of snake `s` one segment towards its head, or uses up one
    /// stacked tail segment.
    fn advance_tail(&mut self, s: usize, rules: Rules)
        requires
            old(self).wf(),
            s < MAX_SNAKES,
        ensures
            final(self).wf(),
            same_frame(final(self), old(self)),
            final(self).num_food == old(self).num_food,
            kinds_kept(old(self).cells(), final(self).cells()),
            forall|j: int| 0 <= j < MAX_SNAKES && j != s ==> #[trigger] final(self).snakes[j] == old(
                self,
            ).snakes[j],
            tail_step_kept(old(self).snakes[s as int], final(self).snakes[s as int]),
            owned_step(old(self).cells(), final(self).cells(), s as int),
            (final(self).snakes[s as int], final(self).cells()) == tail_advance(
                old(self).cells(),
                old(self).snakes[s as int],
                s as int,
                rules,
                old(self).width as int,
                old(self).height as int,
            ),
    {
        let mut sn = self.snakes[s];
        if sn.num_stacked > 0 {
            sn.num_stacked = sn.num_stacked - 1;
            self.set_snake(s, sn);
            return ;
        }
        let t = sn.tail;
        let tail_move = match self.at(t) {
            BoardSquare::SnakeTail(i, m) | BoardSquare::SnakeTailHazard(i, m) => if i as usize == s {
                Some(m)
            } else {
                None
            },
            _ => None,
        };
        let ghost orig = self.cells();
        proof {
            lemma_kinds_kept_refl(orig);
        }
        if let Some(m) = tail_move {
            let next = self.move_to_coord(t, m, rules);
            if self.on_board(next) {
                assert(self.square(t) is SnakeTail || self.square(t) is SnakeTailHazard);
                proof {
                    crate::board::lemma_grid_index(t, self.width as int, self.height as int);
                    lemma_kinds_kept_update(
                        orig,
                        grid_index(t, self.width as int),
                        sq_with_hazard(BoardSquare::Empty, sq_hazard(self.square(t))),
                    );
                }
                proof {
                    lemma_owned_step_update(
                        orig,
                        orig,
                        grid_index(t, self.width as int),
                        sq_with_hazard(BoardSquare::Empty, sq_hazard(self.square(t))),
                        s as int,
                    );
                }
                self.clear_square(t);
                let ghost mid = self.cells();
                let nsq = self.at(next);
                match nsq {
                    BoardSquare::SnakeBody(i, m2) | BoardSquare::SnakeBodyHazard(i, m2) => {
                        if i as usize == s {
                            let tail_sq = BoardSquare::SnakeTail(i, m2).with_hazard(
                                nsq.is_hazard(),
                            );
                            proof {
                                crate::board::lemma_grid_index(
                                    next,
                                    self.width as int,
                                    self.height as int,
                                );
                                lemma_kinds_kept_update(
                                    mid,
                                    grid_index(next, self.width as int),
                                    tail_sq,
                                );
                                lemma_kinds_kept_trans(orig, mid, self.cells().update(grid_index(next, self.width as int), tail_sq));
                                crate::board::lemma_grid_index(t, self.width as int, self.height as int);
                                assert(mid[grid_index(next, self.width as int)] == nsq);
                                assert(orig[grid_index(next, self.width as int)] == nsq);
                                lemma_owned_step_update(orig, mid, grid_index(next, self.width as int), tail_sq, s as int);
                            }
                            self.set_at(next, tail_sq);
                        }
                    },
                    _ => {},
                }
                sn.tail = next;
                self.set_snake(s, sn);
            }
        }
    }

    /// Takes snake `s` off the board: every square of the snake is emptied,
    /// its hazard kept.
    fn remove_body(&mut self, s: usize)
        requires
            old(self).wf(),
            s < MAX_SNAKES,
        ensures
            final(self).wf(),
            final(self).same_fields(old(self)),
            only_cleared(old(self).cells(), final(self).cells(), s as int),
            hazards_kept(old(self).cells(), final(self).cells()),
            final(self).cells() == owner_cleared(
                old(self).cells(),
                s as int,
                old(self).width * old(self).height,
            ),
            snake_gone(final(self), s as int),
    {
        let area = self.len();
        let w = self.width;
        let mut k: i32 = 0;
        assert(self.cells() =~= owner_cleared(old(self).cells(), s as int, 0));
        while k < area
            invariant
                self.wf(),
                self.same_fields(old(self)),
                area == self.width * self.height,
                w == self.width,
                0 <= k <= area,
                s < MAX_SNAKES,
                self.cells() == owner_cleared(old(self).cells(), s as int, k as int),
            decreases area - k,
        {
            let c = Coord { x: (k % w) as i8, y: (k / w) as i8 };
            proof {
                crate::board::board_str::lemma_index_coord(k as int, self.width as int, self.height as int);
                assert(c == crate::board::board_api::index_coord(k as int, w as int));
            }
            let own = match self.at(c) {
                BoardSquare::SnakeTail(i, _) | BoardSquare::SnakeTailHazard(i, _) | BoardSquare::SnakeBody(i, _)
                | BoardSquare::SnakeBodyHazard(i, _) | BoardSquare::SnakeHead(i) | BoardSquare::SnakeHeadHazard(i) => i
                    as usize == s,
                _ => false,
            };
            if own {
                self.clear_square(c);
            }
            proof {
                assert(self.cells() =~= owner_cleared(old(self).cells(), s as int, k + 1));
            }
            k = k + 1;
        }
        proof {
            assert forall|i: int| 0 <= i < MAX_BOARD_SIZE implies #[trigger] self.cells()[i] == old(self).cells()[i]
                || (sq_owner(old(self).cells()[i]) == Some(s as u8) && self.cells()[i] == sq_with_hazard(
                BoardSquare::Empty,
                sq_hazard(old(self).cells()[i]),
            )) by {}
            assert forall|i: int| 0 <= i < MAX_BOARD_SIZE implies #[trigger] sq_hazard(self.cells()[i]) == sq_hazard(
                old(self).cells()[i],
            ) by {}
            assert forall|c: Coord| self.in_bounds(c) implies sq_owner(#[trigger] self.square(c)) != Some(s as u8) by {
                crate::board::lemma_grid_index(c, self.width as int, self.height as int);
            }
        }
    }

    /// StageEliminationStandard, heads: every snake with health turns its old
    /// head into body and puts its head on the square it moves to, unless a
    /// head-on collision that it loses or a body is there.
    #[verifier::spinoff_prover]
    #[verifier::rlimit(80)]
    fn place_heads(&mut self, moves: u16, heads: &[Coord; 4])
        requires
            old(self).wf(),
            i32::MIN + MAX_SNAKES <= old(self).num_food,
            forall|s: int|
                0 <= s < old(self).num_snakes && old(self).snakes[s].health > 0 ==> old(
                    self,
                ).in_bounds(#[trigger] heads[s]),
        ensures
            final(self).wf(),
            same_frame(final(self), old(self)),
            old(self).num_food - MAX_SNAKES <= final(self).num_food <= old(self).num_food,
            final(self).num_food == old(self).num_food - food_taken(old(self), *heads, old(self).num_snakes as int),
            forall|s: int|
                0 <= s < MAX_SNAKES ==> #[trigger] head_placed(old(self), final(self), heads[s], s),
            forall|s: int, t: int|
                #[trigger] head_on_pair(old(self), *heads, s, t) && owns_head(final(self), s, heads[s]) ==> old(
                    self,
                ).snakes[s].len > old(self).snakes[t].len,
            forall|s: int|
                #[trigger] onto_body(old(self), *heads, s) ==> final(self).square(heads[s]) == old(self).square(heads[s]),
            forall|s: int| #[trigger] arrives_free(old(self), *heads, s) ==> owns_head(final(self), s, heads[s]),
            hazards_kept(old(self).cells(), final(self).cells()),
            forall|t: int|
                0 <= t < MAX_SNAKES && old(self).snakes[t].health <= 0 && snake_gone(old(self), t)
                    ==> #[trigger] snake_gone(final(self), t),
            forall|t: int| 0 <= t < MAX_SNAKES ==> #[trigger] neck_placed(old(self), final(self), moves, *heads, t),
            forall|s: int, u: int| 0 <= u < MAX_SNAKES ==> #[trigger] neck_blocks(old(self), final(self), *heads, s, u),
            forall|s: int, t: int|
                #[trigger] head_on_pair(old(self), *heads, s, t) && free_sq(old(self).square(heads[s])) && old(
                    self,
                ).snakes[s].len > old(self).snakes[t].len ==> owns_head(final(self), s, heads[s]),
    {
        let mut idx: usize = 0;
        while idx < self.num_snakes as usize
            invariant
                self.wf(),
                same_frame(self, old(self)),
                idx <= self.num_snakes,
                old(self).num_food - idx <= self.num_food <= old(self).num_food,
                self.num_food == old(self).num_food - food_taken(old(self), *heads, idx as int),
                0 <= food_taken(old(self), *heads, idx as int) <= idx,
                forall|c: Coord|
                    old(self).in_bounds(c) ==> (sq_is_food(#[trigger] self.square(c)) == (sq_is_food(old(self).square(c))
                        && untouched(old(self), *heads, idx as int, c))),
                i32::MIN + MAX_SNAKES <= old(self).num_food,
                forall|s: int|
                    0 <= s < old(self).num_snakes && old(self).snakes[s].health > 0 ==> old(
                        self,
                    ).in_bounds(#[trigger] heads[s]),
                forall|s: int|
                    0 <= s < idx ==> #[trigger] head_placed(old(self), self, heads[s], s),
                forall|s: int| idx <= s < MAX_SNAKES ==> #[trigger] self.snakes[s] == old(self).snakes[s],
                forall|j: int| 0 <= j < MAX_SNAKES ==> #[trigger] self.snakes[j].len == old(self).snakes[j].len,
                forall|j: int|
                    0 <= j < MAX_SNAKES ==> #[trigger] self.snakes[j].eliminated == old(self).snakes[j].eliminated,
                forall|s: int, t: int|
                    #[trigger] head_on_pair(old(self), *heads, s, t) ==> pair_state(old(self), self, *heads, s, t, idx as int),
                old(self).wf(),
                hazards_kept(old(self).cells(), self.cells()),
                forall|t: int|
                    0 <= t < MAX_SNAKES && old(self).snakes[t].health <= 0 && snake_gone(old(self), t)
                        ==> #[trigger] snake_gone(self, t),
                forall|t: int| 0 <= t < idx ==> #[trigger] neck_placed(old(self), self, moves, *heads, t),
                forall|u: int| 0 <= u < MAX_SNAKES ==> #[trigger] neck_held(old(self), self, *heads, u, idx as int),
                forall|s: int|
                    #[trigger] onto_body(old(self), *heads, s) ==> self.square(heads[s]) == old(self).square(heads[s]),
                forall|s: int|
                    #[trigger] arrives_free(old(self), *heads, s) ==> (idx <= s ==> self.square(heads[s]) == old(
                        self,
                    ).square(heads[s])) && (idx > s ==> owns_head(self, s, heads[s])),
            decreases self.num_snakes - idx,
        {
            let mut sn = self.snakes[idx];
            let ghost start = *self;
            if sn.alive() {
                let mv = Move::extract(moves, idx as u32);
                let old_head = sn.head;
                let new_head = heads[idx];
                let osq = self.at(old_head);
                let conv = if old_head == sn.tail {
                    BoardSquare::SnakeTail(idx as u8, mv)
                } else {
                    BoardSquare::SnakeBody(idx as u8, mv)
                };
                self.set_at(old_head, conv.with_hazard(osq.is_hazard()));
                let ghost conv_b = *self;
                let nsq = self.at(new_head);
                let head_sq = BoardSquare::SnakeHead(idx as u8).with_hazard(nsq.is_hazard());
                proof {
                    crate::board::lemma_grid_index(new_head, self.width as int, self.height as int);
                    assert(sn.len == old(self).snakes[idx as int].len);
                    assert(sq_owner_ok(nsq));
                    assert(self.snakes == start.snakes);
                }
                match nsq {
                    BoardSquare::SnakeHead(j) | BoardSquare::SnakeHeadHazard(j) => {
                        let other = self.snakes[j as usize];
                        assert(other.eliminated == old(self).snakes[j as int].eliminated);
                        assert(other.len == old(self).snakes[j as int].len);
                        if other.eliminated || ((j as usize) < idx && sn.len > other.len) {
                            self.set_at(new_head, head_sq);
                        } else if (j as usize) < idx && sn.len == other.len {
                            self.clear_square(new_head);
                        }
                        assert(self.square(new_head) == arrive_sq(old(self), nsq, idx as int));
                    },
                    BoardSquare::SnakeBody(j, _) | BoardSquare::SnakeBodyHazard(j, _)
                    | BoardSquare::SnakeTail(j, _) | BoardSquare::SnakeTailHazard(j, _) => {
                        assert(self.snakes[j as int].eliminated == old(self).snakes[j as int].eliminated);
                        if self.snakes[j as usize].eliminated {
                            self.set_at(new_head, head_sq);
                        }
                        assert(self.square(new_head) == arrive_sq(old(self), nsq, idx as int));
                    },
                    BoardSquare::Food | BoardSquare::FoodHazard => {
                        self.num_food = self.num_food - 1;
                        self.set_at(new_head, head_sq);
                    },
                    _ => {
                        self.set_at(new_head, head_sq);
                    },
                }
                proof {
                    crate::board::lemma_grid_index(old_head, self.width as int, self.height as int);
                    crate::board::lemma_grid_index(new_head, self.width as int, self.height as int);
                    assert(self.square(new_head) == arrive_sq(old(self), nsq, idx as int));
                    assert forall|c: Coord|
                        old(self).in_bounds(c) && c != old_head && c != new_head implies #[trigger] self.square(c)
                        == start.square(c) by {
                        crate::board::lemma_grid_index(c, self.width as int, self.height as int);
                        crate::board::lemma_grid_index_injective(c, old_head, self.width as int, self.height as int);
                        crate::board::lemma_grid_index_injective(c, new_head, self.width as int, self.height as int);
                        assert(conv_b.square(c) == start.square(c));
                    }
                    if new_head != old_head {
                        crate::board::lemma_grid_index_injective(new_head, old_head, self.width as int, self.height as int);
                        assert(nsq == start.square(new_head));
                    }
                }
                sn.old_head = old_head;
                sn.head = new_head;
                let ghost prev = *self;
                self.set_snake(idx, sn);
                proof {
                    assert forall|j: int| 0 <= j < MAX_SNAKES implies self.snakes[j].len == old(self).snakes[j].len
                        && #[trigger] self.snakes[j].eliminated == old(self).snakes[j].eliminated by {
                        if j == idx {
                            assert(self.snakes@[j] == sn);
                        } else {
                            assert(self.snakes@[j] == prev.snakes@[j]);
                            assert(prev.snakes@[j] == start.snakes@[j]);
                        }
                    }
                    assert forall|c: Coord| #[trigger] self.square(c) == prev.square(c) by {}
                    assert(!sq_is_food(prev.square(new_head)));
                    assert(!sq_is_food(prev.square(old_head)));
                    assert(old(self).snakes[idx as int].head == old_head);
                    lemma_food_step(old(self), &start, self, *heads, idx as int, nsq);
                    assert forall|t: int| 0 <= t < idx + 1 implies #[trigger] neck_placed(old(self), self, moves, *heads, t) by {
                        let ht = old(self).snakes[t].head;
                        if 0 <= t < old(self).num_snakes && old(self).snakes[t].health > 0 && !old(self).snakes[t].eliminated
                            && heads[t] != ht && heads_apart(old(self), t) {
                            assert(old(self).in_bounds(ht));
                            assert(self.square(ht) == prev.square(ht));
                            if t == idx {
                                assert(ht == old_head);
                                assert(prev.square(old_head) == conv_b.square(old_head));
                                assert(sq_hazard(start.square(old_head)) == sq_hazard(old(self).square(old_head))) by {
                                    crate::board::lemma_grid_index(old_head, self.width as int, self.height as int);
                                }
                            } else {
                                assert(neck_placed(old(self), &start, moves, *heads, t));
                                assert(old(self).snakes[idx as int].head != ht);
                                if ht == new_head {
                                    assert(prev.square(new_head) == arrive_sq(old(self), nsq, idx as int));
                                    assert(nsq == start.square(new_head));
                                } else {
                                    assert(prev.square(ht) == start.square(ht));
                                }
                            }
                        }
                    }
                    assert forall|t: int|
                        0 <= t < MAX_SNAKES && old(self).snakes[t].health <= 0 && snake_gone(old(self), t) implies #[trigger] snake_gone(
                        self,
                        t,
                    ) by {
                        assert(snake_gone(&start, t));
                        assert(t != idx);
                        assert forall|c: Coord| self.in_bounds(c) implies sq_owner(#[trigger] self.square(c)) != Some(
                            t as u8,
                        ) by {
                            assert(self.square(c) == prev.square(c));
                            if c != old_head && c != new_head {
                                assert(prev.square(c) == start.square(c));
                            } else if c == new_head {
                                assert(prev.square(new_head) == arrive_sq(old(self), nsq, idx as int));
                                if new_head != old_head {
                                    assert(nsq == start.square(new_head));
                                }
                            } else {
                                assert(prev.square(old_head) == conv_b.square(old_head));
                            }
                        }
                    }
                    assert forall|s: int, t: int| #[trigger] head_on_pair(old(self), *heads, s, t) implies pair_state(
                        old(self),
                        self,
                        *heads,
                        s,
                        t,
                        idx as int + 1,
                    ) by {
                        lemma_pair_step(old(self), &start, self, *heads, idx as int, s, t);
                    }
                    assert forall|s: int| #[trigger] onto_body(old(self), *heads, s) implies self.square(heads[s]) == old(
                        self,
                    ).square(heads[s]) by {
                        lemma_body_step(old(self), &start, self, *heads, idx as int, s);
                    }
                    assert forall|s: int| #[trigger] arrives_free(old(self), *heads, s) implies (idx + 1 <= s
                        ==> self.square(heads[s]) == old(self).square(heads[s])) && (idx + 1 > s ==> owns_head(
                        self,
                        s,
                        heads[s],
                    )) by {
                        lemma_free_step(old(self), &start, self, *heads, idx as int, s);
                    }
                    if new_head != old_head {
                        assert(self.square(old_head) == conv_b.square(old_head));
                    }
                    lemma_neck_step(old(self), &start, self, *heads, idx as int);
                }
                assert forall|s: int| 0 <= s < idx implies #[trigger] head_placed(
                    old(self),
                    self,
                    heads[s],
                    s,
                ) by {
                    assert(self.snakes[s] == prev.snakes[s]);
                    assert(prev.snakes[s] == start.snakes[s]);
                    assert(head_placed(old(self), &start, heads[s], s));
                }
            } else {
                proof {
                    assert(self.snakes[idx as int] == old(self).snakes[idx as int]);
                    lemma_untouched_dead(old(self), *heads, idx as int);
                    lemma_neck_step(old(self), &start, self, *heads, idx as int);
                }
            }
            idx = idx + 1;
        }
        assert forall|s: int| 0 <= s < MAX_SNAKES implies #[trigger] head_placed(
            old(self),
            self,
            heads[s],
            s,
        ) by {
            if s >= idx {
                assert(self.snakes[s] == old(self).snakes[s]);
            }
        }
        assert forall|s: int, u: int| 0 <= u < MAX_SNAKES implies #[trigger] neck_blocks(old(self), self, *heads, s, u) by {
            if 0 <= s < old(self).num_snakes && old(self).snakes[s].health > 0 && u != s && leaves_neck(old(self), *heads, u)
                && heads[s] == old(self).snakes[u].head {
                assert(neck_held(old(self), self, *heads, u, idx as int));
            }
        }
    }

    /// The collision part of StageEliminationStandard: a snake with health
    /// whose head square is not its own lost a collision; it is eliminated and
    /// removed from the board.
    fn check_collisions(&mut self, rules: Rules)
        requires
            old(self).wf(),
        ensures
            final(self).wf(),
            same_frame(final(self), old(self)),
            final(self).num_food == old(self).num_food,
            forall|s: int| 0 <= s < MAX_SNAKES ==> #[trigger] collision_rule(old(self), final(self), s),
            cleared_only(old(self).cells(), final(self).cells()),
            hazards_kept(old(self).cells(), final(self).cells()),
            forall|t: int|
                0 <= t < MAX_SNAKES && final(self).snakes[t].health <= 0 && (old(self).snakes[t].health > 0
                    || snake_gone(old(self), t)) ==> #[trigger] snake_gone(final(self), t),
            forall|i: int|
                0 <= i < MAX_BOARD_SIZE && #[trigger] final(self).cells()[i] != old(self).cells()[i] ==> sq_owner(
                    old(self).cells()[i],
                ) is Some && final(self).snakes[sq_owner(old(self).cells()[i])->0 as int].health <= 0,
    {
        let mut idx: usize = 0;
        while idx < self.num_snakes as usize
            invariant
                self.wf(),
                same_frame(self, old(self)),
                self.num_food == old(self).num_food,
                cleared_only(old(self).cells(), self.cells()),
                hazards_kept(old(self).cells(), self.cells()),
                idx <= self.num_snakes,
                forall|t: int|
                    0 <= t < MAX_SNAKES && self.snakes[t].health <= 0 && (old(self).snakes[t].health > 0
                        || snake_gone(old(self), t)) ==> #[trigger] snake_gone(self, t),
                forall|i: int|
                    0 <= i < MAX_BOARD_SIZE && #[trigger] self.cells()[i] != old(self).cells()[i] ==> sq_owner(
                        old(self).cells()[i],
                    ) is Some && self.snakes[sq_owner(old(self).cells()[i])->0 as int].health <= 0,
                old(self).wf(),
                forall|s: int| 0 <= s < idx ==> #[trigger] collision_rule(old(self), self, s),
                forall|s: int| idx <= s < MAX_SNAKES ==> #[trigger] self.snakes[s] == old(self).snakes[s],
                forall|s: int|
                    idx <= s < MAX_SNAKES && owns_head(old(self), s, old(self).snakes[s].head) ==> #[trigger] owns_head(
                        self,
                        s,
                        old(self).snakes[s].head,
                    ),
            decreases self.num_snakes - idx,
        {
            let mut sn = self.snakes[idx];
            if sn.alive() {
                let own = match self.at(sn.head) {
                    BoardSquare::SnakeHead(i) | BoardSquare::SnakeHeadHazard(i) => i as usize == idx,
                    _ => false,
                };
                assert(owns_head(old(self), idx as int, old(self).snakes[idx as int].head) ==> owns_head(
                    self,
                    idx as int,
                    old(self).snakes[idx as int].head,
                ));
                assert(owns_head(self, idx as int, sn.head) ==> own);
                if !own {
                    sn.health = 0;
                    sn.eliminated = true;
                    let ghost prev = *self;
                    self.set_snake(idx, sn);
                    let ghost mid = *self;
                    self.remove_body(idx);
                    assert forall|i: int|
                        0 <= i < MAX_BOARD_SIZE && #[trigger] self.cells()[i] != old(self).cells()[i] implies sq_owner(
                        old(self).cells()[i],
                    ) is Some && self.snakes[sq_owner(old(self).cells()[i])->0 as int].health <= 0 by {
                        assert(mid.cells()[i] == prev.cells()[i]);
                        if prev.cells()[i] != old(self).cells()[i] {
                            let t = sq_owner(old(self).cells()[i])->0 as int;
                            assert(sq_owner_ok(old(self).cells()[i]));
                            if t != idx {
                                assert(self.snakes@[t] == mid.snakes@[t]);
                                assert(mid.snakes@[t] == prev.snakes@[t]);
                            }
                        } else {
                            assert(sq_owner(mid.cells()[i]) == Some(idx as u8));
                        }
                    }
                    assert forall|t: int|
                        0 <= t < MAX_SNAKES && self.snakes[t].health <= 0 && (old(self).snakes[t].health > 0
                            || snake_gone(old(self), t)) implies #[trigger] snake_gone(self, t) by {
                        if t != idx {
                            assert(self.snakes[t] == prev.snakes[t]);
                            assert(snake_gone(&prev, t));
                            lemma_gone_cleared(&prev, &mid, t);
                            lemma_gone_cleared(&mid, self, t);
                        }
                    }
                    assert forall|i: int| 0 <= i < MAX_BOARD_SIZE implies #[trigger] self.cells()[i] == old(self).cells()[i]
                        || self.cells()[i] is Empty || self.cells()[i] is Hazard by {
                        assert(mid.cells()[i] == prev.cells()[i]);
                        assert(prev.cells()[i] == old(self).cells()[i] || prev.cells()[i] is Empty || prev.cells()[i] is Hazard);
                    }
                    assert forall|s: int| 0 <= s < idx implies #[trigger] collision_rule(old(self), self, s) by {
                        assert(self.snakes[s] == prev.snakes[s]);
                        assert(collision_rule(old(self), &prev, s));
                        if self.snakes[s].health > 0 {
                            let k = grid_index(self.snakes[s].head, self.width as int);
                            crate::board::lemma_grid_index(self.snakes[s].head, self.width as int, self.height as int);
                            assert(owns_head(&prev, s, prev.snakes[s].head));
                            assert(mid.cells()[k] == prev.cells()[k]);
                            assert(self.cells()[k] == mid.cells()[k]);
                        }
                    }
                    assert(collision_rule(old(self), self, idx as int));
                    assert forall|t: int|
                        idx + 1 <= t < MAX_SNAKES && owns_head(old(self), t, old(self).snakes[t].head) implies #[trigger] owns_head(
                        self,
                        t,
                        old(self).snakes[t].head,
                    ) by {
                        let c = old(self).snakes[t].head;
                        assert(owns_head(&prev, t, c));
                        crate::board::lemma_grid_index(c, self.width as int, self.height as int);
                        let k = grid_index(c, self.width as int);
                        assert(mid.cells()[k] == prev.cells()[k]);
                        assert(self.cells()[k] == mid.cells()[k]);
                    }
                }
            }
            idx = idx + 1;
        }
        assert forall|s: int| 0 <= s < MAX_SNAKES implies #[trigger] collision_rule(old(self), self, s) by {
            if s >= idx {
                assert(self.snakes[s] == old(self).snakes[s]);
            }
        }
    }

    /// Removes the snakes that had health before the health stage and have none
    /// after it.
    fn remove_starved(&mut self, was_alive: &[bool; 4], rules: Rules)
        requires
            old(self).wf(),
        ensures
            final(self).wf(),
            final(self).same_fields(old(self)),
            cleared_only(old(self).cells(), final(self).cells()),
            hazards_kept(old(self).cells(), final(self).cells()),
            forall|i: int|
                0 <= i < MAX_BOARD_SIZE ==> #[trigger] final(self).cells()[i] == old(self).cells()[i] || (sq_owner(
                    old(self).cells()[i],
                ) is Some && was_alive[sq_owner(old(self).cells()[i])->0 as int] && old(self).snakes[sq_owner(
                    old(self).cells()[i],
                )->0 as int].health <= 0),
            forall|t: int|
                0 <= t < old(self).num_snakes && was_alive[t] && old(self).snakes[t].health <= 0
                    ==> #[trigger] snake_gone(final(self), t),
            final(self).cells() == starved_removed(
                old(self).snakes@,
                old(self).cells(),
                was_alive@,
                rules,
                old(self).width as int,
                old(self).height as int,
                old(self).num_snakes as int,
            ),
    {
        let mut idx: usize = 0;
        while idx < self.num_snakes as usize
            invariant
                self.wf(),
                self.same_fields(old(self)),
                cleared_only(old(self).cells(), self.cells()),
                hazards_kept(old(self).cells(), self.cells()),
                forall|i: int|
                    0 <= i < MAX_BOARD_SIZE ==> #[trigger] self.cells()[i] == old(self).cells()[i] || (sq_owner(
                        old(self).cells()[i],
                    ) is Some && was_alive[sq_owner(old(self).cells()[i])->0 as int] && old(self).snakes[sq_owner(
                        old(self).cells()[i],
                    )->0 as int].health <= 0),
                idx <= self.num_snakes,
                forall|t: int|
                    0 <= t < idx && was_alive[t] && old(self).snakes[t].health <= 0 ==> #[trigger] snake_gone(self, t),
                self.cells() == starved_removed(
                    old(self).snakes@,
                    old(self).cells(),
                    was_alive@,
                    rules,
                    old(self).width as int,
                    old(self).height as int,
                    idx as int,
                ),
            decreases self.num_snakes - idx,
        {
            if was_alive[idx] && !self.snakes[idx].alive() {
                let ghost prev = *self;
                self.remove_body(idx);
                assert forall|t: int|
                    0 <= t < idx + 1 && was_alive[t] && old(self).snakes[t].health <= 0 implies #[trigger] snake_gone(self, t) by {
                    if t < idx {
                        lemma_gone_cleared(&prev, self, t);
                    }
                }
                assert forall|i: int| 0 <= i < MAX_BOARD_SIZE implies #[trigger] self.cells()[i] == old(self).cells()[i]
                    || (sq_owner(old(self).cells()[i]) is Some && was_alive[sq_owner(old(self).cells()[i])->0 as int]
                    && old(self).snakes[sq_owner(old(self).cells()[i])->0 as int].health <= 0) by {
                    if prev.cells()[i] == old(self).cells()[i] && self.cells()[i] != prev.cells()[i] {
                        assert(sq_owner(prev.cells()[i]) == Some(idx as u8));
                    } else if prev.cells()[i] != old(self).cells()[i] {
                        assert(prev.cells()[i] is Empty || prev.cells()[i] is Hazard);
                    }
                }
                assert forall|i: int| 0 <= i < MAX_BOARD_SIZE implies #[trigger] self.cells()[i] == old(self).cells()[i]
                    || self.cells()[i] is Empty || self.cells()[i] is Hazard by {
                    assert(prev.cells()[i] == old(self).cells()[i] || prev.cells()[i] is Empty || prev.cells()[i] is Hazard);
                }
            }
            idx = idx + 1;
        }
    }

    /// StageModifySnakesAlwaysGrow: under the constrictor rules every snake
    /// with health is fed, and every snake whose tail is not stacked grows.
    fn post_process(&mut self, game: &Game)
        requires
            old(self).wf(),
            forall|s: int|
                0 <= s < MAX_SNAKES ==> #[trigger] old(self).snakes[s].len < i32::MAX,
        ensures
            final(self).wf(),
            same_frame(final(self), old(self)),
            final(self).num_food == old(self).num_food,
            final(self).cells() == old(self).cells(),
            forall|s: int| 0 <= s < MAX_SNAKES ==> #[trigger] grow_rule(old(self), final(self), game, s),
    {
        match game.ruleset {
            Rules::Constrictor => {},
            _ => {
                return ;
            },
        }
        let mut idx: usize = 0;
        while idx < self.num_snakes as usize
            invariant
                self.wf(),
                same_frame(self, old(self)),
                self.num_food == old(self).num_food,
                self.cells() == old(self).cells(),
                game.ruleset == Rules::Constrictor,
                idx <= self.num_snakes,
                forall|s: int| 0 <= s < MAX_SNAKES ==> #[trigger] old(self).snakes[s].len < i32::MAX,
                forall|s: int| 0 <= s < idx ==> #[trigger] grow_rule(old(self), self, game, s),
                forall|s: int| idx <= s < MAX_SNAKES ==> #[trigger] self.snakes[s] == old(self).snakes[s],
            decreases self.num_snakes - idx,
        {
            let mut sn = self.snakes[idx];
            if sn.alive() {
                sn.health = 100;
            }
            if sn.num_stacked == 0 {
                sn.num_stacked = 1;
                sn.len = sn.len + 1;
            }
            let ghost prev = *self;
            self.set_snake(idx, sn);
            assert forall|s: int| 0 <= s < idx implies #[trigger] grow_rule(old(self), self, game, s) by {
                assert(self.snakes[s] == prev.snakes[s]);
                assert(grow_rule(old(self), &prev, game, s));
            }
            idx = idx + 1;
        }
        assert forall|s: int| 0 <= s < MAX_SNAKES implies #[trigger] grow_rule(old(self), self, game, s) by {
            if s >= idx {
                assert(self.snakes[s] == old(self).snakes[s]);
            }
        }
    }

    /// The squares next to the heads of the snakes with health, where no food
    /// may appear.
    fn head_adjacent(&self, rules: Rules) -> (adj: Vec<bool>)
        requires
            self.wf(),
        ensures
            adj@.len() == MAX_BOARD_SIZE,
            forall|c: Coord| self.in_bounds(c) && #[trigger] next_to_head(self, rules, c) ==> adj@[grid_index(c, self.width as int)],
            forall|i: int| 0 <= i < MAX_BOARD_SIZE ==> (#[trigger] adj@[i] <==> index_next_to_head(self, rules, i)),
    {
        let mut adj: Vec<bool> = vec![false; MAX_BOARD_SIZE];
        let mut idx: usize = 0;
        while idx < self.num_snakes as usize
            invariant
                self.wf(),
                adj@.len() == MAX_BOARD_SIZE,
                idx <= self.num_snakes,
                forall|i: int| 0 <= i < MAX_BOARD_SIZE && #[trigger] adj@[i] ==> index_next_to_head(self, rules, i),
                forall|s: int, m: int|
                    0 <= s < idx && self.snakes[s].health > 0 && 0 <= m < 4 && self.in_bounds(
                        #[trigger] head_step(self, rules, s, m),
                    ) ==> adj@[grid_index(head_step(self, rules, s, m), self.width as int)],
            decreases self.num_snakes - idx,
        {
            if self.snakes[idx].alive() {
                let head = self.snakes[idx].head;
                let mut m: usize = 0;
                while m < 4
                    invariant
                        self.wf(),
                        adj@.len() == MAX_BOARD_SIZE,
                        self.in_bounds(head),
                        head == self.snakes[idx as int].head,
                        idx < self.num_snakes,
                        self.snakes[idx as int].health > 0,
                        m <= 4,
                        forall|i: int| 0 <= i < MAX_BOARD_SIZE && #[trigger] adj@[i] ==> index_next_to_head(self, rules, i),
                        forall|s: int, k: int|
                            0 <= s < idx && self.snakes[s].health > 0 && 0 <= k < 4 && self.in_bounds(
                                #[trigger] head_step(self, rules, s, k),
                            ) ==> adj@[grid_index(head_step(self, rules, s, k), self.width as int)],
                        forall|k: int|
                            0 <= k < m && self.in_bounds(#[trigger] head_step(self, rules, idx as int, k)) ==> adj@[grid_index(
                                head_step(self, rules, idx as int, k),
                                self.width as int,
                            )],
                    decreases 4 - m,
                {
                    let c = self.move_to_coord(head, Move::from_idx(m), rules);
                    assert(c == head_step(self, rules, idx as int, m as int));
                    let ghost before = adj@;
                    if self.on_board(c) {
                        let i = self.idx_from_coord(c);
                        adj.set(i, true);
                        assert(index_next_to_head(self, rules, i as int));
                    }
                    assert forall|j: int| 0 <= j < MAX_BOARD_SIZE && before[j] implies adj@[j] by {}
                    assert forall|s: int, k: int|
                        0 <= s < idx && self.snakes[s].health > 0 && 0 <= k < 4 && self.in_bounds(
                            #[trigger] head_step(self, rules, s, k),
                        ) implies adj@[grid_index(head_step(self, rules, s, k), self.width as int)] by {
                        crate::board::lemma_grid_index(head_step(self, rules, s, k), self.width as int, self.height as int);
                    }
                    assert forall|k: int|
                        0 <= k < m + 1 && self.in_bounds(#[trigger] head_step(self, rules, idx as int, k)) implies adj@[grid_index(
                            head_step(self, rules, idx as int, k),
                            self.width as int,
                        )] by {
                        crate::board::lemma_grid_index(head_step(self, rules, idx as int, k), self.width as int, self.height as int);
                    }
                    m = m + 1;
                }
            }
            idx = idx + 1;
        }
        assert forall|c: Coord| self.in_bounds(c) && #[trigger] next_to_head(self, rules, c) implies adj@[grid_index(
            c,
            self.width as int,
        )] by {
            let (s, m) = choose|s: int, m: int|
                0 <= s < self.num_snakes && self.snakes[s].health > 0 && 0 <= m < 4 && head_step(self, rules, s, m) == c;
            assert(self.in_bounds(head_step(self, rules, s, m)));
        }
        assert forall|i: int| 0 <= i < MAX_BOARD_SIZE && index_next_to_head(self, rules, i) implies #[trigger] adj@[i] by {
            let (s, m) = choose|s: int, m: int|
                0 <= s < self.num_snakes && self.snakes[s].health > 0 && 0 <= m < 4 && self.in_bounds(
                    #[trigger] head_step(self, rules, s, m),
                ) && grid_index(head_step(self, rules, s, m), self.width as int) == i;
            assert(adj@[grid_index(head_step(self, rules, s, m), self.width as int)]);
        }
        adj
    }

    /// Food appears: up to the minimum when there is less, else one square at
    /// the spawn chance, on squares drawn at random among those that can
    /// receive food.
    #[verifier::spinoff_prover]
    fn spawn_food<R: Rand>(&mut self, game: &Game, food_buff: &mut [usize], rng: &mut R)
        requires
            old(self).wf(),
            old(food_buff)@.len() >= old(self).width * old(self).height,
            old(self).num_food <= i32::MAX - MAX_BOARD_SIZE,
        ensures
            final(self).wf(),
            final(self).width == old(self).width,
            final(self).height == old(self).height,
            final(self).turn == old(self).turn,
            final(self).num_snakes == old(self).num_snakes,
            final(self).snakes == old(self).snakes,
            final(self).royale_min_x == old(self).royale_min_x,
            final(self).royale_max_x == old(self).royale_max_x,
            final(self).royale_min_y == old(self).royale_min_y,
            final(self).royale_max_y == old(self).royale_max_y,
            owners_kept(old(self).cells(), final(self).cells()),
            placed_food(old(self), final(self), game.ruleset),
            food_placed_at(old(self), final(self), game.ruleset, final(food_buff)@, final(self).num_food - old(self).num_food),
            old(self).num_food < game.api.ruleset.settings.minimum_food ==> final(self).num_food - old(self).num_food
                == spawn_count(
                game.api.ruleset.settings.minimum_food - old(self).num_food,
                food_spots(old(self), game.ruleset, old(self).area()),
            ),
            old(self).num_food >= game.api.ruleset.settings.minimum_food ==> final(self).num_food - old(self).num_food <= 1,
            final(food_buff)@.len() == old(food_buff)@.len(),
            exists|draw: int|
                0 <= draw < 100 && R::int_n_gives(100, draw) && final(self).num_food - old(self).num_food == spawn_count(
                    #[trigger] spawn_wanted(
                        old(self).num_food as int,
                        game.api.ruleset.settings.minimum_food as int,
                        game.api.ruleset.settings.food_spawn_chance as int,
                        draw,
                    ),
                    food_spots(old(self), game.ruleset, old(self).area()),
                ),
    {
        let rules = game.ruleset;
        let min_food = game.api.ruleset.settings.minimum_food;
        let chance = game.api.ruleset.settings.food_spawn_chance;
        let mut num_spawn: i64 = 0;
        let draw = rng.int_n(100);
        let rand_val = 100 - draw;
        if self.num_food < min_food {
            num_spawn = min_food as i64 - self.num_food as i64;
        } else if rand_val < chance {
            num_spawn = 1;
        }
        let adj = self.head_adjacent(rules);
        proof {
            lemma_owners_kept_refl(self.cells());
        }
        assert(placed_food(old(self), self, rules));
        if num_spawn > 0 {
            let board_len = self.len() as usize;
            let mut num_unoccupied: usize = 0;
            let mut coord_idx: usize = 0;
            while coord_idx < board_len
                invariant
                    self.wf(),
                    board_len == self.width * self.height,
                    board_len <= MAX_BOARD_SIZE,
                    food_buff@.len() >= board_len,
                    food_buff@.len() == old(food_buff)@.len(),
                    num_unoccupied <= coord_idx <= board_len,
                    adj@.len() == MAX_BOARD_SIZE,
                    forall|i: int| 0 <= i < MAX_BOARD_SIZE ==> (#[trigger] adj@[i] <==> index_next_to_head(old(self), rules, i)),
                    *self == *old(self),
                    num_unoccupied == food_spots(old(self), rules, coord_idx as int),
                    forall|k: int|
                        0 <= k < num_unoccupied ==> #[trigger] food_buff@[k] < coord_idx && food_spot(
                            old(self),
                            rules,
                            food_buff@[k] as int,
                        ),
                    forall|k1: int, k2: int|
                        0 <= k1 < k2 < num_unoccupied ==> #[trigger] food_buff@[k1] < #[trigger] food_buff@[k2],
                decreases board_len - coord_idx,
            {
                let square = self.at_idx(coord_idx);
                let free = match square {
                    BoardSquare::Empty | BoardSquare::Hazard => true,
                    _ => false,
                };
                assert(food_spot(old(self), rules, coord_idx as int) <==> free && !adj@[coord_idx as int]);
                if free && !adj[coord_idx] {
                    food_buff[num_unoccupied] = coord_idx;
                    num_unoccupied = num_unoccupied + 1;
                }
                coord_idx = coord_idx + 1;
            }
            if num_unoccupied != 0 {
                let spawn: usize = if num_spawn < num_unoccupied as i64 {
                    num_spawn as usize
                } else {
                    num_unoccupied
                };
                let ghost spots = food_buff@.subrange(0, num_unoccupied as int);
                let ghost shuffled: Seq<usize>;
                {
                    let (front, rest) = food_buff.split_at_mut(num_unoccupied);
                    rng.shuffle(front, spawn);
                    proof {
                        shuffled = front@;
                    }
                }
                proof {
                    assert(food_buff@.subrange(0, num_unoccupied as int) == shuffled);
                    lemma_reordered_spots(old(self), rules, spots, shuffled);
                }
                self.num_food = self.num_food + spawn as i32;
                assert(self.wf());
                let mut k: usize = 0;
                while k < spawn
                    invariant
                        self.wf(),
                        self.width == old(self).width,
                        self.height == old(self).height,
                        self.turn == old(self).turn,
                        self.num_snakes == old(self).num_snakes,
                        self.snakes == old(self).snakes,
                        self.royale_min_x == old(self).royale_min_x,
                        self.royale_max_x == old(self).royale_max_x,
                        self.royale_min_y == old(self).royale_min_y,
                        self.royale_max_y == old(self).royale_max_y,
                        old(self).num_food <= self.num_food,
                        owners_kept(old(self).cells(), self.cells()),
                        spawn <= num_unoccupied <= food_buff@.len(),
                        food_buff@.len() == old(food_buff)@.len(),
                        board_len == self.width * self.height,
                        board_len <= MAX_BOARD_SIZE,
                        adj@.len() == MAX_BOARD_SIZE,
                        forall|c: Coord| old(self).in_bounds(c) && #[trigger] next_to_head(old(self), rules, c) ==> adj@[grid_index(
                            c,
                            old(self).width as int,
                        )],
                        placed_food(old(self), self, rules),
                        old(self).wf(),
                        k <= spawn,
                        self.num_food == old(self).num_food + spawn,
                        forall|i: int| 0 <= i < MAX_BOARD_SIZE ==> (#[trigger] adj@[i] <==> index_next_to_head(old(self), rules, i)),
                        forall|j: int| 0 <= j < num_unoccupied ==> food_spot(old(self), rules, #[trigger] food_buff@[j] as int),
                        forall|j1: int, j2: int|
                            0 <= j1 < num_unoccupied && 0 <= j2 < num_unoccupied && j1 != j2 ==> #[trigger] food_buff@[j1]
                                != #[trigger] food_buff@[j2],
                        forall|j: int| k <= j < spawn ==> self.cells()[#[trigger] food_buff@[j] as int] == old(self).cells()[food_buff@[j] as int],
                        food_placed_at(old(self), self, rules, food_buff@, k as int),
                    decreases spawn - k,
                {
                    let idx = food_buff[k];
                    assert(food_spot(old(self), rules, idx as int));
                    if idx < board_len {
                        let square = self.at_idx(idx);
                        let free = match square {
                            BoardSquare::Empty | BoardSquare::Hazard => true,
                            _ => false,
                        };
                        if free && !adj[idx] {
                            let food = BoardSquare::Food.with_hazard(square.is_hazard());
                            proof {
                                lemma_owners_kept_update(old(self).cells(), self.cells(), idx as int, food);
                            }
                            let ghost prev = *self;
                            self.set_at_idx(idx, food);
                            proof {
                                lemma_place_food(old(self), &prev, self, rules, idx as int);
                                lemma_place_spot(old(self), &prev, self, rules, food_buff@, k as int, spawn as int);
                            }
                        }
                    }
                    k = k + 1;
                }
            }
        }
        proof {
            lemma_food_spots_nonneg(old(self), rules, old(self).area());
            assert(self.num_food - old(self).num_food == spawn_count(
                num_spawn as int,
                food_spots(old(self), rules, old(self).area()),
            ));
            assert(spawn_wanted(old(self).num_food as int, min_food as int, chance as int, draw as int) == num_spawn);
        }
    }

    /// Map logic after the rules: food appears, and the royale map shrinks.
    #[verifier::spinoff_prover]
    fn update_board<R: Rand>(&mut self, game: &Game, food_buff: &mut [usize], rng: &mut R)
        requires
            old(self).wf(),
            old(food_buff)@.len() >= old(self).width * old(self).height,
            old(self).num_food <= i32::MAX - MAX_BOARD_SIZE,
            royale_runs(game) ==> game.api.ruleset.settings.royale.shrink_every_n_turns != 0,
            old(self).turn > i32::MIN,
        ensures
            final(self).wf(),
            final(self).width == old(self).width,
            final(self).height == old(self).height,
            final(self).turn == old(self).turn,
            final(self).num_snakes == old(self).num_snakes,
            final(self).snakes == old(self).snakes,
            owners_kept(old(self).cells(), final(self).cells()),
            old(self).num_food <= final(self).num_food,
            game.api.map == GameMap::Empty ==> *final(self) == *old(self),
            food_rule(old(self), final(self), game.ruleset),
            !royale_applies(game) ==> forall|c: Coord|
                old(self).in_bounds(c) ==> sq_hazard(#[trigger] final(self).square(c)) == sq_hazard(old(self).square(c)),
            final(food_buff)@.len() == old(food_buff)@.len(),
            food_placed_at(old(self), final(self), game.ruleset, final(food_buff)@, final(self).num_food - old(self).num_food),
            game.api.map != GameMap::Empty && old(self).num_food < game.api.ruleset.settings.minimum_food
                ==> final(self).num_food - old(self).num_food == spawn_count(
                game.api.ruleset.settings.minimum_food - old(self).num_food,
                food_spots(old(self), game.ruleset, old(self).area()),
            ),
            old(self).num_food >= game.api.ruleset.settings.minimum_food ==> final(self).num_food - old(self).num_food <= 1,
            royale_rule(old(self), final(self), game),
            royale_due(old(self), game) ==> exists|side: int|
                0 <= side < 4 && R::int_n_gives(4, side) && #[trigger] royale_shrunk(old(self), final(self), side),
            snakes_kept(old(self), final(self)),
            game.api.map == GameMap::Empty ==> final(food_buff)@ == old(food_buff)@ && *final(rng) == *old(rng),
            game.api.map != GameMap::Empty ==> exists|draw: int|
                0 <= draw < 100 && R::int_n_gives(100, draw) && final(self).num_food - old(self).num_food == spawn_count(
                    #[trigger] spawn_wanted(
                        old(self).num_food as int,
                        game.api.ruleset.settings.minimum_food as int,
                        game.api.ruleset.settings.food_spawn_chance as int,
                        draw,
                    ),
                    food_spots(old(self), game.ruleset, old(self).area()),
                ),
    {
        let map = game.api.map;
        let rules = game.ruleset;
        if let GameMap::Empty = map {
            return ;
        }
        self.spawn_food(game, food_buff, rng);
        proof {
            lemma_placed_food_rule(old(self), self, rules);
            assert forall|c: Coord| old(self).in_bounds(c) && sq_owner(old(self).square(c)) is Some implies #[trigger] self.square(
                c,
            ) == sq_with_hazard(old(self).square(c), sq_hazard(self.square(c))) by {
                assert(placed_food(old(self), self, rules));
            }
        }
        assert(bounds_shrunk(old(self), self, 4));
        assert forall|c: Coord| old(self).in_bounds(c) implies sq_hazard(#[trigger] self.square(c)) == sq_hazard(
            old(self).square(c),
        ) by {
            assert(placed_food(old(self), self, rules));
        }
        if !royale_applies_exec(game) {
            return ;
        }
        let shrink_every = game.api.ruleset.settings.royale.shrink_every_n_turns;
        proof {
            lemma_rem_zero_neg(self.turn as int, shrink_every as int);
        }
        if self.turn % shrink_every != 0 || self.royale_min_x > self.royale_max_x
            || self.royale_min_y > self.royale_max_y {
            return ;
        }
        let ghost unshrunk = *self;
        let side = rng.int_n(4);
        let (along_x, index): (bool, i32) = if side == 0 {
            let index = self.royale_min_x;
            self.royale_min_x = self.royale_min_x + 1;
            (false, index)
        } else if side == 1 {
            let index = self.royale_max_x;
            self.royale_max_x = self.royale_max_x - 1;
            (false, index)
        } else if side == 2 {
            let index = self.royale_min_y;
            self.royale_min_y = self.royale_min_y + 1;
            (true, index)
        } else {
            let index = self.royale_max_y;
            self.royale_max_y = self.royale_max_y - 1;
            (true, index)
        };
        proof {
            lemma_wf_royale_moved(&unshrunk, self);
        }
        assert(bounds_shrunk(old(self), self, side as int));
        assert forall|c: Coord| old(self).in_bounds(c) implies sq_hazard(#[trigger] self.square(c)) == sq_hazard(
            old(self).square(c),
        ) by {
            assert(self.square(c) == unshrunk.square(c));
        }
        assert(along_x == (side >= 2));
        let dim = if along_x {
            self.width
        } else {
            self.height
        };
        proof {
            lemma_food_rule_frame(old(self), &unshrunk, self, rules);
            lemma_food_placed_frame(old(self), &unshrunk, self, rules, food_buff@, self.num_food - old(self).num_food);
        }
        assert forall|c: Coord| old(self).in_bounds(c) && sq_owner(old(self).square(c)) is Some implies #[trigger] self.square(
            c,
        ) == sq_with_hazard(old(self).square(c), sq_hazard(self.square(c))) by {
            assert(self.square(c) == unshrunk.square(c));
        }
        let mut z: i32 = 0;
        while z < dim
            invariant
                self.wf(),
                self.width == old(self).width,
                self.height == old(self).height,
                self.turn == old(self).turn,
                self.num_snakes == old(self).num_snakes,
                self.snakes == old(self).snakes,
                old(self).num_food <= self.num_food,
                owners_kept(old(self).cells(), self.cells()),
                food_rule(old(self), self, rules),
                food_placed_at(old(self), self, rules, food_buff@, self.num_food - old(self).num_food),
                self.num_food == unshrunk.num_food,
                bounds_shrunk(old(self), self, side as int),
                0 <= side < 4,
                along_x == (side >= 2),
                index == if side == 0 {
                    old(self).royale_min_x
                } else if side == 1 {
                    old(self).royale_max_x
                } else if side == 2 {
                    old(self).royale_min_y
                } else {
                    old(self).royale_max_y
                },
                forall|c: Coord|
                    old(self).in_bounds(c) ==> sq_hazard(#[trigger] self.square(c)) == (sq_hazard(old(self).square(c))
                        || (on_shrink_line(old(self), side as int, c) && (if along_x {
                        c.x
                    } else {
                        c.y
                    }) < z)),
                old(self).wf(),
                dim == if along_x { self.width } else { self.height },
                along_x ==> 0 <= index < self.height,
                !along_x ==> 0 <= index < self.width,
                0 <= z <= dim,
                snakes_kept(old(self), self),
            decreases dim - z,
        {
            let curr_coord = if along_x {
                Coord { x: z as i8, y: index as i8 }
            } else {
                Coord { x: index as i8, y: z as i8 }
            };
            let square = self.at(curr_coord);
            let hazard = square.with_hazard(true);
            proof {
                crate::board::lemma_grid_index(curr_coord, self.width as int, self.height as int);
                lemma_owners_kept_update(
                    old(self).cells(),
                    self.cells(),
                    grid_index(curr_coord, self.width as int),
                    hazard,
                );
            }
            let ghost prev = *self;
            self.set_at(curr_coord, hazard);
            proof {
                lemma_snakes_kept_mark(old(self), &prev, self, curr_coord);
                lemma_mark_hazard(old(self), &prev, self, rules, curr_coord);
                lemma_mark_line(old(self), &prev, self, side as int, along_x, z as int, curr_coord);
                lemma_food_placed_hazard(
                    old(self),
                    &prev,
                    self,
                    rules,
                    food_buff@,
                    self.num_food - old(self).num_food,
                    curr_coord,
                );
            }
            z = z + 1;
        }
        assert(royale_shrunk(old(self), self, side as int));
    }

    /// Plays one turn of the Battlesnake rules with the given encoded moves:
    /// snakes move, starve, eat, take hazard damage, collide and are
    /// eliminated, then food appears and the royale map shrinks.
    pub fn gen_board<R: Rand>(&mut self, moves: u16, game: &Game, food_buff: &mut [usize], rng: &mut R)
        requires
            old(self).wf(),
            turn_fits(old(self), game),
            old(food_buff)@.len() >= old(self).width * old(self).height,
            royale_runs(game) ==> game.api.ruleset.settings.royale.shrink_every_n_turns != 0,
        ensures
            final(self).wf(),
            final(self).turn == old(self).turn + 1,
            final(self).width == old(self).width,
            final(self).height == old(self).height,
            final(self).num_snakes == old(self).num_snakes,
            forall|s: int| 0 <= s < MAX_SNAKES ==> #[trigger] turn_rule(old(self), final(self), game, moves, s),
            forall|s: int, t: int|
                0 <= s < MAX_SNAKES && 0 <= t < MAX_SNAKES ==> #[trigger] head_on_rule(
                    old(self),
                    final(self),
                    game,
                    moves,
                    s,
                    t,
                ),
            forall|s: int| 0 <= s < MAX_SNAKES ==> #[trigger] body_rule(old(self), final(self), game, moves, s),
            forall|s: int| 0 <= s < MAX_SNAKES ==> #[trigger] free_move_rule(old(self), final(self), game, moves, s),
            forall|s: int, t: int|
                0 <= s < MAX_SNAKES && 0 <= t < MAX_SNAKES ==> #[trigger] head_on_win_rule(
                    old(self),
                    final(self),
                    game,
                    moves,
                    s,
                    t,
                ),
            final(self).alive_count() <= old(self).alive_count(),
            final(food_buff)@.len() == old(food_buff)@.len(),
            exists|mid: Board| #[trigger] map_stage::<R>(old(self), &mid, final(self), game),
            forall|s: int| 0 <= s < MAX_SNAKES ==> #[trigger] survivor_rule(old(self), final(self), game, moves, s),
            forall|s: int, u: int|
                0 <= s < MAX_SNAKES && 0 <= u < MAX_SNAKES ==> #[trigger] neck_rule(old(self), final(self), game, moves, s, u),
            turn_played::<R>(old(self), final(self), game, moves),
            forall|t: int|
                0 <= t < old(self).num_snakes && old(self).snakes[t].health > 0 && final(self).snakes[t].health <= 0
                    ==> #[trigger] snake_gone(final(self), t),
    {
        let ghost a = *self;
        self.turn = self.turn + 1;
        let ghost b0 = *self;
        let rules = game.ruleset;
        let heads = self.new_heads(moves, rules);
        let was_alive = [
            self.snakes[0].alive(),
            self.snakes[1].alive(),
            self.snakes[2].alive(),
            self.snakes[3].alive(),
        ];
        self.move_tails(rules);
        let ghost b1 = *self;
        assert forall|s: int| 0 <= s < MAX_SNAKES implies {
            &&& #[trigger] b1.snakes[s].len < i32::MAX - 1
            &&& b1.snakes[s].num_stacked < i32::MAX
            &&& b1.snakes[s].health - 1 - hazard_damage(game) <= i32::MAX
        } by {
            assert(b0.snakes[s] == a.snakes[s]);
            assert(tail_step_kept(b0.snakes[s], b1.snakes[s]));
        }
        self.update_health(game, &heads);
        let ghost b2 = *self;
        self.remove_starved(&was_alive, rules);
        let ghost b3 = *self;
        assert forall|s: int|
            0 <= s < b3.num_snakes && b3.snakes[s].health > 0 implies b3.in_bounds(
            #[trigger] heads[s],
        ) by {
            assert(health_rule(&b1, &b2, game, heads[s], s));
            assert(b3.snakes[s] == b2.snakes[s]);
        }
        self.place_heads(moves, &heads);
        let ghost b4 = *self;
        self.check_collisions(rules);
        let ghost b5 = *self;
        assert forall|s: int| 0 <= s < MAX_SNAKES implies #[trigger] b5.snakes[s].len < i32::MAX by {
            assert(b0.snakes[s] == a.snakes[s]);
            assert(tail_step_kept(b0.snakes[s], b1.snakes[s]));
            assert(health_rule(&b1, &b2, game, heads[s], s));
            assert(b3.snakes[s] == b2.snakes[s]);
            assert(head_placed(&b3, &b4, heads[s], s));
            assert(collision_rule(&b4, &b5, s));
        }
        self.post_process(game);
        let ghost b6 = *self;
        self.update_board(game, food_buff, rng);
        assert(hazards_kept(a.cells(), b6.cells())) by {
            assert forall|i: int| 0 <= i < MAX_BOARD_SIZE implies #[trigger] sq_hazard(b6.cells()[i]) == sq_hazard(
                a.cells()[i],
            ) by {
                assert(sq_hazard(b1.cells()[i]) == sq_hazard(b0.cells()[i]));
                assert(sq_hazard(b3.cells()[i]) == sq_hazard(b2.cells()[i]));
                assert(sq_hazard(b4.cells()[i]) == sq_hazard(b3.cells()[i]));
                assert(sq_hazard(b5.cells()[i]) == sq_hazard(b4.cells()[i]));
            }
        }
        assert(map_stage::<R>(&a, &b6, self, game));
        proof {
            lemma_food_taken_turn(&a, &b1, &b2, &b3, game, moves, heads, a.num_snakes as int);
        }
        assert(b6.num_food == a.num_food - turn_food_eaten(&a, game, moves, a.num_snakes as int));
        assert forall|s: int| 0 <= s < MAX_SNAKES implies #[trigger] turn_rule(&a, self, game, moves, s) by {
            lemma_turn_rule(&a, &b0, &b1, &b2, &b3, &b4, &b5, &b6, self, game, moves, heads[s], s);
        }
        assert forall|s: int, t: int| 0 <= s < MAX_SNAKES && 0 <= t < MAX_SNAKES implies #[trigger] head_on_rule(
            &a,
            self,
            game,
            moves,
            s,
            t,
        ) by {
            lemma_head_on_turn(&a, &b1, &b2, &b3, &b4, &b5, &b6, self, game, moves, heads, s, t);
        }
        assert forall|s: int| 0 <= s < MAX_SNAKES implies #[trigger] body_rule(&a, self, game, moves, s) by {
            lemma_body_turn(&a, &b1, &b2, &b3, &b4, &b5, &b6, self, game, moves, heads, was_alive, s);
        }
        assert forall|s: int, u: int| 0 <= s < MAX_SNAKES && 0 <= u < MAX_SNAKES implies #[trigger] neck_rule(
            &a,
            self,
            game,
            moves,
            s,
            u,
        ) by {
            lemma_neck_turn(&a, &b1, &b2, &b3, &b4, &b5, &b6, self, game, moves, heads, was_alive, s, u);
        }
        assert forall|i: int| 0 <= i < MAX_BOARD_SIZE && #[trigger] tail_leaves(&a, game.ruleset, i) implies free_sq(
            b1.cells()[i],
        ) by {
            assert(tail_leaves(&b0, rules, i));
        }
        assert forall|s: int| 0 <= s < MAX_SNAKES implies #[trigger] free_move_rule(&a, self, game, moves, s) by {
            lemma_free_move_turn(&a, &b1, &b2, &b3, &b4, &b5, &b6, self, game, moves, heads, s);
        }
        assert forall|s: int| 0 <= s < MAX_SNAKES implies #[trigger] survivor_rule(&a, self, game, moves, s) by {
            lemma_survivor_turn(&a, &b1, &b2, &b3, &b4, &b5, &b6, self, game, moves, heads, s);
        }
        assert forall|s: int, t: int| 0 <= s < MAX_SNAKES && 0 <= t < MAX_SNAKES implies #[trigger] head_on_win_rule(
            &a,
            self,
            game,
            moves,
            s,
            t,
        ) by {
            lemma_head_on_win_turn(&a, &b1, &b2, &b3, &b4, &b5, &b6, self, game, moves, heads, s, t);
        }
        assert forall|i: int| 0 <= i < a.num_snakes && #[trigger] self.snakes@[i].health > 0 implies a.snakes@[i].health > 0 by {
            assert(turn_rule(&a, self, game, moves, i));
        }
        proof {
            lemma_count_alive_mono(a.snakes@, self.snakes@, a.num_snakes as int);
        }
        assert forall|t: int|
            0 <= t < a.num_snakes && a.snakes[t].health > 0 && self.snakes[t].health <= 0 implies #[trigger] snake_gone(
            self,
            t,
        ) by {
            assert(grow_rule(&b5, &b6, game, t));
            assert(b5.snakes[t].health <= 0);
            assert(b0.snakes[t] == a.snakes[t]);
            assert(head_placed(&b3, &b4, heads[t], t));
            assert(b3.snakes[t] == b2.snakes[t]);
            if b2.snakes[t].health <= 0 {
                assert(was_alive[t]);
                assert(snake_gone(&b3, t));
                assert(snake_gone(&b4, t));
            }
            assert(snake_gone(&b5, t));
            lemma_gone_cleared(&b5, &b6, t);
            assert forall|c: Coord| self.in_bounds(c) implies sq_owner(#[trigger] self.square(c)) != Some(t as u8) by {
                crate::board::lemma_grid_index(c, self.width as int, self.height as int);
                assert(sq_owner(b6.square(c)) != Some(t as u8));
            }
        }
        assert(turn_played::<R>(&a, self, game, moves));
    }

    /// Whether `gen_board` can play a turn on this board: the game is not over,
    /// the counters cannot overflow, and a royale map has a shrink period.
    pub fn turn_playable(&self, game: &Game) -> (b: bool)
        requires
            self.wf(),
        ensures
            b == playable(self, game),
    {
        if game.over(self) {
            return false;
        }
        let empty_map = match game.api.map {
            GameMap::Empty => true,
            _ => false,
        };
        if !empty_map && royale_applies_exec(game) && game.api.ruleset.settings.royale.shrink_every_n_turns == 0 {
            return false;
        }
        if !(self.turn < i32::MAX && i32::MIN + MAX_SNAKES as i32 <= self.num_food && self.num_food
            <= i32::MAX - MAX_BOARD_SIZE as i32) {
            return false;
        }
        let damage = game.api.ruleset.settings.hazard_damage_per_turn;
        let mut s: usize = 0;
        while s < MAX_SNAKES
            invariant
                s <= MAX_SNAKES,
                damage == game.api.ruleset.settings.hazard_damage_per_turn,
                forall|j: int|
                    0 <= j < s ==> {
                        &&& #[trigger] self.snakes[j].len < i32::MAX - 1
                        &&& self.snakes[j].num_stacked < i32::MAX
                        &&& self.snakes[j].health - 1 - hazard_damage(game) <= i32::MAX
                    },
            decreases MAX_SNAKES - s,
        {
            let sn = self.snakes[s];
            if !(sn.len < i32::MAX - 1 && sn.num_stacked < i32::MAX && sn.health as i64 - 1 - damage as i64
                <= i32::MAX as i64) {
                return false;
            }
            assert(self.snakes[s as int] == sn);
            assert(sn.health - 1 - hazard_damage(game) <= i32::MAX);
            s = s + 1;
        }
        true
    }

    /// Plays random turns until the game is over (or a counter would overflow):
    /// each snake with health takes a random valid move, or a strong one when
    /// `strong`. Gives whether no turn could be played and the number of turns
    /// played.
    pub fn play_out<R: Rand>(&mut self, game: &Game, strong: bool, food_buff: &mut [usize], rng: &mut R) -> (r: (
        bool,
        i64,
    ))
        requires
            old(self).wf(),
            old(food_buff)@.len() >= old(self).width * old(self).height,
        ensures
            final(self).wf(),
            final(self).width == old(self).width,
            final(self).height == old(self).height,
            final(self).num_snakes == old(self).num_snakes,
            r.0 == (r.1 == 0),
            r.0 <==> !playable(old(self), game),
            !playable(final(self), game),
            final(self).turn == old(self).turn + r.1,
            final(self).alive_count() <= old(self).alive_count(),
            exists|boards: Seq<Board>, moves: Seq<u16>|
                #[trigger] played_out::<R>(boards, moves, game, strong) && boards.len() == r.1 + 1 && boards[0]
                    == *old(self) && boards[r.1 as int] == *final(self),
    {
        let mut turns: i64 = 0;
        let ghost mut boards: Seq<Board> = seq![*self];
        let ghost mut played: Seq<u16> = Seq::empty();
        while self.turn_playable(game)
            invariant
                self.wf(),
                turns > 0 ==> playable(old(self), game),
                self.width == old(self).width,
                self.height == old(self).height,
                self.num_snakes == old(self).num_snakes,
                food_buff@.len() >= self.width * self.height,
                self.turn == old(self).turn + turns,
                0 <= turns,
                turns == 0 ==> *self == *old(self),
                self.alive_count() <= old(self).alive_count(),
                played_out::<R>(boards, played, game, strong),
                boards.len() == turns + 1,
                boards[0] == *old(self),
                boards[turns as int] == *self,
            decreases i32::MAX - self.turn,
        {
            let ghost cur = *self;
            let mut moves: u16 = 0;
            let mut s: usize = 0;
            proof {
                assert forall|t: nat| t < 8 implies #[trigger] move_bits(moves, t) == 0 by {
                    crate::util::lemma_no_moves(t);
                }
            }
            while s < self.num_snakes as usize
                invariant
                    self.wf(),
                    *self == cur,
                    s <= self.num_snakes,
                    self.num_snakes <= MAX_SNAKES,
                    forall|t: int| 0 <= t < s ==> #[trigger] playout_move::<R>(&cur, game, strong, t, snake_move(moves, t)),
                    forall|t: nat| s <= t < 8 ==> #[trigger] move_bits(moves, t) == 0,
                decreases self.num_snakes - s,
            {
                if self.snakes[s].alive() {
                    let mv = if strong {
                        self.gen_strong_move(game, s, rng)
                    } else {
                        self.gen_move(game, s, rng)
                    };
                    let ghost prev = moves;
                    moves = Move::set_move(moves, s as u32, mv);
                    proof {
                        assert forall|t: int| 0 <= t < s + 1 implies #[trigger] playout_move::<R>(
                            &cur,
                            game,
                            strong,
                            t,
                            snake_move(moves, t),
                        ) by {
                            assert(move_bits(moves, t as nat) == if t == s { move_index(mv) } else { move_bits(prev, t as nat) });
                            if t < s {
                                assert(snake_move(moves, t) == snake_move(prev, t));
                            }
                        }
                    }
                } else {
                    proof {
                        assert(move_bits(moves, s as nat) == 0);
                        assert(snake_move(moves, s as int) == Move::Left);
                    }
                }
                s = s + 1;
            }
            assert(playout_moves::<R>(&cur, game, strong, moves));
            self.gen_board(moves, game, food_buff, rng);
            proof {
                let old_boards = boards;
                let old_played = played;
                assert(play_step::<R>(cur, *self, game, strong, moves));
                boards = boards.push(*self);
                played = played.push(moves);
                assert forall|i: int| 0 <= i < played.len() implies #[trigger] play_step::<R>(
                    boards[i],
                    boards[i + 1],
                    game,
                    strong,
                    played[i],
                ) by {
                    if i < old_played.len() {
                        assert(play_step::<R>(old_boards[i], old_boards[i + 1], game, strong, old_played[i]));
                        assert(boards[i] == old_boards[i]);
                        assert(boards[i + 1] == old_boards[i + 1]);
                        assert(played[i] == old_played[i]);
                    } else {
                        assert(boards[i] == cur);
                    }
                }
            }
            turns = turns + 1;
        }
        (turns == 0, turns)
    }

    /// The movement stage on its own: every snake with health moves its tail,
    /// and the squares its head moves to are given back; the heads are placed
    /// on the board after the health stage.
    pub fn move_snakes_asm(&mut self, moves: u16, game: &Game) -> (heads: [Coord; 4])
        requires
            old(self).wf(),
        ensures
            final(self).wf(),
            same_frame(final(self), old(self)),
            final(self).num_food == old(self).num_food,
            kinds_kept(old(self).cells(), final(self).cells()),
            forall|j: int|
                0 <= j < MAX_SNAKES ==> tail_step_kept(old(self).snakes[j], #[trigger] final(self).snakes[j]),
            forall|j: int|
                old(self).num_snakes <= j < MAX_SNAKES ==> #[trigger] final(self).snakes[j] == old(self).snakes[j],
            (final(self).snakes@, final(self).cells()) == tails_after(
                old(self).snakes@,
                old(self).cells(),
                game.ruleset,
                old(self).width as int,
                old(self).height as int,
                old(self).num_snakes as int,
            ),
            forall|s: int|
                0 <= s < MAX_SNAKES ==> #[trigger] heads[s] == spec_move_to_coord(
                    old(self).snakes[s].head,
                    snake_move(moves, s),
                    game.ruleset,
                    old(self).width as int,
                    old(self).height as int,
                ),
    {
        let heads = self.new_heads(moves, game.ruleset);
        self.move_tails(game.ruleset);
        heads
    }

    /// The health stage on its own, for heads that moved to `heads`.
    pub fn update_health_asm(&mut self, game: &Game, heads: &[Coord; 4])
        requires
            old(self).wf(),
            health_fits(old(self), game),
        ensures
            final(self).wf(),
            same_frame(final(self), old(self)),
            final(self).num_food == old(self).num_food,
            final(self).cells() == old(self).cells(),
            forall|s: int| 0 <= s < MAX_SNAKES ==> #[trigger] health_rule(old(self), final(self), game, heads[s], s),
    {
        self.update_health(game, heads);
    }

    /// The map stage on its own, with the fast generator.
    pub fn update_board_asm(&mut self, game: &Game, food_buff: &mut [usize], rng: &mut FastRand)
        requires
            old(self).wf(),
            old(food_buff)@.len() >= old(self).width * old(self).height,
            old(self).num_food <= i32::MAX - MAX_BOARD_SIZE,
            royale_runs(game) ==> game.api.ruleset.settings.royale.shrink_every_n_turns != 0,
            old(self).turn > i32::MIN,
        ensures
            final(self).wf(),
            final(self).width == old(self).width,
            final(self).height == old(self).height,
            final(self).turn == old(self).turn,
            final(self).num_snakes == old(self).num_snakes,
            final(self).snakes == old(self).snakes,
            owners_kept(old(self).cells(), final(self).cells()),
            old(self).num_food <= final(self).num_food,
            game.api.map == GameMap::Empty ==> *final(self) == *old(self),
            food_rule(old(self), final(self), game.ruleset),
            !royale_applies(game) ==> forall|c: Coord|
                old(self).in_bounds(c) ==> sq_hazard(#[trigger] final(self).square(c)) == sq_hazard(old(self).square(c)),
            final(food_buff)@.len() == old(food_buff)@.len(),
            food_placed_at(old(self), final(self), game.ruleset, final(food_buff)@, final(self).num_food - old(self).num_food),
            game.api.map != GameMap::Empty && old(self).num_food < game.api.ruleset.settings.minimum_food
                ==> final(self).num_food - old(self).num_food == spawn_count(
                game.api.ruleset.settings.minimum_food - old(self).num_food,
                food_spots(old(self), game.ruleset, old(self).area()),
            ),
            old(self).num_food >= game.api.ruleset.settings.minimum_food ==> final(self).num_food - old(self).num_food <= 1,
            royale_rule(old(self), final(self), game),
            game.api.map == GameMap::Empty ==> final(food_buff)@ == old(food_buff)@ && *final(rng) == *old(rng),
            game.api.map != GameMap::Empty ==> exists|draw: int|
                0 <= draw < 100 && final(self).num_food - old(self).num_food == spawn_count(
                    #[trigger] spawn_wanted(
                        old(self).num_food as int,
                        game.api.ruleset.settings.minimum_food as int,
                        game.api.ruleset.settings.food_spawn_chance as int,
                        draw,
                    ),
                    food_spots(old(self), game.ruleset, old(self).area()),
                ),
    {
        self.update_board(game, food_buff, rng);
    }

    /// StageMovementStandard, tails: every snake with health moves its tail.
    fn move_tails(&mut self, rules: Rules)
        requires
            old(self).wf(),
        ensures
            final(self).wf(),
            same_frame(final(self), old(self)),
            final(self).num_food == old(self).num_food,
            kinds_kept(old(self).cells(), final(self).cells()),
            forall|j: int|
                0 <= j < MAX_SNAKES ==> tail_step_kept(old(self).snakes[j], #[trigger] final(self).snakes[j]),
            forall|j: int|
                old(self).num_snakes <= j < MAX_SNAKES ==> #[trigger] final(self).snakes[j] == old(self).snakes[j],
            bodies_kept(old(self).cells(), final(self).cells()),
            forall|i: int|
                0 <= i < MAX_BOARD_SIZE && #[trigger] final(self).cells()[i] != old(self).cells()[i] ==> sq_owner(
                    old(self).cells()[i],
                ) is Some,
            forall|i: int|
                0 <= i < MAX_BOARD_SIZE && #[trigger] final(self).cells()[i] != old(self).cells()[i] ==> old(
                    self,
                ).snakes[sq_owner(old(self).cells()[i])->0 as int].num_stacked <= 0,
            forall|i: int|
                0 <= i < MAX_BOARD_SIZE && #[trigger] tail_leaves(old(self), rules, i) ==> free_sq(final(self).cells()[i]),
            (final(self).snakes@, final(self).cells()) == tails_after(
                old(self).snakes@,
                old(self).cells(),
                rules,
                old(self).width as int,
                old(self).height as int,
                old(self).num_snakes as int,
            ),
    {
        let mut idx: usize = 0;
        proof {
            lemma_kinds_kept_refl(self.cells());
        }
        while idx < self.num_snakes as usize
            invariant
                self.wf(),
                same_frame(self, old(self)),
                self.num_food == old(self).num_food,
                kinds_kept(old(self).cells(), self.cells()),
                forall|j: int|
                    0 <= j < MAX_SNAKES ==> tail_step_kept(old(self).snakes[j], #[trigger] self.snakes[j]),
                forall|j: int|
                    old(self).num_snakes <= j < MAX_SNAKES ==> #[trigger] self.snakes[j] == old(self).snakes[j],
                bodies_kept(old(self).cells(), self.cells()),
                forall|i: int|
                    0 <= i < MAX_BOARD_SIZE && #[trigger] self.cells()[i] != old(self).cells()[i] ==> (sq_owner(
                        self.cells()[i],
                    ) is None || sq_owner(self.cells()[i]) == sq_owner(old(self).cells()[i])) && sq_owner(
                        old(self).cells()[i],
                    ) is Some && (sq_owner(old(self).cells()[i])->0 as int) < idx,
                forall|i: int|
                    0 <= i < MAX_BOARD_SIZE && #[trigger] self.cells()[i] != old(self).cells()[i] ==> old(
                        self,
                    ).snakes[sq_owner(old(self).cells()[i])->0 as int].num_stacked <= 0,
                forall|j: int| idx <= j < MAX_SNAKES ==> #[trigger] self.snakes[j] == old(self).snakes[j],
                forall|i: int|
                    0 <= i < MAX_BOARD_SIZE && #[trigger] tail_leaves(old(self), rules, i) && (sq_owner(
                        old(self).cells()[i],
                    )->0 as int) < idx ==> free_sq(self.cells()[i]),
                idx <= self.num_snakes,
                (self.snakes@, self.cells()) == tails_after(
                    old(self).snakes@,
                    old(self).cells(),
                    rules,
                    old(self).width as int,
                    old(self).height as int,
                    idx as int,
                ),
            decreases self.num_snakes - idx,
        {
            if self.snakes[idx].alive() {
                let ghost before = *self;
                self.advance_tail(idx, rules);
                proof {
                    assert(self.snakes@ =~= before.snakes@.update(idx as int, self.snakes[idx as int]));
                    assert forall|i: int| 0 <= i < MAX_BOARD_SIZE && sq_is_body(old(self).cells()[i]) implies #[trigger] self.cells()[i]
                        == old(self).cells()[i] || (sq_is_tail(self.cells()[i]) && sq_owner(self.cells()[i]) == sq_owner(
                        old(self).cells()[i],
                    )) by {
                        if before.cells()[i] != old(self).cells()[i] {
                            assert(sq_owner(before.cells()[i]) != Some(idx as u8));
                        }
                    }
                    assert forall|i: int|
                        0 <= i < MAX_BOARD_SIZE && #[trigger] self.cells()[i] != old(self).cells()[i] implies (sq_owner(
                        self.cells()[i],
                    ) is None || sq_owner(self.cells()[i]) == sq_owner(old(self).cells()[i])) && sq_owner(
                        old(self).cells()[i],
                    ) is Some && (sq_owner(old(self).cells()[i])->0 as int) < idx + 1 by {
                        if before.cells()[i] != old(self).cells()[i] {
                            assert(sq_owner(before.cells()[i]) != Some(idx as u8));
                        } else {
                            assert(sq_owner(before.cells()[i]) == Some(idx as u8));
                        }
                    }
                    assert forall|i: int|
                        0 <= i < MAX_BOARD_SIZE && #[trigger] self.cells()[i] != old(self).cells()[i] implies old(
                        self,
                    ).snakes[sq_owner(old(self).cells()[i])->0 as int].num_stacked <= 0 by {
                        if before.cells()[i] != old(self).cells()[i] {
                        } else {
                            assert(sq_owner(before.cells()[i]) == Some(idx as u8));
                            assert(before.snakes[idx as int] == old(self).snakes[idx as int]);
                            if before.snakes[idx as int].num_stacked > 0 {
                                assert(self.cells() == before.cells());
                            }
                        }
                    }
                    assert forall|i: int|
                        0 <= i < MAX_BOARD_SIZE && #[trigger] tail_leaves(old(self), rules, i) && (sq_owner(
                            old(self).cells()[i],
                        )->0 as int) < idx + 1 implies free_sq(self.cells()[i]) by {
                        if (sq_owner(old(self).cells()[i])->0 as int) < idx {
                            assert(free_sq(before.cells()[i]));
                        } else {
                            assert(before.cells()[i] == old(self).cells()[i]);
                            assert(before.snakes[idx as int] == old(self).snakes[idx as int]);
                            let w = old(self).width as int;
                            let h = old(self).height as int;
                            let sn = before.snakes[idx as int];
                            assert(sq_owner(old(self).cells()[i]) == Some(idx as u8));
                            assert(grid_index(sn.tail, w) == i);
                            let m = own_tail_move(before.cells()[i], idx as int)->0;
                            assert(own_tail_move(before.cells()[grid_index(sn.tail, w)], idx as int) == Some(m));
                            let next = spec_move_to_coord(sn.tail, m, rules, w, h);
                            assert(in_grid(next, w, h));
                            let mid = before.cells().update(
                                i,
                                sq_with_hazard(BoardSquare::Empty, sq_hazard(before.cells()[i])),
                            );
                            assert(mid[i] is Empty || mid[i] is Hazard);
                            assert(self.cells() == tail_advance(before.cells(), sn, idx as int, rules, w, h).1);
                            assert(!(sn.num_stacked > 0));
                            let gn = grid_index(next, w);
                            crate::board::lemma_grid_index(next, w, h);
                            let nsq = mid[gn];
                            let out = match nsq {
                                BoardSquare::SnakeBody(k, m2) | BoardSquare::SnakeBodyHazard(k, m2) => if k as int == idx {
                                    mid.update(gn, sq_with_hazard(BoardSquare::SnakeTail(k, m2), sq_hazard(nsq)))
                                } else {
                                    mid
                                },
                                _ => mid,
                            };
                            assert(tail_advance(before.cells(), sn, idx as int, rules, w, h).1 == out);
                            if gn == i {
                                assert(out == mid);
                            }
                            assert(out[i] == mid[i]);
                            assert(self.cells()[i] == mid[i]);
                        }
                    }
                    lemma_kinds_kept_trans(old(self).cells(), before.cells(), self.cells());
                    assert forall|j: int|
                        0 <= j < MAX_SNAKES implies tail_step_kept(old(self).snakes[j], #[trigger] self.snakes[j]) by {
                        assert(tail_step_kept(old(self).snakes[j], before.snakes[j]));
                        if j != idx {
                            assert(self.snakes[j] == before.snakes[j]);
                        }
                    }
                    assert forall|j: int|
                        old(self).num_snakes <= j < MAX_SNAKES implies #[trigger] self.snakes[j] == old(self).snakes[j] by {
                        assert(self.snakes[j] == before.snakes[j]);
                    }
                }
            }
            idx = idx + 1;
        }
    }

    /// The square that each snake's head moves to.
    fn new_heads(&self, moves: u16, rules: Rules) -> (r: [Coord; 4])
        requires
            self.wf(),
        ensures
            forall|s: int|
                0 <= s < MAX_SNAKES ==> #[trigger] r[s] == spec_move_to_coord(
                    self.snakes[s].head,
                    snake_move(moves, s),
                    rules,
                    self.width as int,
                    self.height as int,
                ),
            forall|s: int| 0 <= s < MAX_SNAKES ==> movable(#[trigger] r[s]),
            rules is Wrapped ==> forall|s: int|
                0 <= s < MAX_SNAKES ==> self.in_bounds(#[trigger] r[s]),
    {
        let h0 = self.move_to_coord(self.snakes[0].head, Move::extract(moves, 0), rules);
        let h1 = self.move_to_coord(self.snakes[1].head, Move::extract(moves, 1), rules);
        let h2 = self.move_to_coord(self.snakes[2].head, Move::extract(moves, 2), rules);
        let h3 = self.move_to_coord(self.snakes[3].head, Move::extract(moves, 3), rules);
        let r = [h0, h1, h2, h3];
        assert(r[0] == h0 && r[1] == h1 && r[2] == h2 && r[3] == h3);
        r
    }

    /// StageStarvationStandard, StageHazardDamageStandard, StageFeedSnakesStandard
    /// and the out-of-bounds and out-of-health parts of
    /// StageEliminationStandard, for the snakes that have health.
    fn update_health(&mut self, game: &Game, heads: &[Coord; 4])
        requires
            old(self).wf(),
            health_fits(old(self), game),
        ensures
            final(self).wf(),
            same_frame(final(self), old(self)),
            final(self).num_food == old(self).num_food,
            final(self).cells() == old(self).cells(),
            forall|s: int| 0 <= s < MAX_SNAKES ==> #[trigger] health_rule(old(self), final(self), game, heads[s], s),
    {
        let mut idx: usize = 0;
        while idx < self.num_snakes as usize
            invariant
                self.wf(),
                health_fits(old(self), game),
                same_frame(self, old(self)),
                self.num_food == old(self).num_food,
                self.cells() == old(self).cells(),
                idx <= self.num_snakes,
                forall|s: int|
                    0 <= s < idx ==> #[trigger] health_rule(old(self), self, game, heads[s], s),
                forall|s: int| idx <= s < MAX_SNAKES ==> #[trigger] self.snakes[s] == old(self).snakes[s],
            decreases self.num_snakes - idx,
        {
            let mut sn = self.snakes[idx];
            if sn.alive() {
                let dest = heads[idx];
                if !self.on_board(dest) {
                    sn.health = 0;
                    sn.eliminated = true;
                } else {
                    sn.health = sn.health - 1;
                    let dest_square = self.at(dest);
                    match dest_square {
                        BoardSquare::Food | BoardSquare::FoodHazard => {
                            sn.health = 100;
                            sn.len = sn.len + 1;
                            sn.num_stacked = sn.num_stacked + 1;
                        },
                        _ => {
                            if dest_square.is_hazard() {
                                let damaged: i64 = sn.health as i64
                                    - game.api.ruleset.settings.hazard_damage_per_turn as i64;
                                sn.health = if damaged < 0 {
                                    0
                                } else {
                                    damaged as i32
                                };
                            }
                        },
                    }
                    if sn.health == 0 {
                        sn.eliminated = true;
                    }
                }
                let ghost prev = *self;
                self.set_snake(idx, sn);
                assert forall|s: int| 0 <= s < idx implies #[trigger] health_rule(
                    old(self),
                    self,
                    game,
                    heads[s],
                    s,
                ) by {
                    assert(self.snakes[s] == prev.snakes[s]);
                    assert(health_rule(old(self), &prev, game, heads[s], s));
                }
                assert(health_rule(old(self), self, game, heads[idx as int], idx as int));
            }
            idx = idx + 1;
        }
        assert forall|s: int| 0 <= s < MAX_SNAKES implies #[trigger] health_rule(
            old(self),
            self,
            game,
            heads[s],
            s,
        ) by {
            if s >= idx {
                assert(self.snakes[s] == old(self).snakes[s]);
            }
        }
    }
}

/// The square one move `m` (by index) away from the head of snake `s`.
pub open spec fn head_step(b: &Board, rules: Rules, s: int, m: int) -> Coord {
    spec_move_to_coord(b.snakes[s].head, move_of_index(m), rules, b.width as int, b.height as int)
}

/// Whether a square lies one move away from the head of a snake with health.
pub open spec fn next_to_head(b: &Board, rules: Rules, c: Coord) -> bool {
    exists|s: int, m: int|
        0 <= s < b.num_snakes && b.snakes[s].health > 0 && 0 <= m < 4 && #[trigger] head_step(b, rules, s, m) == c
}

/// Position `i` of the square array lies one move away from the head of a
/// snake with health.
pub open spec fn index_next_to_head(b: &Board, rules: Rules, i: int) -> bool {
    exists|s: int, m: int|
        0 <= s < b.num_snakes && b.snakes[s].health > 0 && 0 <= m < 4 && b.in_bounds(
            #[trigger] head_step(b, rules, s, m),
        ) && grid_index(head_step(b, rules, s, m), b.width as int) == i
}

/// Position `i` of the square array can receive food: it is on the board,
/// holds nothing or a bare hazard, and is not next to the head of a snake
/// with health.
pub open spec fn food_spot(b: &Board, rules: Rules, i: int) -> bool {
    &&& 0 <= i < b.area()
    &&& b.cells()[i] is Empty || b.cells()[i] is Hazard
    &&& !index_next_to_head(b, rules, i)
}

proof fn lemma_food_spots_nonneg(b: &Board, rules: Rules, n: int)
    ensures
        0 <= food_spots(b, rules, n),
    decreases n,
{
    if n > 0 {
        lemma_food_spots_nonneg(b, rules, n - 1);
    }
}

/// How many of the first `n` positions of the square array can receive food.
pub open spec fn food_spots(b: &Board, rules: Rules, n: int) -> int
    decreases n,
{
    if n <= 0 {
        0
    } else {
        food_spots(b, rules, n - 1) + if food_spot(b, rules, n - 1) {
            1int
        } else {
            0int
        }
    }
}

/// How many food squares the map stage places when it wants `want` of them
/// and `spots` squares can receive food.
pub open spec fn spawn_count(want: int, spots: int) -> int {
    if want <= spots {
        want
    } else {
        spots
    }
}

/// How many food squares the map stage wants, with `num_food` on the board, a
/// minimum of `min_food`, a spawn chance of `chance` percent and a draw of
/// `draw` from `0..100`: up to the minimum when there is less, else one when
/// `100 - draw` is below the chance, else none.
pub open spec fn spawn_wanted(num_food: int, min_food: int, chance: int, draw: int) -> int {
    if num_food < min_food {
        min_food - num_food
    } else if 100 - draw < chance {
        1
    } else {
        0
    }
}

/// The food placed on `b` from `a`: the first `n` entries of `buff` are
/// distinct positions that could receive food on `a` and hold food on `b`,
/// and no other square of `b` became food.
pub open spec fn food_placed_at(a: &Board, b: &Board, rules: Rules, buff: Seq<usize>, n: int) -> bool {
    &&& 0 <= n <= buff.len()
    &&& forall|k: int|
        0 <= k < n ==> food_spot(a, rules, #[trigger] buff[k] as int) && sq_is_food(b.cells()[buff[k] as int])
    &&& forall|k1: int, k2: int| 0 <= k1 < n && 0 <= k2 < n && k1 != k2 ==> #[trigger] buff[k1] != #[trigger] buff[k2]
    &&& forall|c: Coord|
        a.in_bounds(c) && !sq_is_food(a.square(c)) && sq_is_food(#[trigger] b.square(c)) ==> exists|k: int|
            0 <= k < n && #[trigger] buff[k] as int == grid_index(c, a.width as int)
}

/// A reordering of distinct food spots holds distinct food spots.
proof fn lemma_reordered_spots(b: &Board, rules: Rules, s: Seq<usize>, t: Seq<usize>)
    requires
        t.to_multiset() == s.to_multiset(),
        forall|k: int| 0 <= k < s.len() ==> food_spot(b, rules, #[trigger] s[k] as int),
        forall|k1: int, k2: int| 0 <= k1 < k2 < s.len() ==> #[trigger] s[k1] < #[trigger] s[k2],
    ensures
        t.len() == s.len(),
        forall|k: int| 0 <= k < t.len() ==> food_spot(b, rules, #[trigger] t[k] as int),
        t.no_duplicates(),
{
    broadcast use vstd::seq_lib::group_to_multiset_ensures;

    assert(t.to_multiset().len() == t.len() && s.to_multiset().len() == s.len());
    assert forall|i: int, j: int| 0 <= i < s.len() && 0 <= j < s.len() && i != j implies s[i] != s[j] by {
        if i < j {
            assert(s[i] < s[j]);
        } else {
            assert(s[j] < s[i]);
        }
    }
    s.lemma_multiset_has_no_duplicates();
    t.lemma_multiset_has_no_duplicates_conv();
    assert forall|k: int| 0 <= k < t.len() implies food_spot(b, rules, #[trigger] t[k] as int) by {
        vstd::seq_lib::to_multiset_contains(t, t[k]);
        vstd::seq_lib::to_multiset_contains(s, t[k]);
        assert(t.contains(t[k]));
        assert(s.contains(t[k]));
        let j = choose|j: int| 0 <= j < s.len() && s[j] == t[k];
        assert(food_spot(b, rules, s[j] as int));
    }
}

/// Placing food at entry `k` of the buffer extends the placed food by one.
proof fn lemma_place_spot(
    a: &Board,
    prev: &Board,
    b: &Board,
    rules: Rules,
    buff: Seq<usize>,
    k: int,
    spawn: int,
)
    requires
        a.wf(),
        prev.width == a.width,
        b.width == a.width,
        0 <= k < spawn <= buff.len(),
        forall|j: int| 0 <= j < spawn ==> food_spot(a, rules, #[trigger] buff[j] as int),
        forall|j1: int, j2: int| 0 <= j1 < spawn && 0 <= j2 < spawn && j1 != j2 ==> #[trigger] buff[j1] != #[trigger] buff[j2],
        food_placed_at(a, prev, rules, buff, k),
        prev.cells().len() == MAX_BOARD_SIZE,
        b.cells().len() == MAX_BOARD_SIZE,
        sq_is_food(b.cells()[buff[k] as int]),
        forall|i: int| 0 <= i < MAX_BOARD_SIZE && i != buff[k] as int ==> #[trigger] b.cells()[i] == prev.cells()[i],
    ensures
        food_placed_at(a, b, rules, buff, k + 1),
{
    let w = a.width as int;
    let h = a.height as int;
    assert forall|j: int| 0 <= j < k + 1 implies food_spot(a, rules, #[trigger] buff[j] as int) && sq_is_food(
        b.cells()[buff[j] as int],
    ) by {
        if j < k {
            assert(buff[j] != buff[k]);
            assert(sq_is_food(prev.cells()[buff[j] as int]));
        }
    }
    assert forall|c: Coord| a.in_bounds(c) && !sq_is_food(a.square(c)) && sq_is_food(#[trigger] b.square(c)) implies exists|j: int|
        0 <= j < k + 1 && #[trigger] buff[j] as int == grid_index(c, a.width as int) by {
        crate::board::lemma_grid_index(c, w, h);
        if grid_index(c, w) == buff[k] as int {
            assert(buff[k] as int == grid_index(c, w));
        } else {
            assert(b.square(c) == prev.square(c));
            let j = choose|j: int| 0 <= j < k && #[trigger] buff[j] as int == grid_index(c, w);
            assert(buff[j] as int == grid_index(c, w));
        }
    }
}

proof fn lemma_food_placed_frame(a: &Board, prev: &Board, b: &Board, rules: Rules, buff: Seq<usize>, n: int)
    requires
        food_placed_at(a, prev, rules, buff, n),
        b.cells() == prev.cells(),
        b.width == prev.width,
    ensures
        food_placed_at(a, b, rules, buff, n),
{
    assert forall|c: Coord| a.in_bounds(c) && !sq_is_food(a.square(c)) && sq_is_food(#[trigger] b.square(c)) implies exists|k: int|
        0 <= k < n && #[trigger] buff[k] as int == grid_index(c, a.width as int) by {
        assert(b.square(c) == prev.square(c));
    }
}

/// A multiple of a divisor leaves a remainder of zero.
proof fn lemma_rem_of_multiple(x: int, d: int, k: int)
    requires
        d != 0,
        x == k * d,
    ensures
        x % d == 0,
{
    let q = x / d;
    let r = x % d;
    assert(x == d * q + r && 0 <= r && (d > 0 ==> r < d) && (d < 0 ==> r < -d)) by (nonlinear_arith)
        requires
            d != 0,
            q == x / d,
            r == x % d,
    ;
    assert(d * (k - q) == r) by (nonlinear_arith)
        requires
            x == k * d,
            x == d * q + r,
    ;
    if k - q >= 1 {
        if d > 0 {
            assert(d * (k - q) >= d) by (nonlinear_arith)
                requires
                    d > 0,
                    k - q >= 1,
            ;
        } else {
            assert(d * (k - q) <= d) by (nonlinear_arith)
                requires
                    d < 0,
                    k - q >= 1,
            ;
        }
    } else if k - q <= -1 {
        if d > 0 {
            assert(d * (k - q) <= -d) by (nonlinear_arith)
                requires
                    d > 0,
                    k - q <= -1,
            ;
        } else {
            assert(d * (k - q) >= -d) by (nonlinear_arith)
                requires
                    d < 0,
                    k - q <= -1,
            ;
        }
    }
}

/// A number and its negation leave a remainder of zero by the same divisors.
proof fn lemma_rem_zero_neg(x: int, d: int)
    requires
        d != 0,
    ensures
        (x % d == 0) == ((-x) % d == 0),
{
    if x % d == 0 {
        let q = x / d;
        assert(x == d * q) by (nonlinear_arith)
            requires
                d != 0,
                x % d == 0,
                q == x / d,
        ;
        assert(-x == (-q) * d) by (nonlinear_arith)
            requires
                x == d * q,
        ;
        lemma_rem_of_multiple(-x, d, -q);
    }
    if (-x) % d == 0 {
        let q = (-x) / d;
        assert(-x == d * q) by (nonlinear_arith)
            requires
                d != 0,
                (-x) % d == 0,
                q == (-x) / d,
        ;
        assert(x == (-q) * d) by (nonlinear_arith)
            requires
                -x == d * q,
        ;
        lemma_rem_of_multiple(x, d, -q);
    }
}

/// Marking square `z` of the shrinking line extends the marked part of the
/// line by one.
proof fn lemma_mark_line(a: &Board, prev: &Board, b: &Board, side: int, along_x: bool, z: int, c0: Coord)
    requires
        a.wf(),
        prev.width == a.width,
        b.width == a.width,
        a.in_bounds(c0),
        along_x == (side >= 2),
        on_shrink_line(a, side, c0),
        z == if along_x {
            c0.x as int
        } else {
            c0.y as int
        },
        forall|c: Coord|
            a.in_bounds(c) ==> sq_hazard(#[trigger] prev.square(c)) == (sq_hazard(a.square(c)) || (on_shrink_line(
                a,
                side,
                c,
            ) && (if along_x {
                c.x
            } else {
                c.y
            }) < z)),
        b.cells() == prev.cells().update(grid_index(c0, a.width as int), sq_with_hazard(prev.square(c0), true)),
    ensures
        forall|c: Coord|
            a.in_bounds(c) ==> sq_hazard(#[trigger] b.square(c)) == (sq_hazard(a.square(c)) || (on_shrink_line(
                a,
                side,
                c,
            ) && (if along_x {
                c.x
            } else {
                c.y
            }) < z + 1)),
{
    let w = a.width as int;
    let h = a.height as int;
    crate::board::lemma_grid_index(c0, w, h);
    assert forall|c: Coord| a.in_bounds(c) implies sq_hazard(#[trigger] b.square(c)) == (sq_hazard(a.square(c)) || (
    on_shrink_line(a, side, c) && (if along_x {
        c.x
    } else {
        c.y
    }) < z + 1)) by {
        crate::board::lemma_grid_index(c, w, h);
        assert(sq_hazard(prev.square(c)) == (sq_hazard(a.square(c)) || (on_shrink_line(a, side, c) && (if along_x {
            c.x
        } else {
            c.y
        }) < z)));
        if c != c0 {
            crate::board::lemma_grid_index_injective(c, c0, w, h);
            assert(b.square(c) == prev.square(c));
            if on_shrink_line(a, side, c) && (if along_x {
                c.x
            } else {
                c.y
            }) == z {
                assert(c == c0);
            }
        } else {
            assert(b.square(c) == sq_with_hazard(prev.square(c), true));
        }
    }
}

/// Marking a square as a hazard keeps the placed food.
proof fn lemma_food_placed_hazard(
    a: &Board,
    prev: &Board,
    b: &Board,
    rules: Rules,
    buff: Seq<usize>,
    n: int,
    c0: Coord,
)
    requires
        a.wf(),
        food_placed_at(a, prev, rules, buff, n),
        prev.width == a.width,
        b.width == a.width,
        a.in_bounds(c0),
        b.cells() == prev.cells().update(grid_index(c0, a.width as int), sq_with_hazard(prev.square(c0), true)),
    ensures
        food_placed_at(a, b, rules, buff, n),
{
    let w = a.width as int;
    let h = a.height as int;
    crate::board::lemma_grid_index(c0, w, h);
    assert forall|k: int| 0 <= k < n implies food_spot(a, rules, #[trigger] buff[k] as int) && sq_is_food(
        b.cells()[buff[k] as int],
    ) by {
        assert(sq_is_food(prev.cells()[buff[k] as int]));
    }
    assert forall|c: Coord| a.in_bounds(c) && !sq_is_food(a.square(c)) && sq_is_food(#[trigger] b.square(c)) implies exists|k: int|
        0 <= k < n && #[trigger] buff[k] as int == grid_index(c, a.width as int) by {
        crate::board::lemma_grid_index(c, w, h);
        assert(sq_is_food(prev.square(c)));
    }
}

/// Food and hazards stay, and food appears only on an empty square or a
/// hazard that is not next to the head of a snake with health.
pub open spec fn food_rule(a: &Board, b: &Board, rules: Rules) -> bool {
    forall|c: Coord|
        a.in_bounds(c) ==> {
            &&& sq_is_food(a.square(c)) ==> sq_is_food(#[trigger] b.square(c))
            &&& sq_hazard(a.square(c)) ==> sq_hazard(b.square(c))
            &&& !sq_is_food(a.square(c)) && sq_is_food(b.square(c)) ==> (a.square(c) is Empty || a.square(
                c,
            ) is Hazard) && !next_to_head(a, rules, c)
        }
}

/// Squares changed only by food placed by the food rule, hazards unchanged.
pub open spec fn placed_food(a: &Board, b: &Board, rules: Rules) -> bool {
    &&& b.width == a.width
    &&& b.height == a.height
    &&& forall|c: Coord|
        a.in_bounds(c) ==> {
            &&& sq_hazard(#[trigger] b.square(c)) == sq_hazard(a.square(c))
            &&& b.square(c) == a.square(c) || (sq_is_food(b.square(c)) && !sq_is_food(a.square(c)) && (a.square(
                c,
            ) is Empty || a.square(c) is Hazard) && !next_to_head(a, rules, c))
        }
}

proof fn lemma_placed_food_rule(a: &Board, b: &Board, rules: Rules)
    requires
        placed_food(a, b, rules),
    ensures
        food_rule(a, b, rules),
{
    assert forall|c: Coord| a.in_bounds(c) implies {
        &&& sq_is_food(a.square(c)) ==> sq_is_food(#[trigger] b.square(c))
        &&& sq_hazard(a.square(c)) ==> sq_hazard(b.square(c))
        &&& !sq_is_food(a.square(c)) && sq_is_food(b.square(c)) ==> (a.square(c) is Empty || a.square(
            c,
        ) is Hazard) && !next_to_head(a, rules, c)
    } by {
        assert(sq_hazard(b.square(c)) == sq_hazard(a.square(c)));
    }
}

/// Placing food on a free square that is not next to a head keeps the food
/// rule.
proof fn lemma_place_food(a: &Board, prev: &Board, b: &Board, rules: Rules, idx: int)
    requires
        a.wf(),
        prev.wf(),
        placed_food(a, prev, rules),
        b.width == prev.width,
        b.height == prev.height,
        0 <= idx < a.width * a.height,
        prev.cells()[idx] is Empty || prev.cells()[idx] is Hazard,
        b.cells() == prev.cells().update(idx, sq_with_hazard(BoardSquare::Food, sq_hazard(prev.cells()[idx]))),
        forall|c: Coord| a.in_bounds(c) && #[trigger] next_to_head(a, rules, c) ==> grid_index(c, a.width as int) != idx,
    ensures
        placed_food(a, b, rules),
{
    let w = a.width as int;
    let h = a.height as int;
    assert forall|c: Coord| a.in_bounds(c) implies {
        &&& sq_hazard(#[trigger] b.square(c)) == sq_hazard(a.square(c))
        &&& b.square(c) == a.square(c) || (sq_is_food(b.square(c)) && !sq_is_food(a.square(c)) && (a.square(
            c,
        ) is Empty || a.square(c) is Hazard) && !next_to_head(a, rules, c))
    } by {
        crate::board::lemma_grid_index(c, w, h);
        assert(sq_hazard(prev.square(c)) == sq_hazard(a.square(c)));
        if grid_index(c, w) != idx {
            assert(b.square(c) == prev.square(c));
        } else {
            assert(prev.square(c) == prev.cells()[idx]);
            assert(!sq_is_food(prev.square(c)));
            assert(prev.square(c) == a.square(c));
        }
    }
}

proof fn lemma_food_rule_frame(a: &Board, prev: &Board, b: &Board, rules: Rules)
    requires
        food_rule(a, prev, rules),
        b.cells() == prev.cells(),
        b.width == prev.width,
    ensures
        food_rule(a, b, rules),
{
    assert forall|c: Coord| a.in_bounds(c) implies {
        &&& sq_is_food(a.square(c)) ==> sq_is_food(#[trigger] b.square(c))
        &&& sq_hazard(a.square(c)) ==> sq_hazard(b.square(c))
        &&& !sq_is_food(a.square(c)) && sq_is_food(b.square(c)) ==> (a.square(c) is Empty || a.square(
            c,
        ) is Hazard) && !next_to_head(a, rules, c)
    } by {
        assert(b.square(c) == prev.square(c));
    }
}

/// Marking a square as a hazard keeps the food rule.
proof fn lemma_mark_hazard(a: &Board, prev: &Board, b: &Board, rules: Rules, c0: Coord)
    requires
        a.wf(),
        food_rule(a, prev, rules),
        prev.width == a.width,
        prev.height == a.height,
        b.width == a.width,
        a.in_bounds(c0),
        b.cells() == prev.cells().update(grid_index(c0, a.width as int), sq_with_hazard(prev.square(c0), true)),
    ensures
        food_rule(a, b, rules),
{
    let w = a.width as int;
    let h = a.height as int;
    assert forall|c: Coord| a.in_bounds(c) implies {
        &&& sq_is_food(a.square(c)) ==> sq_is_food(#[trigger] b.square(c))
        &&& sq_hazard(a.square(c)) ==> sq_hazard(b.square(c))
        &&& !sq_is_food(a.square(c)) && sq_is_food(b.square(c)) ==> (a.square(c) is Empty || a.square(
            c,
        ) is Hazard) && !next_to_head(a, rules, c)
    } by {
        crate::board::lemma_grid_index(c, w, h);
        crate::board::lemma_grid_index(c0, w, h);
        assert(sq_is_food(a.square(c)) ==> sq_is_food(prev.square(c)));
        if c != c0 {
            crate::board::lemma_grid_index_injective(c, c0, w, h);
            assert(b.square(c) == prev.square(c));
        } else {
            assert(b.square(c) == sq_with_hazard(prev.square(c), true));
        }
    }
}

/// Whether `gen_board` can play a turn: the game is not over, the counters
/// cannot overflow, and a royale map has a shrink period.
pub open spec fn playable(b: &Board, game: &Game) -> bool {
    &&& turn_fits(b, game)
    &&& !(b.alive_count() < game.spec_min_alive_snakes())
    &&& royale_runs(game) ==> game.api.ruleset.settings.royale.shrink_every_n_turns != 0
}

/// What the head stage does to snake `s`, whose head moves to `dest`.
pub open spec fn head_placed(a: &Board, b: &Board, dest: Coord, s: int) -> bool {
    let old_s = a.snakes[s];
    let new_s = b.snakes[s];
    if s >= a.num_snakes || old_s.health <= 0 {
        new_s == old_s
    } else {
        new_s == Snake { head: dest, old_head: old_s.head, ..old_s }
    }
}

/// Snakes `s` and `t` move their heads onto the same square, which no other
/// snake reaches, which holds no head and on which no snake has its head, and
/// neither was eliminated before: a head-on collision of exactly two snakes.
pub open spec fn head_on_pair(a: &Board, heads: [Coord; 4], s: int, t: int) -> bool {
    let d = heads[s];
    &&& 0 <= s < a.num_snakes && 0 <= t < a.num_snakes && s != t
    &&& a.snakes[s].health > 0 && a.snakes[t].health > 0
    &&& !a.snakes[s].eliminated && !a.snakes[t].eliminated
    &&& heads[t] == d
    &&& a.in_bounds(d)
    &&& !sq_is_head(a.square(d))
    &&& forall|u: int| 0 <= u < a.num_snakes && a.snakes[u].health > 0 ==> #[trigger] a.snakes[u].head != d
    &&& forall|u: int|
        0 <= u < a.num_snakes && a.snakes[u].health > 0 && u != s && u != t ==> #[trigger] heads[u] != d
}

/// A body or tail square of a snake that was not eliminated: a head that
/// moves onto it is not placed.
pub open spec fn blocking(a: &Board, sq: BoardSquare) -> bool {
    match sq {
        BoardSquare::SnakeBody(j, _) | BoardSquare::SnakeBodyHazard(j, _) | BoardSquare::SnakeTail(j, _)
        | BoardSquare::SnakeTailHazard(j, _) => !a.snakes[j as int].eliminated,
        _ => false,
    }
}

/// The square that snake `idx` leaves when its head arrives on `nsq`: its
/// head where it wins, an emptied square on an even head-on collision with an
/// earlier snake, and `nsq` where it loses.
pub open spec fn arrive_sq(a: &Board, nsq: BoardSquare, idx: int) -> BoardSquare {
    let head_sq = sq_with_hazard(BoardSquare::SnakeHead(idx as u8), sq_hazard(nsq));
    match nsq {
        BoardSquare::SnakeHead(j) | BoardSquare::SnakeHeadHazard(j) => {
            let other = a.snakes[j as int];
            if other.eliminated || (j < idx && a.snakes[idx].len > other.len) {
                head_sq
            } else if j < idx && a.snakes[idx].len == other.len {
                sq_with_hazard(BoardSquare::Empty, sq_hazard(nsq))
            } else {
                nsq
            }
        },
        BoardSquare::SnakeBody(j, _) | BoardSquare::SnakeBodyHazard(j, _) | BoardSquare::SnakeTail(j, _)
        | BoardSquare::SnakeTailHazard(j, _) => if a.snakes[j as int].eliminated {
            head_sq
        } else {
            nsq
        },
        _ => head_sq,
    }
}

/// Snake `s` moves its head onto a body or tail square of a snake that was
/// not eliminated, on which no snake with health has its head.
pub open spec fn onto_body(a: &Board, heads: [Coord; 4], s: int) -> bool {
    let d = heads[s];
    &&& 0 <= s < a.num_snakes
    &&& a.snakes[s].health > 0
    &&& a.in_bounds(d)
    &&& blocking(a, a.square(d))
    &&& forall|u: int| 0 <= u < a.num_snakes && a.snakes[u].health > 0 ==> #[trigger] a.snakes[u].head != d
}

/// One snake's step of the head stage leaves a blocking square that no head
/// rests on as it was.
proof fn lemma_body_step(a: &Board, start: &Board, cur: &Board, heads: [Coord; 4], idx: int, s: int)
    requires
        onto_body(a, heads, s),
        start.square(heads[s]) == a.square(heads[s]),
        0 <= idx < a.num_snakes,
        a.snakes[idx].health > 0 ==> forall|c: Coord|
            a.in_bounds(c) && c != a.snakes[idx].head && c != heads[idx] ==> #[trigger] cur.square(c) == start.square(c),
        a.snakes[idx].health > 0 && heads[idx] != a.snakes[idx].head ==> cur.square(heads[idx]) == arrive_sq(
            a,
            start.square(heads[idx]),
            idx,
        ),
        a.snakes[idx].health <= 0 ==> cur.cells() == start.cells(),
        cur.width == start.width,
    ensures
        cur.square(heads[s]) == a.square(heads[s]),
{
    let d = heads[s];
    if a.snakes[idx].health > 0 {
        assert(a.snakes[idx].head != d);
        if heads[idx] == d {
            let nsq = start.square(d);
            match nsq {
                BoardSquare::SnakeBody(j, _) | BoardSquare::SnakeBodyHazard(j, _) | BoardSquare::SnakeTail(j, _)
                | BoardSquare::SnakeTailHazard(j, _) => {
                    assert(!a.snakes[j as int].eliminated);
                },
                _ => {},
            }
        }
    }
}

/// A square with no snake on it.
pub open spec fn free_sq(sq: BoardSquare) -> bool {
    sq is Empty || sq is Food || sq is Hazard || sq is FoodHazard
}

/// Snake `s` moves its head onto a free square that no other snake with
/// health reaches and on which no snake with health has its head.
pub open spec fn arrives_free(a: &Board, heads: [Coord; 4], s: int) -> bool {
    let d = heads[s];
    &&& 0 <= s < a.num_snakes
    &&& a.snakes[s].health > 0
    &&& a.in_bounds(d)
    &&& free_sq(a.square(d))
    &&& forall|u: int| 0 <= u < a.num_snakes && a.snakes[u].health > 0 ==> #[trigger] a.snakes[u].head != d
    &&& forall|u: int| 0 <= u < a.num_snakes && a.snakes[u].health > 0 && u != s ==> #[trigger] heads[u] != d
}

/// One snake's step of the head stage: a free square that only snake `s`
/// reaches stays free before `s` and is its head from then on.
proof fn lemma_free_step(a: &Board, start: &Board, cur: &Board, heads: [Coord; 4], idx: int, s: int)
    requires
        a.wf(),
        arrives_free(a, heads, s),
        idx <= s ==> start.square(heads[s]) == a.square(heads[s]),
        idx > s ==> owns_head(start, s, heads[s]),
        0 <= idx < a.num_snakes,
        a.snakes[idx].health > 0 ==> forall|c: Coord|
            a.in_bounds(c) && c != a.snakes[idx].head && c != heads[idx] ==> #[trigger] cur.square(c) == start.square(c),
        a.snakes[idx].health > 0 && heads[idx] != a.snakes[idx].head ==> cur.square(heads[idx]) == arrive_sq(
            a,
            start.square(heads[idx]),
            idx,
        ),
        a.snakes[idx].health <= 0 ==> cur.cells() == start.cells(),
        cur.width == start.width,
        cur.height == start.height,
        start.width == a.width,
        start.height == a.height,
    ensures
        idx + 1 <= s ==> cur.square(heads[s]) == a.square(heads[s]),
        idx + 1 > s ==> owns_head(cur, s, heads[s]),
{
    let d = heads[s];
    assert(a.snakes[s].head != d);
    if idx == s {
        assert(start.square(d) == a.square(d));
        assert((s as u8) as int == s);
    } else if a.snakes[idx].health > 0 {
        assert(a.snakes[idx].head != d);
        assert(heads[idx] != d);
    }
}

/// How far the head stage has come with the squares of a two-snake head-on
/// collision after the snakes before `idx` were placed: the square is
/// untouched before the first of the two, it is untouched and blocking or
/// the first snake's head before the second, and afterwards a snake of the
/// two owns it only when it is the longer.
pub open spec fn pair_state(a: &Board, cur: &Board, heads: [Coord; 4], s: int, t: int, idx: int) -> bool {
    let d = heads[s];
    let lo = if s < t {
        s
    } else {
        t
    };
    let hi = if s < t {
        t
    } else {
        s
    };
    &&& idx <= lo ==> cur.square(d) == a.square(d)
    &&& lo < idx <= hi ==> (cur.square(d) == a.square(d) && blocking(a, a.square(d))) || owns_head(cur, lo, d)
    &&& hi < idx ==> (owns_head(cur, s, d) ==> a.snakes[s].len > a.snakes[t].len) && (owns_head(cur, t, d)
        ==> a.snakes[t].len > a.snakes[s].len)
    &&& lo < idx <= hi && free_sq(a.square(d)) ==> owns_head(cur, lo, d)
    &&& hi < idx && free_sq(a.square(d)) ==> (a.snakes[s].len > a.snakes[t].len ==> owns_head(cur, s, d)) && (
    a.snakes[t].len > a.snakes[s].len ==> owns_head(cur, t, d))
}

/// One snake's step of the head stage keeps the state of a two-snake head-on
/// collision.
proof fn lemma_pair_step(a: &Board, start: &Board, cur: &Board, heads: [Coord; 4], idx: int, s: int, t: int)
    requires
        a.wf(),
        head_on_pair(a, heads, s, t),
        pair_state(a, start, heads, s, t, idx),
        0 <= idx < a.num_snakes,
        start.width == a.width,
        start.height == a.height,
        cur.width == a.width,
        cur.height == a.height,
        a.snakes[idx].health > 0 ==> forall|c: Coord|
            a.in_bounds(c) && c != a.snakes[idx].head && c != heads[idx] ==> #[trigger] cur.square(c) == start.square(c),
        a.snakes[idx].health > 0 && heads[idx] != a.snakes[idx].head ==> cur.square(heads[idx]) == arrive_sq(
            a,
            start.square(heads[idx]),
            idx,
        ),
        a.snakes[idx].health <= 0 ==> cur.cells() == start.cells(),
    ensures
        pair_state(a, cur, heads, s, t, idx + 1),
{
    let d = heads[s];
    assert(a.snakes[s].head != d);
    assert(a.snakes[t].head != d);
    if idx != s && idx != t {
        if a.snakes[idx].health > 0 {
            assert(a.snakes[idx].head != d);
            assert(heads[idx] != d);
        }
        assert(cur.square(d) == start.square(d));
    } else {
        let lo = if s < t {
            s
        } else {
            t
        };
        let hi = if s < t {
            t
        } else {
            s
        };
        let nsq = start.square(d);
        assert(heads[idx] == d);
        assert(cur.square(d) == arrive_sq(a, nsq, idx));
        if idx == lo {
            assert(nsq == a.square(d));
            assert(!sq_is_head(nsq));
            match nsq {
                BoardSquare::SnakeHead(j) => {},
                BoardSquare::SnakeHeadHazard(j) => {},
                BoardSquare::SnakeBody(j, _) | BoardSquare::SnakeBodyHazard(j, _) | BoardSquare::SnakeTail(j, _)
                | BoardSquare::SnakeTailHazard(j, _) => {
                    if a.snakes[j as int].eliminated {
                        assert(owns_head(cur, lo, d));
                    } else {
                        assert(blocking(a, a.square(d)));
                    }
                },
                _ => {
                    assert((lo as u8) as int == lo);
                    assert(owns_head(cur, lo, d));
                },
            }
        } else {
            assert(idx == hi);
            if owns_head(start, lo, d) {
                let other = a.snakes[lo];
                assert(nsq == BoardSquare::SnakeHead(lo as u8) || nsq == BoardSquare::SnakeHeadHazard(lo as u8));
                assert((lo as u8) as int == lo);
                assert(!other.eliminated);
                assert(lo < hi);
                if a.snakes[hi].len > other.len {
                    assert((hi as u8) as int == hi);
                    assert(arrive_sq(a, nsq, idx) == sq_with_hazard(BoardSquare::SnakeHead(idx as u8), sq_hazard(nsq)));
                    assert(owns_head(cur, hi, d));
                    assert(!owns_head(cur, lo, d));
                } else if a.snakes[hi].len == other.len {
                    assert(!sq_is_head(cur.square(d)));
                } else {
                    assert(cur.square(d) == nsq);
                    assert(!owns_head(cur, hi, d));
                }
            } else {
                assert(nsq == a.square(d) && blocking(a, nsq));
                assert(cur.square(d) == nsq);
                assert(!sq_is_head(cur.square(d)));
            }
        }
    }
}

/// What the collision stage does to snake `s`.
pub open spec fn collision_rule(a: &Board, b: &Board, s: int) -> bool {
    let old_s = a.snakes[s];
    let new_s = b.snakes[s];
    &&& s >= a.num_snakes ==> new_s == old_s
    &&& s < a.num_snakes && old_s.health > 0 && owns_head(a, s, old_s.head) ==> new_s == old_s
    &&& s < a.num_snakes && new_s.health > 0 ==> new_s == old_s && owns_head(b, s, new_s.head)
    &&& new_s.health <= 0 ==> new_s == old_s || (old_s.health > 0 && new_s == Snake {
        health: 0,
        eliminated: true,
        ..old_s
    })
}

/// The royale map shrinks on this turn: the map has a map stage and royale
/// logic, the turn is a multiple of the shrink period, and the safe area is
/// not empty.
pub open spec fn royale_due(a: &Board, game: &Game) -> bool {
    &&& game.api.map != GameMap::Empty
    &&& royale_applies(game)
    &&& a.turn % game.api.ruleset.settings.royale.shrink_every_n_turns == 0
    &&& a.royale_min_x <= a.royale_max_x
    &&& a.royale_min_y <= a.royale_max_y
}

/// Whether a square lies on the line that shrinking `side` (0: low x, 1: high
/// x, 2: low y, 3: high y) turns into a hazard: the column of an x side, the
/// row of a y side.
pub open spec fn on_shrink_line(a: &Board, side: int, c: Coord) -> bool {
    let index = if side == 0 {
        a.royale_min_x
    } else if side == 1 {
        a.royale_max_x
    } else if side == 2 {
        a.royale_min_y
    } else {
        a.royale_max_y
    };
    if side >= 2 {
        c.y == index
    } else {
        c.x == index
    }
}

/// The royale bounds of `b` are those of `a` with `side` moved in by one (no
/// side moves for any other value of `side`).
pub open spec fn bounds_shrunk(a: &Board, b: &Board, side: int) -> bool {
    &&& b.royale_min_x == a.royale_min_x + if side == 0 {
        1int
    } else {
        0int
    }
    &&& b.royale_max_x == a.royale_max_x - if side == 1 {
        1int
    } else {
        0int
    }
    &&& b.royale_min_y == a.royale_min_y + if side == 2 {
        1int
    } else {
        0int
    }
    &&& b.royale_max_y == a.royale_max_y - if side == 3 {
        1int
    } else {
        0int
    }
}

/// What the royale map logic does: when it is due, one side drawn at random
/// moves in by one and its line becomes a hazard; otherwise the bounds and
/// hazards stay.
pub open spec fn royale_rule(a: &Board, b: &Board, game: &Game) -> bool {
    if royale_due(a, game) {
        exists|side: int| 0 <= side < 4 && #[trigger] royale_shrunk(a, b, side)
    } else {
        bounds_shrunk(a, b, 4) && forall|c: Coord|
            a.in_bounds(c) ==> sq_hazard(#[trigger] b.square(c)) == sq_hazard(a.square(c))
    }
}

/// The move that snake `s` of `a` takes in a turn of a play-out: for a snake
/// with health, a move that `gen_strong_move` (when `strong`) or `gen_move`
/// can give with the generator `R`; Left, the move of no move, for the others.
pub open spec fn playout_move<R: Rand>(a: &Board, game: &Game, strong: bool, s: int, mv: Move) -> bool {
    if a.snakes[s].health > 0 {
        if strong {
            strong_drawn::<R>(a, game, s, mv)
        } else {
            move_drawn::<R>(a, game, s, mv)
        }
    } else {
        mv == Move::Left
    }
}

/// The moves of a turn of a play-out on `a`, as `playout_move` says for each
/// snake.
pub open spec fn playout_moves<R: Rand>(a: &Board, game: &Game, strong: bool, moves: u16) -> bool {
    forall|s: int| 0 <= s < a.num_snakes ==> #[trigger] playout_move::<R>(a, game, strong, s, snake_move(moves, s))
}

/// `b` is a turn that `gen_board` plays on `a` with `moves` and the generator
/// `R`: what its contract says of each snake, of collisions, of the food that
/// the heads eat and of the map stage, and that a snake that leaves the game
/// on this turn leaves no square behind.
pub open spec fn turn_played<R: Rand>(a: &Board, b: &Board, game: &Game, moves: u16) -> bool {
    &&& b.wf()
    &&& b.turn == a.turn + 1
    &&& b.width == a.width
    &&& b.height == a.height
    &&& b.num_snakes == a.num_snakes
    &&& forall|s: int| 0 <= s < MAX_SNAKES ==> #[trigger] turn_rule(a, b, game, moves, s)
    &&& forall|s: int, t: int|
        0 <= s < MAX_SNAKES && 0 <= t < MAX_SNAKES ==> #[trigger] head_on_rule(a, b, game, moves, s, t)
    &&& forall|s: int| 0 <= s < MAX_SNAKES ==> #[trigger] body_rule(a, b, game, moves, s)
    &&& forall|s: int| 0 <= s < MAX_SNAKES ==> #[trigger] free_move_rule(a, b, game, moves, s)
    &&& forall|s: int| 0 <= s < MAX_SNAKES ==> #[trigger] survivor_rule(a, b, game, moves, s)
    &&& forall|s: int, u: int| 0 <= s < MAX_SNAKES && 0 <= u < MAX_SNAKES ==> #[trigger] neck_rule(a, b, game, moves, s, u)
    &&& forall|s: int, t: int|
        0 <= s < MAX_SNAKES && 0 <= t < MAX_SNAKES ==> #[trigger] head_on_win_rule(a, b, game, moves, s, t)
    &&& exists|mid: Board|
        #[trigger] map_stage::<R>(a, &mid, b, game) && mid.num_food == a.num_food - turn_food_eaten(
            a,
            game,
            moves,
            a.num_snakes as int,
        )
    &&& forall|t: int|
        0 <= t < a.num_snakes && a.snakes[t].health > 0 && b.snakes[t].health <= 0 ==> #[trigger] snake_gone(b, t)
}

/// A play-out: each board of `boards` after the first is the turn played on
/// the one before it with the moves of that turn, chosen as a play-out
/// chooses them.
pub open spec fn played_out<R: Rand>(boards: Seq<Board>, moves: Seq<u16>, game: &Game, strong: bool) -> bool {
    &&& boards.len() == moves.len() + 1
    &&& forall|i: int| 0 <= i < moves.len() ==> #[trigger] play_step::<R>(boards[i], boards[i + 1], game, strong, moves[i])
}

/// One turn of a play-out: `b` is the turn played on `a` with `moves`, which
/// a play-out can choose on `a`.
pub open spec fn play_step<R: Rand>(a: Board, b: Board, game: &Game, strong: bool, moves: u16) -> bool {
    playout_moves::<R>(&a, game, strong, moves) && turn_played::<R>(&a, &b, game, moves)
}

/// The map stage of a turn played from `a`: `mid` is the board once the rules
/// have run, with `a`'s size, bounds and hazards, one turn more, and the
/// snakes that `b` ends with; `b` is what the map logic made of `mid`: food
/// by the food rule, with the count drawn by the generator `R`, and the royale
/// shrink on the side that `R` drew.
pub open spec fn map_stage<R: Rand>(a: &Board, mid: &Board, b: &Board, game: &Game) -> bool {
    &&& mid.wf()
    &&& mid.width == a.width
    &&& mid.height == a.height
    &&& mid.turn == a.turn + 1
    &&& mid.royale_min_x == a.royale_min_x
    &&& mid.royale_max_x == a.royale_max_x
    &&& mid.royale_min_y == a.royale_min_y
    &&& mid.royale_max_y == a.royale_max_y
    &&& mid.num_snakes == b.num_snakes
    &&& mid.snakes == b.snakes
    &&& hazards_kept(a.cells(), mid.cells())
    &&& owners_kept(mid.cells(), b.cells())
    &&& mid.num_food <= b.num_food
    &&& food_rule(mid, b, game.ruleset)
    &&& royale_rule(mid, b, game)
    &&& royale_due(mid, game) ==> exists|side: int|
        0 <= side < 4 && R::int_n_gives(4, side) && #[trigger] royale_shrunk(mid, b, side)
    &&& game.api.map == GameMap::Empty ==> *b == *mid
    &&& game.api.map != GameMap::Empty ==> exists|draw: int|
        0 <= draw < 100 && R::int_n_gives(100, draw) && b.num_food - mid.num_food == spawn_count(
            #[trigger] spawn_wanted(
                mid.num_food as int,
                game.api.ruleset.settings.minimum_food as int,
                game.api.ruleset.settings.food_spawn_chance as int,
                draw,
            ),
            food_spots(mid, game.ruleset, mid.area()),
        )
}

/// Once the board holds the minimum of food, the map stage adds food only by
/// chance: exactly one square when every draw that the generator can make
/// brings `100 - draw` under the spawn chance and some square can receive
/// food, and none when no draw does.
pub proof fn lemma_spawn_by_chance<R: Rand>(a: &Board, mid: &Board, b: &Board, game: &Game)
    requires
        map_stage::<R>(a, mid, b, game),
        game.api.map != GameMap::Empty,
        mid.num_food >= game.api.ruleset.settings.minimum_food,
    ensures
        (forall|d: int|
            0 <= d < 100 && #[trigger] R::int_n_gives(100, d) ==> 100 - d
                < game.api.ruleset.settings.food_spawn_chance) && food_spots(mid, game.ruleset, mid.area()) > 0
            ==> b.num_food == mid.num_food + 1,
        (forall|d: int|
            0 <= d < 100 && #[trigger] R::int_n_gives(100, d) ==> 100 - d
                >= game.api.ruleset.settings.food_spawn_chance) ==> b.num_food == mid.num_food,
{
    let draw = choose|draw: int|
        0 <= draw < 100 && R::int_n_gives(100, draw) && b.num_food - mid.num_food == spawn_count(
            #[trigger] spawn_wanted(
                mid.num_food as int,
                game.api.ruleset.settings.minimum_food as int,
                game.api.ruleset.settings.food_spawn_chance as int,
                draw,
            ),
            food_spots(mid, game.ruleset, mid.area()),
        );
    lemma_food_spots_nonneg(mid, game.ruleset, mid.area());
}

/// A board that differs from a consistent one only in royale bounds that
/// still lie on the board is consistent.
proof fn lemma_wf_royale_moved(a: &Board, b: &Board)
    requires
        a.wf(),
        b.same_fields_but_royale(a),
        b.board_mat == a.board_mat,
        0 <= b.royale_min_x && b.royale_max_x < b.width,
        0 <= b.royale_min_y && b.royale_max_y < b.height,
    ensures
        b.wf(),
{
    assert(b.cells() == a.cells());
    assert(b.dims_ok());
    assert forall|i: int| 0 <= i < MAX_BOARD_SIZE implies sq_owner_ok(#[trigger] b.cells()[i]) by {
        assert(sq_owner_ok(a.cells()[i]));
    }
    assert forall|s: int| 0 <= s < MAX_SNAKES implies b.in_bounds(#[trigger] b.snakes[s].head) && b.in_bounds(
        b.snakes[s].tail,
    ) by {
        assert(a.in_bounds(a.snakes[s].head));
    }
}

/// Side `side` moved in by one and its line became a hazard; nothing else
/// changed in the bounds or the hazards.
pub open spec fn royale_shrunk(a: &Board, b: &Board, side: int) -> bool {
    &&& bounds_shrunk(a, b, side)
    &&& forall|c: Coord|
        a.in_bounds(c) ==> sq_hazard(#[trigger] b.square(c)) == (sq_hazard(a.square(c)) || on_shrink_line(a, side, c))
}

/// Every square of `a` that holds a snake holds the same on `b`, up to its
/// hazard flag.
pub open spec fn snakes_kept(a: &Board, b: &Board) -> bool {
    forall|c: Coord|
        a.in_bounds(c) && sq_owner(a.square(c)) is Some ==> #[trigger] b.square(c) == sq_with_hazard(
            a.square(c),
            sq_hazard(b.square(c)),
        )
}

/// Marking a square as a hazard keeps what holds a snake there.
proof fn lemma_snakes_kept_mark(a: &Board, prev: &Board, b: &Board, c0: Coord)
    requires
        a.wf(),
        snakes_kept(a, prev),
        prev.width == a.width,
        prev.height == a.height,
        b.width == a.width,
        b.height == a.height,
        a.in_bounds(c0),
        prev.cells().len() == MAX_BOARD_SIZE,
        b.cells() == prev.cells().update(grid_index(c0, a.width as int), sq_with_hazard(prev.square(c0), true)),
    ensures
        snakes_kept(a, b),
{
    assert forall|c: Coord| a.in_bounds(c) && sq_owner(a.square(c)) is Some implies #[trigger] b.square(c)
        == sq_with_hazard(a.square(c), sq_hazard(b.square(c))) by {
        crate::board::lemma_grid_index(c, a.width as int, a.height as int);
        crate::board::lemma_grid_index(c0, a.width as int, a.height as int);
        if c != c0 {
            crate::board::lemma_grid_index_injective(c, c0, a.width as int, a.height as int);
            assert(b.square(c) == prev.square(c));
        } else {
            assert(prev.square(c) == sq_with_hazard(a.square(c), sq_hazard(prev.square(c))));
        }
    }
}

/// Whether the royale shrink can run: the map has a map stage and the royale
/// logic applies; only then is the shrink period read.
pub open spec fn royale_runs(game: &Game) -> bool {
    game.api.map != GameMap::Empty && royale_applies(game)
}

/// Whether the royale map logic runs.
pub open spec fn royale_applies(game: &Game) -> bool {
    game.api.map == GameMap::Royale || game.ruleset == Rules::Royale
}

fn royale_applies_exec(game: &Game) -> (b: bool)
    ensures
        b == royale_applies(game),
{
    match (game.api.map, game.ruleset) {
        (GameMap::Royale, _) | (_, Rules::Royale) => true,
        _ => false,
    }
}

/// Every square keeps its owner and whether it is a head.
pub open spec fn owners_kept(a: Seq<BoardSquare>, b: Seq<BoardSquare>) -> bool {
    forall|i: int|
        0 <= i < MAX_BOARD_SIZE ==> sq_owner(#[trigger] b[i]) == sq_owner(a[i]) && sq_is_head(b[i])
            == sq_is_head(a[i])
}

proof fn lemma_owners_kept_refl(a: Seq<BoardSquare>)
    ensures
        owners_kept(a, a),
{
}

proof fn lemma_owners_kept_update(a: Seq<BoardSquare>, b: Seq<BoardSquare>, k: int, v: BoardSquare)
    requires
        owners_kept(a, b),
        b.len() == MAX_BOARD_SIZE,
        0 <= k < MAX_BOARD_SIZE,
        sq_owner(v) == sq_owner(b[k]),
        sq_is_head(v) == sq_is_head(b[k]),
    ensures
        owners_kept(a, b.update(k, v)),
{
    assert forall|i: int| 0 <= i < MAX_BOARD_SIZE implies sq_owner(#[trigger] b.update(k, v)[i])
        == sq_owner(a[i]) && sq_is_head(b.update(k, v)[i]) == sq_is_head(a[i]) by {
        if i != k {
            assert(b.update(k, v)[i] == b[i]);
        }
    }
}

/// What one turn does to snake `s`: a snake with health after the turn had
/// health before, moved its head by its move and owns its new head square,
/// and was fed (to 100) by food or the constrictor rules, or else lost one
/// health and the hazard damage of a hazard square; a snake that moves off the
/// board is eliminated; a snake without health stays without it.
pub open spec fn turn_rule(a: &Board, b: &Board, game: &Game, moves: u16, s: int) -> bool {
    let old_s = a.snakes[s];
    let new_s = b.snakes[s];
    let dest = spec_move_to_coord(
        old_s.head,
        snake_move(moves, s),
        game.ruleset,
        a.width as int,
        a.height as int,
    );
    &&& s < a.num_snakes && new_s.health > 0 ==> {
        &&& old_s.health > 0
        &&& new_s.head == dest
        &&& new_s.old_head == old_s.head
        &&& owns_head(b, s, dest)
        &&& new_s.health == if game.ruleset == Rules::Constrictor || sq_is_food(a.square(dest)) {
            100
        } else if sq_hazard(a.square(dest)) {
            old_s.health - 1 - hazard_damage(game)
        } else {
            old_s.health - 1
        }
        &&& game.ruleset != Rules::Constrictor ==> new_s.len == old_s.len + if sq_is_food(a.square(dest)) {
            1int
        } else {
            0
        }
    }
    &&& old_s.health <= 0 ==> new_s.health == old_s.health
    &&& old_s.health > 0 && s < a.num_snakes && !a.in_bounds(dest) ==> new_s.health == 0
        && new_s.eliminated
    &&& old_s.health > 0 && s < a.num_snakes && new_s.health <= 0 ==> new_s.health == 0 && new_s.eliminated
    &&& s >= a.num_snakes ==> new_s == old_s
}

/// Snake `u` comes through the health stage of a turn played with `moves`.
pub open spec fn keeps_health(a: &Board, game: &Game, moves: u16, u: int) -> bool {
    0 <= u < a.num_snakes && a.snakes[u].health > 0 && stage_health(a, game, u, dest_of(a, game, moves, u)) > 0
}

/// Snake `u` eats on a turn played with `moves`: it comes through the health
/// stage and moves its head off its square onto food that no snake before it
/// that comes through the health stage moves onto or has its head on.
pub open spec fn eats_on_turn(a: &Board, game: &Game, moves: u16, u: int) -> bool {
    let d = dest_of(a, game, moves, u);
    &&& keeps_health(a, game, moves, u)
    &&& sq_is_food(a.square(d))
    &&& d != a.snakes[u].head
    &&& forall|v: int|
        0 <= v < u && keeps_health(a, game, moves, v) ==> #[trigger] dest_of(a, game, moves, v) != d && a.snakes[v].head
            != d
}

/// How many of the snakes `0..n` eat on a turn played with `moves`: the food
/// that the turn takes off the board before new food appears.
pub open spec fn turn_food_eaten(a: &Board, game: &Game, moves: u16, n: int) -> int
    decreases n,
{
    if n <= 0 {
        0
    } else {
        turn_food_eaten(a, game, moves, n - 1) + if eats_on_turn(a, game, moves, n - 1) {
            1int
        } else {
            0int
        }
    }
}

/// The snakes with health after the health stage are those that
/// `keeps_health` names, with their heads where they were.
proof fn lemma_keeps_health(a: &Board, b1: &Board, b2: &Board, game: &Game, moves: u16, heads: [Coord; 4], u: int)
    requires
        a.wf(),
        0 <= u < MAX_SNAKES,
        forall|j: int| 0 <= j < MAX_SNAKES ==> #[trigger] heads[j] == dest_of(a, game, moves, j),
        b1.width == a.width && b1.height == a.height && b1.num_snakes == a.num_snakes,
        kinds_kept(a.cells(), b1.cells()),
        forall|j: int| 0 <= j < MAX_SNAKES ==> tail_step_kept(a.snakes[j], #[trigger] b1.snakes[j]),
        forall|j: int| 0 <= j < MAX_SNAKES ==> #[trigger] health_rule(b1, b2, game, heads[j], j),
    ensures
        u < a.num_snakes ==> (b2.snakes[u].health > 0 <==> keeps_health(a, game, moves, u)),
        b2.snakes[u].head == a.snakes[u].head,
{
    assert(health_rule(b1, b2, game, heads[u], u));
    assert(tail_step_kept(a.snakes[u], b1.snakes[u]));
    if u < a.num_snakes && a.snakes[u].health > 0 && a.in_bounds(heads[u]) {
        lemma_stage_health(a, b1, b2, game, heads[u], u);
    }
}

/// The head stage takes as much food as the turn's snakes eat.
proof fn lemma_food_taken_turn(
    a: &Board,
    b1: &Board,
    b2: &Board,
    b3: &Board,
    game: &Game,
    moves: u16,
    heads: [Coord; 4],
    n: int,
)
    requires
        a.wf(),
        0 <= n <= a.num_snakes,
        forall|j: int| 0 <= j < MAX_SNAKES ==> #[trigger] heads[j] == dest_of(a, game, moves, j),
        b1.width == a.width && b1.height == a.height && b1.num_snakes == a.num_snakes,
        kinds_kept(a.cells(), b1.cells()),
        forall|j: int| 0 <= j < MAX_SNAKES ==> tail_step_kept(a.snakes[j], #[trigger] b1.snakes[j]),
        forall|j: int| 0 <= j < MAX_SNAKES ==> #[trigger] health_rule(b1, b2, game, heads[j], j),
        same_frame(b2, b1),
        b3.same_fields(b2),
        b1.cells().len() == MAX_BOARD_SIZE,
        b2.cells() == b1.cells(),
        forall|i: int|
            0 <= i < MAX_BOARD_SIZE ==> #[trigger] b3.cells()[i] == b2.cells()[i] || sq_owner(b2.cells()[i]) is Some,
        cleared_only(b2.cells(), b3.cells()),
    ensures
        food_taken(b3, heads, n) == turn_food_eaten(a, game, moves, n),
    decreases n,
{
    if n > 0 {
        lemma_food_taken_turn(a, b1, b2, b3, game, moves, heads, n - 1);
        let u = n - 1;
        let d = heads[u];
        lemma_keeps_health(a, b1, b2, game, moves, heads, u);
        assert forall|v: int| 0 <= v < u implies (b3.snakes[v].health > 0 <==> keeps_health(a, game, moves, v))
            && #[trigger] b3.snakes[v].head == a.snakes[v].head by {
            lemma_keeps_health(a, b1, b2, game, moves, heads, v);
        }
        if a.in_bounds(d) {
            crate::board::lemma_grid_index(d, a.width as int, a.height as int);
            let k = grid_index(d, a.width as int);
            assert(kind_kept(a.cells()[k], b1.cells()[k]));
            assert(b3.cells()[k] == b2.cells()[k] || sq_owner(b2.cells()[k]) is Some);
            assert(b3.cells()[k] == b2.cells()[k] || b3.cells()[k] is Empty || b3.cells()[k] is Hazard);
            assert(sq_is_food(b3.square(d)) == sq_is_food(a.square(d)));
        }
        assert(untouched(b3, heads, u, d) == (forall|v: int|
            0 <= v < u && keeps_health(a, game, moves, v) ==> #[trigger] dest_of(a, game, moves, v) != d
                && a.snakes[v].head != d)) by {
            if untouched(b3, heads, u, d) {
                assert forall|v: int| 0 <= v < u && keeps_health(a, game, moves, v) implies #[trigger] dest_of(
                    a,
                    game,
                    moves,
                    v,
                ) != d && a.snakes[v].head != d by {
                    assert(heads[v] == dest_of(a, game, moves, v));
                    assert(b3.snakes[v].head == a.snakes[v].head);
                }
            }
            if forall|v: int|
                0 <= v < u && keeps_health(a, game, moves, v) ==> #[trigger] dest_of(a, game, moves, v) != d
                    && a.snakes[v].head != d {
                assert forall|v: int| 0 <= v < u && v < b3.num_snakes && b3.snakes[v].health > 0 implies #[trigger] heads[v]
                    != d && b3.snakes[v].head != d by {
                    assert(heads[v] == dest_of(a, game, moves, v));
                    assert(b3.snakes[v].head == a.snakes[v].head);
                }
            }
        }
        if keeps_health(a, game, moves, u) {
            assert(a.in_bounds(d));
        }
        assert(takes_food(b3, heads, u) == eats_on_turn(a, game, moves, u));
    }
}

/// A head moving onto a neck: when snake `s` with health moves its head onto
/// the head square of another snake `u` that comes through the health stage,
/// was not eliminated, owns that square, moves its head off it and shares it
/// with no other snake with health, `s` leaves the game.
pub open spec fn neck_rule(a: &Board, b: &Board, game: &Game, moves: u16, s: int, u: int) -> bool {
    (0 <= s < a.num_snakes && a.snakes[s].health > 0 && u != s && keeps_health(a, game, moves, u)
        && !a.snakes[u].eliminated && owns_head(a, u, a.snakes[u].head) && dest_of(a, game, moves, u)
        != a.snakes[u].head && heads_apart(a, u) && dest_of(a, game, moves, s) == a.snakes[u].head)
        ==> b.snakes[s].health <= 0
}

/// The turn's stages keep the rule of a head moving onto a neck.
proof fn lemma_neck_turn(
    a: &Board,
    b1: &Board,
    b2: &Board,
    b3: &Board,
    b4: &Board,
    b5: &Board,
    b6: &Board,
    b7: &Board,
    game: &Game,
    moves: u16,
    heads: [Coord; 4],
    was_alive: [bool; 4],
    s: int,
    u: int,
)
    requires
        a.wf(),
        b3.wf(),
        forall|j: int| 0 <= j < MAX_SNAKES ==> #[trigger] heads[j] == dest_of(a, game, moves, j),
        b1.width == a.width && b1.height == a.height && b1.num_snakes == a.num_snakes,
        same_frame(b2, b1),
        b3.same_fields(b2),
        same_frame(b4, b3),
        same_frame(b5, b4),
        b1.cells().len() == MAX_BOARD_SIZE,
        kinds_kept(a.cells(), b1.cells()),
        forall|j: int| 0 <= j < MAX_SNAKES ==> tail_step_kept(a.snakes[j], #[trigger] b1.snakes[j]),
        forall|j: int| 0 <= j < MAX_SNAKES ==> #[trigger] health_rule(b1, b2, game, heads[j], j),
        b2.cells() == b1.cells(),
        forall|i: int|
            0 <= i < MAX_BOARD_SIZE ==> #[trigger] b3.cells()[i] == b2.cells()[i] || (sq_owner(b2.cells()[i]) is Some
                && was_alive[sq_owner(b2.cells()[i])->0 as int] && b2.snakes[sq_owner(b2.cells()[i])->0 as int].health
                <= 0),
        forall|j: int| 0 <= j < MAX_SNAKES ==> #[trigger] head_placed(b3, b4, heads[j], j),
        forall|j: int, v: int| 0 <= v < MAX_SNAKES ==> #[trigger] neck_blocks(b3, b4, heads, j, v),
        forall|j: int| 0 <= j < MAX_SNAKES ==> #[trigger] collision_rule(b4, b5, j),
        cleared_only(b4.cells(), b5.cells()),
        forall|j: int| 0 <= j < MAX_SNAKES ==> #[trigger] grow_rule(b5, b6, game, j),
        b7.snakes == b6.snakes,
        0 <= s < MAX_SNAKES,
        0 <= u < MAX_SNAKES,
    ensures
        neck_rule(a, b7, game, moves, s, u),
{
    if 0 <= s < a.num_snakes && a.snakes[s].health > 0 && u != s && keeps_health(a, game, moves, u)
        && !a.snakes[u].eliminated && owns_head(a, u, a.snakes[u].head) && dest_of(a, game, moves, u)
        != a.snakes[u].head && heads_apart(a, u) && dest_of(a, game, moves, s) == a.snakes[u].head {
        let h = a.snakes[u].head;
        assert(grow_rule(b5, b6, game, s));
        assert(collision_rule(b4, b5, s));
        assert(head_placed(b3, b4, heads[s], s));
        assert(b3.snakes[s] == b2.snakes[s]);
        if b3.snakes[s].health > 0 {
            lemma_keeps_health(a, b1, b2, game, moves, heads, u);
            assert(b3.snakes[u] == b2.snakes[u]);
            assert(health_rule(b1, b2, game, heads[u], u));
            assert(tail_step_kept(a.snakes[u], b1.snakes[u]));
            crate::board::lemma_grid_index(h, a.width as int, a.height as int);
            let k = grid_index(h, a.width as int);
            assert(kind_kept(a.cells()[k], b1.cells()[k]));
            assert(b1.cells()[k] == a.cells()[k]);
            assert(b3.cells()[k] == b2.cells()[k]);
            assert(owns_head(b3, u, b3.snakes[u].head));
            assert(heads_apart(b3, u)) by {
                assert forall|w: int| 0 <= w < b3.num_snakes && w != u && b3.snakes[w].health > 0 implies #[trigger] b3.snakes[w].head
                    != b3.snakes[u].head by {
                    lemma_keeps_health(a, b1, b2, game, moves, heads, w);
                    assert(b3.snakes[w] == b2.snakes[w]);
                    assert(health_rule(b1, b2, game, heads[w], w));
                    assert(tail_step_kept(a.snakes[w], b1.snakes[w]));
                }
            }
            assert(leaves_neck(b3, heads, u));
            assert(neck_blocks(b3, b4, heads, s, u));
            assert(!owns_head(b4, s, heads[s]));
            if b5.snakes[s].health > 0 {
                assert(owns_head(b5, s, heads[s]));
                crate::board::lemma_grid_index(heads[s], a.width as int, a.height as int);
                let j = grid_index(heads[s], a.width as int);
                assert(b5.cells()[j] == b4.cells()[j] || b5.cells()[j] is Empty || b5.cells()[j] is Hazard);
                assert(false);
            }
        }
    }
}

/// What one turn does to a snake that stays in the game, beyond `turn_rule`:
/// it keeps its eliminated flag; its tail moves and its stacked segments are
/// used up as `tails_after` says, it gains a stacked segment and a unit of
/// length for the food it eats, and under the constrictor rules one more of
/// each when it then has no stacked segment; and
/// when it was not eliminated, moved off its head square and no other snake
/// with health had its head there, that square holds its neck: a body square
/// along its move, or its tail square when its tail is there, up to the
/// hazard flag.
pub open spec fn survivor_rule(a: &Board, b: &Board, game: &Game, moves: u16, s: int) -> bool {
    let old_s = a.snakes[s];
    let new_s = b.snakes[s];
    let dest = dest_of(a, game, moves, s);
    let mv = snake_move(moves, s);
    let moved = tails_after(a.snakes@, a.cells(), game.ruleset, a.width as int, a.height as int, a.num_snakes as int).0[s];
    let stacked = moved.num_stacked + if sq_is_food(a.square(dest)) {
        1int
    } else {
        0int
    };
    0 <= s < a.num_snakes && new_s.health > 0 ==> {
        &&& new_s.eliminated == old_s.eliminated
        &&& new_s.tail == moved.tail
        &&& new_s.num_stacked == if game.ruleset == Rules::Constrictor && stacked == 0 {
            1
        } else {
            stacked
        }
        &&& new_s.len == old_s.len + (if sq_is_food(a.square(dest)) {
            1int
        } else {
            0int
        }) + (if game.ruleset == Rules::Constrictor && stacked == 0 {
            1int
        } else {
            0int
        })
        &&& dest != old_s.head && !old_s.eliminated && heads_apart(a, s) ==> b.square(old_s.head) == sq_with_hazard(
            if new_s.tail == old_s.head {
                BoardSquare::SnakeTail(s as u8, mv)
            } else {
                BoardSquare::SnakeBody(s as u8, mv)
            },
            sq_hazard(b.square(old_s.head)),
        )
    }
}

/// The tail stage uses up one stacked segment of each of the first `n` snakes
/// with health that has one; it keeps every snake's health and the other
/// stacked counts.
proof fn lemma_tails_after_stacked(
    snakes: Seq<Snake>,
    cells: Seq<BoardSquare>,
    rules: Rules,
    w: int,
    h: int,
    n: int,
    s: int,
)
    requires
        0 <= s < snakes.len(),
        n <= snakes.len(),
    ensures
        tails_after(snakes, cells, rules, w, h, n).0.len() == snakes.len(),
        tails_after(snakes, cells, rules, w, h, n).0[s].health == snakes[s].health,
        tails_after(snakes, cells, rules, w, h, n).0[s].num_stacked == if s < n && snakes[s].health > 0
            && snakes[s].num_stacked > 0 {
            snakes[s].num_stacked - 1
        } else {
            snakes[s].num_stacked as int
        },
    decreases n,
{
    if n > 0 {
        lemma_tails_after_stacked(snakes, cells, rules, w, h, n - 1, s);
        lemma_tails_after_stacked(snakes, cells, rules, w, h, n - 1, n - 1);
    }
}

/// What a turn does to the length of a snake that stays in the game: its
/// length less its stacked segments, the segments on distinct squares, grows
/// by one exactly when a stacked segment unfolds; under the constrictor rules
/// it grows by one segment on each turn that it starts with no more than one
/// stacked segment, as every constrictor snake does after its first turn.
pub proof fn lemma_turn_growth<R: Rand>(a: &Board, b: &Board, game: &Game, moves: u16, s: int)
    requires
        a.wf(),
        turn_played::<R>(a, b, game, moves),
        0 <= s < a.num_snakes,
        b.snakes[s].health > 0,
    ensures
        b.snakes[s].len - b.snakes[s].num_stacked == a.snakes[s].len - a.snakes[s].num_stacked + if a.snakes[s].num_stacked
            > 0 {
            1int
        } else {
            0int
        },
        game.ruleset == Rules::Constrictor && 0 <= a.snakes[s].num_stacked <= 1 ==> b.snakes[s].len == a.snakes[s].len
            + 1,
{
    assert(turn_rule(a, b, game, moves, s));
    assert(survivor_rule(a, b, game, moves, s));
    lemma_tails_after_stacked(
        a.snakes@,
        a.cells(),
        game.ruleset,
        a.width as int,
        a.height as int,
        a.num_snakes as int,
        s,
    );
    assert(a.snakes@[s] == a.snakes[s]);
}

/// The turn's stages keep the rule of a snake that stays in the game.
proof fn lemma_survivor_turn(
    a: &Board,
    b1: &Board,
    b2: &Board,
    b3: &Board,
    b4: &Board,
    b5: &Board,
    b6: &Board,
    b7: &Board,
    game: &Game,
    moves: u16,
    heads: [Coord; 4],
    s: int,
)
    requires
        a.wf(),
        b3.wf(),
        forall|j: int| 0 <= j < MAX_SNAKES ==> #[trigger] heads[j] == dest_of(a, game, moves, j),
        b1.width == a.width && b1.height == a.height && b1.num_snakes == a.num_snakes,
        same_frame(b2, b1),
        b3.same_fields(b2),
        same_frame(b4, b3),
        same_frame(b5, b4),
        same_frame(b6, b5),
        b7.width == b6.width && b7.height == b6.height,
        b1.cells().len() == MAX_BOARD_SIZE,
        kinds_kept(a.cells(), b1.cells()),
        (b1.snakes@, b1.cells()) == tails_after(
            a.snakes@,
            a.cells(),
            game.ruleset,
            a.width as int,
            a.height as int,
            a.num_snakes as int,
        ),
        forall|j: int| 0 <= j < MAX_SNAKES ==> tail_step_kept(a.snakes[j], #[trigger] b1.snakes[j]),
        forall|j: int| 0 <= j < MAX_SNAKES ==> #[trigger] health_rule(b1, b2, game, heads[j], j),
        b2.cells() == b1.cells(),
        forall|j: int| 0 <= j < MAX_SNAKES ==> #[trigger] head_placed(b3, b4, heads[j], j),
        forall|j: int| 0 <= j < MAX_SNAKES ==> #[trigger] neck_placed(b3, b4, moves, heads, j),
        forall|j: int| 0 <= j < MAX_SNAKES ==> #[trigger] collision_rule(b4, b5, j),
        forall|i: int|
            0 <= i < MAX_BOARD_SIZE && #[trigger] b5.cells()[i] != b4.cells()[i] ==> sq_owner(b4.cells()[i]) is Some
                && b5.snakes[sq_owner(b4.cells()[i])->0 as int].health <= 0,
        forall|j: int| 0 <= j < MAX_SNAKES ==> #[trigger] grow_rule(b5, b6, game, j),
        b6.cells() == b5.cells(),
        b7.snakes == b6.snakes,
        snakes_kept(b6, b7),
        0 <= s < MAX_SNAKES,
    ensures
        survivor_rule(a, b7, game, moves, s),
{
    let old_s = a.snakes[s];
    if 0 <= s < a.num_snakes && b7.snakes[s].health > 0 {
        let d = heads[s];
        assert(grow_rule(b5, b6, game, s));
        assert(b5.snakes[s].health > 0);
        assert(collision_rule(b4, b5, s));
        assert(b5.snakes[s] == b4.snakes[s]);
        assert(head_placed(b3, b4, d, s));
        assert(b3.snakes[s] == b2.snakes[s]);
        assert(health_rule(b1, b2, game, d, s));
        assert(tail_step_kept(a.snakes[s], b1.snakes[s]));
        assert(b4.snakes[s].health > 0);
        assert(b1.snakes[s].health > 0);
        assert(a.in_bounds(d));
        crate::board::lemma_grid_index(d, a.width as int, a.height as int);
        assert(sq_is_food(b1.square(d)) == sq_is_food(a.square(d)));
        assert(b1.snakes@[s] == b1.snakes[s]);
        if d != old_s.head && !old_s.eliminated && heads_apart(a, s) {
            let h = old_s.head;
            assert(a.in_bounds(h));
            crate::board::lemma_grid_index(h, a.width as int, a.height as int);
            let k = grid_index(h, a.width as int);
            assert(heads_apart(b3, s)) by {
                assert forall|w: int| 0 <= w < b3.num_snakes && w != s && b3.snakes[w].health > 0 implies #[trigger] b3.snakes[w].head
                    != b3.snakes[s].head by {
                    assert(health_rule(b1, b2, game, heads[w], w));
                    assert(tail_step_kept(a.snakes[w], b1.snakes[w]));
                    assert(a.snakes[w].health > 0);
                }
            }
            assert(neck_placed(b3, b4, moves, heads, s));
            assert(b4.square(h) == neck_square(b3, s, snake_move(moves, s)));
            assert(sq_owner(b4.cells()[k]) == Some(s as u8));
            assert(b5.cells()[k] == b4.cells()[k]);
            assert(b6.square(h) == b4.square(h));
            assert(b7.square(h) == sq_with_hazard(b6.square(h), sq_hazard(b7.square(h))));
        }
    }
}

/// After a turn, no two snakes with health share a head square: a head-on
/// collision never leaves both snakes in the game.
pub proof fn lemma_survivors_apart(a: &Board, b: &Board, game: &Game, moves: u16, s: int, t: int)
    requires
        forall|j: int| 0 <= j < MAX_SNAKES ==> #[trigger] turn_rule(a, b, game, moves, j),
        0 <= s < a.num_snakes,
        0 <= t < a.num_snakes,
        a.num_snakes <= MAX_SNAKES,
        s != t,
        b.snakes[s].health > 0,
        b.snakes[t].health > 0,
    ensures
        b.snakes[s].head != b.snakes[t].head,
{
    assert(turn_rule(a, b, game, moves, s));
    assert(turn_rule(a, b, game, moves, t));
}

proof fn lemma_turn_rule(
    a: &Board,
    b0: &Board,
    b1: &Board,
    b2: &Board,
    b3: &Board,
    b4: &Board,
    b5: &Board,
    b6: &Board,
    b7: &Board,
    game: &Game,
    moves: u16,
    dest: Coord,
    s: int,
)
    requires
        0 <= s < MAX_SNAKES,
        a.wf(),
        b7.wf(),
        b0.snakes == a.snakes,
        b0.cells() == a.cells(),
        b0.width == a.width && b0.height == a.height && b0.num_snakes == a.num_snakes,
        dest == spec_move_to_coord(
            b0.snakes[s].head,
            snake_move(moves, s),
            game.ruleset,
            b0.width as int,
            b0.height as int,
        ),
        same_frame(b1, b0),
        same_frame(b2, b1),
        same_frame(b4, b3),
        same_frame(b5, b4),
        same_frame(b6, b5),
        b3.same_fields(b2),
        b7.width == b6.width && b7.height == b6.height && b7.num_snakes == b6.num_snakes,
        tail_step_kept(b0.snakes[s], b1.snakes[s]),
        s >= b0.num_snakes ==> b1.snakes[s] == b0.snakes[s],
        kinds_kept(b0.cells(), b1.cells()),
        b1.cells().len() == MAX_BOARD_SIZE,
        health_rule(b1, b2, game, dest, s),
        head_placed(b3, b4, dest, s),
        collision_rule(b4, b5, s),
        grow_rule(b5, b6, game, s),
        b6.cells() == b5.cells(),
        b7.snakes == b6.snakes,
        owners_kept(b6.cells(), b7.cells()),
    ensures
        turn_rule(a, b7, game, moves, s),
{
    if s < a.num_snakes && b7.snakes[s].health > 0 {
        assert(b6.snakes[s].health > 0);
        assert(b5.snakes[s].health > 0);
        assert(b4.snakes[s].health > 0);
        assert(b3.snakes[s].health > 0);
        assert(b1.in_bounds(dest));
        crate::board::lemma_grid_index(dest, b1.width as int, b1.height as int);
        let k = grid_index(dest, b1.width as int);
        assert(kind_kept(b0.cells()[k], b1.cells()[k]));
        assert(owns_head(b5, s, dest));
        assert(b7.cells()[k] == b7.square(dest));
    }
}

/// The square the head of snake `s` moves to with the encoded moves.
pub open spec fn dest_of(a: &Board, game: &Game, moves: u16, s: int) -> Coord {
    spec_move_to_coord(a.snakes[s].head, snake_move(moves, s), game.ruleset, a.width as int, a.height as int)
}

/// The health that a snake with health has after the health stage when its
/// head moves to `dest`: none off the board, full on food, and otherwise one
/// less, and the hazard damage less on a hazard, down to zero.
pub open spec fn stage_health(a: &Board, game: &Game, s: int, dest: Coord) -> int {
    let h = a.snakes[s].health;
    if !a.in_bounds(dest) {
        0
    } else if sq_is_food(a.square(dest)) {
        100
    } else if sq_hazard(a.square(dest)) {
        if h - 1 - hazard_damage(game) < 0 {
            0
        } else {
            h - 1 - hazard_damage(game)
        }
    } else {
        h - 1
    }
}

/// A head-on collision of exactly two snakes: when snakes `s` and `t` with
/// health, neither eliminated before, move their heads onto the same square,
/// which holds no head square and no head of a snake with health, `t` comes
/// through the health stage, and no other snake that comes through it moves
/// there, then `s` stays in the game only when it is strictly longer than `t`;
/// snakes of equal length both leave it.
pub open spec fn head_on_rule(a: &Board, b: &Board, game: &Game, moves: u16, s: int, t: int) -> bool {
    let d = dest_of(a, game, moves, s);
    (0 <= s < a.num_snakes && 0 <= t < a.num_snakes && s != t && a.snakes[s].health > 0 && a.snakes[t].health > 0
        && !a.snakes[s].eliminated && !a.snakes[t].eliminated && dest_of(a, game, moves, t) == d && a.in_bounds(d)
        && stage_health(a, game, t, d) > 0 && !sq_is_head(a.square(d)) && (forall|u: int|
        0 <= u < a.num_snakes && a.snakes[u].health > 0 ==> #[trigger] a.snakes[u].head != d) && (forall|u: int|
        0 <= u < a.num_snakes && a.snakes[u].health > 0 && u != s && u != t && #[trigger] dest_of(a, game, moves, u)
            == d ==> stage_health(a, game, u, d) <= 0) && b.snakes[s].health > 0) ==> a.snakes[s].len
        > a.snakes[t].len
}

/// A head moving onto a body: when snake `s` moves its head onto a body square,
/// or onto the tail square of a snake with stacked segments (a tail that stays
/// put), of a snake that was not eliminated and comes through the health
/// stage, and no snake with health has its head on that square, `s` leaves the
/// game.
pub open spec fn body_rule(a: &Board, b: &Board, game: &Game, moves: u16, s: int) -> bool {
    let d = dest_of(a, game, moves, s);
    let j = sq_owner(a.square(d))->0 as int;
    (0 <= s < a.num_snakes && a.snakes[s].health > 0 && a.in_bounds(d) && (sq_is_body(a.square(d)) || (sq_is_tail(
        a.square(d),
    ) && a.snakes[j].num_stacked > 0)) && j
        < a.num_snakes && a.snakes[j].health > 0 && !a.snakes[j].eliminated && stage_health(
        a,
        game,
        j,
        dest_of(a, game, moves, j),
    ) > 0 && (forall|u: int| 0 <= u < a.num_snakes && a.snakes[u].health > 0 ==> #[trigger] a.snakes[u].head != d))
        ==> b.snakes[s].health <= 0
}

/// A free move: when snake `s` with health moves its head onto a square on the
/// board that holds no snake, or the tail that a snake moves on this turn
/// (`tail_leaves`), keeps health through the health stage, no other
/// snake that keeps health there moves onto the same square, and no snake with
/// health has its head there, then `s` stays in the game.
pub open spec fn free_move_rule(a: &Board, b: &Board, game: &Game, moves: u16, s: int) -> bool {
    let d = dest_of(a, game, moves, s);
    (0 <= s < a.num_snakes && a.snakes[s].health > 0 && a.in_bounds(d) && stage_health(a, game, s, d) > 0
        && (free_sq(a.square(d)) || tail_leaves(a, game.ruleset, grid_index(d, a.width as int))) && (forall|u: int|
        0 <= u < a.num_snakes && a.snakes[u].health > 0 ==> #[trigger] a.snakes[u].head != d) && (forall|u: int|
        0 <= u < a.num_snakes && a.snakes[u].health > 0 && u != s && #[trigger] dest_of(a, game, moves, u) == d
            ==> stage_health(a, game, u, d) <= 0)) ==> b.snakes[s].health > 0
}

/// The winner of a head-on collision of exactly two snakes: in the setting of
/// `head_on_rule`, when the square holds no snake or the tail that a snake
/// moves on this turn (`tail_leaves`), `s` keeps health through
/// the health stage and is strictly longer than `t`, then `s` stays in the
/// game.
pub open spec fn head_on_win_rule(a: &Board, b: &Board, game: &Game, moves: u16, s: int, t: int) -> bool {
    let d = dest_of(a, game, moves, s);
    (0 <= s < a.num_snakes && 0 <= t < a.num_snakes && s != t && a.snakes[s].health > 0 && a.snakes[t].health
        > 0 && !a.snakes[s].eliminated && !a.snakes[t].eliminated && dest_of(a, game, moves, t) == d && a.in_bounds(d)
        && stage_health(a, game, t, d) > 0 && stage_health(a, game, s, d) > 0 && (free_sq(a.square(d)) || tail_leaves(a, game.ruleset, grid_index(d, a.width as int))) && (forall|u: int|
        0 <= u < a.num_snakes && a.snakes[u].health > 0 ==> #[trigger] a.snakes[u].head != d) && (forall|u: int|
        0 <= u < a.num_snakes && a.snakes[u].health > 0 && u != s && u != t && #[trigger] dest_of(a, game, moves, u)
            == d ==> stage_health(a, game, u, d) <= 0) && a.snakes[s].len > a.snakes[t].len) ==> b.snakes[s].health > 0
}

/// The health stage leaves a snake with health exactly the health of
/// `stage_health`.
proof fn lemma_stage_health(b0: &Board, b1: &Board, b2: &Board, game: &Game, dest: Coord, u: int)
    requires
        b0.wf(),
        0 <= u < b1.num_snakes,
        b1.num_snakes <= MAX_SNAKES,
        b0.snakes[u].health > 0,
        b1.width == b0.width,
        b1.height == b0.height,
        tail_step_kept(b0.snakes[u], b1.snakes[u]),
        kinds_kept(b0.cells(), b1.cells()),
        b1.in_bounds(dest),
        health_rule(b1, b2, game, dest, u),
    ensures
        b2.snakes[u].health == stage_health(b0, game, u, dest),
        b2.snakes[u].len == b0.snakes[u].len + if sq_is_food(b0.square(dest)) {
            1int
        } else {
            0int
        },
        b2.snakes[u].head == b0.snakes[u].head,
        b2.snakes[u].eliminated == (b2.snakes[u].health == 0 || b0.snakes[u].eliminated),
{
    crate::board::lemma_grid_index(dest, b1.width as int, b1.height as int);
    let k = grid_index(dest, b1.width as int);
    assert(kind_kept(b0.cells()[k], b1.cells()[k]));
}

/// The turn's stages keep the rule of a two-snake head-on collision.
proof fn lemma_head_on_turn(
    a: &Board,
    b1: &Board,
    b2: &Board,
    b3: &Board,
    b4: &Board,
    b5: &Board,
    b6: &Board,
    b7: &Board,
    game: &Game,
    moves: u16,
    heads: [Coord; 4],
    s: int,
    t: int,
)
    requires
        a.wf(),
        b3.wf(),
        forall|j: int| 0 <= j < MAX_SNAKES ==> #[trigger] heads[j] == dest_of(a, game, moves, j),
        b1.width == a.width && b1.height == a.height && b1.num_snakes == a.num_snakes,
        same_frame(b2, b1),
        b3.same_fields(b2),
        same_frame(b4, b3),
        same_frame(b5, b4),
        b1.cells().len() == MAX_BOARD_SIZE,
        kinds_kept(a.cells(), b1.cells()),
        forall|j: int| 0 <= j < MAX_SNAKES ==> tail_step_kept(a.snakes[j], #[trigger] b1.snakes[j]),
        forall|j: int| 0 <= j < MAX_SNAKES ==> #[trigger] health_rule(b1, b2, game, heads[j], j),
        b2.cells() == b1.cells(),
        cleared_only(b2.cells(), b3.cells()),
        forall|j: int, k: int|
            #[trigger] head_on_pair(b3, heads, j, k) && owns_head(b4, j, heads[j]) ==> b3.snakes[j].len
                > b3.snakes[k].len,
        forall|j: int| 0 <= j < MAX_SNAKES ==> #[trigger] head_placed(b3, b4, heads[j], j),
        forall|j: int| 0 <= j < MAX_SNAKES ==> #[trigger] collision_rule(b4, b5, j),
        cleared_only(b4.cells(), b5.cells()),
        forall|j: int| 0 <= j < MAX_SNAKES ==> #[trigger] grow_rule(b5, b6, game, j),
        b7.snakes == b6.snakes,
        0 <= s < MAX_SNAKES,
        0 <= t < MAX_SNAKES,
    ensures
        head_on_rule(a, b7, game, moves, s, t),
{
    let d = dest_of(a, game, moves, s);
    if 0 <= s < a.num_snakes && 0 <= t < a.num_snakes && s != t && a.snakes[s].health > 0 && a.snakes[t].health
        > 0 && !a.snakes[s].eliminated && !a.snakes[t].eliminated && dest_of(a, game, moves, t) == d && a.in_bounds(
        d,
    ) && stage_health(a, game, t, d) > 0 && !sq_is_head(a.square(d)) && (forall|u: int|
        0 <= u < a.num_snakes && a.snakes[u].health > 0 ==> #[trigger] a.snakes[u].head != d) && (forall|u: int|
        0 <= u < a.num_snakes && a.snakes[u].health > 0 && u != s && u != t && #[trigger] dest_of(a, game, moves, u)
            == d ==> stage_health(a, game, u, d) <= 0) && b7.snakes[s].health > 0 {
        assert(heads[s] == d);
        assert(heads[t] == d);
        assert(grow_rule(b5, b6, game, s));
        assert(b5.snakes[s].health > 0);
        assert(collision_rule(b4, b5, s));
        assert(head_placed(b3, b4, heads[s], s));
        assert(b3.snakes[s].health > 0);
        assert(b4.snakes[s].head == d);
        assert(owns_head(b5, s, d));
        crate::board::lemma_grid_index(d, a.width as int, a.height as int);
        let k = grid_index(d, a.width as int);
        assert(b5.cells()[k] == b4.cells()[k] || b5.cells()[k] is Empty || b5.cells()[k] is Hazard);
        assert(owns_head(b4, s, d));
        lemma_stage_health(a, b1, b2, game, d, s);
        lemma_stage_health(a, b1, b2, game, d, t);
        assert(b3.snakes[t].health > 0);
        assert(!b3.snakes[s].eliminated);
        assert(!b3.snakes[t].eliminated);
        assert(kind_kept(a.cells()[k], b1.cells()[k]));
        assert(b3.cells()[k] == b2.cells()[k] || b3.cells()[k] is Empty || b3.cells()[k] is Hazard);
        assert(!sq_is_head(b3.square(d)));
        assert forall|u: int| 0 <= u < b3.num_snakes && b3.snakes[u].health > 0 implies #[trigger] b3.snakes[u].head
            != d by {
            assert(health_rule(b1, b2, game, heads[u], u));
            assert(tail_step_kept(a.snakes[u], b1.snakes[u]));
            assert(a.snakes[u].health > 0);
        }
        assert forall|u: int| 0 <= u < b3.num_snakes && b3.snakes[u].health > 0 && u != s && u != t implies #[trigger] heads[u]
            != d by {
            assert(health_rule(b1, b2, game, heads[u], u));
            assert(tail_step_kept(a.snakes[u], b1.snakes[u]));
            assert(a.snakes[u].health > 0);
            if heads[u] == d {
                assert(dest_of(a, game, moves, u) == d);
                lemma_stage_health(a, b1, b2, game, d, u);
            }
        }
        assert(head_on_pair(b3, heads, s, t));
    }
}

/// The turn's stages keep the rule of a head moving onto a body.
proof fn lemma_body_turn(
    a: &Board,
    b1: &Board,
    b2: &Board,
    b3: &Board,
    b4: &Board,
    b5: &Board,
    b6: &Board,
    b7: &Board,
    game: &Game,
    moves: u16,
    heads: [Coord; 4],
    was_alive: [bool; 4],
    s: int,
)
    requires
        a.wf(),
        b3.wf(),
        forall|j: int| 0 <= j < MAX_SNAKES ==> #[trigger] heads[j] == dest_of(a, game, moves, j),
        b1.width == a.width && b1.height == a.height && b1.num_snakes == a.num_snakes,
        same_frame(b2, b1),
        b3.same_fields(b2),
        same_frame(b4, b3),
        same_frame(b5, b4),
        b1.cells().len() == MAX_BOARD_SIZE,
        kinds_kept(a.cells(), b1.cells()),
        bodies_kept(a.cells(), b1.cells()),
        forall|i: int|
            0 <= i < MAX_BOARD_SIZE && #[trigger] b1.cells()[i] != a.cells()[i] ==> a.snakes[sq_owner(
                a.cells()[i],
            )->0 as int].num_stacked <= 0,
        forall|j: int| 0 <= j < MAX_SNAKES ==> tail_step_kept(a.snakes[j], #[trigger] b1.snakes[j]),
        forall|j: int| 0 <= j < MAX_SNAKES ==> #[trigger] health_rule(b1, b2, game, heads[j], j),
        b2.cells() == b1.cells(),
        forall|i: int|
            0 <= i < MAX_BOARD_SIZE ==> #[trigger] b3.cells()[i] == b2.cells()[i] || (sq_owner(b2.cells()[i]) is Some
                && was_alive[sq_owner(b2.cells()[i])->0 as int] && b2.snakes[sq_owner(b2.cells()[i])->0 as int].health
                <= 0),
        forall|j: int| #[trigger] onto_body(b3, heads, j) ==> b4.square(heads[j]) == b3.square(heads[j]),
        forall|j: int| 0 <= j < MAX_SNAKES ==> #[trigger] head_placed(b3, b4, heads[j], j),
        forall|j: int| 0 <= j < MAX_SNAKES ==> #[trigger] collision_rule(b4, b5, j),
        cleared_only(b4.cells(), b5.cells()),
        forall|j: int| 0 <= j < MAX_SNAKES ==> #[trigger] grow_rule(b5, b6, game, j),
        b7.snakes == b6.snakes,
        0 <= s < MAX_SNAKES,
    ensures
        body_rule(a, b7, game, moves, s),
{
    let d = dest_of(a, game, moves, s);
    let j = sq_owner(a.square(d))->0 as int;
    if 0 <= s < a.num_snakes && a.snakes[s].health > 0 && a.in_bounds(d) && (sq_is_body(a.square(d)) || (
    sq_is_tail(a.square(d)) && a.snakes[j].num_stacked > 0)) && j < a.num_snakes && a.snakes[j].health > 0 && !a.snakes[j].eliminated && stage_health(
        a,
        game,
        j,
        dest_of(a, game, moves, j),
    ) > 0 && (forall|u: int| 0 <= u < a.num_snakes && a.snakes[u].health > 0 ==> #[trigger] a.snakes[u].head != d) {
        assert(heads[s] == d);
        assert(grow_rule(b5, b6, game, s));
        assert(collision_rule(b4, b5, s));
        assert(head_placed(b3, b4, heads[s], s));
        if b3.snakes[s].health > 0 {
            crate::board::lemma_grid_index(d, a.width as int, a.height as int);
            let k = grid_index(d, a.width as int);
            assert(b1.cells()[k] == a.cells()[k] || (sq_is_tail(b1.cells()[k]) && sq_owner(b1.cells()[k]) == sq_owner(
                a.cells()[k],
            )));
            let dj = dest_of(a, game, moves, j);
            assert(heads[j] == dj);
            lemma_stage_health(a, b1, b2, game, dj, j);
            assert(b2.snakes[j].health > 0);
            assert(b3.cells()[k] == b2.cells()[k]);
            assert(!b3.snakes[j].eliminated);
            assert(blocking(b3, b3.square(d)));
            assert forall|u: int| 0 <= u < b3.num_snakes && b3.snakes[u].health > 0 implies #[trigger] b3.snakes[u].head
                != d by {
                assert(health_rule(b1, b2, game, heads[u], u));
                assert(tail_step_kept(a.snakes[u], b1.snakes[u]));
                assert(a.snakes[u].health > 0);
            }
            assert(onto_body(b3, heads, s));
            assert(b4.square(d) == b3.square(d));
            if b5.snakes[s].health > 0 {
                assert(b4.snakes[s].head == d);
                assert(owns_head(b5, s, d));
                assert(b5.cells()[k] == b4.cells()[k] || b5.cells()[k] is Empty || b5.cells()[k] is Hazard);
                assert(false);
            }
        }
    }
}

/// The turn's stages keep the rule of a free move.
proof fn lemma_free_move_turn(
    a: &Board,
    b1: &Board,
    b2: &Board,
    b3: &Board,
    b4: &Board,
    b5: &Board,
    b6: &Board,
    b7: &Board,
    game: &Game,
    moves: u16,
    heads: [Coord; 4],
    s: int,
)
    requires
        a.wf(),
        b3.wf(),
        forall|j: int| 0 <= j < MAX_SNAKES ==> #[trigger] heads[j] == dest_of(a, game, moves, j),
        b1.width == a.width && b1.height == a.height && b1.num_snakes == a.num_snakes,
        same_frame(b2, b1),
        b3.same_fields(b2),
        same_frame(b4, b3),
        same_frame(b5, b4),
        b1.cells().len() == MAX_BOARD_SIZE,
        kinds_kept(a.cells(), b1.cells()),
        forall|i: int|
            0 <= i < MAX_BOARD_SIZE && #[trigger] b1.cells()[i] != a.cells()[i] ==> sq_owner(a.cells()[i]) is Some,
        forall|i: int|
            0 <= i < MAX_BOARD_SIZE && #[trigger] tail_leaves(a, game.ruleset, i) ==> free_sq(b1.cells()[i]),
        forall|j: int| 0 <= j < MAX_SNAKES ==> tail_step_kept(a.snakes[j], #[trigger] b1.snakes[j]),
        forall|j: int| 0 <= j < MAX_SNAKES ==> #[trigger] health_rule(b1, b2, game, heads[j], j),
        b2.cells() == b1.cells(),
        cleared_only(b2.cells(), b3.cells()),
        forall|j: int| #[trigger] arrives_free(b3, heads, j) ==> owns_head(b4, j, heads[j]),
        forall|j: int| 0 <= j < MAX_SNAKES ==> #[trigger] head_placed(b3, b4, heads[j], j),
        forall|j: int| 0 <= j < MAX_SNAKES ==> #[trigger] collision_rule(b4, b5, j),
        forall|j: int| 0 <= j < MAX_SNAKES ==> #[trigger] grow_rule(b5, b6, game, j),
        b7.snakes == b6.snakes,
        0 <= s < MAX_SNAKES,
    ensures
        free_move_rule(a, b7, game, moves, s),
{
    let d = dest_of(a, game, moves, s);
    if 0 <= s < a.num_snakes && a.snakes[s].health > 0 && a.in_bounds(d) && stage_health(a, game, s, d) > 0
        && (free_sq(a.square(d)) || tail_leaves(a, game.ruleset, grid_index(d, a.width as int))) && (forall|u: int|
        0 <= u < a.num_snakes && a.snakes[u].health > 0 ==> #[trigger] a.snakes[u].head != d) && (forall|u: int|
        0 <= u < a.num_snakes && a.snakes[u].health > 0 && u != s && #[trigger] dest_of(a, game, moves, u) == d
            ==> stage_health(a, game, u, d) <= 0) {
        assert(heads[s] == d);
        crate::board::lemma_grid_index(d, a.width as int, a.height as int);
        let k = grid_index(d, a.width as int);
        lemma_stage_health(a, b1, b2, game, d, s);
        assert(b3.snakes[s].health > 0);
        if free_sq(a.square(d)) {
            assert(b1.cells()[k] == a.cells()[k]);
        } else {
            assert(tail_leaves(a, game.ruleset, k));
        }
        assert(free_sq(b1.cells()[k]));
        assert(b3.cells()[k] == b2.cells()[k] || b3.cells()[k] is Empty || b3.cells()[k] is Hazard);
        assert(free_sq(b3.square(d)));
        assert forall|u: int| 0 <= u < b3.num_snakes && b3.snakes[u].health > 0 implies #[trigger] b3.snakes[u].head
            != d by {
            assert(health_rule(b1, b2, game, heads[u], u));
            assert(tail_step_kept(a.snakes[u], b1.snakes[u]));
            assert(a.snakes[u].health > 0);
        }
        assert forall|u: int| 0 <= u < b3.num_snakes && b3.snakes[u].health > 0 && u != s implies #[trigger] heads[u]
            != d by {
            assert(health_rule(b1, b2, game, heads[u], u));
            assert(tail_step_kept(a.snakes[u], b1.snakes[u]));
            assert(a.snakes[u].health > 0);
            if heads[u] == d {
                assert(dest_of(a, game, moves, u) == d);
                lemma_stage_health(a, b1, b2, game, d, u);
            }
        }
        assert(arrives_free(b3, heads, s));
        assert(owns_head(b4, s, d));
        assert(head_placed(b3, b4, heads[s], s));
        assert(b4.snakes[s].head == d);
        assert(collision_rule(b4, b5, s));
        assert(b5.snakes[s] == b4.snakes[s]);
        assert(grow_rule(b5, b6, game, s));
    }
}

/// The turn's stages keep the rule of the winner of a two-snake head-on
/// collision.
proof fn lemma_head_on_win_turn(
    a: &Board,
    b1: &Board,
    b2: &Board,
    b3: &Board,
    b4: &Board,
    b5: &Board,
    b6: &Board,
    b7: &Board,
    game: &Game,
    moves: u16,
    heads: [Coord; 4],
    s: int,
    t: int,
)
    requires
        a.wf(),
        b3.wf(),
        forall|j: int| 0 <= j < MAX_SNAKES ==> #[trigger] heads[j] == dest_of(a, game, moves, j),
        b1.width == a.width && b1.height == a.height && b1.num_snakes == a.num_snakes,
        same_frame(b2, b1),
        b3.same_fields(b2),
        same_frame(b4, b3),
        same_frame(b5, b4),
        b1.cells().len() == MAX_BOARD_SIZE,
        kinds_kept(a.cells(), b1.cells()),
        forall|i: int|
            0 <= i < MAX_BOARD_SIZE && #[trigger] b1.cells()[i] != a.cells()[i] ==> sq_owner(a.cells()[i]) is Some,
        forall|i: int|
            0 <= i < MAX_BOARD_SIZE && #[trigger] tail_leaves(a, game.ruleset, i) ==> free_sq(b1.cells()[i]),
        forall|j: int| 0 <= j < MAX_SNAKES ==> tail_step_kept(a.snakes[j], #[trigger] b1.snakes[j]),
        forall|j: int| 0 <= j < MAX_SNAKES ==> #[trigger] health_rule(b1, b2, game, heads[j], j),
        b2.cells() == b1.cells(),
        cleared_only(b2.cells(), b3.cells()),
        forall|j: int, k: int|
            #[trigger] head_on_pair(b3, heads, j, k) && free_sq(b3.square(heads[j])) && b3.snakes[j].len
                > b3.snakes[k].len ==> owns_head(b4, j, heads[j]),
        forall|j: int| 0 <= j < MAX_SNAKES ==> #[trigger] head_placed(b3, b4, heads[j], j),
        forall|j: int| 0 <= j < MAX_SNAKES ==> #[trigger] collision_rule(b4, b5, j),
        forall|j: int| 0 <= j < MAX_SNAKES ==> #[trigger] grow_rule(b5, b6, game, j),
        b7.snakes == b6.snakes,
        0 <= s < MAX_SNAKES,
        0 <= t < MAX_SNAKES,
    ensures
        head_on_win_rule(a, b7, game, moves, s, t),
{
    let d = dest_of(a, game, moves, s);
    if 0 <= s < a.num_snakes && 0 <= t < a.num_snakes && s != t && a.snakes[s].health > 0 && a.snakes[t].health
        > 0 && !a.snakes[s].eliminated && !a.snakes[t].eliminated && dest_of(a, game, moves, t) == d && a.in_bounds(d)
        && stage_health(a, game, t, d) > 0 && stage_health(a, game, s, d) > 0 && (free_sq(a.square(d)) || tail_leaves(a, game.ruleset, grid_index(d, a.width as int))) && (forall|u: int|
        0 <= u < a.num_snakes && a.snakes[u].health > 0 ==> #[trigger] a.snakes[u].head != d) && (forall|u: int|
        0 <= u < a.num_snakes && a.snakes[u].health > 0 && u != s && u != t && #[trigger] dest_of(a, game, moves, u)
            == d ==> stage_health(a, game, u, d) <= 0) && a.snakes[s].len > a.snakes[t].len {
        assert(heads[s] == d);
        assert(heads[t] == d);
        crate::board::lemma_grid_index(d, a.width as int, a.height as int);
        let k = grid_index(d, a.width as int);
        lemma_stage_health(a, b1, b2, game, d, s);
        lemma_stage_health(a, b1, b2, game, d, t);
        assert(b3.snakes[s].health > 0);
        assert(b3.snakes[t].health > 0);
        if free_sq(a.square(d)) {
            assert(b1.cells()[k] == a.cells()[k]);
        } else {
            assert(tail_leaves(a, game.ruleset, k));
        }
        assert(free_sq(b1.cells()[k]));
        assert(b3.cells()[k] == b2.cells()[k] || b3.cells()[k] is Empty || b3.cells()[k] is Hazard);
        assert(free_sq(b3.square(d)));
        assert(!sq_is_head(b3.square(d)));
        assert forall|u: int| 0 <= u < b3.num_snakes && b3.snakes[u].health > 0 implies #[trigger] b3.snakes[u].head
            != d by {
            assert(health_rule(b1, b2, game, heads[u], u));
            assert(tail_step_kept(a.snakes[u], b1.snakes[u]));
            assert(a.snakes[u].health > 0);
        }
        assert forall|u: int| 0 <= u < b3.num_snakes && b3.snakes[u].health > 0 && u != s && u != t implies #[trigger] heads[u]
            != d by {
            assert(health_rule(b1, b2, game, heads[u], u));
            assert(tail_step_kept(a.snakes[u], b1.snakes[u]));
            assert(a.snakes[u].health > 0);
            if heads[u] == d {
                assert(dest_of(a, game, moves, u) == d);
                lemma_stage_health(a, b1, b2, game, d, u);
            }
        }
        assert(head_on_pair(b3, heads, s, t));
        assert(owns_head(b4, s, d));
        assert(head_placed(b3, b4, heads[s], s));
        assert(collision_rule(b4, b5, s));
        assert(grow_rule(b5, b6, game, s));
    }
}

proof fn lemma_count_alive_mono(a: Seq<Snake>, b: Seq<Snake>, n: int)
    requires
        forall|i: int| 0 <= i < n ==> #[trigger] b[i].health > 0 ==> a[i].health > 0,
    ensures
        count_alive(b, n) <= count_alive(a, n),
    decreases n,
{
    if n > 0 {
        lemma_count_alive_mono(a, b, n - 1);
    }
}

/// What the constrictor stage does to snake `s`.
pub open spec fn grow_rule(a: &Board, b: &Board, game: &Game, s: int) -> bool {
    let old_s = a.snakes[s];
    let new_s = b.snakes[s];
    if game.ruleset != Rules::Constrictor || s >= a.num_snakes {
        new_s == old_s
    } else {
        &&& new_s.head == old_s.head
        &&& new_s.tail == old_s.tail
        &&& new_s.old_head == old_s.old_head
        &&& new_s.eliminated == old_s.eliminated
        &&& new_s.health == if old_s.health > 0 {
            100
        } else {
            old_s.health
        }
        &&& if old_s.num_stacked == 0 {
            new_s.num_stacked == 1 && new_s.len == old_s.len + 1
        } else {
            new_s.num_stacked == old_s.num_stacked && new_s.len == old_s.len
        }
    }
}

/// What the health stage does to snake `s`, whose head moves to `dest`.
pub open spec fn health_rule(a: &Board, b: &Board, game: &Game, dest: Coord, s: int) -> bool {
    let old_s = a.snakes[s];
    let new_s = b.snakes[s];
    if s >= a.num_snakes || old_s.health <= 0 {
        new_s == old_s
    } else {
        &&& new_s.head == old_s.head
        &&& new_s.tail == old_s.tail
        &&& new_s.old_head == old_s.old_head
        &&& if !a.in_bounds(dest) {
            new_s.health == 0 && new_s.eliminated && new_s.len == old_s.len && new_s.num_stacked
                == old_s.num_stacked
        } else {
            let sq = a.square(dest);
            &&& if sq_is_food(sq) {
                new_s.health == 100 && new_s.len == old_s.len + 1 && new_s.num_stacked
                    == old_s.num_stacked + 1
            } else {
                &&& new_s.len == old_s.len
                &&& new_s.num_stacked == old_s.num_stacked
                &&& new_s.health == if sq_hazard(sq) {
                    if old_s.health - 1 - hazard_damage(game) < 0 {
                        0
                    } else {
                        old_s.health - 1 - hazard_damage(game)
                    }
                } else {
                    old_s.health - 1
                }
            }
            &&& new_s.eliminated == (new_s.health == 0 || old_s.eliminated)
        }
    }
}

} // verus!
