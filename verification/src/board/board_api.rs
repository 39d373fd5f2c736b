use vstd::prelude::*;

use crate::api::{BattleState, BoardApi, Customizations, SnakeApi};
use crate::board::{
    empty_snake, grid_index, in_grid, origin, sq_hazard, sq_is_food, sq_owner, sq_owner_ok, Board,
    BoardSquare, Snake,
};
use crate::config::{MAX_BOARD_SIZE, MAX_SNAKES};
use crate::game::{Game, GameMap};
use crate::game::Rules;
use crate::util::{Coord, Error, Move};
use crate::board::{spec_coord_to_move, spec_move_to_coord, spec_next_to, sq_is_body};

verus! {

/// The number of segments stacked on the segment at `k`: how many of the
/// segments before it, counting back, are at the same square.
pub open spec fn stacked_count(body: Seq<Coord>, k: int) -> int
    decreases k,
{
    if k <= 0 {
        0
    } else if body[k] == body[k - 1] {
        1 + stacked_count(body, k - 1)
    } else {
        0
    }
}

proof fn lemma_stacked_count_bounds(body: Seq<Coord>, k: int)
    ensures
        0 <= stacked_count(body, k) <= if k < 0 { 0 } else { k },
    decreases k,
{
    if k > 0 {
        lemma_stacked_count_bounds(body, k - 1);
    }
}

/// The snake that a body (head first) and a health describe; an empty body
/// sets only the length and the health.
pub open spec fn snake_of_body(body: Seq<Coord>, health: i32, slot: Snake) -> Snake {
    if body.len() == 0 {
        Snake { len: 0, health, eliminated: false, ..slot }
    } else {
        Snake {
            health,
            eliminated: false,
            len: body.len() as i32,
            head: body[0],
            old_head: origin(),
            tail: body[body.len() - 1],
            num_stacked: stacked_count(body, body.len() - 1) as i32,
        }
    }
}

/// Every coordinate of a body lies on the board.
pub open spec fn body_on_board(b: &Board, body: Seq<Coord>) -> bool {
    forall|k: int| 0 <= k < body.len() ==> b.in_bounds(#[trigger] body[k])
}

pub open spec fn in_body(body: Seq<Coord>, c: Coord) -> bool {
    exists|k: int| 0 <= k < body.len() && body[k] == c
}

/// A square that `add_api_snake` puts on an empty square or a hazard: the head
/// kind when `head`, the tail kind when `tail`, the body kind otherwise.
pub open spec fn snake_square(idx: u8, head: bool, tail: bool, mv: Move, hazard: bool) -> BoardSquare {
    if head {
        if hazard { BoardSquare::SnakeHeadHazard(idx) } else { BoardSquare::SnakeHead(idx) }
    } else if tail {
        if hazard { BoardSquare::SnakeTailHazard(idx, mv) } else { BoardSquare::SnakeTail(idx, mv) }
    } else {
        if hazard { BoardSquare::SnakeBodyHazard(idx, mv) } else { BoardSquare::SnakeBody(idx, mv) }
    }
}

fn make_snake_square(idx: u8, head: bool, tail: bool, mv: Move, hazard: bool) -> (s: BoardSquare)
    ensures
        s == snake_square(idx, head, tail, mv, hazard),
{
    if head {
        if hazard { BoardSquare::SnakeHeadHazard(idx) } else { BoardSquare::SnakeHead(idx) }
    } else if tail {
        if hazard { BoardSquare::SnakeTailHazard(idx, mv) } else { BoardSquare::SnakeTail(idx, mv) }
    } else {
        if hazard { BoardSquare::SnakeBodyHazard(idx, mv) } else { BoardSquare::SnakeBody(idx, mv) }
    }
}

/// The squares of a snake's body all belong to snake `idx`.
pub open spec fn body_owned(b: &Board, body: Seq<Coord>, idx: u8, from: int) -> bool {
    forall|k: int| from <= k < body.len() ==> sq_owner(b.square(#[trigger] body[k])) == Some(idx)
}

/// Whether `c` is among the segments of a body from index `from` on.
pub open spec fn visited(body: Seq<Coord>, from: int, c: Coord) -> bool {
    exists|k: int| from <= k < body.len() && body[k] == c
}

/// Segment `j` of a body lies on the segment towards the head or next to it.
pub open spec fn seg_contiguous(body: Seq<Coord>, j: int, rules: Rules, w: int, h: int) -> bool {
    j == 0 || body[j] == body[j - 1] || spec_next_to(body[j], body[j - 1], rules, w, h)
}

/// A direction, Left when there is none.
pub open spec fn move_or_left(m: Option<Move>) -> Move {
    match m {
        Some(v) => v,
        None => Move::Left,
    }
}

/// The direction from segment `k` of a body towards the segment before it.
pub open spec fn seg_dir(a: &Board, body: Seq<Coord>, rules: Rules, k: int) -> Option<Move> {
    spec_coord_to_move(body[k], body[k - 1], rules, a.width as int, a.height as int).0
}

/// The direction that the tail's square holds once the segments from `m` on
/// are drawn (from the tail towards the head): that of the lowest of them that
/// lies on the tail's square, has a segment before it and a direction towards
/// it; failing that, Left when the tail is stacked and the direction from the
/// tail to the segment before it otherwise.
pub open spec fn tail_dir(a: &Board, body: Seq<Coord>, rules: Rules, m: int) -> Move
    decreases body.len() - m,
{
    let n = body.len() as int;
    if m >= n - 1 {
        if stacked_count(body, n - 1) > 0 {
            Move::Left
        } else {
            move_or_left(seg_dir(a, body, rules, n - 1))
        }
    } else if body[m] == body[n - 1] && m > 0 && seg_dir(a, body, rules, m) is Some {
        move_or_left(seg_dir(a, body, rules, m))
    } else {
        tail_dir(a, body, rules, m + 1)
    }
}

/// The square on segment `k` of a body drawn as snake `idx` on `a`, once the
/// segments from `m` on are drawn: on the tail's square, the head when the
/// head lies there too and else the tail with `tail_dir`; on the head's
/// square the head; elsewhere a body square with the direction towards the
/// segment before it. Each keeps the hazard of the square on `a`.
#[verifier::opaque]
pub open spec fn drawn_square(a: &Board, body: Seq<Coord>, idx: u8, rules: Rules, m: int, k: int) -> BoardSquare {
    let n = body.len() as int;
    let c = body[k];
    let hz = sq_hazard(a.square(c));
    if c == body[n - 1] {
        if body[0] == c {
            snake_square(idx, true, false, Move::Left, hz)
        } else {
            snake_square(idx, false, true, tail_dir(a, body, rules, m), hz)
        }
    } else if k == 0 {
        snake_square(idx, true, false, Move::Left, hz)
    } else {
        snake_square(idx, false, false, move_or_left(seg_dir(a, body, rules, k)), hz)
    }
}

/// No square of a body holds a square of snake `idx` yet.
pub open spec fn body_fresh(a: &Board, body: Seq<Coord>, idx: u8) -> bool {
    forall|k: int| 0 <= k < body.len() ==> sq_owner(a.square(#[trigger] body[k])) != Some(idx)
}

/// Where segment `j` of a body is drawn and the segments after it already
/// stand as `drawn_square` says, the squares of the segments from `j` on stand
/// so once the square of segment `j` holds what `drawn_square` gives for it.
proof fn lemma_drawn_step(a: &Board, before: &Board, after: &Board, body: Seq<Coord>, idx: u8, rules: Rules, j: int)
    requires
        body.len() >= 2,
        0 <= j < body.len(),
        forall|k: int| j < k < body.len() ==> #[trigger] before.square(body[k]) == drawn_square(a, body, idx, rules, j + 1, k),
        after.square(body[j]) == drawn_square(a, body, idx, rules, j, j),
        forall|k: int| j < k < body.len() && body[k] != body[j] ==> #[trigger] after.square(body[k]) == before.square(body[k]),
        visited(body, j + 1, body[j]) ==> body[j] == body[body.len() - 1],
    ensures
        forall|k: int| j <= k < body.len() ==> #[trigger] after.square(body[k]) == drawn_square(a, body, idx, rules, j, k),
{
    let n = body.len() as int;
    reveal(drawn_square);
    assert forall|k: int| j <= k < n implies #[trigger] after.square(body[k]) == drawn_square(a, body, idx, rules, j, k) by {
        if k > j && body[k] == body[j] {
            assert(visited(body, j + 1, body[j]));
        } else if k > j {
            assert(after.square(body[k]) == before.square(body[k]));
            if body[k] == body[n - 1] && body[0] != body[k] {
                assert(tail_dir(a, body, rules, j) == tail_dir(a, body, rules, j + 1));
            }
        }
    }
}

/// A square with nothing on it but perhaps a hazard.
pub open spec fn bare_sq(sq: BoardSquare) -> bool {
    sq is Empty || sq is Hazard
}

/// Segment `j` of a body, drawn from the tail towards the head, can be drawn
/// on a bare square: the square is met again later only at the tail, whose
/// square takes every segment stacked on it; the tail itself is drawn when the
/// snake lies on one square, its tail is stacked, or it has a direction
/// towards the next segment; a middle segment needs that direction; the head
/// needs nothing.
pub open spec fn seg_bare_ok(body: Seq<Coord>, j: int, rules: Rules, w: int, h: int) -> bool {
    let n = body.len() as int;
    if visited(body, j + 1, body[j]) {
        body[n - 1] == body[j]
    } else if j == n - 1 {
        body[0] == body[n - 1] || stacked_count(body, n - 1) > 0 || spec_coord_to_move(
            body[j],
            body[j - 1],
            rules,
            w,
            h,
        ).0 is Some
    } else if j > 0 {
        spec_coord_to_move(body[j], body[j - 1], rules, w, h).0 is Some
    } else {
        true
    }
}

/// Segment `j` of a body can be drawn as snake `idx` on the squares of `a`:
/// it is contiguous, and its square is bare and the segment can be drawn
/// there, or the square is a head or tail square of snake `idx` already.
pub open spec fn seg_ok(a: &Board, body: Seq<Coord>, idx: u8, j: int, rules: Rules) -> bool {
    let w = a.width as int;
    let h = a.height as int;
    seg_contiguous(body, j, rules, w, h) && match a.square(body[j]) {
        BoardSquare::Empty | BoardSquare::Hazard => seg_bare_ok(body, j, rules, w, h),
        BoardSquare::SnakeTail(o, _) | BoardSquare::SnakeTailHazard(o, _) | BoardSquare::SnakeHead(o)
        | BoardSquare::SnakeHeadHazard(o) => o == idx,
        _ => false,
    }
}

/// Whether a body can be drawn as snake `idx` on the squares of `a`.
pub open spec fn body_drawable(a: &Board, body: Seq<Coord>, idx: u8, rules: Rules) -> bool {
    forall|j: int| 0 <= j < body.len() ==> #[trigger] seg_ok(a, body, idx, j, rules)
}

/// What drawing segment `j` does with the square that it finds there now.
pub open spec fn visit_ok(cur: BoardSquare, idx: u8, j: int, body: Seq<Coord>, rules: Rules, w: int, h: int) -> bool {
    let n = body.len() as int;
    match cur {
        BoardSquare::Empty | BoardSquare::Hazard => (j == n - 1 ==> body[0] == body[n - 1] || stacked_count(body, n - 1)
            > 0 || spec_coord_to_move(body[j], body[j - 1], rules, w, h).0 is Some) && (0 < j < n - 1
            ==> spec_coord_to_move(body[j], body[j - 1], rules, w, h).0 is Some),
        BoardSquare::SnakeTail(o, _) | BoardSquare::SnakeTailHazard(o, _) | BoardSquare::SnakeHead(o)
        | BoardSquare::SnakeHeadHazard(o) => o == idx,
        _ => false,
    }
}

/// Where the drawn squares of a body are body squares: on segments that were
/// bare, are not the head, and do not share the tail's square.
pub open spec fn drawn_body(a: &Board, cur: &Board, body: Seq<Coord>, k: int) -> bool {
    let n = body.len() as int;
    sq_is_body(cur.square(body[k])) == (bare_sq(a.square(body[k])) && body[n - 1] != body[k] && k != 0)
}

/// Drawing segment `j` decides as `seg_ok` does, given the segments drawn
/// before it.
proof fn lemma_visit_decides(a: &Board, cur: &Board, body: Seq<Coord>, idx: u8, j: int, rules: Rules)
    requires
        body.len() >= 2,
        0 <= j < body.len(),
        cur.width == a.width,
        cur.height == a.height,
        forall|k: int| j < k < body.len() ==> #[trigger] seg_ok(a, body, idx, k, rules),
        forall|k: int| j < k < body.len() ==> sq_owner(cur.square(#[trigger] body[k])) == Some(idx),
        forall|k: int| j < k < body.len() ==> #[trigger] drawn_body(a, cur, body, k),
        !visited(body, j + 1, body[j]) ==> cur.square(body[j]) == a.square(body[j]),
    ensures
        seg_ok(a, body, idx, j, rules) <==> (seg_contiguous(body, j, rules, a.width as int, a.height as int) && visit_ok(
            cur.square(body[j]),
            idx,
            j,
            body,
            rules,
            a.width as int,
            a.height as int,
        )),
        !visited(body, j + 1, body[j]) ==> cur.square(body[j]) == a.square(body[j]),
        visited(body, j + 1, body[j]) ==> sq_owner(cur.square(body[j])) == Some(idx) && (sq_is_body(
            cur.square(body[j]),
        ) == (bare_sq(a.square(body[j])) && body[body.len() - 1] != body[j])),
{
    let n = body.len() as int;
    if visited(body, j + 1, body[j]) {
        let p = choose|p: int| j + 1 <= p < n && body[p] == body[j];
        assert(seg_ok(a, body, idx, p, rules));
        assert(drawn_body(a, cur, body, p));
        assert(sq_owner(cur.square(body[p])) == Some(idx));
    }
}

proof fn lemma_visited_mono(body: Seq<Coord>, a: int, b: int, c: Coord)
    requires
        a <= b,
    ensures
        visited(body, b, c) ==> visited(body, a, c),
{
    if visited(body, b, c) {
        let k = choose|k: int| b <= k < body.len() && body[k] == c;
        assert(a <= k < body.len() && body[k] == c);
    }
}

/// Food squares that a snake added on the board did not meet stay food.
proof fn lemma_food_kept(a: &Board, b: &Board, body: Seq<Coord>, health: i32, food: Seq<Coord>)
    requires
        forall|j: int| 0 <= j < food.len() ==> sq_is_food(#[trigger] a.square(food[j])),
        forall|j: int| 0 <= j < food.len() ==> a.in_bounds(#[trigger] food[j]),
        off_body_kept(a, b, body),
        health <= 0 ==> b.cells() == a.cells(),
        b.width == a.width,
        health > 0 ==> forall|k: int| 0 <= k < body.len() ==> !sq_is_food(#[trigger] a.square(body[k])),
    ensures
        forall|j: int| 0 <= j < food.len() ==> sq_is_food(#[trigger] b.square(food[j])),
{
    assert forall|j: int| 0 <= j < food.len() implies sq_is_food(#[trigger] b.square(food[j])) by {
        let c = food[j];
        assert(a.in_bounds(c));
        assert(sq_is_food(a.square(c)));
        if health > 0 && in_body(body, c) {
            let k = choose|k: int| 0 <= k < body.len() && body[k] == c;
            assert(!sq_is_food(a.square(body[k])));
        } else if health > 0 {
            assert(b.square(c) == a.square(c));
        }
    }
}

/// Hazards that a snake added on the board kept stay hazards.
proof fn lemma_hazards_kept(a: &Board, b: &Board, hazards: Seq<Coord>)
    requires
        forall|j: int| 0 <= j < hazards.len() ==> sq_hazard(#[trigger] a.square(hazards[j])),
        forall|j: int| 0 <= j < hazards.len() ==> a.in_bounds(#[trigger] hazards[j]),
        forall|c: Coord| a.in_bounds(c) ==> sq_hazard(#[trigger] b.square(c)) == sq_hazard(a.square(c)),
    ensures
        forall|j: int| 0 <= j < hazards.len() ==> sq_hazard(#[trigger] b.square(hazards[j])),
{
    assert forall|j: int| 0 <= j < hazards.len() implies sq_hazard(#[trigger] b.square(hazards[j])) by {
        assert(a.in_bounds(hazards[j]));
        assert(sq_hazard(a.square(hazards[j])));
    }
}

/// Whether `c` is among the first `n` coordinates of a list.
pub open spec fn listed(cs: Seq<Coord>, n: int, c: Coord) -> bool {
    exists|j: int| 0 <= j < n && cs[j] == c
}

/// Every food square of `b` is listed in `food` and every hazard square in
/// `hazards`.
pub open spec fn only_listed(b: &Board, food: Seq<Coord>, hazards: Seq<Coord>) -> bool {
    &&& forall|c: Coord| b.in_bounds(c) && sq_is_food(#[trigger] b.square(c)) ==> listed(food, food.len() as int, c)
    &&& forall|c: Coord| b.in_bounds(c) && sq_hazard(#[trigger] b.square(c)) ==> listed(hazards, hazards.len() as int, c)
}

/// A snake added to the board lists no new food or hazard.
proof fn lemma_only_listed_kept(
    a: &Board,
    b: &Board,
    body: Seq<Coord>,
    health: i32,
    idx: u8,
    food: Seq<Coord>,
    hazards: Seq<Coord>,
)
    requires
        only_listed(a, food, hazards),
        off_body_kept(a, b, body),
        health <= 0 ==> b.cells() == a.cells(),
        health > 0 ==> body_owned(b, body, idx, 0),
        b.width == a.width,
        b.height == a.height,
        forall|c: Coord| a.in_bounds(c) ==> sq_hazard(#[trigger] b.square(c)) == sq_hazard(a.square(c)),
    ensures
        only_listed(b, food, hazards),
{
    assert forall|c: Coord| b.in_bounds(c) && sq_is_food(#[trigger] b.square(c)) implies listed(
        food,
        food.len() as int,
        c,
    ) by {
        if health > 0 && in_body(body, c) {
            let k = choose|k: int| 0 <= k < body.len() && body[k] == c;
            assert(sq_owner(b.square(body[k])) == Some(idx));
        } else if health > 0 {
            assert(b.square(c) == a.square(c));
        } else {
            assert(b.square(c) == a.square(c));
        }
    }
    assert forall|c: Coord| b.in_bounds(c) && sq_hazard(#[trigger] b.square(c)) implies listed(
        hazards,
        hazards.len() as int,
        c,
    ) by {
        assert(sq_hazard(a.square(c)));
    }
}

/// What `from_req` reads from a request: a consistent board of the request's
/// size and turn, with its food count, its snakes in their slots (ours first,
/// then the others in order), food and hazards on exactly the listed squares.
pub open spec fn board_of_req(req: &BattleState, b: &Board) -> bool {
    &&& b.wf()
    &&& b.width == req.board.width
    &&& b.height == req.board.height
    &&& b.turn == req.turn
    &&& b.num_food == req.board.food@.len()
    &&& b.num_snakes == 1 + count_others(
        req.board.snakes@,
        req.you.id@,
        req.board.snakes@.len() as int,
    )
    &&& b.snakes[0] == snake_of_body(req.you.body@, req.you.health, empty_snake())
    &&& forall|k: int| 0 <= k < req.board.snakes@.len() && req.board.snakes@[k].id@ != req.you.id@
        ==> #[trigger] b.snakes[1 + count_others(req.board.snakes@, req.you.id@, k)] == snake_of_body(
        req.board.snakes@[k].body@,
        req.board.snakes@[k].health,
        empty_snake(),
    )
    &&& forall|k: int| 0 <= k < req.board.food@.len() ==> sq_is_food(#[trigger] b.square(req.board.food@[k]))
    &&& forall|k: int| 0 <= k < req.board.hazards@.len() ==> sq_hazard(#[trigger] b.square(req.board.hazards@[k]))
    &&& only_listed(b, req.board.food@, req.board.hazards@)
}

/// Whether `c` lies on the body of a snake with health that `from_req` draws
/// before snake `k` of the request's list: ours, then the other snakes before
/// `k`.
pub open spec fn drawn_before(req: &BattleState, k: int, c: Coord) -> bool {
    (req.you.health > 0 && req.you.body@.contains(c)) || exists|k2: int|
        0 <= k2 < k && req.board.snakes@[k2].id@ != req.you.id@ && req.board.snakes@[k2].health > 0
            && #[trigger] req.board.snakes@[k2].body@.contains(c)
}

/// A body fits on the board of a request: every segment is contiguous, can be
/// drawn on a bare square, and lies on no listed food and on no square for
/// which `taken` holds.
#[verifier::opaque]
pub open spec fn body_fits(
    body: Seq<Coord>,
    food: Seq<Coord>,
    rules: Rules,
    w: int,
    h: int,
    taken: spec_fn(Coord) -> bool,
) -> bool {
    forall|j: int|
        0 <= j < body.len() ==> seg_contiguous(body, j, rules, w, h) && seg_bare_ok(body, j, rules, w, h)
            && !food.contains(#[trigger] body[j]) && !taken(body[j])
}

/// Every snake with health of a request fits: ours on the squares without
/// food, each other one also off the bodies drawn before it.
pub open spec fn req_drawable(req: &BattleState, rules: Rules) -> bool {
    let w = req.board.width as int;
    let h = req.board.height as int;
    &&& req.you.health > 0 ==> body_fits(req.you.body@, req.board.food@, rules, w, h, |c: Coord| false)
    &&& forall|k: int|
        0 <= k < req.board.snakes@.len() && req.board.snakes@[k].id@ != req.you.id@ && req.board.snakes@[k].health
            > 0 ==> #[trigger] other_fits(req, k, rules)
}

/// Snake `k` of a request's list fits off the food and the bodies drawn
/// before it.
pub open spec fn other_fits(req: &BattleState, k: int, rules: Rules) -> bool {
    body_fits(
        req.board.snakes@[k].body@,
        req.board.food@,
        rules,
        req.board.width as int,
        req.board.height as int,
        |c: Coord| drawn_before(req, k, c),
    )
}

/// On a board that holds the base squares off the `taken` squares and earlier
/// snakes' squares on them, a body is drawable exactly when it fits.
proof fn lemma_fits_decides(
    board: &Board,
    base: &Board,
    body: Seq<Coord>,
    idx: u8,
    food: Seq<Coord>,
    rules: Rules,
    taken: spec_fn(Coord) -> bool,
)
    requires
        body_on_board(board, body),
        base.width == board.width,
        base.height == board.height,
        forall|c: Coord| board.in_bounds(c) && !taken(c) ==> #[trigger] board.square(c) == base.square(c),
        forall|c: Coord|
            board.in_bounds(c) && taken(c) ==> sq_owner(#[trigger] board.square(c)) is Some && (sq_owner(
                board.square(c),
            )->0 as int) < idx,
        forall|c: Coord| board.in_bounds(c) ==> plain_square(#[trigger] base.square(c)),
        forall|c: Coord| board.in_bounds(c) ==> (food.contains(c) <==> sq_is_food(#[trigger] base.square(c))),
    ensures
        body_drawable(board, body, idx, rules) <==> body_fits(
            body,
            food,
            rules,
            board.width as int,
            board.height as int,
            taken,
        ),
{
    reveal(body_fits);
    let w = board.width as int;
    let h = board.height as int;
    assert forall|j: int| 0 <= j < body.len() implies #[trigger] seg_ok(board, body, idx, j, rules) == (seg_contiguous(
        body,
        j,
        rules,
        w,
        h,
    ) && seg_bare_ok(body, j, rules, w, h) && !food.contains(body[j]) && !taken(body[j])) by {
        let c = body[j];
        assert(board.in_bounds(c));
        if taken(c) {
            assert(sq_owner(board.square(c)) is Some);
        } else {
            assert(board.square(c) == base.square(c));
            assert(plain_square(base.square(c)));
        }
    }
    if body_drawable(board, body, idx, rules) {
        assert forall|j: int| 0 <= j < body.len() implies seg_contiguous(body, j, rules, w, h) && seg_bare_ok(
            body,
            j,
            rules,
            w,
            h,
        ) && !food.contains(#[trigger] body[j]) && !taken(body[j]) by {
            assert(seg_ok(board, body, idx, j, rules));
        }
    }
    if body_fits(body, food, rules, w, h, taken) {
        assert forall|j: int| 0 <= j < body.len() implies #[trigger] seg_ok(board, body, idx, j, rules) by {
            assert(!food.contains(body[j]));
        }
    }
}

/// The board with only food and hazards: squares without snakes, food exactly
/// on the listed squares.
#[verifier::opaque]
pub open spec fn base_board(base: &Board, food: Seq<Coord>) -> bool {
    &&& forall|c: Coord| base.in_bounds(c) ==> plain_square(#[trigger] base.square(c))
    &&& forall|c: Coord| base.in_bounds(c) ==> (food.contains(c) <==> sq_is_food(#[trigger] base.square(c)))
}

/// The snakes of a request that have health stand on `b` as drawing their
/// bodies puts them there: ours as snake 0, the others after it in the
/// request's order.
pub open spec fn req_snakes_drawn(req: &BattleState, b: &Board, rules: Rules) -> bool {
    &&& req.you.health > 0 ==> drawn_snake(b, req.you.body@, 0u8, rules)
    &&& forall|j: int|
        0 <= j < req.board.snakes@.len() && req.board.snakes@[j].id@ != req.you.id@ && req.board.snakes@[j].health > 0
            ==> #[trigger] drawn_snake(
            b,
            req.board.snakes@[j].body@,
            (1 + count_others(req.board.snakes@, req.you.id@, j)) as u8,
            rules,
        )
}

/// The squares of a body on `b` are those that drawing it as snake `idx`
/// puts there (`drawn_square`).
pub open spec fn drawn_snake(b: &Board, body: Seq<Coord>, idx: u8, rules: Rules) -> bool {
    forall|k: int| 0 <= k < body.len() ==> #[trigger] b.square(body[k]) == drawn_square(b, body, idx, rules, 0, k)
}

/// A drawn square belongs to the snake drawn and keeps the hazard it was
/// drawn on; boards of one size with the same hazards on a body draw it alike.
proof fn lemma_drawn_square_facts(a: &Board, b: &Board, body: Seq<Coord>, idx: u8, rules: Rules, k: int)
    requires
        0 <= k < body.len(),
        a.width == b.width,
        a.height == b.height,
        forall|j: int| 0 <= j < body.len() ==> sq_hazard(#[trigger] a.square(body[j])) == sq_hazard(b.square(body[j])),
    ensures
        sq_owner(drawn_square(a, body, idx, rules, 0, k)) == Some(idx),
        sq_hazard(drawn_square(a, body, idx, rules, 0, k)) == sq_hazard(a.square(body[k])),
        drawn_square(a, body, idx, rules, 0, k) == drawn_square(b, body, idx, rules, 0, k),
{
    reveal(drawn_square);
    lemma_tail_dir_same(a, b, body, rules, 0);
}

proof fn lemma_tail_dir_same(a: &Board, b: &Board, body: Seq<Coord>, rules: Rules, m: int)
    requires
        a.width == b.width,
        a.height == b.height,
    ensures
        tail_dir(a, body, rules, m) == tail_dir(b, body, rules, m),
    decreases body.len() - m,
{
    if m < body.len() - 1 {
        lemma_tail_dir_same(a, b, body, rules, m + 1);
    }
}

/// A body drawn on `a` stays drawn on `b` when `b` has the same size, the
/// squares of the body are those of `a`, or their hazards are those of `a` and
/// they hold what drawing on `a` put there.
proof fn lemma_drawn_moved(a: &Board, b: &Board, body: Seq<Coord>, idx: u8, rules: Rules)
    requires
        a.width == b.width,
        a.height == b.height,
        forall|j: int| 0 <= j < body.len() ==> sq_hazard(#[trigger] a.square(body[j])) == sq_hazard(b.square(body[j])),
        forall|j: int| 0 <= j < body.len() ==> #[trigger] b.square(body[j]) == drawn_square(a, body, idx, rules, 0, j),
    ensures
        drawn_snake(b, body, idx, rules),
{
    assert forall|k: int| 0 <= k < body.len() implies #[trigger] b.square(body[k]) == drawn_square(b, body, idx, rules, 0, k) by {
        lemma_drawn_square_facts(a, b, body, idx, rules, k);
    }
}

/// A drawn body whose squares `b` leaves as `a` has them stays drawn.
proof fn lemma_drawn_kept(a: &Board, b: &Board, body: Seq<Coord>, idx: u8, rules: Rules)
    requires
        drawn_snake(a, body, idx, rules),
        a.width == b.width,
        a.height == b.height,
        body_on_board(a, body),
        forall|c: Coord| a.in_bounds(c) && sq_owner(a.square(c)) == Some(idx) ==> #[trigger] b.square(c) == a.square(c),
    ensures
        drawn_snake(b, body, idx, rules),
{
    assert forall|j: int| 0 <= j < body.len() implies #[trigger] b.square(body[j]) == drawn_square(a, body, idx, rules, 0, j)
        && sq_hazard(a.square(body[j])) == sq_hazard(b.square(body[j])) by {
        assert(a.square(body[j]) == drawn_square(a, body, idx, rules, 0, j));
        lemma_drawn_square_facts(a, a, body, idx, rules, j);
        assert(a.in_bounds(body[j]));
    }
    lemma_drawn_moved(a, b, body, idx, rules);
}

/// Adding a snake leaves the squares of the other snakes as they were.
proof fn lemma_add_keeps_others(a: &Board, b: &Board, body: Seq<Coord>, idx: u8, health: i32, rules: Rules)
    requires
        health <= 0 ==> b.cells() == a.cells(),
        health > 0 ==> body_drawable(a, body, idx, rules),
        off_body_kept(a, b, body),
        a.width == b.width,
    ensures
        forall|c: Coord|
            a.in_bounds(c) && sq_owner(a.square(c)) is Some && sq_owner(a.square(c)) != Some(idx)
                ==> #[trigger] b.square(c) == a.square(c),
{
    assert forall|c: Coord|
        a.in_bounds(c) && sq_owner(a.square(c)) is Some && sq_owner(a.square(c)) != Some(idx) implies #[trigger] b.square(c)
        == a.square(c) by {
        if health > 0 && in_body(body, c) {
            let j = choose|j: int| 0 <= j < body.len() && body[j] == c;
            assert(seg_ok(a, body, idx, j, rules));
        }
    }
}

/// Drawing snake `k` of a request on the drawn state before it draws that snake
/// and keeps the snakes drawn before it.
proof fn lemma_snake_drawn_add(req: &BattleState, k: int, base: &Board, before: &Board, board: &Board, rules: Rules)
    requires
        request_ok(req),
        0 <= k < req.board.snakes@.len(),
        req.board.snakes@[k].id@ != req.you.id@,
        before.wf(),
        before.width == req.board.width,
        before.height == req.board.height,
        before.num_snakes == 1 + count_others(req.board.snakes@, req.you.id@, k),
        base_board(base, req.board.food@),
        drawn_state(req, k, base, before),
        board.width == before.width,
        board.height == before.height,
        req.board.snakes@[k].health <= 0 ==> board.cells() == before.cells(),
        req.board.snakes@[k].health > 0 ==> body_drawable(before, req.board.snakes@[k].body@, before.num_snakes as u8, rules),
        off_body_kept(before, board, req.board.snakes@[k].body@),
        forall|c: Coord| before.in_bounds(c) ==> sq_hazard(#[trigger] board.square(c)) == sq_hazard(before.square(c)),
        req.board.snakes@[k].health > 0 && body_fresh(before, req.board.snakes@[k].body@, before.num_snakes as u8)
            ==> forall|j: int|
            0 <= j < req.board.snakes@[k].body@.len() ==> #[trigger] board.square(req.board.snakes@[k].body@[j])
                == drawn_square(before, req.board.snakes@[k].body@, before.num_snakes as u8, rules, 0, j),
        req.you.health > 0 ==> drawn_snake(before, req.you.body@, 0u8, rules),
        forall|j: int|
            0 <= j < k && req.board.snakes@[j].id@ != req.you.id@ && req.board.snakes@[j].health > 0
                ==> #[trigger] drawn_snake(
                before,
                req.board.snakes@[j].body@,
                (1 + count_others(req.board.snakes@, req.you.id@, j)) as u8,
                rules,
            ),
    ensures
        req.you.health > 0 ==> drawn_snake(board, req.you.body@, 0u8, rules),
        forall|j: int|
            0 <= j < k + 1 && req.board.snakes@[j].id@ != req.you.id@ && req.board.snakes@[j].health > 0
                ==> #[trigger] drawn_snake(
                board,
                req.board.snakes@[j].body@,
                (1 + count_others(req.board.snakes@, req.you.id@, j)) as u8,
                rules,
            ),
{
    let idx = before.num_snakes as u8;
    let body = req.board.snakes@[k].body@;
    let health = req.board.snakes@[k].health;
    lemma_count_others_bounds(req.board.snakes@, req.you.id@, k);
    assert(api_snake_ok(req.board.snakes@[k], req.board.width as int, req.board.height as int));
    lemma_add_keeps_others(before, board, body, idx, health, rules);
    if health > 0 {
        reveal(drawn_state);
        reveal(base_board);
        assert forall|j: int| 0 <= j < body.len() implies sq_owner(before.square(#[trigger] body[j])) != Some(idx) by {
            assert(before.in_bounds(body[j]));
            if !drawn_before(req, k, body[j]) {
                assert(before.square(body[j]) == base.square(body[j]));
                assert(plain_square(base.square(body[j])));
            }
        }
        assert(body_fresh(before, body, idx));
        lemma_drawn_moved(before, board, body, idx, rules);
    }
    if req.you.health > 0 {
        assert(api_snake_ok(req.you, req.board.width as int, req.board.height as int));
        lemma_drawn_kept(before, board, req.you.body@, 0u8, rules);
    }
    assert forall|j: int|
        0 <= j < k + 1 && req.board.snakes@[j].id@ != req.you.id@ && req.board.snakes@[j].health > 0 implies #[trigger] drawn_snake(
        board,
        req.board.snakes@[j].body@,
        (1 + count_others(req.board.snakes@, req.you.id@, j)) as u8,
        rules,
    ) by {
        if j < k {
            lemma_count_others_mono(req.board.snakes@, req.you.id@, j + 1, k);
            lemma_count_others_bounds(req.board.snakes@, req.you.id@, j);
            assert(api_snake_ok(req.board.snakes@[j], req.board.width as int, req.board.height as int));
            lemma_drawn_kept(
                before,
                board,
                req.board.snakes@[j].body@,
                (1 + count_others(req.board.snakes@, req.you.id@, j)) as u8,
                rules,
            );
        }
    }
}

/// The board after the snakes drawn before snake `k`: the base squares off
/// their bodies, squares of earlier snakes on them.
#[verifier::opaque]
pub open spec fn drawn_state(req: &BattleState, k: int, base: &Board, board: &Board) -> bool {
    &&& base.width == board.width
    &&& base.height == board.height
    &&& forall|c: Coord| board.in_bounds(c) && !drawn_before(req, k, c) ==> #[trigger] board.square(c) == base.square(c)
    &&& forall|c: Coord|
        board.in_bounds(c) && drawn_before(req, k, c) ==> sq_owner(#[trigger] board.square(c)) is Some && (sq_owner(
            board.square(c),
        )->0 as int) < board.num_snakes
}

/// In the drawn state before snake `k`, its body is drawable exactly when it
/// fits.
proof fn lemma_fits_req(
    req: &BattleState,
    k: int,
    base: &Board,
    board: &Board,
    body: Seq<Coord>,
    rules: Rules,
)
    requires
        base_board(base, req.board.food@),
        drawn_state(req, k, base, board),
        body_on_board(board, body),
        0 <= board.num_snakes < 256,
    ensures
        body_drawable(board, body, board.num_snakes as u8, rules) <==> body_fits(
            body,
            req.board.food@,
            rules,
            board.width as int,
            board.height as int,
            |c: Coord| drawn_before(req, k, c),
        ),
{
    reveal(base_board);
    reveal(drawn_state);
    lemma_fits_decides(board, base, body, board.num_snakes as u8, req.board.food@, rules, |c: Coord| drawn_before(req, k, c));
}

/// Passing over our own snake in the list keeps the drawn state.
proof fn lemma_drawn_state_skip(req: &BattleState, k: int, base: &Board, board: &Board)
    requires
        0 <= k < req.board.snakes@.len(),
        req.board.snakes@[k].id@ == req.you.id@,
        drawn_state(req, k, base, board),
    ensures
        drawn_state(req, k + 1, base, board),
{
    reveal(drawn_state);
    assert forall|c: Coord| true implies #[trigger] drawn_before(req, k + 1, c) == drawn_before(req, k, c) by {
        lemma_drawn_skip(req, k, c);
    }
}

/// Adding snake `k` of a request keeps the drawn state.
proof fn lemma_drawn_state_add(req: &BattleState, k: int, base: &Board, before: &Board, board: &Board)
    requires
        0 <= k < req.board.snakes@.len(),
        req.board.snakes@[k].id@ != req.you.id@,
        0 <= before.num_snakes < MAX_SNAKES,
        board.width == before.width,
        board.height == before.height,
        board.num_snakes == before.num_snakes + 1,
        drawn_state(req, k, base, before),
        off_body_kept(before, board, req.board.snakes@[k].body@),
        req.board.snakes@[k].health <= 0 ==> board.cells() == before.cells(),
        req.board.snakes@[k].health > 0 ==> body_owned(board, req.board.snakes@[k].body@, before.num_snakes as u8, 0),
    ensures
        drawn_state(req, k + 1, base, board),
{
    reveal(drawn_state);
    lemma_drawn_add(req, k, base, before, board);
}

/// Adding snake `k` of a request to the board keeps the squares off the drawn
/// bodies as they were and the drawn bodies owned by earlier snakes.
proof fn lemma_drawn_add(req: &BattleState, k: int, base: &Board, before: &Board, board: &Board)
    requires
        0 <= k < req.board.snakes@.len(),
        req.board.snakes@[k].id@ != req.you.id@,
        0 <= before.num_snakes < MAX_SNAKES,
        board.width == before.width,
        board.height == before.height,
        board.num_snakes == before.num_snakes + 1,
        forall|c: Coord| before.in_bounds(c) && !drawn_before(req, k, c) ==> #[trigger] before.square(c) == base.square(c),
        forall|c: Coord|
            before.in_bounds(c) && drawn_before(req, k, c) ==> sq_owner(#[trigger] before.square(c)) is Some && (sq_owner(
                before.square(c),
            )->0 as int) < before.num_snakes,
        off_body_kept(before, board, req.board.snakes@[k].body@),
        req.board.snakes@[k].health <= 0 ==> board.cells() == before.cells(),
        req.board.snakes@[k].health > 0 ==> body_owned(board, req.board.snakes@[k].body@, before.num_snakes as u8, 0),
    ensures
        forall|c: Coord| board.in_bounds(c) && !drawn_before(req, k + 1, c) ==> #[trigger] board.square(c) == base.square(c),
        forall|c: Coord|
            board.in_bounds(c) && drawn_before(req, k + 1, c) ==> sq_owner(#[trigger] board.square(c)) is Some && (sq_owner(
                board.square(c),
            )->0 as int) < board.num_snakes,
{
    let body = req.board.snakes@[k].body@;
    assert((before.num_snakes as u8) as int == before.num_snakes);
    assert forall|c: Coord| board.in_bounds(c) && !drawn_before(req, k + 1, c) implies #[trigger] board.square(c)
        == base.square(c) by {
        if drawn_before(req, k, c) && !(req.you.health > 0 && req.you.body@.contains(c)) {
            let k2 = choose|k2: int|
                0 <= k2 < k && req.board.snakes@[k2].id@ != req.you.id@ && req.board.snakes@[k2].health > 0
                    && #[trigger] req.board.snakes@[k2].body@.contains(c);
            assert(0 <= k2 < k + 1);
        }
        if req.board.snakes@[k].health > 0 && in_body(body, c) {
            let j = choose|j: int| 0 <= j < body.len() && body[j] == c;
            assert(body.contains(c));
        }
    }
    assert forall|c: Coord| board.in_bounds(c) && drawn_before(req, k + 1, c) implies sq_owner(
        #[trigger] board.square(c),
    ) is Some && (sq_owner(board.square(c))->0 as int) < board.num_snakes by {
        if req.board.snakes@[k].health > 0 && in_body(body, c) {
            let j = choose|j: int| 0 <= j < body.len() && body[j] == c;
            assert(sq_owner(board.square(body[j])) == Some(before.num_snakes as u8));
        } else if drawn_before(req, k, c) {
            assert(board.square(c) == before.square(c));
        } else {
            let k2 = choose|k2: int|
                0 <= k2 < k + 1 && req.board.snakes@[k2].id@ != req.you.id@ && req.board.snakes@[k2].health > 0
                    && #[trigger] req.board.snakes@[k2].body@.contains(c);
            if k2 < k {
                assert(drawn_before(req, k, c));
            } else {
                let j = choose|j: int| 0 <= j < body.len() && body[j] == c;
                assert(in_body(body, c));
            }
        }
    }
}

/// Passing over our own snake in the list draws nothing new.
proof fn lemma_drawn_skip(req: &BattleState, k: int, c: Coord)
    requires
        0 <= k < req.board.snakes@.len(),
        req.board.snakes@[k].id@ == req.you.id@,
    ensures
        drawn_before(req, k + 1, c) == drawn_before(req, k, c),
{
    if drawn_before(req, k + 1, c) && !(req.you.health > 0 && req.you.body@.contains(c)) {
        let k2 = choose|k2: int|
            0 <= k2 < k + 1 && req.board.snakes@[k2].id@ != req.you.id@ && req.board.snakes@[k2].health > 0
                && #[trigger] req.board.snakes@[k2].body@.contains(c);
        assert(k2 != k);
    }
    if drawn_before(req, k, c) && !(req.you.health > 0 && req.you.body@.contains(c)) {
        let k2 = choose|k2: int|
            0 <= k2 < k && req.board.snakes@[k2].id@ != req.you.id@ && req.board.snakes@[k2].health > 0
                && #[trigger] req.board.snakes@[k2].body@.contains(c);
        assert(0 <= k2 < k + 1);
    }
}

/// A square with no snake on it.
pub open spec fn plain_square(s: BoardSquare) -> bool {
    s is Empty || s is Food || s is Hazard || s is FoodHazard
}

/// The squares off a snake's body are those of board `a`.
pub open spec fn off_body_kept(a: &Board, b: &Board, body: Seq<Coord>) -> bool {
    forall|c: Coord| a.in_bounds(c) && !in_body(body, c) ==> #[trigger] b.square(c) == a.square(c)
}

/// The number of snakes of a list whose id differs from `id`.
pub open spec fn count_others(snakes: Seq<SnakeApi>, id: Seq<char>, n: int) -> int
    decreases n,
{
    if n <= 0 {
        0
    } else {
        count_others(snakes, id, n - 1) + if snakes[n - 1].id@ != id {
            1int
        } else {
            0
        }
    }
}

proof fn lemma_count_others_bounds(snakes: Seq<SnakeApi>, id: Seq<char>, n: int)
    requires
        0 <= n,
    ensures
        0 <= count_others(snakes, id, n) <= n,
    decreases n,
{
    if n > 0 {
        lemma_count_others_bounds(snakes, id, n - 1);
    }
}

proof fn lemma_count_others_mono(snakes: Seq<SnakeApi>, id: Seq<char>, m: int, n: int)
    requires
        0 <= m <= n,
    ensures
        count_others(snakes, id, m) <= count_others(snakes, id, n),
    decreases n - m,
{
    if m < n {
        lemma_count_others_mono(snakes, id, m, n - 1);
    }
}

/// A snake of the API that a board can hold: its body lies on a board of the
/// given size and is long enough when it has health.
pub open spec fn api_snake_ok(s: SnakeApi, w: int, h: int) -> bool {
    &&& s.body@.len() <= i32::MAX
    &&& forall|k: int| 0 <= k < s.body@.len() ==> in_grid(#[trigger] s.body@[k], w, h)
    &&& s.health > 0 ==> s.body@.len() >= 2
}

/// A request that `from_req` can read: a board size that fits, food and hazards
/// on the board, and at most as many snakes as there are slots.
pub open spec fn request_ok(req: &BattleState) -> bool {
    let w = req.board.width as int;
    let h = req.board.height as int;
    &&& 1 <= w <= MAX_BOARD_SIZE && 1 <= h <= MAX_BOARD_SIZE && w * h <= MAX_BOARD_SIZE
    &&& req.board.food@.len() <= i32::MAX
    &&& forall|k: int| 0 <= k < req.board.food@.len() ==> in_grid(#[trigger] req.board.food@[k], w, h)
    &&& forall|k: int| 0 <= k < req.board.hazards@.len() ==> in_grid(#[trigger] req.board.hazards@[k], w, h)
    &&& api_snake_ok(req.you, w, h)
    &&& forall|k: int| 0 <= k < req.board.snakes@.len() ==> api_snake_ok(#[trigger] req.board.snakes@[k], w, h)
    &&& 1 + count_others(req.board.snakes@, req.you.id@, req.board.snakes@.len() as int) <= MAX_SNAKES
}

fn coords_in_grid(cs: &Vec<Coord>, w: i32, h: i32) -> (b: bool)
    ensures
        b == forall|k: int| 0 <= k < cs@.len() ==> in_grid(#[trigger] cs@[k], w as int, h as int),
{
    let mut k: usize = 0;
    while k < cs.len()
        invariant
            k <= cs@.len(),
            forall|j: int| 0 <= j < k ==> in_grid(#[trigger] cs@[j], w as int, h as int),
        decreases cs@.len() - k,
    {
        let c = cs[k];
        if !(0 <= c.x && (c.x as i32) < w && 0 <= c.y && (c.y as i32) < h) {
            return false;
        }
        k = k + 1;
    }
    true
}

fn api_snake_fits(s: &SnakeApi, w: i32, h: i32) -> (b: bool)
    ensures
        b == api_snake_ok(*s, w as int, h as int),
{
    s.body.len() <= i32::MAX as usize && coords_in_grid(&s.body, w, h) && (s.health <= 0 || s.body.len() >= 2)
}

/// Whether `from_req` can read a request (`request_ok`): what a server checks
/// before it builds a board.
pub fn request_fits(req: &BattleState) -> (b: bool)
    ensures
        b == request_ok(req),
{
    let w = req.board.width;
    let h = req.board.height;
    if !(1 <= w && w as usize <= MAX_BOARD_SIZE && 1 <= h && h as usize <= MAX_BOARD_SIZE) {
        return false;
    }
    assert(w * h <= MAX_BOARD_SIZE * MAX_BOARD_SIZE) by (nonlinear_arith)
        requires
            1 <= w <= MAX_BOARD_SIZE,
            1 <= h <= MAX_BOARD_SIZE,
    ;
    if w * h > MAX_BOARD_SIZE as i32 {
        return false;
    }
    if req.board.food.len() > i32::MAX as usize || !coords_in_grid(&req.board.food, w, h)
        || !coords_in_grid(&req.board.hazards, w, h) || !api_snake_fits(&req.you, w, h) {
        return false;
    }
    let snakes = &req.board.snakes;
    let mut others: usize = 0;
    let mut k: usize = 0;
    while k < snakes.len()
        invariant
            k <= snakes@.len(),
            snakes@ == req.board.snakes@,
            w == req.board.width,
            h == req.board.height,
            others == count_others(snakes@, req.you.id@, k as int),
            others <= k,
            forall|j: int| 0 <= j < k ==> api_snake_ok(#[trigger] snakes@[j], w as int, h as int),
        decreases snakes@.len() - k,
    {
        if !api_snake_fits(&snakes[k], w, h) {
            assert(!api_snake_ok(req.board.snakes@[k as int], w as int, h as int));
            return false;
        }
        if snakes[k].id != req.you.id {
            others = others + 1;
        }
        k = k + 1;
    }
    others < MAX_SNAKES
}

impl Board {
    /// A board from a move request: food, hazards, the turn, our snake in slot
    /// 0 and then the other snakes in the order of the request; on the royale
    /// map the royale bounds are set. A request without snakes is refused.
    pub fn from_req(game: &Game, req: &BattleState) -> (r: Result<Board, Error>)
        requires
            request_ok(req),
        ensures
            req.board.snakes@.len() == 0 <==> r matches Err(Error::BadBoardReq(_)),
            r matches Err(e) ==> e is BadBoardReq || e is BadBoard,
            r matches Ok(b) ==> board_of_req(req, &b),
            r matches Ok(b) ==> crate::board::board_str::royale_read(&b, req.game.map),
            r matches Ok(b) ==> req_snakes_drawn(req, &b, game.ruleset),
            r is Ok <==> req.board.snakes@.len() > 0 && req_drawable(req, game.ruleset),
    {
        if req.board.snakes.len() == 0 {
            return Err(Error::BadBoardReq(String::from_str("No snakes in request")));
        }
        let mut board = Board::new(req.board.width, req.board.height);
        assert forall|c: Coord| board.in_bounds(c) && sq_is_food(#[trigger] board.square(c)) implies listed(
            req.board.food@,
            0,
            c,
        ) by {
            crate::board::lemma_grid_index(c, board.width as int, board.height as int);
        }
        let mut k: usize = 0;
        while k < req.board.food.len()
            invariant
                request_ok(req),
                board.wf(),
                board.width == req.board.width,
                board.height == req.board.height,
                board.turn == 1,
                board.royale_min_x == 0 && board.royale_max_x == 0 && board.royale_min_y == 0 && board.royale_max_y == 0,
                board.num_snakes == 0,
                board.num_food == k,
                k <= req.board.food@.len(),
                forall|s: int| 0 <= s < MAX_SNAKES ==> #[trigger] board.snakes[s] == empty_snake(),
                forall|i: int| 0 <= i < MAX_BOARD_SIZE ==> #[trigger] plain_square(board.cells()[i]),
                forall|j: int| 0 <= j < k ==> sq_is_food(#[trigger] board.square(req.board.food@[j])),
                forall|i: int| 0 <= i < MAX_BOARD_SIZE ==> !sq_hazard(#[trigger] board.cells()[i]),
                forall|c: Coord|
                    board.in_bounds(c) && sq_is_food(#[trigger] board.square(c)) ==> listed(req.board.food@, k as int, c),
            decreases req.board.food@.len() - k,
        {
            let coord = req.board.food[k];
            let ghost prev = board;
            board.set_at(coord, BoardSquare::Food);
            board.num_food = board.num_food + 1;
            proof {
                crate::board::lemma_grid_index(coord, board.width as int, board.height as int);
                assert forall|c: Coord| board.in_bounds(c) && sq_is_food(#[trigger] board.square(c)) implies listed(
                    req.board.food@,
                    k as int + 1,
                    c,
                ) by {
                    crate::board::lemma_grid_index(c, board.width as int, board.height as int);
                    if c != coord {
                        crate::board::lemma_grid_index_injective(c, coord, board.width as int, board.height as int);
                        assert(board.square(c) == prev.square(c));
                        let j = choose|j: int| 0 <= j < k && req.board.food@[j] == c;
                        assert(0 <= j < k + 1 && req.board.food@[j] == c);
                    } else {
                        assert(req.board.food@[k as int] == c);
                    }
                }
                assert forall|j: int| 0 <= j < k + 1 implies sq_is_food(#[trigger] board.square(req.board.food@[j])) by {
                    let c = req.board.food@[j];
                    crate::board::lemma_grid_index(c, board.width as int, board.height as int);
                    if c != coord {
                        crate::board::lemma_grid_index_injective(c, coord, board.width as int, board.height as int);
                        assert(board.square(c) == prev.square(c));
                    }
                }
            }
            k = k + 1;
        }
        assert forall|c: Coord| board.in_bounds(c) && sq_hazard(#[trigger] board.square(c)) implies listed(
            req.board.hazards@,
            0,
            c,
        ) by {
            crate::board::lemma_grid_index(c, board.width as int, board.height as int);
        }
        let mut k: usize = 0;
        while k < req.board.hazards.len()
            invariant
                request_ok(req),
                board.wf(),
                board.width == req.board.width,
                board.height == req.board.height,
                board.turn == 1,
                board.royale_min_x == 0 && board.royale_max_x == 0 && board.royale_min_y == 0 && board.royale_max_y == 0,
                board.num_snakes == 0,
                board.num_food == req.board.food@.len(),
                k <= req.board.hazards@.len(),
                forall|s: int| 0 <= s < MAX_SNAKES ==> #[trigger] board.snakes[s] == empty_snake(),
                forall|i: int| 0 <= i < MAX_BOARD_SIZE ==> #[trigger] plain_square(board.cells()[i]),
                forall|j: int| 0 <= j < req.board.food@.len() ==> sq_is_food(#[trigger] board.square(req.board.food@[j])),
                forall|j: int| 0 <= j < k ==> sq_hazard(#[trigger] board.square(req.board.hazards@[j])),
                forall|c: Coord|
                    board.in_bounds(c) && sq_is_food(#[trigger] board.square(c)) ==> listed(
                        req.board.food@,
                        req.board.food@.len() as int,
                        c,
                    ),
                forall|c: Coord|
                    board.in_bounds(c) && sq_hazard(#[trigger] board.square(c)) ==> listed(req.board.hazards@, k as int, c),
            decreases req.board.hazards@.len() - k,
        {
            let coord = req.board.hazards[k];
            let ghost prev = board;
            proof {
                crate::board::lemma_grid_index(coord, board.width as int, board.height as int);
            }
            match board.at(coord) {
                BoardSquare::Empty => board.set_at(coord, BoardSquare::Hazard),
                BoardSquare::Food => board.set_at(coord, BoardSquare::FoodHazard),
                _ => {},
            }
            proof {
                assert(plain_square(prev.cells()[crate::board::grid_index(coord, board.width as int)]));
                assert forall|j: int| 0 <= j < req.board.food@.len() implies sq_is_food(#[trigger] board.square(req.board.food@[j])) by {
                    let c = req.board.food@[j];
                    crate::board::lemma_grid_index(c, board.width as int, board.height as int);
                    if c != coord {
                        crate::board::lemma_grid_index_injective(c, coord, board.width as int, board.height as int);
                        assert(board.square(c) == prev.square(c));
                    }
                }
                assert forall|c: Coord| board.in_bounds(c) && sq_is_food(#[trigger] board.square(c)) implies listed(
                    req.board.food@,
                    req.board.food@.len() as int,
                    c,
                ) by {
                    crate::board::lemma_grid_index(c, board.width as int, board.height as int);
                    if c != coord {
                        crate::board::lemma_grid_index_injective(c, coord, board.width as int, board.height as int);
                        assert(board.square(c) == prev.square(c));
                    }
                }
                assert forall|c: Coord| board.in_bounds(c) && sq_hazard(#[trigger] board.square(c)) implies listed(
                    req.board.hazards@,
                    k as int + 1,
                    c,
                ) by {
                    crate::board::lemma_grid_index(c, board.width as int, board.height as int);
                    if c != coord {
                        crate::board::lemma_grid_index_injective(c, coord, board.width as int, board.height as int);
                        assert(board.square(c) == prev.square(c));
                        let j = choose|j: int| 0 <= j < k && req.board.hazards@[j] == c;
                        assert(0 <= j < k + 1 && req.board.hazards@[j] == c);
                    } else {
                        assert(req.board.hazards@[k as int] == c);
                    }
                }
                assert forall|j: int| 0 <= j < k + 1 implies sq_hazard(#[trigger] board.square(req.board.hazards@[j])) by {
                    let c = req.board.hazards@[j];
                    crate::board::lemma_grid_index(c, board.width as int, board.height as int);
                    if c != coord {
                        crate::board::lemma_grid_index_injective(c, coord, board.width as int, board.height as int);
                        assert(board.square(c) == prev.square(c));
                    }
                }
            }
            k = k + 1;
        }
        let ghost marked = board;
        board.turn = req.turn;
        assert forall|j: int| 0 <= j < req.board.hazards@.len() implies sq_hazard(#[trigger] board.square(req.board.hazards@[j])) by {
            assert(board.square(req.board.hazards@[j]) == marked.square(req.board.hazards@[j]));
        }
        assert forall|j: int| 0 <= j < req.board.food@.len() implies sq_is_food(#[trigger] board.square(req.board.food@[j])) by {
            assert(board.square(req.board.food@[j]) == marked.square(req.board.food@[j]));
        }
        assert(only_listed(&board, req.board.food@, req.board.hazards@)) by {
            assert forall|c: Coord| board.in_bounds(c) && sq_is_food(#[trigger] board.square(c)) implies listed(
                req.board.food@,
                req.board.food@.len() as int,
                c,
            ) by {
                assert(board.square(c) == marked.square(c));
            }
            assert forall|c: Coord| board.in_bounds(c) && sq_hazard(#[trigger] board.square(c)) implies listed(
                req.board.hazards@,
                req.board.hazards@.len() as int,
                c,
            ) by {
                assert(board.square(c) == marked.square(c));
            }
        }
        let our_id = req.you.id.clone();
        assert(board.snakes[0] == empty_snake());
        let ghost before_you = board;
        let rules = game.ruleset;
        proof {
            assert forall|c: Coord| board.in_bounds(c) implies plain_square(#[trigger] before_you.square(c)) by {
                crate::board::lemma_grid_index(c, board.width as int, board.height as int);
            }
            assert forall|c: Coord| board.in_bounds(c) implies (req.board.food@.contains(c) <==> sq_is_food(
                #[trigger] before_you.square(c),
            )) by {
                if req.board.food@.contains(c) {
                    let j = choose|j: int| 0 <= j < req.board.food@.len() && req.board.food@[j] == c;
                    assert(sq_is_food(before_you.square(req.board.food@[j])));
                }
                if sq_is_food(before_you.square(c)) {
                    assert(listed(req.board.food@, req.board.food@.len() as int, c));
                    let j = choose|j: int| 0 <= j < req.board.food@.len() && req.board.food@[j] == c;
                    assert(req.board.food@[j] == c);
                }
            }
            lemma_fits_decides(&board, &before_you, req.you.body@, 0, req.board.food@, rules, |c: Coord| false);
            reveal(base_board);
            assert(base_board(&before_you, req.board.food@));
        }
        match board.add_api_snake(game, &req.you) {
            Ok(()) => {},
            Err(e) => {
                return Err(e);
            },
        }
        proof {
            if req.you.health > 0 {
                reveal(base_board);
                assert forall|j: int| 0 <= j < req.you.body@.len() implies sq_owner(
                    before_you.square(#[trigger] req.you.body@[j]),
                ) != Some(0u8) by {
                    assert(plain_square(before_you.square(req.you.body@[j])));
                }
                assert(body_fresh(&before_you, req.you.body@, 0u8));
                lemma_drawn_moved(&before_you, &board, req.you.body@, 0u8, rules);
            }
        }
        proof {
            assert forall|c: Coord| board.in_bounds(c) && !drawn_before(req, 0, c) implies #[trigger] board.square(c)
                == before_you.square(c) by {
                if req.you.health > 0 {
                    if in_body(req.you.body@, c) {
                        let j = choose|j: int| 0 <= j < req.you.body@.len() && req.you.body@[j] == c;
                        assert(req.you.body@.contains(c));
                    }
                }
            }
            assert forall|c: Coord| board.in_bounds(c) && drawn_before(req, 0, c) implies sq_owner(
                #[trigger] board.square(c),
            ) is Some && (sq_owner(board.square(c))->0 as int) < board.num_snakes by {
                let j = choose|j: int| 0 <= j < req.you.body@.len() && req.you.body@[j] == c;
                assert(sq_owner(board.square(req.you.body@[j])) == Some(0u8));
            }
            reveal(drawn_state);
            assert(drawn_state(req, 0, &before_you, &board));
        }
        proof {
            lemma_food_kept(&before_you, &board, req.you.body@, req.you.health, req.board.food@);
            lemma_hazards_kept(&before_you, &board, req.board.hazards@);
            lemma_only_listed_kept(&before_you, &board, req.you.body@, req.you.health, 0, req.board.food@, req.board.hazards@);
            assert forall|t: int| 1 <= t < MAX_SNAKES implies #[trigger] board.snakes[t] == empty_snake() by {
                assert(board.snakes@[t] == before_you.snakes@[t]);
            }
        }
        proof {
            lemma_count_others_bounds(req.board.snakes@, req.you.id@, req.board.snakes@.len() as int);
        }
        let ghost first = board.snakes[0];
        let mut k: usize = 0;
        while k < req.board.snakes.len()
            invariant
                forall|j: int| 0 <= j < req.board.food@.len() ==> sq_is_food(#[trigger] board.square(req.board.food@[j])),
                forall|j: int| 0 <= j < req.board.hazards@.len() ==> sq_hazard(#[trigger] board.square(req.board.hazards@[j])),
                only_listed(&board, req.board.food@, req.board.hazards@),
                forall|j: int| 0 <= j < k && req.board.snakes@[j].id@ != req.you.id@
                    ==> #[trigger] board.snakes[1 + count_others(req.board.snakes@, req.you.id@, j)] == snake_of_body(
                    req.board.snakes@[j].body@,
                    req.board.snakes@[j].health,
                    empty_snake(),
                ),
                forall|t: int| board.num_snakes <= t < MAX_SNAKES ==> #[trigger] board.snakes[t] == empty_snake(),
                request_ok(req),
                our_id@ == req.you.id@,
                board.wf(),
                board.width == req.board.width,
                board.height == req.board.height,
                board.turn == req.turn,
                board.royale_min_x == 0 && board.royale_max_x == 0 && board.royale_min_y == 0 && board.royale_max_y == 0,
                board.num_food == req.board.food@.len(),
                k <= req.board.snakes@.len(),
                board.num_snakes == 1 + count_others(req.board.snakes@, req.you.id@, k as int),
                board.snakes[0] == first,
                first == snake_of_body(req.you.body@, req.you.health, empty_snake()),
                rules == game.ruleset,
                before_you.width == board.width,
                before_you.height == board.height,
                req.you.health > 0 ==> body_fits(
                    req.you.body@,
                    req.board.food@,
                    rules,
                    req.board.width as int,
                    req.board.height as int,
                    |c: Coord| false,
                ),
                forall|k2: int|
                    0 <= k2 < k && req.board.snakes@[k2].id@ != req.you.id@ && req.board.snakes@[k2].health > 0
                        ==> #[trigger] other_fits(req, k2, rules),
                base_board(&before_you, req.board.food@),
                drawn_state(req, k as int, &before_you, &board),
                req.you.health > 0 ==> drawn_snake(&board, req.you.body@, 0u8, rules),
                forall|j: int|
                    0 <= j < k && req.board.snakes@[j].id@ != req.you.id@ && req.board.snakes@[j].health > 0
                        ==> #[trigger] drawn_snake(
                        &board,
                        req.board.snakes@[j].body@,
                        (1 + count_others(req.board.snakes@, req.you.id@, j)) as u8,
                        rules,
                    ),
            decreases req.board.snakes@.len() - k,
        {
            let snake = &req.board.snakes[k];
            proof {
                lemma_count_others_bounds(req.board.snakes@, req.you.id@, k as int);
                lemma_count_others_bounds(req.board.snakes@, req.you.id@, k as int + 1);
                lemma_count_others_mono(req.board.snakes@, req.you.id@, k as int + 1, req.board.snakes@.len() as int);
                assert(api_snake_ok(req.board.snakes@[k as int], req.board.width as int, req.board.height as int));
            }
            if our_id != snake.id {
                let ghost before = board;
                proof {
                    lemma_fits_req(req, k as int, &before_you, &board, snake.body@, rules);
                }
                match board.add_api_snake(game, snake) {
                    Ok(()) => {},
                    Err(e) => {
                        assert(!other_fits(req, k as int, rules));
                        return Err(e);
                    },
                }
                assert(board.snakes@[0] == before.snakes@[0]);
                proof {
                    lemma_snake_drawn_add(req, k as int, &before_you, &before, &board, rules);
                }
                proof {
                    if snake.health > 0 {
                        assert(other_fits(req, k as int, rules));
                    }
                    lemma_drawn_state_add(req, k as int, &before_you, &before, &board);
                }
                proof {
                    lemma_food_kept(&before, &board, snake.body@, snake.health, req.board.food@);
                    lemma_hazards_kept(&before, &board, req.board.hazards@);
                    lemma_only_listed_kept(
                        &before,
                        &board,
                        snake.body@,
                        snake.health,
                        before.num_snakes as u8,
                        req.board.food@,
                        req.board.hazards@,
                    );
                    let slot = before.num_snakes as int;
                    assert(board.snakes[slot] == snake_of_body(snake.body@, snake.health, empty_snake()));
                    assert forall|j: int| 0 <= j < k + 1 && req.board.snakes@[j].id@ != req.you.id@
                        implies #[trigger] board.snakes[1 + count_others(req.board.snakes@, req.you.id@, j)] == snake_of_body(
                        req.board.snakes@[j].body@,
                        req.board.snakes@[j].health,
                        empty_snake(),
                    ) by {
                        if j < k {
                            lemma_count_others_mono(req.board.snakes@, req.you.id@, j + 1, k as int);
                            assert(count_others(req.board.snakes@, req.you.id@, j + 1) == count_others(
                                req.board.snakes@,
                                req.you.id@,
                                j,
                            ) + 1);
                            lemma_count_others_bounds(req.board.snakes@, req.you.id@, j);
                            assert(before.num_snakes == 1 + count_others(req.board.snakes@, req.you.id@, k as int));
                            assert(1 + count_others(req.board.snakes@, req.you.id@, j) < before.num_snakes);
                            assert(board.snakes@[1 + count_others(req.board.snakes@, req.you.id@, j)] == before.snakes@[1
                                + count_others(req.board.snakes@, req.you.id@, j)]);
                        }
                    }
                    assert forall|t: int| board.num_snakes <= t < MAX_SNAKES implies #[trigger] board.snakes[t] == empty_snake() by {
                        assert(board.snakes@[t] == before.snakes@[t]);
                    }
                }
            } else {
                proof {
                    lemma_drawn_state_skip(req, k as int, &before_you, &board);
                }
            }
            k = k + 1;
        }
        let ghost placed = board;
        if let GameMap::Royale = req.game.map {
            board.set_royale();
        }
        proof {
            assert forall|c: Coord| placed.in_bounds(c) implies #[trigger] board.square(c) == placed.square(c) by {}
            if req.you.health > 0 {
                assert(api_snake_ok(req.you, req.board.width as int, req.board.height as int));
                lemma_drawn_kept(&placed, &board, req.you.body@, 0u8, rules);
            }
            assert forall|j: int|
                0 <= j < req.board.snakes@.len() && req.board.snakes@[j].id@ != req.you.id@ && req.board.snakes@[j].health
                    > 0 implies #[trigger] drawn_snake(
                &board,
                req.board.snakes@[j].body@,
                (1 + count_others(req.board.snakes@, req.you.id@, j)) as u8,
                rules,
            ) by {
                assert(api_snake_ok(req.board.snakes@[j], req.board.width as int, req.board.height as int));
                lemma_drawn_kept(
                    &placed,
                    &board,
                    req.board.snakes@[j].body@,
                    (1 + count_others(req.board.snakes@, req.you.id@, j)) as u8,
                    rules,
                );
            }
            assert(req_snakes_drawn(req, &board, rules));
        }
        proof {
            assert forall|j: int| 0 <= j < req.board.food@.len() implies sq_is_food(#[trigger] board.square(req.board.food@[j])) by {
                assert(board.square(req.board.food@[j]) == placed.square(req.board.food@[j]));
            }
            assert forall|j: int| 0 <= j < req.board.hazards@.len() implies sq_hazard(#[trigger] board.square(req.board.hazards@[j])) by {
                assert(board.square(req.board.hazards@[j]) == placed.square(req.board.hazards@[j]));
            }
            assert(board.snakes == placed.snakes);
            assert forall|c: Coord| board.in_bounds(c) && sq_is_food(#[trigger] board.square(c)) implies listed(
                req.board.food@,
                req.board.food@.len() as int,
                c,
            ) by {
                assert(board.square(c) == placed.square(c));
            }
            assert forall|c: Coord| board.in_bounds(c) && sq_hazard(#[trigger] board.square(c)) implies listed(
                req.board.hazards@,
                req.board.hazards@.len() as int,
                c,
            ) by {
                assert(board.square(c) == placed.square(c));
            }
        }
        Ok(board)
    }

    /// Adds a snake of the API to the board: fills its slot, and for a snake with
    /// health draws its body on the squares from the tail to the head. A body
    /// whose segments are not next to each other, or that meets food or another
    /// snake, is refused with `BadBoard`.
    #[verifier::rlimit(60)]
    pub fn add_api_snake(&mut self, game: &Game, api_snake: &SnakeApi) -> (r: Result<(), Error>)
        requires
            old(self).wf(),
            old(self).num_snakes < MAX_SNAKES,
            api_snake.body@.len() <= i32::MAX,
            body_on_board(old(self), api_snake.body@),
            api_snake.health > 0 ==> api_snake.body@.len() >= 2,
        ensures
            final(self).wf(),
            final(self).width == old(self).width,
            final(self).height == old(self).height,
            final(self).turn == old(self).turn,
            final(self).num_food == old(self).num_food,
            final(self).num_snakes == old(self).num_snakes + 1,
            final(self).royale_min_x == old(self).royale_min_x && final(self).royale_max_x == old(self).royale_max_x && final(self).royale_min_y == old(self).royale_min_y && final(self).royale_max_y == old(self).royale_max_y,
            final(self).snakes@ == old(self).snakes@.update(
                old(self).num_snakes as int,
                snake_of_body(api_snake.body@, api_snake.health, old(self).snakes[old(self).num_snakes as int]),
            ),
            api_snake.health <= 0 ==> r is Ok && final(self).cells() == old(self).cells(),
            r is Ok ==> api_snake.health > 0 ==> body_owned(final(self), api_snake.body@, old(self).num_snakes as u8, 0),
            off_body_kept(old(self), final(self), api_snake.body@),
            r is Ok && api_snake.health > 0 ==> forall|k: int|
                0 <= k < api_snake.body@.len() ==> !sq_is_food(#[trigger] old(self).square(api_snake.body@[k])),
            forall|c: Coord| old(self).in_bounds(c) ==> sq_hazard(#[trigger] final(self).square(c)) == sq_hazard(
                old(self).square(c),
            ),
            r matches Err(e) ==> e is BadBoard,
            r is Ok && api_snake.health > 0 && body_fresh(old(self), api_snake.body@, old(self).num_snakes as u8)
                ==> forall|k: int|
                0 <= k < api_snake.body@.len() ==> #[trigger] final(self).square(api_snake.body@[k]) == drawn_square(
                    old(self),
                    api_snake.body@,
                    old(self).num_snakes as u8,
                    game.ruleset,
                    0,
                    k,
                ),
            api_snake.health > 0 ==> (r is Ok <==> body_drawable(
                old(self),
                api_snake.body@,
                old(self).num_snakes as u8,
                game.ruleset,
            )),
    {
        let snake_idx = self.num_snakes as u8;
        self.add_snake(api_snake.body.as_slice(), api_snake.health);
        let ghost start = *self;
        if !self.snakes[snake_idx as usize].alive() {
            return Ok(());
        }
        let rules = game.ruleset;
        let body = &api_snake.body;
        let n = body.len();
        let head_is_tail = self.snakes[snake_idx as usize].head == self.snakes[snake_idx as usize].tail;
        let tail_stacked = self.snakes[snake_idx as usize].num_stacked > 0;
        proof {
            lemma_stacked_count_bounds(body@, (n - 1) as int);
            assert(self.snakes[snake_idx as int] == snake_of_body(
                api_snake.body@,
                api_snake.health,
                old(self).snakes[old(self).num_snakes as int],
            ));
        }
        let mut next_coord: Option<Coord> = Some(body[n - 2]);
        let mut i: usize = 0;
        let ghost fresh = body_fresh(old(self), body@, snake_idx);
        assert forall|c: Coord| old(self).in_bounds(c) implies #[trigger] self.square(c) == old(self).square(c) by {
            assert(start.cells() == old(self).cells());
        }
        while i < n
            invariant
                self.wf(),
                api_snake.health > 0,
                n == body@.len(),
                n >= 2,
                n <= i32::MAX,
                body@ == api_snake.body@,
                body_on_board(old(self), body@),
                snake_idx == old(self).num_snakes,
                snake_idx < MAX_SNAKES,
                self.width == old(self).width,
                self.height == old(self).height,
                self.turn == old(self).turn,
                self.num_food == old(self).num_food,
                self.num_snakes == old(self).num_snakes + 1,
                self.royale_min_x == old(self).royale_min_x && self.royale_max_x == old(self).royale_max_x && self.royale_min_y == old(self).royale_min_y && self.royale_max_y == old(self).royale_max_y,
                self.snakes == start.snakes,
                start.snakes@ == old(self).snakes@.update(
                    old(self).num_snakes as int,
                    snake_of_body(api_snake.body@, api_snake.health, old(self).snakes[old(self).num_snakes as int]),
                ),
                start.cells() == old(self).cells(),
                i <= n,
                next_coord == if i + 2 <= n { Some(body@[n - 2 - i]) } else { None::<Coord> },
                body_owned(self, body@, snake_idx, n - i),
                off_body_kept(old(self), self, body@),
                forall|c: Coord| old(self).in_bounds(c) ==> sq_hazard(#[trigger] self.square(c)) == sq_hazard(
                    old(self).square(c),
                ),
                forall|c: Coord| old(self).in_bounds(c) && !visited(body@, n - i, c) ==> #[trigger] self.square(c)
                    == old(self).square(c),
                forall|k: int| n - i <= k < n ==> !sq_is_food(#[trigger] old(self).square(body@[k])),
                rules == game.ruleset,
                forall|k: int| n - i <= k < n ==> #[trigger] seg_ok(old(self), body@, snake_idx, k, rules),
                forall|k: int| n - i <= k < n ==> #[trigger] drawn_body(old(self), self, body@, k),
                head_is_tail == (body@[0] == body@[n - 1]),
                tail_stacked == (stacked_count(body@, n - 1) > 0),
                fresh == body_fresh(old(self), body@, snake_idx),
                fresh ==> forall|k: int|
                    n - i <= k < n ==> #[trigger] self.square(body@[k]) == drawn_square(
                        old(self),
                        body@,
                        snake_idx,
                        rules,
                        n - i,
                        k,
                    ),
            decreases n - i,
        {
            let coord = body[n - 1 - i];
            assert(self.in_bounds(coord));
            let ghost j = n - 1 - i;
            proof {
                assert(body_on_board(old(self), body@));
                assert(old(self).in_bounds(body@[j]));
                lemma_visit_decides(old(self), self, body@, snake_idx, j, rules);
            }
            let ghost before = *self;
            if let Some(next) = next_coord {
                if coord != next && !self.next_to(coord, next, rules) {
                    return Err(Error::BadBoard(String::from_str("Snake was not contiguous")));
                }
            }
            let mv: Option<Move> = match next_coord {
                Some(next) => self.coord_to_move(coord, next, rules).0,
                None => None,
            };
            let sq = self.at(coord);
            let new_sq: Option<BoardSquare> = match sq {
                BoardSquare::Empty | BoardSquare::Hazard => {
                    let hazard = sq.is_hazard();
                    if i == 0 {
                        if head_is_tail {
                            Some(make_snake_square(snake_idx, true, false, Move::Left, hazard))
                        } else if tail_stacked {
                            Some(make_snake_square(snake_idx, false, true, Move::Left, hazard))
                        } else {
                            match mv {
                                Some(m) => Some(make_snake_square(snake_idx, false, true, m, hazard)),
                                None => {
                                    return Err(
                                        Error::BadBoard(String::from_str("Snake was not contiguous")),
                                    );
                                },
                            }
                        }
                    } else if i < n - 1 {
                        match mv {
                            Some(m) => Some(make_snake_square(snake_idx, false, false, m, hazard)),
                            None => {
                                return Err(
                                    Error::BadBoard(String::from_str("Snake was not contiguous")),
                                );
                            },
                        }
                    } else {
                        Some(make_snake_square(snake_idx, true, false, Move::Left, hazard))
                    }
                },
                BoardSquare::SnakeTail(idx, _) | BoardSquare::SnakeTailHazard(idx, _) => {
                    if idx != snake_idx {
                        return Err(
                            Error::BadBoard(
                                String::from_str("Snake square conflicts with other SnakeTail"),
                            ),
                        );
                    }
                    match mv {
                        Some(next_mv) => Some(
                            make_snake_square(snake_idx, false, true, next_mv, sq.is_hazard()),
                        ),
                        None => None,
                    }
                },
                BoardSquare::SnakeHead(idx) | BoardSquare::SnakeHeadHazard(idx) => {
                    if idx != snake_idx {
                        return Err(
                            Error::BadBoard(
                                String::from_str("Snake square conflicts with other SnakeHead/SnakeTail"),
                            ),
                        );
                    }
                    None
                },
                BoardSquare::Food | BoardSquare::FoodHazard => {
                    return Err(Error::BadBoard(String::from_str("Snake square conflicts with Food")));
                },
                BoardSquare::SnakeBody(_, _) | BoardSquare::SnakeBodyHazard(_, _) => {
                    return Err(
                        Error::BadBoard(String::from_str("Snake square conflicts with other SnakeBody")),
                    );
                },
            };
            if let Some(v) = new_sq {
                let ghost prev = *self;
                self.set_at(coord, v);
                proof {
                    crate::board::lemma_grid_index(coord, self.width as int, self.height as int);
                    assert forall|k: int| n - i - 1 <= k < n implies sq_owner(self.square(#[trigger] body@[k])) == Some(snake_idx) by {
                        assert(self.in_bounds(body@[k]));
                        crate::board::lemma_grid_index(body@[k], self.width as int, self.height as int);
                        if body@[k] != coord {
                            crate::board::lemma_grid_index_injective(body@[k], coord, self.width as int, self.height as int);
                        }
                    }
                    assert forall|c: Coord| old(self).in_bounds(c) && !in_body(body@, c) implies #[trigger] self.square(c) == old(self).square(c) by {
                        assert(prev.square(c) == old(self).square(c));
                        crate::board::lemma_grid_index(c, self.width as int, self.height as int);
                        assert(c != coord) by {
                            assert(body@[n - 1 - i] == coord);
                        }
                        crate::board::lemma_grid_index_injective(c, coord, self.width as int, self.height as int);
                    }
                    assert forall|c: Coord| old(self).in_bounds(c) implies sq_hazard(#[trigger] self.square(c)) == sq_hazard(
                        old(self).square(c),
                    ) by {
                        assert(sq_hazard(prev.square(c)) == sq_hazard(old(self).square(c)));
                        crate::board::lemma_grid_index(c, self.width as int, self.height as int);
                        if c != coord {
                            crate::board::lemma_grid_index_injective(c, coord, self.width as int, self.height as int);
                        }
                    }
                    assert forall|c: Coord| old(self).in_bounds(c) && !visited(body@, n - i - 1, c) implies #[trigger] self.square(c)
                        == old(self).square(c) by {
                        lemma_visited_mono(body@, n - i - 1, n - i, c);
                        assert(prev.square(c) == old(self).square(c));
                        assert(c != coord) by {
                            assert(body@[n - 1 - i] == coord);
                        }
                        crate::board::lemma_grid_index(c, self.width as int, self.height as int);
                        crate::board::lemma_grid_index_injective(c, coord, self.width as int, self.height as int);
                    }
                }
            } else {
                assert(sq_owner(self.square(coord)) == Some(snake_idx));
                assert forall|c: Coord| old(self).in_bounds(c) && !visited(body@, n - i - 1, c) implies #[trigger] self.square(c)
                    == old(self).square(c) by {
                    lemma_visited_mono(body@, n - i - 1, n - i, c);
                }
            }
            proof {
                if visited(body@, n - i, coord) {
                    let k = choose|k: int| n - i <= k < n && body@[k] == coord;
                    assert(!sq_is_food(old(self).square(body@[k])));
                } else {
                    assert(!sq_is_food(old(self).square(coord)));
                }
                crate::board::lemma_grid_index(coord, self.width as int, self.height as int);
                assert(sq_is_body(self.square(coord)) == (bare_sq(old(self).square(coord)) && body@[n - 1] != coord
                    && j != 0));
                assert forall|k: int| n - i - 1 <= k < n implies #[trigger] drawn_body(old(self), self, body@, k) by {
                    if body@[k] != coord {
                        assert(old(self).in_bounds(body@[k]));
                        crate::board::lemma_grid_index(body@[k], self.width as int, self.height as int);
                        crate::board::lemma_grid_index_injective(body@[k], coord, self.width as int, self.height as int);
                        assert(self.square(body@[k]) == before.square(body@[k]));
                        assert(drawn_body(old(self), &before, body@, k));
                    } else if k > j {
                        assert(visited(body@, j + 1, body@[j]));
                    }
                }
            }
            proof {
                if fresh {
                    assert(sq_owner(old(self).square(body@[j])) != Some(snake_idx));
                    assert(seg_ok(old(self), body@, snake_idx, j, rules));
                    assert(self.square(coord) == drawn_square(old(self), body@, snake_idx, rules, j, j)) by {
                        reveal(drawn_square);
                        if visited(body@, j + 1, coord) {
                            let p = choose|p: int| j + 1 <= p < n && body@[p] == coord;
                            assert(before.square(body@[p]) == drawn_square(old(self), body@, snake_idx, rules, j + 1, p));
                        }
                    }
                    assert forall|k: int| j < k < n && body@[k] != body@[j] implies #[trigger] self.square(body@[k])
                        == before.square(body@[k]) by {
                        assert(old(self).in_bounds(body@[k]));
                        crate::board::lemma_grid_index(body@[k], self.width as int, self.height as int);
                        crate::board::lemma_grid_index_injective(body@[k], coord, self.width as int, self.height as int);
                    }
                    lemma_drawn_step(old(self), &before, self, body@, snake_idx, rules, j);
                }
            }
            next_coord = if i + 2 < n {
                Some(body[n - i - 3])
            } else {
                None
            };
            i = i + 1;
        }
        Ok(())
    }

    fn add_snake(&mut self, body: &[Coord], health: i32)
        requires
            old(self).wf(),
            old(self).num_snakes < MAX_SNAKES,
            body@.len() <= i32::MAX,
            body_on_board(old(self), body@),
        ensures
            final(self).wf(),
            final(self).cells() == old(self).cells(),
            final(self).width == old(self).width,
            final(self).height == old(self).height,
            final(self).turn == old(self).turn,
            final(self).num_food == old(self).num_food,
            final(self).num_snakes == old(self).num_snakes + 1,
            final(self).royale_min_x == old(self).royale_min_x,
            final(self).royale_max_x == old(self).royale_max_x,
            final(self).royale_min_y == old(self).royale_min_y,
            final(self).royale_max_y == old(self).royale_max_y,
            final(self).snakes@ == old(self).snakes@.update(
                old(self).num_snakes as int,
                snake_of_body(body@, health, old(self).snakes[old(self).num_snakes as int]),
            ),
    {
        let idx = self.num_snakes as usize;
        let mut sn = self.snakes[idx];
        sn.len = body.len() as i32;
        if body.len() > 0 {
            let n = body.len();
            sn.head = body[0];
            sn.old_head = Coord::new(0, 0);
            sn.tail = body[n - 1];
            let mut stacked: i32 = 0;
            let mut i: usize = n - 1;
            let mut done = false;
            proof {
                lemma_stacked_count_bounds(body@, (n - 1) as int);
            }
            while i > 0 && !done
                invariant
                    n == body@.len(),
                    n <= i32::MAX,
                    i < n,
                    !done ==> stacked + stacked_count(body@, i as int) == stacked_count(
                        body@,
                        n - 1,
                    ),
                    done ==> stacked == stacked_count(body@, n - 1),
                    0 <= stacked <= n - 1 - i,
                decreases i + (if done { 0int } else { 1 }),
            {
                if body[i] == body[i - 1] {
                    stacked = stacked + 1;
                    i = i - 1;
                } else {
                    done = true;
                }
            }
            sn.num_stacked = stacked;
            assert(body_on_board(old(self), body@));
            assert(self.in_bounds(body@[0]));
            assert(self.in_bounds(body@[n - 1]));
        }
        sn.health = health;
        sn.eliminated = false;
        proof {
            if body@.len() == 0 {
                assert(self.in_bounds(self.snakes[idx as int].head));
            }
        }
        self.set_snake(idx, sn);
        self.num_snakes = self.num_snakes + 1;
    }
}


/// The coordinates of the squares `0..n` in row-major order whose square holds food.
pub open spec fn food_coords(b: &Board, n: int) -> Seq<Coord>
    decreases n,
{
    if n <= 0 {
        Seq::empty()
    } else {
        let prev = food_coords(b, n - 1);
        if sq_is_food(b.cells()[n - 1]) {
            prev.push(index_coord(n - 1, b.width as int))
        } else {
            prev
        }
    }
}

/// The coordinates of the squares `0..n` in row-major order that are hazards.
pub open spec fn hazard_coords(b: &Board, n: int) -> Seq<Coord>
    decreases n,
{
    if n <= 0 {
        Seq::empty()
    } else {
        let prev = hazard_coords(b, n - 1);
        if sq_hazard(b.cells()[n - 1]) {
            prev.push(index_coord(n - 1, b.width as int))
        } else {
            prev
        }
    }
}

/// What `to_req` writes for a board: the game, the turn and size, the food
/// and hazard squares in row-major order, and each snake read off the board,
/// ours as `you`.
pub open spec fn req_of_board(b: &Board, game: &Game, req: &BattleState) -> bool {
    &&& req.game == game.api
    &&& req.turn == b.turn
    &&& req.board.width == b.width
    &&& req.board.height == b.height
    &&& req.board.food@ == food_coords(b, b.area())
    &&& req.board.hazards@ == hazard_coords(b, b.area())
    &&& req.board.snakes@.len() == b.num_snakes
    &&& forall|s: int| 0 <= s < b.num_snakes ==> api_snake_of(b, game.ruleset, s, #[trigger] req.board.snakes@[s])
    &&& api_snake_of(b, game.ruleset, 0, req.you)
}

/// The food squares among the first `n` are those that `food_coords` lists.
proof fn lemma_food_coords_contains(b: &Board, n: int, c: Coord)
    requires
        b.wf(),
        0 <= n <= b.area(),
    ensures
        food_coords(b, n).contains(c) <==> (b.in_bounds(c) && grid_index(c, b.width as int) < n && sq_is_food(
            b.square(c),
        )),
    decreases n,
{
    let w = b.width as int;
    let h = b.height as int;
    if b.in_bounds(c) {
        crate::board::board_str::lemma_coord_index(c, w, h);
    }
    if n > 0 {
        lemma_food_coords_contains(b, n - 1, c);
        crate::board::board_str::lemma_index_coord(n - 1, w, h);
        let prev = food_coords(b, n - 1);
        let x = index_coord(n - 1, w);
        if sq_is_food(b.cells()[n - 1]) {
            assert(prev.push(x).contains(c) <==> prev.contains(c) || x == c) by {
                if x == c {
                    assert(prev.push(x)[prev.len() as int] == c);
                }
                if prev.push(x).contains(c) && x != c {
                    let j = choose|j: int| 0 <= j < prev.push(x).len() && prev.push(x)[j] == c;
                    assert(prev[j] == c);
                }
                if prev.contains(c) {
                    let j = choose|j: int| 0 <= j < prev.len() && prev[j] == c;
                    assert(prev.push(x)[j] == c);
                }
            }
        }
    }
}

/// The hazard squares among the first `n` are those that `hazard_coords` lists.
proof fn lemma_hazard_coords_contains(b: &Board, n: int, c: Coord)
    requires
        b.wf(),
        0 <= n <= b.area(),
    ensures
        hazard_coords(b, n).contains(c) <==> (b.in_bounds(c) && grid_index(c, b.width as int) < n && sq_hazard(
            b.square(c),
        )),
    decreases n,
{
    let w = b.width as int;
    let h = b.height as int;
    if b.in_bounds(c) {
        crate::board::board_str::lemma_coord_index(c, w, h);
    }
    if n > 0 {
        lemma_hazard_coords_contains(b, n - 1, c);
        crate::board::board_str::lemma_index_coord(n - 1, w, h);
        let prev = hazard_coords(b, n - 1);
        let x = index_coord(n - 1, w);
        if sq_hazard(b.cells()[n - 1]) {
            assert(prev.push(x).contains(c) <==> prev.contains(c) || x == c) by {
                if x == c {
                    assert(prev.push(x)[prev.len() as int] == c);
                }
                if prev.push(x).contains(c) && x != c {
                    let j = choose|j: int| 0 <= j < prev.push(x).len() && prev.push(x)[j] == c;
                    assert(prev[j] == c);
                }
                if prev.contains(c) {
                    let j = choose|j: int| 0 <= j < prev.len() && prev[j] == c;
                    assert(prev.push(x)[j] == c);
                }
            }
        }
    }
}

/// A request read into a board and written back has the same size, turn and
/// snake count, lists the same food squares and the same hazard squares, and
/// gives our snake first and then the other snakes in the request's order,
/// each with its health, head and length.
pub proof fn lemma_request_round_trip(req: &BattleState, b: &Board, game: &Game, back: &BattleState)
    requires
        request_ok(req),
        board_of_req(req, b),
        req_of_board(b, game, back),
    ensures
        back.board.width == req.board.width,
        back.board.height == req.board.height,
        back.turn == req.turn,
        back.board.snakes@.len() == 1 + count_others(req.board.snakes@, req.you.id@, req.board.snakes@.len() as int),
        forall|c: Coord| #[trigger] back.board.food@.contains(c) <==> req.board.food@.contains(c),
        forall|c: Coord| #[trigger] back.board.hazards@.contains(c) <==> req.board.hazards@.contains(c),
        back.you.health == req.you.health,
        back.board.snakes@[0].health == req.you.health,
        req.you.body@.len() > 0 ==> back.you.head == req.you.body@[0] && back.you.length == req.you.body@.len(),
        forall|k: int|
            0 <= k < req.board.snakes@.len() && req.board.snakes@[k].id@ != req.you.id@ ==> {
                let o = #[trigger] back.board.snakes@[1 + count_others(req.board.snakes@, req.you.id@, k)];
                &&& o.health == req.board.snakes@[k].health
                &&& req.board.snakes@[k].body@.len() > 0 ==> o.head == req.board.snakes@[k].body@[0]
                    && o.length == req.board.snakes@[k].body@.len()
            },
{
    assert forall|k: int| 0 <= k < req.board.snakes@.len() && req.board.snakes@[k].id@ != req.you.id@ implies {
        let o = #[trigger] back.board.snakes@[1 + count_others(req.board.snakes@, req.you.id@, k)];
        &&& o.health == req.board.snakes@[k].health
        &&& req.board.snakes@[k].body@.len() > 0 ==> o.head == req.board.snakes@[k].body@[0] && o.length
            == req.board.snakes@[k].body@.len()
    } by {
        let n = req.board.snakes@.len() as int;
        lemma_count_others_mono(req.board.snakes@, req.you.id@, k + 1, n);
        let s = 1 + count_others(req.board.snakes@, req.you.id@, k);
        lemma_count_others_bounds(req.board.snakes@, req.you.id@, k);
        assert(api_snake_of(b, game.ruleset, s, back.board.snakes@[s]));
    }
    lemma_count_others_bounds(req.board.snakes@, req.you.id@, req.board.snakes@.len() as int);
    assert(api_snake_of(b, game.ruleset, 0, back.board.snakes@[0]));
    assert forall|c: Coord| #[trigger] back.board.food@.contains(c) <==> req.board.food@.contains(c) by {
        lemma_food_coords_contains(b, b.area(), c);
        if b.in_bounds(c) {
            crate::board::lemma_grid_index(c, b.width as int, b.height as int);
        }
        if req.board.food@.contains(c) {
            let k = choose|k: int| 0 <= k < req.board.food@.len() && req.board.food@[k] == c;
            assert(sq_is_food(b.square(req.board.food@[k])));
            assert(in_grid(req.board.food@[k], b.width as int, b.height as int));
        }
        if b.in_bounds(c) && sq_is_food(b.square(c)) {
            assert(listed(req.board.food@, req.board.food@.len() as int, c));
            let k = choose|k: int| 0 <= k < req.board.food@.len() && req.board.food@[k] == c;
            assert(req.board.food@.contains(c));
        }
    }
    assert forall|c: Coord| #[trigger] back.board.hazards@.contains(c) <==> req.board.hazards@.contains(c) by {
        lemma_hazard_coords_contains(b, b.area(), c);
        if b.in_bounds(c) {
            crate::board::lemma_grid_index(c, b.width as int, b.height as int);
        }
        if req.board.hazards@.contains(c) {
            let k = choose|k: int| 0 <= k < req.board.hazards@.len() && req.board.hazards@[k] == c;
            assert(sq_hazard(b.square(req.board.hazards@[k])));
            assert(in_grid(req.board.hazards@[k], b.width as int, b.height as int));
        }
        if b.in_bounds(c) && sq_hazard(b.square(c)) {
            assert(listed(req.board.hazards@, req.board.hazards@.len() as int, c));
            let k = choose|k: int| 0 <= k < req.board.hazards@.len() && req.board.hazards@[k] == c;
            assert(req.board.hazards@.contains(c));
        }
    }
}

/// The coordinate of the square at a row-major index.
pub open spec fn index_coord(i: int, w: int) -> Coord {
    Coord { x: (i % w) as i8, y: (i / w) as i8 }
}

/// `n` copies of a coordinate.
pub open spec fn copies(c: Coord, n: int) -> Seq<Coord> {
    Seq::new(if n < 0 { 0nat } else { n as nat }, |i: int| c)
}

/// A snake's body from square `c` to its head, tail first, read off the board by
/// following the moves in the squares for at most `fuel` squares: a tail square
/// stands for itself and the segments stacked on it, and a snake whose head is
/// its tail is three segments on one square. `None` where the walk leaves the
/// board, meets a square of no snake or runs out of fuel.
pub open spec fn walk(b: &Board, rules: Rules, sn: Snake, c: Coord, fuel: nat) -> Option<Seq<Coord>>
    decreases fuel,
{
    if fuel == 0 || !b.in_bounds(c) {
        None
    } else {
        let next = |m: Move| spec_move_to_coord(c, m, rules, b.width as int, b.height as int);
        match b.square(c) {
            BoardSquare::SnakeHead(_) | BoardSquare::SnakeHeadHazard(_) => Some(
                if sn.head == sn.tail { copies(c, 3) } else { copies(c, 1) },
            ),
            BoardSquare::SnakeBody(_, m) | BoardSquare::SnakeBodyHazard(_, m) => match walk(
                b,
                rules,
                sn,
                next(m),
                (fuel - 1) as nat,
            ) {
                Some(t) => Some(copies(c, 1) + t),
                None => None,
            },
            BoardSquare::SnakeTail(_, m) | BoardSquare::SnakeTailHazard(_, m) => match walk(
                b,
                rules,
                sn,
                next(m),
                (fuel - 1) as nat,
            ) {
                Some(t) => Some(copies(c, sn.num_stacked + 1) + t),
                None => None,
            },
            _ => None,
        }
    }
}

/// The body of snake `s` as the API writes it (head first), if the walk from
/// its tail reaches its head within as many squares as the board has.
pub open spec fn api_body(b: &Board, rules: Rules, s: int) -> Option<Seq<Coord>> {
    match walk(b, rules, b.snakes[s], b.snakes[s].tail, b.area() as nat) {
        Some(t) => Some(t.reverse()),
        None => None,
    }
}

/// Whether every snake's body can be read off the board.
pub open spec fn bodies_readable(b: &Board, rules: Rules) -> bool {
    forall|s: int| 0 <= s < b.num_snakes ==> #[trigger] api_body(b, rules, s) is Some
}

/// The decimal name of a snake slot.
pub open spec fn slot_name(s: int) -> Seq<char> {
    if s == 0 {
        seq!['0']
    } else if s == 1 {
        seq!['1']
    } else if s == 2 {
        seq!['2']
    } else {
        seq!['3']
    }
}

/// What the API says of snake `s` of a board.
pub open spec fn api_snake_of(b: &Board, rules: Rules, s: int, a: SnakeApi) -> bool {
    &&& a.id@ == slot_name(s)
    &&& a.name@ == slot_name(s)
    &&& Some(a.body@) == api_body(b, rules, s)
    &&& a.head == b.snakes[s].head
    &&& a.health == b.snakes[s].health
    &&& a.length == b.snakes[s].len
    &&& a.latency@ == seq!['0']
    &&& a.shout is None
    &&& a.squad@.len() == 0
    &&& a.customizations == (Customizations { color: None, head: None, tail: None })
}

/// A snake drawn with its three segments on one square `c` is read back as
/// those three segments.
proof fn lemma_start_body(b: &Board, rules: Rules, body: Seq<Coord>, idx: u8, c: Coord)
    requires
        b.wf(),
        0 <= idx < MAX_SNAKES,
        body == seq![c, c, c],
        b.snakes[idx as int].head == c,
        b.snakes[idx as int].tail == c,
        drawn_snake(b, body, idx, rules),
    ensures
        api_body(b, rules, idx as int) == Some(body),
{
    reveal(drawn_square);
    assert(b.square(body[0]) == drawn_square(b, body, idx, rules, 0, 0));
    assert(b.in_bounds(c));
    assert(b.width * b.height >= 1) by (nonlinear_arith)
        requires
            b.width >= 1,
            b.height >= 1,
    ;
    let fuel = b.area() as nat;
    assert(walk(b, rules, b.snakes[idx as int], c, fuel) == Some(copies(c, 3)));
    assert(copies(c, 3).reverse() =~= body);
}

/// A snake that starts the game with its three segments on one square, as
/// every snake of a new game does, comes back from reading a request into a
/// board and writing the board back as a request with the same three
/// segments and a length of three: ours as `you` and in the first slot, and
/// every other snake in the slot that reading gave it.
pub proof fn lemma_start_body_round_trip(
    req: &BattleState,
    b: &Board,
    game: &Game,
    back: &BattleState,
    c: Coord,
    k: int,
)
    requires
        board_of_req(req, b),
        req_snakes_drawn(req, b, game.ruleset),
        req_of_board(b, game, back),
    ensures
        req.you.health > 0 && req.you.body@ == seq![c, c, c] ==> back.you.body@ == req.you.body@
            && back.you.length == 3 && back.board.snakes@[0].body@ == req.you.body@,
        0 <= k < req.board.snakes@.len() && req.board.snakes@[k].id@ != req.you.id@ && req.board.snakes@[k].health > 0
            && req.board.snakes@[k].body@ == seq![c, c, c] ==> {
            let slot = 1 + count_others(req.board.snakes@, req.you.id@, k);
            &&& back.board.snakes@[slot].body@ == req.board.snakes@[k].body@
            &&& back.board.snakes@[slot].length == 3
        },
{
    let rules = game.ruleset;
    let n = req.board.snakes@.len() as int;
    lemma_count_others_bounds(req.board.snakes@, req.you.id@, n);
    if req.you.health > 0 && req.you.body@ == seq![c, c, c] {
        let body = req.you.body@;
        assert(body.len() == 3);
        assert(b.snakes[0] == snake_of_body(body, req.you.health, empty_snake()));
        lemma_start_body(b, rules, body, 0u8, c);
        assert(api_snake_of(b, rules, 0, back.board.snakes@[0]));
    }
    if 0 <= k < n && req.board.snakes@[k].id@ != req.you.id@ && req.board.snakes@[k].health > 0
        && req.board.snakes@[k].body@ == seq![c, c, c] {
        let body = req.board.snakes@[k].body@;
        let slot = 1 + count_others(req.board.snakes@, req.you.id@, k);
        lemma_count_others_bounds(req.board.snakes@, req.you.id@, k);
        lemma_count_others_mono(req.board.snakes@, req.you.id@, k + 1, n);
        assert(slot < b.num_snakes);
        assert(b.snakes[slot] == snake_of_body(body, req.board.snakes@[k].health, empty_snake()));
        assert(drawn_snake(b, body, slot as u8, rules));
        lemma_start_body(b, rules, body, slot as u8, c);
        assert(api_snake_of(b, rules, slot, back.board.snakes@[slot]));
    }
}

fn slot_name_string(s: usize) -> (r: String)
    requires
        s < MAX_SNAKES,
    ensures
        r@ == slot_name(s as int),
{
    proof {
        reveal_strlit("0");
        reveal_strlit("1");
        reveal_strlit("2");
        reveal_strlit("3");
    }
    if s == 0 {
        String::from_str("0")
    } else if s == 1 {
        String::from_str("1")
    } else if s == 2 {
        String::from_str("2")
    } else {
        String::from_str("3")
    }
}

/// The walk prefixed with what was read before it.
pub open spec fn after(prefix: Seq<Coord>, rest: Option<Seq<Coord>>) -> Option<Seq<Coord>> {
    match rest {
        Some(t) => Some(prefix + t),
        None => None,
    }
}
impl Board {
    /// Reads snake `s`'s body off the board, head first; `None` where the
    /// squares from its tail do not lead to its head.
    fn read_body(&self, rules: Rules, s: usize) -> (r: Option<Vec<Coord>>)
        requires
            self.wf(),
            s < MAX_SNAKES,
        ensures
            match r {
                Some(v) => api_body(self, rules, s as int) == Some(v@),
                None => api_body(self, rules, s as int) is None,
            },
    {
        let sn = self.snakes[s];
        let area = self.len();
        let mut trail: Vec<Coord> = Vec::new();
        let mut curr = sn.tail;
        let mut fuel: i32 = area;
        assert(after(trail@, walk(self, rules, sn, curr, fuel as nat)) == walk(self, rules, sn, curr, fuel as nat)) by {
            match walk(self, rules, sn, curr, fuel as nat) {
                Some(t) => { assert(trail@ + t =~= t); },
                None => {},
            }
        }
        loop
            invariant
                self.wf(),
                sn == self.snakes[s as int],
                area == self.area(),
                0 <= fuel <= area,
                after(trail@, walk(self, rules, sn, curr, fuel as nat)) == walk(
                    self,
                    rules,
                    sn,
                    sn.tail,
                    area as nat,
                ),
            decreases fuel,
        {
            if fuel == 0 || !self.on_board(curr) {
                return None;
            }
            let ghost rest = walk(self, rules, sn, curr, fuel as nat);
            let sq = self.at(curr);
            let (count, mv): (i64, Option<Move>) = match sq {
                BoardSquare::SnakeHead(_) | BoardSquare::SnakeHeadHazard(_) => {
                    if sn.head == sn.tail {
                        (3, None)
                    } else {
                        (1, None)
                    }
                },
                BoardSquare::SnakeBody(_, m) | BoardSquare::SnakeBodyHazard(_, m) => (1, Some(m)),
                BoardSquare::SnakeTail(_, m) | BoardSquare::SnakeTailHazard(_, m) => (
                    sn.num_stacked as i64 + 1,
                    Some(m),
                ),
                _ => {
                    return None;
                },
            };
            let ghost before = trail@;
            let mut k: i64 = 0;
            while k < count
                invariant
                    0 <= k,
                    count >= 0 ==> k <= count,
                    count < 0 ==> k == 0,
                    trail@ == before + copies(curr, k as int),
                decreases count - k,
            {
                trail.push(curr);
                k = k + 1;
                assert(trail@ =~= before + copies(curr, k as int));
            }
            assert(trail@ =~= before + copies(curr, count as int)) by {
                if count < 0 {
                    assert(copies(curr, count as int) =~= copies(curr, k as int));
                }
            }
            match mv {
                None => {
                    assert(rest == Some(copies(curr, count as int)));
                    let mut r: Vec<Coord> = Vec::new();
                    let n = trail.len();
                    let mut j: usize = 0;
                    while j < n
                        invariant
                            n == trail@.len(),
                            j <= n,
                            r@ == trail@.reverse().subrange(0, j as int),
                        decreases n - j,
                    {
                        r.push(trail[n - 1 - j]);
                        j = j + 1;
                        assert(r@ =~= trail@.reverse().subrange(0, j as int));
                    }
                    assert(r@ =~= trail@.reverse());
                    return Some(r);
                },
                Some(m) => {
                    let next = self.move_to_coord(curr, m, rules);
                    proof {
                        match walk(self, rules, sn, next, (fuel - 1) as nat) {
                            Some(t) => {
                                assert(before + (copies(curr, count as int) + t) =~= trail@ + t);
                            },
                            None => {},
                        }
                    }
                    curr = next;
                    fuel = fuel - 1;
                },
            }
        }
    }

    /// A move request describing this board: the food and hazards in row-major
    /// order, each snake named by its slot with its body read off the board from
    /// its tail, and the first snake as our own. A board without snakes, or with
    /// a snake whose squares do not lead from its tail to its head, is refused.
    pub fn to_req(&self, game: &Game) -> (r: Result<BattleState, Error>)
        requires
            self.wf(),
        ensures
            r is Ok <==> self.num_snakes > 0 && bodies_readable(self, game.ruleset),
            r matches Err(e) ==> e is BadBoard,
            r matches Ok(req) ==> req_of_board(self, game, &req),
    {
        let mut food: Vec<Coord> = Vec::new();
        let mut hazards: Vec<Coord> = Vec::new();
        let area = self.len();
        let mut i: i32 = 0;
        while i < area
            invariant
                self.wf(),
                area == self.area(),
                0 <= i <= area,
                food@ == food_coords(self, i as int),
                hazards@ == hazard_coords(self, i as int),
            decreases area - i,
        {
            let coord = self.coord_from_idx(i as usize);
            let sq = self.at_idx(i as usize);
            match sq {
                BoardSquare::Food => food.push(coord),
                BoardSquare::Hazard | BoardSquare::SnakeHeadHazard(_) | BoardSquare::SnakeBodyHazard(_, _)
                | BoardSquare::SnakeTailHazard(_, _) => hazards.push(coord),
                BoardSquare::FoodHazard => {
                    food.push(coord);
                    hazards.push(coord);
                },
                _ => {},
            }
            i = i + 1;
        }
        if self.num_snakes == 0 {
            return Err(Error::BadBoard(String::from_str("No snakes")));
        }
        let mut snakes: Vec<SnakeApi> = Vec::new();
        let mut idx: usize = 0;
        while idx < self.num_snakes as usize
            invariant
                self.wf(),
                idx <= self.num_snakes,
                snakes@.len() == idx,
                forall|s: int| 0 <= s < idx ==> #[trigger] api_body(self, game.ruleset, s) is Some,
                forall|s: int| 0 <= s < idx ==> api_snake_of(self, game.ruleset, s, #[trigger] snakes@[s]),
            decreases self.num_snakes - idx,
        {
            let body = match self.read_body(game.ruleset, idx) {
                Some(b) => b,
                None => {
                    return Err(Error::BadBoard(String::from_str("Snake was not contiguous")));
                },
            };
            let snake = &self.snakes[idx];
            proof {
                reveal_strlit("0");
                reveal_strlit("");
            }
            let api_snake = SnakeApi {
                id: slot_name_string(idx),
                name: slot_name_string(idx),
                body,
                head: snake.head,
                health: snake.health,
                latency: String::from_str("0"),
                length: self.snake_len(idx),
                shout: None,
                squad: String::from_str(""),
                customizations: Customizations { color: None, head: None, tail: None },
            };
            assert(api_snake.squad@.len() == 0);
            assert(api_snake.latency@ == seq!['0']);
            assert(api_snake.id@ == slot_name(idx as int));
            assert(Some(api_snake.body@) == api_body(self, game.ruleset, idx as int));
            assert(api_snake.length == self.snakes[idx as int].len);
            assert(api_snake_of(self, game.ruleset, idx as int, api_snake));
            let ghost prev = snakes@;
            snakes.push(api_snake);
            assert forall|s: int| 0 <= s < idx + 1 implies api_snake_of(self, game.ruleset, s, #[trigger] snakes@[s]) by {
                if s < idx {
                    assert(snakes@[s] == prev[s]);
                }
            }
            idx = idx + 1;
        }
        let you = snakes[0].copy();
        Ok(
            BattleState {
                game: game.api.copy(),
                turn: self.turn,
                you,
                board: BoardApi { height: self.height, width: self.width, food, hazards, snakes },
            },
        )
    }
}

} // verus!
