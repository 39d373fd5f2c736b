use vstd::prelude::*;

use crate::board::{in_grid, sq_is_food, sq_owner, spec_move_to_coord, Board, BoardSquare};
use crate::config::{MAX_BOARD_SIZE, MAX_SNAKES};
use crate::game::{Game, GameMap, Rules};
use crate::util::{spec_char_of_square, spec_square_of_char, square_from_char, square_to_char, text_square, Coord, Error, Move};
use crate::board::board_api::index_coord;

verus! {

/// The characters that separate words and that rows of the board text ignore.
pub open spec fn is_space(c: char) -> bool {
    c == ' ' || c == '\t' || c == '\n' || c == '\r' || c == '\x0b' || c == '\x0c'
}

fn space(c: char) -> (b: bool)
    ensures
        b == is_space(c),
{
    c == ' ' || c == '\t' || c == '\n' || c == '\r' || c == '\x0b' || c == '\x0c'
}

/// A text cut at each line break; the breaks themselves are dropped.
pub open spec fn split_lines(s: Seq<char>) -> Seq<Seq<char>>
    decreases s.len(),
{
    if s.len() == 0 {
        seq![Seq::empty()]
    } else {
        let rest = split_lines(s.drop_first());
        if s[0] == '\n' {
            seq![Seq::empty()] + rest
        } else {
            rest.update(0, seq![s[0]] + rest[0])
        }
    }
}

pub(crate) proof fn lemma_split_lines_len(s: Seq<char>)
    ensures
        split_lines(s).len() >= 1,
    decreases s.len(),
{
    if s.len() > 0 {
        lemma_split_lines_len(s.drop_first());
    }
}

/// Whether a line holds a character other than a space.
pub open spec fn has_text(l: Seq<char>) -> bool {
    exists|i: int| 0 <= i < l.len() && !is_space(#[trigger] l[i])
}

/// The lines that hold more than spaces, in order.
pub open spec fn text_lines(ls: Seq<Seq<char>>) -> Seq<Seq<char>>
    decreases ls.len(),
{
    if ls.len() == 0 {
        Seq::empty()
    } else {
        let rest = text_lines(ls.drop_first());
        if has_text(ls[0]) {
            seq![ls[0]] + rest
        } else {
            rest
        }
    }
}

/// The words of a line: its longest runs of characters other than spaces.
pub open spec fn words(s: Seq<char>) -> Seq<Seq<char>>
    decreases s.len(),
{
    if s.len() == 0 {
        Seq::empty()
    } else {
        let rest = words(s.drop_first());
        if is_space(s[0]) {
            rest
        } else if s.len() > 1 && !is_space(s[1]) {
            rest.update(0, seq![s[0]] + rest[0])
        } else {
            seq![seq![s[0]]] + rest
        }
    }
}

pub(crate) proof fn lemma_words_start(s: Seq<char>)
    requires
        s.len() > 0,
        !is_space(s[0]),
    ensures
        words(s).len() > 0,
    decreases s.len(),
{
    if s.len() > 1 && !is_space(s[1]) {
        lemma_words_start(s.drop_first());
    }
}

/// A line without its spaces.
pub open spec fn squeeze(s: Seq<char>) -> Seq<char>
    decreases s.len(),
{
    if s.len() == 0 {
        Seq::empty()
    } else {
        let rest = squeeze(s.drop_first());
        if is_space(s[0]) {
            rest
        } else {
            seq![s[0]] + rest
        }
    }
}

/// The value of a run of decimal digits, `None` if a character is no digit or
/// the run is empty.
pub open spec fn digits_value(s: Seq<char>) -> Option<int>
    decreases s.len(),
{
    if s.len() == 0 {
        None
    } else {
        let d = s.last();
        if !('0' <= d && d <= '9') {
            None
        } else if s.len() == 1 {
            Some(d as int - '0' as int)
        } else {
            match digits_value(s.drop_last()) {
                Some(v) => Some(v * 10 + (d as int - '0' as int)),
                None => None,
            }
        }
    }
}

/// A decimal integer with an optional sign, `None` unless it fits in an `i32`.
pub open spec fn parse_int(s: Seq<char>) -> Option<int> {
    let v = if s.len() > 0 && s[0] == '-' {
        match digits_value(s.drop_first()) {
            Some(v) => Some(-v),
            None => None,
        }
    } else if s.len() > 0 && s[0] == '+' {
        digits_value(s.drop_first())
    } else {
        digits_value(s)
    };
    match v {
        Some(v) => if i32::MIN <= v <= i32::MAX {
            Some(v)
        } else {
            None
        },
        None => None,
    }
}

proof fn lemma_digits_value_nonneg(s: Seq<char>)
    ensures
        digits_value(s) matches Some(v) ==> v >= 0,
    decreases s.len(),
{
    if s.len() > 1 {
        lemma_digits_value_nonneg(s.drop_last());
    }
}
/// The characters of a text.
pub fn text_chars(s: &str) -> (r: Vec<char>)
    ensures
        r@ == s@,
{
    let n = s.unicode_len();
    let mut r: Vec<char> = Vec::new();
    let mut i: usize = 0;
    while i < n
        invariant
            n == s@.len(),
            i <= n,
            r@ == s@.subrange(0, i as int),
        decreases n - i,
    {
        r.push(s.get_char(i));
        i = i + 1;
    }
    assert(r@ =~= s@);
    r
}

/// The character sequences of a list of lines.
pub open spec fn views(v: Seq<Vec<char>>) -> Seq<Seq<char>> {
    v.map_values(|l: Vec<char>| l@)
}

/// The lines of a text that hold more than spaces.
pub fn lines_with_text(s: &Vec<char>) -> (r: Vec<Vec<char>>)
    ensures
        views(r@) == text_lines(split_lines(s@)),
{
    let mut lines: Vec<Vec<char>> = Vec::new();
    lines.push(Vec::new());
    let mut i: usize = s.len();
    proof {
        assert(s@.skip(i as int) =~= Seq::<char>::empty());
        assert(views(lines@) =~= split_lines(s@.skip(i as int)));
    }
    while i > 0
        invariant
            i <= s@.len(),
            views(lines@) == split_lines(s@.skip(i as int)),
        decreases i,
    {
        let c = s[i - 1];
        proof {
            assert(s@.skip(i - 1).drop_first() =~= s@.skip(i as int));
            lemma_split_lines_len(s@.skip(i as int));
        }
        let ghost prev = views(lines@);
        if c == '\n' {
            lines.insert(0, Vec::new());
            assert(views(lines@) =~= seq![Seq::<char>::empty()] + prev);
        } else {
            let mut first = lines.remove(0);
            assert(first@ == prev[0]);
            first.insert(0, c);
            assert(first@ =~= seq![c] + prev[0]);
            lines.insert(0, first);
            assert(views(lines@) =~= prev.update(0, seq![c] + prev[0]));
        }
        i = i - 1;
    }
    assert(s@.skip(0) =~= s@);
    let ghost all = views(lines@);
    let mut r: Vec<Vec<char>> = Vec::new();
    let mut k: usize = lines.len();
    proof {
        assert(all.skip(k as int) =~= Seq::<Seq<char>>::empty());
    }
    while k > 0
        invariant
            k <= lines@.len(),
            views(lines@) == all,
            views(r@) == text_lines(all.skip(k as int)),
        decreases k,
    {
        proof {
            assert(all.skip(k - 1).drop_first() =~= all.skip(k as int));
            assert(all.skip(k - 1)[0] == all[k - 1]);
        }
        let line = &lines[k - 1];
        assert(line@ == all[k - 1]);
        let ghost prev = views(r@);
        let mut j: usize = 0;
        let mut found = false;
        while j < line.len() && !found
            invariant
                j <= line@.len(),
                found ==> has_text(line@),
                !found ==> forall|t: int| 0 <= t < j ==> is_space(#[trigger] line@[t]),
            decreases line@.len() - j + if found { 0int } else { 1 },
        {
            if !space(line[j]) {
                found = true;
            } else {
                j = j + 1;
            }
        }
        if found {
            r.insert(0, copy_chars(line));
            assert(views(r@) =~= seq![all[k - 1]] + prev);
        }
        k = k - 1;
    }
    assert(all.skip(0) =~= all);
    r
}

fn copy_chars(v: &Vec<char>) -> (r: Vec<char>)
    ensures
        r@ == v@,
{
    let mut r: Vec<char> = Vec::new();
    let mut i: usize = 0;
    while i < v.len()
        invariant
            i <= v@.len(),
            r@ == v@.subrange(0, i as int),
        decreases v@.len() - i,
    {
        r.push(v[i]);
        i = i + 1;
    }
    assert(r@ =~= v@);
    r
}

/// The words of a line.
pub fn split_words(s: &Vec<char>) -> (r: Vec<Vec<char>>)
    ensures
        views(r@) == words(s@),
{
    let mut r: Vec<Vec<char>> = Vec::new();
    let mut i: usize = s.len();
    proof {
        assert(s@.skip(i as int) =~= Seq::<char>::empty());
    }
    while i > 0
        invariant
            i <= s@.len(),
            views(r@) == words(s@.skip(i as int)),
        decreases i,
    {
        let c = s[i - 1];
        let ghost suffix = s@.skip(i - 1);
        proof {
            assert(suffix.drop_first() =~= s@.skip(i as int));
        }
        let ghost prev = views(r@);
        if !space(c) {
            if i < s.len() && !space(s[i]) {
                proof {
                    assert(suffix[1] == s@[i as int]);
                    lemma_words_start(s@.skip(i as int));
                }
                let mut first = r.remove(0);
                assert(first@ == prev[0]);
                first.insert(0, c);
                assert(first@ =~= seq![c] + prev[0]);
                r.insert(0, first);
                assert(views(r@) =~= prev.update(0, seq![c] + prev[0]));
            } else {
                let mut w: Vec<char> = Vec::new();
                w.push(c);
                r.insert(0, w);
                assert(views(r@) =~= seq![seq![c]] + prev);
            }
        }
        i = i - 1;
    }
    assert(s@.skip(0) =~= s@);
    r
}

/// A line without its spaces.
pub fn squeeze_spaces(s: &Vec<char>) -> (r: Vec<char>)
    ensures
        r@ == squeeze(s@),
{
    let mut r: Vec<char> = Vec::new();
    let mut i: usize = s.len();
    proof {
        assert(s@.skip(i as int) =~= Seq::<char>::empty());
    }
    while i > 0
        invariant
            i <= s@.len(),
            r@ == squeeze(s@.skip(i as int)),
        decreases i,
    {
        let c = s[i - 1];
        proof {
            assert(s@.skip(i - 1).drop_first() =~= s@.skip(i as int));
        }
        let ghost prev = r@;
        if !space(c) {
            r.insert(0, c);
            assert(r@ =~= seq![c] + prev);
        }
        i = i - 1;
    }
    assert(s@.skip(0) =~= s@);
    r
}

/// Reads a decimal integer with an optional sign; text that is no integer or
/// that does not fit in an `i32` is refused.
pub fn read_int(s: &Vec<char>) -> (r: Result<i32, Error>)
    ensures
        match r {
            Ok(v) => parse_int(s@) == Some(v as int),
            Err(e) => parse_int(s@) is None && e is BadBoardStr,
        },
{
    let n = s.len();
    let neg = n > 0 && s[0] == '-';
    let start: usize = if n > 0 && (s[0] == '-' || s[0] == '+') {
        1
    } else {
        0
    };
    let ghost ds = s@.skip(start as int);
    proof {
        if start == 1 {
            assert(ds =~= s@.drop_first());
        } else {
            assert(ds =~= s@);
        }
    }
    if start >= n {
        return Err(Error::BadBoardStr(String::from_str("Invalid board str: missing number")));
    }
    let mut v: i64 = 0;
    let mut i: usize = start;
    while i < n
        invariant
            start < n == s@.len(),
            start == 0 || start == 1,
            ds == s@.skip(start as int),
            start == 1 ==> ds == s@.drop_first(),
            start == 0 ==> ds == s@,
            start == 1 <==> (s@[0] == '-' || s@[0] == '+'),
            neg <==> s@[0] == '-',
            start <= i <= n,
            0 <= v <= 0x8000_0000,
            i == start ==> v == 0,
            i > start ==> digits_value(ds.take(i - start)) == Some(v as int),
        decreases n - i,
    {
        let c = s[i];
        let ghost pre = ds.take(i - start + 1);
        proof {
            assert(pre.last() == c);
            assert(pre.drop_last() =~= ds.take(i - start));
        }
        if !('0' <= c && c <= '9') {
            proof {
                lemma_no_digits_prefix(ds, i - start + 1);
                lemma_parse_none(s@, ds, start as int);
            }
            return Err(Error::BadBoardStr(String::from_str("Invalid board str: bad number")));
        }
        let d: i64 = (c as u32 - '0' as u32) as i64;
        let next = v * 10 + d;
        if next > 0x8000_0000 {
            proof {
                lemma_digits_too_big(ds, (i - start + 1) as int, next as int);
                if digits_value(ds) is None {
                    lemma_parse_none(s@, ds, start as int);
                } else {
                    lemma_parse_big(s@, ds, start as int);
                }
            }
            return Err(Error::BadBoardStr(String::from_str("Invalid board str: number too large")));
        }
        v = next;
        i = i + 1;
    }
    proof {
        assert(ds.take(n - start) =~= ds);
    }
    assert(digits_value(ds) == Some(v as int));
    proof {
        if neg {
            assert(ds == s@.drop_first());
        } else if start == 1 {
            assert(s@[0] == '+');
            assert(ds == s@.drop_first());
        } else {
            assert(ds == s@);
        }
    }
    if neg {
        if v > 0x8000_0000 {
            return Err(Error::BadBoardStr(String::from_str("Invalid board str: number too large")));
        }
        Ok((-v) as i32)
    } else {
        if v > 0x7fff_ffff {
            return Err(Error::BadBoardStr(String::from_str("Invalid board str: number too large")));
        }
        Ok(v as i32)
    }
}

proof fn lemma_parse_none(s: Seq<char>, ds: Seq<char>, start: int)
    requires
        s.len() > 0,
        start == 1 ==> ds == s.drop_first(),
        start == 0 ==> ds == s,
        start == 1 <==> (s[0] == '-' || s[0] == '+'),
        start == 0 || start == 1,
        digits_value(ds) is None,
    ensures
        parse_int(s) is None,
{
}

proof fn lemma_parse_big(s: Seq<char>, ds: Seq<char>, start: int)
    requires
        s.len() > 0,
        start == 1 ==> ds == s.drop_first(),
        start == 0 ==> ds == s,
        start == 1 <==> (s[0] == '-' || s[0] == '+'),
        start == 0 || start == 1,
        digits_value(ds) matches Some(w) && w > 0x8000_0000,
    ensures
        parse_int(s) is None,
{
}

/// A run that holds a character other than a digit within its first `k`
/// characters has no value.
proof fn lemma_no_digits_prefix(ds: Seq<char>, k: int)
    requires
        0 < k <= ds.len(),
        !('0' <= ds[k - 1] && ds[k - 1] <= '9'),
    ensures
        digits_value(ds) is None,
    decreases ds.len(),
{
    if k < ds.len() {
        assert(ds.drop_last()[k - 1] == ds[k - 1]);
        lemma_no_digits_prefix(ds.drop_last(), k);
    }
}

/// A run whose first `k` characters already exceed the `i32` range has no
/// value in it.
proof fn lemma_digits_too_big(ds: Seq<char>, k: int, v: int)
    requires
        0 < k <= ds.len(),
        digits_value(ds.take(k)) == Some(v),
        v > 0x8000_0000,
    ensures
        digits_value(ds) matches Some(w) ==> w > 0x8000_0000,
    decreases ds.len() - k,
{
    if k < ds.len() {
        let t = ds.take(k + 1);
        assert(t.drop_last() =~= ds.take(k));
        match digits_value(t) {
            Some(w) => {
                lemma_digits_value_nonneg(t);
                lemma_digits_too_big(ds, k + 1, w);
            },
            None => {
                lemma_none_extends(ds, k + 1);
            },
        }
    } else {
        assert(ds.take(k) =~= ds);
    }
}

/// A prefix without a value gives the whole run no value.
proof fn lemma_none_extends(ds: Seq<char>, k: int)
    requires
        0 < k <= ds.len(),
        digits_value(ds.take(k)) is None,
    ensures
        digits_value(ds) is None,
    decreases ds.len() - k,
{
    if k < ds.len() {
        let t = ds.take(k + 1);
        assert(t.drop_last() =~= ds.take(k));
        lemma_none_extends(ds, k + 1);
    } else {
        assert(ds.take(k) =~= ds);
    }
}


/// The width of a grid of rows.
pub open spec fn grid_w(rows: Seq<Seq<char>>) -> int {
    if rows.len() == 0 { 0 } else { rows[0].len() as int }
}

pub open spec fn grid_h(rows: Seq<Seq<char>>) -> int {
    rows.len() as int
}

/// Rows of one width that make a board of a size that fits.
pub open spec fn grid_fits(rows: Seq<Seq<char>>) -> bool {
    &&& rows.len() >= 1
    &&& grid_w(rows) >= 1
    &&& forall|r: int| 0 <= r < rows.len() ==> #[trigger] rows[r].len() == grid_w(rows)
    &&& grid_w(rows) * grid_h(rows) <= MAX_BOARD_SIZE
}

/// The character at a coordinate: the top row comes first, so row `y` from
/// the bottom is `rows[h - 1 - y]`.
pub open spec fn cell_char(rows: Seq<Seq<char>>, c: Coord) -> char {
    rows[grid_h(rows) - 1 - c.y][c.x as int]
}

/// The square that a character stands for (body and tail with snake index 0).
pub open spec fn char_sq(ch: char) -> BoardSquare {
    match spec_square_of_char(ch) {
        Some((sq, _, _, _)) => sq,
        None => BoardSquare::Empty,
    }
}

pub open spec fn sq_at(rows: Seq<Seq<char>>, c: Coord) -> BoardSquare {
    char_sq(cell_char(rows, c))
}

/// Whether a tail character marks a stacked tail.
pub open spec fn cell_stacked(rows: Seq<Seq<char>>, c: Coord) -> i32 {
    match spec_square_of_char(cell_char(rows, c)) {
        Some((_, _, st, _)) => st,
        None => 0,
    }
}

pub open spec fn in_rows(rows: Seq<Seq<char>>, c: Coord) -> bool {
    in_grid(c, grid_w(rows), grid_h(rows))
}

pub open spec fn is_head_sq(s: BoardSquare) -> bool {
    s is SnakeHead || s is SnakeHeadHazard
}

pub open spec fn is_trail_sq(s: BoardSquare) -> bool {
    s is SnakeBody || s is SnakeBodyHazard || s is SnakeTail || s is SnakeTailHazard
}

pub open spec fn is_tail_sq(s: BoardSquare) -> bool {
    s is SnakeTail || s is SnakeTailHazard
}

/// The move of a body or tail square.
pub open spec fn sq_move(s: BoardSquare) -> Move {
    match s {
        BoardSquare::SnakeBody(_, m) => m,
        BoardSquare::SnakeBodyHazard(_, m) => m,
        BoardSquare::SnakeTail(_, m) => m,
        BoardSquare::SnakeTailHazard(_, m) => m,
        _ => Move::Left,
    }
}

/// The snake index of a head square.
pub open spec fn head_index(s: BoardSquare) -> int {
    match sq_owner(s) {
        Some(i) => i as int,
        None => 0,
    }
}

/// Following the moves of the text from `c` for at most `fuel` squares: the head
/// that is reached and the number of squares on the way, the head included.
pub open spec fn text_walk(rows: Seq<Seq<char>>, rules: Rules, c: Coord, fuel: nat) -> Option<(Coord, nat)>
    decreases fuel,
{
    if fuel == 0 || !in_rows(rows, c) {
        None
    } else {
        let sq = sq_at(rows, c);
        if is_head_sq(sq) {
            Some((c, 1nat))
        } else if is_trail_sq(sq) {
            match text_walk(
                rows,
                rules,
                spec_move_to_coord(c, sq_move(sq), rules, grid_w(rows), grid_h(rows)),
                (fuel - 1) as nat,
            ) {
                Some((hd, k)) => Some((hd, k + 1)),
                None => None,
            }
        } else {
            None
        }
    }
}

/// The walk from `c` with as much fuel as the board has squares.
pub open spec fn walk_from(rows: Seq<Seq<char>>, rules: Rules, c: Coord) -> Option<(Coord, nat)> {
    text_walk(rows, rules, c, (grid_w(rows) * grid_h(rows)) as nat)
}

/// The head that the walk from `c` reaches.
pub open spec fn walk_head(rows: Seq<Seq<char>>, rules: Rules, c: Coord) -> Coord {
    match walk_from(rows, rules, c) {
        Some((hd, _)) => hd,
        None => c,
    }
}

/// The number of squares on the walk from `c`, its head included.
pub open spec fn walk_len(rows: Seq<Seq<char>>, rules: Rules, c: Coord) -> int {
    match walk_from(rows, rules, c) {
        Some((_, k)) => k as int,
        None => 0,
    }
}

/// The snake index of the head that the walk from `c` reaches.
pub open spec fn walk_owner(rows: Seq<Seq<char>>, rules: Rules, c: Coord) -> int {
    head_index(sq_at(rows, walk_head(rows, rules, c)))
}

/// Rows that describe a board: every character known, head indices below
/// the number of snakes and used once, every body and tail square leading to a
/// head, at most one tail per head, and a head for every snake with health.
pub open spec fn grid_ok(rows: Seq<Seq<char>>, healths: Seq<i32>, rules: Rules) -> bool {
    &&& grid_fits(rows)
    &&& healths.len() <= MAX_SNAKES
    &&& forall|c: Coord| in_rows(rows, c) ==> #[trigger] spec_square_of_char(cell_char(rows, c)) is Some
    &&& forall|c: Coord| in_rows(rows, c) && is_head_sq(#[trigger] sq_at(rows, c)) ==> head_index(sq_at(rows, c)) < healths.len()
    &&& forall|c: Coord, d: Coord|
        in_rows(rows, c) && in_rows(rows, d) && c != d && is_head_sq(#[trigger] sq_at(rows, c)) && is_head_sq(#[trigger] sq_at(rows, d))
            ==> head_index(sq_at(rows, c)) != head_index(sq_at(rows, d))
    &&& forall|c: Coord| in_rows(rows, c) && is_trail_sq(#[trigger] sq_at(rows, c)) ==> walk_from(rows, rules, c) is Some
    &&& forall|c: Coord, d: Coord|
        in_rows(rows, c) && in_rows(rows, d) && c != d && is_tail_sq(#[trigger] sq_at(rows, c)) && is_tail_sq(#[trigger] sq_at(rows, d))
            ==> walk_owner(rows, rules, c) != walk_owner(rows, rules, d)
    &&& forall|i: int| 0 <= i < healths.len() && #[trigger] healths[i] > 0 ==> head_cell(rows, i) is Some
}

/// The square that holds the head of snake `i`, if one does.
pub open spec fn head_cell(rows: Seq<Seq<char>>, i: int) -> Option<Coord> {
    if exists|c: Coord| in_rows(rows, c) && is_head_sq(sq_at(rows, c)) && head_index(sq_at(rows, c)) == i {
        Some(choose|c: Coord| in_rows(rows, c) && is_head_sq(sq_at(rows, c)) && head_index(sq_at(rows, c)) == i)
    } else {
        None
    }
}

/// The tail square whose walk reaches the head of snake `i`, if one does.
pub open spec fn tail_cell(rows: Seq<Seq<char>>, rules: Rules, i: int) -> Option<Coord> {
    if exists|c: Coord| in_rows(rows, c) && is_tail_sq(sq_at(rows, c)) && walk_owner(rows, rules, c) == i {
        Some(choose|c: Coord| in_rows(rows, c) && is_tail_sq(sq_at(rows, c)) && walk_owner(rows, rules, c) == i)
    } else {
        None
    }
}

/// The number of food squares among the first `k` in row-major order.
pub open spec fn grid_food(rows: Seq<Seq<char>>, k: int) -> int
    decreases k,
{
    if k <= 0 {
        0
    } else {
        grid_food(rows, k - 1) + if sq_is_food(sq_at(rows, index_coord(k - 1, grid_w(rows)))) {
            1int
        } else {
            0
        }
    }
}

/// The board that rows of text describe, besides its royale bounds: the squares
/// of the text, each body and tail square with the index of the head it leads
/// to, and per snake its health and, from its tail and head squares, its body.
pub open spec fn grid_board(b: &Board, turn: i32, healths: Seq<i32>, rows: Seq<Seq<char>>, rules: Rules) -> bool {
    let w = grid_w(rows);
    let h = grid_h(rows);
    &&& b.wf()
    &&& b.width == w && b.height == h
    &&& b.turn == turn
    &&& b.num_snakes == healths.len()
    &&& b.num_food == grid_food(rows, w * h)
    &&& forall|c: Coord| in_rows(rows, c) ==> text_square(#[trigger] b.square(c)) == sq_at(rows, c)
    &&& forall|c: Coord| in_rows(rows, c) && is_trail_sq(#[trigger] b.square(c)) ==> sq_owner(b.square(c)) == Some(
        walk_owner(rows, rules, c) as u8,
    )
    &&& forall|i: int| 0 <= i < MAX_SNAKES ==> #[trigger] snake_from_text(b.snakes[i], rows, rules, healths, i)
}

/// Snake `i` as the text describes it.
pub open spec fn snake_from_text(sn: crate::board::Snake, rows: Seq<Seq<char>>, rules: Rules, healths: Seq<i32>, i: int) -> bool {
    if i >= healths.len() {
        sn == crate::board::empty_snake()
    } else {
        &&& sn.health == healths[i]
        &&& !sn.eliminated
        &&& sn.old_head == crate::board::origin()
        &&& match tail_cell(rows, rules, i) {
            Some(t) => {
                &&& sn.tail == t
                &&& sn.head == walk_head(rows, rules, t)
                &&& sn.num_stacked == cell_stacked(rows, t)
                &&& sn.len == walk_len(rows, rules, t) + cell_stacked(rows, t)
            },
            None => match head_cell(rows, i) {
                Some(hc) if healths[i] > 0 => {
                    &&& sn.head == hc && sn.tail == hc
                    &&& sn.num_stacked == 2 && sn.len == 3
                },
                _ => {
                    &&& sn.head == crate::board::origin() && sn.tail == crate::board::origin()
                    &&& sn.num_stacked == 0 && sn.len == 0
                },
            },
        }
    }
}


/// The coordinate of a row-major index lies on the board and has that index.
pub proof fn lemma_index_coord(k: int, w: int, h: int)
    requires
        0 <= k < w * h,
        1 <= w,
        1 <= h,
        w * h <= MAX_BOARD_SIZE,
    ensures
        in_grid(index_coord(k, w), w, h),
        crate::board::grid_index(index_coord(k, w), w) == k,
{
    vstd::arithmetic::div_mod::lemma_fundamental_div_mod(k, w);
    let q = k / w;
    let r = k % w;
    assert(0 <= r < w);
    assert(q >= 0) by (nonlinear_arith)
        requires
            k == w * q + r,
            0 <= k,
            r < w,
            1 <= w,
    ;
    assert(q < h) by (nonlinear_arith)
        requires
            k == w * q + r,
            k < w * h,
            0 <= r,
            1 <= w,
    ;
    assert(w <= MAX_BOARD_SIZE) by (nonlinear_arith)
        requires
            w * h <= MAX_BOARD_SIZE,
            1 <= h,
            1 <= w,
    ;
    assert(h <= MAX_BOARD_SIZE) by (nonlinear_arith)
        requires
            w * h <= MAX_BOARD_SIZE,
            1 <= h,
            1 <= w,
    ;
    assert(q * w == w * q) by (nonlinear_arith);
}

/// An on-board coordinate is the coordinate of its row-major index.
pub proof fn lemma_coord_index(c: Coord, w: int, h: int)
    requires
        in_grid(c, w, h),
        w * h <= MAX_BOARD_SIZE,
    ensures
        index_coord(crate::board::grid_index(c, w), w) == c,
        0 <= crate::board::grid_index(c, w) < w * h,
{
    crate::board::lemma_grid_index(c, w, h);
    vstd::arithmetic::div_mod::lemma_fundamental_div_mod_converse(
        crate::board::grid_index(c, w),
        w,
        c.y as int,
        c.x as int,
    );
}

fn with_owner(sq: BoardSquare, i: u8) -> (r: BoardSquare)
    ensures
        text_square(r) == text_square(sq),
        is_trail_sq(sq) ==> sq_owner(r) == Some(i),
        !is_trail_sq(sq) ==> r == sq,
        is_trail_sq(r) == is_trail_sq(sq),
        is_tail_sq(r) == is_tail_sq(sq),
{
    match sq {
        BoardSquare::SnakeBody(_, m) => BoardSquare::SnakeBody(i, m),
        BoardSquare::SnakeBodyHazard(_, m) => BoardSquare::SnakeBodyHazard(i, m),
        BoardSquare::SnakeTail(_, m) => BoardSquare::SnakeTail(i, m),
        BoardSquare::SnakeTailHazard(_, m) => BoardSquare::SnakeTailHazard(i, m),
        _ => sq,
    }
}

/// The squares of a board agree with rows of text but for snake indices.
pub open spec fn squares_read(b: &Board, rows: Seq<Seq<char>>) -> bool {
    &&& b.width == grid_w(rows)
    &&& b.height == grid_h(rows)
    &&& forall|c: Coord| in_rows(rows, c) ==> text_square(#[trigger] b.square(c)) == sq_at(rows, c)
}

impl Board {
    /// Follows the moves from `c` to a head, for at most as many squares as the
    /// board has.
    fn follow_text(&self, rows: &Vec<Vec<char>>, rules: Rules, c: Coord) -> (r: Option<(Coord, u32)>)
        requires
            self.wf(),
            grid_fits(views(rows@)),
            squares_read(self, views(rows@)),
        ensures
            match walk_from(views(rows@), rules, c) {
                Some((hd, k)) => r == Some((hd, k as u32)),
                None => r is None,
            },
    {
        let ghost g = views(rows@);
        let area = self.len();
        let mut fuel: i32 = area;
        let mut steps: u32 = 0;
        let mut curr = c;
        loop
            invariant
                self.wf(),
                g == views(rows@),
                grid_fits(g),
                squares_read(self, g),
                area == self.area(),
                0 <= fuel <= area,
                steps + fuel == area,
                match text_walk(g, rules, curr, fuel as nat) {
                    Some((hd, k)) => walk_from(g, rules, c) == Some((hd, (k + steps) as nat)),
                    None => walk_from(g, rules, c) is None,
                },
            decreases fuel,
        {
            if fuel == 0 || !self.on_board(curr) {
                return None;
            }
            let sq = self.at(curr);
            assert(text_square(sq) == sq_at(g, curr));
            match sq {
                BoardSquare::SnakeHead(_) | BoardSquare::SnakeHeadHazard(_) => {
                    return Some((curr, steps + 1));
                },
                BoardSquare::SnakeBody(_, m) | BoardSquare::SnakeBodyHazard(_, m)
                | BoardSquare::SnakeTail(_, m) | BoardSquare::SnakeTailHazard(_, m) => {
                    curr = self.move_to_coord(curr, m, rules);
                    fuel = fuel - 1;
                    steps = steps + 1;
                },
                _ => {
                    return None;
                },
            }
        }
    }
}


/// The squares of rows of text are known, and their heads name distinct
/// snakes below `n`.
pub open spec fn cells_ok(rows: Seq<Seq<char>>, n: int) -> bool {
    &&& forall|c: Coord| in_rows(rows, c) ==> #[trigger] spec_square_of_char(cell_char(rows, c)) is Some
    &&& forall|c: Coord| in_rows(rows, c) && is_head_sq(#[trigger] sq_at(rows, c)) ==> head_index(sq_at(rows, c)) < n
    &&& forall|c: Coord, d: Coord|
        in_rows(rows, c) && in_rows(rows, d) && c != d && is_head_sq(#[trigger] sq_at(rows, c)) && is_head_sq(#[trigger] sq_at(rows, d))
            ==> head_index(sq_at(rows, c)) != head_index(sq_at(rows, d))
}

/// Where the heads are: slot `i` holds the row-major index of the head of
/// snake `i`, and every head is recorded.
pub open spec fn heads_found(rows: Seq<Seq<char>>, heads: [Option<usize>; 4], k: int) -> bool {
    let w = grid_w(rows);
    &&& forall|i: int|
        0 <= i < MAX_SNAKES ==> (#[trigger] heads[i] matches Some(j) ==> j < k && is_head_sq(
            sq_at(rows, index_coord(j as int, w)),
        ) && head_index(sq_at(rows, index_coord(j as int, w))) == i)
    &&& forall|j: int|
        0 <= j < k && is_head_sq(#[trigger] sq_at(rows, index_coord(j, w))) ==> heads[head_index(
            sq_at(rows, index_coord(j, w)),
        )] == Some(j as usize)
}

impl Board {
    /// Writes the squares of the text into an empty board, each body and tail
    /// with snake index 0, and counts the food; gives where the heads are.
    #[verifier::rlimit(40)]
    fn fill_from_rows(&mut self, rows: &Vec<Vec<char>>, n: usize) -> (r: Result<[Option<usize>; 4], Error>)
        requires
            old(self).wf(),
            grid_fits(views(rows@)),
            old(self).width == grid_w(views(rows@)),
            old(self).height == grid_h(views(rows@)),
            old(self).cells() == Seq::new(MAX_BOARD_SIZE as nat, |i: int| BoardSquare::Empty),
            old(self).num_food == 0,
            n <= MAX_SNAKES,
        ensures
            r is Ok <==> cells_ok(views(rows@), n as int),
            r matches Err(e) ==> e is BadBoardStr,
            r matches Ok(heads) ==> {
                &&& final(self).wf()
                &&& final(self).width == old(self).width
                &&& final(self).height == old(self).height
                &&& final(self).turn == old(self).turn
                &&& final(self).num_snakes == old(self).num_snakes
                &&& final(self).snakes == old(self).snakes
                &&& final(self).royale_min_x == old(self).royale_min_x
                &&& final(self).royale_max_x == old(self).royale_max_x
                &&& final(self).royale_min_y == old(self).royale_min_y
                &&& final(self).royale_max_y == old(self).royale_max_y
                &&& final(self).num_food == grid_food(views(rows@), final(self).area())
                &&& forall|j: int| 0 <= j < final(self).area() ==> #[trigger] final(self).cells()[j] == sq_at(
                    views(rows@),
                    index_coord(j, final(self).width as int),
                )
                &&& heads_found(views(rows@), heads, final(self).area())
            },
    {
        let ghost g = views(rows@);
        let w = self.width;
        let h = self.height;
        let area = self.len();
        let mut heads: [Option<usize>; 4] = [None, None, None, None];
        let mut food: i32 = 0;
        let mut k: i32 = 0;
        while k < area
            invariant
                self.wf(),
                g == views(rows@),
                grid_fits(g),
                w == self.width == grid_w(g),
                h == self.height == grid_h(g),
                area == w * h,
                n <= MAX_SNAKES,
                0 <= k <= area,
                self.turn == old(self).turn,
                self.num_snakes == old(self).num_snakes,
                self.snakes == old(self).snakes,
                self.royale_min_x == old(self).royale_min_x,
                self.royale_max_x == old(self).royale_max_x,
                self.royale_min_y == old(self).royale_min_y,
                self.royale_max_y == old(self).royale_max_y,
                self.num_food == 0,
                0 <= food <= k,
                food == grid_food(g, k as int),
                forall|j: int| 0 <= j < k ==> #[trigger] self.cells()[j] == sq_at(g, index_coord(j, w as int)),
                forall|j: int| k <= j < MAX_BOARD_SIZE ==> #[trigger] self.cells()[j] == BoardSquare::Empty,
                forall|j: int| 0 <= j < k ==> #[trigger] spec_square_of_char(cell_char(g, index_coord(j, w as int))) is Some,
                forall|j: int| 0 <= j < k && is_head_sq(#[trigger] sq_at(g, index_coord(j, w as int))) ==> head_index(sq_at(g, index_coord(j, w as int))) < n,
                heads_found(g, heads, k as int),
            decreases area - k,
        {
            proof {
                lemma_index_coord(k as int, w as int, h as int);
            }
            let x = k % w;
            let y = k / w;
            let ghost c = index_coord(k as int, w as int);
            assert(c.x == x && c.y == y);
            let row = &rows[(h - 1 - y) as usize];
            assert(row@ == g[h - 1 - y]);
            let ch = row[x as usize];
            assert(ch == cell_char(g, c));
            match square_from_char(ch) {
                None => {
                    proof {
                        assert(in_rows(g, c));
                        assert(spec_square_of_char(cell_char(g, c)) is None);
                    }
                    return Err(Error::BadBoardStr(String::from_str("Invalid board str: unknown square")));
                },
                Some((sq, hidx, _, _)) => {
                    assert(sq == sq_at(g, c));
                    let is_head = match sq {
                        BoardSquare::SnakeHead(_) | BoardSquare::SnakeHeadHazard(_) => true,
                        _ => false,
                    };
                    if is_head {
                        assert(head_index(sq) == hidx);
                        if hidx as usize >= n {
                            assert(in_rows(g, c) && is_head_sq(sq_at(g, c)));
                            return Err(Error::BadBoardStr(String::from_str("Invalid board str: too many snakes")));
                        }
                        match heads[hidx as usize] {
                            Some(j) => {
                                proof {
                                    let d = index_coord(j as int, w as int);
                                    lemma_index_coord(j as int, w as int, h as int);
                                    assert(d != c) by {
                                        if d == c {
                                            assert(crate::board::grid_index(d, w as int) == j);
                                        }
                                    }
                                    assert(in_rows(g, c) && in_rows(g, d) && is_head_sq(sq_at(g, c)) && is_head_sq(sq_at(g, d)));
                                }
                                return Err(Error::BadBoardStr(String::from_str("Invalid board str: snake has two heads")));
                            },
                            None => {},
                        }
                        heads[hidx as usize] = Some(k as usize);
                    }
                    self.set_at_idx(k as usize, sq);
                    if sq_food(sq) {
                        food = food + 1;
                    }
                },
            }
            k = k + 1;
        }
        let ghost before = *self;
        self.num_food = food;
        assert(self.wf()) by {
            assert(self.cells() == before.cells());
        }
        proof {
            lemma_cells_ok_from_indices(g, w as int, h as int, n as int, heads);
        }
        assert(forall|j: int| 0 <= j < self.area() ==> #[trigger] self.cells()[j] == sq_at(g, index_coord(j, self.width as int)));
        Ok(heads)
    }
}

/// What the row-major scan of the squares found holds of every square.
proof fn lemma_cells_ok_from_indices(g: Seq<Seq<char>>, w: int, h: int, n: int, heads: [Option<usize>; 4])
    requires
        grid_fits(g),
        w == grid_w(g),
        h == grid_h(g),
        forall|j: int| 0 <= j < w * h ==> #[trigger] spec_square_of_char(cell_char(g, index_coord(j, w))) is Some,
        forall|j: int| 0 <= j < w * h && is_head_sq(#[trigger] sq_at(g, index_coord(j, w))) ==> head_index(sq_at(g, index_coord(j, w))) < n,
        heads_found(g, heads, w * h),
    ensures
        cells_ok(g, n),
{
    assert forall|c: Coord| in_rows(g, c) implies #[trigger] spec_square_of_char(cell_char(g, c)) is Some by {
        lemma_coord_index(c, w, h);
        let j = crate::board::grid_index(c, w);
        assert(spec_square_of_char(cell_char(g, index_coord(j, w))) is Some);
    }
    assert forall|c: Coord| in_rows(g, c) && is_head_sq(#[trigger] sq_at(g, c)) implies head_index(sq_at(g, c)) < n by {
        lemma_coord_index(c, w, h);
        let j = crate::board::grid_index(c, w);
        assert(is_head_sq(sq_at(g, index_coord(j, w))));
    }
    assert forall|c: Coord, d: Coord|
        in_rows(g, c) && in_rows(g, d) && c != d && is_head_sq(#[trigger] sq_at(g, c)) && is_head_sq(#[trigger] sq_at(g, d))
        implies head_index(sq_at(g, c)) != head_index(sq_at(g, d)) by {
        lemma_coord_index(c, w, h);
        lemma_coord_index(d, w, h);
        let jc = crate::board::grid_index(c, w);
        let jd = crate::board::grid_index(d, w);
        assert(is_head_sq(sq_at(g, index_coord(jc, w))));
        assert(is_head_sq(sq_at(g, index_coord(jd, w))));
    }
}

fn sq_food(sq: BoardSquare) -> (b: bool)
    ensures
        b == sq_is_food(sq),
{
    match sq {
        BoardSquare::Food | BoardSquare::FoodHazard => true,
        _ => false,
    }
}


/// Every body and tail square leads to a head, and no two tails lead to one.
pub open spec fn trails_ok(rows: Seq<Seq<char>>, rules: Rules) -> bool {
    &&& forall|c: Coord| in_rows(rows, c) && is_trail_sq(#[trigger] sq_at(rows, c)) ==> walk_from(rows, rules, c) is Some
    &&& forall|c: Coord, d: Coord|
        in_rows(rows, c) && in_rows(rows, d) && c != d && is_tail_sq(#[trigger] sq_at(rows, c)) && is_tail_sq(#[trigger] sq_at(rows, d))
            ==> walk_owner(rows, rules, c) != walk_owner(rows, rules, d)
}

/// Slot `i` holds the tail of snake `i` with the walk from it, and every tail
/// among the first `k` squares is recorded.
pub open spec fn tails_found(rows: Seq<Seq<char>>, rules: Rules, tails: [Option<(Coord, Coord, u32)>; 4], k: int) -> bool {
    let w = grid_w(rows);
    &&& forall|i: int|
        0 <= i < MAX_SNAKES ==> (#[trigger] tails[i] matches Some((t, hd, len)) ==> {
            &&& in_rows(rows, t)
            &&& crate::board::grid_index(t, w) < k
            &&& is_tail_sq(sq_at(rows, t))
            &&& walk_owner(rows, rules, t) == i
            &&& walk_from(rows, rules, t) == Some((hd, len as nat))
        })
    &&& forall|j: int|
        0 <= j < k && is_tail_sq(#[trigger] sq_at(rows, index_coord(j, w))) ==> (tails[walk_owner(
            rows,
            rules,
            index_coord(j, w),
        )] matches Some((t, _, _)) && t == index_coord(j, w))
}

/// A head reached by a walk is on the board and is a head square.
proof fn lemma_walk_head(rows: Seq<Seq<char>>, rules: Rules, c: Coord, fuel: nat)
    requires
        text_walk(rows, rules, c, fuel) is Some,
    ensures
        (text_walk(rows, rules, c, fuel) matches Some((hd, k)) && in_rows(rows, hd) && is_head_sq(sq_at(rows, hd)) && 1 <= k <= fuel),
    decreases fuel,
{
    let sq = sq_at(rows, c);
    if !is_head_sq(sq) {
        lemma_walk_head(
            rows,
            rules,
            spec_move_to_coord(c, sq_move(sq), rules, grid_w(rows), grid_h(rows)),
            (fuel - 1) as nat,
        );
    }
}

impl Board {
    /// Gives every body and tail square the index of the head its moves lead
    /// to, and finds each snake's tail.
    fn mark_owners(&mut self, rows: &Vec<Vec<char>>, rules: Rules) -> (r: Result<[Option<(Coord, Coord, u32)>; 4], Error>)
        requires
            old(self).wf(),
            grid_fits(views(rows@)),
            squares_read(old(self), views(rows@)),
            cells_ok(views(rows@), MAX_SNAKES as int),
        ensures
            r is Ok <==> trails_ok(views(rows@), rules),
            r matches Err(e) ==> e is BadBoardStr,
            r matches Ok(tails) ==> {
                &&& final(self).wf()
                &&& final(self).same_fields(old(self))
                &&& squares_read(final(self), views(rows@))
                &&& forall|c: Coord| in_rows(views(rows@), c) && !is_trail_sq(#[trigger] final(self).square(c)) ==> final(self).square(c) == old(self).square(c)
                &&& forall|c: Coord| in_rows(views(rows@), c) && is_trail_sq(#[trigger] final(self).square(c)) ==> sq_owner(final(self).square(c)) == Some(
                    walk_owner(views(rows@), rules, c) as u8,
                )
                &&& tails_found(views(rows@), rules, tails, final(self).area())
            },
    {
        let ghost g = views(rows@);
        let w = self.width;
        let h = self.height;
        let area = self.len();
        let mut tails: [Option<(Coord, Coord, u32)>; 4] = [None, None, None, None];
        let mut k: i32 = 0;
        while k < area
            invariant
                self.wf(),
                g == views(rows@),
                grid_fits(g),
                cells_ok(g, MAX_SNAKES as int),
                w == self.width == grid_w(g),
                h == self.height == grid_h(g),
                area == w * h,
                0 <= k <= area,
                self.same_fields(old(self)),
                squares_read(self, g),
                forall|c: Coord| in_rows(g, c) && !is_trail_sq(#[trigger] self.square(c)) ==> self.square(c) == old(self).square(c),
                forall|c: Coord| in_rows(g, c) && crate::board::grid_index(c, w as int) >= k ==> #[trigger] self.square(c) == old(self).square(c),
                forall|c: Coord| in_rows(g, c) && crate::board::grid_index(c, w as int) < k && is_trail_sq(#[trigger] self.square(c)) ==> sq_owner(self.square(c)) == Some(
                    walk_owner(g, rules, c) as u8,
                ),
                forall|c: Coord| in_rows(g, c) && crate::board::grid_index(c, w as int) < k && is_trail_sq(#[trigger] sq_at(g, c)) ==> walk_from(g, rules, c) is Some,
                tails_found(g, rules, tails, k as int),
            decreases area - k,
        {
            proof {
                lemma_index_coord(k as int, w as int, h as int);
            }
            let ghost tails0 = tails;
            let c = self.coord_from_idx(k as usize);
            assert(c == index_coord(k as int, w as int));
            proof {
                lemma_coord_index(c, w as int, h as int);
            }
            let sq = self.at(c);
            assert(sq == old(self).square(c));
            let trail = match sq {
                BoardSquare::SnakeBody(_, _) | BoardSquare::SnakeBodyHazard(_, _)
                | BoardSquare::SnakeTail(_, _) | BoardSquare::SnakeTailHazard(_, _) => true,
                _ => false,
            };
            assert(is_trail_sq(sq) == is_trail_sq(sq_at(g, c)));
            if trail {
                match self.follow_text(rows, rules, c) {
                    None => {
                        return Err(Error::BadBoardStr(String::from_str("Invalid board str: snake body does not lead to a head")));
                    },
                    Some((hd, len)) => {
                        proof {
                            lemma_walk_head(g, rules, c, (w * h) as nat);
                            assert(walk_head(g, rules, c) == hd);
                        }
                        let head_sq = self.at(hd);
                        assert(text_square(head_sq) == sq_at(g, hd));
                        let owner: u8 = match head_sq {
                            BoardSquare::SnakeHead(i) | BoardSquare::SnakeHeadHazard(i) => i,
                            _ => 0,
                        };
                        assert(owner as int == walk_owner(g, rules, c));
                        let is_tail = match sq {
                            BoardSquare::SnakeTail(_, _) | BoardSquare::SnakeTailHazard(_, _) => true,
                            _ => false,
                        };
                        if is_tail {
                            match tails[owner as usize] {
                                Some((t, _, _)) => {
                                    proof {
                                        assert(in_rows(g, t) && in_rows(g, c) && is_tail_sq(sq_at(g, t)) && is_tail_sq(sq_at(g, c)));
                                        assert(t != c);
                                    }
                                    return Err(Error::BadBoardStr(String::from_str("Invalid board str: snake has two tails")));
                                },
                                None => {},
                            }
                            tails[owner as usize] = Some((c, hd, len));
                        }
                        let ghost prev = *self;
                        let new_sq = with_owner(sq, owner);
                        self.set_at(c, new_sq);
                        proof {
                            assert forall|d: Coord| in_rows(g, d) && d != c implies #[trigger] self.square(d) == prev.square(d) by {
                                lemma_coord_index(d, w as int, h as int);
                                crate::board::lemma_grid_index_injective(d, c, w as int, h as int);
                            }
                        }
                    },
                }
            }
            assert(forall|i: int| 0 <= i < MAX_SNAKES && (#[trigger] tails0[i]) is Some ==> tails[i] == tails0[i]);
            proof {
                assert forall|j: int|
                    0 <= j < k + 1 && is_tail_sq(#[trigger] sq_at(g, index_coord(j, w as int))) implies (tails[walk_owner(
                    g,
                    rules,
                    index_coord(j, w as int),
                )] matches Some((t, _, _)) && t == index_coord(j, w as int)) by {
                    if j == k {
                        assert(index_coord(j, w as int) == c);
                    } else {
                        let d = index_coord(j, w as int);
                        lemma_index_coord(j, w as int, h as int);
                        assert(is_trail_sq(sq_at(g, d)));
                        assert(walk_from(g, rules, d) is Some);
                        lemma_walk_head(g, rules, d, (w * h) as nat);
                        assert(is_head_sq(sq_at(g, walk_head(g, rules, d))));
                        let o = walk_owner(g, rules, d);
                        assert(0 <= o < MAX_SNAKES);
                        assert(tails0[o] is Some);
                        assert(tails[o] == tails0[o]);
                    }
                }
                assert forall|i: int|
                    0 <= i < MAX_SNAKES implies (#[trigger] tails[i] matches Some((t, hd, len)) ==> {
                        &&& in_rows(g, t)
                        &&& crate::board::grid_index(t, w as int) < k + 1
                        &&& is_tail_sq(sq_at(g, t))
                        &&& walk_owner(g, rules, t) == i
                        &&& walk_from(g, rules, t) == Some((hd, len as nat))
                    }) by {
                }
                assert forall|d: Coord| in_rows(g, d) && crate::board::grid_index(d, w as int) < k + 1 && is_trail_sq(#[trigger] self.square(d)) implies sq_owner(self.square(d)) == Some(
                    walk_owner(g, rules, d) as u8,
                ) by {
                    if d != c {
                        lemma_coord_index(d, w as int, h as int);
                        crate::board::lemma_grid_index_injective(d, c, w as int, h as int);
                    }
                }
                assert forall|d: Coord| in_rows(g, d) && crate::board::grid_index(d, w as int) < k + 1 && is_trail_sq(#[trigger] sq_at(g, d)) implies walk_from(g, rules, d) is Some by {
                    if d != c {
                        lemma_coord_index(d, w as int, h as int);
                        crate::board::lemma_grid_index_injective(d, c, w as int, h as int);
                    }
                }
            }
            k = k + 1;
        }
        proof {
            assert forall|d: Coord| in_rows(g, d) && is_trail_sq(#[trigger] self.square(d)) implies sq_owner(self.square(d)) == Some(
                walk_owner(g, rules, d) as u8,
            ) by {
                lemma_coord_index(d, w as int, h as int);
            }
            assert forall|d: Coord| in_rows(g, d) && is_trail_sq(#[trigger] sq_at(g, d)) implies walk_from(g, rules, d) is Some by {
                lemma_coord_index(d, w as int, h as int);
            }
            assert forall|d: Coord, e: Coord|
                in_rows(g, d) && in_rows(g, e) && d != e && is_tail_sq(#[trigger] sq_at(g, d)) && is_tail_sq(#[trigger] sq_at(g, e))
                implies walk_owner(g, rules, d) != walk_owner(g, rules, e) by {
                lemma_coord_index(d, w as int, h as int);
                lemma_coord_index(e, w as int, h as int);
                let jd = crate::board::grid_index(d, w as int);
                let je = crate::board::grid_index(e, w as int);
                assert(is_tail_sq(sq_at(g, index_coord(jd, w as int))));
                assert(is_tail_sq(sq_at(g, index_coord(je, w as int))));
            }
        }
        Ok(tails)
    }
}


/// Every snake with health has a head in the text.
pub open spec fn heads_present(rows: Seq<Seq<char>>, healths: Seq<i32>) -> bool {
    forall|i: int| 0 <= i < healths.len() && #[trigger] healths[i] > 0 ==> head_cell(rows, i) is Some
}

impl Board {
    /// Fills the snake slots from the tails and heads found in the text: a snake
    /// with a tail has the body its walk describes, a snake with health and only a
    /// head is three segments on its head, any other snake has no body.
    fn snakes_from_rows(
        &mut self,
        rows: &Vec<Vec<char>>,
        rules: Rules,
        healths: &Vec<i32>,
        heads: [Option<usize>; 4],
        tails: [Option<(Coord, Coord, u32)>; 4],
    ) -> (r: Result<(), Error>)
        requires
            old(self).wf(),
            grid_fits(views(rows@)),
            squares_read(old(self), views(rows@)),
            cells_ok(views(rows@), healths@.len() as int),
            healths@.len() <= MAX_SNAKES,
            heads_found(views(rows@), heads, old(self).area()),
            tails_found(views(rows@), rules, tails, old(self).area()),
            forall|i: int| 0 <= i < MAX_SNAKES ==> #[trigger] old(self).snakes[i] == crate::board::empty_snake(),
        ensures
            r is Ok <==> heads_present(views(rows@), healths@),
            r matches Err(e) ==> e is BadBoardStr,
            r is Ok ==> {
                &&& final(self).wf()
                &&& final(self).cells() == old(self).cells()
                &&& final(self).width == old(self).width
                &&& final(self).height == old(self).height
                &&& final(self).turn == old(self).turn
                &&& final(self).num_snakes == old(self).num_snakes
                &&& final(self).num_food == old(self).num_food
                &&& final(self).royale_min_x == old(self).royale_min_x
                &&& final(self).royale_max_x == old(self).royale_max_x
                &&& final(self).royale_min_y == old(self).royale_min_y
                &&& final(self).royale_max_y == old(self).royale_max_y
                &&& forall|i: int| 0 <= i < MAX_SNAKES ==> #[trigger] snake_from_text(
                    final(self).snakes[i],
                    views(rows@),
                    rules,
                    healths@,
                    i,
                )
            },
    {
        let ghost g = views(rows@);
        let w = self.width;
        let h = self.height;
        let n = healths.len();
        let mut i: usize = 0;
        while i < n
            invariant
                self.wf(),
                g == views(rows@),
                grid_fits(g),
                squares_read(self, g),
                cells_ok(g, n as int),
                n == healths@.len() <= MAX_SNAKES,
                w == self.width,
                h == self.height,
                heads_found(g, heads, self.area()),
                tails_found(g, rules, tails, self.area()),
                self.cells() == old(self).cells(),
                self.width == old(self).width,
                self.height == old(self).height,
                self.turn == old(self).turn,
                self.num_snakes == old(self).num_snakes,
                self.num_food == old(self).num_food,
                self.royale_min_x == old(self).royale_min_x,
                self.royale_max_x == old(self).royale_max_x,
                self.royale_min_y == old(self).royale_min_y,
                self.royale_max_y == old(self).royale_max_y,
                i <= n,
                forall|j: int| 0 <= j < i ==> #[trigger] snake_from_text(self.snakes[j], g, rules, healths@, j),
                forall|j: int| 0 <= j < i && #[trigger] healths@[j] > 0 ==> head_cell(g, j) is Some,
                forall|j: int| i <= j < MAX_SNAKES ==> #[trigger] self.snakes[j] == crate::board::empty_snake(),
            decreases n - i,
        {
            let mut sn = self.snakes[i];
            sn.health = healths[i];
            match tails[i] {
                Some((t, hd, len)) => {
                    proof {
                        lemma_walk_head(g, rules, t, (w * h) as nat);
                        lemma_tail_cell(g, rules, tails, i as int);
                    }
                    let ch = rows[(h - 1 - t.y as i32) as usize][t.x as usize];
                    assert(ch == cell_char(g, t));
                    let stacked: i32 = match square_from_char(ch) {
                        Some((_, _, st, _)) => st,
                        None => 0,
                    };
                    assert(stacked == cell_stacked(g, t));
                    assert(0 <= stacked <= 1);
                    sn.tail = t;
                    sn.head = hd;
                    sn.num_stacked = stacked;
                    sn.len = len as i32 + stacked;
                    proof {
                        lemma_head_cell_of_walk(g, rules, heads, t, self.area());
                    }
                },
                None => {
                    proof {
                        lemma_no_tail_cell(g, rules, tails, i as int);
                    }
                    match heads[i] {
                        Some(j) => {
                            proof {
                                lemma_head_cell(g, heads, i as int, self.area());
                            }
                            if healths[i] > 0 {
                                let hc = self.coord_from_idx(j);
                                proof {
                                    lemma_index_coord(j as int, w as int, h as int);
                                }
                                sn.head = hc;
                                sn.tail = hc;
                                sn.num_stacked = 2;
                                sn.len = 3;
                            }
                        },
                        None => {
                            proof {
                                lemma_no_head_cell(g, heads, i as int, self.area());
                            }
                            if healths[i] > 0 {
                                return Err(Error::BadBoardStr(String::from_str("Board was missing snakes from header")));
                            }
                        },
                    }
                },
            }
            let ghost prev = *self;
            self.set_snake(i, sn);
            assert forall|c: Coord| in_rows(g, c) implies text_square(#[trigger] self.square(c)) == sq_at(g, c) by {
                assert(self.square(c) == prev.square(c));
            }
            assert forall|j: int| 0 <= j < i + 1 implies #[trigger] snake_from_text(self.snakes[j], g, rules, healths@, j) by {
                if j < i {
                    assert(self.snakes[j] == prev.snakes[j]);
                }
            }
            assert forall|j: int| i + 1 <= j < MAX_SNAKES implies #[trigger] self.snakes[j] == crate::board::empty_snake() by {
                assert(self.snakes[j] == prev.snakes[j]);
            }
            i = i + 1;
        }
        Ok(())
    }
}

/// The tail recorded for snake `i` is the tail of snake `i` in the text.
proof fn lemma_tail_cell(rows: Seq<Seq<char>>, rules: Rules, tails: [Option<(Coord, Coord, u32)>; 4], i: int)
    requires
        grid_fits(rows),
        0 <= i < MAX_SNAKES,
        tails_found(rows, rules, tails, grid_w(rows) * grid_h(rows)),
        tails[i] is Some,
    ensures
        tails[i] matches Some((t, _, _)) && tail_cell(rows, rules, i) == Some(t),
{
    let t = match tails[i] {
        Some((t, _, _)) => t,
        None => Coord { x: 0, y: 0 },
    };
    let w = grid_w(rows);
    let h = grid_h(rows);
    assert(in_rows(rows, t) && is_tail_sq(sq_at(rows, t)) && walk_owner(rows, rules, t) == i);
    let c = choose|c: Coord| in_rows(rows, c) && is_tail_sq(sq_at(rows, c)) && walk_owner(rows, rules, c) == i;
    lemma_coord_index(c, w, h);
    let j = crate::board::grid_index(c, w);
    assert(is_tail_sq(sq_at(rows, index_coord(j, w))));
}

/// Without a recorded tail, snake `i` has no tail in the text.
proof fn lemma_no_tail_cell(rows: Seq<Seq<char>>, rules: Rules, tails: [Option<(Coord, Coord, u32)>; 4], i: int)
    requires
        grid_fits(rows),
        0 <= i < MAX_SNAKES,
        tails_found(rows, rules, tails, grid_w(rows) * grid_h(rows)),
        tails[i] is None,
    ensures
        tail_cell(rows, rules, i) is None,
{
    let w = grid_w(rows);
    let h = grid_h(rows);
    if exists|c: Coord| in_rows(rows, c) && is_tail_sq(sq_at(rows, c)) && walk_owner(rows, rules, c) == i {
        let c = choose|c: Coord| in_rows(rows, c) && is_tail_sq(sq_at(rows, c)) && walk_owner(rows, rules, c) == i;
        lemma_coord_index(c, w, h);
        let j = crate::board::grid_index(c, w);
        assert(is_tail_sq(sq_at(rows, index_coord(j, w))));
    }
}

/// The head recorded for snake `i` is the head of snake `i` in the text.
proof fn lemma_head_cell(rows: Seq<Seq<char>>, heads: [Option<usize>; 4], i: int, area: int)
    requires
        grid_fits(rows),
        area == grid_w(rows) * grid_h(rows),
        0 <= i < MAX_SNAKES,
        heads_found(rows, heads, area),
        heads[i] is Some,
    ensures
        heads[i] matches Some(j) && j < area && head_cell(rows, i) == Some(index_coord(j as int, grid_w(rows))),
{
    let j = heads[i]->0 as int;
    let w = grid_w(rows);
    let h = grid_h(rows);
    lemma_index_coord(j, w, h);
    let d = index_coord(j, w);
    assert(in_rows(rows, d) && is_head_sq(sq_at(rows, d)) && head_index(sq_at(rows, d)) == i);
    let c = choose|c: Coord| in_rows(rows, c) && is_head_sq(sq_at(rows, c)) && head_index(sq_at(rows, c)) == i;
    lemma_coord_index(c, w, h);
    let k = crate::board::grid_index(c, w);
    assert(is_head_sq(sq_at(rows, index_coord(k, w))));
}

/// Without a recorded head, snake `i` has no head in the text.
proof fn lemma_no_head_cell(rows: Seq<Seq<char>>, heads: [Option<usize>; 4], i: int, area: int)
    requires
        grid_fits(rows),
        area == grid_w(rows) * grid_h(rows),
        0 <= i < MAX_SNAKES,
        heads_found(rows, heads, area),
        heads[i] is None,
    ensures
        head_cell(rows, i) is None,
{
    let w = grid_w(rows);
    let h = grid_h(rows);
    if exists|c: Coord| in_rows(rows, c) && is_head_sq(sq_at(rows, c)) && head_index(sq_at(rows, c)) == i {
        let c = choose|c: Coord| in_rows(rows, c) && is_head_sq(sq_at(rows, c)) && head_index(sq_at(rows, c)) == i;
        lemma_coord_index(c, w, h);
        let k = crate::board::grid_index(c, w);
        assert(is_head_sq(sq_at(rows, index_coord(k, w))));
    }
}

/// The head that a tail's walk reaches is the head of its snake.
proof fn lemma_head_cell_of_walk(rows: Seq<Seq<char>>, rules: Rules, heads: [Option<usize>; 4], t: Coord, area: int)
    requires
        grid_fits(rows),
        area == grid_w(rows) * grid_h(rows),
        heads_found(rows, heads, area),
        cells_ok(rows, MAX_SNAKES as int),
        walk_from(rows, rules, t) is Some,
    ensures
        head_cell(rows, walk_owner(rows, rules, t)) == Some(walk_head(rows, rules, t)),
{
    let w = grid_w(rows);
    let h = grid_h(rows);
    lemma_walk_head(rows, rules, t, (w * h) as nat);
    let hd = walk_head(rows, rules, t);
    lemma_coord_index(hd, w, h);
    let j = crate::board::grid_index(hd, w);
    assert(is_head_sq(sq_at(rows, index_coord(j, w))));
    let i = head_index(sq_at(rows, hd));
    assert(0 <= i < MAX_SNAKES);
    lemma_head_cell(rows, heads, i, area);
}


/// The royale bounds as `set_royale` leaves them: from each side, past every
/// line that lies wholly in a hazard (columns for x, rows for y).
pub open spec fn royale_marked(b: &Board) -> bool {
    &&& 0 <= b.royale_min_x <= b.width
    &&& forall|x: int| 0 <= x < b.royale_min_x ==> #[trigger] b.line_hazard(true, x)
    &&& b.royale_min_x < b.width ==> !b.line_hazard(true, b.royale_min_x as int)
    &&& -1 <= b.royale_max_x < b.width
    &&& forall|x: int| b.royale_max_x < x < b.width ==> #[trigger] b.line_hazard(true, x)
    &&& b.royale_max_x >= 0 ==> !b.line_hazard(true, b.royale_max_x as int)
    &&& 0 <= b.royale_min_y <= b.height
    &&& forall|y: int| 0 <= y < b.royale_min_y ==> #[trigger] b.line_hazard(false, y)
    &&& b.royale_min_y < b.height ==> !b.line_hazard(false, b.royale_min_y as int)
    &&& -1 <= b.royale_max_y < b.height
    &&& forall|y: int| b.royale_max_y < y < b.height ==> #[trigger] b.line_hazard(false, y)
    &&& b.royale_max_y >= 0 ==> !b.line_hazard(false, b.royale_max_y as int)
}

/// The royale bounds of a board read on a map: marked on the royale map, zero
/// on the others.
pub open spec fn royale_read(b: &Board, map: GameMap) -> bool {
    if map is Royale {
        royale_marked(b)
    } else {
        b.royale_min_x == 0 && b.royale_max_x == 0 && b.royale_min_y == 0 && b.royale_max_y == 0
    }
}

impl Board {
    /// The board that rows of text describe (top row first, spaces removed),
    /// with the given turn and snake healths. Rows that are not all of one
    /// width, unknown characters, head indices past the snakes or used twice,
    /// bodies that do not lead to a head, two tails for one head, and a snake
    /// with health but no head are refused.
    pub fn from_grid(turn: i32, healths: &Vec<i32>, rows: &Vec<Vec<char>>, game: &Game) -> (r: Result<Board, Error>)
        ensures
            r is Ok <==> grid_ok(views(rows@), healths@, game.ruleset),
            r matches Err(e) ==> e is BadBoardStr,
            r matches Ok(b) ==> grid_board(&b, turn, healths@, views(rows@), game.ruleset) && royale_read(
                &b,
                game.api.map,
            ),
    {
        let ghost g = views(rows@);
        let rules = game.ruleset;
        let h = rows.len();
        if h == 0 {
            return Err(Error::BadBoardStr(String::from_str("Invalid board str: no rows")));
        }
        let w = rows[0].len();
        assert(w == grid_w(g));
        if w == 0 {
            return Err(Error::BadBoardStr(String::from_str("Invalid board str: empty row")));
        }
        let mut r: usize = 0;
        while r < h
            invariant
                g == views(rows@),
                h == rows@.len(),
                w == grid_w(g),
                r <= h,
                forall|q: int| 0 <= q < r ==> #[trigger] g[q].len() == w,
            decreases h - r,
        {
            if rows[r].len() != w {
                assert(g[r as int].len() != grid_w(g));
                return Err(Error::BadBoardStr(String::from_str("Invalid board str, board width not consistent")));
            }
            r = r + 1;
        }
        let too_big = if w > MAX_BOARD_SIZE || h > MAX_BOARD_SIZE {
            true
        } else {
            assert(w * h <= MAX_BOARD_SIZE * MAX_BOARD_SIZE) by (nonlinear_arith)
                requires
                    w <= MAX_BOARD_SIZE,
                    h <= MAX_BOARD_SIZE,
            ;
            w * h > MAX_BOARD_SIZE
        };
        if too_big {
            proof {
                if w <= MAX_BOARD_SIZE && h <= MAX_BOARD_SIZE {
                    assert(grid_w(g) * grid_h(g) > MAX_BOARD_SIZE);
                } else if w > MAX_BOARD_SIZE {
                    assert(grid_w(g) * grid_h(g) > MAX_BOARD_SIZE) by (nonlinear_arith)
                        requires
                            grid_w(g) > MAX_BOARD_SIZE,
                            grid_h(g) >= 1,
                    ;
                } else {
                    assert(grid_w(g) * grid_h(g) > MAX_BOARD_SIZE) by (nonlinear_arith)
                        requires
                            grid_h(g) > MAX_BOARD_SIZE,
                            grid_w(g) >= 1,
                    ;
                }
            }
            return Err(Error::BadBoardStr(String::from_str("Invalid board str: board too large")));
        }
        assert(grid_fits(g));
        let n = healths.len();
        if n > MAX_SNAKES {
            return Err(Error::BadBoardStr(String::from_str("Invalid board str: too many snakes")));
        }
        let mut board = Board::new(w as i32, h as i32);
        board.turn = turn;
        board.num_snakes = n as i32;
        let heads = board.fill_from_rows(rows, n)?;
        proof {
            assert forall|c: Coord| in_rows(g, c) implies text_square(#[trigger] board.square(c)) == sq_at(g, c) by {
                lemma_coord_index(c, w as int, h as int);
                let j = crate::board::grid_index(c, w as int);
                assert(board.cells()[j] == sq_at(g, index_coord(j, w as int)));
                crate::util::lemma_text_square_of_char(cell_char(g, c));
            }
        }
        let ghost filled = board;
        let tails = board.mark_owners(rows, rules)?;
        let ghost owned = board;
        board.snakes_from_rows(rows, rules, healths, heads, tails)?;
        let ghost marked = board;
        proof {
            assert forall|c: Coord| in_rows(g, c) && is_trail_sq(#[trigger] board.square(c)) implies sq_owner(board.square(c)) == Some(
                walk_owner(g, rules, c) as u8,
            ) by {
                assert(board.square(c) == marked.square(c));
                assert(marked.square(c) == owned.square(c));
            }
        }
        if let GameMap::Royale = game.api.map {
            board.set_royale();
        }
        proof {
            assert forall|c: Coord| in_rows(g, c) implies text_square(#[trigger] board.square(c)) == sq_at(g, c) by {
                assert(board.square(c) == marked.square(c));
                assert(marked.square(c) == owned.square(c));
            }
            assert forall|c: Coord| in_rows(g, c) && is_trail_sq(#[trigger] board.square(c)) implies sq_owner(board.square(c)) == Some(
                walk_owner(g, rules, c) as u8,
            ) by {
                assert(board.square(c) == marked.square(c));
            }
        }
        Ok(board)
    }
}


pub open spec fn turn_word() -> Seq<char> {
    seq!['t', 'u', 'r', 'n', ':']
}

pub open spec fn health_word() -> Seq<char> {
    seq!['h', 'e', 'a', 'l', 't', 'h', ':']
}

/// The value of an integer that parsed, 0 for one that did not.
pub open spec fn int_value(v: Option<int>) -> i32 {
    match v {
        Some(i) => i as i32,
        None => 0,
    }
}

/// Snake `k` (counting from 1) of a header: the word `health:` and a number.
pub open spec fn health_pair_ok(ws: Seq<Seq<char>>, k: int) -> bool {
    ws[2 * k] == health_word() && parse_int(ws[2 * k + 1]) is Some
}

/// The words of a board header: `turn:` and a number, then for each snake
/// `health:` and a number.
pub open spec fn header_ok(ws: Seq<Seq<char>>) -> bool {
    &&& ws.len() >= 4
    &&& ws.len() % 2 == 0
    &&& ws[0] == turn_word()
    &&& parse_int(ws[1]) is Some
    &&& forall|k: int| 1 <= k < ws.len() / 2 ==> #[trigger] health_pair_ok(ws, k)
}

pub open spec fn header_turn(ws: Seq<Seq<char>>) -> i32 {
    int_value(parse_int(ws[1]))
}

pub open spec fn header_healths(ws: Seq<Seq<char>>) -> Seq<i32> {
    Seq::new((ws.len() / 2 - 1) as nat, |k: int| int_value(parse_int(ws[2 * k + 3])))
}

/// The rows of the board below the header line, without their spaces.
pub open spec fn text_rows(ls: Seq<Seq<char>>) -> Seq<Seq<char>> {
    Seq::new((ls.len() - 1) as nat, |i: int| squeeze(ls[i + 1]))
}

/// A text that describes a board: a header line and rows that describe a board.
pub open spec fn text_ok(s: Seq<char>, rules: Rules) -> bool {
    let ls = text_lines(split_lines(s));
    &&& ls.len() >= 1
    &&& header_ok(words(ls[0]))
    &&& grid_ok(text_rows(ls), header_healths(words(ls[0])), rules)
}

/// The board that a text describes.
pub open spec fn text_board(b: &Board, s: Seq<char>, game: &Game) -> bool {
    let ls = text_lines(split_lines(s));
    let ws = words(ls[0]);
    &&& grid_board(b, header_turn(ws), header_healths(ws), text_rows(ls), game.ruleset)
    &&& royale_read(b, game.api.map)
}

fn same_word(v: &Vec<char>, lit: &str) -> (b: bool)
    ensures
        b == (v@ == lit@),
{
    let n = lit.unicode_len();
    if v.len() != n {
        return false;
    }
    let mut i: usize = 0;
    while i < n
        invariant
            n == lit@.len() == v@.len(),
            i <= n,
            forall|j: int| 0 <= j < i ==> v@[j] == lit@[j],
        decreases n - i,
    {
        if v[i] != lit.get_char(i) {
            return false;
        }
        i = i + 1;
    }
    assert(v@ =~= lit@);
    true
}

/// Reads a board header: the turn and the healths of the snakes.
pub fn parse_header(ws: &Vec<Vec<char>>) -> (r: Result<(i32, Vec<i32>), Error>)
    ensures
        r is Ok <==> header_ok(views(ws@)),
        r matches Err(e) ==> e is BadBoardStr,
        r matches Ok((turn, healths)) ==> turn == header_turn(views(ws@)) && healths@ == header_healths(
            views(ws@),
        ),
{
    let ghost g = views(ws@);
    let n = ws.len();
    if n < 4 || n % 2 != 0 {
        return Err(Error::BadBoardStr(String::from_str("Invalid board str header")));
    }
    proof {
        reveal_strlit("turn:");
        reveal_strlit("health:");
        assert("turn:"@ =~= turn_word());
        assert("health:"@ =~= health_word());
        assert(g[0] == ws@[0]@);
        assert(g[1] == ws@[1]@);
    }
    if !same_word(&ws[0], "turn:") {
        assert(g[0] != turn_word());
        return Err(Error::BadBoardStr(String::from_str("Invalid board str header: turn field")));
    }
    let turn = match read_int(&ws[1]) {
        Ok(t) => t,
        Err(e) => {
            return Err(e);
        },
    };
    let mut healths: Vec<i32> = Vec::new();
    let mut k: usize = 1;
    while k < n / 2
        invariant
            g == views(ws@),
            n == ws@.len(),
            n >= 4,
            n % 2 == 0,
            1 <= k <= n / 2,
            healths@.len() == k - 1,
            forall|q: int| 1 <= q < k ==> #[trigger] health_pair_ok(g, q),
            forall|q: int| 0 <= q < k - 1 ==> healths@[q] == int_value(parse_int(g[2 * q + 3])),
        decreases n / 2 - k,
    {
        proof {
            reveal_strlit("health:");
            assert("health:"@ =~= health_word());
            assert(g[2 * k] == ws@[2 * k as int]@);
            assert(g[2 * k + 1] == ws@[2 * k + 1]@);
        }
        if !same_word(&ws[2 * k], "health:") {
            assert(!health_pair_ok(g, k as int));
            return Err(Error::BadBoardStr(String::from_str("Invalid board str header: health field")));
        }
        match read_int(&ws[2 * k + 1]) {
            Ok(v) => {
                healths.push(v);
            },
            Err(e) => {
                assert(!health_pair_ok(g, k as int));
                return Err(e);
            },
        }
        assert(health_pair_ok(g, k as int));
        k = k + 1;
    }
    assert(healths@ =~= header_healths(g));
    Ok((turn, healths))
}

impl Board {
    /// Reads a board from its text: a header line `turn: T health: H ...` with
    /// one health per snake, then the rows of the board from the top, one
    /// character per square. Lines of spaces are skipped. Text that does not
    /// describe a board is refused with `BadBoardStr`.
    pub fn from_str(board_str: &str, game: &Game) -> (r: Result<Board, Error>)
        ensures
            r is Ok <==> text_ok(board_str@, game.ruleset),
            r matches Err(e) ==> e is BadBoardStr,
            r matches Ok(b) ==> text_board(&b, board_str@, game),
    {
        let chars = text_chars(board_str);
        let lines = lines_with_text(&chars);
        let ghost ls = views(lines@);
        if lines.len() == 0 {
            return Err(Error::BadBoardStr(String::from_str("Invalid board str: empty")));
        }
        let ws = split_words(&lines[0]);
        assert(views(ws@) == words(ls[0]));
        let (turn, healths) = parse_header(&ws)?;
        let mut rows: Vec<Vec<char>> = Vec::new();
        let mut k: usize = 1;
        while k < lines.len()
            invariant
                ls == views(lines@),
                1 <= k <= lines@.len(),
                views(rows@) =~= text_rows(ls).subrange(0, k - 1),
            decreases lines@.len() - k,
        {
            let row = squeeze_spaces(&lines[k]);
            let ghost prev = views(rows@);
            rows.push(row);
            assert(views(rows@) =~= prev.push(squeeze(ls[k as int])));
            k = k + 1;
        }
        assert(views(rows@) =~= text_rows(ls));
        Board::from_grid(turn, &healths, &rows, game)
    }
}


/// The decimal digit for `d < 10`.
pub open spec fn digit_of(d: int) -> char {
    ('0' as int + d) as char
}

/// The decimal text of a natural number.
pub open spec fn nat_text(n: nat) -> Seq<char>
    decreases n,
{
    if n < 10 {
        seq![digit_of(n as int)]
    } else {
        nat_text(n / 10).push(digit_of(n as int % 10))
    }
}

/// The decimal text of an integer, with a minus sign when it is negative.
pub open spec fn int_text(i: int) -> Seq<char> {
    if i < 0 {
        seq!['-'] + nat_text((-i) as nat)
    } else {
        nat_text(i as nat)
    }
}

proof fn lemma_nat_text_digits(n: nat)
    ensures
        digits_value(nat_text(n)) == Some(n as int),
        nat_text(n).len() >= 1,
        '0' <= nat_text(n)[0] <= '9',
    decreases n,
{
    if n >= 10 {
        lemma_nat_text_digits(n / 10);
        let s = nat_text(n);
        assert(s.drop_last() =~= nat_text(n / 10));
    }
}

/// Reading back the decimal text of an `i32` gives the number.
pub proof fn lemma_int_text_round_trip(i: i32)
    ensures
        parse_int(int_text(i as int)) == Some(i as int),
{
    if i < 0 {
        lemma_nat_text_digits((-i) as nat);
        let s = int_text(i as int);
        assert(s.drop_first() =~= nat_text((-i) as nat));
    } else {
        lemma_nat_text_digits(i as nat);
    }
}

fn push_nat(out: &mut Vec<char>, n: u32)
    ensures
        final(out)@ == old(out)@ + nat_text(n as nat),
    decreases n,
{
    if n >= 10 {
        push_nat(out, n / 10);
    }
    let d = n % 10;
    let c = digit_char_of(d);
    let ghost mid = out@;
    out.push(c);
    proof {
        if n >= 10 {
            assert(out@ =~= old(out)@ + nat_text(n as nat));
        } else {
            assert(out@ =~= old(out)@ + nat_text(n as nat));
        }
    }
}

fn digit_char_of(d: u32) -> (c: char)
    requires
        d < 10,
    ensures
        c == digit_of(d as int),
{
    let digits = ['0', '1', '2', '3', '4', '5', '6', '7', '8', '9'];
    proof {
        assert(digits@ == seq!['0', '1', '2', '3', '4', '5', '6', '7', '8', '9']);
    }
    digits[d as usize]
}

fn push_int(out: &mut Vec<char>, v: i32)
    ensures
        final(out)@ == old(out)@ + int_text(v as int),
{
    if v < 0 {
        out.push('-');
        let ghost mid = out@;
        let m: u32 = (-(v as i64)) as u32;
        push_nat(out, m);
        assert(out@ =~= old(out)@ + int_text(v as int));
    } else {
        push_nat(out, v as u32);
    }
}

fn push_text(out: &mut Vec<char>, lit: &str)
    ensures
        final(out)@ == old(out)@ + lit@,
{
    let n = lit.unicode_len();
    let mut i: usize = 0;
    while i < n
        invariant
            n == lit@.len(),
            i <= n,
            out@ == old(out)@ + lit@.subrange(0, i as int),
        decreases n - i,
    {
        out.push(lit.get_char(i));
        i = i + 1;
        assert(out@ =~= old(out)@ + lit@.subrange(0, i as int));
    }
    assert(lit@.subrange(0, n as int) =~= lit@);
}

/// The character of the square at `c`: a tail shows whether segments are
/// stacked on it.
pub open spec fn square_char(b: &Board, c: Coord) -> char {
    let sq = b.square(c);
    let stacked = match sq {
        BoardSquare::SnakeTail(i, _) => b.snakes[i as int].num_stacked,
        BoardSquare::SnakeTailHazard(i, _) => b.snakes[i as int].num_stacked,
        _ => 0,
    };
    spec_char_of_square(sq, stacked)
}

/// The first `n` squares of row `y`, each followed by a space.
pub open spec fn row_text(b: &Board, y: int, n: int) -> Seq<char>
    decreases n,
{
    if n <= 0 {
        Seq::empty()
    } else {
        row_text(b, y, n - 1) + seq![square_char(b, Coord { x: (n - 1) as i8, y: y as i8 }), ' ']
    }
}

/// The top `k` rows, each but the bottom row ending in a line break.
pub open spec fn rows_text(b: &Board, k: int) -> Seq<char>
    decreases k,
{
    if k <= 0 {
        Seq::empty()
    } else {
        let y = b.height - k;
        rows_text(b, k - 1) + row_text(b, y, b.width as int) + if y != 0 {
            seq!['\n']
        } else {
            Seq::empty()
        }
    }
}

/// `health: H ` for each of the first `n` snakes.
pub open spec fn healths_text(b: &Board, n: int) -> Seq<char>
    decreases n,
{
    if n <= 0 {
        Seq::empty()
    } else {
        healths_text(b, n - 1) + health_word() + seq![' '] + int_text(b.snakes[n - 1].health as int)
            + seq![' ']
    }
}

/// The text of a board: the header `turn: T health: H ...`, then the rows from
/// the top, one character and a space per square, and a final line break.
pub open spec fn board_text(b: &Board) -> Seq<char> {
    turn_word() + seq![' '] + int_text(b.turn as int) + seq![' '] + healths_text(b, b.num_snakes as int)
        + seq!['\n'] + rows_text(b, b.height as int) + seq!['\n']
}

/// The text of a list of characters.
#[verifier::external_body]
fn string_from_chars(v: &Vec<char>) -> (r: String)
    ensures
        r@ == v@,
{
    String::from_iter(v.iter())
}

impl Board {
    /// The board as text, in the format that `from_str` reads.
    pub fn to_string(&self) -> (r: String)
        requires
            self.wf(),
        ensures
            r@ == board_text(self),
    {
        let mut out: Vec<char> = Vec::new();
        proof {
            reveal_strlit("turn: ");
            reveal_strlit("health: ");
            assert("turn: "@ =~= turn_word() + seq![' ']);
            assert("health: "@ =~= health_word() + seq![' ']);
        }
        push_text(&mut out, "turn: ");
        push_int(&mut out, self.turn);
        out.push(' ');
        let ghost head = out@;
        let mut s: usize = 0;
        while s < self.num_snakes as usize
            invariant
                self.wf(),
                s <= self.num_snakes,
                out@ == head + healths_text(self, s as int),
            decreases self.num_snakes - s,
        {
            proof {
                reveal_strlit("health: ");
                assert("health: "@ =~= health_word() + seq![' ']);
            }
            let ghost before = out@;
            push_text(&mut out, "health: ");
            push_int(&mut out, self.snakes[s].health);
            out.push(' ');
            assert(out@ =~= head + healths_text(self, s as int + 1));
            s = s + 1;
        }
        out.push('\n');
        let ghost top = out@;
        let w = self.width;
        let h = self.height;
        let mut k: i32 = 0;
        while k < h
            invariant
                self.wf(),
                w == self.width,
                h == self.height,
                0 <= k <= h,
                out@ == top + rows_text(self, k as int),
            decreases h - k,
        {
            let y = h - 1 - k;
            let ghost row_start = out@;
            let mut x: i32 = 0;
            while x < w
                invariant
                    self.wf(),
                    w == self.width,
                    h == self.height,
                    0 <= y < h,
                    0 <= x <= w,
                    out@ == row_start + row_text(self, y as int, x as int),
                decreases w - x,
            {
                let c = Coord { x: x as i8, y: y as i8 };
                let sq = self.at(c);
                let stacked: i32 = match sq {
                    BoardSquare::SnakeTail(i, _) | BoardSquare::SnakeTailHazard(i, _) => self.snakes[i as usize].num_stacked,
                    _ => 0,
                };
                let ch = square_to_char(sq, stacked);
                assert(ch == square_char(self, c));
                out.push(ch);
                out.push(' ');
                assert(out@ =~= row_start + row_text(self, y as int, x as int + 1));
                x = x + 1;
            }
            if y != 0 {
                out.push('\n');
            }
            assert(out@ =~= top + rows_text(self, k as int + 1));
            k = k + 1;
        }
        out.push('\n');
        assert(out@ =~= board_text(self));
        string_from_chars(&out)
    }
}

} // verus!
