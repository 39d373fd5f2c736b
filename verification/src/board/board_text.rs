use vstd::prelude::*;

use crate::board::board_str::{
    board_text, cell_char, char_sq, digit_of, grid_board, grid_fits, grid_h, grid_w, header_healths,
    header_ok, header_turn, health_pair_ok, in_rows, parse_int, sq_at, text_board, text_rows, has_text, health_word, healths_text, int_text, is_space, nat_text, row_text,
    rows_text, split_lines, square_char, squeeze, text_lines, turn_word, words,
};
use crate::board::board_api::index_coord;
use crate::board::board_str::{grid_food, lemma_index_coord};
use crate::board::{sq_is_food, sq_owner, Board, BoardSquare};
use crate::game::Game;
use crate::util::{spec_char_of_square, text_square, Coord};

verus! {

/// Cutting a text at a line break gives the lines before it and the lines
/// after it.
pub proof fn lemma_split_lines_concat(x: Seq<char>, y: Seq<char>)
    ensures
        split_lines(x + seq!['\n'] + y) == split_lines(x) + split_lines(y),
    decreases x.len(),
{
    let s = x + seq!['\n'] + y;
    if x.len() == 0 {
        assert(s.drop_first() =~= y);
        assert(s[0] == '\n');
        assert(split_lines(x) =~= seq![Seq::<char>::empty()]);
    } else {
        let xt = x.drop_first();
        assert(s.drop_first() =~= xt + seq!['\n'] + y);
        lemma_split_lines_concat(xt, y);
        crate::board::board_str::lemma_split_lines_len(xt);
        if x[0] == '\n' {
            assert(split_lines(s) =~= split_lines(x) + split_lines(y));
        } else {
            let rest = split_lines(xt) + split_lines(y);
            assert(rest[0] == split_lines(xt)[0]);
            assert(split_lines(s) =~= split_lines(x) + split_lines(y));
        }
    }
}

/// A text without line breaks is one line.
pub proof fn lemma_split_lines_one(x: Seq<char>)
    requires
        forall|i: int| 0 <= i < x.len() ==> x[i] != '\n',
    ensures
        split_lines(x) == seq![x],
    decreases x.len(),
{
    if x.len() > 0 {
        let xt = x.drop_first();
        lemma_split_lines_one(xt);
        assert(seq![x[0]] + xt =~= x);
        assert(split_lines(x) =~= seq![x]);
    } else {
        assert(x =~= Seq::<char>::empty());
    }
}

/// The lines with text of two lists of lines are those of each list.
pub proof fn lemma_text_lines_concat(a: Seq<Seq<char>>, b: Seq<Seq<char>>)
    ensures
        text_lines(a + b) == text_lines(a) + text_lines(b),
    decreases a.len(),
{
    if a.len() == 0 {
        assert(a + b =~= b);
        assert(text_lines(a) =~= Seq::<Seq<char>>::empty());
        assert(text_lines(a + b) =~= text_lines(a) + text_lines(b));
    } else {
        lemma_text_lines_concat(a.drop_first(), b);
        assert((a + b).drop_first() =~= a.drop_first() + b);
        assert((a + b)[0] == a[0]);
        assert(text_lines(a + b) =~= text_lines(a) + text_lines(b));
    }
}

/// Removing the spaces of two texts one after the other.
pub proof fn lemma_squeeze_concat(a: Seq<char>, b: Seq<char>)
    ensures
        squeeze(a + b) == squeeze(a) + squeeze(b),
    decreases a.len(),
{
    if a.len() == 0 {
        assert(a + b =~= b);
        assert(squeeze(a + b) =~= squeeze(a) + squeeze(b));
    } else {
        lemma_squeeze_concat(a.drop_first(), b);
        assert((a + b).drop_first() =~= a.drop_first() + b);
        assert(squeeze(a + b) =~= squeeze(a) + squeeze(b));
    }
}

/// A space separates the words before it from those after it.
pub proof fn lemma_words_concat(a: Seq<char>, sp: char, b: Seq<char>)
    requires
        is_space(sp),
    ensures
        words(a + seq![sp] + b) == words(a) + words(b),
    decreases a.len(),
{
    let s = a + seq![sp] + b;
    if a.len() == 0 {
        assert(s.drop_first() =~= b);
        assert(words(a) =~= Seq::<Seq<char>>::empty());
        assert(words(s) =~= words(a) + words(b));
    } else {
        let at = a.drop_first();
        assert(s.drop_first() =~= at + seq![sp] + b);
        lemma_words_concat(at, sp, b);
        if is_space(a[0]) {
            assert(words(s) =~= words(a) + words(b));
        } else if a.len() > 1 && !is_space(a[1]) {
            assert(s[1] == a[1]);
            assert(at[0] == a[1]);
            crate::board::board_str::lemma_words_start(at);
            assert(words(s) =~= words(a) + words(b));
        } else {
            assert(is_space(s[1]));
            assert(words(s) =~= words(a) + words(b));
        }
    }
}

/// A text without spaces that is not empty is one word.
pub proof fn lemma_words_one(w: Seq<char>)
    requires
        w.len() > 0,
        forall|i: int| 0 <= i < w.len() ==> !is_space(#[trigger] w[i]),
    ensures
        words(w) == seq![w],
    decreases w.len(),
{
    if w.len() > 1 {
        let wt = w.drop_first();
        lemma_words_one(wt);
        assert(seq![w[0]] + wt =~= w);
        assert(words(w) =~= seq![w]);
    } else {
        assert(w.drop_first() =~= Seq::<char>::empty());
        assert(words(w.drop_first()) =~= Seq::<Seq<char>>::empty());
        assert(seq![w[0]] =~= w);
    }
}

/// A text without spaces has no spaces removed.
pub proof fn lemma_squeeze_plain(w: Seq<char>)
    requires
        forall|i: int| 0 <= i < w.len() ==> !is_space(#[trigger] w[i]),
    ensures
        squeeze(w) == w,
    decreases w.len(),
{
    if w.len() > 0 {
        lemma_squeeze_plain(w.drop_first());
        assert(squeeze(w) =~= w);
    }
}


/// The characters of the board text for squares are neither spaces nor line
/// breaks.
pub proof fn lemma_char_plain(sq: BoardSquare, stacked: i32)
    requires
        sq_owner(sq) matches Some(i) ==> i < 8,
    ensures
        !is_space(spec_char_of_square(sq, stacked)),
        spec_char_of_square(sq, stacked) != '\n',
{
    match sq {
        BoardSquare::SnakeHead(i) => {
            assert(i == 0 || i == 1 || i == 2 || i == 3 || i == 4 || i == 5 || i == 6 || i == 7);
        },
        BoardSquare::SnakeHeadHazard(i) => {
            assert(i == 0 || i == 1 || i == 2 || i == 3 || i == 4 || i == 5 || i == 6 || i == 7);
        },
        _ => {},
    }
}

/// The decimal text of a number is digits.
pub proof fn lemma_nat_text_chars(n: nat)
    ensures
        nat_text(n).len() >= 1,
        forall|i: int| 0 <= i < nat_text(n).len() ==> '0' <= #[trigger] nat_text(n)[i] <= '9',
    decreases n,
{
    if n >= 10 {
        lemma_nat_text_chars(n / 10);
        let d = n as int % 10;
        assert('0' <= digit_of(d) <= '9') by {
            assert(d == 0 || d == 1 || d == 2 || d == 3 || d == 4 || d == 5 || d == 6 || d == 7 || d == 8 || d == 9);
        }
    } else {
        let d = n as int;
        assert('0' <= digit_of(d) <= '9') by {
            assert(d == 0 || d == 1 || d == 2 || d == 3 || d == 4 || d == 5 || d == 6 || d == 7 || d == 8 || d == 9);
        }
    }
}

/// The decimal text of an integer is one word on one line.
pub proof fn lemma_int_text_plain(v: int)
    ensures
        int_text(v).len() >= 1,
        forall|i: int| 0 <= i < int_text(v).len() ==> !is_space(#[trigger] int_text(v)[i]) && int_text(v)[i] != '\n',
{
    if v < 0 {
        lemma_nat_text_chars((-v) as nat);
        assert forall|i: int| 0 <= i < int_text(v).len() implies !is_space(#[trigger] int_text(v)[i]) && int_text(v)[i] != '\n' by {
            if i > 0 {
                assert(int_text(v)[i] == nat_text((-v) as nat)[i - 1]);
            }
        }
    } else {
        lemma_nat_text_chars(v as nat);
    }
}

/// A square of row `y` at column `x`.
pub open spec fn at_col(x: int, y: int) -> Coord {
    Coord { x: x as i8, y: y as i8 }
}

/// The first `n` characters of row `y` of a board.
pub open spec fn row_chars(b: &Board, y: int, n: int) -> Seq<char> {
    Seq::new(n as nat, |x: int| square_char(b, at_col(x, y)))
}

/// A row of the board text: two characters per square, no line break, the
/// characters of the squares once its spaces are removed.
pub proof fn lemma_row_text(b: &Board, y: int, n: int)
    requires
        b.wf(),
        0 <= y < b.height,
        0 <= n <= b.width,
    ensures
        row_text(b, y, n).len() == 2 * n,
        forall|i: int| 0 <= i < row_text(b, y, n).len() ==> #[trigger] row_text(b, y, n)[i] != '\n',
        squeeze(row_text(b, y, n)) == row_chars(b, y, n),
        n >= 1 ==> has_text(row_text(b, y, n)),
    decreases n,
{
    if n > 0 {
        lemma_row_text(b, y, n - 1);
        let c = at_col(n - 1, y);
        crate::board::lemma_grid_index(c, b.width as int, b.height as int);
        let sq = b.square(c);
        assert(crate::board::sq_owner_ok(b.cells()[crate::board::grid_index(c, b.width as int)]));
        let stacked = match sq {
            BoardSquare::SnakeTail(i, _) => b.snakes[i as int].num_stacked,
            BoardSquare::SnakeTailHazard(i, _) => b.snakes[i as int].num_stacked,
            _ => 0,
        };
        lemma_char_plain(sq, stacked);
        let ch = square_char(b, c);
        let prev = row_text(b, y, n - 1);
        assert(row_text(b, y, n) == prev + seq![ch, ' ']);
        lemma_squeeze_concat(prev, seq![ch, ' ']);
        assert(seq![ch, ' '].drop_first() =~= seq![' ']);
        assert(seq![' '].drop_first() =~= Seq::<char>::empty());
        assert(squeeze(Seq::<char>::empty()) =~= Seq::<char>::empty());
        assert(squeeze(seq![' ']) =~= Seq::<char>::empty()) by {
            assert(is_space(seq![' '][0]));
            assert(squeeze(seq![' ']) == squeeze(seq![' '].drop_first()));
        }
        assert(!is_space(ch));
        assert(seq![ch, ' '][0] == ch);
        assert(squeeze(seq![ch, ' ']) == seq![ch] + squeeze(seq![ch, ' '].drop_first()));
        assert(squeeze(seq![ch, ' ']) =~= seq![ch]);
        assert(squeeze(row_text(b, y, n)) =~= row_chars(b, y, n));
        assert(row_text(b, y, n)[2 * n - 2] == ch);
    }
}

/// The rows of a board from the top, each followed by a line break.
pub open spec fn lined_rows(b: &Board, k: int) -> Seq<char>
    decreases k,
{
    if k <= 0 {
        Seq::empty()
    } else {
        lined_rows(b, k - 1) + row_text(b, b.height - k, b.width as int) + seq!['\n']
    }
}

/// The top `k` rows of a board.
pub open spec fn row_lines(b: &Board, k: int) -> Seq<Seq<char>> {
    Seq::new(k as nat, |i: int| row_text(b, b.height - 1 - i, b.width as int))
}

proof fn lemma_rows_lined(b: &Board, k: int)
    requires
        0 <= k < b.height,
    ensures
        rows_text(b, k) == lined_rows(b, k),
    decreases k,
{
    if k > 0 {
        lemma_rows_lined(b, k - 1);
    }
}

/// The rows of the board text with the final line break are the rows each
/// followed by a line break.
proof fn lemma_rows_text_lined(b: &Board)
    requires
        b.height >= 1,
    ensures
        rows_text(b, b.height as int) + seq!['\n'] == lined_rows(b, b.height as int),
{
    let h = b.height as int;
    lemma_rows_lined(b, h - 1);
    assert(rows_text(b, h) == rows_text(b, h - 1) + row_text(b, 0, b.width as int) + Seq::<char>::empty());
    assert(rows_text(b, h) + seq!['\n'] =~= lined_rows(b, h));
}

/// The lines of rows each followed by a line break.
proof fn lemma_split_lined(b: &Board, k: int, y: Seq<char>)
    requires
        b.wf(),
        0 <= k <= b.height,
    ensures
        split_lines(lined_rows(b, k) + y) == row_lines(b, k) + split_lines(y),
    decreases k,
{
    if k == 0 {
        assert(lined_rows(b, k) + y =~= y);
        assert(row_lines(b, k) + split_lines(y) =~= split_lines(y));
    } else {
        let r = row_text(b, b.height - k, b.width as int);
        let y2 = r + seq!['\n'] + y;
        assert(lined_rows(b, k) + y =~= lined_rows(b, k - 1) + y2);
        lemma_split_lined(b, k - 1, y2);
        lemma_split_lines_concat(r, y);
        lemma_row_text(b, b.height - k, b.width as int);
        lemma_split_lines_one(r);
        assert(row_lines(b, k) =~= row_lines(b, k - 1) + seq![r]);
        assert(split_lines(lined_rows(b, k) + y) =~= row_lines(b, k) + split_lines(y));
    }
}

/// Words after a space or at the start follow the words before them.
proof fn lemma_words_after(x: Seq<char>, y: Seq<char>)
    requires
        x.len() == 0 || is_space(x.last()),
    ensures
        words(x + y) == words(x) + words(y),
{
    if x.len() == 0 {
        assert(x + y =~= y);
        assert(words(x) =~= Seq::<Seq<char>>::empty());
        assert(words(x + y) =~= words(x) + words(y));
    } else {
        let xp = x.drop_last();
        assert(x =~= xp + seq![x.last()] + Seq::<char>::empty());
        assert(x + y =~= xp + seq![x.last()] + y);
        lemma_words_concat(xp, x.last(), y);
        lemma_words_concat(xp, x.last(), Seq::<char>::empty());
        assert(words(Seq::<char>::empty()) =~= Seq::<Seq<char>>::empty());
        assert(words(x + y) =~= words(x) + words(y));
    }
}

/// The words of the healths of the first `n` snakes.
pub open spec fn health_words(b: &Board, n: int) -> Seq<Seq<char>> {
    Seq::new(
        (2 * n) as nat,
        |k: int|
            if k % 2 == 0 {
                health_word()
            } else {
                int_text(b.snakes[k / 2].health as int)
            },
    )
}

proof fn lemma_health_word_plain()
    ensures
        health_word().len() > 0,
        forall|i: int| 0 <= i < health_word().len() ==> !is_space(#[trigger] health_word()[i]),
{
}

proof fn lemma_healths_words(b: &Board, n: int)
    requires
        0 <= n <= crate::config::MAX_SNAKES,
    ensures
        words(healths_text(b, n)) == health_words(b, n),
        healths_text(b, n).len() == 0 || is_space(healths_text(b, n).last()),
        forall|i: int| 0 <= i < healths_text(b, n).len() ==> #[trigger] healths_text(b, n)[i] != '\n',
    decreases n,
{
    if n <= 0 {
        assert(words(healths_text(b, n)) =~= health_words(b, n));
    } else {
        lemma_healths_words(b, n - 1);
        let prev = healths_text(b, n - 1);
        let it = int_text(b.snakes[n - 1].health as int);
        lemma_int_text_plain(b.snakes[n - 1].health as int);
        lemma_health_word_plain();
        let tail = health_word() + seq![' '] + it + seq![' '];
        assert(healths_text(b, n) == prev + tail);
        lemma_words_after(prev, tail);
        assert(tail =~= health_word() + seq![' '] + (it + seq![' ']));
        lemma_words_concat(health_word(), ' ', it + seq![' ']);
        lemma_words_after(it + seq![' '], Seq::<char>::empty());
        assert(it + seq![' '] =~= it + seq![' '] + Seq::<char>::empty());
        lemma_words_concat(it, ' ', Seq::<char>::empty());
        assert(words(Seq::<char>::empty()) =~= Seq::<Seq<char>>::empty());
        lemma_words_one(it);
        lemma_words_one(health_word());
        assert(words(tail) =~= seq![health_word(), it]);
        assert(words(healths_text(b, n)) =~= health_words(b, n));
        assert(healths_text(b, n).last() == ' ');
        assert forall|i: int| 0 <= i < healths_text(b, n).len() implies #[trigger] healths_text(b, n)[i] != '\n' by {
            if i >= prev.len() {
                let j = i - prev.len();
                assert(healths_text(b, n)[i] == tail[j]);
                if j >= health_word().len() + 1 && j < health_word().len() + 1 + it.len() {
                    assert(tail[j] == it[j - health_word().len() - 1]);
                }
            }
        }
    }
}


proof fn lemma_text_lines_all(ls: Seq<Seq<char>>)
    requires
        forall|i: int| 0 <= i < ls.len() ==> has_text(#[trigger] ls[i]),
    ensures
        text_lines(ls) == ls,
    decreases ls.len(),
{
    if ls.len() > 0 {
        lemma_text_lines_all(ls.drop_first());
        assert(has_text(ls[0]));
        assert(text_lines(ls) =~= ls);
    } else {
        assert(text_lines(ls) =~= ls);
    }
}

/// The header line of the board text.
pub open spec fn header_line(b: &Board) -> Seq<char> {
    turn_word() + seq![' '] + int_text(b.turn as int) + seq![' '] + healths_text(b, b.num_snakes as int)
}

/// The healths of the snakes of a board.
pub open spec fn board_healths(b: &Board) -> Seq<i32> {
    Seq::new(b.num_snakes as nat, |i: int| b.snakes[i].health)
}

/// Reading the text of a board: its lines are the header and the rows, the
/// header gives back the turn and the healths, and every square reads back as
/// the square, with the snake index that the text leaves out of body and tail
/// squares set to 0.
pub proof fn lemma_text_reads_back(b: &Board)
    requires
        b.wf(),
        b.num_snakes >= 1,
    ensures
        ({
            let ls = text_lines(split_lines(board_text(b)));
            let ws = words(ls[0]);
            let rows = text_rows(ls);
            &&& ls.len() == b.height + 1
            &&& header_ok(ws)
            &&& header_turn(ws) == b.turn
            &&& header_healths(ws) == board_healths(b)
            &&& grid_fits(rows)
            &&& grid_w(rows) == b.width
            &&& grid_h(rows) == b.height
            &&& forall|c: Coord| b.in_bounds(c) ==> #[trigger] sq_at(rows, c) == text_square(b.square(c))
        }),
{
    let w = b.width as int;
    let h = b.height as int;
    let n = b.num_snakes as int;
    let hl = header_line(b);
    // The lines of the text.
    lemma_int_text_plain(b.turn as int);
    lemma_healths_words(b, n);
    assert forall|i: int| 0 <= i < hl.len() implies #[trigger] hl[i] != '\n' by {
        let a = turn_word().len() + 1;
        let t = int_text(b.turn as int).len();
        if a <= i < a + t {
            assert(hl[i] == int_text(b.turn as int)[i - a]);
        } else if i >= a + t + 1 {
            assert(hl[i] == healths_text(b, n)[i - a - t - 1]);
        }
    }
    lemma_split_lines_one(hl);
    lemma_rows_text_lined(b);
    assert(board_text(b) =~= hl + seq!['\n'] + lined_rows(b, h));
    lemma_split_lines_concat(hl, lined_rows(b, h));
    assert(lined_rows(b, h) =~= lined_rows(b, h) + Seq::<char>::empty());
    lemma_split_lined(b, h, Seq::<char>::empty());
    assert(split_lines(Seq::<char>::empty()) =~= seq![Seq::<char>::empty()]);
    let rl = row_lines(b, h);
    assert(split_lines(board_text(b)) =~= seq![hl] + rl + seq![Seq::<char>::empty()]);
    lemma_text_lines_concat(seq![hl] + rl, seq![Seq::<char>::empty()]);
    lemma_text_lines_concat(seq![hl], rl);
    assert(has_text(hl)) by {
        assert(!is_space(hl[0]));
    }
    lemma_text_lines_all(seq![hl]);
    assert forall|i: int| 0 <= i < rl.len() implies has_text(#[trigger] rl[i]) by {
        lemma_row_text(b, h - 1 - i, w);
    }
    lemma_text_lines_all(rl);
    assert(!has_text(Seq::<char>::empty()));
    assert(text_lines(seq![Seq::<char>::empty()]) =~= Seq::<Seq<char>>::empty()) by {
        let one = seq![Seq::<char>::empty()];
        assert(one.drop_first() =~= Seq::<Seq<char>>::empty());
        assert(one[0] =~= Seq::<char>::empty());
        assert(!has_text(one[0]));
        assert(text_lines(Seq::<Seq<char>>::empty()) =~= Seq::<Seq<char>>::empty());
        assert(text_lines(one) == text_lines(one.drop_first()));
    }
    let ls = text_lines(split_lines(board_text(b)));
    assert(ls =~= seq![hl] + rl);
    // The header.
    let it = int_text(b.turn as int);
    assert(hl =~= turn_word() + seq![' '] + (it + seq![' '] + healths_text(b, n)));
    lemma_words_concat(turn_word(), ' ', it + seq![' '] + healths_text(b, n));
    lemma_words_concat(it, ' ', healths_text(b, n));
    lemma_words_one(turn_word());
    lemma_words_one(it);
    let ws = words(ls[0]);
    assert(ws =~= seq![turn_word(), it] + health_words(b, n));
    crate::board::board_str::lemma_int_text_round_trip(b.turn);
    assert forall|k: int| 1 <= k < ws.len() / 2 implies #[trigger] health_pair_ok(ws, k) by {
        assert(ws[2 * k] == health_words(b, n)[2 * k - 2]);
        assert(ws[2 * k + 1] == health_words(b, n)[2 * k - 1]);
        assert((2 * k - 1) / 2 == k - 1);
        crate::board::board_str::lemma_int_text_round_trip(b.snakes[k - 1].health);
    }
    assert(header_ok(ws));
    assert forall|k: int| 0 <= k < n implies #[trigger] header_healths(ws)[k] == board_healths(b)[k] by {
        assert(ws[2 * k + 3] == health_words(b, n)[2 * k + 1]);
        assert((2 * k + 1) / 2 == k);
        crate::board::board_str::lemma_int_text_round_trip(b.snakes[k].health);
    }
    assert(header_healths(ws) =~= board_healths(b));
    // The rows.
    let rows = text_rows(ls);
    assert forall|i: int| 0 <= i < h implies #[trigger] rows[i] == row_chars(b, h - 1 - i, w) by {
        lemma_row_text(b, h - 1 - i, w);
    }
    assert(grid_fits(rows)) by {
        assert(rows[0] == row_chars(b, h - 1, w));
        assert forall|r: int| 0 <= r < rows.len() implies #[trigger] rows[r].len() == grid_w(rows) by {
            assert(rows[r] == row_chars(b, h - 1 - r, w));
        }
    }
    assert forall|c: Coord| b.in_bounds(c) implies #[trigger] sq_at(rows, c) == text_square(b.square(c)) by {
        assert(rows[h - 1 - c.y] == row_chars(b, c.y as int, w));
        assert(at_col(c.x as int, c.y as int) == c);
        assert(cell_char(rows, c) == square_char(b, c));
        crate::board::lemma_grid_index(c, w, h);
        assert(crate::board::sq_owner_ok(b.cells()[crate::board::grid_index(c, w)]));
        let sq = b.square(c);
        let stacked = match sq {
            BoardSquare::SnakeTail(i, _) => b.snakes[i as int].num_stacked,
            BoardSquare::SnakeTailHazard(i, _) => b.snakes[i as int].num_stacked,
            _ => 0,
        };
        crate::util::lemma_square_char_round_trip(sq, stacked);
    }
}

/// The number of food squares among the first `k` squares of `b`, in row-major
/// order.
pub open spec fn board_food(b: &Board, k: int) -> int
    decreases k,
{
    if k <= 0 {
        0
    } else {
        board_food(b, k - 1) + if sq_is_food(b.square(index_coord(k - 1, b.width as int))) {
            1int
        } else {
            0
        }
    }
}

/// Rows that show the food squares of `b` count as much food as `b` has.
proof fn lemma_grid_food(b: &Board, rows: Seq<Seq<char>>, k: int)
    requires
        b.wf(),
        0 <= k <= b.area(),
        grid_w(rows) == b.width,
        forall|c: Coord| b.in_bounds(c) ==> sq_is_food(#[trigger] sq_at(rows, c)) == sq_is_food(b.square(c)),
    ensures
        grid_food(rows, k) == board_food(b, k),
    decreases k,
{
    if k > 0 {
        lemma_grid_food(b, rows, k - 1);
        lemma_index_coord(k - 1, b.width as int, b.height as int);
        assert(b.in_bounds(index_coord(k - 1, b.width as int)));
    }
}

/// A board read back from the text of a board has its size, turn, snake
/// healths, food count and squares (up to the snake index of body and tail
/// squares, which the text leaves out).
pub proof fn lemma_text_round_trip(b: &Board, read: &Board, game: &Game)
    requires
        b.wf(),
        b.num_snakes >= 1,
        text_board(read, board_text(b), game),
    ensures
        read.width == b.width,
        read.height == b.height,
        read.turn == b.turn,
        read.num_snakes == b.num_snakes,
        forall|i: int| 0 <= i < b.num_snakes ==> #[trigger] read.snakes[i].health == b.snakes[i].health,
        forall|c: Coord| b.in_bounds(c) ==> #[trigger] text_square(read.square(c)) == text_square(b.square(c)),
        read.num_food == board_food(b, b.area()),
{
    lemma_text_reads_back(b);
    let ls = text_lines(split_lines(board_text(b)));
    let rows = text_rows(ls);
    assert forall|i: int| 0 <= i < b.num_snakes implies #[trigger] read.snakes[i].health == b.snakes[i].health by {
        assert(crate::board::board_str::snake_from_text(read.snakes[i], rows, game.ruleset, board_healths(b), i));
    }
    assert forall|c: Coord| b.in_bounds(c) implies #[trigger] text_square(read.square(c)) == text_square(b.square(c)) by {
        assert(in_rows(rows, c));
    }
    assert forall|c: Coord| b.in_bounds(c) implies sq_is_food(#[trigger] sq_at(rows, c)) == sq_is_food(b.square(c)) by {
        assert(in_rows(rows, c));
        assert(text_square(read.square(c)) == text_square(b.square(c)));
    }
    lemma_grid_food(b, rows, b.area());
}

} // verus!
