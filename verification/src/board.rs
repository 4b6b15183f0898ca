//! The game board: a fixed-size grid of cells with win-run detection and
//! legal-move enumeration.

use vstd::prelude::*;

verus! {

use vstd::multiset::Multiset;
use crate::game::{Turn, cell_of};
use crate::index_parser::{
    IndexParser,
    alpha_end_from,
    alpha_val,
    digit_end_from,
    is_alpha_char,
    is_digit_char,
    is_ws_char,
    lemma_digits_val_matches,
    lower_char,
    number_val,
    skip_ws_from,
    spec_parse,
};

/// The content of one board cell.
#[derive(Debug, Clone, Copy, PartialEq, Eq, Structural, Hash)]
pub enum Cell {
    Empty,
    Black,
    White,
}

impl Cell {
    pub fn is_empty(self) -> (r: bool)
        ensures
            r == (self == Cell::Empty),
    {
        matches!(self, Cell::Empty)
    }

    pub fn is_black(self) -> (r: bool)
        ensures
            r == (self == Cell::Black),
    {
        matches!(self, Cell::Black)
    }

    pub fn is_white(self) -> (r: bool)
        ensures
            r == (self == Cell::White),
    {
        matches!(self, Cell::White)
    }

    pub fn name(self) -> (r: &'static str)
        ensures
            r@ == match self {
                Cell::Empty => "empty"@,
                Cell::Black => "black"@,
                Cell::White => "white"@,
            },
    {
        match self {
            Cell::Empty => "empty",
            Cell::Black => "black",
            Cell::White => "white",
        }
    }

    pub fn symbol(self) -> (r: char)
        ensures
            r == match self {
                Cell::Empty => '.',
                Cell::Black => 'X',
                Cell::White => 'O',
            },
    {
        match self {
            Cell::Empty => '.',
            Cell::Black => 'X',
            Cell::White => 'O',
        }
    }
}

/// The mathematical content of a [`Board`]: its side length and the row-major
/// sequence of its cells.
pub struct BoardView {
    pub size: int,
    pub cells: Seq<Cell>,
}

/// A square board of side length `board_size`, stored row-major: the cell at
/// row `y` and column `x` has index `y * board_size + x`.
#[derive(Debug)]
pub struct Board {
    board_size: usize,
    cells: Vec<Cell>,
}

impl View for Board {
    type V = BoardView;

    closed spec fn view(&self) -> BoardView {
        BoardView { size: self.board_size as int, cells: self.cells@ }
    }
}

impl Clone for Board {
    fn clone(&self) -> (r: Self)
        ensures
            r@.size == self@.size,
            r@.cells == self@.cells,
    {
        let cells = self.cells.clone();
        proof {
            assert(cells@ =~= self.cells@);
        }
        Board { board_size: self.board_size, cells }
    }
}

/// The ascending list of all indices below `n` whose cell is empty.
pub open spec fn legal_upto(cells: Seq<Cell>, n: int) -> Seq<usize>
    decreases n,
{
    if n <= 0 {
        Seq::empty()
    } else {
        let prefix = legal_upto(cells, n - 1);
        if cells[n - 1] == Cell::Empty {
            prefix.push((n - 1) as usize)
        } else {
            prefix
        }
    }
}

/// The ascending list of all indices below `n` whose cell is occupied.
pub open spec fn illegal_upto(cells: Seq<Cell>, n: int) -> Seq<usize>
    decreases n,
{
    if n <= 0 {
        Seq::empty()
    } else {
        let prefix = illegal_upto(cells, n - 1);
        if cells[n - 1] != Cell::Empty {
            prefix.push((n - 1) as usize)
        } else {
            prefix
        }
    }
}

/// Number of occupied cells on the whole board.
pub open spec fn stone_count(cells: Seq<Cell>) -> int {
    illegal_upto(cells, cells.len() as int).len() as int
}

/// Every index below `n` is counted once, either as legal or as illegal.
pub proof fn lemma_moves_partition(cells: Seq<Cell>, n: int)
    requires
        0 <= n <= cells.len(),
    ensures
        legal_upto(cells, n).len() as int + illegal_upto(cells, n).len() as int == n,
    decreases n,
{
    if n > 0 {
        lemma_moves_partition(cells, n - 1);
    }
}

/// The indices that `legal_upto` lists are exactly the empty cells below `n`.
pub proof fn lemma_legal_upto_membership(cells: Seq<Cell>, n: int, v: usize)
    requires
        0 <= n <= cells.len(),
        cells.len() <= usize::MAX,
    ensures
        legal_upto(cells, n).contains(v) <==> ((v as int) < n && cells[v as int] == Cell::Empty),
    decreases n,
{
    if n > 0 {
        lemma_legal_upto_membership(cells, n - 1, v);
        let prefix = legal_upto(cells, n - 1);
        if cells[n - 1] == Cell::Empty {
            assert(legal_upto(cells, n) == prefix.push((n - 1) as usize));
            assert forall|w: usize| prefix.contains(w) implies prefix.push(
                (n - 1) as usize,
            ).contains(w) by {
                let i = choose|i: int| 0 <= i < prefix.len() && prefix[i] == w;
                assert(prefix.push((n - 1) as usize)[i] == w);
            }
            assert(prefix.push((n - 1) as usize)[prefix.len() as int] == (n - 1) as usize);
            if legal_upto(cells, n).contains(v) {
                let i = choose|i: int|
                    0 <= i < legal_upto(cells, n).len() && legal_upto(cells, n)[i] == v;
                if i < prefix.len() {
                    assert(prefix.contains(v));
                }
            }
        }
    }
}

/// Filling one empty cell removes exactly one legal move and adds exactly
/// one illegal move; every other index keeps its standing.
pub proof fn lemma_moves_after_update(cells: Seq<Cell>, i: int, c: Cell, n: int)
    requires
        0 <= i < cells.len(),
        cells[i] == Cell::Empty,
        c != Cell::Empty,
        0 <= n <= cells.len(),
    ensures
        legal_upto(cells.update(i, c), n).len() as int == legal_upto(cells, n).len() as int - (
        if i < n {
            1int
        } else {
            0int
        }),
        illegal_upto(cells.update(i, c), n).len() as int == illegal_upto(cells, n).len() as int + (
        if i < n {
            1int
        } else {
            0int
        }),
    decreases n,
{
    if n > 0 {
        lemma_moves_after_update(cells, i, c, n - 1);
    }
}

/// The board turned by half a revolution: the cell at `i` moves to the
/// opposite end of the row-major order.
pub open spec fn rotate180(cells: Seq<Cell>) -> Seq<Cell> {
    Seq::new(cells.len(), |i: int| cells[cells.len() - 1 - i])
}

/// A directed walk on the rotated board mirrors the opposite walk on the
/// original.
proof fn lemma_dir_run_rotated(
    cells: Seq<Cell>,
    n: int,
    x: int,
    y: int,
    c: Cell,
    dx: int,
    dy: int,
)
    requires
        1 <= n,
        cells.len() == n * n,
        -1 <= dx <= 1,
        -1 <= dy <= 1,
        dx != 0 || dy != 0,
        -1 <= x <= n,
        -1 <= y <= n,
    ensures
        dir_run(rotate180(cells), n, n - 1 - x, n - 1 - y, c, -dx, -dy) == dir_run(
            cells,
            n,
            x,
            y,
            c,
            dx,
            dy,
        ),
    decreases (if dx >= 0 {
        n - x
    } else {
        x + 1
    }) + (if dy >= 0 {
        n - y
    } else {
        y + 1
    }),
{
    if 0 <= x < n && 0 <= y < n {
        let idx = y * n + x;
        let ridx = (n - 1 - y) * n + (n - 1 - x);
        assert(0 <= idx < n * n && 0 <= ridx < n * n && ridx == n * n - 1 - idx)
            by (nonlinear_arith)
            requires
                idx == y * n + x,
                ridx == (n - 1 - y) * n + (n - 1 - x),
                0 <= x < n,
                0 <= y < n,
                1 <= n,
        ;
        assert(rotate180(cells)[ridx] == cells[idx]);
        if cells[idx] == c {
            lemma_dir_run_rotated(cells, n, x + dx, y + dy, c, dx, dy);
        }
    }
}

/// Counting runs through a stone commutes with turning the whole board by
/// half a revolution: each axis count, the largest run, and the reported
/// multiset of qualifying runs are unchanged.
pub proof fn lemma_count_rotation_invariant(cells: Seq<Cell>, n: int, index: int, c: Cell)
    requires
        1 <= n,
        cells.len() == n * n,
        0 <= index < n * n,
    ensures
        axis_counts(rotate180(cells), n, n * n - 1 - index, c) == axis_counts(
            cells,
            n,
            index,
            c,
        ),
        max_axis_run(rotate180(cells), n, n * n - 1 - index, c) == max_axis_run(
            cells,
            n,
            index,
            c,
        ),
        run_lengths(rotate180(cells), n, n * n - 1 - index, c) == run_lengths(cells, n, index, c),
{
    let x = index % n;
    let y = index / n;
    vstd::arithmetic::div_mod::lemma_fundamental_div_mod(index, n);
    vstd::arithmetic::div_mod::lemma_mod_bound(index, n);
    vstd::arithmetic::div_mod::lemma_div_pos_is_pos(index, n);
    assert(y < n) by (nonlinear_arith)
        requires
            index == n * y + x,
            0 <= x < n,
            index < n * n,
            0 <= y,
            1 <= n,
    ;
    let rindex = n * n - 1 - index;
    assert(rindex == (n - 1 - y) * n + (n - 1 - x)) by (nonlinear_arith)
        requires
            rindex == n * n - 1 - index,
            index == n * y + x,
    ;
    vstd::arithmetic::div_mod::lemma_fundamental_div_mod_converse(
        rindex,
        n,
        n - 1 - y,
        n - 1 - x,
    );
    assert(rindex % n == n - 1 - x && rindex / n == n - 1 - y);
    lemma_dir_run_rotated(cells, n, x + 1, y, c, 1, 0);
    lemma_dir_run_rotated(cells, n, x - 1, y, c, -1, 0);
    lemma_dir_run_rotated(cells, n, x, y + 1, c, 0, 1);
    lemma_dir_run_rotated(cells, n, x, y - 1, c, 0, -1);
    lemma_dir_run_rotated(cells, n, x + 1, y - 1, c, 1, -1);
    lemma_dir_run_rotated(cells, n, x - 1, y + 1, c, -1, 1);
    lemma_dir_run_rotated(cells, n, x + 1, y + 1, c, 1, 1);
    lemma_dir_run_rotated(cells, n, x - 1, y - 1, c, -1, -1);
    assert(axis_counts(rotate180(cells), n, rindex, c) =~= axis_counts(cells, n, index, c));
    assert(rotate180(cells)[rindex] == cells[index]);
}

/// Two descending-sorted lists reporting the same multiset of run lengths
/// are the same list: together with the rotation invariance this pins the
/// reported list itself, not just its contents.
pub proof fn lemma_sorted_desc_multiset_unique(a: Seq<usize>, b: Seq<usize>)
    requires
        sorted_desc(a),
        sorted_desc(b),
        a.map_values(|u: usize| u as int).to_multiset() == b.map_values(
            |u: usize| u as int,
        ).to_multiset(),
    ensures
        a == b,
    decreases a.len(),
{
    broadcast use vstd::seq_lib::group_to_multiset_ensures;

    assert forall|u: usize| #[trigger] a.to_multiset().count(u) == b.to_multiset().count(u) by {
        lemma_map_int_count(a, u as int);
        lemma_map_int_count(b, u as int);
    }
    assert(a.to_multiset() =~= b.to_multiset());
    assert(a.to_multiset().len() == a.len());
    assert(b.to_multiset().len() == b.len());
    if a.len() == 0 {
        assert(a =~= b);
    } else {
        assert(a.contains(a[0]));
        assert(b.to_multiset().contains(a[0]));
        assert(b.contains(a[0]));
        let i = choose|i: int| 0 <= i < b.len() && b[i] == a[0];
        assert(b[0] >= b[i]);
        assert(b.contains(b[0]));
        assert(a.to_multiset().contains(b[0]));
        assert(a.contains(b[0]));
        let j = choose|j: int| 0 <= j < a.len() && a[j] == b[0];
        assert(a[0] >= a[j]);
        assert(a[0] == b[0]);
        let a1 = a.remove(0);
        let b1 = b.remove(0);
        assert(a1.to_multiset() == a.to_multiset().remove(a[0]));
        assert(b1.to_multiset() == b.to_multiset().remove(b[0]));
        assert(sorted_desc(a1) && sorted_desc(b1)) by {
            assert(forall|p: int, q: int|
                0 <= p < q < a1.len() ==> a1[p] == a[p + 1] && a1[q] == a[q + 1]);
            assert(forall|p: int, q: int|
                0 <= p < q < b1.len() ==> b1[p] == b[p + 1] && b1[q] == b[q + 1]);
        }
        let am = a1.map_values(|u: usize| u as int);
        let bm = b1.map_values(|u: usize| u as int);
        assert forall|x: int| #[trigger] am.to_multiset().count(x) == bm.to_multiset().count(
            x,
        ) by {
            lemma_map_int_count(a1, x);
            lemma_map_int_count(b1, x);
            if 0 <= x <= usize::MAX {
                assert(a1.to_multiset().count(x as usize) == b1.to_multiset().count(x as usize));
            }
        }
        assert(am.to_multiset() =~= bm.to_multiset());
        lemma_sorted_desc_multiset_unique(a1, b1);
        assert(a =~= b) by {
            assert(forall|k: int| 1 <= k < a.len() ==> a[k] == a1[k - 1] && b[k] == b1[k - 1]);
        }
    }
}

/// A board that holds no stones is empty everywhere.
pub proof fn lemma_no_stones_all_empty(cells: Seq<Cell>)
    requires
        stone_count(cells) == 0,
    ensures
        forall|i: int| 0 <= i < cells.len() ==> cells[i] == Cell::Empty,
{
    lemma_no_stones_prefix(cells, cells.len() as int);
}

proof fn lemma_no_stones_prefix(cells: Seq<Cell>, n: int)
    requires
        0 <= n <= cells.len(),
        illegal_upto(cells, n).len() == 0,
    ensures
        forall|i: int| 0 <= i < n ==> cells[i] == Cell::Empty,
    decreases n,
{
    if n > 0 {
        assert(cells[n - 1] == Cell::Empty);
        lemma_no_stones_prefix(cells, n - 1);
    }
}

/// Walking away from a lone stone on an otherwise empty board finds nothing.
proof fn lemma_lone_dir_run(
    cells2: Seq<Cell>,
    n: int,
    index: int,
    c: Cell,
    x: int,
    y: int,
    dx: int,
    dy: int,
)
    requires
        2 <= n,
        cells2.len() == n * n,
        0 <= x < n,
        0 <= y < n,
        index == y * n + x,
        forall|i: int| 0 <= i < cells2.len() && i != index ==> cells2[i] == Cell::Empty,
        c != Cell::Empty,
        -1 <= dx <= 1,
        -1 <= dy <= 1,
        dx != 0 || dy != 0,
    ensures
        dir_run(cells2, n, x + dx, y + dy, c, dx, dy) == 0,
{
    let x2 = x + dx;
    let y2 = y + dy;
    if 0 <= x2 < n && 0 <= y2 < n {
        let idx2 = y2 * n + x2;
        assert(0 <= idx2 < n * n) by (nonlinear_arith)
            requires
                idx2 == y2 * n + x2,
                0 <= x2 < n,
                0 <= y2 < n,
                2 <= n,
        ;
        assert(idx2 != index) by (nonlinear_arith)
            requires
                idx2 == y2 * n + x2,
                index == y * n + x,
                x2 == x + dx,
                y2 == y + dy,
                0 <= x < n,
                0 <= x2 < n,
                -1 <= dx <= 1,
                -1 <= dy <= 1,
                dx != 0 || dy != 0,
                2 <= n,
        ;
        assert(cells2[idx2] == Cell::Empty);
    }
}

/// The first stone of a game forms runs of exactly 1 on every axis.
pub proof fn lemma_lone_stone_max_run(cells: Seq<Cell>, n: int, index: int, c: Cell)
    requires
        2 <= n,
        cells.len() == n * n,
        0 <= index < n * n,
        c != Cell::Empty,
        forall|i: int| 0 <= i < cells.len() ==> cells[i] == Cell::Empty,
    ensures
        max_axis_run(cells.update(index, c), n, index, c) == 1,
{
    let cells2 = cells.update(index, c);
    let x = index % n;
    let y = index / n;
    vstd::arithmetic::div_mod::lemma_fundamental_div_mod(index, n);
    vstd::arithmetic::div_mod::lemma_mod_bound(index, n);
    vstd::arithmetic::div_mod::lemma_div_pos_is_pos(index, n);
    assert(y < n) by (nonlinear_arith)
        requires
            index == n * y + x,
            0 <= x < n,
            index < n * n,
            0 <= y,
            2 <= n,
    ;
    assert(index == y * n + x) by (nonlinear_arith)
        requires
            index == n * y + x,
    ;
    assert(forall|i: int| 0 <= i < cells2.len() && i != index ==> cells2[i] == Cell::Empty);
    lemma_lone_dir_run(cells2, n, index, c, x, y, 1, 0);
    lemma_lone_dir_run(cells2, n, index, c, x, y, -1, 0);
    lemma_lone_dir_run(cells2, n, index, c, x, y, 0, 1);
    lemma_lone_dir_run(cells2, n, index, c, x, y, 0, -1);
    lemma_lone_dir_run(cells2, n, index, c, x, y, 1, -1);
    lemma_lone_dir_run(cells2, n, index, c, x, y, -1, 1);
    lemma_lone_dir_run(cells2, n, index, c, x, y, 1, 1);
    lemma_lone_dir_run(cells2, n, index, c, x, y, -1, -1);
}

/// Number of cells holding `c` when walking from `(x, y)` in direction
/// `(dx, dy)` until the board edge or a cell that differs from `c`.
pub open spec fn dir_run(cells: Seq<Cell>, n: int, x: int, y: int, c: Cell, dx: int, dy: int) -> int
    decreases (if dx >= 0 { n - x } else { x + 1 }) + (if dy >= 0 { n - y } else { y + 1 })
        when -1 <= dx <= 1 && -1 <= dy <= 1 && (dx != 0 || dy != 0)
{
    if 0 <= x < n && 0 <= y < n {
        if cells[y * n + x] == c {
            1 + dir_run(cells, n, x + dx, y + dy, c, dx, dy)
        } else {
            0
        }
    } else {
        0
    }
}

/// The four run lengths through `index` for the color `c`, one per axis:
/// horizontal, vertical, and the two diagonals. Each counts the stone at
/// `index` itself plus the contiguous same-colored cells on both sides.
pub open spec fn axis_counts(cells: Seq<Cell>, n: int, index: int, c: Cell) -> Seq<int> {
    let x = index % n;
    let y = index / n;
    seq![
        1 + dir_run(cells, n, x + 1, y, c, 1, 0) + dir_run(cells, n, x - 1, y, c, -1, 0),
        1 + dir_run(cells, n, x, y + 1, c, 0, 1) + dir_run(cells, n, x, y - 1, c, 0, -1),
        1 + dir_run(cells, n, x + 1, y - 1, c, 1, -1) + dir_run(cells, n, x - 1, y + 1, c, -1, 1),
        1 + dir_run(cells, n, x + 1, y + 1, c, 1, 1) + dir_run(cells, n, x - 1, y - 1, c, -1, -1),
    ]
}

/// The largest of the first four entries of a sequence.
pub open spec fn max4(s: Seq<int>) -> int {
    vstd::math::max(vstd::math::max(s[0], s[1]), vstd::math::max(s[2], s[3]))
}

/// The largest of the four axis run lengths through `index` for color `c`.
pub open spec fn max_axis_run(cells: Seq<Cell>, n: int, index: int, c: Cell) -> int {
    max4(axis_counts(cells, n, index, c))
}

/// What `count_consecutive_cells` reports, as a multiset: the axis run
/// lengths of at least 2 through `index` for `turn`'s color, or nothing when
/// `index` is out of range or the cell there does not hold that color.
pub open spec fn run_lengths(cells: Seq<Cell>, n: int, index: int, c: Cell) -> Multiset<int> {
    if 0 <= index < cells.len() && cells[index] == c {
        axis_counts(cells, n, index, c).to_multiset().filter(|v: int| v >= 2)
    } else {
        Multiset::empty()
    }
}

/// Entries never increase from left to right.
pub open spec fn sorted_desc(s: Seq<usize>) -> bool {
    forall|i: int, j: int| 0 <= i < j < s.len() ==> s[i] >= s[j]
}

/// The column letters for column `x`: one letter per base-26 digit, most
/// significant first, `A` = 0 — the same positional encoding the parser
/// reads back.
pub open spec fn col_letters(x: int) -> Seq<char>
    decreases x
        when x >= 0
{
    if x < 26 {
        seq![(65 + x) as char]
    } else {
        col_letters(x / 26).push((65 + x % 26) as char)
    }
}

/// The decimal digits of `n`, most significant first.
pub open spec fn dec_digits(n: int) -> Seq<char>
    decreases n
        when n >= 0
{
    if n < 10 {
        seq![(48 + n) as char]
    } else {
        dec_digits(n / 10).push((48 + n % 10) as char)
    }
}

/// The text that `index_to_position` renders a cell index as: the column
/// letters, then the 1-indexed row number.
pub open spec fn spec_position(size: int, index: int) -> Seq<char> {
    col_letters(index % size) + dec_digits(index / size + 1)
}

/// The decimal rendering of a nonnegative number consists of digits.
proof fn lemma_dec_digits_are_digits(n: int)
    requires
        0 <= n,
    ensures
        dec_digits(n).len() >= 1,
        forall|i: int|
            0 <= i < dec_digits(n).len() ==> is_digit_char(
                #[trigger] dec_digits(n)[i],
            ),
    decreases n,
{
    vstd::arithmetic::div_mod::lemma_mod_bound(n, 10);
    if n >= 10 {
        vstd::arithmetic::div_mod::lemma_div_pos_is_pos(n, 10);
        vstd::arithmetic::div_mod::lemma_div_is_strictly_smaller(n, 10);
        lemma_dec_digits_are_digits(n / 10);
    }
}

/// Reading the decimal rendering of `n` back as a number yields `n`.
proof fn lemma_dec_digits_value(n: int)
    requires
        0 <= n,
    ensures
        crate::index_parser::digits_val(dec_digits(n)) == n,
    decreases n,
{
    vstd::arithmetic::div_mod::lemma_mod_bound(n, 10);
    vstd::arithmetic::div_mod::lemma_fundamental_div_mod(n, 10);
    assert(crate::index_parser::digits_val(Seq::<char>::empty()) == 0);
    if n < 10 {
        assert(dec_digits(n) =~= seq![(48 + n) as char]);
        assert(dec_digits(n).drop_last() =~= Seq::<char>::empty());
    }
    if n >= 10 {
        vstd::arithmetic::div_mod::lemma_div_pos_is_pos(n, 10);
        vstd::arithmetic::div_mod::lemma_div_is_strictly_smaller(n, 10);
        lemma_dec_digits_value(n / 10);
        assert(dec_digits(n).drop_last() =~= dec_digits(n / 10));
    }
}

/// A scan for digits runs to the end when only digits remain.
proof fn lemma_digit_end_all(s: Seq<char>, i: int)
    requires
        0 <= i <= s.len(),
        forall|j: int| i <= j < s.len() ==> is_digit_char(#[trigger] s[j]),
    ensures
        crate::index_parser::digit_end_from(s, i) == s.len(),
    decreases s.len() - i,
{
    if i < s.len() {
        lemma_digit_end_all(s, i + 1);
    }
}

/// The rendered column letters are uppercase letters, at least one of them.
proof fn lemma_col_letters_are_letters(x: int)
    requires
        0 <= x,
    ensures
        col_letters(x).len() >= 1,
        forall|i: int|
            0 <= i < col_letters(x).len() ==> 65 <= (#[trigger] col_letters(x)[i]) as u32 <= 90,
    decreases x,
{
    vstd::arithmetic::div_mod::lemma_mod_bound(x, 26);
    if x >= 26 {
        vstd::arithmetic::div_mod::lemma_div_pos_is_pos(x, 26);
        vstd::arithmetic::div_mod::lemma_div_is_strictly_smaller(x, 26);
        lemma_col_letters_are_letters(x / 26);
    }
}

/// Reading the rendered letters of `x` back through the grammar gives `x`.
proof fn lemma_alpha_val_of_letters(s: Seq<char>, i: int, x: int)
    requires
        0 <= x,
        0 <= i,
        i + col_letters(x).len() <= s.len(),
        forall|k: int| 0 <= k < col_letters(x).len() ==> s[i + k] == #[trigger] col_letters(x)[k],
    ensures
        alpha_val(s, i, i + col_letters(x).len()) == x,
    decreases x,
{
    vstd::arithmetic::div_mod::lemma_mod_bound(x, 26);
    vstd::arithmetic::div_mod::lemma_fundamental_div_mod(x, 26);
    if x < 26 {
        assert(col_letters(x) =~= seq![(65 + x) as char]);
        assert(alpha_val(s, i, i) == 0);
        assert(col_letters(x)[0] == (65 + x) as char);
        assert(s[i + 0] == col_letters(x)[0]);
        assert(s[i] == (65 + x) as char);
        assert(lower_char(s[i]) as u32 == 97 + x);
    } else {
        vstd::arithmetic::div_mod::lemma_div_pos_is_pos(x, 26);
        vstd::arithmetic::div_mod::lemma_div_is_strictly_smaller(x, 26);
        let prefix = col_letters(x / 26);
        assert(col_letters(x) == prefix.push((65 + x % 26) as char));
        assert forall|k: int| 0 <= k < prefix.len() implies s[i + k] == #[trigger] prefix[k] by {
            assert(col_letters(x)[k] == prefix[k]);
        }
        lemma_alpha_val_of_letters(s, i, x / 26);
        let j = i + col_letters(x).len();
        assert(s[j - 1] == col_letters(x).last());
        assert(s[j - 1] == (65 + x % 26) as char);
        assert(lower_char(s[j - 1]) as u32 == 97 + x % 26);
    }
}

/// A scan for letters stops exactly at the end of a letter block that a
/// non-letter (or the end of the text) follows.
proof fn lemma_alpha_end_run(s: Seq<char>, i: int, j: int)
    requires
        0 <= i <= j <= s.len(),
        forall|k: int| i <= k < j ==> is_alpha_char(#[trigger] s[k]),
        j < s.len() ==> !is_alpha_char(s[j]),
    ensures
        alpha_end_from(s, i) == j,
    decreases j - i,
{
    if i < j {
        lemma_alpha_end_run(s, i + 1, j);
    }
}

/// Round trip: every cell index of any board parses back from its rendered
/// position.
pub proof fn lemma_parse_format_round_trip(size: int, index: int)
    requires
        1 <= size,
        0 <= index < size * size,
    ensures
        spec_parse(size, spec_position(size, index)) == Some(
            ((index / size), (index % size)),
        ),
{
    let col = index % size;
    let row = index / size;
    vstd::arithmetic::div_mod::lemma_fundamental_div_mod(index, size);
    vstd::arithmetic::div_mod::lemma_mod_bound(index, size);
    vstd::arithmetic::div_mod::lemma_div_pos_is_pos(index, size);
    assert(size * size - 1 == (size - 1) * size + (size - 1)) by (nonlinear_arith);
    vstd::arithmetic::div_mod::lemma_fundamental_div_mod_converse(
        size * size - 1,
        size,
        size - 1,
        size - 1,
    );
    vstd::arithmetic::div_mod::lemma_div_is_ordered(index, size * size - 1, size);
    assert(0 <= row < size);
    assert(0 <= col < size);

    let letters = col_letters(col);
    let digits = dec_digits(row + 1);
    let s = spec_position(size, index);
    let ghost ll = letters.len() as int;
    lemma_col_letters_are_letters(col);
    lemma_dec_digits_are_digits(row + 1);
    lemma_dec_digits_value(row + 1);
    assert(s.len() == ll + digits.len());
    assert forall|k: int| 0 <= k < ll implies is_alpha_char(#[trigger] s[k]) && !is_ws_char(s[k])
        && !is_digit_char(s[k]) by {
        assert(s[k] == letters[k]);
        assert(65 <= s[k] as u32 <= 90);
    }
    assert forall|j: int| ll <= j < s.len() implies is_digit_char(#[trigger] s[j]) && !is_ws_char(
        s[j],
    ) && !is_alpha_char(s[j]) by {
        assert(s[j] == digits[j - ll]);
    }

    assert(skip_ws_from(s, 0) == 0);
    lemma_alpha_end_run(s, 0, ll);
    assert(alpha_end_from(s, 0) == ll);
    assert(skip_ws_from(s, ll) == ll);
    lemma_digit_end_all(s, ll);
    assert(digit_end_from(s, ll) == s.len());
    assert(skip_ws_from(s, s.len() as int) == s.len());

    assert forall|k: int| 0 <= k < ll implies s[0 + k] == #[trigger] letters[k] by {}
    lemma_alpha_val_of_letters(s, 0, col);
    assert(alpha_val(s, 0, ll) == col);

    assert forall|k: int| 0 <= k < digits.len() implies digits[k] == #[trigger] s[ll + k] by {}
    lemma_digits_val_matches(s, ll, s.len() as int, digits);
    assert(number_val(s, ll, s.len() as int) == row + 1);
}

/// The character a cell is rendered as.
pub open spec fn symbol_of(c: Cell) -> char {
    match c {
        Cell::Empty => '.',
        Cell::Black => 'X',
        Cell::White => 'O',
    }
}

/// The header of the rendered board: one letter and one space per column.
pub open spec fn header_cols(n: int) -> Seq<char>
    decreases n,
{
    if n <= 0 {
        Seq::empty()
    } else {
        header_cols(n - 1) + seq![(65 + (n - 1)) as char, ' ']
    }
}

/// The right-aligned, width-2 row number followed by a space.
pub open spec fn row_prefix(r: int) -> Seq<char> {
    if r < 10 {
        seq![' ', (48 + r) as char, ' ']
    } else {
        seq![(48 + r / 10) as char, (48 + r % 10) as char, ' ']
    }
}

/// The first `x` cells of row `y`, each rendered as its symbol and a space.
pub open spec fn row_cells(cells: Seq<Cell>, n: int, y: int, x: int) -> Seq<char>
    decreases x,
{
    if x <= 0 {
        Seq::empty()
    } else {
        row_cells(cells, n, y, x - 1) + seq![symbol_of(cells[y * n + (x - 1)]), ' ']
    }
}

/// The first `y` rendered rows, separated by line breaks.
pub open spec fn rows_upto(cells: Seq<Cell>, n: int, y: int) -> Seq<char>
    decreases y,
{
    if y <= 0 {
        Seq::empty()
    } else if y == 1 {
        row_prefix(1) + row_cells(cells, n, 0, n)
    } else {
        rows_upto(cells, n, y - 1) + seq!['\n'] + row_prefix(y) + row_cells(cells, n, y - 1, n)
    }
}

/// The full rendering: three spaces, the column letters, a line break, then
/// the rows, each prefixed with its 1-indexed number.
pub open spec fn spec_render(cells: Seq<Cell>, n: int) -> Seq<char> {
    seq![' ', ' ', ' '] + header_cols(n) + seq!['\n'] + rows_upto(cells, n, n)
}

/// Relies on String::push: appends exactly the given character.
#[verifier::external_body]
fn push_char(s: &mut String, c: char)
    ensures
        final(s)@ == old(s)@.push(c),
{
    s.push(c)
}

/// A side length whose square fits in `usize` is itself small.
proof fn lemma_side_bounds(n: int)
    requires
        0 <= n,
        n * n <= usize::MAX,
    ensures
        n <= 0xFFFF_FFFF,
        2 * n + 2 <= usize::MAX,
{
    assert(usize::MAX <= 0xFFFF_FFFF_FFFF_FFFF);
    assert(usize::MAX >= 0xFFFF_FFFF);
    assert(n <= 0xFFFF_FFFF) by (nonlinear_arith)
        requires
            0 <= n,
            n * n <= 0xFFFF_FFFF_FFFF_FFFF,
    ;
    assert(2 * n + 2 <= usize::MAX) by (nonlinear_arith)
        requires
            0 <= n,
            n * n <= usize::MAX,
            usize::MAX >= 0xFFFF_FFFF,
    ;
}

/// A directed run is nonnegative and no longer than its walk can be.
proof fn lemma_dir_run_bounds(cells: Seq<Cell>, n: int, x: int, y: int, c: Cell, dx: int, dy: int)
    requires
        -1 <= dx <= 1,
        -1 <= dy <= 1,
        dx != 0 || dy != 0,
        0 <= n,
        -1 <= x <= n,
        -1 <= y <= n,
    ensures
        0 <= dir_run(cells, n, x, y, c, dx, dy),
        dir_run(cells, n, x, y, c, dx, dy) <= (if dx >= 0 {
            n - x
        } else {
            x + 1
        }) + (if dy >= 0 {
            n - y
        } else {
            y + 1
        }),
    decreases (if dx >= 0 {
        n - x
    } else {
        x + 1
    }) + (if dy >= 0 {
        n - y
    } else {
        y + 1
    }),
{
    if 0 <= x < n && 0 <= y < n && cells[y * n + x] == c {
        lemma_dir_run_bounds(cells, n, x + dx, y + dy, c, dx, dy);
    }
}

/// The position of a maximal entry of a nonempty vector.
fn max_index(v: &Vec<usize>) -> (mi: usize)
    requires
        v@.len() > 0,
    ensures
        (mi as int) < v@.len(),
        forall|k: int| 0 <= k < v@.len() ==> v@[k] <= v@[mi as int],
    {
    let mut mi: usize = 0;
    let mut j: usize = 1;
    while j < v.len()
        invariant
            (mi as int) < j <= v@.len(),
            forall|k: int| 0 <= k < j ==> v@[k] <= v@[mi as int],
        decreases v@.len() - j,
    {
        if v[j] > v[mi] {
            mi = j;
        }
        j += 1;
    }
    mi
}

/// Selection sort into descending order.
fn sort_desc_vec(v: Vec<usize>) -> (r: Vec<usize>)
    ensures
        sorted_desc(r@),
        r@.to_multiset() == v@.to_multiset(),
        r@.len() == v@.len(),
{
    proof {
        broadcast use vstd::seq_lib::group_to_multiset_ensures;

    }
    let mut src = v;
    let mut out: Vec<usize> = Vec::new();
    let ghost orig = src@;
    while src.len() > 0
        invariant
            out@.to_multiset().add(src@.to_multiset()) == orig.to_multiset(),
            out@.len() + src@.len() == orig.len(),
            sorted_desc(out@),
            forall|i: int, j: int|
                0 <= i < out@.len() && 0 <= j < src@.len() ==> out@[i] >= src@[j],
        decreases src.len(),
    {
        let mi = max_index(&src);
        let ghost pre_src = src@;
        let ghost pre_out = out@;
        let val = src.remove(mi);
        out.push(val);
        proof {
            broadcast use vstd::seq_lib::group_to_multiset_ensures;

            assert(pre_src.to_multiset().contains(val));
            assert(out@.to_multiset().add(src@.to_multiset()) =~= orig.to_multiset());
            assert forall|i: int, j: int|
                0 <= i < out@.len() && 0 <= j < src@.len() implies out@[i] >= src@[j] by {
                assert(src@[j] == if j < mi as int {
                    pre_src[j]
                } else {
                    pre_src[j + 1]
                });
            }
        }
    }
    out
}

/// How often `x` occurs after a list of machine integers is read as a list
/// of mathematical ones: as often as `x` itself did, when it is in range.
proof fn lemma_map_int_count(a: Seq<usize>, x: int)
    ensures
        a.map_values(|w: usize| w as int).to_multiset().count(x) == if 0 <= x <= usize::MAX {
            a.to_multiset().count(x as usize)
        } else {
            0
        },
    decreases a.len(),
{
    broadcast use vstd::seq_lib::group_to_multiset_ensures;

    if a.len() == 0 {
        assert(a.map_values(|w: usize| w as int) =~= Seq::<int>::empty());
        assert(a.map_values(|w: usize| w as int).to_multiset().len() == 0);
        assert(a.to_multiset().len() == 0);
    } else {
        let prefix = a.drop_last();
        lemma_map_int_count(prefix, x);
        assert(a =~= prefix.push(a.last()));
        assert(a.map_values(|w: usize| w as int) =~= prefix.map_values(|w: usize| w as int).push(
            a.last() as int,
        ));
        assert(a.to_multiset() =~= prefix.to_multiset().insert(a.last()));
        assert(a.map_values(|w: usize| w as int).to_multiset() =~= prefix.map_values(
            |w: usize| w as int,
        ).to_multiset().insert(a.last() as int));
    }
}

/// Two lists of machine integers with the same multiset still agree once
/// both are read as lists of mathematical integers.
proof fn lemma_map_int_multiset(a: Seq<usize>, b: Seq<usize>)
    requires
        a.to_multiset() == b.to_multiset(),
    ensures
        a.map_values(|w: usize| w as int).to_multiset() == b.map_values(
            |w: usize| w as int,
        ).to_multiset(),
{
    let am = a.map_values(|w: usize| w as int);
    let bm = b.map_values(|w: usize| w as int);
    assert forall|x: int| #[trigger] am.to_multiset().count(x) == bm.to_multiset().count(x) by {
        lemma_map_int_count(a, x);
        lemma_map_int_count(b, x);
    }
    assert(am.to_multiset() =~= bm.to_multiset());
}

/// After the trailing entries below 2 of a descending-sorted list are cut at
/// position `k`, what is left is exactly the multiset of qualifying entries,
/// headed by the overall maximum.
proof fn lemma_count_consecutive_post(s: Seq<usize>, k: int, axes: Seq<int>)
    requires
        sorted_desc(s),
        s.map_values(|u: usize| u as int).to_multiset() == axes.to_multiset(),
        axes.len() == 4,
        forall|i: int| 0 <= i < 4 ==> axes[i] >= 1,
        0 <= k <= s.len(),
        forall|m: int| k <= m < s.len() ==> s[m] < 2,
        k > 0 ==> s[k - 1] >= 2,
    ensures
        s.map_values(|u: usize| u as int).take(k).to_multiset() == axes.to_multiset().filter(
            |v: int| v >= 2,
        ),
        k > 0 ==> s[0] == max4(axes),
        (k > 0) <==> max4(axes) >= 2,
{
    broadcast use vstd::seq_lib::group_to_multiset_ensures;

    let sm = s.map_values(|u: usize| u as int);
    assert(sm.to_multiset().len() == sm.len());
    assert(axes.to_multiset().len() == axes.len());
    assert(s.len() == 4);
    let t = sm.take(k);
    let u = sm.skip(k);
    assert(sm =~= t + u);
    vstd::seq_lib::lemma_multiset_commutative(t, u);
    assert(sm.to_multiset() == t.to_multiset().add(u.to_multiset()));
    assert forall|x: int| t.to_multiset().contains(x) implies x >= 2 by {
        assert(t.contains(x));
        let i = choose|i: int| 0 <= i < t.len() && t[i] == x;
        assert(s[i] >= s[k - 1]);
    }
    assert forall|x: int| u.to_multiset().contains(x) implies x < 2 by {
        assert(u.contains(x));
        let i = choose|i: int| 0 <= i < u.len() && u[i] == x;
        assert(u[i] == s[k + i]);
    }
    assert forall|x: int|
        #[trigger] t.to_multiset().count(x) == axes.to_multiset().filter(|v: int| v >= 2).count(
            x,
        ) by {
        if x >= 2 {
            if u.to_multiset().count(x) > 0 {
                assert(u.to_multiset().contains(x));
            }
            assert(u.to_multiset().count(x) == 0);
        } else {
            if t.to_multiset().count(x) > 0 {
                assert(t.to_multiset().contains(x));
            }
            assert(t.to_multiset().count(x) == 0);
        }
    }
    assert(t.to_multiset() =~= axes.to_multiset().filter(|v: int| v >= 2));
    // Each axis entry is bounded by the sorted head, and the head is an axis
    // entry itself: with at least one qualifying entry the head is the
    // maximum.
    if k > 0 {
        assert forall|i: int| 0 <= i < 4 implies axes[i] <= s[0] by {
            assert(axes.contains(axes[i]));
            assert(axes.to_multiset().contains(axes[i]));
            assert(sm.to_multiset().contains(axes[i]));
            assert(sm.contains(axes[i]));
            let j = choose|j: int| 0 <= j < sm.len() && sm[j] == axes[i];
            if j > 0 {
                assert(s[0] >= s[j]);
            }
        }
        assert(sm.contains(sm[0]));
        assert(sm.to_multiset().contains(sm[0]));
        assert(axes.to_multiset().contains(sm[0]));
        assert(axes.contains(sm[0]));
        let i0 = choose|i: int| 0 <= i < axes.len() && axes[i] == sm[0];
        assert(s[0] == max4(axes));
        assert(s[0] >= s[k - 1] >= 2);
    } else {
        if max4(axes) >= 2 {
            let ghost m = max4(axes);
            assert(axes.contains(m));
            assert(axes.to_multiset().contains(m));
            assert(sm.to_multiset().contains(m));
            assert(sm.contains(m));
            let j = choose|j: int| 0 <= j < sm.len() && sm[j] == m;
            assert(s[j] < 2);
            assert(false);
        }
    }
}

impl Board {
    /// A board is well formed when it holds exactly `size * size` cells.
    pub open spec fn wf(&self) -> bool {
        self@.cells.len() == self@.size * self@.size
    }

    pub fn new(board_size: usize) -> (r: Board)
        requires
            board_size * board_size <= usize::MAX,
        ensures
            r.wf(),
            r@.size == board_size,
            r@.cells == Seq::new((board_size * board_size) as nat, |i: int| Cell::Empty),
    {
        let total = board_size * board_size;
        let mut cells: Vec<Cell> = Vec::new();
        let mut i: usize = 0;
        while i < total
            invariant
                i <= total,
                cells@.len() == i,
                forall|j: int| 0 <= j < i ==> cells@[j] == Cell::Empty,
            decreases total - i,
        {
            cells.push(Cell::Empty);
            i += 1;
        }
        let r = Board { board_size, cells };
        proof {
            assert(r@.cells =~= Seq::new((board_size * board_size) as nat, |i: int| Cell::Empty));
        }
        r
    }

    pub fn board_size(&self) -> (r: usize)
        ensures
            r == self@.size,
    {
        self.board_size
    }

    pub fn cells(&self) -> (r: &[Cell])
        ensures
            r@ == self@.cells,
    {
        self.cells.as_slice()
    }

    pub fn legal_moves(&self) -> (r: Vec<usize>)
        ensures
            r@ == legal_upto(self@.cells, self@.cells.len() as int),
    {
        let mut r: Vec<usize> = Vec::new();
        let mut i: usize = 0;
        let len = self.cells.len();
        while i < len
            invariant
                i <= len,
                len == self@.cells.len(),
                r@ == legal_upto(self@.cells, i as int),
            decreases len - i,
        {
            if self.cells[i].is_empty() {
                r.push(i);
            }
            i += 1;
        }
        r
    }

    pub fn illegal_moves(&self) -> (r: Vec<usize>)
        ensures
            r@ == illegal_upto(self@.cells, self@.cells.len() as int),
    {
        let mut r: Vec<usize> = Vec::new();
        let mut i: usize = 0;
        let len = self.cells.len();
        while i < len
            invariant
                i <= len,
                len == self@.cells.len(),
                r@ == illegal_upto(self@.cells, i as int),
            decreases len - i,
        {
            if !self.cells[i].is_empty() {
                r.push(i);
            }
            i += 1;
        }
        r
    }

    pub fn get_cell(&self, index: usize) -> (r: Option<Cell>)
        ensures
            r == if index < self@.cells.len() {
                Some(self@.cells[index as int])
            } else {
                None::<Cell>
            },
    {
        if index < self.cells.len() {
            Some(self.cells[index])
        } else {
            None
        }
    }

    /// Parse a coordinate string against this board's size: the row-major
    /// cell index it denotes, or nothing when it fits no form of the grammar
    /// or lies off the board.
    pub fn parse_index(&self, index: &str) -> (r: Option<usize>)
        requires
            self.wf(),
        ensures
            match r {
                Some(u) => spec_parse(self@.size, index@) matches Some(p) && u == p.0 * self@.size
                    + p.1,
                None => spec_parse(self@.size, index@) is None,
            },
    {
        let l = self.cells.len();
        let mut parser = IndexParser::new(self.board_size, index);
        match parser.parse() {
            Some(index) => Some(index.to_index(self.board_size)),
            None => None,
        }
    }

    /// Format a cell index as column letters followed by the 1-indexed row
    /// number; nothing when the index lies off the board.
    pub fn index_to_position(&self, index: usize) -> (r: Option<String>)
        requires
            self.wf(),
        ensures
            match r {
                Some(text) => index < self@.size * self@.size && text@ == spec_position(
                    self@.size,
                    index as int,
                ),
                None => index >= self@.size * self@.size,
            },
    {
        let l = self.cells.len();
        if index >= l {
            return None;
        }
        let n = self.board_size;
        proof {
            assert(1 <= n as int) by (nonlinear_arith)
                requires
                    0 <= index as int,
                    (index as int) < (n as int) * (n as int),
            ;
        }
        let x = index % n;
        let y = index / n;
        let ghost x0 = x as int;

        // column letters gathered least significant first, written out in
        // reverse so that the most significant letter leads
        let mut letters: Vec<char> = Vec::new();
        let mut lx = x;
        proof {
            assert(col_letters(x0) =~= col_letters(x0) + letters@.reverse());
        }
        loop
            invariant_except_break
                col_letters(x0) == col_letters(lx as int) + letters@.reverse(),
            ensures
                letters@.reverse() == col_letters(x0),
            decreases lx as int,
        {
            let d = (lx % 26) as u8;
            letters.push((65 + d) as char);
            let ghost pre_lx = lx as int;
            lx = lx / 26;
            proof {
                assert(letters@.reverse() =~= seq![(65 + pre_lx % 26) as char]
                    + letters@.drop_last().reverse());
                if pre_lx < 26 {
                    assert(col_letters(pre_lx) =~= seq![(65 + pre_lx) as char]);
                    assert(letters@.reverse() =~= col_letters(x0));
                } else {
                    assert(col_letters(pre_lx) =~= col_letters(pre_lx / 26).push(
                        (65 + pre_lx % 26) as char,
                    ));
                    assert(col_letters(x0) =~= col_letters(lx as int) + letters@.reverse());
                }
            }
            if lx == 0 {
                break;
            }
        }

        let mut result = String::new();
        let lcount = letters.len();
        let mut lj: usize = 0;
        proof {
            assert(result@ =~= letters@.reverse().take(0));
        }
        while lj < lcount
            invariant
                lj <= lcount,
                lcount == letters@.len(),
                letters@.reverse() == col_letters(x0),
                result@ == letters@.reverse().take(lj as int),
            decreases lcount - lj,
        {
            push_char(&mut result, letters[lcount - 1 - lj]);
            proof {
                assert(letters@.reverse()[lj as int] == letters@[lcount - 1 - lj]);
                assert(result@ =~= letters@.reverse().take(lj + 1));
            }
            lj = lj + 1;
        }
        proof {
            assert(letters@.reverse().take(lcount as int) =~= letters@.reverse());
            assert(result@ =~= col_letters(x0));
        }

        let row_num = y + 1;
        let mut digits: Vec<char> = Vec::new();
        let mut m = row_num;
        proof {
            assert(dec_digits(row_num as int) =~= dec_digits(row_num as int) + digits@.reverse());
        }
        loop
            invariant_except_break
                dec_digits(row_num as int) == dec_digits(m as int) + digits@.reverse(),
            ensures
                digits@.reverse() == dec_digits(row_num as int),
            decreases m as int,
        {
            let d = (m % 10) as u8;
            digits.push((48 + d) as char);
            let ghost pre_m = m as int;
            m = m / 10;
            proof {
                assert(digits@.reverse() =~= seq![(48 + pre_m % 10) as char]
                    + digits@.drop_last().reverse());
                if pre_m < 10 {
                    assert(dec_digits(pre_m) =~= seq![(48 + pre_m) as char]);
                    assert(digits@.reverse() =~= dec_digits(row_num as int));
                } else {
                    assert(dec_digits(pre_m) =~= dec_digits(pre_m / 10).push(
                        (48 + pre_m % 10) as char,
                    ));
                    assert(dec_digits(row_num as int) =~= dec_digits(m as int) + digits@.reverse());
                }
            }
            if m == 0 {
                break;
            }
        }

        let ghost final_text = col_letters(x0) + dec_digits(row_num as int);
        let count = digits.len();
        let mut j: usize = 0;
        proof {
            assert(result@ =~= col_letters(x0) + digits@.reverse().take(0));
        }
        while j < count
            invariant
                j <= count,
                count == digits@.len(),
                digits@.reverse() == dec_digits(row_num as int),
                result@ == col_letters(x0) + digits@.reverse().take(j as int),
            decreases count - j,
        {
            push_char(&mut result, digits[count - 1 - j]);
            proof {
                assert(digits@.reverse()[j as int] == digits@[count - 1 - j]);
                assert(result@ =~= col_letters(x0) + digits@.reverse().take(j + 1));
            }
            j = j + 1;
        }
        proof {
            assert(digits@.reverse().take(count as int) =~= digits@.reverse());
            assert(result@ =~= spec_position(self@.size, index as int));
        }
        Some(result)
    }

    /// Render the board as text: a header row of column letters, then each
    /// row prefixed with its 1-indexed number, cells as `.` for empty, `X`
    /// for black and `O` for white.
    pub fn render(&self) -> (r: String)
        requires
            self.wf(),
            1 <= self@.size <= 26,
        ensures
            r@ == spec_render(self@.cells, self@.size),
    {
        let n = self.board_size;
        let mut result = String::new();
        push_char(&mut result, ' ');
        push_char(&mut result, ' ');
        push_char(&mut result, ' ');
        let mut x: usize = 0;
        proof {
            assert(result@ =~= seq![' ', ' ', ' '] + header_cols(0));
        }
        while x < n
            invariant
                x <= n <= 26,
                result@ == seq![' ', ' ', ' '] + header_cols(x as int),
            decreases n - x,
        {
            push_char(&mut result, (65 + x as u8) as char);
            push_char(&mut result, ' ');
            proof {
                assert(result@ =~= seq![' ', ' ', ' '] + header_cols(x + 1));
            }
            x = x + 1;
        }
        push_char(&mut result, '\n');
        let ghost head = seq![' ', ' ', ' '] + header_cols(n as int) + seq!['\n'];
        proof {
            assert(result@ =~= head + rows_upto(self@.cells, n as int, 0));
        }
        let mut y: usize = 0;
        while y < n
            invariant
                y <= n <= 26,
                1 <= n,
                self.wf(),
                n == self@.size,
                head == seq![' ', ' ', ' '] + header_cols(n as int) + seq!['\n'],
                result@ == head + rows_upto(self@.cells, n as int, y as int),
            decreases n - y,
        {
            if y > 0 {
                push_char(&mut result, '\n');
            }
            let row_number = y + 1;
            if row_number < 10 {
                push_char(&mut result, ' ');
                push_char(&mut result, (48 + row_number as u8) as char);
                push_char(&mut result, ' ');
            } else {
                push_char(&mut result, (48 + (row_number / 10) as u8) as char);
                push_char(&mut result, (48 + (row_number % 10) as u8) as char);
                push_char(&mut result, ' ');
            }
            let ghost row_start = result@;
            proof {
                assert(row_start =~= head + rows_upto(self@.cells, n as int, y as int) + (if y
                    > 0 {
                    seq!['\n']
                } else {
                    Seq::<char>::empty()
                }) + row_prefix(y + 1));
                assert(row_start + row_cells(self@.cells, n as int, y as int, 0) =~= row_start);
            }
            let mut cx: usize = 0;
            while cx < n
                invariant
                    cx <= n <= 26,
                    self.wf(),
                    n == self@.size,
                    y < n,
                    result@ == row_start + row_cells(self@.cells, n as int, y as int, cx as int),
                decreases n - cx,
            {
                proof {
                    assert((y as int) * (n as int) + (cx as int) < (n as int) * (n as int) && (
                    n as int) * (n as int) <= 676) by (nonlinear_arith)
                        requires
                            0 <= (cx as int) < (n as int),
                            0 <= (y as int) < (n as int),
                            n as int <= 26,
                    ;
                }
                let cell = self.cells[y * n + cx];
                push_char(&mut result, cell.symbol());
                push_char(&mut result, ' ');
                proof {
                    assert(result@ =~= row_start + row_cells(
                        self@.cells,
                        n as int,
                        y as int,
                        cx + 1,
                    ));
                }
                cx = cx + 1;
            }
            proof {
                if y == 0 {
                    assert(rows_upto(self@.cells, n as int, 1) =~= row_prefix(1) + row_cells(
                        self@.cells,
                        n as int,
                        0,
                        n as int,
                    ));
                    assert(result@ =~= head + rows_upto(self@.cells, n as int, 1));
                } else {
                    assert(result@ =~= head + rows_upto(self@.cells, n as int, y + 1));
                }
            }
            y = y + 1;
        }
        result
    }

    fn count_consecutive_cells_in_direction(
        &self,
        x: i64,
        y: i64,
        cell: Cell,
        x_delta: i64,
        y_delta: i64,
    ) -> (count: usize)
        requires
            self.wf(),
            1 <= self@.size,
            -1 <= x_delta <= 1,
            -1 <= y_delta <= 1,
            x_delta != 0 || y_delta != 0,
            -1 <= x <= self@.size,
            -1 <= y <= self@.size,
        ensures
            count == dir_run(
                self@.cells,
                self@.size,
                x as int,
                y as int,
                cell,
                x_delta as int,
                y_delta as int,
            ),
    {
        let l = self.cells.len();
        proof {
            lemma_side_bounds(self@.size);
        }
        let n = self.board_size;
        let n_i = n as i64;
        let mut cx = x;
        let mut cy = y;
        let mut count: usize = 0;
        loop
            invariant
                self.wf(),
                1 <= self@.size,
                n == self@.size,
                n_i == n as i64,
                l == self@.cells.len(),
                -1 <= x_delta <= 1,
                -1 <= y_delta <= 1,
                x_delta != 0 || y_delta != 0,
                -1 <= cx <= n,
                -1 <= cy <= n,
                count + (if x_delta >= 0 {
                    n as int - cx
                } else {
                    cx + 1
                }) + (if y_delta >= 0 {
                    n as int - cy
                } else {
                    cy + 1
                }) <= 2 * (n as int) + 2,
                2 * (n as int) + 2 <= usize::MAX,
                dir_run(
                    self@.cells,
                    n as int,
                    x as int,
                    y as int,
                    cell,
                    x_delta as int,
                    y_delta as int,
                ) == count + dir_run(
                    self@.cells,
                    n as int,
                    cx as int,
                    cy as int,
                    cell,
                    x_delta as int,
                    y_delta as int,
                ),
            ensures
                count == dir_run(
                    self@.cells,
                    n as int,
                    x as int,
                    y as int,
                    cell,
                    x_delta as int,
                    y_delta as int,
                ),
            decreases (if x_delta >= 0 {
                n_i - cx
            } else {
                cx + 1
            }) + (if y_delta >= 0 {
                n_i - cy
            } else {
                cy + 1
            }),
        {
            if !(0 <= cx && cx < n_i && 0 <= cy && cy < n_i) {
                break;
            }
            proof {
                assert((cy as int) * (n as int) + (cx as int) < (n as int) * (n as int))
                    by (nonlinear_arith)
                    requires
                        0 <= (cx as int) && (cx as int) < (n as int),
                        0 <= (cy as int) && (cy as int) < (n as int),
                ;
                assert((cy as usize) * n + (cx as usize) < l);
            }
            let idx = (cy as usize) * n + (cx as usize);
            if self.cells[idx] != cell {
                break;
            }
            count = count + 1;
            cx = cx + x_delta;
            cy = cy + y_delta;
        }
        count
    }

    /// Count the consecutive same-colored runs through `index` for `turn`'s
    /// color, one entry per axis, sorted in descending order; entries below 2
    /// are dropped. An out-of-range index or a cell that does not hold the
    /// color yields an empty list.
    #[verifier::rlimit(30)]
    pub fn count_consecutive_cells(&self, index: usize, turn: Turn) -> (r: Vec<
        usize,
    >)
        requires
            self.wf(),
        ensures
            sorted_desc(r@),
            r@.map_values(|u: usize| u as int).to_multiset() == run_lengths(
                self@.cells,
                self@.size,
                index as int,
                cell_of(turn),
            ),
            r@.len() > 0 ==> r@[0] == max_axis_run(
                self@.cells,
                self@.size,
                index as int,
                cell_of(turn),
            ),
            r@.len() > 0 <==> (index < self@.cells.len() && self@.cells[index as int]
                == cell_of(turn) && max_axis_run(
                self@.cells,
                self@.size,
                index as int,
                cell_of(turn),
            ) >= 2),
    {
        proof {
            broadcast use vstd::seq_lib::group_to_multiset_ensures;

        }
        let ghost c_spec = cell_of(turn);
        let l = self.cells.len();
        if index >= l {
            let r: Vec<usize> = Vec::new();
            proof {
                assert(r@.map_values(|u: usize| u as int) =~= Seq::<int>::empty());
                assert(Seq::<int>::empty().to_multiset() =~= Multiset::<int>::empty());
            }
            return r;
        }
        let cell = self.cells[index];
        let turn_cell = Cell::from(turn);
        if cell != turn_cell {
            let r: Vec<usize> = Vec::new();
            proof {
                assert(r@.map_values(|u: usize| u as int) =~= Seq::<int>::empty());
                assert(Seq::<int>::empty().to_multiset() =~= Multiset::<int>::empty());
            }
            return r;
        }
        proof {
            lemma_side_bounds(self@.size);
        }
        let n = self.board_size;
        proof {
            assert(1 <= n as int) by (nonlinear_arith)
                requires
                    0 <= index as int,
                    (index as int) < (n as int) * (n as int),
            ;
        }
        let x = (index % n) as i64;
        let y = (index / n) as i64;
        proof {
            assert(0 <= (index as int) % (n as int) < n as int);
            assert(0 <= (index as int) / (n as int) < n as int) by (nonlinear_arith)
                requires
                    0 <= index as int,
                    (index as int) < (n as int) * (n as int),
                    1 <= n as int,
            ;
            lemma_dir_run_bounds(self@.cells, n as int, x + 1, y as int, cell, 1, 0);
            lemma_dir_run_bounds(self@.cells, n as int, x - 1, y as int, cell, -1, 0);
            lemma_dir_run_bounds(self@.cells, n as int, x as int, y + 1, cell, 0, 1);
            lemma_dir_run_bounds(self@.cells, n as int, x as int, y - 1, cell, 0, -1);
            lemma_dir_run_bounds(self@.cells, n as int, x + 1, y - 1, cell, 1, -1);
            lemma_dir_run_bounds(self@.cells, n as int, x - 1, y + 1, cell, -1, 1);
            lemma_dir_run_bounds(self@.cells, n as int, x + 1, y + 1, cell, 1, 1);
            lemma_dir_run_bounds(self@.cells, n as int, x - 1, y - 1, cell, -1, -1);
            assert(4 * (n as int) + 6 <= usize::MAX) by (nonlinear_arith)
                requires
                    1 <= n as int,
                    (n as int) * (n as int) <= usize::MAX,
                    usize::MAX >= 0xFFFF_FFFF,
            ;
        }
        let c0 = 1 + self.count_consecutive_cells_in_direction(x + 1, y, cell, 1, 0)
            + self.count_consecutive_cells_in_direction(x - 1, y, cell, -1, 0);
        let c1 = 1 + self.count_consecutive_cells_in_direction(x, y + 1, cell, 0, 1)
            + self.count_consecutive_cells_in_direction(x, y - 1, cell, 0, -1);
        let c2 = 1 + self.count_consecutive_cells_in_direction(x + 1, y - 1, cell, 1, -1)
            + self.count_consecutive_cells_in_direction(x - 1, y + 1, cell, -1, 1);
        let c3 = 1 + self.count_consecutive_cells_in_direction(x + 1, y + 1, cell, 1, 1)
            + self.count_consecutive_cells_in_direction(x - 1, y - 1, cell, -1, -1);
        let mut counts: Vec<usize> = Vec::new();
        counts.push(c0);
        counts.push(c1);
        counts.push(c2);
        counts.push(c3);
        let ghost axes = axis_counts(self@.cells, self@.size, index as int, c_spec);
        proof {
            assert(counts@.map_values(|u: usize| u as int) =~= axes);
        }
        let sorted = sort_desc_vec(counts);
        let mut out = sorted;
        let ghost sorted_view = out@;
        proof {
            assert(out@ =~= sorted_view.take(out@.len() as int));
        }
        while out.len() > 0 && out[out.len() - 1] < 2
            invariant
                sorted_desc(sorted_view),
                out@.len() <= sorted_view.len(),
                out@ == sorted_view.take(out@.len() as int),
                forall|k: int| out@.len() <= k < sorted_view.len() ==> sorted_view[k] < 2,
            decreases out.len(),
        {
            let ghost k = out@.len() as int;
            out.pop();
            proof {
                assert forall|i: int| 0 <= i < out@.len() implies out@[i] == sorted_view[i] by {
                    assert(out@[i] == sorted_view.take(k)[i]);
                }
                assert(out@ =~= sorted_view.take(out@.len() as int));
            }
        }
        proof {
            lemma_map_int_multiset(sorted_view, counts@);
            lemma_count_consecutive_post(sorted_view, out@.len() as int, axes);
            assert(out@.map_values(|u: usize| u as int) =~= sorted_view.map_values(
                |u: usize| u as int,
            ).take(out@.len() as int));
        }
        out
    }

    pub fn set_cell(&mut self, index: usize, cell: Cell)
        requires
            index < old(self)@.cells.len(),
        ensures
            final(self)@.size == old(self)@.size,
            final(self)@.cells == old(self)@.cells.update(index as int, cell),
    {
        self.cells[index] = cell;
    }
}

} // verus!
