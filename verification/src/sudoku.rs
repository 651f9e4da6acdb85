//! A generalized Sudoku board and a backtracking solver.
//!
//! A board is an `n`-by-`n` square of cells, where `n` has an integer square
//! root; the board is partitioned into `sqrt(n)`-by-`sqrt(n)` sub-boxes. A
//! cell is either a puzzle-given `Constant` value, a solver- or user-placed
//! `Variable` value, or `Empty`. A board is valid when no row, column or
//! sub-box holds the same value twice among its non-empty cells, and solved
//! when it is valid and no cell is empty.

use vstd::arithmetic::div_mod::lemma_fundamental_div_mod;
use vstd::arithmetic::div_mod::lemma_fundamental_div_mod_converse;
use vstd::prelude::*;

verus! {

/// One position's content: a value placed by the solver or by editing, a
/// value given by the puzzle, or nothing.
#[derive(Clone, Copy, PartialEq, Eq, Structural, Debug)]
pub enum Cell {
    Variable(u8),
    Constant(u8),
    Empty,
}

/// A square grid of cells, stored row-major: the cell at column `x`, row `y`
/// is `squares[y * n + x]`.
#[derive(Clone, PartialEq, Debug)]
pub struct Board {
    pub squares: Vec<Cell>,
    pub n: usize,
}

/// Whether the cell holds a value.
pub open spec fn occupied(c: Cell) -> bool {
    !(c is Empty)
}

/// The value a non-empty cell holds (0 for an empty cell).
pub open spec fn cell_value(c: Cell) -> u8 {
    match c {
        Cell::Variable(v) => v,
        Cell::Constant(v) => v,
        Cell::Empty => 0,
    }
}

/// Whether `n` is a perfect square.
pub open spec fn is_square(n: int) -> bool {
    exists|r: int| 0 <= r && #[trigger] (r * r) == n
}

/// The side length of a sub-box: the square root of the board side `n`.
pub open spec fn box_side(n: int) -> int {
    choose|r: int| 0 <= r && #[trigger] (r * r) == n
}

/// The row-major index of column `x`, row `y` on a board of side `n`.
pub open spec fn pos(n: int, x: int, y: int) -> int {
    y * n + x
}

/// Whether (`x`, `y`) is a position on a board of side `n`.
pub open spec fn in_grid(n: int, x: int, y: int) -> bool {
    0 <= x < n && 0 <= y < n
}

/// The cell at column `x`, row `y` of the row-major cell sequence `s`.
pub open spec fn cell_at(s: Seq<Cell>, n: int, x: int, y: int) -> Cell {
    s[pos(n, x, y)]
}

/// No two distinct non-empty cells of row `y` share a value.
pub open spec fn row_ok(s: Seq<Cell>, n: int, y: int) -> bool {
    forall|x1: int, x2: int|
        0 <= x1 < n && 0 <= x2 < n && x1 != x2 && occupied(#[trigger] cell_at(s, n, x1, y))
            && occupied(#[trigger] cell_at(s, n, x2, y))
            ==> cell_value(cell_at(s, n, x1, y)) != cell_value(cell_at(s, n, x2, y))
}

/// No two distinct non-empty cells of column `x` share a value.
pub open spec fn col_ok(s: Seq<Cell>, n: int, x: int) -> bool {
    forall|y1: int, y2: int|
        0 <= y1 < n && 0 <= y2 < n && y1 != y2 && occupied(#[trigger] cell_at(s, n, x, y1))
            && occupied(#[trigger] cell_at(s, n, x, y2))
            ==> cell_value(cell_at(s, n, x, y1)) != cell_value(cell_at(s, n, x, y2))
}

/// No two distinct non-empty cells of the `sn`-by-`sn` sub-box containing
/// (`x`, `y`) share a value.
pub open spec fn box_ok(s: Seq<Cell>, n: int, sn: int, x: int, y: int) -> bool {
    forall|x1: int, y1: int, x2: int, y2: int|
        in_grid(n, x1, y1) && in_grid(n, x2, y2) && x1 / sn == x / sn && y1 / sn == y / sn
            && x2 / sn == x / sn && y2 / sn == y / sn && (x1 != x2 || y1 != y2)
            && occupied(#[trigger] cell_at(s, n, x1, y1))
            && occupied(#[trigger] cell_at(s, n, x2, y2))
            ==> cell_value(cell_at(s, n, x1, y1)) != cell_value(cell_at(s, n, x2, y2))
}

/// The row, column and sub-box through (`x`, `y`) are each free of
/// duplicated values.
pub open spec fn cell_ok(s: Seq<Cell>, n: int, sn: int, x: int, y: int) -> bool {
    row_ok(s, n, y) && col_ok(s, n, x) && box_ok(s, n, sn, x, y)
}

/// Every row, column and sub-box is free of duplicated values.
pub open spec fn valid(s: Seq<Cell>, n: int, sn: int) -> bool {
    &&& forall|y: int| 0 <= y < n ==> #[trigger] row_ok(s, n, y)
    &&& forall|x: int| 0 <= x < n ==> #[trigger] col_ok(s, n, x)
    &&& forall|x: int, y: int| in_grid(n, x, y) ==> #[trigger] box_ok(s, n, sn, x, y)
}

/// No cell is empty.
pub open spec fn complete(s: Seq<Cell>) -> bool {
    forall|i: int| 0 <= i < s.len() ==> occupied(#[trigger] s[i])
}

/// Every cell at index `p` or later is a puzzle-given `Constant` or `Empty`:
/// nothing the solver would have to preserve has been placed there yet.
pub open spec fn const_or_empty_from(s: Seq<Cell>, p: int) -> bool {
    forall|i: int| p <= i < s.len() ==> (#[trigger] s[i]) is Constant || s[i] is Empty
}

/// The cell is a placed value between 1 and `n`.
pub open spec fn assigned_in_range(c: Cell, n: int) -> bool {
    c matches Cell::Variable(v) && 1 <= v && v <= n
}

/// `e` is a candidate solution for the board `s` as seen from index `p` of
/// the row-major traversal: it keeps every cell before `p` and every
/// `Constant` cell, and places a value between 1 and `n` everywhere else.
pub open spec fn is_extension(s: Seq<Cell>, n: int, p: int, e: Seq<Cell>) -> bool {
    &&& e.len() == n * n
    &&& forall|i: int| 0 <= i < p ==> #[trigger] e[i] == s[i]
    &&& forall|i: int|
        p <= i < n * n ==> (if s[i] is Constant {
            (#[trigger] e[i]) == s[i]
        } else {
            assigned_in_range(e[i], n)
        })
}

/// Some valid candidate solution extends `s` from index `p` onward.
pub open spec fn solvable_from(s: Seq<Cell>, n: int, sn: int, p: int) -> bool {
    exists|e: Seq<Cell>| #[trigger] is_extension(s, n, p, e) && valid(e, n, sn)
}

/// `b` answers `g` as seen from index `p` of the row-major traversal: `b` is
/// complete and valid, keeps every cell of `g` before `p` and every
/// `Constant` cell after it, and places a value between 1 and `n` on every
/// other cell.
spec fn search_solution(g: Board, p: int, b: Board) -> bool {
    &&& b.wf()
    &&& b.n == g.n
    &&& complete(b@)
    &&& valid(b@, g.n as int, box_side(g.n as int))
    &&& forall|i: int| 0 <= i < p ==> #[trigger] b@[i] == g@[i]
    &&& forall|i: int|
        p <= i < g.n * g.n ==> (if g@[i] is Constant {
            (#[trigger] b@[i]) == g@[i]
        } else {
            assigned_in_range(b@[i], g.n as int)
        })
}

/// `b` solves the puzzle `g`: it is complete and valid, keeps every
/// `Constant` cell of `g`, and places a value between 1 and `n` on every
/// other cell.
pub open spec fn is_solution_for(b: Board, g: Board) -> bool {
    &&& b.wf()
    &&& b.n == g.n
    &&& complete(b@)
    &&& valid(b@, g.n as int, box_side(g.n as int))
    &&& forall|i: int|
        0 <= i < g.n * g.n ==> (if g@[i] is Constant {
            (#[trigger] b@[i]) == g@[i]
        } else {
            assigned_in_range(b@[i], g.n as int)
        })
}

/// The two positions share a row, a column or a sub-box of side `sn`.
pub open spec fn same_unit(sn: int, x1: int, y1: int, x2: int, y2: int) -> bool {
    y1 == y2 || x1 == x2 || (x1 / sn == x2 / sn && y1 / sn == y2 / sn)
}

/// Among the cells whose row-major index is below `p`, no two distinct
/// non-empty cells of a shared row, column or sub-box hold the same value.
pub open spec fn prefix_valid(s: Seq<Cell>, n: int, sn: int, p: int) -> bool {
    forall|x1: int, y1: int, x2: int, y2: int|
        in_grid(n, x1, y1) && in_grid(n, x2, y2) && pos(n, x1, y1) < p && pos(n, x2, y2) < p && (x1
            != x2 || y1 != y2) && same_unit(sn, x1, y1, x2, y2) && occupied(
            #[trigger] cell_at(s, n, x1, y1),
        ) && occupied(#[trigger] cell_at(s, n, x2, y2)) ==> cell_value(cell_at(s, n, x1, y1))
            != cell_value(cell_at(s, n, x2, y2))
}

proof fn lemma_sqrt_unique(a: int, b: int)
    by (nonlinear_arith)
    requires
        0 <= a,
        0 <= b,
        a * a == b * b,
    ensures
        a == b,
{
}

proof fn lemma_box_side(n: int)
    requires
        is_square(n),
    ensures
        0 <= box_side(n),
        box_side(n) * box_side(n) == n,
{
    let r = choose|r: int| 0 <= r && #[trigger] (r * r) == n;
    assert(box_side(n) == r);
}

proof fn lemma_pos_bound(n: int, x: int, y: int)
    by (nonlinear_arith)
    requires
        in_grid(n, x, y),
    ensures
        0 <= pos(n, x, y) < n * n,
{
}

/// Distinct positions have distinct row-major indices.
proof fn lemma_pos_unique(n: int, x1: int, y1: int, x2: int, y2: int)
    requires
        in_grid(n, x1, y1),
        in_grid(n, x2, y2),
        pos(n, x1, y1) == pos(n, x2, y2),
    ensures
        x1 == x2 && y1 == y2,
{
    lemma_fundamental_div_mod_converse(pos(n, x1, y1), n, y1, x1);
    lemma_fundamental_div_mod_converse(pos(n, x2, y2), n, y2, x2);
}

/// The cells at box offsets (`dx1`, `dy1`) and (`dx2`, `dy2`) from the box
/// corner (`x0`, `y0`) do not hold the same value, unless they coincide or
/// one is empty.
spec fn box_pair_ok(
    s: Seq<Cell>,
    n: int,
    x0: int,
    y0: int,
    dx1: int,
    dy1: int,
    dx2: int,
    dy2: int,
) -> bool {
    (dx1 != dx2 || dy1 != dy2) && occupied(cell_at(s, n, x0 + dx1, y0 + dy1)) && occupied(
        cell_at(s, n, x0 + dx2, y0 + dy2),
    ) ==> cell_value(cell_at(s, n, x0 + dx1, y0 + dy1)) != cell_value(
        cell_at(s, n, x0 + dx2, y0 + dy2),
    )
}

/// Facts about the sub-box containing column (or row) coordinate `x`:
/// its corner coordinate, its extent, and the box index of its members.
proof fn lemma_box_coords(n: int, sn: int, x: int)
    requires
        0 < sn,
        sn * sn == n,
        0 <= x < n,
    ensures
        0 <= x / sn < sn,
        (x / sn) * sn <= x < (x / sn) * sn + sn,
        (x / sn) * sn + sn <= n,
        forall|d: int| 0 <= d < sn ==> #[trigger] (((x / sn) * sn + d) / sn) == x / sn,
{
    lemma_fundamental_div_mod(x, sn);
    vstd::arithmetic::div_mod::lemma_mod_division_less_than_divisor(x, sn);
    vstd::arithmetic::div_mod::lemma_div_pos_is_pos(x, sn);
    vstd::arithmetic::div_mod::lemma_multiply_divide_lt(x, sn, sn);
    assert((x / sn) * sn + sn <= sn * sn) by (nonlinear_arith)
        requires
            x / sn < sn,
            0 < sn,
    ;
    assert forall|d: int| 0 <= d < sn implies #[trigger] (((x / sn) * sn + d) / sn) == x
        / sn by {
        lemma_fundamental_div_mod_converse((x / sn) * sn + d, sn, x / sn, d);
    }
}

/// A grid whose prefix-validity reaches the last cell is valid outright.
proof fn lemma_valid_of_full_prefix(s: Seq<Cell>, n: int, sn: int)
    requires
        0 < sn,
        sn * sn == n,
        s.len() == n * n,
        prefix_valid(s, n, sn, n * n),
    ensures
        valid(s, n, sn),
{
    assert forall|y: int| 0 <= y < n implies #[trigger] row_ok(s, n, y) by {
        assert forall|x1: int, x2: int|
            0 <= x1 < n && 0 <= x2 < n && x1 != x2 && occupied(#[trigger] cell_at(s, n, x1, y))
                && occupied(#[trigger] cell_at(s, n, x2, y)) implies cell_value(
            cell_at(s, n, x1, y),
        ) != cell_value(cell_at(s, n, x2, y)) by {
            lemma_pos_bound(n, x1, y);
            lemma_pos_bound(n, x2, y);
        }
    }
    assert forall|x: int| 0 <= x < n implies #[trigger] col_ok(s, n, x) by {
        assert forall|y1: int, y2: int|
            0 <= y1 < n && 0 <= y2 < n && y1 != y2 && occupied(#[trigger] cell_at(s, n, x, y1))
                && occupied(#[trigger] cell_at(s, n, x, y2)) implies cell_value(
            cell_at(s, n, x, y1),
        ) != cell_value(cell_at(s, n, x, y2)) by {
            lemma_pos_bound(n, x, y1);
            lemma_pos_bound(n, x, y2);
        }
    }
    assert forall|x: int, y: int| in_grid(n, x, y) implies #[trigger] box_ok(s, n, sn, x, y) by {
        assert forall|x1: int, y1: int, x2: int, y2: int|
            in_grid(n, x1, y1) && in_grid(n, x2, y2) && x1 / sn == x / sn && y1 / sn == y / sn
                && x2 / sn == x / sn && y2 / sn == y / sn && (x1 != x2 || y1 != y2) && occupied(
                #[trigger] cell_at(s, n, x1, y1),
            ) && occupied(#[trigger] cell_at(s, n, x2, y2)) implies cell_value(
            cell_at(s, n, x1, y1),
        ) != cell_value(cell_at(s, n, x2, y2)) by {
            lemma_pos_bound(n, x1, y1);
            lemma_pos_bound(n, x2, y2);
            assert(same_unit(sn, x1, y1, x2, y2));
        }
    }
}

/// Prefix-validity advances over the cell at (`x`, `y`) once the row, column
/// and sub-box through that cell check out.
proof fn lemma_prefix_valid_extend(s: Seq<Cell>, n: int, sn: int, x: int, y: int)
    requires
        0 < sn,
        sn * sn == n,
        s.len() == n * n,
        in_grid(n, x, y),
        prefix_valid(s, n, sn, pos(n, x, y)),
        row_ok(s, n, y),
        col_ok(s, n, x),
        box_ok(s, n, sn, x, y),
    ensures
        prefix_valid(s, n, sn, pos(n, x, y) + 1),
{
    let p = pos(n, x, y);
    assert forall|x1: int, y1: int, x2: int, y2: int|
        in_grid(n, x1, y1) && in_grid(n, x2, y2) && pos(n, x1, y1) < p + 1 && pos(n, x2, y2) < p
            + 1 && (x1 != x2 || y1 != y2) && same_unit(sn, x1, y1, x2, y2) && occupied(
            #[trigger] cell_at(s, n, x1, y1),
        ) && occupied(#[trigger] cell_at(s, n, x2, y2)) implies cell_value(cell_at(s, n, x1, y1))
        != cell_value(cell_at(s, n, x2, y2)) by {
        lemma_pos_bound(n, x1, y1);
        lemma_pos_bound(n, x2, y2);
        if pos(n, x1, y1) == p {
            lemma_pos_unique(n, x1, y1, x, y);
        }
        if pos(n, x2, y2) == p {
            lemma_pos_unique(n, x2, y2, x, y);
        }
    }
}

/// Prefix-validity depends only on the cells below the prefix bound.
proof fn lemma_prefix_valid_congruence(s1: Seq<Cell>, s2: Seq<Cell>, n: int, sn: int, p: int)
    requires
        s1.len() == n * n,
        s2.len() == n * n,
        forall|i: int| 0 <= i < p ==> #[trigger] s1[i] == s2[i],
        prefix_valid(s1, n, sn, p),
    ensures
        prefix_valid(s2, n, sn, p),
{
    assert forall|x1: int, y1: int, x2: int, y2: int|
        in_grid(n, x1, y1) && in_grid(n, x2, y2) && pos(n, x1, y1) < p && pos(n, x2, y2) < p && (x1
            != x2 || y1 != y2) && same_unit(sn, x1, y1, x2, y2) && occupied(
            #[trigger] cell_at(s2, n, x1, y1),
        ) && occupied(#[trigger] cell_at(s2, n, x2, y2)) implies cell_value(cell_at(s2, n, x1, y1))
        != cell_value(cell_at(s2, n, x2, y2)) by {
        lemma_pos_bound(n, x1, y1);
        lemma_pos_bound(n, x2, y2);
        assert(s1[pos(n, x1, y1)] == s2[pos(n, x1, y1)]);
        assert(s1[pos(n, x2, y2)] == s2[pos(n, x2, y2)]);
        assert(occupied(cell_at(s1, n, x1, y1)) && occupied(cell_at(s1, n, x2, y2)));
    }
}

/// A non-empty cell of `g` that sits at or before index `p`, or is a
/// `Constant`, keeps its content in `e`.
proof fn lemma_preserved(g: Seq<Cell>, e: Seq<Cell>, n: int, p: int, x1: int, y1: int)
    requires
        g.len() == n * n,
        e.len() == n * n,
        in_grid(n, x1, y1),
        const_or_empty_from(g, p + 1),
        occupied(cell_at(g, n, x1, y1)),
        forall|i: int| 0 <= i <= p ==> #[trigger] e[i] == g[i],
        forall|i: int| p < i < n * n && (#[trigger] g[i]) is Constant ==> e[i] == g[i],
    ensures
        cell_at(e, n, x1, y1) == cell_at(g, n, x1, y1),
{
    lemma_pos_bound(n, x1, y1);
    let i = pos(n, x1, y1);
    if i <= p {
        assert(e[i] == g[i]);
    } else {
        assert(g[i] is Constant);
        assert(e[i] == g[i]);
    }
}

/// When the row, column or sub-box through (`x`, `y`) already conflicts in
/// `g`, no grid that keeps `g`'s cells up to index `p` and its `Constant`
/// cells can be valid.
proof fn lemma_blocked(g: Seq<Cell>, n: int, sn: int, p: int, x: int, y: int, e: Seq<Cell>)
    requires
        0 < sn,
        sn * sn == n,
        g.len() == n * n,
        e.len() == n * n,
        in_grid(n, x, y),
        p == pos(n, x, y),
        !cell_ok(g, n, sn, x, y),
        const_or_empty_from(g, p + 1),
        forall|i: int| 0 <= i <= p ==> #[trigger] e[i] == g[i],
        forall|i: int| p < i < n * n && (#[trigger] g[i]) is Constant ==> e[i] == g[i],
    ensures
        !valid(e, n, sn),
{
    if !row_ok(g, n, y) {
        let (x1, x2) = choose|x1: int, x2: int|
            0 <= x1 < n && 0 <= x2 < n && x1 != x2 && occupied(#[trigger] cell_at(g, n, x1, y))
                && occupied(#[trigger] cell_at(g, n, x2, y)) && cell_value(cell_at(g, n, x1, y))
                == cell_value(cell_at(g, n, x2, y));
        lemma_preserved(g, e, n, p, x1, y);
        lemma_preserved(g, e, n, p, x2, y);
        assert(!row_ok(e, n, y));
    } else if !col_ok(g, n, x) {
        let (y1, y2) = choose|y1: int, y2: int|
            0 <= y1 < n && 0 <= y2 < n && y1 != y2 && occupied(#[trigger] cell_at(g, n, x, y1))
                && occupied(#[trigger] cell_at(g, n, x, y2)) && cell_value(cell_at(g, n, x, y1))
                == cell_value(cell_at(g, n, x, y2));
        lemma_preserved(g, e, n, p, x, y1);
        lemma_preserved(g, e, n, p, x, y2);
        assert(!col_ok(e, n, x));
    } else {
        let (x1, y1, x2, y2) = choose|x1: int, y1: int, x2: int, y2: int|
            in_grid(n, x1, y1) && in_grid(n, x2, y2) && x1 / sn == x / sn && y1 / sn == y / sn
                && x2 / sn == x / sn && y2 / sn == y / sn && (x1 != x2 || y1 != y2) && occupied(
                #[trigger] cell_at(g, n, x1, y1),
            ) && occupied(#[trigger] cell_at(g, n, x2, y2)) && cell_value(cell_at(g, n, x1, y1))
                == cell_value(cell_at(g, n, x2, y2));
        lemma_preserved(g, e, n, p, x1, y1);
        lemma_preserved(g, e, n, p, x2, y2);
        assert(!box_ok(e, n, sn, x, y));
    }
}

impl View for Board {
    type V = Seq<Cell>;

    open spec fn view(&self) -> Seq<Cell> {
        self.squares@
    }
}

impl Board {
    /// The board's shape invariant: `n * n` cells and an integral sub-box side.
    pub open spec fn wf(&self) -> bool {
        &&& self@.len() == self.n * self.n
        &&& is_square(self.n as int)
    }

    /// The sub-box side length of this board.
    pub open spec fn side(&self) -> int {
        box_side(self.n as int)
    }
}

/// The exact square root of a perfect square.
fn int_sqrt(m: usize) -> (r: usize)
    requires
        is_square(m as int),
    ensures
        r * r == m,
        r as int == box_side(m as int),
{
    proof {
        lemma_box_side(m as int);
        if box_side(m as int) > m {
            assert(box_side(m as int) * box_side(m as int) > m) by (nonlinear_arith)
                requires
                    box_side(m as int) > m >= 0,
            ;
        }
    }
    let ghost root: int = box_side(m as int);
    let mut r: usize = 0;
    while r * r < m
        invariant
            0 <= r as int <= root,
            root * root == m,
            0 <= root <= m,
            r * r <= m,
        decreases root - r,
    {
        proof {
            assert((r as int) < root) by (nonlinear_arith)
                requires
                    (r as int) * (r as int) < m,
                    root * root == m,
                    0 <= r as int,
                    0 <= root,
            ;
            assert((r + 1) * (r + 1) <= root * root) by (nonlinear_arith)
                requires
                    r + 1 <= root,
                    0 <= r as int,
            ;
        }
        r = r + 1;
    }
    proof {
        assert(root <= r as int) by (nonlinear_arith)
            requires
                (r as int) * (r as int) >= m,
                root * root == m,
                0 <= r as int,
                0 <= root,
        ;
        lemma_sqrt_unique(r as int, root);
    }
    r
}

impl Board {
    /// A board of side `n` with every cell empty.
    pub fn new(n: usize) -> (r: Board)
        requires
            is_square(n as int),
            n * n <= usize::MAX,
        ensures
            r.wf(),
            r.n == n,
            forall|i: int| 0 <= i < n * n ==> (#[trigger] r@[i]) is Empty,
    {
        let total: usize = n * n;
        let mut squares: Vec<Cell> = Vec::new();
        let mut i: usize = 0;
        while i < total
            invariant
                i <= total,
                squares@.len() == i,
                forall|j: int| 0 <= j < i ==> (#[trigger] squares@[j]) is Empty,
            decreases total - i,
        {
            squares.push(Cell::Empty);
            i = i + 1;
        }
        Board { squares, n }
    }

    /// A board built from a row-major sequence of cells whose length is a
    /// perfect square; the side is the square root of the length.
    pub fn from(squares: &[Cell]) -> (r: Board)
        requires
            is_square(squares@.len() as int),
            is_square(box_side(squares@.len() as int)),
        ensures
            r.wf(),
            r@ == squares@,
            r.n * r.n == squares@.len(),
    {
        let n = int_sqrt(squares.len());
        let mut cells: Vec<Cell> = Vec::new();
        let mut i: usize = 0;
        while i < squares.len()
            invariant
                i <= squares@.len(),
                cells@.len() == i,
                forall|j: int| 0 <= j < i ==> #[trigger] cells@[j] == squares@[j],
            decreases squares@.len() - i,
        {
            cells.push(squares[i]);
            i = i + 1;
        }
        proof {
            assert(cells@ =~= squares@);
        }
        Board { squares: cells, n }
    }

    /// The cell at column `x`, row `y`.
    pub fn get(&self, x: usize, y: usize) -> (c: Cell)
        requires
            self.wf(),
            x < self.n,
            y < self.n,
        ensures
            c == cell_at(self@, self.n as int, x as int, y as int),
    {
        proof {
            lemma_pos_bound(self.n as int, x as int, y as int);
        }
        // Reading the length as a `usize` puts `n * n <= usize::MAX` in
        // scope, so the index computation cannot overflow.
        let _len: usize = self.squares.len();
        self.squares[y * self.n + x]
    }

    /// A new board identical to this one except that the cell at column `x`,
    /// row `y` is replaced by `v`; this board is not changed.
    pub fn set(&self, x: usize, y: usize, v: Cell) -> (r: Board)
        requires
            self.wf(),
            x < self.n,
            y < self.n,
        ensures
            r.wf(),
            r.n == self.n,
            r@ == self@.update(pos(self.n as int, x as int, y as int), v),
            cell_at(r@, self.n as int, x as int, y as int) == v,
            forall|x2: int, y2: int|
                in_grid(self.n as int, x2, y2) && (x2 != x as int || y2 != y as int)
                    ==> #[trigger] cell_at(r@, self.n as int, x2, y2)
                        == cell_at(self@, self.n as int, x2, y2),
    {
        proof {
            lemma_pos_bound(self.n as int, x as int, y as int);
        }
        let len: usize = self.squares.len();
        let idx: usize = y * self.n + x;
        let mut cells: Vec<Cell> = Vec::new();
        let mut i: usize = 0;
        while i < len
            invariant
                i <= len,
                len == self@.len(),
                idx < len,
                cells@.len() == i,
                forall|j: int|
                    0 <= j < i ==> #[trigger] cells@[j] == (if j == idx {
                        v
                    } else {
                        self@[j]
                    }),
        decreases len - i,
        {
            let c = if i == idx {
                v
            } else {
                self.squares[i]
            };
            cells.push(c);
            i = i + 1;
        }
        proof {
            assert(cells@ =~= self@.update(pos(self.n as int, x as int, y as int), v));
            assert forall|x2: int, y2: int|
                in_grid(self.n as int, x2, y2) && (x2 != x as int || y2 != y as int)
                implies #[trigger] cell_at(cells@, self.n as int, x2, y2)
                    == cell_at(self@, self.n as int, x2, y2) by {
                lemma_pos_bound(self.n as int, x2, y2);
                if pos(self.n as int, x2, y2) == pos(self.n as int, x as int, y as int) {
                    lemma_pos_unique(self.n as int, x2, y2, x as int, y as int);
                }
            }
        }
        Board { squares: cells, n: self.n }
    }

    /// True iff no value occurs twice among the non-empty cells of row `y`.
    #[verifier::loop_isolation(false)]
    pub fn check_row_constraint(&self, y: usize) -> (r: bool)
        requires
            self.wf(),
            y < self.n,
        ensures
            r == row_ok(self@, self.n as int, y as int),
    {
        let n = self.n;
        let mut x: usize = 0;
        while x < n
            invariant
                x <= n,
                forall|x1: int, x2: int|
                    0 <= x1 < x && 0 <= x2 < x && x1 != x2 && occupied(
                        #[trigger] cell_at(self@, n as int, x1, y as int),
                    ) && occupied(#[trigger] cell_at(self@, n as int, x2, y as int))
                        ==> cell_value(cell_at(self@, n as int, x1, y as int)) != cell_value(
                        cell_at(self@, n as int, x2, y as int),
                    ),
            decreases n - x,
        {
            let c = self.get(x, y);
            match c {
                Cell::Variable(v) | Cell::Constant(v) => {
                    let mut x2: usize = 0;
                    while x2 < x
                        invariant
                            x2 <= x,
                            x < n,
                            occupied(cell_at(self@, n as int, x as int, y as int)),
                            cell_value(cell_at(self@, n as int, x as int, y as int)) == v,
                            forall|x1: int|
                                0 <= x1 < x2 && occupied(
                                    #[trigger] cell_at(self@, n as int, x1, y as int),
                                ) ==> cell_value(cell_at(self@, n as int, x1, y as int)) != v,
                        decreases x - x2,
                    {
                        let c2 = self.get(x2, y);
                        match c2 {
                            Cell::Variable(v2) | Cell::Constant(v2) => {
                                if v2 == v {
                                    return false;
                                }
                            },
                            Cell::Empty => {},
                        }
                        x2 = x2 + 1;
                    }
                },
                Cell::Empty => {},
            }
            x = x + 1;
        }
        true
    }

    /// True iff no value occurs twice among the non-empty cells of column `x`.
    #[verifier::loop_isolation(false)]
    pub fn check_col_constraint(&self, x: usize) -> (r: bool)
        requires
            self.wf(),
            x < self.n,
        ensures
            r == col_ok(self@, self.n as int, x as int),
    {
        let n = self.n;
        let mut y: usize = 0;
        while y < n
            invariant
                y <= n,
                forall|y1: int, y2: int|
                    0 <= y1 < y && 0 <= y2 < y && y1 != y2 && occupied(
                        #[trigger] cell_at(self@, n as int, x as int, y1),
                    ) && occupied(#[trigger] cell_at(self@, n as int, x as int, y2))
                        ==> cell_value(cell_at(self@, n as int, x as int, y1)) != cell_value(
                        cell_at(self@, n as int, x as int, y2),
                    ),
            decreases n - y,
        {
            let c = self.get(x, y);
            match c {
                Cell::Variable(v) | Cell::Constant(v) => {
                    let mut y2: usize = 0;
                    while y2 < y
                        invariant
                            y2 <= y,
                            y < n,
                            occupied(cell_at(self@, n as int, x as int, y as int)),
                            cell_value(cell_at(self@, n as int, x as int, y as int)) == v,
                            forall|y1: int|
                                0 <= y1 < y2 && occupied(
                                    #[trigger] cell_at(self@, n as int, x as int, y1),
                                ) ==> cell_value(cell_at(self@, n as int, x as int, y1)) != v,
                        decreases y - y2,
                    {
                        let c2 = self.get(x, y2);
                        match c2 {
                            Cell::Variable(v2) | Cell::Constant(v2) => {
                                if v2 == v {
                                    return false;
                                }
                            },
                            Cell::Empty => {},
                        }
                        y2 = y2 + 1;
                    }
                },
                Cell::Empty => {},
            }
            y = y + 1;
        }
        true
    }

    /// True iff no value occurs twice among the non-empty cells of the
    /// sub-box containing (`x`, `y`).
    #[verifier::loop_isolation(false)]
    #[verifier::rlimit(30)]
    pub fn check_box_constraint(&self, x: usize, y: usize) -> (r: bool)
        requires
            self.wf(),
            x < self.n,
            y < self.n,
        ensures
            r == box_ok(self@, self.n as int, self.side(), x as int, y as int),
    {
        let n = self.n;
        let sn = int_sqrt(n);
        proof {
            assert(sn * sn == n);
            assert(n >= 1);
            assert(sn >= 1) by (nonlinear_arith)
                requires
                    (sn as int) * (sn as int) == n as int,
                    n as int >= 1,
                    sn as int >= 0,
            ;
            lemma_box_coords(n as int, sn as int, x as int);
            lemma_box_coords(n as int, sn as int, y as int);
        }
        let x0: usize = x / sn * sn;
        let y0: usize = y / sn * sn;
        let mut dy1: usize = 0;
        while dy1 < sn
            invariant
                dy1 <= sn,
                forall|a: int, b: int, c: int, d: int|
                    0 <= a < dy1 && 0 <= b < sn && 0 <= c < sn && 0 <= d < sn
                        ==> #[trigger] box_pair_ok(self@, n as int, x0 as int, y0 as int, b, a, d, c),
            decreases sn - dy1,
        {
            let mut dx1: usize = 0;
            while dx1 < sn
                invariant
                    dx1 <= sn,
                    dy1 < sn,
                    forall|a: int, b: int, c: int, d: int|
                        0 <= a < dy1 && 0 <= b < sn && 0 <= c < sn && 0 <= d < sn
                            ==> #[trigger] box_pair_ok(
                            self@,
                            n as int,
                            x0 as int,
                            y0 as int,
                            b,
                            a,
                            d,
                            c,
                        ),
                    forall|b: int, c: int, d: int|
                        0 <= b < dx1 && 0 <= c < sn && 0 <= d < sn ==> #[trigger] box_pair_ok(
                            self@,
                            n as int,
                            x0 as int,
                            y0 as int,
                            b,
                            dy1 as int,
                            d,
                            c,
                        ),
                decreases sn - dx1,
            {
                let c1 = self.get(x0 + dx1, y0 + dy1);
                match c1 {
                    Cell::Variable(v1) | Cell::Constant(v1) => {
                        let mut dy2: usize = 0;
                        while dy2 < sn
                            invariant
                                dy2 <= sn,
                                dx1 < sn,
                                dy1 < sn,
                                occupied(
                                    cell_at(
                                        self@,
                                        n as int,
                                        x0 + dx1 as int,
                                        y0 + dy1 as int,
                                    ),
                                ),
                                cell_value(
                                    cell_at(self@, n as int, x0 + dx1 as int, y0 + dy1 as int),
                                ) == v1,
                                forall|c: int, d: int|
                                    0 <= c < dy2 && 0 <= d < sn ==> #[trigger] box_pair_ok(
                                        self@,
                                        n as int,
                                        x0 as int,
                                        y0 as int,
                                        dx1 as int,
                                        dy1 as int,
                                        d,
                                        c,
                                    ),
                            decreases sn - dy2,
                        {
                            let mut dx2: usize = 0;
                            while dx2 < sn
                                invariant
                                    dx2 <= sn,
                                    dy2 < sn,
                                    dx1 < sn,
                                    dy1 < sn,
                                    occupied(
                                        cell_at(
                                            self@,
                                            n as int,
                                            x0 + dx1 as int,
                                            y0 + dy1 as int,
                                        ),
                                    ),
                                    cell_value(
                                        cell_at(
                                            self@,
                                            n as int,
                                            x0 + dx1 as int,
                                            y0 + dy1 as int,
                                        ),
                                    ) == v1,
                                    forall|c: int, d: int|
                                        0 <= c < dy2 && 0 <= d < sn ==> #[trigger] box_pair_ok(
                                            self@,
                                            n as int,
                                            x0 as int,
                                            y0 as int,
                                            dx1 as int,
                                            dy1 as int,
                                            d,
                                            c,
                                        ),
                                    forall|d: int|
                                        0 <= d < dx2 ==> #[trigger] box_pair_ok(
                                            self@,
                                            n as int,
                                            x0 as int,
                                            y0 as int,
                                            dx1 as int,
                                            dy1 as int,
                                            d,
                                            dy2 as int,
                                        ),
                                decreases sn - dx2,
                            {
                                if dx2 != dx1 || dy2 != dy1 {
                                    let c2 = self.get(x0 + dx2, y0 + dy2);
                                    match c2 {
                                        Cell::Variable(v2) | Cell::Constant(v2) => {
                                            if v2 == v1 {
                                                proof {
                                                    assert(!box_ok(
                                                        self@,
                                                        self.n as int,
                                                        self.side(),
                                                        x as int,
                                                        y as int,
                                                    )) by {
                                                        assert((x0 + dx1 as int) / (sn as int) == (
                                                        x as int) / (sn as int));
                                                        assert((x0 + dx2 as int) / (sn as int) == (
                                                        x as int) / (sn as int));
                                                        assert((y0 + dy1 as int) / (sn as int) == (
                                                        y as int) / (sn as int));
                                                        assert((y0 + dy2 as int) / (sn as int) == (
                                                        y as int) / (sn as int));
                                                    }
                                                }
                                                return false;
                                            }
                                        },
                                        Cell::Empty => {},
                                    }
                                }
                                dx2 = dx2 + 1;
                            }
                            dy2 = dy2 + 1;
                        }
                    },
                    Cell::Empty => {
                        proof {
                            assert forall|c: int, d: int| 0 <= c < sn && 0 <= d < sn
                                implies #[trigger] box_pair_ok(
                                self@,
                                n as int,
                                x0 as int,
                                y0 as int,
                                dx1 as int,
                                dy1 as int,
                                d,
                                c,
                            ) by {
                                assert(!occupied(
                                    cell_at(self@, n as int, x0 + dx1 as int, y0 + dy1 as int),
                                ));
                            }
                        }
                    },
                }
                dx1 = dx1 + 1;
            }
            dy1 = dy1 + 1;
        }
        proof {
            assert forall|x1: int, y1: int, x2: int, y2: int|
                in_grid(n as int, x1, y1) && in_grid(n as int, x2, y2) && x1 / (sn as int) == (
                x as int) / (sn as int) && y1 / (sn as int) == (y as int) / (sn as int) && x2 / (
            sn as int) == (x as int) / (sn as int) && y2 / (sn as int) == (y as int) / (sn as int)
                && (x1 != x2 || y1 != y2) && occupied(#[trigger] cell_at(self@, n as int, x1, y1))
                && occupied(#[trigger] cell_at(self@, n as int, x2, y2)) implies cell_value(
                cell_at(self@, n as int, x1, y1),
            ) != cell_value(cell_at(self@, n as int, x2, y2)) by {
                lemma_fundamental_div_mod(x1, sn as int);
                lemma_fundamental_div_mod(y1, sn as int);
                lemma_fundamental_div_mod(x2, sn as int);
                lemma_fundamental_div_mod(y2, sn as int);
                vstd::arithmetic::div_mod::lemma_mod_division_less_than_divisor(x1, sn as int);
                vstd::arithmetic::div_mod::lemma_mod_division_less_than_divisor(y1, sn as int);
                vstd::arithmetic::div_mod::lemma_mod_division_less_than_divisor(x2, sn as int);
                vstd::arithmetic::div_mod::lemma_mod_division_less_than_divisor(y2, sn as int);
                assert(x1 == (sn as int) * ((x as int) / (sn as int)) + x1 % (sn as int));
                assert(x2 == (sn as int) * ((x as int) / (sn as int)) + x2 % (sn as int));
                assert(y1 == (sn as int) * ((y as int) / (sn as int)) + y1 % (sn as int));
                assert(y2 == (sn as int) * ((y as int) / (sn as int)) + y2 % (sn as int));
                assert(0 <= x1 - x0 < sn && 0 <= x2 - x0 < sn && 0 <= y1 - y0 < sn && 0 <= y2 - y0
                    < sn);
                assert(x0 + (x1 - x0) == x1 && y0 + (y1 - y0) == y1 && x0 + (x2 - x0) == x2 && y0
                    + (y2 - y0) == y2);
                assert(box_pair_ok(
                    self@,
                    n as int,
                    x0 as int,
                    y0 as int,
                    x1 - x0,
                    y1 - y0,
                    x2 - x0,
                    y2 - y0,
                ));
            }
        }
        true
    }

    /// A fresh board with the same cells and side as this one.
    #[verifier::loop_isolation(false)]
    fn duplicate(&self) -> (r: Board)
        ensures
            r@ == self@,
            r.n == self.n,
    {
        let len: usize = self.squares.len();
        let mut cells: Vec<Cell> = Vec::new();
        let mut i: usize = 0;
        while i < len
            invariant
                i <= len,
                cells@.len() == i,
                forall|j: int| 0 <= j < i ==> #[trigger] cells@[j] == self@[j],
            decreases len - i,
        {
            cells.push(self.squares[i]);
            i = i + 1;
        }
        proof {
            assert(cells@ =~= self@);
        }
        Board { squares: cells, n: self.n }
    }

    /// True iff the row, column and sub-box through (`x`, `y`) are each free
    /// of duplicated values.
    pub fn within_constraints(&self, x: usize, y: usize) -> (r: bool)
        requires
            self.wf(),
            x < self.n,
            y < self.n,
        ensures
            r == cell_ok(self@, self.n as int, self.side(), x as int, y as int),
    {
        self.check_row_constraint(y) && self.check_col_constraint(x) && self.check_box_constraint(
            x,
            y,
        )
    }

    /// Backtracking search from the cell at (`x`, `y`) of the row-major
    /// traversal: every earlier cell is already placed and conflict-free. A
    /// `Constant` cell is checked and kept; any other cell is tried with the
    /// values 1 to `n` in ascending order, and the first complete valid grid
    /// found wins.
    #[verifier::loop_isolation(false)]
    fn solver(&self, x: usize, y: usize) -> (res: Option<Board>)
        requires
            self.wf(),
            1 <= self.n <= 255,
            x < self.n,
            y < self.n,
            forall|i: int|
                0 <= i < pos(self.n as int, x as int, y as int) ==> occupied(#[trigger] self@[i]),
            prefix_valid(
                self@,
                self.n as int,
                self.side(),
                pos(self.n as int, x as int, y as int),
            ),
        ensures
            (res matches Some(b) ==> search_solution(
                *self,
                pos(self.n as int, x as int, y as int),
                b,
            )),
            res is None && const_or_empty_from(self@, pos(self.n as int, x as int, y as int))
                ==> !solvable_from(
                self@,
                self.n as int,
                self.side(),
                pos(self.n as int, x as int, y as int),
            ),
        decreases self.n * self.n - pos(self.n as int, x as int, y as int),
    {
        let n = self.n;
        let ghost gn: int = n as int;
        let ghost sn: int = self.side();
        let ghost p: int = pos(gn, x as int, y as int);
        proof {
            lemma_box_side(gn);
            lemma_pos_bound(gn, x as int, y as int);
            assert(0 < sn) by (nonlinear_arith)
                requires
                    sn * sn == gn,
                    gn >= 1,
                    sn >= 0,
            ;
        }
        let x_next: usize = if x < n - 1 {
            x + 1
        } else {
            0
        };
        let y_next: usize = if x < n - 1 {
            y
        } else {
            y + 1
        };
        proof {
            assert((y as int + 1) * gn == (y as int) * gn + gn) by (nonlinear_arith);
            assert(pos(gn, x_next as int, y_next as int) == p + 1);
        }
        let c = self.get(x, y);
        match c {
            Cell::Constant(_) => {
                if !self.within_constraints(x, y) {
                    proof {
                        if const_or_empty_from(self@, p) {
                            assert forall|e: Seq<Cell>|
                                !(#[trigger] is_extension(self@, gn, p, e) && valid(
                                    e,
                                    gn,
                                    sn,
                                )) by {
                                if is_extension(self@, gn, p, e) && valid(e, gn, sn) {
                                    assert(e[p] == self@[p]);
                                    lemma_blocked(self@, gn, sn, p, x as int, y as int, e);
                                }
                            }
                        }
                    }
                    return None;
                }
                proof {
                    lemma_prefix_valid_extend(self@, gn, sn, x as int, y as int);
                }
                if x == n - 1 && y == n - 1 {
                    proof {
                        assert(p + 1 == gn * gn) by (nonlinear_arith)
                            requires
                                p == (gn - 1) * gn + (gn - 1),
                        ;
                        lemma_valid_of_full_prefix(self@, gn, sn);
                    }
                    return Some(self.duplicate());
                }
                let res = self.solver(x_next, y_next);
                proof {
                    if res is None && const_or_empty_from(self@, p) {
                        assert forall|e: Seq<Cell>|
                            !(#[trigger] is_extension(self@, gn, p, e) && valid(e, gn, sn)) by {
                            if is_extension(self@, gn, p, e) && valid(e, gn, sn) {
                                assert(e[p] == self@[p]);
                                assert(is_extension(self@, gn, p + 1, e));
                                assert(solvable_from(self@, gn, sn, p + 1));
                            }
                        }
                    }
                }
                res
            },
            _ => {
                let mut v: usize = 1;
                while v <= n
                    invariant
                        1 <= v <= n + 1,
                        const_or_empty_from(self@, p) ==> forall|e: Seq<Cell>|
                            #[trigger] is_extension(self@, gn, p, e) && valid(e, gn, sn)
                                ==> cell_value(e[p]) as int >= v as int,
                    decreases n + 1 - v,
                {
                    let nb = self.set(x, y, Cell::Variable(v as u8));
                    proof {
                        assert(nb@[p] == Cell::Variable(v as u8));
                        assert forall|i: int| 0 <= i < gn * gn && i != p implies #[trigger] nb@[i]
                            == self@[i] by {}
                    }
                    if nb.within_constraints(x, y) {
                        proof {
                            lemma_prefix_valid_congruence(self@, nb@, gn, sn, p);
                            lemma_prefix_valid_extend(nb@, gn, sn, x as int, y as int);
                        }
                        if x == n - 1 && y == n - 1 {
                            proof {
                                assert(p + 1 == gn * gn) by (nonlinear_arith)
                                    requires
                                        p == (gn - 1) * gn + (gn - 1),
                                ;
                                lemma_valid_of_full_prefix(nb@, gn, sn);
                                assert(search_solution(*self, p, nb));
                            }
                            return Some(nb);
                        }
                        match nb.solver(x_next, y_next) {
                            Some(b) => {
                                proof {
                                    assert(search_solution(nb, p + 1, b));
                                    assert forall|i: int|
                                        p <= i < gn * gn implies (if self@[i] is Constant {
                                        (#[trigger] b@[i]) == self@[i]
                                    } else {
                                        assigned_in_range(b@[i], gn)
                                    }) by {
                                        if i == p {
                                            assert(b@[p] == nb@[p]);
                                        }
                                    }
                                    assert(search_solution(*self, p, b));
                                }
                                return Some(b);
                            },
                            None => {
                                proof {
                                    if const_or_empty_from(self@, p) {
                                        assert(const_or_empty_from(nb@, p + 1));
                                        assert(!solvable_from(nb@, gn, sn, p + 1));
                                        assert forall|e: Seq<Cell>|
                                            #[trigger] is_extension(self@, gn, p, e) && valid(
                                                e,
                                                gn,
                                                sn,
                                            ) implies cell_value(e[p]) as int != v as int by {
                                            if cell_value(e[p]) as int == v as int {
                                                assert(assigned_in_range(e[p], gn));
                                                assert(e[p] == Cell::Variable(v as u8));
                                                assert(is_extension(nb@, gn, p + 1, e));
                                                assert(solvable_from(nb@, gn, sn, p + 1));
                                            }
                                        }
                                    }
                                }
                            },
                        }
                    } else {
                        proof {
                            if const_or_empty_from(self@, p) {
                                assert forall|e: Seq<Cell>|
                                    #[trigger] is_extension(self@, gn, p, e) && valid(e, gn, sn)
                                    implies cell_value(e[p]) as int != v as int by {
                                    if cell_value(e[p]) as int == v as int {
                                        assert(assigned_in_range(e[p], gn));
                                        assert(e[p] == Cell::Variable(v as u8));
                                        assert(const_or_empty_from(nb@, p + 1));
                                        lemma_blocked(nb@, gn, sn, p, x as int, y as int, e);
                                    }
                                }
                            }
                        }
                    }
                    v = v + 1;
                }
                proof {
                    if const_or_empty_from(self@, p) {
                        assert forall|e: Seq<Cell>|
                            !(#[trigger] is_extension(self@, gn, p, e) && valid(e, gn, sn)) by {
                            if is_extension(self@, gn, p, e) && valid(e, gn, sn) {
                                assert(assigned_in_range(e[p], gn));
                            }
                        }
                    }
                }
                None
            },
        }
    }

    /// Solves the puzzle: returns a complete, valid board that keeps every
    /// `Constant` cell of this one, or `None` when, starting from a board of
    /// givens and empty cells, no assignment of values 1 to `n` to the empty
    /// cells satisfies the row, column and sub-box constraints.
    pub fn solve(&self) -> (res: Option<Board>)
        requires
            self.wf(),
            1 <= self.n <= 255,
        ensures
            (res matches Some(b) ==> is_solution_for(b, *self)),
            res is None && const_or_empty_from(self@, 0) ==> !solvable_from(
                self@,
                self.n as int,
                self.side(),
                0,
            ),
    {
        proof {
            let gn = self.n as int;
            assert forall|x1: int, y1: int, x2: int, y2: int|
                in_grid(gn, x1, y1) && in_grid(gn, x2, y2) && pos(gn, x1, y1) < 0 && pos(
                    gn,
                    x2,
                    y2,
                ) < 0 && (x1 != x2 || y1 != y2) && same_unit(self.side(), x1, y1, x2, y2)
                && occupied(#[trigger] cell_at(self@, gn, x1, y1)) && occupied(
                #[trigger] cell_at(self@, gn, x2, y2),
            ) implies cell_value(cell_at(self@, gn, x1, y1)) != cell_value(
                cell_at(self@, gn, x2, y2),
            ) by {
                lemma_pos_bound(gn, x1, y1);
            }
        }
        self.solver(0, 0)
    }
}

} // verus!
