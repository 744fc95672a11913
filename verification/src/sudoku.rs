use vstd::prelude::*;
use crate::PuzzleError;
use crate::rng::shuffle;

verus! {

/// The ceiling on candidate attempts of one backtracking search: a safety
/// valve against pathological inputs, not an expected outcome.
pub const ATTEMPT_CAP: i32 = 2000;

/// A 9x9 Sudoku grid.  Each cell holds a digit 1..=9, or 0 for "empty"
/// while solving and "hidden" once the grid has been masked into a puzzle.
pub struct Sudoku {
    values: Vec<Vec<i8>>,
}

/// The abstract grid that a sequence of value rows holds.
pub open spec fn grid_view(values: Seq<Vec<i8>>) -> Seq<Seq<i8>> {
    Seq::new(values.len(), |r: int| values[r]@)
}

impl View for Sudoku {
    type V = Seq<Seq<i8>>;

    closed spec fn view(&self) -> Seq<Seq<i8>> {
        grid_view(self.values@)
    }
}

/// The grid is 9 rows of 9 cells.
pub open spec fn grid_wf(g: Seq<Seq<i8>>) -> bool {
    &&& g.len() == 9
    &&& forall|r: int| 0 <= r < 9 ==> (#[trigger] g[r]).len() == 9
}

/// Every cell holds 0 (empty) or a digit 1..=9.
pub open spec fn in_range(g: Seq<Seq<i8>>) -> bool {
    forall|r: int, c: int| 0 <= r < 9 && 0 <= c < 9 ==> 0 <= #[trigger] g[r][c] <= 9
}

/// No cell is empty.
pub open spec fn filled(g: Seq<Seq<i8>>) -> bool {
    forall|r: int, c: int| 0 <= r < 9 && 0 <= c < 9 ==> #[trigger] g[r][c] != 0
}

/// `d` appears somewhere in row `r`.
pub open spec fn row_has(g: Seq<Seq<i8>>, r: int, d: i8) -> bool {
    exists|c: int| 0 <= c < 9 && #[trigger] g[r][c] == d
}

/// `d` appears somewhere in column `c`.
pub open spec fn col_has(g: Seq<Seq<i8>>, c: int, d: i8) -> bool {
    exists|r: int| 0 <= r < 9 && #[trigger] g[r][c] == d
}

/// `d` appears somewhere in the 3x3 box containing cell `(r, c)`.
pub open spec fn box_has(g: Seq<Seq<i8>>, r: int, c: int, d: i8) -> bool {
    exists|i: int, j: int|
        0 <= i < 3 && 0 <= j < 3 && #[trigger] g[r / 3 * 3 + i][c / 3 * 3 + j] == d
}

/// Placing `d` at `(r, c)` is legal: the cell is empty and `d` appears
/// nowhere in the cell's row, column, or box.
pub open spec fn can_place_at(g: Seq<Seq<i8>>, r: int, c: int, d: i8) -> bool {
    &&& g[r][c] == 0
    &&& !row_has(g, r, d)
    &&& !col_has(g, c, d)
    &&& !box_has(g, r, c, d)
}

/// Cells `(r1, c1)` and `(r2, c2)` share a row, a column, or a 3x3 box.
pub open spec fn same_unit(r1: int, c1: int, r2: int, c2: int) -> bool {
    r1 == r2 || c1 == c2 || (r1 / 3 == r2 / 3 && c1 / 3 == c2 / 3)
}

/// The Sudoku invariant: no two distinct non-empty cells that share a unit
/// hold the same digit.
pub open spec fn valid(g: Seq<Seq<i8>>) -> bool {
    forall|r1: int, c1: int, r2: int, c2: int|
        0 <= r1 < 9 && 0 <= c1 < 9 && 0 <= r2 < 9 && 0 <= c2 < 9
            && !(r1 == r2 && c1 == c2) && same_unit(r1, c1, r2, c2)
            && #[trigger] g[r1][c1] != 0 ==> g[r1][c1] != #[trigger] g[r2][c2]
}

/// `g2` is a completed grid extending `g`: fully populated with digits,
/// satisfying the Sudoku invariant, and agreeing with every cell of `g`
/// that is already set.
pub open spec fn completes(g: Seq<Seq<i8>>, g2: Seq<Seq<i8>>) -> bool {
    &&& grid_wf(g2)
    &&& in_range(g2)
    &&& filled(g2)
    &&& valid(g2)
    &&& forall|r: int, c: int|
        0 <= r < 9 && 0 <= c < 9 && g[r][c] != 0 ==> #[trigger] g2[r][c] == g[r][c]
}

/// `(r, c)` is the first empty cell of `g` in row-major scan order.
pub open spec fn is_first_empty(g: Seq<Seq<i8>>, r: int, c: int) -> bool {
    &&& 0 <= r < 9
    &&& 0 <= c < 9
    &&& g[r][c] == 0
    &&& forall|r0: int, c0: int|
        0 <= r0 < 9 && 0 <= c0 < 9 && (r0 < r || (r0 == r && c0 < c))
            ==> #[trigger] g[r0][c0] != 0
}

/// One cell of a known completed grid: the digits cycle along each row,
/// stepping by three between the rows of a band and by one between bands.
pub open spec fn cyclic_digit(r: int, c: int) -> i8 {
    (((c + 3 * (r % 3) + r / 3) % 9) + 1) as i8
}

/// A known completed grid, used as the witness that an empty grid always
/// has a completion.
pub open spec fn cyclic_grid() -> Seq<Seq<i8>> {
    Seq::new(9, |r: int| Seq::new(9, |c: int| cyclic_digit(r, c)))
}

/// Two integers less than nine apart have distinct residues.
proof fn lemma_mod9_distinct(x: int, y: int)
    requires
        x != y,
        -9 < x - y < 9,
    ensures
        x % 9 != y % 9,
{
    vstd::arithmetic::div_mod::lemma_fundamental_div_mod(x, 9);
    vstd::arithmetic::div_mod::lemma_fundamental_div_mod(y, 9);
    if x % 9 == y % 9 {
        let k = x / 9 - y / 9;
        assert(x - y == 9 * k);
    }
}

/// The cyclic grid is a valid completed Sudoku.
proof fn lemma_cyclic_grid_valid()
    ensures
        grid_wf(cyclic_grid()),
        in_range(cyclic_grid()),
        filled(cyclic_grid()),
        valid(cyclic_grid()),
{
    let g = cyclic_grid();
    assert forall|r: int, c: int| 0 <= r < 9 && 0 <= c < 9
        implies 1 <= #[trigger] g[r][c] <= 9 by {
        assert(0 <= (c + 3 * (r % 3) + r / 3) % 9 < 9) by (nonlinear_arith)
            requires
                0 <= r < 9,
                0 <= c < 9,
        ;
    }
    assert forall|r1: int, c1: int, r2: int, c2: int|
        0 <= r1 < 9 && 0 <= c1 < 9 && 0 <= r2 < 9 && 0 <= c2 < 9
            && !(r1 == r2 && c1 == c2) && same_unit(r1, c1, r2, c2)
            && #[trigger] g[r1][c1] != 0 implies g[r1][c1] != #[trigger] g[r2][c2] by {
        let i1 = c1 + 3 * (r1 % 3) + r1 / 3;
        let i2 = c2 + 3 * (r2 % 3) + r2 / 3;
        assert(i1 != i2 && -9 < i1 - i2 < 9) by (nonlinear_arith)
            requires
                0 <= r1 < 9,
                0 <= c1 < 9,
                0 <= r2 < 9,
                0 <= c2 < 9,
                !(r1 == r2 && c1 == c2),
                r1 == r2 || c1 == c2 || (r1 / 3 == r2 / 3 && c1 / 3 == c2 / 3),
                i1 == c1 + 3 * (r1 % 3) + r1 / 3,
                i2 == c2 + 3 * (r2 % 3) + r2 / 3,
        ;
        lemma_mod9_distinct(i1, i2);
        assert(g[r1][c1] == cyclic_digit(r1, c1) && g[r2][c2] == cyclic_digit(r2, c2));
        assert(0 <= i1 % 9 < 9 && 0 <= i2 % 9 < 9) by (nonlinear_arith)
            requires
                0 <= r1 < 9,
                0 <= c1 < 9,
                0 <= r2 < 9,
                0 <= c2 < 9,
                i1 == c1 + 3 * (r1 % 3) + r1 / 3,
                i2 == c2 + 3 * (r2 % 3) + r2 / 3,
        ;
    }
}

/// The empty grid always has a completion: the cyclic grid is one, so the
/// exhaustive fill search can never run out of candidates on it.
pub proof fn lemma_empty_grid_completable()
    ensures
        exists|g2: Seq<Seq<i8>>| completes(empty_grid(), g2),
{
    lemma_cyclic_grid_valid();
    assert(completes(empty_grid(), cyclic_grid()));
}

/// A grid has at most one first empty cell.
proof fn lemma_first_empty_unique(g: Seq<Seq<i8>>, r1: int, c1: int, r2: int, c2: int)
    requires
        is_first_empty(g, r1, c1),
        is_first_empty(g, r2, c2),
    ensures
        r1 == r2 && c1 == c2,
{
    if r1 < r2 || (r1 == r2 && c1 < c2) {
        assert(g[r1][c1] != 0);
    }
    if r2 < r1 || (r2 == r1 && c2 < c1) {
        assert(g[r2][c2] != 0);
    }
}

/// Whatever digit a completion assigns to an empty cell, that digit is a
/// legal placement there: it cannot already occur in the cell's row,
/// column, or box.
proof fn lemma_completion_can_place(g: Seq<Seq<i8>>, g2: Seq<Seq<i8>>, r: int, c: int)
    requires
        grid_wf(g),
        0 <= r < 9,
        0 <= c < 9,
        g[r][c] == 0,
        completes(g, g2),
    ensures
        can_place_at(g, r, c, g2[r][c]),
{
    let d = g2[r][c];
    assert(d != 0);
    assert(!row_has(g, r, d)) by {
        if row_has(g, r, d) {
            let c2 = choose|c2: int| 0 <= c2 < 9 && #[trigger] g[r][c2] == d;
            assert(g2[r][c2] == d);
            assert(same_unit(r, c, r, c2));
            assert(g2[r][c] != g2[r][c2]);
        }
    }
    assert(!col_has(g, c, d)) by {
        if col_has(g, c, d) {
            let r2 = choose|r2: int| 0 <= r2 < 9 && #[trigger] g[r2][c] == d;
            assert(g2[r2][c] == d);
            assert(same_unit(r, c, r2, c));
            assert(g2[r][c] != g2[r2][c]);
        }
    }
    assert(!box_has(g, r, c, d)) by {
        if box_has(g, r, c, d) {
            let (i, j) = choose|i: int, j: int|
                0 <= i < 3 && 0 <= j < 3 && #[trigger] g[r / 3 * 3 + i][c / 3 * 3 + j] == d;
            let r2 = r / 3 * 3 + i;
            let c2 = c / 3 * 3 + j;
            assert(g2[r2][c2] == d);
            assert(r2 / 3 == r / 3 && c2 / 3 == c / 3) by (nonlinear_arith)
                requires
                    0 <= r < 9,
                    0 <= c < 9,
                    0 <= i < 3,
                    0 <= j < 3,
                    r2 == r / 3 * 3 + i,
                    c2 == c / 3 * 3 + j,
            ;
            assert(same_unit(r, c, r2, c2));
            assert(!(r2 == r && c2 == c));
            assert(g2[r][c] != g2[r2][c2]);
        }
    }
}

/// A completion of a grid also completes the grid obtained by setting an
/// empty cell to the digit the completion itself assigns there.
proof fn lemma_completion_extends(g: Seq<Seq<i8>>, g2: Seq<Seq<i8>>, r: int, c: int)
    requires
        grid_wf(g),
        0 <= r < 9,
        0 <= c < 9,
        g[r][c] == 0,
        completes(g, g2),
    ensures
        completes(update_cell(g, r, c, g2[r][c]), g2),
{
    let g1 = update_cell(g, r, c, g2[r][c]);
    assert forall|r0: int, c0: int|
        0 <= r0 < 9 && 0 <= c0 < 9 && g1[r0][c0] != 0 implies #[trigger] g2[r0][c0]
        == g1[r0][c0] by {
        if !(r0 == r && c0 == c) {
            assert(g1[r0][c0] == g[r0][c0]);
        }
    }
}

/// The grid `g` with cell `(r, c)` set to `v`.
pub open spec fn update_cell(g: Seq<Seq<i8>>, r: int, c: int, v: i8) -> Seq<Seq<i8>> {
    g.update(r, g[r].update(c, v))
}

/// How many cells of one row are empty.
pub open spec fn row_zeros(s: Seq<i8>) -> nat
    decreases s.len(),
{
    if s.len() == 0 {
        0
    } else {
        row_zeros(s.drop_last()) + if s.last() == 0 { 1nat } else { 0nat }
    }
}

/// How many cells of the grid are empty.
pub open spec fn grid_zeros(g: Seq<Seq<i8>>) -> nat
    decreases g.len(),
{
    if g.len() == 0 {
        0
    } else {
        grid_zeros(g.drop_last()) + row_zeros(g.last())
    }
}

/// Overwriting one cell of a row adds or removes at most the one zero
/// that the write touches.
proof fn lemma_row_zeros_update(s: Seq<i8>, c: int, v: i8)
    requires
        0 <= c < s.len(),
    ensures
        row_zeros(s.update(c, v)) + (if s[c] == 0 { 1nat } else { 0nat })
            == row_zeros(s) + (if v == 0 { 1nat } else { 0nat }),
    decreases s.len(),
{
    let s2 = s.update(c, v);
    if c == s.len() - 1 {
        assert(s2.drop_last() =~= s.drop_last());
    } else {
        assert(s2.drop_last() =~= s.drop_last().update(c, v));
        lemma_row_zeros_update(s.drop_last(), c, v);
    }
}

/// Replacing one row of the grid exchanges that row's zero count.
proof fn lemma_grid_zeros_row_update(g: Seq<Seq<i8>>, r: int, row2: Seq<i8>)
    requires
        0 <= r < g.len(),
    ensures
        grid_zeros(g.update(r, row2)) + row_zeros(g[r]) == grid_zeros(g) + row_zeros(row2),
    decreases g.len(),
{
    let g2 = g.update(r, row2);
    if r == g.len() - 1 {
        assert(g2.drop_last() =~= g.drop_last());
    } else {
        assert(g2.drop_last() =~= g.drop_last().update(r, row2));
        lemma_grid_zeros_row_update(g.drop_last(), r, row2);
    }
}

/// Overwriting one cell of the grid adds or removes at most the one zero
/// that the write touches.
proof fn lemma_cell_update_zeros(g: Seq<Seq<i8>>, r: int, c: int, v: i8)
    requires
        grid_wf(g),
        0 <= r < 9,
        0 <= c < 9,
    ensures
        grid_zeros(update_cell(g, r, c, v)) + (if g[r][c] == 0 { 1nat } else { 0nat })
            == grid_zeros(g) + (if v == 0 { 1nat } else { 0nat }),
{
    lemma_row_zeros_update(g[r], c, v);
    lemma_grid_zeros_row_update(g, r, g[r].update(c, v));
}

/// A legal placement of a digit keeps the Sudoku invariant.
proof fn lemma_place_preserves_valid(g: Seq<Seq<i8>>, r: int, c: int, d: i8)
    requires
        grid_wf(g),
        valid(g),
        0 <= r < 9,
        0 <= c < 9,
        d != 0,
        can_place_at(g, r, c, d),
    ensures
        valid(update_cell(g, r, c, d)),
{
    let g2 = update_cell(g, r, c, d);
    assert forall|r1: int, c1: int, r2: int, c2: int|
        0 <= r1 < 9 && 0 <= c1 < 9 && 0 <= r2 < 9 && 0 <= c2 < 9
            && !(r1 == r2 && c1 == c2) && same_unit(r1, c1, r2, c2)
            && #[trigger] g2[r1][c1] != 0 implies g2[r1][c1] != #[trigger] g2[r2][c2] by {
        if r1 == r && c1 == c {
            lemma_placed_digit_fresh(g, r, c, d, r2, c2);
        } else if r2 == r && c2 == c {
            lemma_placed_digit_fresh(g, r, c, d, r1, c1);
        }
    }
}

/// After a legal placement of `d` at `(r, c)`, no other cell of the same
/// unit holds `d`.
proof fn lemma_placed_digit_fresh(g: Seq<Seq<i8>>, r: int, c: int, d: i8, r2: int, c2: int)
    requires
        grid_wf(g),
        0 <= r < 9,
        0 <= c < 9,
        0 <= r2 < 9,
        0 <= c2 < 9,
        !(r2 == r && c2 == c),
        same_unit(r, c, r2, c2),
        can_place_at(g, r, c, d),
    ensures
        g[r2][c2] != d,
{
    if g[r2][c2] == d {
        if r2 == r {
            assert(row_has(g, r, d));
        } else if c2 == c {
            assert(col_has(g, c, d));
        } else {
            let i = r2 - r / 3 * 3;
            let j = c2 - c / 3 * 3;
            assert(r2 == r2 / 3 * 3 + r2 % 3);
            assert(c2 == c2 / 3 * 3 + c2 % 3);
            assert(0 <= i < 3 && 0 <= j < 3);
            assert(g[r / 3 * 3 + i][c / 3 * 3 + j] == d);
            assert(box_has(g, r, c, d));
        }
    }
}

impl Sudoku {
    pub open spec fn wf(&self) -> bool {
        grid_wf(self@)
    }

    /// Write one cell.
    fn set_cell(&mut self, row: usize, column: usize, v: i8)
        requires
            old(self).wf(),
            row < 9,
            column < 9,
        ensures
            final(self).wf(),
            final(self)@ == update_cell(old(self)@, row as int, column as int, v),
    {
        proof {
            assert(self@[row as int] == self.values@[row as int]@);
        }
        self.values[row][column] = v;
        proof {
            let g2 = update_cell(old(self)@, row as int, column as int, v);
            assert forall|r: int| 0 <= r < 9 implies self@[r] == g2[r] by {
                if r == row as int {
                    assert(self@[r] =~= g2[r]);
                }
            }
            assert(self@ =~= g2);
        }
    }

    /// A 9x9 grid containing only zeros.
    #[verifier::loop_isolation(false)]
    pub fn new() -> (s: Sudoku)
        ensures
            s.wf(),
            forall|r: int, c: int| 0 <= r < 9 && 0 <= c < 9 ==> s@[r][c] == 0,
    {
        let mut values: Vec<Vec<i8>> = Vec::new();
        while values.len() < 9
            invariant
                values@.len() <= 9,
                forall|r: int| 0 <= r < values@.len()
                    ==> (#[trigger] values@[r])@.len() == 9,
                forall|r: int, c: int| 0 <= r < values@.len() && 0 <= c < 9
                    ==> #[trigger] values@[r]@[c] == 0,
            decreases 9 - values@.len(),
        {
            let mut row: Vec<i8> = Vec::new();
            while row.len() < 9
                invariant
                    row@.len() <= 9,
                    forall|c: int| 0 <= c < row@.len() ==> row@[c] == 0,
                decreases 9 - row@.len(),
            {
                row.push(0);
            }
            values.push(row);
        }
        Sudoku { values }
    }

    /// Wrap an existing 9x9 grid of cell values.
    pub fn from_values(values: Vec<Vec<i8>>) -> (s: Sudoku)
        requires
            grid_wf(grid_view(values@)),
        ensures
            s.wf(),
            s@ == grid_view(values@),
    {
        Sudoku { values }
    }

    /// Read one cell.
    pub fn value_at(&self, row: usize, column: usize) -> (v: i8)
        requires
            self.wf(),
            row < 9,
            column < 9,
        ensures
            v == self@[row as int][column as int],
    {
        proof {
            assert(self@[row as int] == self.values@[row as int]@);
        }
        self.values[row][column]
    }

    /// The 3x3 sub-grid (box) containing the given coordinate.
    #[verifier::loop_isolation(false)]
    pub fn slice(&self, row: usize, column: usize) -> (sub: Vec<Vec<i8>>)
        requires
            self.wf(),
            row < 9,
            column < 9,
        ensures
            sub@.len() == 3,
            forall|i: int| 0 <= i < 3 ==> (#[trigger] sub@[i])@.len() == 3,
            forall|i: int, j: int| 0 <= i < 3 && 0 <= j < 3
                ==> #[trigger] sub@[i]@[j]
                    == self@[row as int / 3 * 3 + i][column as int / 3 * 3 + j],
    {
        let base_row = row / 3 * 3;
        let base_col = column / 3 * 3;
        let mut sub: Vec<Vec<i8>> = Vec::new();
        let mut i: usize = 0;
        while i < 3
            invariant
                self.wf(),
                row < 9,
                column < 9,
                base_row == row as int / 3 * 3,
                base_col == column as int / 3 * 3,
                i <= 3,
                sub@.len() == i,
                forall|k: int| 0 <= k < i ==> (#[trigger] sub@[k])@.len() == 3,
                forall|k: int, j: int| 0 <= k < i && 0 <= j < 3
                    ==> #[trigger] sub@[k]@[j] == self@[base_row + k][base_col + j],
            decreases 3 - i,
        {
            let mut line: Vec<i8> = Vec::new();
            let mut j: usize = 0;
            while j < 3
                invariant
                    self.wf(),
                    row < 9,
                    column < 9,
                    base_row == row as int / 3 * 3,
                    base_col == column as int / 3 * 3,
                    i < 3,
                    j <= 3,
                    line@.len() == j,
                    forall|m: int| 0 <= m < j
                        ==> line@[m] == self@[base_row + i][base_col + m],
                decreases 3 - j,
            {
                line.push(self.value_at(base_row + i, base_col + j));
                j += 1;
            }
            sub.push(line);
            i += 1;
        }
        sub
    }

    /// The first empty cell in row-major scan order, as `[row, column]`,
    /// or `None` when the grid is fully populated.
    #[verifier::loop_isolation(false)]
    pub fn get_next_empty(&self) -> (res: Option<Vec<usize>>)
        requires
            self.wf(),
        ensures
            match res {
                Some(v) => v@.len() == 2 && is_first_empty(self@, v@[0] as int, v@[1] as int),
                None => filled(self@),
            },
    {
        let mut i: usize = 0;
        while i < 9
            invariant
                self.wf(),
                i <= 9,
                forall|r: int, c: int| 0 <= r < i && 0 <= c < 9
                    ==> #[trigger] self@[r][c] != 0,
            decreases 9 - i,
        {
            let mut j: usize = 0;
            while j < 9
                invariant
                    self.wf(),
                    i < 9,
                    j <= 9,
                    forall|r: int, c: int| 0 <= r < i && 0 <= c < 9
                        ==> #[trigger] self@[r][c] != 0,
                    forall|c: int| 0 <= c < j ==> #[trigger] self@[i as int][c] != 0,
                decreases 9 - j,
            {
                if self.value_at(i, j) == 0 {
                    let mut cell: Vec<usize> = Vec::new();
                    cell.push(i);
                    cell.push(j);
                    return Some(cell);
                }
                j += 1;
            }
            i += 1;
        }
        None
    }

    /// Whether digit `number` may legally be placed at `(row, column)`.
    #[verifier::loop_isolation(false)]
    pub fn can_place(&self, row: usize, column: usize, number: &i8) -> (legal: bool)
        requires
            self.wf(),
            row < 9,
            column < 9,
        ensures
            legal == can_place_at(self@, row as int, column as int, *number),
    {
        if self.value_at(row, column) != 0 {
            return false;
        }
        let mut j: usize = 0;
        while j < 9
            invariant
                self.wf(),
                row < 9,
                column < 9,
                j <= 9,
                forall|c: int| 0 <= c < j ==> #[trigger] self@[row as int][c] != *number,
            decreases 9 - j,
        {
            if self.value_at(row, j) == *number {
                assert(row_has(self@, row as int, *number));
                return false;
            }
            j += 1;
        }
        let mut i: usize = 0;
        while i < 9
            invariant
                self.wf(),
                row < 9,
                column < 9,
                i <= 9,
                !row_has(self@, row as int, *number),
                forall|r: int| 0 <= r < i ==> #[trigger] self@[r][column as int] != *number,
            decreases 9 - i,
        {
            if self.value_at(i, column) == *number {
                assert(col_has(self@, column as int, *number));
                return false;
            }
            i += 1;
        }
        let base_row = row / 3 * 3;
        let base_col = column / 3 * 3;
        let mut i: usize = 0;
        while i < 3
            invariant
                self.wf(),
                row < 9,
                column < 9,
                base_row == row as int / 3 * 3,
                base_col == column as int / 3 * 3,
                i <= 3,
                !row_has(self@, row as int, *number),
                !col_has(self@, column as int, *number),
                self@[row as int][column as int] == 0,
                forall|k: int, j: int| 0 <= k < i && 0 <= j < 3
                    ==> #[trigger] self@[base_row + k][base_col + j] != *number,
            decreases 3 - i,
        {
            let mut j: usize = 0;
            while j < 3
                invariant
                    self.wf(),
                    row < 9,
                    column < 9,
                    base_row == row as int / 3 * 3,
                    base_col == column as int / 3 * 3,
                    i < 3,
                    j <= 3,
                    forall|k: int, m: int| 0 <= k < i && 0 <= m < 3
                        ==> #[trigger] self@[base_row + k][base_col + m] != *number,
                    forall|m: int| 0 <= m < j
                        ==> #[trigger] self@[base_row + i][base_col + m] != *number,
                decreases 3 - j,
            {
                if self.value_at(base_row + i, base_col + j) == *number {
                    assert(box_has(self@, row as int, column as int, *number));
                    return false;
                }
                j += 1;
            }
            i += 1;
        }
        true
    }

    /// Fill every empty cell with a digit by depth-first backtracking over
    /// candidate digits in a random order.  `Ok(true)` means the grid is
    /// fully populated; `Ok(false)` means no completion exists and the grid
    /// is unchanged; the error means the attempt budget ran out (the grid is
    /// then also restored).  Cells that were already set are never touched,
    /// and a valid grid stays valid.
    #[verifier::loop_isolation(false)]
    pub fn rand_fill_grid(&mut self, counter: i32) -> (res: Result<bool, PuzzleError>)
        requires
            old(self).wf(),
            in_range(old(self)@),
        ensures
            counter + 1 + 9 * grid_zeros(old(self)@) <= ATTEMPT_CAP ==> !(res is Err),
            final(self).wf(),
            in_range(final(self)@),
            forall|r: int, c: int|
                0 <= r < 9 && 0 <= c < 9 && old(self)@[r][c] != 0
                    ==> #[trigger] final(self)@[r][c] == old(self)@[r][c],
            valid(old(self)@) ==> valid(final(self)@),
            match res {
                Ok(true) => filled(final(self)@),
                Ok(false) => final(self)@ == old(self)@ && (forall|g2: Seq<Seq<i8>>|
                    !completes(old(self)@, g2)),
                Err(e) => e == PuzzleError::SearchExhausted && final(self)@ == old(self)@,
            },
        decreases grid_zeros(old(self)@),
    {
        let mut elements: Vec<i8> = Vec::new();
        let mut d: i8 = 1;
        while d <= 9
            invariant
                1 <= d <= 10,
                elements@.len() == d - 1,
                forall|k: int| 0 <= k < elements@.len() ==> #[trigger] elements@[k] == k + 1,
            decreases 10 - d,
        {
            elements.push(d);
            d += 1;
        }
        let ghost before_shuffle = elements@;
        shuffle(&mut elements);
        proof {
            broadcast use vstd::seq_lib::group_to_multiset_ensures;

            assert forall|k: int| 0 <= k < elements@.len()
                implies 1 <= #[trigger] elements@[k] <= 9 by {
                let x = elements@[k];
                assert(elements@.contains(x));
                assert(before_shuffle.to_multiset().count(x) > 0);
                assert(before_shuffle.contains(x));
            }
        }
        let mut attempts = counter;
        let mut idx: usize = 0;
        let ghost mut fr: int = 0;
        let ghost mut fc: int = 0;
        while idx < elements.len()
            invariant
                self@ == old(self)@,
                attempts == counter + idx,
                elements@.len() == 9,
                forall|k: int| 0 <= k < 9 ==> 1 <= #[trigger] elements@[k] <= 9,
                elements@.to_multiset() == before_shuffle.to_multiset(),
                before_shuffle.len() == 9,
                forall|m: int| 0 <= m < 9 ==> #[trigger] before_shuffle[m] == m + 1,
                idx > 0 ==> is_first_empty(old(self)@, fr, fc),
                forall|g2: Seq<Seq<i8>>, k: int|
                    #![trigger completes(old(self)@, g2), elements@[k]]
                    completes(old(self)@, g2) && 0 <= k < idx ==> g2[fr][fc] != elements@[k],
            decreases 9 - idx,
        {
            let number = elements[idx];
            if attempts >= ATTEMPT_CAP {
                proof {
                    if idx > 0 {
                        lemma_cell_update_zeros(old(self)@, fr, fc, 1);
                    }
                }
                return Err(PuzzleError::SearchExhausted);
            }
            attempts += 1;
            match self.get_next_empty() {
                None => {
                    return Ok(true);
                },
                Some(cell) => {
                    let r = cell[0];
                    let c = cell[1];
                    proof {
                        if idx > 0 {
                            lemma_first_empty_unique(old(self)@, fr, fc, r as int, c as int);
                        }
                        fr = r as int;
                        fc = c as int;
                    }
                    if self.can_place(r, c, &number) {
                        self.set_cell(r, c, number);
                        proof {
                            lemma_cell_update_zeros(old(self)@, r as int, c as int, number);
                            if valid(old(self)@) {
                                lemma_place_preserves_valid(
                                    old(self)@,
                                    r as int,
                                    c as int,
                                    number,
                                );
                            }
                        }
                        match self.rand_fill_grid(attempts) {
                            Ok(true) => {
                                return Ok(true);
                            },
                            Ok(false) => {
                                self.set_cell(r, c, 0);
                                proof {
                                    lemma_unplace_restores(old(self)@, r as int, c as int, number);
                                    assert forall|g2: Seq<Seq<i8>>|
                                        #[trigger] completes(old(self)@, g2)
                                        implies g2[fr][fc] != number by {
                                        if g2[fr][fc] == number {
                                            lemma_completion_extends(old(self)@, g2, fr, fc);
                                        }
                                    }
                                }
                            },
                            Err(e) => {
                                self.set_cell(r, c, 0);
                                proof {
                                    lemma_unplace_restores(old(self)@, r as int, c as int, number);
                                    assert(grid_zeros(old(self)@) >= 1);
                                }
                                return Err(e);
                            },
                        }
                    } else {
                        proof {
                            assert forall|g2: Seq<Seq<i8>>|
                                #[trigger] completes(old(self)@, g2)
                                implies g2[fr][fc] != number by {
                                if g2[fr][fc] == number {
                                    lemma_completion_can_place(old(self)@, g2, fr, fc);
                                }
                            }
                        }
                    }
                },
            }
            idx += 1;
        }
        proof {
            broadcast use vstd::seq_lib::group_to_multiset_ensures;

            assert forall|g2: Seq<Seq<i8>>| !completes(old(self)@, g2) by {
                if completes(old(self)@, g2) {
                    let digit = g2[fr][fc];
                    assert(1 <= digit <= 9);
                    assert(before_shuffle[digit - 1] == digit);
                    assert(before_shuffle.contains(digit));
                    assert(elements@.to_multiset().count(digit) > 0);
                    assert(elements@.contains(digit));
                    let k = choose|k: int| 0 <= k < 9 && #[trigger] elements@[k] == digit;
                    assert(g2[fr][fc] != elements@[k]);
                }
            }
        }
        Ok(false)
    }

    /// Mask `n_vals` distinct cells, chosen uniformly at random, by setting
    /// them to the hidden marker 0.  Asking for more cells than the grid has
    /// is rejected; on a fully populated grid exactly `n_vals` cells end up
    /// hidden and every other cell keeps its digit.
    #[verifier::loop_isolation(false)]
    pub fn hide_values(&mut self, n_vals: usize) -> (res: Result<(), PuzzleError>)
        requires
            old(self).wf(),
        ensures
            final(self).wf(),
            res is Ok <==> n_vals <= 81,
            res is Err ==> res == Err::<(), PuzzleError>(PuzzleError::InvalidArgument)
                && final(self)@ == old(self)@,
            forall|r: int, c: int|
                0 <= r < 9 && 0 <= c < 9
                    ==> #[trigger] final(self)@[r][c] == old(self)@[r][c]
                        || final(self)@[r][c] == 0,
            res is Ok && filled(old(self)@) ==> grid_zeros(final(self)@) == n_vals,
            valid(old(self)@) ==> valid(final(self)@),
    {
        if n_vals > 81 {
            return Err(PuzzleError::InvalidArgument);
        }
        let mut cells: Vec<usize> = Vec::new();
        let mut k: usize = 0;
        while k < 81
            invariant
                k <= 81,
                cells@.len() == k,
                forall|m: int| 0 <= m < k ==> #[trigger] cells@[m] == m,
            decreases 81 - k,
        {
            cells.push(k);
            k += 1;
        }
        let ghost before_shuffle = cells@;
        shuffle(&mut cells);
        proof {
            broadcast use vstd::seq_lib::group_to_multiset_ensures;

            assert forall|m: int| 0 <= m < cells@.len()
                implies #[trigger] cells@[m] < 81 by {
                let x = cells@[m];
                assert(cells@.contains(x));
                assert(before_shuffle.to_multiset().count(x) > 0);
                assert(before_shuffle.contains(x));
            }
            assert(before_shuffle.no_duplicates());
            before_shuffle.lemma_multiset_has_no_duplicates();
            cells@.lemma_multiset_has_no_duplicates_conv();
        }
        let ghost g0 = old(self)@;
        proof {
            if filled(g0) {
                assert forall|r: int| 0 <= r < 9 implies row_zeros(#[trigger] g0[r]) == 0 by {
                    lemma_row_no_zeros(g0[r]);
                }
                lemma_grid_no_zeros(g0);
            }
        }
        let mut i: usize = 0;
        while i < n_vals
            invariant
                i <= n_vals <= 81,
                self.wf(),
                cells@.len() == 81,
                cells@.no_duplicates(),
                forall|m: int| 0 <= m < 81 ==> #[trigger] cells@[m] < 81,
                forall|r: int, c: int|
                    0 <= r < 9 && 0 <= c < 9
                        ==> #[trigger] self@[r][c] == g0[r][c] || self@[r][c] == 0,
                filled(g0) ==> grid_zeros(self@) == i,
                filled(g0) ==> forall|r: int, c: int|
                    0 <= r < 9 && 0 <= c < 9
                        ==> ((#[trigger] self@[r][c] == 0)
                            <==> cells@.take(i as int).contains((r * 9 + c) as usize)),
            decreases n_vals - i,
        {
            let idx = cells[i];
            let row = idx / 9;
            let col = idx - row * 9;
            proof {
                assert(row < 9 && col < 9 && row * 9 + col == idx) by (nonlinear_arith)
                    requires
                        idx < 81,
                        row == idx / 9,
                        col == idx - row * 9,
                ;
            }
            let ghost before = self@;
            self.set_cell(row, col, 0);
            proof {
                if filled(g0) {
                    assert(!cells@.take(i as int).contains(idx)) by {
                        if cells@.take(i as int).contains(idx) {
                            let m = choose|m: int|
                                0 <= m < i && #[trigger] cells@.take(i as int)[m] == idx;
                            assert(cells@[m] == cells@[i as int]);
                        }
                    }
                    assert(before[row as int][col as int] != 0);
                    lemma_cell_update_zeros(before, row as int, col as int, 0);
                    assert(cells@.take(i + 1) =~= cells@.take(i as int).push(idx));
                    assert forall|r: int, c: int| 0 <= r < 9 && 0 <= c < 9
                        implies ((#[trigger] self@[r][c] == 0)
                            <==> cells@.take(i + 1).contains((r * 9 + c) as usize)) by {
                        let coord = (r * 9 + c) as usize;
                        if r == row as int && c == col as int {
                            assert(cells@.take(i + 1)[i as int] == idx);
                            assert(cells@.take(i + 1).contains(coord));
                        } else {
                            assert(coord != idx) by (nonlinear_arith)
                                requires
                                    0 <= r < 9,
                                    0 <= c < 9,
                                    coord == r * 9 + c,
                                    idx == row * 9 + col,
                                    col < 9,
                                    !(r == row as int && c == col as int),
                            ;
                            assert(self@[r][c] == before[r][c]);
                            assert(cells@.take(i + 1).contains(coord)
                                <==> cells@.take(i as int).contains(coord)) by {
                                if cells@.take(i as int).contains(coord) {
                                    let m = choose|m: int|
                                        0 <= m < i && #[trigger] cells@.take(i as int)[m]
                                            == coord;
                                    assert(cells@.take(i + 1)[m] == coord);
                                }
                                if cells@.take(i + 1).contains(coord) {
                                    let m = choose|m: int|
                                        0 <= m < i + 1 && #[trigger] cells@.take(i + 1)[m]
                                            == coord;
                                    assert(m < i);
                                    assert(cells@.take(i as int)[m] == coord);
                                }
                            }
                        }
                    }
                }
            }
            i += 1;
        }
        proof {
            if valid(old(self)@) {
                lemma_mask_preserves_valid(old(self)@, self@);
            }
        }
        Ok(())
    }
}

/// Generate a Sudoku puzzle grid: fill an empty grid completely by the
/// randomized backtracking search.  Generation from empty always succeeds:
/// the attempt budget provably covers one 9x9 pass, and the empty grid
/// provably has a completion, so the exhaustive search cannot come back
/// empty-handed.  The grid returned satisfies the Sudoku invariant with
/// every cell holding a digit 1..=9.
pub fn create_puzzle() -> (res: Result<Sudoku, PuzzleError>)
    ensures
        res is Ok,
        res matches Ok(s) ==> s.wf() && in_range(s@) && filled(s@) && valid(s@),
{
    let mut grid = Sudoku::new();
    proof {
        lemma_all_empty_zeros(grid@);
        assert(1 + 9 * grid_zeros(grid@) <= ATTEMPT_CAP);
    }
    match grid.rand_fill_grid(0) {
        Ok(true) => Ok(grid),
        Ok(false) => {
            proof {
                lemma_empty_grid_completable();
                let g2 = choose|g2: Seq<Seq<i8>>| completes(empty_grid(), g2);
                assert(completes(grid@, g2));
            }
            Err(PuzzleError::SearchExhausted)
        },
        Err(e) => Err(e),
    }
}

/// Complete a pre-seeded 9x9 grid: every cell that already holds a digit is
/// kept, and every empty cell is filled so that the whole grid satisfies
/// the Sudoku invariant.  The attempt budget provably covers one 9x9 pass,
/// so failure means the seeded grid admits no completion at all.
pub fn solve_puzzle(values: Vec<Vec<i8>>) -> (res: Result<Sudoku, PuzzleError>)
    requires
        grid_wf(grid_view(values@)),
        in_range(grid_view(values@)),
        valid(grid_view(values@)),
    ensures
        match res {
            Ok(s) => {
                &&& s.wf()
                &&& in_range(s@)
                &&& filled(s@)
                &&& valid(s@)
                &&& forall|r: int, c: int|
                    0 <= r < 9 && 0 <= c < 9 && grid_view(values@)[r][c] != 0
                        ==> #[trigger] s@[r][c] == grid_view(values@)[r][c]
            },
            Err(e) => e == PuzzleError::SearchExhausted && (forall|g2: Seq<Seq<i8>>|
                !completes(grid_view(values@), g2)),
        },
{
    let mut puzzle = Sudoku::from_values(values);
    proof {
        lemma_grid_zeros_le(puzzle@);
        assert(1 + 9 * grid_zeros(puzzle@) <= ATTEMPT_CAP);
    }
    match puzzle.rand_fill_grid(0) {
        Ok(true) => Ok(puzzle),
        Ok(false) => Err(PuzzleError::SearchExhausted),
        Err(e) => Err(e),
    }
}

/// One column of the grid, read top to bottom.
pub open spec fn col_seq(g: Seq<Seq<i8>>, c: int) -> Seq<i8> {
    Seq::new(9, |r: int| g[r][c])
}

/// Box `b` (boxes numbered 0..9 row-major), read row-major.
pub open spec fn box_seq(g: Seq<Seq<i8>>, b: int) -> Seq<i8> {
    Seq::new(9, |i: int| g[b / 3 * 3 + i / 3][b % 3 * 3 + i % 3])
}

/// Each digit 1 through 9 appears exactly once in the nine cells of `s`:
/// every digit is present, and no cell repeats another.
pub open spec fn digits_exactly_once(s: Seq<i8>) -> bool {
    &&& s.len() == 9
    &&& s.no_duplicates()
    &&& forall|d: i8| 1 <= d <= 9 ==> s.contains(d)
}

/// Nine pairwise distinct digits drawn from 1..=9 must cover all of 1..=9.
proof fn lemma_nine_distinct_digits_cover(s: Seq<i8>)
    requires
        s.len() == 9,
        forall|i: int| 0 <= i < 9 ==> 1 <= #[trigger] s[i] <= 9,
        s.no_duplicates(),
    ensures
        forall|d: i8| 1 <= d <= 9 ==> s.contains(d),
{
    broadcast use vstd::seq_lib::seq_to_set_is_finite;

    let f = |x: i8| x as int;
    let m = s.map_values(f);
    assert(vstd::relations::injective(f));
    s.lemma_no_duplicates_injective(f);
    m.unique_seq_to_set();
    vstd::set_lib::lemma_int_range(1, 10);
    assert(m.to_set().subset_of(vstd::set_lib::set_int_range(1, 10))) by {
        assert forall|x: int| m.to_set().contains(x) implies 1 <= x < 10 by {
            assert(m.contains(x));
            let i = choose|i: int| 0 <= i < m.len() && m[i] == x;
            assert(1 <= s[i] <= 9);
        }
    }
    vstd::set_lib::lemma_subset_equality(m.to_set(), vstd::set_lib::set_int_range(1, 10));
    assert forall|d: i8| 1 <= d <= 9 implies s.contains(d) by {
        assert(vstd::set_lib::set_int_range(1, 10).contains(d as int));
        assert(m.to_set().contains(d as int));
        assert(m.contains(d as int));
        let i = choose|i: int| 0 <= i < m.len() && m[i] == d as int;
        assert(s[i] == d);
    }
}

/// Sudoku uniqueness: in a completed grid that satisfies the Sudoku
/// invariant, each of the 9 rows, 9 columns, and 9 boxes contains each
/// digit 1 through 9 exactly once.
pub proof fn lemma_completed_grid_uniqueness(g: Seq<Seq<i8>>)
    requires
        grid_wf(g),
        in_range(g),
        filled(g),
        valid(g),
    ensures
        forall|r: int| 0 <= r < 9 ==> digits_exactly_once(#[trigger] g[r]),
        forall|c: int| 0 <= c < 9 ==> digits_exactly_once(col_seq(g, c)),
        forall|b: int| 0 <= b < 9 ==> digits_exactly_once(box_seq(g, b)),
{
    assert forall|r: int| 0 <= r < 9 implies digits_exactly_once(g[r]) by {
        let s = g[r];
        assert forall|i: int, j: int|
            0 <= i < 9 && 0 <= j < 9 && i != j implies s[i] != s[j] by {
            assert(g[r][i] != 0);
            assert(same_unit(r, i, r, j));
        }
        assert(s.no_duplicates());
        lemma_nine_distinct_digits_cover(s);
    }
    assert forall|c: int| 0 <= c < 9 implies digits_exactly_once(col_seq(g, c)) by {
        let s = col_seq(g, c);
        assert forall|i: int, j: int|
            0 <= i < 9 && 0 <= j < 9 && i != j implies s[i] != s[j] by {
            assert(g[i][c] != 0);
            assert(same_unit(i, c, j, c));
        }
        assert(s.no_duplicates());
        assert(forall|i: int| 0 <= i < 9 ==> 1 <= #[trigger] s[i] <= 9);
        lemma_nine_distinct_digits_cover(s);
    }
    assert forall|b: int| 0 <= b < 9 implies digits_exactly_once(box_seq(g, b)) by {
        let s = box_seq(g, b);
        let br = b / 3 * 3;
        let bc = b % 3 * 3;
        assert forall|i: int, j: int|
            0 <= i < 9 && 0 <= j < 9 && i != j implies s[i] != s[j] by {
            let r1 = br + i / 3;
            let c1 = bc + i % 3;
            let r2 = br + j / 3;
            let c2 = bc + j % 3;
            assert(0 <= r1 < 9 && 0 <= c1 < 9 && 0 <= r2 < 9 && 0 <= c2 < 9);
            assert(!(r1 == r2 && c1 == c2)) by (nonlinear_arith)
                requires
                    0 <= i < 9,
                    0 <= j < 9,
                    i != j,
                    r1 == br + i / 3,
                    c1 == bc + i % 3,
                    r2 == br + j / 3,
                    c2 == bc + j % 3,
            ;
            assert(r1 / 3 == b / 3 && r2 / 3 == b / 3 && c1 / 3 == b % 3 && c2 / 3 == b % 3)
                by (nonlinear_arith)
                requires
                    0 <= b < 9,
                    0 <= i < 9,
                    0 <= j < 9,
                    br == b / 3 * 3,
                    bc == b % 3 * 3,
                    r1 == br + i / 3,
                    c1 == bc + i % 3,
                    r2 == br + j / 3,
                    c2 == bc + j % 3,
            ;
            assert(same_unit(r1, c1, r2, c2));
            assert(g[r1][c1] != 0);
        }
        assert(s.no_duplicates());
        assert(forall|i: int| 0 <= i < 9 ==> 1 <= #[trigger] s[i] <= 9);
        lemma_nine_distinct_digits_cover(s);
    }
}

impl Default for Sudoku {
    /// A freshly generated puzzle: a random solved grid with exactly 60 of
    /// its 81 cells hidden.
    fn default() -> (s: Sudoku)
        ensures
            s.wf(),
            in_range(s@),
            valid(s@),
            grid_zeros(s@) == 60,
    {
        let mut out = Sudoku::new();
        proof {
            lemma_all_empty_zeros(out@);
            assert(1 + 9 * grid_zeros(out@) <= ATTEMPT_CAP);
        }
        let ghost blank = out@;
        let completed = out.rand_fill_grid(0);
        proof {
            match completed {
                Ok(true) => {},
                Ok(false) => {
                    lemma_empty_grid_completable();
                    let g2 = choose|g2: Seq<Seq<i8>>| completes(empty_grid(), g2);
                    assert(completes(blank, g2));
                },
                Err(_) => {},
            }
        }
        let _masked = out.hide_values(60);
        out
    }
}

/// The all-empty grid that generation starts from.
pub open spec fn empty_grid() -> Seq<Seq<i8>> {
    Seq::new(9, |r: int| Seq::new(9, |c: int| 0i8))
}

/// A row counts at most one empty cell per cell.
proof fn lemma_row_zeros_le(s: Seq<i8>)
    ensures
        row_zeros(s) <= s.len(),
    decreases s.len(),
{
    if s.len() > 0 {
        lemma_row_zeros_le(s.drop_last());
    }
}

/// A grid of rows of at most nine cells counts at most nine empties a row.
proof fn lemma_grid_zeros_le(g: Seq<Seq<i8>>)
    requires
        forall|r: int| 0 <= r < g.len() ==> (#[trigger] g[r]).len() <= 9,
    ensures
        grid_zeros(g) <= 9 * g.len(),
    decreases g.len(),
{
    if g.len() > 0 {
        assert(forall|r: int| 0 <= r < g.len() - 1
            ==> #[trigger] g.drop_last()[r] == g[r]);
        lemma_grid_zeros_le(g.drop_last());
        lemma_row_zeros_le(g.last());
    }
}

/// A row with every cell empty counts one empty per cell.
proof fn lemma_row_zeros_full(s: Seq<i8>)
    requires
        forall|c: int| 0 <= c < s.len() ==> #[trigger] s[c] == 0,
    ensures
        row_zeros(s) == s.len(),
    decreases s.len(),
{
    if s.len() > 0 {
        lemma_row_zeros_full(s.drop_last());
    }
}

/// A grid whose rows each count nine empties counts nine per row.
proof fn lemma_grid_zeros_full(g: Seq<Seq<i8>>)
    requires
        forall|r: int| 0 <= r < g.len() ==> row_zeros(#[trigger] g[r]) == 9,
    ensures
        grid_zeros(g) == 9 * g.len(),
    decreases g.len(),
{
    if g.len() > 0 {
        assert(forall|r: int| 0 <= r < g.len() - 1
            ==> #[trigger] g.drop_last()[r] == g[r]);
        lemma_grid_zeros_full(g.drop_last());
    }
}

/// An all-empty well-formed grid has exactly 81 empty cells, so the fill
/// search's whole attempt budget is known in advance.
proof fn lemma_all_empty_zeros(g: Seq<Seq<i8>>)
    requires
        grid_wf(g),
        forall|r: int, c: int| 0 <= r < 9 && 0 <= c < 9 ==> #[trigger] g[r][c] == 0,
    ensures
        grid_zeros(g) == 81,
{
    assert forall|r: int| 0 <= r < g.len() implies row_zeros(#[trigger] g[r]) == 9 by {
        lemma_row_zeros_full(g[r]);
    }
    lemma_grid_zeros_full(g);
}

/// A row with no empty cell counts zero empties.
proof fn lemma_row_no_zeros(s: Seq<i8>)
    requires
        forall|c: int| 0 <= c < s.len() ==> #[trigger] s[c] != 0,
    ensures
        row_zeros(s) == 0,
    decreases s.len(),
{
    if s.len() > 0 {
        lemma_row_no_zeros(s.drop_last());
    }
}

/// A grid whose rows all count zero empties counts zero empties.
proof fn lemma_grid_no_zeros(g: Seq<Seq<i8>>)
    requires
        forall|r: int| 0 <= r < g.len() ==> row_zeros(#[trigger] g[r]) == 0,
    ensures
        grid_zeros(g) == 0,
    decreases g.len(),
{
    if g.len() > 0 {
        assert(forall|r: int| 0 <= r < g.len() - 1
            ==> #[trigger] g.drop_last()[r] == g[r]);
        lemma_grid_no_zeros(g.drop_last());
    }
}

/// Hiding cells never creates a conflict: a grid obtained from a valid one
/// by blanking out some cells is still valid.
pub proof fn lemma_mask_preserves_valid(g1: Seq<Seq<i8>>, g2: Seq<Seq<i8>>)
    requires
        grid_wf(g1),
        grid_wf(g2),
        valid(g1),
        forall|r: int, c: int|
            0 <= r < 9 && 0 <= c < 9 ==> #[trigger] g2[r][c] == g1[r][c] || g2[r][c] == 0,
    ensures
        valid(g2),
{
    assert forall|r1: int, c1: int, r2: int, c2: int|
        0 <= r1 < 9 && 0 <= c1 < 9 && 0 <= r2 < 9 && 0 <= c2 < 9
            && !(r1 == r2 && c1 == c2) && same_unit(r1, c1, r2, c2)
            && #[trigger] g2[r1][c1] != 0 implies g2[r1][c1] != #[trigger] g2[r2][c2] by {
        assert(g2[r1][c1] == g1[r1][c1]);
        if g2[r2][c2] != 0 {
            assert(g2[r2][c2] == g1[r2][c2]);
        }
    }
}

/// Resetting a freshly written cell back to empty restores the grid.
proof fn lemma_unplace_restores(g: Seq<Seq<i8>>, r: int, c: int, v: i8)
    requires
        grid_wf(g),
        0 <= r < 9,
        0 <= c < 9,
        g[r][c] == 0,
    ensures
        update_cell(update_cell(g, r, c, v), r, c, 0) == g,
{
    let g2 = update_cell(update_cell(g, r, c, v), r, c, 0);
    assert forall|k: int| 0 <= k < 9 implies g2[k] == g[k] by {
        if k == r {
            assert(g2[k] =~= g[k]);
        }
    }
    assert(g2 =~= g);
}

} // verus!
