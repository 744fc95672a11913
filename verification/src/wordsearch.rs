use vstd::prelude::*;
use crate::PuzzleError;
use crate::rng::{shuffle, random_lowercase};

verus! {

/// The sentinel content of a grid cell that no word letter has claimed yet.
pub const BLANK: char = ' ';

/// A unit step applied repeatedly from an anchor cell to lay out the
/// letters of a word.
#[derive(Clone, Copy, PartialEq, Eq, Structural, Debug)]
pub enum Direction {
    Down,
    Up,
    Right,
    Left,
    DiagDown,
    DiagUp,
}

/// A rectangular letter grid under construction: cells hold either a placed
/// letter or the blank marker.
pub struct Wordsearch {
    grid: Vec<Vec<char>>,
}

/// The abstract grid that a sequence of character rows holds.
pub open spec fn letter_grid_view(rows: Seq<Vec<char>>) -> Seq<Seq<char>> {
    Seq::new(rows.len(), |r: int| rows[r]@)
}

impl View for Wordsearch {
    type V = Seq<Seq<char>>;

    closed spec fn view(&self) -> Seq<Seq<char>> {
        letter_grid_view(self.grid@)
    }
}

pub open spec fn height(g: Seq<Seq<char>>) -> int {
    g.len() as int
}

pub open spec fn width(g: Seq<Seq<char>>) -> int {
    if g.len() > 0 {
        g[0].len() as int
    } else {
        0
    }
}

/// Every row has the same length.
pub open spec fn ws_wf(g: Seq<Seq<char>>) -> bool {
    forall|r: int| 0 <= r < g.len() ==> (#[trigger] g[r]).len() == width(g)
}

/// The (row, column) unit step of a direction.
pub open spec fn dir_delta(d: Direction) -> (int, int) {
    match d {
        Direction::Right => (0, 1),
        Direction::Left => (0, -1),
        Direction::Up => (-1, 0),
        Direction::Down => (1, 0),
        Direction::DiagDown => (1, 1),
        Direction::DiagUp => (-1, -1),
    }
}

/// The row of the cell `i` steps from the anchor.
pub open spec fn step_row(row: int, d: Direction, i: int) -> int {
    row + i * dir_delta(d).0
}

/// The column of the cell `i` steps from the anchor.
pub open spec fn step_col(col: int, d: Direction, i: int) -> int {
    col + i * dir_delta(d).1
}

/// The concrete coordinates that each direction's unit step yields.
proof fn lemma_step_coords(row: int, col: int, d: Direction, i: int)
    ensures
        d == Direction::Right ==> step_row(row, d, i) == row && step_col(col, d, i) == col + i,
        d == Direction::Left ==> step_row(row, d, i) == row && step_col(col, d, i) == col - i,
        d == Direction::Up ==> step_row(row, d, i) == row - i && step_col(col, d, i) == col,
        d == Direction::Down ==> step_row(row, d, i) == row + i && step_col(col, d, i) == col,
        d == Direction::DiagDown ==> step_row(row, d, i) == row + i && step_col(col, d, i) == col
            + i,
        d == Direction::DiagUp ==> step_row(row, d, i) == row - i && step_col(col, d, i) == col
            - i,
{
    assert(i * 0 == 0) by (nonlinear_arith);
    assert(i * 1 == i) by (nonlinear_arith);
    assert(i * (-1) == -i) by (nonlinear_arith);
}

/// The run of `len` cells from the anchor in direction `d` stays inside
/// the grid.
pub open spec fn run_in_bounds(
    g: Seq<Seq<char>>,
    row: int,
    col: int,
    d: Direction,
    len: int,
) -> bool {
    &&& 0 <= row < height(g)
    &&& 0 <= col < width(g)
    &&& match d {
        Direction::Right => col + len <= width(g),
        Direction::Left => len <= col + 1,
        Direction::Up => len <= row + 1,
        Direction::Down => row + len <= height(g),
        Direction::DiagDown => row + len <= height(g) && col + len <= width(g),
        Direction::DiagUp => len <= row + 1 && len <= col + 1,
    }
}

/// The word can be written along the run without a conflict: the run stays
/// in bounds and every cell of it is blank or already holds the letter the
/// word puts there.
pub open spec fn run_compatible(
    g: Seq<Seq<char>>,
    w: Seq<char>,
    row: int,
    col: int,
    d: Direction,
) -> bool {
    &&& run_in_bounds(g, row, col, d, w.len() as int)
    &&& forall|i: int|
        0 <= i < w.len() ==> #[trigger] g[step_row(row, d, i)][step_col(col, d, i)] == BLANK
            || g[step_row(row, d, i)][step_col(col, d, i)] == w[i]
}

/// The word stands written along the run: cell `i` of the run holds
/// letter `i` of the word.
pub open spec fn word_at(g: Seq<Seq<char>>, w: Seq<char>, row: int, col: int, d: Direction) -> bool {
    &&& run_in_bounds(g, row, col, d, w.len() as int)
    &&& forall|i: int|
        0 <= i < w.len() ==> #[trigger] g[step_row(row, d, i)][step_col(col, d, i)] == w[i]
}

/// Which directions the engine offers for a word at an anchor.  Each axis
/// direction is offered when its own run is compatible; a diagonal is
/// offered when the two axis runs it combines are both compatible.  The
/// actual diagonal cells are deliberately not examined, so a diagonal
/// placement can overwrite a conflicting letter; keep that in mind when
/// relying on the containment law below.
pub open spec fn dir_offered(
    g: Seq<Seq<char>>,
    w: Seq<char>,
    row: int,
    col: int,
    d: Direction,
) -> bool {
    match d {
        Direction::Right => run_compatible(g, w, row, col, Direction::Right),
        Direction::Left => run_compatible(g, w, row, col, Direction::Left),
        Direction::Up => run_compatible(g, w, row, col, Direction::Up),
        Direction::Down => run_compatible(g, w, row, col, Direction::Down),
        Direction::DiagDown => run_compatible(g, w, row, col, Direction::Right)
            && run_compatible(g, w, row, col, Direction::Down),
        Direction::DiagUp => run_compatible(g, w, row, col, Direction::Left)
            && run_compatible(g, w, row, col, Direction::Up),
    }
}

/// A word of this length fits the grid: at least two letters, and no longer
/// than at least one of the two grid dimensions.
pub open spec fn valid_word_len(len: int, grid_width: int, grid_height: int) -> bool {
    2 <= len && (len <= grid_width || len <= grid_height)
}

/// Cell `(r, c)` lies on the run of `len` cells from the anchor.
pub open spec fn on_run(row: int, col: int, d: Direction, len: int, r: int, c: int) -> bool {
    exists|i: int|
        0 <= i < len && #[trigger] step_row(row, d, i) == r && step_col(col, d, i) == c
}

/// Pushing onto a sequence adds exactly one membership.
proof fn lemma_push_contains<A>(s: Seq<A>, e: A, x: A)
    ensures
        s.push(e).contains(x) <==> (s.contains(x) || x == e),
{
    if s.contains(x) {
        let i = choose|i: int| 0 <= i < s.len() && s[i] == x;
        assert(s.push(e)[i] == x);
    }
    if x == e {
        assert(s.push(e)[s.len() as int] == x);
    }
    if s.push(e).contains(x) {
        let i = choose|i: int| 0 <= i < s.push(e).len() && s.push(e)[i] == x;
        if i < s.len() {
            assert(s[i] == x);
        }
    }
}

/// An anchor cell can start the word: it is blank or already holds the
/// word's first letter.
pub open spec fn anchor_ok(g: Seq<Seq<char>>, w: Seq<char>, r: int, c: int) -> bool {
    g[r][c] == BLANK || g[r][c] == w[0]
}

/// The word stands somewhere in the grid: readable as one contiguous
/// straight run from some anchor along one of the six directions.
pub open spec fn word_placed(g: Seq<Seq<char>>, w: Seq<char>) -> bool {
    exists|r: int, c: int, d: Direction| #[trigger] word_at(g, w, r, c, d)
}

/// No direction at all is offered for the word at this anchor pair.
spec fn offers_nothing(g: Seq<Seq<char>>, w: Seq<char>, cand: Vec<usize>) -> bool {
    forall|d: Direction| !dir_offered(g, w, cand@[0] as int, cand@[1] as int, d)
}

/// An offered direction always yields an in-bounds run: for the axis
/// directions that is part of compatibility, and a diagonal run fits
/// whenever both of its axis runs fit.
proof fn lemma_offered_run_in_bounds(
    g: Seq<Seq<char>>,
    w: Seq<char>,
    row: int,
    col: int,
    d: Direction,
)
    requires
        dir_offered(g, w, row, col, d),
    ensures
        run_in_bounds(g, row, col, d, w.len() as int),
{
}

impl Wordsearch {
    pub open spec fn wf(&self) -> bool {
        ws_wf(self@)
    }

    /// An all-blank grid of the requested dimensions.
    pub fn new(grid_width: usize, grid_height: usize) -> (w: Wordsearch)
        ensures
            w.wf(),
            w@.len() == grid_height,
            forall|r: int| 0 <= r < grid_height ==> (#[trigger] w@[r]).len() == grid_width,
            forall|r: int, c: int|
                0 <= r < grid_height && 0 <= c < grid_width ==> #[trigger] w@[r][c] == BLANK,
    {
        let mut grid: Vec<Vec<char>> = Vec::new();
        while grid.len() < grid_height
            invariant
                grid@.len() <= grid_height,
                forall|r: int| 0 <= r < grid@.len()
                    ==> (#[trigger] grid@[r])@.len() == grid_width,
                forall|r: int, c: int| 0 <= r < grid@.len() && 0 <= c < grid_width
                    ==> #[trigger] grid@[r]@[c] == BLANK,
            decreases grid_height - grid@.len(),
        {
            let mut row: Vec<char> = Vec::new();
            while row.len() < grid_width
                invariant
                    row@.len() <= grid_width,
                    forall|c: int| 0 <= c < row@.len() ==> row@[c] == BLANK,
                decreases grid_width - row@.len(),
            {
                row.push(BLANK);
            }
            grid.push(row);
        }
        Wordsearch { grid }
    }

    /// Read one cell.
    pub fn letter_at(&self, row: usize, column: usize) -> (c: char)
        requires
            self.wf(),
            row < height(self@),
            column < width(self@),
        ensures
            c == self@[row as int][column as int],
    {
        proof {
            assert(self@[row as int] == self.grid@[row as int]@);
        }
        self.grid[row][column]
    }

    /// Write one cell.
    fn set_letter(&mut self, row: usize, column: usize, letter: char)
        requires
            old(self).wf(),
            row < height(old(self)@),
            column < width(old(self)@),
        ensures
            final(self).wf(),
            final(self)@.len() == old(self)@.len(),
            width(final(self)@) == width(old(self)@),
            final(self)@
                == old(self)@.update(row as int, old(self)@[row as int].update(column as int, letter)),
    {
        proof {
            assert(self@[row as int] == self.grid@[row as int]@);
        }
        self.grid[row][column] = letter;
        proof {
            let g2 = old(self)@.update(
                row as int,
                old(self)@[row as int].update(column as int, letter),
            );
            assert forall|k: int| 0 <= k < self@.len() implies self@[k] == g2[k] by {
                if k == row as int {
                    assert(self@[k] =~= g2[k]);
                }
            }
            assert(self@ =~= g2);
            assert(width(self@) == width(old(self)@));
        }
    }

    /// Whether the word's run from the anchor in one direction stays inside
    /// the grid and meets no conflicting letter.
    #[verifier::spinoff_prover]
    #[verifier::rlimit(30)]
    #[verifier::loop_isolation(false)]
    fn check_run(&self, word: &String, row: usize, column: usize, direction: Direction) -> (ok:
        bool)
        requires
            self.wf(),
            row < height(self@),
            column < width(self@),
        ensures
            ok == run_compatible(self@, word@, row as int, column as int, direction),
    {
        let h = self.grid.len();
        proof {
            assert(self@[0] == self.grid@[0]@);
            assert(h == height(self@));
        }
        let w = self.grid[0].len();
        proof {
            assert(w == width(self@));
        }
        let len = word.as_str().unicode_len();
        let fits = match direction {
            Direction::Right => len <= w - column,
            Direction::Left => len <= column + 1,
            Direction::Up => len <= row + 1,
            Direction::Down => len <= h - row,
            Direction::DiagDown => len <= h - row && len <= w - column,
            Direction::DiagUp => len <= row + 1 && len <= column + 1,
        };
        if !fits {
            return false;
        }
        assert(run_in_bounds(self@, row as int, column as int, direction, len as int));
        let mut i: usize = 0;
        while i < len
            invariant
                i <= len,
                forall|k: int|
                    0 <= k < i
                        ==> #[trigger] self@[step_row(row as int, direction, k)][step_col(
                        column as int,
                        direction,
                        k,
                    )] == BLANK || self@[step_row(row as int, direction, k)][step_col(
                        column as int,
                        direction,
                        k,
                    )] == word@[k],
            decreases len - i,
        {
            let (r, c) = match direction {
                Direction::Right => {
                    proof {
                        lemma_step_coords(row as int, column as int, direction, i as int);
                        assert(step_row(row as int, direction, i as int) == row as int);
                        assert(step_col(column as int, direction, i as int) == column + i);
                    }
                    (row, column + i)
                },
                Direction::Left => {
                    proof {
                        lemma_step_coords(row as int, column as int, direction, i as int);
                        assert(step_row(row as int, direction, i as int) == row as int);
                        assert(step_col(column as int, direction, i as int) == column - i);
                    }
                    (row, column - i)
                },
                Direction::Up => {
                    proof {
                        lemma_step_coords(row as int, column as int, direction, i as int);
                        assert(step_row(row as int, direction, i as int) == row - i);
                        assert(step_col(column as int, direction, i as int) == column as int);
                    }
                    (row - i, column)
                },
                Direction::Down => {
                    proof {
                        lemma_step_coords(row as int, column as int, direction, i as int);
                        assert(step_row(row as int, direction, i as int) == row + i);
                        assert(step_col(column as int, direction, i as int) == column as int);
                    }
                    (row + i, column)
                },
                Direction::DiagDown => {
                    proof {
                        lemma_step_coords(row as int, column as int, direction, i as int);
                        assert(step_row(row as int, direction, i as int) == row + i);
                        assert(step_col(column as int, direction, i as int) == column + i);
                    }
                    (row + i, column + i)
                },
                Direction::DiagUp => {
                    proof {
                        lemma_step_coords(row as int, column as int, direction, i as int);
                        assert(step_row(row as int, direction, i as int) == row - i);
                        assert(step_col(column as int, direction, i as int) == column - i);
                    }
                    (row - i, column - i)
                },
            };
            proof {
                assert(r as int == step_row(row as int, direction, i as int));
                assert(c as int == step_col(column as int, direction, i as int));
                assert(r < height(self@) && c < width(self@));
            }
            let cell = self.letter_at(r, c);
            if cell != BLANK && cell != word.as_str().get_char(i) {
                return false;
            }
            i += 1;
        }
        true
    }

    /// Whether one direction is offered for the word at this anchor.
    fn dir_is_offered(&self, word: &String, row: usize, column: usize, direction: Direction) -> (ok:
        bool)
        requires
            self.wf(),
            row < height(self@),
            column < width(self@),
        ensures
            ok == dir_offered(self@, word@, row as int, column as int, direction),
    {
        match direction {
            Direction::Right => self.check_run(word, row, column, Direction::Right),
            Direction::Left => self.check_run(word, row, column, Direction::Left),
            Direction::Up => self.check_run(word, row, column, Direction::Up),
            Direction::Down => self.check_run(word, row, column, Direction::Down),
            Direction::DiagDown => self.check_run(word, row, column, Direction::Right)
                && self.check_run(word, row, column, Direction::Down),
            Direction::DiagUp => self.check_run(word, row, column, Direction::Left)
                && self.check_run(word, row, column, Direction::Up),
        }
    }

    /// The set of directions along which the word can be committed at this
    /// anchor, or `None` when there is none.  Each axis direction is offered
    /// when its whole run is in bounds and conflict-free; a diagonal is
    /// offered when its two axis runs both are.
    #[verifier::spinoff_prover]
    #[verifier::rlimit(30)]
    #[verifier::loop_isolation(false)]
    pub fn valid_directions(&mut self, word: String, row: usize, column: usize) -> (dirs: Option<
        Vec<Direction>,
    >)
        requires
            old(self).wf(),
            row < height(old(self)@),
            column < width(old(self)@),
        ensures
            *final(self) == *old(self),
            match dirs {
                Some(v) => v@.len() > 0 && (forall|d: Direction|
                    v@.contains(d) <==> dir_offered(
                        old(self)@,
                        word@,
                        row as int,
                        column as int,
                        d,
                    )),
                None => forall|d: Direction|
                    !dir_offered(old(self)@, word@, row as int, column as int, d),
            },
    {
        let mut candidates: Vec<Direction> = Vec::new();
        candidates.push(Direction::Right);
        candidates.push(Direction::DiagDown);
        candidates.push(Direction::Down);
        candidates.push(Direction::Left);
        candidates.push(Direction::Up);
        candidates.push(Direction::DiagUp);
        proof {
            assert forall|d: Direction| candidates@.contains(d) by {
                match d {
                    Direction::Right => assert(candidates@[0] == d),
                    Direction::DiagDown => assert(candidates@[1] == d),
                    Direction::Down => assert(candidates@[2] == d),
                    Direction::Left => assert(candidates@[3] == d),
                    Direction::Up => assert(candidates@[4] == d),
                    Direction::DiagUp => assert(candidates@[5] == d),
                }
            }
        }
        let mut valid_dir: Vec<Direction> = Vec::new();
        let mut k: usize = 0;
        while k < candidates.len()
            invariant
                k <= candidates@.len(),
                forall|d: Direction|
                    valid_dir@.contains(d) <==> (dir_offered(
                        self@,
                        word@,
                        row as int,
                        column as int,
                        d,
                    ) && candidates@.take(k as int).contains(d)),
            decreases candidates@.len() - k,
        {
            let d = candidates[k];
            let ghost before = valid_dir@;
            if self.dir_is_offered(&word, row, column, d) {
                valid_dir.push(d);
            }
            proof {
                assert(candidates@.take(k + 1) =~= candidates@.take(k as int).push(d));
                assert forall|x: Direction|
                    valid_dir@.contains(x) <==> (dir_offered(
                        self@,
                        word@,
                        row as int,
                        column as int,
                        x,
                    ) && candidates@.take(k + 1).contains(x)) by {
                    lemma_push_contains(candidates@.take(k as int), d, x);
                    if valid_dir@ != before {
                        lemma_push_contains(before, d, x);
                    }
                }
            }
            k += 1;
        }
        proof {
            assert(candidates@.take(6) =~= candidates@);
        }
        if valid_dir.len() > 0 {
            return Some(valid_dir);
        }
        proof {
            assert forall|d: Direction|
                !dir_offered(self@, word@, row as int, column as int, d) by {
                if dir_offered(self@, word@, row as int, column as int, d) {
                    assert(valid_dir@.contains(d));
                }
            }
        }
        None
    }

    /// Every grid coordinate where the word could be anchored: cells that
    /// are blank or already hold the word's first letter, as `[row, column]`
    /// pairs in row-major order; `None` when no cell qualifies.
    #[verifier::spinoff_prover]
    #[verifier::rlimit(30)]
    #[verifier::loop_isolation(false)]
    pub fn get_candidates(&self, word: &String) -> (cands: Option<Vec<Vec<usize>>>)
        requires
            self.wf(),
            word@.len() >= 1,
        ensures
            match cands {
                Some(v) => {
                    &&& v@.len() > 0
                    &&& forall|k: int|
                        0 <= k < v@.len() ==> {
                            &&& (#[trigger] v@[k])@.len() == 2
                            &&& v@[k]@[0] < height(self@)
                            &&& v@[k]@[1] < width(self@)
                            &&& anchor_ok(self@, word@, v@[k]@[0] as int, v@[k]@[1] as int)
                        }
                    &&& forall|r: int, c: int|
                        0 <= r < height(self@) && 0 <= c < width(self@)
                            && anchor_ok(self@, word@, r, c)
                            ==> exists|k: int|
                            0 <= k < v@.len() && (#[trigger] v@[k])@[0] == r && v@[k]@[1] == c
                },
                None => forall|r: int, c: int|
                    0 <= r < height(self@) && 0 <= c < width(self@)
                        ==> !anchor_ok(self@, word@, r, c),
            },
    {
        let mut valid: Vec<Vec<usize>> = Vec::new();
        let first = word.as_str().get_char(0);
        let h = self.grid.len();
        let mut r: usize = 0;
        proof {
            assert(h == height(self@));
        }
        while r < h
            invariant
                r <= h,
                forall|k: int|
                    0 <= k < valid@.len() ==> {
                        &&& (#[trigger] valid@[k])@.len() == 2
                        &&& valid@[k]@[0] < height(self@)
                        &&& valid@[k]@[1] < width(self@)
                        &&& anchor_ok(self@, word@, valid@[k]@[0] as int, valid@[k]@[1] as int)
                    },
                forall|r0: int, c0: int|
                    0 <= r0 < r && 0 <= c0 < width(self@) && anchor_ok(self@, word@, r0, c0)
                        ==> exists|k: int|
                        0 <= k < valid@.len() && (#[trigger] valid@[k])@[0] == r0
                            && valid@[k]@[1] == c0,
            decreases h - r,
        {
            proof {
                assert(self@[r as int] == self.grid@[r as int]@);
            }
            let w = self.grid[r].len();
            proof {
                assert(w == width(self@));
            }
            let mut c: usize = 0;
            while c < w
                invariant
                    c <= w,
                    r < h,
                    forall|k: int|
                        0 <= k < valid@.len() ==> {
                            &&& (#[trigger] valid@[k])@.len() == 2
                            &&& valid@[k]@[0] < height(self@)
                            &&& valid@[k]@[1] < width(self@)
                            &&& anchor_ok(self@, word@, valid@[k]@[0] as int, valid@[k]@[1] as int)
                        },
                    forall|r0: int, c0: int|
                        0 <= r0 < r && 0 <= c0 < width(self@) && anchor_ok(self@, word@, r0, c0)
                            ==> exists|k: int|
                            0 <= k < valid@.len() && (#[trigger] valid@[k])@[0] == r0
                                && valid@[k]@[1] == c0,
                    forall|c0: int|
                        0 <= c0 < c && anchor_ok(self@, word@, r as int, c0)
                            ==> exists|k: int|
                            0 <= k < valid@.len() && (#[trigger] valid@[k])@[0] == r as int
                                && valid@[k]@[1] == c0,
                decreases w - c,
            {
                let cell = self.letter_at(r, c);
                if cell == BLANK || cell == first {
                    let mut pair: Vec<usize> = Vec::new();
                    pair.push(r);
                    pair.push(c);
                    let ghost before = valid@;
                    valid.push(pair);
                    proof {
                        assert(valid@[before.len() as int]@[0] == r as int
                            && valid@[before.len() as int]@[1] == c as int);
                        assert forall|r0: int, c0: int|
                            0 <= r0 < r && 0 <= c0 < width(self@)
                                && anchor_ok(self@, word@, r0, c0)
                                implies exists|k: int|
                                0 <= k < valid@.len() && (#[trigger] valid@[k])@[0] == r0
                                    && valid@[k]@[1] == c0 by {
                            let k = choose|k: int|
                                0 <= k < before.len() && (#[trigger] before[k])@[0] == r0
                                    && before[k]@[1] == c0;
                            assert(valid@[k]@[0] == r0 && valid@[k]@[1] == c0);
                        }
                        assert forall|c0: int|
                            0 <= c0 < c && anchor_ok(self@, word@, r as int, c0)
                                implies exists|k: int|
                                0 <= k < valid@.len() && (#[trigger] valid@[k])@[0] == r as int
                                    && valid@[k]@[1] == c0 by {
                            let k = choose|k: int|
                                0 <= k < before.len() && (#[trigger] before[k])@[0] == r as int
                                    && before[k]@[1] == c0;
                            assert(valid@[k]@[0] == r as int && valid@[k]@[1] == c0);
                        }
                    }
                }
                c += 1;
            }
            r += 1;
        }
        if valid.len() > 0 {
            return Some(valid);
        }
        None
    }

    /// Write the word into the grid along the chosen direction, letter by
    /// letter from the anchor.  A word whose length the grid cannot support
    /// is rejected before any cell changes; otherwise every cell of the run
    /// receives its letter and every other cell is untouched.
    #[verifier::spinoff_prover]
    #[verifier::rlimit(30)]
    #[verifier::loop_isolation(false)]
    pub fn place_word(&mut self, word: &String, row: usize, column: usize, direction: &Direction)
        -> (res: Result<(), PuzzleError>)
        requires
            old(self).wf(),
            row < height(old(self)@),
            column < width(old(self)@),
            valid_word_len(word@.len() as int, width(old(self)@), height(old(self)@))
                ==> run_in_bounds(
                old(self)@,
                row as int,
                column as int,
                *direction,
                word@.len() as int,
            ),
        ensures
            final(self).wf(),
            final(self)@.len() == old(self)@.len(),
            width(final(self)@) == width(old(self)@),
            res is Err <==> !valid_word_len(
                word@.len() as int,
                width(old(self)@),
                height(old(self)@),
            ),
            res is Err ==> res == Err::<(), PuzzleError>(PuzzleError::InvalidArgument)
                && final(self)@ == old(self)@,
            res is Ok ==> word_at(final(self)@, word@, row as int, column as int, *direction),
            res is Ok ==> forall|r: int, c: int|
                0 <= r < height(old(self)@) && 0 <= c < width(old(self)@)
                    && !on_run(row as int, column as int, *direction, word@.len() as int, r, c)
                    ==> #[trigger] final(self)@[r][c] == old(self)@[r][c],
    {
        let h = self.grid.len();
        proof {
            assert(self@[0] == self.grid@[0]@);
        }
        let w = self.grid[0].len();
        proof {
            assert(w == width(self@) && h == height(self@));
        }
        let len = word.as_str().unicode_len();
        if len < 2 || (len > w && len > h) {
            return Err(PuzzleError::InvalidArgument);
        }
        let d = *direction;
        let mut i: usize = 0;
        while i < len
            invariant
                i <= len,
                self.wf(),
                self@.len() == old(self)@.len(),
                width(self@) == width(old(self)@),
                forall|k: int|
                    0 <= k < i ==> #[trigger] self@[step_row(row as int, d, k)][step_col(
                        column as int,
                        d,
                        k,
                    )] == word@[k],
                forall|r: int, c: int|
                    0 <= r < height(old(self)@) && 0 <= c < width(old(self)@)
                        && !on_run(row as int, column as int, d, len as int, r, c)
                        ==> #[trigger] self@[r][c] == old(self)@[r][c],
            decreases len - i,
        {
            let (r, c) = match d {
                Direction::Right => {
                    proof {
                        lemma_step_coords(row as int, column as int, d, i as int);
                        assert(step_row(row as int, d, i as int) == row as int);
                        assert(step_col(column as int, d, i as int) == column + i);
                        assert forall|k: int| 0 <= k < i
                            implies #[trigger] step_col(column as int, d, k) == column + k by {
                            lemma_step_coords(row as int, column as int, d, k);
                        }
                    }
                    (row, column + i)
                },
                Direction::Left => {
                    proof {
                        lemma_step_coords(row as int, column as int, d, i as int);
                        assert(step_row(row as int, d, i as int) == row as int);
                        assert(step_col(column as int, d, i as int) == column - i);
                        assert forall|k: int| 0 <= k < i
                            implies #[trigger] step_col(column as int, d, k) == column - k by {
                            lemma_step_coords(row as int, column as int, d, k);
                        }
                    }
                    (row, column - i)
                },
                Direction::Up => {
                    proof {
                        lemma_step_coords(row as int, column as int, d, i as int);
                        assert(step_row(row as int, d, i as int) == row - i);
                        assert(step_col(column as int, d, i as int) == column as int);
                        assert forall|k: int| 0 <= k < i
                            implies #[trigger] step_row(row as int, d, k) == row - k by {
                            lemma_step_coords(row as int, column as int, d, k);
                        }
                    }
                    (row - i, column)
                },
                Direction::Down => {
                    proof {
                        lemma_step_coords(row as int, column as int, d, i as int);
                        assert(step_row(row as int, d, i as int) == row + i);
                        assert(step_col(column as int, d, i as int) == column as int);
                        assert forall|k: int| 0 <= k < i
                            implies #[trigger] step_row(row as int, d, k) == row + k by {
                            lemma_step_coords(row as int, column as int, d, k);
                        }
                    }
                    (row + i, column)
                },
                Direction::DiagDown => {
                    proof {
                        lemma_step_coords(row as int, column as int, d, i as int);
                        assert(step_row(row as int, d, i as int) == row + i);
                        assert(step_col(column as int, d, i as int) == column + i);
                        assert forall|k: int| 0 <= k < i
                            implies #[trigger] step_row(row as int, d, k) == row + k by {
                            lemma_step_coords(row as int, column as int, d, k);
                        }
                    }
                    (row + i, column + i)
                },
                Direction::DiagUp => {
                    proof {
                        lemma_step_coords(row as int, column as int, d, i as int);
                        assert(step_row(row as int, d, i as int) == row - i);
                        assert(step_col(column as int, d, i as int) == column - i);
                        assert forall|k: int| 0 <= k < i
                            implies #[trigger] step_row(row as int, d, k) == row - k by {
                            lemma_step_coords(row as int, column as int, d, k);
                        }
                    }
                    (row - i, column - i)
                },
            };
            proof {
                assert(r as int == step_row(row as int, d, i as int));
                assert(c as int == step_col(column as int, d, i as int));
                assert(r < height(self@) && c < width(self@));
                assert(on_run(row as int, column as int, d, len as int, r as int, c as int));
                assert forall|k: int| 0 <= k < i
                    implies !(step_row(row as int, d, k) == r as int && step_col(
                        column as int,
                        d,
                        k,
                    ) == c as int) by {
                    lemma_step_coords(row as int, column as int, d, k);
                    lemma_step_coords(row as int, column as int, d, i as int);
                }
            }
            let ch = word.as_str().get_char(i);
            self.set_letter(r, c, ch);
            i += 1;
        }
        Ok(())
    }

    /// Assign an independently chosen random lowercase letter to every cell
    /// that still holds the blank marker; letters already placed stay.
    #[verifier::spinoff_prover]
    #[verifier::rlimit(30)]
    #[verifier::loop_isolation(false)]
    fn fill_blanks(&mut self)
        requires
            old(self).wf(),
        ensures
            final(self).wf(),
            final(self)@.len() == old(self)@.len(),
            width(final(self)@) == width(old(self)@),
            forall|r: int, c: int|
                0 <= r < height(old(self)@) && 0 <= c < width(old(self)@) ==> {
                    if old(self)@[r][c] == BLANK {
                        'a' <= #[trigger] final(self)@[r][c] <= 'z'
                    } else {
                        final(self)@[r][c] == old(self)@[r][c]
                    }
                },
    {
        let h = self.grid.len();
        proof {
            assert(h == height(self@));
        }
        let mut r: usize = 0;
        while r < h
            invariant
                r <= h,
                self.wf(),
                self@.len() == h,
                width(self@) == width(old(self)@),
                forall|r0: int, c0: int|
                    0 <= r0 < r && 0 <= c0 < width(old(self)@) ==> {
                        if old(self)@[r0][c0] == BLANK {
                            'a' <= #[trigger] self@[r0][c0] <= 'z'
                        } else {
                            self@[r0][c0] == old(self)@[r0][c0]
                        }
                    },
                forall|r0: int, c0: int|
                    r <= r0 < h && 0 <= c0 < width(old(self)@)
                        ==> #[trigger] self@[r0][c0] == old(self)@[r0][c0],
            decreases h - r,
        {
            proof {
                assert(self@[r as int] == self.grid@[r as int]@);
            }
            let w = self.grid[r].len();
            proof {
                assert(w == width(self@));
            }
            let mut c: usize = 0;
            while c < w
                invariant
                    c <= w,
                    r < h,
                    w == width(old(self)@),
                    self.wf(),
                    self@.len() == h,
                    width(self@) == width(old(self)@),
                    forall|r0: int, c0: int|
                        0 <= r0 < r && 0 <= c0 < width(old(self)@) ==> {
                            if old(self)@[r0][c0] == BLANK {
                                'a' <= #[trigger] self@[r0][c0] <= 'z'
                            } else {
                                self@[r0][c0] == old(self)@[r0][c0]
                            }
                        },
                    forall|c0: int|
                        0 <= c0 < c ==> {
                            if old(self)@[r as int][c0] == BLANK {
                                'a' <= #[trigger] self@[r as int][c0] <= 'z'
                            } else {
                                self@[r as int][c0] == old(self)@[r as int][c0]
                            }
                        },
                    forall|c0: int|
                        c <= c0 < width(old(self)@)
                            ==> #[trigger] self@[r as int][c0] == old(self)@[r as int][c0],
                    forall|r0: int, c0: int|
                        r < r0 < h && 0 <= c0 < width(old(self)@)
                            ==> #[trigger] self@[r0][c0] == old(self)@[r0][c0],
                decreases w - c,
            {
                if self.letter_at(r, c) == BLANK {
                    let letter = random_lowercase();
                    self.set_letter(r, c, letter);
                }
                c += 1;
            }
            r += 1;
        }
    }
}

/// Generate a word-search puzzle: place every word, in the order given,
/// into a fresh grid of the requested size, then fill every remaining
/// blank with a random lowercase letter.  Earlier words have first claim
/// on ambiguous cells.  A word of unsupported length is rejected as an
/// invalid argument; a word with no legal anchor and direction aborts the
/// pass with no placement found.
#[verifier::spinoff_prover]
#[verifier::rlimit(100)]
#[verifier::loop_isolation(false)]
pub fn create_puzzle(words: &Vec<String>, grid_width: usize, grid_height: usize) -> (res: Result<
    Wordsearch,
    PuzzleError,
>)
    requires
        forall|k: int, i: int|
            0 <= k < words@.len() && 0 <= i < words@[k]@.len() ==> 'a' <= #[trigger] words@[k]@[i]
                <= 'z',
    ensures
        match res {
            Ok(p) => {
                &&& p.wf()
                &&& p@.len() == grid_height
                &&& forall|r: int| 0 <= r < grid_height ==> (#[trigger] p@[r]).len() == grid_width
                &&& forall|r: int, c: int|
                    0 <= r < grid_height && 0 <= c < grid_width ==> 'a' <= #[trigger] p@[r][c]
                        <= 'z'
                &&& words@.len() > 0 ==> word_placed(p@, words@[words@.len() - 1]@)
            },
            Err(e) => e == PuzzleError::InvalidArgument || e == PuzzleError::NoPlacementFound,
        },
        words@.len() > 0 && !valid_word_len(
            words@[0]@.len() as int,
            grid_width as int,
            grid_height as int,
        ) ==> res == Err::<Wordsearch, PuzzleError>(PuzzleError::InvalidArgument),
        (forall|k: int|
            0 <= k < words@.len() ==> valid_word_len(
                (#[trigger] words@[k])@.len() as int,
                grid_width as int,
                grid_height as int,
            )) ==> !(res == Err::<Wordsearch, PuzzleError>(PuzzleError::InvalidArgument)),
        words@.len() == 1 && grid_width >= 1 && grid_height >= 1 && valid_word_len(
            words@[0]@.len() as int,
            grid_width as int,
            grid_height as int,
        ) ==> res is Ok,
{
    let mut puzzle = Wordsearch::new(grid_width, grid_height);
    let ghost mut last_row: int = 0;
    let ghost mut last_col: int = 0;
    let ghost mut last_dir: Direction = Direction::Right;
    let mut wi: usize = 0;
    while wi < words.len()
        invariant
            wi <= words@.len(),
            puzzle.wf(),
            puzzle@.len() == grid_height,
            forall|r: int| 0 <= r < grid_height ==> (#[trigger] puzzle@[r]).len() == grid_width,
            forall|r: int, c: int|
                0 <= r < grid_height && 0 <= c < grid_width ==> #[trigger] puzzle@[r][c] == BLANK
                    || 'a' <= puzzle@[r][c] <= 'z',
            forall|k: int|
                0 <= k < wi ==> valid_word_len(
                    (#[trigger] words@[k])@.len() as int,
                    grid_width as int,
                    grid_height as int,
                ),
            wi == 0 ==> forall|r: int, c: int|
                0 <= r < grid_height && 0 <= c < grid_width ==> #[trigger] puzzle@[r][c] == BLANK,
            wi > 0 ==> word_at(puzzle@, words@[wi - 1]@, last_row, last_col, last_dir),
        decreases words@.len() - wi,
    {
        let word = &words[wi];
        let len = word.as_str().unicode_len();
        if len < 2 || (len > grid_width && len > grid_height) {
            return Err(PuzzleError::InvalidArgument);
        }
        let ghost g_in = puzzle@;
        let mut candidate_coords = match puzzle.get_candidates(word) {
            Some(v) => v,
            None => {
                proof {
                    if words@.len() == 1 && grid_width >= 1 && grid_height >= 1 {
                        assert(puzzle@[0][0] == BLANK);
                        assert(anchor_ok(puzzle@, word@, 0, 0));
                    }
                }
                return Err(PuzzleError::NoPlacementFound);
            },
        };
        let ghost cands0 = candidate_coords@;
        shuffle(&mut candidate_coords);
        proof {
            broadcast use vstd::seq_lib::group_to_multiset_ensures;

            assert forall|k: int| 0 <= k < candidate_coords@.len() implies {
                &&& (#[trigger] candidate_coords@[k])@.len() == 2
                &&& candidate_coords@[k]@[0] < height(puzzle@)
                &&& candidate_coords@[k]@[1] < width(puzzle@)
            } by {
                let x = candidate_coords@[k];
                assert(candidate_coords@.contains(x));
                assert(cands0.to_multiset().count(x) > 0);
                assert(cands0.contains(x));
                let m = choose|m: int| 0 <= m < cands0.len() && cands0[m] == x;
                assert(cands0[m]@.len() == 2);
            }
        }
        let mut placed = false;
        let mut ci: usize = 0;
        while ci < candidate_coords.len() && !placed
            invariant
                ci <= candidate_coords@.len(),
                puzzle.wf(),
                puzzle@.len() == grid_height,
                forall|r: int| 0 <= r < grid_height
                    ==> (#[trigger] puzzle@[r]).len() == grid_width,
                forall|r: int, c: int|
                    0 <= r < grid_height && 0 <= c < grid_width
                        ==> #[trigger] puzzle@[r][c] == BLANK || 'a' <= puzzle@[r][c] <= 'z',
                forall|k: int| 0 <= k < candidate_coords@.len() ==> {
                    &&& (#[trigger] candidate_coords@[k])@.len() == 2
                    &&& candidate_coords@[k]@[0] < height(puzzle@)
                    &&& candidate_coords@[k]@[1] < width(puzzle@)
                },
                !placed ==> puzzle@ == g_in,
                !placed ==> forall|k: int|
                    0 <= k < ci ==> #[trigger] offers_nothing(
                        g_in,
                        word@,
                        candidate_coords@[k],
                    ),
                placed ==> word_at(puzzle@, word@, last_row, last_col, last_dir),
            decreases candidate_coords@.len() - ci,
        {
            let cand = &candidate_coords[ci];
            let r = cand[0];
            let c = cand[1];
            match puzzle.valid_directions(word.clone(), r, c) {
                None => {
                    proof {
                        assert(offers_nothing(g_in, word@, candidate_coords@[ci as int]));
                    }
                },
                Some(mut dirs) => {
                    let ghost dirs0 = dirs@;
                    shuffle(&mut dirs);
                    proof {
                        broadcast use vstd::seq_lib::group_to_multiset_ensures;

                        assert(dirs@.len() > 0);
                        let x = dirs@[0];
                        assert(dirs@.contains(x));
                        assert(dirs0.to_multiset().count(x) > 0);
                        assert(dirs0.contains(x));
                        assert(dir_offered(puzzle@, word@, r as int, c as int, x));
                        lemma_offered_run_in_bounds(puzzle@, word@, r as int, c as int, x);
                    }
                    let dir = dirs[0];
                    let ghost before = puzzle@;
                    proof {
                        assert(height(before) == grid_height);
                        assert(before[0].len() == grid_width);
                        assert(width(before) == grid_width);
                        assert(valid_word_len(
                            word@.len() as int,
                            width(before),
                            height(before),
                        ));
                    }
                    let outcome = puzzle.place_word(word, r, c, &dir);
                    proof {
                        assert(outcome is Ok);
                        assert forall|r0: int, c0: int|
                            0 <= r0 < grid_height && 0 <= c0 < grid_width
                                implies #[trigger] puzzle@[r0][c0] == BLANK || 'a'
                                <= puzzle@[r0][c0] <= 'z' by {
                            if on_run(r as int, c as int, dir, word@.len() as int, r0, c0) {
                                let i = choose|i: int|
                                    0 <= i < word@.len() && #[trigger] step_row(
                                        r as int,
                                        dir,
                                        i,
                                    ) == r0 && step_col(c as int, dir, i) == c0;
                                assert(puzzle@[r0][c0] == word@[i]);
                            }
                        }
                        last_row = r as int;
                        last_col = c as int;
                        last_dir = dir;
                    }
                    placed = true;
                },
            }
            ci += 1;
        }
        if !placed {
            proof {
                if words@.len() == 1 && grid_width >= 1 && grid_height >= 1 && valid_word_len(
                    word@.len() as int,
                    grid_width as int,
                    grid_height as int,
                ) {
                    lemma_blank_grid_offers(g_in, word@, grid_width as int, grid_height as int);
                    assert(anchor_ok(g_in, word@, 0, 0));
                    broadcast use vstd::seq_lib::group_to_multiset_ensures;

                    let m = choose|m: int|
                        0 <= m < cands0.len() && (#[trigger] cands0[m])@[0] == 0
                            && cands0[m]@[1] == 0;
                    let x = cands0[m];
                    assert(cands0.contains(x));
                    assert(candidate_coords@.to_multiset().count(x) > 0);
                    assert(candidate_coords@.contains(x));
                    let k = choose|k: int|
                        0 <= k < candidate_coords@.len() && candidate_coords@[k] == x;
                    assert(offers_nothing(g_in, word@, candidate_coords@[k]));
                }
            }
            return Err(PuzzleError::NoPlacementFound);
        }
        wi += 1;
    }
    let ghost before_fill = puzzle@;
    puzzle.fill_blanks();
    proof {
        if words@.len() > 0 {
            lemma_word_survives(
                before_fill,
                puzzle@,
                words@[words@.len() - 1]@,
                last_row,
                last_col,
                last_dir,
            );
            assert(word_placed(puzzle@, words@[words@.len() - 1]@)) by {
                assert(word_at(
                    puzzle@,
                    words@[words@.len() - 1]@,
                    last_row,
                    last_col,
                    last_dir,
                ));
            }
        }
    }
    Ok(puzzle)
}

/// In an all-blank grid, a word that fits one of the two dimensions is
/// always offered a direction at the top-left corner: rightward when it
/// fits the width, downward when it fits the height.
proof fn lemma_blank_grid_offers(g: Seq<Seq<char>>, w: Seq<char>, gw: int, gh: int)
    requires
        ws_wf(g),
        g.len() == gh,
        gh >= 1,
        gw >= 1,
        forall|r: int| 0 <= r < gh ==> (#[trigger] g[r]).len() == gw,
        forall|r: int, c: int| 0 <= r < gh && 0 <= c < gw ==> #[trigger] g[r][c] == BLANK,
        valid_word_len(w.len() as int, gw, gh),
    ensures
        dir_offered(g, w, 0, 0, Direction::Right) || dir_offered(g, w, 0, 0, Direction::Down),
{
    let len = w.len() as int;
    if len <= gw {
        assert forall|i: int| 0 <= i < len
            implies #[trigger] g[step_row(0, Direction::Right, i)][step_col(
            0,
            Direction::Right,
            i,
        )] == BLANK by {
            lemma_step_coords(0, 0, Direction::Right, i);
        }
        assert(run_compatible(g, w, 0, 0, Direction::Right));
    } else {
        assert forall|i: int| 0 <= i < len
            implies #[trigger] g[step_row(0, Direction::Down, i)][step_col(
            0,
            Direction::Down,
            i,
        )] == BLANK by {
            lemma_step_coords(0, 0, Direction::Down, i);
        }
        assert(run_compatible(g, w, 0, 0, Direction::Down));
    }
}

/// Word-search containment: writing a word along a run whose cells were
/// all compatible (blank or already matching) never overwrites a placed
/// letter with a different one - every letter that stood in the grid
/// before the placement still stands after it.
pub proof fn lemma_compatible_placement_preserves_letters(
    g1: Seq<Seq<char>>,
    g2: Seq<Seq<char>>,
    w: Seq<char>,
    row: int,
    col: int,
    d: Direction,
)
    requires
        ws_wf(g1),
        g2.len() == g1.len(),
        width(g2) == width(g1),
        run_compatible(g1, w, row, col, d),
        word_at(g2, w, row, col, d),
        forall|r: int, c: int|
            0 <= r < height(g1) && 0 <= c < width(g1) && !on_run(row, col, d, w.len() as int, r, c)
                ==> #[trigger] g2[r][c] == g1[r][c],
    ensures
        forall|r: int, c: int|
            0 <= r < height(g1) && 0 <= c < width(g1) && #[trigger] g1[r][c] != BLANK
                ==> g2[r][c] == g1[r][c],
{
    assert forall|r: int, c: int|
        0 <= r < height(g1) && 0 <= c < width(g1) && #[trigger] g1[r][c] != BLANK
            implies g2[r][c] == g1[r][c] by {
        if on_run(row, col, d, w.len() as int, r, c) {
            let i = choose|i: int|
                0 <= i < w.len() && #[trigger] step_row(row, d, i) == r && step_col(col, d, i)
                    == c;
            assert(g1[r][c] == w[i]);
            assert(g2[r][c] == w[i]);
        }
    }
}

/// A placed word survives any later step that only touches blank cells:
/// if the word stands along a run and a transformation keeps every
/// non-blank cell, the word still stands afterwards.  Filling the blanks
/// at the end of generation is such a step.
pub proof fn lemma_word_survives(
    g1: Seq<Seq<char>>,
    g2: Seq<Seq<char>>,
    w: Seq<char>,
    row: int,
    col: int,
    d: Direction,
)
    requires
        ws_wf(g1),
        g2.len() == g1.len(),
        width(g2) == width(g1),
        word_at(g1, w, row, col, d),
        forall|i: int| 0 <= i < w.len() ==> #[trigger] w[i] != BLANK,
        forall|r: int, c: int|
            0 <= r < height(g1) && 0 <= c < width(g1) && #[trigger] g1[r][c] != BLANK
                ==> g2[r][c] == g1[r][c],
    ensures
        word_at(g2, w, row, col, d),
{
    assert forall|i: int|
        0 <= i < w.len() implies #[trigger] g2[step_row(row, d, i)][step_col(col, d, i)]
        == w[i] by {
        lemma_step_coords(row, col, d, i);
        let r = step_row(row, d, i);
        let c = step_col(col, d, i);
        assert(0 <= r < height(g1) && 0 <= c < width(g1));
        assert(g1[r][c] == w[i]);
    }
}

} // verus!
