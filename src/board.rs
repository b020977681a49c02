//! The puzzle board: a grid of numbered tiles with one empty slot.
//!
//! Cells are stored row-major, row 0 being the bottom row, so the cell in
//! column `col` and row `row` sits at index `row * cols + col`.
use vstd::prelude::*;
use vstd::arithmetic::div_mod::lemma_fundamental_div_mod;
use vstd::arithmetic::div_mod::lemma_fundamental_div_mod_converse;

verus! {

/// What a board operation can refuse.
#[derive(Debug, Clone, Copy, PartialEq, Eq, Structural)]
pub enum BoardError {
    /// The requested cell lies outside the grid.
    OutOfBounds,
}

pub open spec fn abs_diff(a: int, b: int) -> int {
    if a >= b {
        a - b
    } else {
        b - a
    }
}

/// The value that cell `i` holds in the solved layout: the tiles counted in
/// reading order from the top row down, and the last cell of the bottom
/// row, which would hold `rows * cols`, left empty.
pub open spec fn solved_value(rows: int, cols: int, i: int) -> int {
    if i == cols - 1 {
        0
    } else {
        (rows - i / cols - 1) * cols + i % cols + 1
    }
}

/// Mathematical model of a board.
pub struct BoardModel {
    pub rows: nat,
    pub cols: nat,
    pub cells: Seq<usize>,
}

impl BoardModel {
    pub open spec fn solved(rows: nat, cols: nat) -> BoardModel {
        BoardModel {
            rows,
            cols,
            cells: Seq::new(rows * cols, |i: int| solved_value(rows as int, cols as int, i) as usize),
        }
    }

    pub open spec fn in_bounds(self, col: int, row: int) -> bool {
        0 <= col < self.cols && 0 <= row < self.rows
    }

    pub open spec fn index_of(self, col: int, row: int) -> int {
        row * self.cols + col
    }

    pub open spec fn cell(self, col: int, row: int) -> usize {
        self.cells[self.index_of(col, row)]
    }

    /// The grid has the stated shape, its values are pairwise distinct and
    /// below the number of cells, and one of them is zero.
    pub open spec fn wf(self) -> bool {
        &&& self.rows >= 2
        &&& self.cols >= 2
        &&& self.rows * self.cols <= usize::MAX
        &&& self.cells.len() == self.rows * self.cols
        &&& forall|i: int| 0 <= i < self.cells.len() ==> self.cells[i] < self.rows * self.cols
        &&& forall|i: int, j: int|
            0 <= i < self.cells.len() && 0 <= j < self.cells.len() && i != j ==> self.cells[i]
                != self.cells[j]
        &&& exists|i: int| 0 <= i < self.cells.len() && self.cells[i] == 0
    }

    /// Some cell holds the value `v`.
    pub open spec fn holds(self, v: int) -> bool {
        exists|i: int| 0 <= i < self.cells.len() && self.cells[i] == v
    }

    pub open spec fn empty_index(self) -> int {
        choose|i: int| 0 <= i < self.cells.len() && self.cells[i] == 0
    }

    pub open spec fn empty_col(self) -> int {
        self.empty_index() % (self.cols as int)
    }

    pub open spec fn empty_row(self) -> int {
        self.empty_index() / (self.cols as int)
    }

    /// A move of the tile at `(col, row)` is legal when that cell lies on the
    /// grid one orthogonal step from the empty slot.
    pub open spec fn is_legal(self, col: int, row: int) -> bool {
        &&& self.in_bounds(col, row)
        &&& abs_diff(col, self.empty_col()) + abs_diff(row, self.empty_row()) == 1
    }

    /// The board after the tile at `(col, row)` slides into the empty slot.
    pub open spec fn moved(self, col: int, row: int) -> BoardModel {
        let t = self.index_of(col, row);
        BoardModel {
            cells: self.cells.update(self.empty_index(), self.cells[t]).update(t, 0),
            ..self
        }
    }

    /// `next` follows from this board by one legal move.
    pub open spec fn steps_to(self, next: BoardModel) -> bool {
        exists|col: int, row: int| self.is_legal(col, row) && next == self.moved(col, row)
    }
}

/// Splits a cell index into its row and column.
pub proof fn lemma_index_split(rows: int, cols: int, i: int)
    requires
        cols > 0,
        0 <= i < rows * cols,
    ensures
        i == (i / cols) * cols + i % cols,
        0 <= i % cols < cols,
        0 <= i / cols < rows,
{
    lemma_fundamental_div_mod(i, cols);
    let q = i / cols;
    let r = i % cols;
    assert(0 <= r < cols);
    assert(q * cols == cols * q) by (nonlinear_arith);
    assert(0 <= q < rows) by (nonlinear_arith)
        requires
            i == q * cols + r,
            0 <= r < cols,
            0 <= i < rows * cols,
    ;
}

/// Joins a row and a column into a cell index.
pub proof fn lemma_index_join(rows: int, cols: int, col: int, row: int)
    requires
        0 <= col < cols,
        0 <= row < rows,
    ensures
        0 <= row * cols + col < rows * cols,
        (row * cols + col) / cols == row,
        (row * cols + col) % cols == col,
{
    assert(0 <= row * cols + col < rows * cols) by (nonlinear_arith)
        requires
            0 <= col < cols,
            0 <= row < rows,
    ;
    lemma_fundamental_div_mod_converse(row * cols + col, cols, row, col);
}


/// The solved layout is a well-formed board: its values are pairwise distinct,
/// below `rows * cols`, and the last cell of the bottom row is its only zero.
pub proof fn lemma_solved_wf(rows: nat, cols: nat)
    requires
        rows >= 2,
        cols >= 2,
        rows * cols <= usize::MAX,
    ensures
        BoardModel::solved(rows, cols).wf(),
        BoardModel::solved(rows, cols).empty_index() == cols - 1,
        forall|i: int|
            0 <= i < rows * cols && i != cols - 1 ==> 1 <= #[trigger] solved_value(
                rows as int,
                cols as int,
                i,
            ) < rows * cols,
{
    let b = BoardModel::solved(rows, cols);
    let n = (rows * cols) as int;
    let r = rows as int;
    let c = cols as int;
    assert(n >= 4 && c < n) by (nonlinear_arith)
        requires
            r >= 2,
            c >= 2,
            n == r * c,
    ;
    assert forall|i: int| 0 <= i < n && i != c - 1 implies 1 <= #[trigger] solved_value(r, c, i)
        < n by {
        lemma_index_split(r, c, i);
        let q = i / c;
        let m = i % c;
        assert(0 <= (r - q - 1) * c <= (r - 1) * c) by (nonlinear_arith)
            requires
                0 <= q < r,
                c > 0,
        ;
        assert((r - 1) * c + c == n) by (nonlinear_arith)
            requires
                n == r * c,
        ;
        if solved_value(r, c, i) == n {
            lemma_fundamental_div_mod_converse((r - 1) * c + (c - 1), c, r - q - 1, m);
            lemma_fundamental_div_mod_converse((r - 1) * c + (c - 1), c, r - 1, c - 1);
            assert(q == 0 && m == c - 1);
            assert(q * c == 0) by (nonlinear_arith)
                requires
                    q == 0,
            ;
        }
    }
    assert forall|i: int| 0 <= i < b.cells.len() implies b.cells[i] < rows * cols by {
        if i != c - 1 {
            assert(1 <= solved_value(r, c, i) < n);
        }
    }
    assert forall|i: int, j: int|
        0 <= i < b.cells.len() && 0 <= j < b.cells.len() && i != j implies b.cells[i]
        != b.cells[j] by {
        if i != c - 1 && j != c - 1 {
            assert(1 <= solved_value(r, c, i) < n);
            assert(1 <= solved_value(r, c, j) < n);
            lemma_index_split(r, c, i);
            lemma_index_split(r, c, j);
            if b.cells[i] == b.cells[j] {
                let qi = r - i / c - 1;
                let qj = r - j / c - 1;
                assert(qi * c + i % c == qj * c + j % c);
                lemma_fundamental_div_mod_converse(qi * c + i % c, c, qi, i % c);
                lemma_fundamental_div_mod_converse(qj * c + j % c, c, qj, j % c);
                assert(i == j);
            }
        } else if i == c - 1 {
            assert(1 <= solved_value(r, c, j) < n);
        } else {
            assert(1 <= solved_value(r, c, i) < n);
        }
    }
    assert(b.cells[c - 1] == 0);
    assert(b.wf());
    let e = b.empty_index();
    assert(b.cells[e] == 0 && 0 <= e < n);
    assert(e == c - 1);
}

/// The solved layout holds each value of `0 .. rows * cols` exactly once.
pub proof fn lemma_solved_values(rows: nat, cols: nat)
    requires
        rows >= 2,
        cols >= 2,
        rows * cols <= usize::MAX,
    ensures
        BoardModel::solved(rows, cols).cells.len() == rows * cols,
        forall|v: int|
            0 <= v < rows * cols ==> #[trigger] BoardModel::solved(rows, cols).holds(v),
        forall|i: int| 0 <= i < rows * cols ==> BoardModel::solved(rows, cols).cells[i] < rows * cols,
        forall|i: int, j: int|
            0 <= i < rows * cols && 0 <= j < rows * cols && i != j ==> BoardModel::solved(
                rows,
                cols,
            ).cells[i] != BoardModel::solved(rows, cols).cells[j],
{
    lemma_solved_wf(rows, cols);
    let b = BoardModel::solved(rows, cols);
    let r = rows as int;
    let c = cols as int;
    let n = r * c;
    assert forall|v: int| 0 <= v < n implies #[trigger] b.holds(v) by {
        if v == 0 {
            assert(b.cells[c - 1] == 0);
            assert(b.holds(v));
        } else {
            lemma_index_split(r, c, v - 1);
            let q = (v - 1) / c;
            let m = (v - 1) % c;
            let row = r - 1 - q;
            let i = row * c + m;
            lemma_index_join(r, c, m, row);
            assert(i != c - 1) by {
                if i == c - 1 {
                    lemma_fundamental_div_mod_converse(i, c, row, m);
                    lemma_fundamental_div_mod_converse(i, c, 0, c - 1);
                    assert(m == c - 1 && row == 0);
                    assert(q == r - 1);
                    assert(v - 1 == (r - 1) * c + (c - 1));
                    assert((r - 1) * c + (c - 1) == n - 1) by (nonlinear_arith)
                        requires
                            n == r * c,
                    ;
                }
            }
            assert(b.cells[i] == solved_value(r, c, i));
            assert(b.cells[i] == v);
            assert(b.holds(v));
        }
    }
}

/// In a well-formed board the zero found anywhere is the empty slot.
pub proof fn lemma_zero_unique(b: BoardModel, i: int)
    requires
        b.wf(),
        0 <= i < b.cells.len(),
        b.cells[i] == 0,
    ensures
        b.empty_index() == i,
{
    let e = b.empty_index();
    assert(0 <= e < b.cells.len() && b.cells[e] == 0);
}

/// The empty slot lies on the grid, at the index of its own column and row.
pub proof fn lemma_empty_position(b: BoardModel)
    requires
        b.wf(),
    ensures
        0 <= b.empty_index() < b.cells.len(),
        b.cells[b.empty_index()] == 0,
        b.in_bounds(b.empty_col(), b.empty_row()),
        b.index_of(b.empty_col(), b.empty_row()) == b.empty_index(),
{
    let e = b.empty_index();
    assert(0 <= e < b.cells.len() && b.cells[e] == 0);
    lemma_index_split(b.rows as int, b.cols as int, e);
}

/// A legal move keeps the board well formed, and the moved tile's former
/// cell becomes the empty slot.
pub proof fn lemma_moved_wf(b: BoardModel, col: int, row: int)
    requires
        b.wf(),
        b.is_legal(col, row),
    ensures
        b.moved(col, row).wf(),
        b.moved(col, row).empty_index() == b.index_of(col, row),
        b.cells[b.index_of(col, row)] != 0,
        b.index_of(col, row) != b.empty_index(),
        b.moved(col, row).rows == b.rows,
        b.moved(col, row).cols == b.cols,
{
    lemma_empty_position(b);
    let e = b.empty_index();
    let t = b.index_of(col, row);
    lemma_index_join(b.rows as int, b.cols as int, col, row);
    assert(t != e);
    let m = b.moved(col, row);
    assert forall|i: int, j: int|
        0 <= i < m.cells.len() && 0 <= j < m.cells.len() && i != j implies m.cells[i]
        != m.cells[j] by {
        let pi = if i == e {
            t
        } else if i == t {
            e
        } else {
            i
        };
        let pj = if j == e {
            t
        } else if j == t {
            e
        } else {
            j
        };
        assert(m.cells[i] == b.cells[pi]);
        assert(m.cells[j] == b.cells[pj]);
    }
    assert(m.cells[t] == 0);
    assert(m.wf());
    lemma_zero_unique(m, t);
}

/// Moving a tile and then moving it back into the slot that it came from
/// restores the board.
pub proof fn lemma_move_reversible(b: BoardModel, col: int, row: int)
    requires
        b.wf(),
        b.is_legal(col, row),
    ensures
        b.moved(col, row).wf(),
        b.moved(col, row).is_legal(b.empty_col(), b.empty_row()),
        b.moved(col, row).moved(b.empty_col(), b.empty_row()) == b,
{
    lemma_empty_position(b);
    lemma_moved_wf(b, col, row);
    lemma_index_join(b.rows as int, b.cols as int, col, row);
    let m = b.moved(col, row);
    let back = m.moved(b.empty_col(), b.empty_row());
    assert(m.empty_col() == col && m.empty_row() == row);
    assert(back.cells =~= b.cells);
}

/// One legal move can always be undone by another.
pub proof fn lemma_step_back(a: BoardModel, b: BoardModel)
    requires
        a.wf(),
        a.steps_to(b),
    ensures
        b.wf(),
        b.steps_to(a),
{
    let (col, row) = choose|col: int, row: int| a.is_legal(col, row) && b == a.moved(col, row);
    lemma_move_reversible(a, col, row);
}

/// `path` is a run of boards, each following from the one before by a legal move.
pub open spec fn is_path(path: Seq<BoardModel>) -> bool {
    &&& path.len() >= 1
    &&& forall|k: int| 0 <= k < path.len() - 1 ==> #[trigger] path[k].steps_to(path[k + 1])
}

/// `to` can be reached from `from` by legal moves.
pub open spec fn reachable(from: BoardModel, to: BoardModel) -> bool {
    exists|path: Seq<BoardModel>| is_path(path) && path[0] == from && path.last() == to
}

proof fn lemma_path_wf(path: Seq<BoardModel>, k: int)
    requires
        is_path(path),
        path[0].wf(),
        0 <= k < path.len(),
    ensures
        path[k].wf(),
    decreases k,
{
    if k > 0 {
        let j = k - 1;
        lemma_path_wf(path, j);
        assert(path[j].steps_to(path[j + 1]));
        lemma_step_back(path[j], path[j + 1]);
    }
}

/// Every board that a run of scramble steps reaches from the solved layout
/// can be brought back to the solved layout by legal moves alone.
pub proof fn lemma_scramble_reversible(rows: nat, cols: nat, path: Seq<BoardModel>)
    requires
        rows >= 2,
        cols >= 2,
        rows * cols <= usize::MAX,
        is_path(path),
        path[0] == BoardModel::solved(rows, cols),
    ensures
        path.last().wf(),
        reachable(BoardModel::solved(rows, cols), path.last()),
        reachable(path.last(), BoardModel::solved(rows, cols)),
{
    lemma_solved_wf(rows, cols);
    let n = path.len() as int;
    lemma_path_wf(path, n - 1);
    let back = Seq::new(n as nat, |k: int| path[n - 1 - k]);
    assert forall|k: int| 0 <= k < back.len() - 1 implies #[trigger] back[k].steps_to(
        back[k + 1],
    ) by {
        let j = n - 2 - k;
        assert(path[j].steps_to(path[j + 1]));
        lemma_path_wf(path, j);
        lemma_step_back(path[j], path[j + 1]);
    }
    assert(is_path(back));
    assert(back[0] == path.last());
}


/// The cells one orthogonal step from the empty slot, in the order left,
/// right, below, above.
pub open spec fn legal_targets(b: BoardModel) -> Seq<(int, int)> {
    let c = b.empty_col();
    let r = b.empty_row();
    (if c > 0 {
        seq![(c - 1, r)]
    } else {
        seq![]
    }) + (if c + 1 < b.cols {
        seq![(c + 1, r)]
    } else {
        seq![]
    }) + (if r > 0 {
        seq![(c, r - 1)]
    } else {
        seq![]
    }) + (if r + 1 < b.rows {
        seq![(c, r + 1)]
    } else {
        seq![]
    })
}

/// The listed targets are exactly the legal moves, and there is at least one.
pub proof fn lemma_legal_targets(b: BoardModel)
    requires
        b.wf(),
    ensures
        legal_targets(b).len() >= 1,
        forall|k: int|
            0 <= k < legal_targets(b).len() ==> b.is_legal(
                #[trigger] legal_targets(b)[k].0,
                legal_targets(b)[k].1,
            ),
        forall|col: int, row: int|
            #[trigger] b.is_legal(col, row) ==> legal_targets(b).contains((col, row)),
{
    lemma_empty_position(b);
    let ts = legal_targets(b);
    let c = b.empty_col();
    let r = b.empty_row();
    assert forall|col: int, row: int| #[trigger] b.is_legal(col, row) implies ts.contains(
        (col, row),
    ) by {
        if col == c - 1 {
            assert(ts[0] == (col, row));
        } else if col == c + 1 {
            let k = if c > 0 { 1int } else { 0int };
            assert(ts[k] == (col, row));
        } else if row == r - 1 {
            let k = (if c > 0 { 1int } else { 0int }) + (if c + 1 < b.cols { 1int } else { 0int });
            assert(ts[k] == (col, row));
        } else {
            let k = (if c > 0 { 1int } else { 0int }) + (if c + 1 < b.cols { 1int } else { 0int })
                + (if r > 0 { 1int } else { 0int });
            assert(ts[k] == (col, row));
        }
    }
}

/// Relies on nannou_core::rand::random_range: a value drawn from the
/// thread-local generator in `[min, max)`; the range must not be empty.
#[verifier::external_body]
fn random_below(n: usize) -> (r: usize)
    requires
        n > 0,
    ensures
        r < n,
{
    nannou_core::rand::random_range(0, n)
}

/// A sliding-tile board: `rows` by `cols` cells holding numbered tiles and a
/// single empty slot, written 0.
pub struct PuzzleBoard {
    rows: usize,
    cols: usize,
    cells: Vec<usize>,
}

impl View for PuzzleBoard {
    type V = BoardModel;

    closed spec fn view(&self) -> BoardModel {
        BoardModel { rows: self.rows as nat, cols: self.cols as nat, cells: self.cells@ }
    }
}

/// The value of cell `i` in the solved layout.
fn solved_value_at(rows: usize, cols: usize, i: usize) -> (r: usize)
    requires
        rows >= 2,
        cols >= 2,
        rows * cols <= usize::MAX,
        i < rows * cols,
    ensures
        r == solved_value(rows as int, cols as int, i as int),
{
    proof {
        lemma_solved_wf(rows as nat, cols as nat);
        lemma_index_split(rows as int, cols as int, i as int);
    }
    if i == cols - 1 {
        0
    } else {
        let row = i / cols;
        let col = i % cols;
        proof {
            assert(1 <= solved_value(rows as int, cols as int, i as int) < rows * cols);
            assert(0 <= (rows - row - 1) * cols) by (nonlinear_arith)
                requires
                    row < rows,
            ;
        }
        (rows - row - 1) * cols + col + 1
    }
}

impl PuzzleBoard {
    /// A board of `rows` by `cols` cells in the solved layout: the cell in
    /// column `col` and row `row` (row 0 at the bottom) holds
    /// `(rows - row - 1) * cols + col + 1`, but for the last cell of the
    /// bottom row, which is the empty slot.
    pub fn new(rows: usize, cols: usize) -> (r: PuzzleBoard)
        requires
            rows >= 2,
            cols >= 2,
            rows * cols <= usize::MAX,
        ensures
            r@ == BoardModel::solved(rows as nat, cols as nat),
            r@.wf(),
    {
        let n = rows * cols;
        let mut cells: Vec<usize> = Vec::with_capacity(n);
        let mut i: usize = 0;
        while i < n
            invariant
                rows >= 2,
                cols >= 2,
                n == rows * cols,
                n <= usize::MAX,
                i <= n,
                cells@.len() == i,
                forall|k: int|
                    0 <= k < i ==> cells@[k] == solved_value(rows as int, cols as int, k) as usize,
            decreases n - i,
        {
            let v = solved_value_at(rows, cols, i);
            cells.push(v);
            i += 1;
        }
        proof {
            lemma_solved_wf(rows as nat, cols as nat);
            assert(cells@ =~= BoardModel::solved(rows as nat, cols as nat).cells);
        }
        PuzzleBoard { rows, cols, cells }
    }

    /// Number of rows.
    pub fn rows(&self) -> (r: usize)
        ensures
            r == self@.rows,
    {
        self.rows
    }

    /// Number of columns.
    pub fn cols(&self) -> (r: usize)
        ensures
            r == self@.cols,
    {
        self.cols
    }

    /// Puts the board back into the solved layout of its size.
    pub fn reset(&mut self)
        requires
            old(self)@.wf(),
        ensures
            final(self)@ == BoardModel::solved(old(self)@.rows, old(self)@.cols),
            final(self)@.wf(),
    {
        *self = PuzzleBoard::new(self.rows, self.cols);
    }

    /// The column and row of the empty slot.
    pub fn locate_empty(&self) -> (r: (usize, usize))
        requires
            self@.wf(),
        ensures
            r.0 == self@.empty_col(),
            r.1 == self@.empty_row(),
            self@.in_bounds(r.0 as int, r.1 as int),
    {
        proof {
            lemma_empty_position(self@);
        }
        let n = self.cells.len();
        let mut i: usize = 0;
        while i < n
            invariant
                self@.wf(),
                n == self.cells@.len(),
                i <= n,
                forall|k: int| 0 <= k < i ==> self.cells@[k] != 0,
            decreases n - i,
        {
            if self.cells[i] == 0 {
                proof {
                    lemma_zero_unique(self@, i as int);
                    lemma_index_split(self.rows as int, self.cols as int, i as int);
                }
                return (i % self.cols, i / self.cols);
            }
            i += 1;
        }
        proof {
            let e = self@.empty_index();
            assert(self.cells@[e] == 0);
        }
        (0, 0)
    }

    /// Whether the tile at `(col, row)` may slide into the empty slot; a cell
    /// off the grid is refused.
    pub fn is_move_legal(&self, col: usize, row: usize) -> (r: Result<bool, BoardError>)
        requires
            self@.wf(),
        ensures
            !self@.in_bounds(col as int, row as int) ==> r == Err::<bool, BoardError>(
                BoardError::OutOfBounds,
            ),
            self@.in_bounds(col as int, row as int) ==> r == Ok::<bool, BoardError>(
                self@.is_legal(col as int, row as int),
            ),
    {
        if col >= self.cols || row >= self.rows {
            return Err(BoardError::OutOfBounds);
        }
        let (ec, er) = self.locate_empty();
        let dc = if col >= ec {
            col - ec
        } else {
            ec - col
        };
        let dr = if row >= er {
            row - er
        } else {
            er - row
        };
        Ok((dc == 1 && dr == 0) || (dc == 0 && dr == 1))
    }

    /// Slides the tile at `(col, row)` into the empty slot when that move is
    /// legal, and tells whether it did; otherwise the board is unchanged.
    pub fn try_move(&mut self, col: usize, row: usize) -> (r: Result<bool, BoardError>)
        requires
            old(self)@.wf(),
        ensures
            final(self)@.wf(),
            !old(self)@.in_bounds(col as int, row as int) ==> r == Err::<bool, BoardError>(
                BoardError::OutOfBounds,
            ),
            old(self)@.in_bounds(col as int, row as int) ==> r == Ok::<bool, BoardError>(
                old(self)@.is_legal(col as int, row as int),
            ),
            r == Ok::<bool, BoardError>(true) ==> final(self)@ == old(self)@.moved(
                col as int,
                row as int,
            ),
            r != Ok::<bool, BoardError>(true) ==> final(self)@ == old(self)@,
            (final(self)@ != old(self)@) == (r == Ok::<bool, BoardError>(true)),
    {
        let legal = self.is_move_legal(col, row);
        match legal {
            Ok(true) => {
                let (ec, er) = self.locate_empty();
                proof {
                    lemma_empty_position(self@);
                    lemma_index_join(self.rows as int, self.cols as int, col as int, row as int);
                    lemma_index_join(self.rows as int, self.cols as int, ec as int, er as int);
                    lemma_moved_wf(self@, col as int, row as int);
                }
                let e = er * self.cols + ec;
                let t = row * self.cols + col;
                let v = self.cells[t];
                self.cells.set(e, v);
                self.cells.set(t, 0);
                proof {
                    assert(self@.cells =~= old(self)@.moved(col as int, row as int).cells);
                    assert(self@.cells[t as int] != old(self)@.cells[t as int]);
                }
                Ok(true)
            },
            _ => legal,
        }
    }

    /// The cells whose tile may slide into the empty slot, in the order
    /// left, right, below, above.
    pub fn legal_targets(&self) -> (r: Vec<(usize, usize)>)
        requires
            self@.wf(),
        ensures
            r@.len() == legal_targets(self@).len(),
            forall|k: int|
                0 <= k < r@.len() ==> (#[trigger] r@[k].0 as int, r@[k].1 as int) == legal_targets(
                    self@,
                )[k],
    {
        let (c, r) = self.locate_empty();
        let mut out: Vec<(usize, usize)> = Vec::new();
        if c > 0 {
            out.push((c - 1, r));
        }
        if c + 1 < self.cols {
            out.push((c + 1, r));
        }
        if r > 0 {
            out.push((c, r - 1));
        }
        if r + 1 < self.rows {
            out.push((c, r + 1));
        }
        proof {
            let ts = legal_targets(self@);
            assert(out@.len() == ts.len());
            assert forall|k: int| 0 <= k < out@.len() implies (
            #[trigger] out@[k].0 as int,
            out@[k].1 as int,
            ) == ts[k] by {}
        }
        out
    }

    /// Makes the legal move chosen by `pick` among `legal_targets`, counted
    /// modulo their number.
    pub fn scramble_step_with(&mut self, pick: usize)
        requires
            old(self)@.wf(),
        ensures
            final(self)@.wf(),
            ({
                let ts = legal_targets(old(self)@);
                let t = ts[(pick as int) % (ts.len() as int)];
                final(self)@ == old(self)@.moved(t.0, t.1)
            }),
            old(self)@.steps_to(final(self)@),
    {
        proof {
            lemma_legal_targets(self@);
        }
        let targets = self.legal_targets();
        let k = pick % targets.len();
        let (col, row) = targets[k];
        proof {
            assert((col as int, row as int) == legal_targets(self@)[k as int]);
            assert(self@.is_legal(col as int, row as int));
        }
        let _ = self.try_move(col, row);
    }

    /// Makes one legal move chosen at random, each legal move being equally
    /// likely.
    pub fn scramble_one_step(&mut self)
        requires
            old(self)@.wf(),
        ensures
            final(self)@.wf(),
            old(self)@.steps_to(final(self)@),
    {
        proof {
            lemma_legal_targets(self@);
        }
        let n = self.legal_targets().len();
        let pick = random_below(n);
        self.scramble_step_with(pick);
    }

    /// Whether the board shows the solved layout.
    pub fn is_solved(&self) -> (r: bool)
        requires
            self@.wf(),
        ensures
            r == (self@ == BoardModel::solved(self@.rows, self@.cols)),
    {
        let n = self.cells.len();
        let mut i: usize = 0;
        while i < n
            invariant
                self@.wf(),
                n == self.cells@.len(),
                i <= n,
                forall|k: int|
                    0 <= k < i ==> self.cells@[k] == solved_value(
                        self.rows as int,
                        self.cols as int,
                        k,
                    ) as usize,
            decreases n - i,
        {
            if self.cells[i] != solved_value_at(self.rows, self.cols, i) {
                proof {
                    assert(self@.cells[i as int] != BoardModel::solved(
                        self@.rows,
                        self@.cols,
                    ).cells[i as int]);
                }
                return false;
            }
            i += 1;
        }
        proof {
            assert(self@.cells =~= BoardModel::solved(self@.rows, self@.cols).cells);
        }
        true
    }

    /// The tile at `(col, row)`, 0 for the empty slot; a cell off the grid is
    /// refused.
    pub fn get(&self, col: usize, row: usize) -> (r: Result<usize, BoardError>)
        requires
            self@.wf(),
        ensures
            !self@.in_bounds(col as int, row as int) ==> r == Err::<usize, BoardError>(
                BoardError::OutOfBounds,
            ),
            self@.in_bounds(col as int, row as int) ==> r == Ok::<usize, BoardError>(
                self@.cell(col as int, row as int),
            ),
    {
        if col >= self.cols || row >= self.rows {
            return Err(BoardError::OutOfBounds);
        }
        proof {
            lemma_index_join(self.rows as int, self.cols as int, col as int, row as int);
        }
        Ok(self.cells[row * self.cols + col])
    }

    /// The grid as a list of rows, row 0 (the bottom row) first.
    pub fn grid(&self) -> (r: Vec<Vec<usize>>)
        requires
            self@.wf(),
        ensures
            r@.len() == self@.rows,
            forall|row: int| 0 <= row < self@.rows ==> (#[trigger] r@[row])@.len() == self@.cols,
            forall|row: int, col: int|
                0 <= row < self@.rows && 0 <= col < self@.cols ==> #[trigger] r@[row]@[col]
                    == self@.cell(col, row),
    {
        let mut out: Vec<Vec<usize>> = Vec::new();
        let mut row: usize = 0;
        while row < self.rows
            invariant
                self@.wf(),
                row <= self.rows,
                out@.len() == row,
                forall|j: int| 0 <= j < row ==> (#[trigger] out@[j])@.len() == self@.cols,
                forall|j: int, col: int|
                    0 <= j < row && 0 <= col < self@.cols ==> #[trigger] out@[j]@[col]
                        == self@.cell(col, j),
            decreases self.rows - row,
        {
            let mut line: Vec<usize> = Vec::new();
            let mut col: usize = 0;
            while col < self.cols
                invariant
                    self@.wf(),
                    row < self.rows,
                    col <= self.cols,
                    line@.len() == col,
                    forall|k: int| 0 <= k < col ==> line@[k] == self@.cell(k, row as int),
                decreases self.cols - col,
            {
                proof {
                    lemma_index_join(self.rows as int, self.cols as int, col as int, row as int);
                }
                line.push(self.cells[row * self.cols + col]);
                col += 1;
            }
            out.push(line);
            row += 1;
        }
        out
    }
}

} // verus!
