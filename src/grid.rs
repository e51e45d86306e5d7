//! The board: a row-major array of cells with its mine layout, the cascading
//! reveal, the marking rules and the win and loss tests.
use crate::cell::{Cell, CellKind, CellMarker, CellState};
use crate::flood::{
    count_true, frontier_closed, lemma_closed_holds_connected, lemma_connected_self, lemma_connected_step,
    lemma_count_true_bound, lemma_count_true_set, lemma_count_true_zero, lemma_frontier_done,
    lemma_frontier_pop_visited, lemma_frontier_visit, lemma_has_prefix, lemma_has_push,
};
use rand::seq::SliceRandom;
use vstd::arithmetic::div_mod::{lemma_fundamental_div_mod, lemma_fundamental_div_mod_converse, lemma_mod_bound};
use vstd::prelude::*;

verus! {

/// Why an operation on a board was refused. A refused operation changes nothing.
#[derive(Clone, Copy, Debug, PartialEq, Eq, Structural)]
pub enum GridError {
    /// A board needs at least one row and one column, and its cells must be countable in a `usize`.
    InvalidDimensions,
    /// A row or column index lies outside the board.
    OutOfBounds,
}

/// A board of `num_rows` by `num_cols` cells, stored row by row.
pub struct Grid {
    cells: Vec<Cell>,
    num_rows: usize,
    num_cols: usize,
}

/// The board under the name the game uses.
pub type GameGrid = Grid;

/// The mathematical model of a board: its dimensions and its cells, row by row.
pub struct GridView {
    pub rows: int,
    pub cols: int,
    pub cells: Seq<Cell>,
}

/// The position in row-major order of the cell at row `r` and column `c`.
pub open spec fn flat(cols: int, r: int, c: int) -> int {
    r * cols + c
}

/// Cells `i` and `j` of a `rows` by `cols` board are distinct grid neighbours:
/// their rows and their columns differ by at most one.
pub open spec fn adjacent_in(rows: int, cols: int, i: int, j: int) -> bool {
    &&& 0 <= i < rows * cols
    &&& 0 <= j < rows * cols
    &&& i != j
    &&& -1 <= i / cols - j / cols <= 1
    &&& -1 <= i % cols - j % cols <= 1
}

/// Some element of `s` is `j`.
pub open spec fn has(s: Seq<usize>, j: int) -> bool {
    exists|k: int| 0 <= k < s.len() && s[k] as int == j
}

/// The number of mines a board of `n` cells holds: `n * 0.15`, rounded half away from zero.
pub open spec fn total_mines_for(n: int) -> int {
    (15 * n + 50) / 100
}

/// The cell `c`, revealed.
pub open spec fn revealed(c: Cell) -> Cell {
    Cell { state: CellState::Revealed, ..c }
}

impl GridView {
    /// Whether row `r`, column `c` lies on the board.
    pub open spec fn in_bounds(self, r: int, c: int) -> bool {
        0 <= r < self.rows && 0 <= c < self.cols
    }

    /// One if the cell at row `r`, column `c` exists and holds a mine, else zero.
    pub open spec fn mine_at(self, r: int, c: int) -> int {
        if self.in_bounds(r, c) && self.cells[flat(self.cols, r, c)].kind == CellKind::Mine {
            1
        } else {
            0
        }
    }

    /// The number of mines among the (up to eight) grid neighbours of row `r`, column `c`.
    pub open spec fn mines_around(self, r: int, c: int) -> int {
        self.mine_at(r - 1, c - 1) + self.mine_at(r - 1, c) + self.mine_at(r - 1, c + 1)
            + self.mine_at(r, c - 1) + self.mine_at(r, c + 1)
            + self.mine_at(r + 1, c - 1) + self.mine_at(r + 1, c) + self.mine_at(r + 1, c + 1)
    }

    /// Every cell's adjacent mine count is the number of mines among its neighbours.
    #[verifier::opaque]
    pub open spec fn counts_exact(self) -> bool {
        forall|i: int|
            0 <= i < self.cells.len() ==> (#[trigger] self.cells[i]).adj_mine_count
                == self.mines_around(i / self.cols, i % self.cols)
    }

    /// At least one row and one column, one cell for each position, and
    /// exact adjacent mine counts.
    pub open spec fn layout_ok(self) -> bool {
        &&& self.rows >= 1
        &&& self.cols >= 1
        &&& self.cells.len() == self.rows * self.cols
        &&& self.counts_exact()
    }

    /// Every grid neighbour of a revealed lone cell is revealed: a lone cell
    /// is only ever revealed together with its cascade.
    pub open spec fn reveals_closed(self) -> bool {
        forall|j: int, y: int|
            #[trigger] self.adjacent(j, y) && self.lone(j) && self.cells[j].state == CellState::Revealed
                ==> self.cells[y].state == CellState::Revealed
    }

    /// The board's invariant: a sound layout, and no revealed lone cell with a
    /// hidden or marked neighbour.
    pub open spec fn wf(self) -> bool {
        &&& self.layout_ok()
        &&& self.reveals_closed()
    }

    /// Cells `i` and `j` are distinct grid neighbours.
    pub open spec fn adjacent(self, i: int, j: int) -> bool {
        adjacent_in(self.rows, self.cols, i, j)
    }

    /// The mined grid neighbours of cell `i`.
    pub open spec fn neighbour_mines(self, i: int) -> Set<int> {
        Set::new(|j: int| self.adjacent(i, j) && self.cells[j].kind == CellKind::Mine)
    }

    /// The position of the cell at row `r`, column `c`.
    pub open spec fn index(self, r: int, c: int) -> int {
        flat(self.cols, r, c)
    }

    /// `other` has this board's dimensions and, cell by cell, its kinds and counts.
    pub open spec fn same_layout(self, other: GridView) -> bool {
        &&& other.rows == self.rows
        &&& other.cols == self.cols
        &&& other.cells.len() == self.cells.len()
        &&& forall|i: int|
            0 <= i < self.cells.len() ==> (#[trigger] other.cells[i]).kind == self.cells[i].kind
                && other.cells[i].adj_mine_count == self.cells[i].adj_mine_count
    }
}

impl GridView {
    /// The positions of the mined cells among the first `t`, in increasing order.
    pub open spec fn mines_upto(self, t: int) -> Seq<int>
        decreases t,
    {
        if t <= 0 {
            Seq::empty()
        } else if self.cells[t - 1].kind == CellKind::Mine {
            self.mines_upto(t - 1).push(t - 1)
        } else {
            self.mines_upto(t - 1)
        }
    }

    /// The positions of all mined cells, in increasing order.
    pub open spec fn mine_positions(self) -> Seq<int> {
        self.mines_upto(self.cells.len() as int)
    }

    /// The number of mined cells.
    pub open spec fn mine_count(self) -> int {
        self.mine_positions().len() as int
    }
}

impl GridView {
    /// Cell `i` exists and is lone: empty, with no adjacent mine.
    pub open spec fn lone(self, i: int) -> bool {
        0 <= i < self.cells.len() && self.cells[i].is_lone()
    }

    /// `p` is a walk of lone cells, each a grid neighbour of the next.
    #[verifier::opaque]
    pub open spec fn lone_path(self, p: Seq<int>) -> bool {
        &&& p.len() >= 1
        &&& forall|k: int| 0 <= k < p.len() ==> self.lone(#[trigger] p[k])
        &&& forall|k: int| 0 <= k < p.len() - 1 ==> self.adjacent(#[trigger] p[k], p[k + 1])
    }

    /// Lone cell `x` is reached from lone cell `o` by a walk of lone cells.
    pub open spec fn connected(self, o: int, x: int) -> bool {
        exists|p: Seq<int>| #[trigger] self.lone_path(p) && p[0] == o && p.last() == x
    }

    /// Cell `j` is opened by a cascade from lone cell `o`: it lies in the
    /// region of lone cells connected to `o`, or borders that region.
    pub open spec fn in_cascade(self, o: int, j: int) -> bool {
        exists|y: int| #[trigger] self.connected(o, y) && (y == j || self.adjacent(y, j))
    }
}

impl GridView {
    /// The board with cell `i` given visibility `s`.
    pub open spec fn with_state(self, i: int, s: CellState) -> GridView {
        GridView { cells: self.cells.update(i, Cell { state: s, ..self.cells[i] }), ..self }
    }

    /// The board after the cascade from lone cell `o`: every cell of the
    /// region of lone cells connected to `o`, and every cell bordering it, is
    /// revealed; nothing else changes.
    pub open spec fn cascade(self, o: int) -> GridView {
        GridView {
            cells: Seq::new(
                self.cells.len(),
                |j: int|
                    if self.in_cascade(o, j) {
                        revealed(self.cells[j])
                    } else {
                        self.cells[j]
                    },
            ),
            ..self
        }
    }

    /// The board after the player reveals cell `i`: nothing changes if it is
    /// already revealed; a lone cell opens its cascade; any other cell alone
    /// is revealed, whatever mark it had.
    pub open spec fn reveal_at(self, i: int) -> GridView {
        if self.cells[i].state == CellState::Revealed {
            self
        } else if self.cells[i].is_lone() {
            self.cascade(i)
        } else {
            self.with_state(i, CellState::Revealed)
        }
    }

    /// The board after cell `i` is given visibility `s`, unless it is revealed.
    pub open spec fn mark_at(self, i: int, s: CellState) -> GridView {
        if self.cells[i].state == CellState::Revealed {
            self
        } else {
            self.with_state(i, s)
        }
    }

    /// The board after the player toggles marker `m` on cell `i`: a marked cell
    /// is unmarked, a hidden one is marked with `m`, a revealed one is left alone.
    pub open spec fn toggle_at(self, i: int, m: CellMarker) -> GridView {
        match self.cells[i].state {
            CellState::Revealed => self,
            CellState::Marked(_) => self.with_state(i, CellState::Hidden),
            CellState::Hidden => self.with_state(i, CellState::Marked(m)),
        }
    }

    /// Some mined cell is revealed.
    pub open spec fn is_lost(self) -> bool {
        exists|j: int|
            0 <= j < self.cells.len() && (#[trigger] self.cells[j]).kind == CellKind::Mine
                && self.cells[j].state == CellState::Revealed
    }

    /// Every mined cell is flagged.
    pub open spec fn is_won(self) -> bool {
        forall|j: int|
            0 <= j < self.cells.len() && (#[trigger] self.cells[j]).kind == CellKind::Mine
                ==> self.cells[j].state == CellState::Marked(CellMarker::Flagged)
    }
}

/// Revealing, marking and cascading change visibility only, and keep the
/// board's invariant: a mark goes only on a cell that is not revealed, a cell
/// revealed alone is not lone, and a cascade reveals the neighbours of every
/// lone cell it reveals.
proof fn lemma_steps_keep_wf(v: GridView, i: int)
    requires
        v.wf(),
        0 <= i < v.cells.len(),
    ensures
        forall|s: CellState|
            s != CellState::Revealed && v.cells[i].state != CellState::Revealed ==> (#[trigger] v.with_state(
                i,
                s,
            )).wf(),
        !v.cells[i].is_lone() ==> v.with_state(i, CellState::Revealed).wf(),
        v.lone(i) ==> v.cascade(i).wf(),
{
    assert forall|s: CellState|
        s != CellState::Revealed && v.cells[i].state != CellState::Revealed implies (#[trigger] v.with_state(
            i,
            s,
        )).wf() by {
        let w = v.with_state(i, s);
        lemma_same_layout_wf(v, w);
        assert forall|j: int, y: int|
            #[trigger] w.adjacent(j, y) && w.lone(j) && w.cells[j].state == CellState::Revealed implies w.cells[y].state
                == CellState::Revealed by {
            assert(v.adjacent(j, y) && v.lone(j) && v.cells[j].state == CellState::Revealed);
        }
    }
    if !v.cells[i].is_lone() {
        let w = v.with_state(i, CellState::Revealed);
        lemma_same_layout_wf(v, w);
        assert forall|j: int, y: int|
            #[trigger] w.adjacent(j, y) && w.lone(j) && w.cells[j].state == CellState::Revealed implies w.cells[y].state
                == CellState::Revealed by {
            assert(v.adjacent(j, y) && v.lone(j) && v.cells[j].state == CellState::Revealed);
        }
    }
    if v.lone(i) {
        let w = v.cascade(i);
        lemma_same_layout_wf(v, w);
        assert forall|j: int, y: int|
            #[trigger] w.adjacent(j, y) && w.lone(j) && w.cells[j].state == CellState::Revealed implies w.cells[y].state
                == CellState::Revealed by {
            if v.in_cascade(i, j) {
                let x = choose|x: int| #[trigger] v.connected(i, x) && (x == j || v.adjacent(x, j));
                if x != j {
                    lemma_connected_step(v, i, x, j);
                }
                assert(v.in_cascade(i, y));
            } else {
                assert(v.adjacent(j, y) && v.lone(j) && v.cells[j].state == CellState::Revealed);
            }
        }
    }
}

/// No cell of a well-formed board has more than eight adjacent mines.
proof fn lemma_counts_at_most_eight(v: GridView, i: int)
    requires
        v.wf(),
        0 <= i < v.cells.len(),
    ensures
        v.cells[i].adj_mine_count <= 8,
{
    reveal(GridView::counts_exact);
}

/// Some cell among the first `k` of `conn` is `j` or borders `j`.
spec fn touched(v: GridView, conn: Seq<usize>, k: int, j: int) -> bool {
    exists|t: int| 0 <= t < k && (conn[t] as int == j || v.adjacent(#[trigger] conn[t] as int, j))
}

impl View for Grid {
    type V = GridView;

    closed spec fn view(&self) -> GridView {
        GridView { rows: self.num_rows as int, cols: self.num_cols as int, cells: self.cells@ }
    }
}

/// The cell at row `r`, column `c` of a board lies inside the board, and its
/// row and column are recovered from its position.
pub(crate) proof fn lemma_flat(rows: int, cols: int, r: int, c: int)
    requires
        0 <= r < rows,
        0 <= c < cols,
    ensures
        0 <= flat(cols, r, c) < rows * cols,
        flat(cols, r, c) / cols == r,
        flat(cols, r, c) % cols == c,
{
    assert(0 <= r * cols + c < rows * cols) by (nonlinear_arith)
        requires
            0 <= r < rows,
            0 <= c < cols,
    ;
    lemma_fundamental_div_mod_converse(r * cols + c, cols, r, c);
}

/// Every position of a board lies in some row and column of it.
pub(crate) proof fn lemma_row_col(rows: int, cols: int, i: int)
    requires
        rows >= 1,
        cols >= 1,
        0 <= i < rows * cols,
    ensures
        0 <= i / cols < rows,
        0 <= i % cols < cols,
        i == flat(cols, i / cols, i % cols),
{
    lemma_fundamental_div_mod(i, cols);
    lemma_mod_bound(i, cols);
    let q = i / cols;
    let m = i % cols;
    assert(0 <= q < rows) by (nonlinear_arith)
        requires
            i == cols * q + m,
            0 <= m < cols,
            0 <= i < rows * cols,
            cols >= 1,
    ;
    assert(i == q * cols + m) by (nonlinear_arith)
        requires
            i == cols * q + m,
    ;
}

/// All cells of a board lie inside it.
pub(crate) proof fn lemma_flat_all(rows: int, cols: int)
    ensures
        forall|r: int, c: int|
            0 <= r < rows && 0 <= c < cols ==> 0 <= #[trigger] flat(cols, r, c) < rows * cols,
{
    assert forall|r: int, c: int| 0 <= r < rows && 0 <= c < cols implies 0 <= #[trigger] flat(
        cols,
        r,
        c,
    ) < rows * cols by {
        lemma_flat(rows, cols, r, c);
    }
}

/// Two boards of the same size whose cells hold the same kinds have the same
/// number of mines around every position.
proof fn lemma_mines_around_by_kinds(a: GridView, b: GridView)
    requires
        a.rows == b.rows,
        a.cols == b.cols,
        a.cells.len() == a.rows * a.cols,
        b.cells.len() == a.cells.len(),
        forall|j: int| 0 <= j < a.cells.len() ==> (#[trigger] b.cells[j]).kind == a.cells[j].kind,
    ensures
        forall|r: int, c: int| #[trigger] a.mines_around(r, c) == b.mines_around(r, c),
{
    lemma_flat_all(a.rows, a.cols);
}

/// A board that keeps the dimensions, kinds and counts of a sound layout has a sound layout.
proof fn lemma_same_layout_wf(a: GridView, b: GridView)
    requires
        a.layout_ok(),
        a.same_layout(b),
    ensures
        b.layout_ok(),
{
    reveal(GridView::counts_exact);
    lemma_mines_around_by_kinds(a, b);
}

/// The mines among the first `t` cells, listed without repetition in increasing order.
proof fn lemma_mines_upto(v: GridView, t: int)
    requires
        0 <= t <= v.cells.len(),
    ensures
        v.mines_upto(t).no_duplicates(),
        forall|k: int| 0 <= k < v.mines_upto(t).len() ==> 0 <= #[trigger] v.mines_upto(t)[k] < t,
        forall|j: int|
            v.mines_upto(t).contains(j) <==> 0 <= j < t && v.cells[j].kind == CellKind::Mine,
    decreases t,
{
    if t > 0 {
        lemma_mines_upto(v, t - 1);
        let s = v.mines_upto(t - 1);
        if v.cells[t - 1].kind == CellKind::Mine {
            assert forall|j: int|
                v.mines_upto(t).contains(j) <==> 0 <= j < t && v.cells[j].kind
                    == CellKind::Mine by {
                if j == t - 1 {
                    assert(v.mines_upto(t)[s.len() as int] == j);
                }
                if s.contains(j) {
                    let k = choose|k: int| 0 <= k < s.len() && s[k] == j;
                    assert(v.mines_upto(t)[k] == j);
                }
                if v.mines_upto(t).contains(j) && j != t - 1 {
                    let k = choose|k: int| 0 <= k < v.mines_upto(t).len() && v.mines_upto(t)[k] == j;
                    assert(s[k] == j);
                }
            }
        }
    }
}

/// Rounding `n * 0.15` computed without overflow.
proof fn lemma_total_mines_for(n: int, q: int, m: int)
    requires
        n >= 0,
        q == n / 100,
        m == n % 100,
    ensures
        total_mines_for(n) == 15 * q + (15 * m + 50) / 100,
        n >= 1 ==> total_mines_for(n) <= n,
{
    lemma_fundamental_div_mod(n, 100);
    lemma_mod_bound(n, 100);
    let a = 15 * m + 50;
    lemma_fundamental_div_mod(a, 100);
    lemma_mod_bound(a, 100);
    lemma_fundamental_div_mod_converse(15 * n + 50, 100, 15 * q + a / 100, a % 100);
}

/// Relies on rand's `SliceRandom::shuffle` with the thread-local generator of
/// `rand::thread_rng`: the shuffle only swaps elements, so the result is a
/// permutation of the input.
#[verifier::external_body]
fn shuffle_in_place(v: &mut Vec<usize>)
    ensures
        final(v)@.len() == old(v)@.len(),
        final(v)@.to_multiset() == old(v)@.to_multiset(),
{
    v.shuffle(&mut rand::thread_rng());
}

/// The number of mines on a board of `n` cells: `n * 0.15`, rounded half away from zero.
fn mines_for_size(n: usize) -> (r: usize)
    ensures
        r == total_mines_for(n as int),
        n >= 1 ==> r <= n,
{
    proof {
        lemma_total_mines_for(n as int, (n / 100) as int, (n % 100) as int);
    }
    n / 100 * 15 + (n % 100 * 15 + 50) / 100
}

/// A permutation of a list without repetition has no repetition.
proof fn lemma_permutation_no_duplicates(a: Seq<usize>, b: Seq<usize>)
    requires
        a.no_duplicates(),
        b.to_multiset() == a.to_multiset(),
    ensures
        b.no_duplicates(),
{
    a.lemma_multiset_has_no_duplicates();
    b.lemma_multiset_has_no_duplicates_conv();
}

/// Two lists without repetition that hold the same elements have the same length.
proof fn lemma_same_elements_same_len(a: Seq<int>, b: Seq<int>)
    requires
        a.no_duplicates(),
        b.no_duplicates(),
        forall|x: int| a.contains(x) <==> b.contains(x),
    ensures
        a.len() == b.len(),
{
    a.unique_seq_to_set();
    b.unique_seq_to_set();
    assert(a.to_set() =~= b.to_set());
}

impl Grid {
    /// Lays out a new board of `num_rows` by `num_cols` hidden cells: a uniformly
    /// random choice of `round(num_rows * num_cols * 0.15)` distinct cells hold
    /// mines, and every cell counts the mines among its neighbours.
    pub fn new(num_rows: usize, num_cols: usize) -> (r: Result<Grid, GridError>)
        ensures
            r is Err <==> (num_rows == 0 || num_cols == 0 || num_rows * num_cols > usize::MAX),
            r is Err ==> r == Err::<Grid, GridError>(GridError::InvalidDimensions),
            r is Ok ==> {
                let v = r->Ok_0@;
                &&& v.wf()
                &&& v.rows == num_rows
                &&& v.cols == num_cols
                &&& v.mine_count() == total_mines_for(num_rows * num_cols)
                &&& forall|j: int| 0 <= j < v.cells.len() ==> (#[trigger] v.cells[j]).state == CellState::Hidden
                &&& !v.is_lost()
                &&& (v.mine_count() >= 1 ==> !v.is_won())
            },
    {
        if num_rows == 0 || num_cols == 0 {
            return Err(GridError::InvalidDimensions);
        }
        let n = match num_rows.checked_mul(num_cols) {
            Some(n) => n,
            None => {
                return Err(GridError::InvalidDimensions);
            },
        };
        let total = mines_for_size(n);
        let picked = Self::gen_rand_grid_indices(n, total);
        let ghost ints = picked@.map_values(|x: usize| x as int);
        proof {
            assert(ints.no_duplicates());
        }
        match Self::with_mines(num_rows, num_cols, &picked) {
            Ok(g) => {
                proof {
                    let v = g@;
                    lemma_mines_upto(v, v.cells.len() as int);
                    assert forall|x: int| v.mine_positions().contains(x) <==> ints.contains(x) by {
                        if ints.contains(x) {
                            let t = choose|t: int| 0 <= t < ints.len() && ints[t] == x;
                            assert(picked@[t] < n);
                        }
                        if v.mine_positions().contains(x) {
                            assert(v.cells[x].kind == CellKind::Mine);
                            let t = choose|t: int| 0 <= t < picked@.len() && picked@[t] as int == x;
                            assert(ints[t] == x);
                        }
                    }
                    lemma_same_elements_same_len(v.mine_positions(), ints);
                    if v.mine_count() >= 1 {
                        let j = v.mine_positions()[0];
                        assert(v.mine_positions().contains(j));
                        assert(v.cells[j].kind == CellKind::Mine && v.cells[j].state == CellState::Hidden);
                    }
                }
                Ok(g)
            },
            Err(e) => Err(e),
        }
    }

    /// `count` distinct positions below `n`, chosen uniformly at random: the
    /// first `count` of a shuffled list of all positions.
    fn gen_rand_grid_indices(n: usize, count: usize) -> (r: Vec<usize>)
        requires
            count <= n,
        ensures
            r@.len() == count,
            r@.no_duplicates(),
            forall|k: int| 0 <= k < r@.len() ==> #[trigger] r@[k] < n,
    {
        let mut order: Vec<usize> = Vec::with_capacity(n);
        let mut i: usize = 0;
        while i < n
            invariant
                i <= n,
                order@ == Seq::new(i as nat, |j: int| j as usize),
            decreases n - i,
        {
            order.push(i);
            i = i + 1;
        }
        let ghost range = order@;
        proof {
            assert(range.no_duplicates());
            range.to_multiset_ensures();
        }
        shuffle_in_place(&mut order);
        proof {
            lemma_permutation_no_duplicates(range, order@);
            order@.to_multiset_ensures();
            assert forall|k: int| 0 <= k < order@.len() implies #[trigger] order@[k] < n by {
                assert(order@.contains(order@[k]));
                assert(order@.to_multiset().count(order@[k]) > 0);
                assert(range.to_multiset().count(order@[k]) > 0);
                assert(range.contains(order@[k]));
            }
        }
        let mut picked: Vec<usize> = Vec::with_capacity(count);
        let mut k: usize = 0;
        while k < count
            invariant
                k <= count <= n,
                order@.len() == n,
                picked@ == order@.subrange(0, k as int),
            decreases count - k,
        {
            picked.push(order[k]);
            k = k + 1;
        }
        picked
    }

    /// `rows * cols` hidden empty cells with no adjacent mine.
    fn empty_grid(rows: usize, cols: usize) -> (r: Vec<Cell>)
        requires
            rows * cols <= usize::MAX,
        ensures
            r@.len() == rows * cols,
            forall|j: int| 0 <= j < r@.len() ==> #[trigger] r@[j] == Cell::new_spec(CellKind::Empty),
    {
        let n = rows * cols;
        let mut grid: Vec<Cell> = Vec::with_capacity(n);
        let mut i: usize = 0;
        while i < n
            invariant
                i <= n,
                grid@.len() == i,
                forall|j: int| 0 <= j < i ==> #[trigger] grid@[j] == Cell::new_spec(CellKind::Empty),
            decreases n - i,
        {
            grid.push(Cell::new(CellKind::Empty));
            i = i + 1;
        }
        grid
    }

    /// One if row `r`, column `c` holds a mine, else zero.
    fn mine_at(cells: &Vec<Cell>, num_rows: usize, num_cols: usize, r: usize, c: usize) -> (m: u8)
        requires
            cells@.len() == num_rows * num_cols,
            num_rows * num_cols <= usize::MAX,
            r < num_rows,
            c < num_cols,
        ensures
            m == (GridView { rows: num_rows as int, cols: num_cols as int, cells: cells@ }).mine_at(
                r as int,
                c as int,
            ),
    {
        proof {
            lemma_flat(num_rows as int, num_cols as int, r as int, c as int);
        }
        match cells[r * num_cols + c].kind {
            CellKind::Mine => 1,
            CellKind::Empty => 0,
        }
    }

    /// The number of mines among the grid neighbours of row `r`, column `c`.
    fn count_mines_around(cells: &Vec<Cell>, num_rows: usize, num_cols: usize, r: usize, c: usize) -> (m: u8)
        requires
            cells@.len() == num_rows * num_cols,
            num_rows * num_cols <= usize::MAX,
            r < num_rows,
            c < num_cols,
        ensures
            m == (GridView { rows: num_rows as int, cols: num_cols as int, cells: cells@ }).mines_around(
                r as int,
                c as int,
            ),
            m <= 8,
    {
        let mut m: u8 = 0;
        if r > 0 {
            if c > 0 {
                m = m + Self::mine_at(cells, num_rows, num_cols, r - 1, c - 1);
            }
            m = m + Self::mine_at(cells, num_rows, num_cols, r - 1, c);
            if c + 1 < num_cols {
                m = m + Self::mine_at(cells, num_rows, num_cols, r - 1, c + 1);
            }
        }
        if c > 0 {
            m = m + Self::mine_at(cells, num_rows, num_cols, r, c - 1);
        }
        if c + 1 < num_cols {
            m = m + Self::mine_at(cells, num_rows, num_cols, r, c + 1);
        }
        if r + 1 < num_rows {
            if c > 0 {
                m = m + Self::mine_at(cells, num_rows, num_cols, r + 1, c - 1);
            }
            m = m + Self::mine_at(cells, num_rows, num_cols, r + 1, c);
            if c + 1 < num_cols {
                m = m + Self::mine_at(cells, num_rows, num_cols, r + 1, c + 1);
            }
        }
        m
    }

    /// Lays out a board of `num_rows` by `num_cols` hidden cells with a mine at
    /// each position listed in `mines` (row-major positions; a repeated position
    /// counts once) and exact adjacent mine counts.
    pub fn with_mines(num_rows: usize, num_cols: usize, mines: &Vec<usize>) -> (r: Result<Grid, GridError>)
        ensures
            r == Err::<Grid, GridError>(GridError::InvalidDimensions) <==> (num_rows == 0 || num_cols == 0
                || num_rows * num_cols > usize::MAX),
            r == Err::<Grid, GridError>(GridError::OutOfBounds) <==> (num_rows >= 1 && num_cols >= 1
                && num_rows * num_cols <= usize::MAX && exists|k: int|
                0 <= k < mines@.len() && #[trigger] mines@[k] >= num_rows * num_cols),
            r is Ok ==> {
                let v = r->Ok_0@;
                &&& v.wf()
                &&& v.rows == num_rows
                &&& v.cols == num_cols
                &&& forall|j: int|
                    0 <= j < v.cells.len() ==> (#[trigger] v.cells[j]).state == CellState::Hidden
                        && (v.cells[j].kind == CellKind::Mine <==> has(mines@, j))
            },
    {
        if num_rows == 0 || num_cols == 0 {
            return Err(GridError::InvalidDimensions);
        }
        let n = match num_rows.checked_mul(num_cols) {
            Some(n) => n,
            None => {
                return Err(GridError::InvalidDimensions);
            },
        };
        let mut k: usize = 0;
        while k < mines.len()
            invariant
                k <= mines@.len(),
                num_rows >= 1,
                num_cols >= 1,
                n == num_rows * num_cols,
                forall|t: int| 0 <= t < k ==> #[trigger] mines@[t] < n,
            decreases mines@.len() - k,
        {
            if mines[k] >= n {
                return Err(GridError::OutOfBounds);
            }
            k = k + 1;
        }
        let mut cells = Self::empty_grid(num_rows, num_cols);
        k = 0;
        while k < mines.len()
            invariant
                k <= mines@.len(),
                n == num_rows * num_cols,
                cells@.len() == n,
                forall|t: int| 0 <= t < mines@.len() ==> #[trigger] mines@[t] < n,
                forall|j: int|
                    0 <= j < n ==> #[trigger] cells@[j] == Cell::new_spec(
                        if has(mines@.subrange(0, k as int), j) {
                            CellKind::Mine
                        } else {
                            CellKind::Empty
                        },
                    ),
            decreases mines@.len() - k,
        {
            let ghost prev = mines@.subrange(0, k as int);
            let ghost before = cells@;
            cells.set(mines[k], Cell::new(CellKind::Mine));
            k = k + 1;
            assert forall|j: int| 0 <= j < n implies has(mines@.subrange(0, k as int), j) == (has(prev, j)
                || j == mines@[k - 1]) by {
                if has(prev, j) {
                    let t = choose|t: int| 0 <= t < prev.len() && prev[t] as int == j;
                    assert(mines@.subrange(0, k as int)[t] == prev[t]);
                }
                if j == mines@[k - 1] {
                    assert(mines@.subrange(0, k as int)[k - 1] == mines@[k - 1]);
                }
                if has(mines@.subrange(0, k as int), j) {
                    let t = choose|t: int| 0 <= t < k && mines@.subrange(0, k as int)[t] as int == j;
                    if t < k - 1 {
                        assert(prev[t] == mines@.subrange(0, k as int)[t]);
                    }
                }
            }
            assert forall|j: int| 0 <= j < n implies #[trigger] cells@[j] == Cell::new_spec(
                if has(mines@.subrange(0, k as int), j) {
                    CellKind::Mine
                } else {
                    CellKind::Empty
                },
            ) by {
                if j != mines@[k - 1] {
                    assert(cells@[j] == before[j]);
                    assert(before[j] == Cell::new_spec(
                        if has(prev, j) {
                            CellKind::Mine
                        } else {
                            CellKind::Empty
                        },
                    ));
                } else {
                    assert(has(mines@.subrange(0, k as int), j));
                }
            }
        }
        assert(mines@.subrange(0, mines@.len() as int) == mines@);
        let ghost placed = GridView { rows: num_rows as int, cols: num_cols as int, cells: cells@ };
        let mut counts: Vec<u8> = Vec::with_capacity(n);
        let mut i: usize = 0;
        while i < n
            invariant
                i <= n,
                n == num_rows * num_cols,
                num_cols >= 1,
                num_rows >= 1,
                cells@.len() == n,
                placed.cells == cells@,
                placed.rows == num_rows,
                placed.cols == num_cols,
                counts@.len() == i,
                forall|j: int| 0 <= j < n ==> (#[trigger] placed.cells[j]).state == CellState::Hidden
                    && (placed.cells[j].kind == CellKind::Mine <==> has(mines@, j)),
                forall|j: int|
                    0 <= j < i ==> #[trigger] counts@[j] == placed.mines_around(j / placed.cols, j % placed.cols),
            decreases n - i,
        {
            proof {
                lemma_row_col(num_rows as int, num_cols as int, i as int);
            }
            counts.push(Self::count_mines_around(&cells, num_rows, num_cols, i / num_cols, i % num_cols));
            i = i + 1;
        }
        i = 0;
        while i < n
            invariant
                i <= n,
                n == num_rows * num_cols,
                cells@.len() == n,
                counts@.len() == n,
                placed.cells.len() == n,
                placed.rows == num_rows,
                placed.cols == num_cols,
                forall|j: int| 0 <= j < n ==> (#[trigger] placed.cells[j]).state == CellState::Hidden
                    && (placed.cells[j].kind == CellKind::Mine <==> has(mines@, j)),
                forall|j: int|
                    0 <= j < n ==> #[trigger] counts@[j] == placed.mines_around(j / placed.cols, j % placed.cols),
                forall|j: int|
                    0 <= j < n ==> (#[trigger] cells@[j]).kind == placed.cells[j].kind
                        && cells@[j].state == CellState::Hidden,
                forall|j: int| 0 <= j < i ==> (#[trigger] cells@[j]).adj_mine_count == counts@[j],
            decreases n - i,
        {
            let mut cell = cells[i];
            cell.adj_mine_count = counts[i];
            cells.set(i, cell);
            i = i + 1;
        }
        let g = Grid { cells, num_rows, num_cols };
        proof {
            lemma_mines_around_by_kinds(placed, g@);
            reveal(GridView::counts_exact);
            assert(g@.reveals_closed());
        }
        Ok(g)
    }

    /// The positions of the lone cells reached from lone cell `index` by walks
    /// of lone cells: a depth-first flood fill with an explicit visited set.
    #[verifier::spinoff_prover]
    #[verifier::rlimit(40)]
    fn connected_lone_cell_indices(&self, index: usize) -> (r: Vec<usize>)
        requires
            self@.wf(),
            self@.lone(index as int),
        ensures
            r@.no_duplicates(),
            forall|k: int|
                0 <= k < r@.len() ==> (#[trigger] r@[k]) < self@.cells.len() && self@.connected(
                    index as int,
                    r@[k] as int,
                ),
            forall|j: int| self@.connected(index as int, j) ==> has(r@, j),
    {
        let ghost v = self@;
        let n = self.cells.len();
        let mut visited: Vec<bool> = Vec::with_capacity(n);
        let mut i: usize = 0;
        while i < n
            invariant
                i <= n,
                visited@ == Seq::new(i as nat, |j: int| false),
            decreases n - i,
        {
            visited.push(false);
            i = i + 1;
        }
        proof {
            assert(count_true(visited@) == 0) by {
                lemma_count_true_zero(visited@);
            }
            lemma_connected_self(v, index as int);
        }
        let mut to_visit: Vec<usize> = Vec::new();
        to_visit.push(index);
        let mut connected: Vec<usize> = Vec::new();
        assert(to_visit@[0] == index);
        proof {
            reveal(frontier_closed);
        }
        while to_visit.len() > 0
            invariant
                v == self@,
                v.rows >= 1,
                v.cols >= 1,
                v.cells.len() == v.rows * v.cols,
                n == v.cells.len(),
                v.lone(index as int),
                visited@.len() == n,
                connected@.no_duplicates(),
                forall|j: int| 0 <= j < n ==> (visited@[j] <==> has(connected@, j)),
                forall|k: int|
                    0 <= k < connected@.len() ==> (#[trigger] connected@[k]) < n && v.connected(
                        index as int,
                        connected@[k] as int,
                    ),
                forall|k: int|
                    0 <= k < to_visit@.len() ==> (#[trigger] to_visit@[k]) < n && v.connected(
                        index as int,
                        to_visit@[k] as int,
                    ),
                frontier_closed(v, visited@, to_visit@),
                visited@[index as int] || has(to_visit@, index as int),
            decreases 10 * (n - count_true(visited@)) + to_visit@.len(),
        {
            proof {
                lemma_count_true_bound(visited@);
            }
            let ghost stack = to_visit@;
            let cur = to_visit.pop().unwrap();
            let ghost base = to_visit@;
            assert(stack == base.push(cur));
            proof {
                lemma_has_push(base, cur);
            }
            if !visited[cur] {
                let ghost before = visited@;
                let ghost conn_before = connected@;
                proof {
                    lemma_count_true_set(visited@, cur as int);
                    lemma_has_push(conn_before, cur);
                }
                visited.set(cur, true);
                connected.push(cur);
                let adj = Self::adjacent_indices(self.num_rows, self.num_cols, cur);
                self.push_lone_cells(&adj, &mut to_visit);
                proof {
                    assert(visited@ == before.update(cur as int, true));
                    lemma_count_true_bound(visited@);
                    assert forall|k: int| 0 <= k < to_visit@.len() implies (#[trigger] to_visit@[k]) < n
                        && v.connected(index as int, to_visit@[k] as int) by {
                        if k < base.len() {
                            assert(to_visit@.subrange(0, base.len() as int)[k] == base[k]);
                        } else {
                            let s = choose|s: int| 0 <= s < adj@.len() && adj@[s] == to_visit@[k];
                            lemma_connected_step(v, index as int, cur as int, to_visit@[k] as int);
                        }
                    }
                }
                proof {
                    assert forall|y: int| v.adjacent(cur as int, y) && v.lone(y) implies has(to_visit@, y) by {
                        assert(has(adj@, y));
                        let s = choose|s: int| 0 <= s < adj@.len() && adj@[s] as int == y;
                        assert(has(to_visit@, adj@[s] as int));
                    }
                    lemma_frontier_visit(v, before, base, cur as int, to_visit@);
                    if !visited@[index as int] {
                        lemma_has_prefix(base, to_visit@, index as int);
                    }
                }
            } else {
                proof {
                    lemma_frontier_pop_visited(v, visited@, base, cur as int);
                }
            }
        }
        proof {
            lemma_frontier_done(v, visited@, to_visit@);
            assert forall|j: int| v.connected(index as int, j) implies has(connected@, j) by {
                lemma_closed_holds_connected(v, index as int, visited@, j);
            }
        }
        connected
    }

    /// The row-major position of row `row`, column `column`.
    fn to_1d(&self, row: usize, column: usize) -> (r: usize)
        requires
            self@.wf(),
            row < self@.rows,
            column < self@.cols,
        ensures
            r == self@.index(row as int, column as int),
            r < self@.cells.len(),
            r as int / self@.cols == row,
            r as int % self@.cols == column,
    {
        let _n = self.cells.len();
        proof {
            lemma_flat(self@.rows, self@.cols, row as int, column as int);
        }
        row * self.num_cols + column
    }

    /// The number of rows and of columns.
    pub fn dimensions(&self) -> (r: (usize, usize))
        ensures
            r.0 == self@.rows,
            r.1 == self@.cols,
    {
        (self.num_rows, self.num_cols)
    }

    /// The number of mines the board was laid out with: `rows * columns * 0.15`,
    /// rounded half away from zero.
    pub fn total_mines(&self) -> (r: usize)
        requires
            self@.wf(),
        ensures
            r == total_mines_for(self@.rows * self@.cols),
    {
        mines_for_size(self.cells.len())
    }

    /// The row and column of every mined cell, in row-major order.
    pub fn mine_indices(&self) -> (r: Vec<(usize, usize)>)
        requires
            self@.wf(),
        ensures
            r@.len() == self@.mine_positions().len(),
            forall|k: int|
                0 <= k < r@.len() ==> (#[trigger] r@[k]).1 < self@.cols && self@.index(r@[k].0 as int, r@[k].1 as int)
                    == self@.mine_positions()[k],
    {
        let ghost v = self@;
        let n = self.cells.len();
        let mut locations: Vec<(usize, usize)> = Vec::new();
        let mut i: usize = 0;
        while i < n
            invariant
                v == self@,
                v.cols >= 1,
                n == v.cells.len(),
                i <= n,
                locations@.len() == v.mines_upto(i as int).len(),
                forall|k: int|
                    0 <= k < locations@.len() ==> (#[trigger] locations@[k]).1 < v.cols && v.index(
                        locations@[k].0 as int,
                        locations@[k].1 as int,
                    ) == v.mines_upto(i as int)[k],
            decreases n - i,
        {
            if self.cells[i].kind == CellKind::Mine {
                let r = i / self.num_cols;
                let c = i % self.num_cols;
                proof {
                    lemma_fundamental_div_mod(i as int, v.cols);
                    lemma_mod_bound(i as int, v.cols);
                    assert(flat(v.cols, r as int, c as int) == i) by (nonlinear_arith)
                        requires
                            i == v.cols * r + c,
                    ;
                }
                locations.push((r, c));
            }
            i = i + 1;
        }
        locations
    }

    /// Reveals the cell at `r`, `c`. Nothing changes if it is already revealed;
    /// a lone cell opens the region of lone cells connected to it and every
    /// cell bordering that region; any other cell alone is revealed, whatever
    /// mark it had. Refused, changing nothing, outside the board.
    pub fn reveal_cell(&mut self, r: usize, c: usize) -> (res: Result<(), GridError>)
        requires
            old(self)@.wf(),
        ensures
            final(self)@.wf(),
            res is Ok <==> r < old(self)@.rows && c < old(self)@.cols,
            res is Ok ==> final(self)@ == old(self)@.reveal_at(old(self)@.index(r as int, c as int)),
            res is Err ==> res == Err::<(), GridError>(GridError::OutOfBounds) && final(self)@ == old(self)@,
    {
        if r >= self.num_rows || c >= self.num_cols {
            return Err(GridError::OutOfBounds);
        }
        let index = self.to_1d(r, c);
        proof {
            lemma_steps_keep_wf(self@, index as int);
        }
        if self.cells[index].state != CellState::Revealed {
            if self.cells[index].is_lone_cell() {
                self.reveal_region(index);
            } else {
                self.reveal_one(index);
            }
        }
        Ok(())
    }

    /// Reveals, when the cell at `r`, `c` is lone, the region of lone cells
    /// connected to it and every cell bordering that region; changes nothing
    /// for any other cell. Refused, changing nothing, outside the board.
    pub fn reveal_all_lone_cells(&mut self, r: usize, c: usize) -> (res: Result<(), GridError>)
        requires
            old(self)@.wf(),
        ensures
            final(self)@.wf(),
            res is Ok <==> r < old(self)@.rows && c < old(self)@.cols,
            res is Ok ==> final(self)@ == if old(self)@.cells[old(self)@.index(r as int, c as int)].is_lone() {
                old(self)@.cascade(old(self)@.index(r as int, c as int))
            } else {
                old(self)@
            },
            res is Err ==> res == Err::<(), GridError>(GridError::OutOfBounds) && final(self)@ == old(self)@,
    {
        if r >= self.num_rows || c >= self.num_cols {
            return Err(GridError::OutOfBounds);
        }
        let index = self.to_1d(r, c);
        proof {
            lemma_steps_keep_wf(self@, index as int);
        }
        if self.cells[index].is_lone_cell() {
            self.reveal_region(index);
        }
        Ok(())
    }

    /// Gives the cell at `r`, `c` visibility `state` unless it is revealed.
    fn mark_cell(&mut self, r: usize, c: usize, state: CellState) -> (res: Result<(), GridError>)
        requires
            old(self)@.wf(),
            state != CellState::Revealed,
        ensures
            final(self)@.wf(),
            res is Ok <==> r < old(self)@.rows && c < old(self)@.cols,
            res is Ok ==> final(self)@ == old(self)@.mark_at(old(self)@.index(r as int, c as int), state),
            res is Err ==> res == Err::<(), GridError>(GridError::OutOfBounds) && final(self)@ == old(self)@,
    {
        if r >= self.num_rows || c >= self.num_cols {
            return Err(GridError::OutOfBounds);
        }
        let index = self.to_1d(r, c);
        proof {
            lemma_steps_keep_wf(self@, index as int);
        }
        let ghost v = self@;
        if self.cells[index].state != CellState::Revealed {
            let mut cell = self.cells[index];
            cell.state = state;
            self.cells.set(index, cell);
            assert(self@.cells =~= v.with_state(index as int, state).cells);
            assert(v.with_state(index as int, state).wf());
        }
        Ok(())
    }

    /// Flags the cell at `r`, `c`; a revealed cell is left alone. Refused,
    /// changing nothing, outside the board.
    pub fn flag_cell(&mut self, r: usize, c: usize) -> (res: Result<(), GridError>)
        requires
            old(self)@.wf(),
        ensures
            final(self)@.wf(),
            res is Ok <==> r < old(self)@.rows && c < old(self)@.cols,
            res is Ok ==> final(self)@ == old(self)@.mark_at(
                old(self)@.index(r as int, c as int),
                CellState::Marked(CellMarker::Flagged),
            ),
            res is Err ==> res == Err::<(), GridError>(GridError::OutOfBounds) && final(self)@ == old(self)@,
    {
        self.mark_cell(r, c, CellState::Marked(CellMarker::Flagged))
    }

    /// Puts a question mark on the cell at `r`, `c`; a revealed cell is left
    /// alone. Refused, changing nothing, outside the board.
    pub fn question_cell(&mut self, r: usize, c: usize) -> (res: Result<(), GridError>)
        requires
            old(self)@.wf(),
        ensures
            final(self)@.wf(),
            res is Ok <==> r < old(self)@.rows && c < old(self)@.cols,
            res is Ok ==> final(self)@ == old(self)@.mark_at(
                old(self)@.index(r as int, c as int),
                CellState::Marked(CellMarker::Questioned),
            ),
            res is Err ==> res == Err::<(), GridError>(GridError::OutOfBounds) && final(self)@ == old(self)@,
    {
        self.mark_cell(r, c, CellState::Marked(CellMarker::Questioned))
    }

    /// Removes any mark from the cell at `r`, `c`; a revealed cell is left
    /// alone. Refused, changing nothing, outside the board.
    pub fn unmark_cell(&mut self, r: usize, c: usize) -> (res: Result<(), GridError>)
        requires
            old(self)@.wf(),
        ensures
            final(self)@.wf(),
            res is Ok <==> r < old(self)@.rows && c < old(self)@.cols,
            res is Ok ==> final(self)@ == old(self)@.mark_at(old(self)@.index(r as int, c as int), CellState::Hidden),
            res is Err ==> res == Err::<(), GridError>(GridError::OutOfBounds) && final(self)@ == old(self)@,
    {
        self.mark_cell(r, c, CellState::Hidden)
    }

    /// Toggles `mark` on the cell at `r`, `c`: a marked cell is unmarked, a
    /// hidden one is marked, a revealed one is left alone. Refused, changing
    /// nothing, outside the board.
    pub fn toggle_mark(&mut self, r: usize, c: usize, mark: CellMarker) -> (res: Result<(), GridError>)
        requires
            old(self)@.wf(),
        ensures
            final(self)@.wf(),
            res is Ok <==> r < old(self)@.rows && c < old(self)@.cols,
            res is Ok ==> final(self)@ == old(self)@.toggle_at(old(self)@.index(r as int, c as int), mark),
            res is Err ==> res == Err::<(), GridError>(GridError::OutOfBounds) && final(self)@ == old(self)@,
    {
        if r >= self.num_rows || c >= self.num_cols {
            return Err(GridError::OutOfBounds);
        }
        let index = self.to_1d(r, c);
        match self.cells[index].state {
            CellState::Marked(_) => self.unmark_cell(r, c),
            CellState::Hidden => self.mark_cell(r, c, CellState::Marked(mark)),
            CellState::Revealed => Ok(()),
        }
    }

    /// Whether every mined cell is flagged.
    pub fn is_game_won(&self) -> (r: bool)
        ensures
            r == self@.is_won(),
    {
        let n = self.cells.len();
        let mut i: usize = 0;
        while i < n
            invariant
                n == self@.cells.len(),
                i <= n,
                forall|j: int|
                    0 <= j < i && (#[trigger] self@.cells[j]).kind == CellKind::Mine ==> self@.cells[j].state
                        == CellState::Marked(CellMarker::Flagged),
            decreases n - i,
        {
            if self.cells[i].kind == CellKind::Mine && !self.cells[i].is_flagged() {
                return false;
            }
            i = i + 1;
        }
        true
    }

    /// Whether some mined cell is revealed.
    pub fn is_game_lost(&self) -> (r: bool)
        ensures
            r == self@.is_lost(),
    {
        let n = self.cells.len();
        let mut i: usize = 0;
        while i < n
            invariant
                n == self@.cells.len(),
                i <= n,
                forall|j: int|
                    0 <= j < i && (#[trigger] self@.cells[j]).kind == CellKind::Mine ==> self@.cells[j].state
                        != CellState::Revealed,
            decreases n - i,
        {
            if self.cells[i].kind == CellKind::Mine && self.cells[i].state == CellState::Revealed {
                return true;
            }
            i = i + 1;
        }
        false
    }

    /// The cell at `r`, `c`. Refused outside the board.
    pub fn cell_at(&self, r: usize, c: usize) -> (res: Result<Cell, GridError>)
        requires
            self@.wf(),
        ensures
            res is Ok <==> r < self@.rows && c < self@.cols,
            res is Ok ==> res->Ok_0 == self@.cells[self@.index(r as int, c as int)],
            res is Err ==> res == Err::<Cell, GridError>(GridError::OutOfBounds),
    {
        if r >= self.num_rows || c >= self.num_cols {
            return Err(GridError::OutOfBounds);
        }
        let index = self.to_1d(r, c);
        Ok(self.cells[index])
    }

    /// The glyph a player sees at `r`, `c`. Refused outside the board.
    pub fn glyph_at(&self, r: usize, c: usize) -> (res: Result<char, GridError>)
        requires
            self@.wf(),
        ensures
            res is Ok <==> r < self@.rows && c < self@.cols,
            res is Ok ==> res->Ok_0 == self@.cells[self@.index(r as int, c as int)].view_glyph(),
            res is Err ==> res == Err::<char, GridError>(GridError::OutOfBounds),
    {
        if r >= self.num_rows || c >= self.num_cols {
            return Err(GridError::OutOfBounds);
        }
        let index = self.to_1d(r, c);
        proof {
            lemma_counts_at_most_eight(self@, index as int);
        }
        Ok(self.cells[index].glyph())
    }

    /// The diagnostic glyph at `r`, `c`: the kind and count, whatever is
    /// visible. Refused outside the board.
    pub fn debug_glyph_at(&self, r: usize, c: usize) -> (res: Result<char, GridError>)
        requires
            self@.wf(),
        ensures
            res is Ok <==> r < self@.rows && c < self@.cols,
            res is Ok ==> res->Ok_0 == self@.cells[self@.index(r as int, c as int)].view_debug_glyph(),
            res is Err ==> res == Err::<char, GridError>(GridError::OutOfBounds),
    {
        if r >= self.num_rows || c >= self.num_cols {
            return Err(GridError::OutOfBounds);
        }
        let index = self.to_1d(r, c);
        proof {
            lemma_counts_at_most_eight(self@, index as int);
        }
        Ok(self.cells[index].debug_glyph())
    }

    /// Reveals cell `i`, keeping its kind and count.
    fn reveal_one(&mut self, i: usize)
        requires
            i < old(self)@.cells.len(),
        ensures
            final(self)@ == old(self)@.with_state(i as int, CellState::Revealed),
    {
        let mut cell = self.cells[i];
        cell.state = CellState::Revealed;
        self.cells.set(i, cell);
    }

    /// Reveals the region of lone cells connected to lone cell `index` and
    /// every cell that borders it.
    fn reveal_region(&mut self, index: usize)
        requires
            old(self)@.wf(),
            old(self)@.lone(index as int),
        ensures
            final(self)@ == old(self)@.cascade(index as int),
    {
        let conn = self.connected_lone_cell_indices(index);
        let ghost v0 = self@;
        let n = self.cells.len();
        let mut k: usize = 0;
        while k < conn.len()
            invariant
                v0.rows >= 1,
                v0.cols >= 1,
                v0.cells.len() == v0.rows * v0.cols,
                n == v0.cells.len(),
                self.num_rows == v0.rows,
                self.num_cols == v0.cols,
                self.cells@.len() == n,
                k <= conn@.len(),
                forall|t: int| 0 <= t < conn@.len() ==> #[trigger] conn@[t] < n,
                forall|j: int|
                    0 <= j < n ==> #[trigger] self.cells@[j] == if touched(v0, conn@, k as int, j) {
                        revealed(v0.cells[j])
                    } else {
                        v0.cells[j]
                    },
            decreases conn@.len() - k,
        {
            let x = conn[k];
            self.reveal_one(x);
            let adj = Self::adjacent_indices(self.num_rows, self.num_cols, x);
            let mut s: usize = 0;
            while s < adj.len()
                invariant
                    v0.cells.len() == v0.rows * v0.cols,
                    n == v0.cells.len(),
                    self.num_rows == v0.rows,
                    self.num_cols == v0.cols,
                    self.cells@.len() == n,
                    k < conn@.len(),
                    x == conn@[k as int],
                    x < n,
                    s <= adj@.len(),
                    forall|t: int| 0 <= t < adj@.len() ==> (#[trigger] adj@[t]) < n,
                    forall|t: int| 0 <= t < adj@.len() ==> v0.adjacent(x as int, #[trigger] adj@[t] as int),
                    forall|j: int|
                        0 <= j < n ==> #[trigger] self.cells@[j] == if touched(v0, conn@, k as int, j) || j == x
                            || has(adj@.subrange(0, s as int), j) {
                            revealed(v0.cells[j])
                        } else {
                            v0.cells[j]
                        },
                decreases adj@.len() - s,
            {
                let y = adj[s];
                self.reveal_one(y);
                proof {
                    lemma_has_push(adj@.subrange(0, s as int), y);
                    assert(adj@.subrange(0, s as int).push(y) == adj@.subrange(0, s as int + 1));
                }
                s = s + 1;
            }
            proof {
                assert(adj@.subrange(0, adj@.len() as int) == adj@);
                assert forall|j: int| 0 <= j < n implies touched(v0, conn@, k as int + 1, j) == (touched(
                    v0,
                    conn@,
                    k as int,
                    j,
                ) || j == x || has(adj@, j)) by {
                    if touched(v0, conn@, k as int + 1, j) {
                        let t = choose|t: int|
                            0 <= t < k + 1 && (conn@[t] as int == j || v0.adjacent(#[trigger] conn@[t] as int, j));
                        if t == k && j != x {
                            assert(v0.adjacent(x as int, j));
                            assert(adjacent_in(v0.rows, v0.cols, x as int, j));
                        }
                    }
                    if has(adj@, j) {
                        let t = choose|t: int| 0 <= t < adj@.len() && adj@[t] as int == j;
                        assert(v0.adjacent(conn@[k as int] as int, j));
                    }
                    if j == x {
                        assert(conn@[k as int] as int == j);
                    }
                }
            }
            k = k + 1;
        }
        proof {
            assert forall|j: int| 0 <= j < n implies touched(v0, conn@, conn@.len() as int, j) == v0.in_cascade(
                index as int,
                j,
            ) by {
                if touched(v0, conn@, conn@.len() as int, j) {
                    let t = choose|t: int|
                        0 <= t < conn@.len() && (conn@[t] as int == j || v0.adjacent(#[trigger] conn@[t] as int, j));
                    assert(v0.connected(index as int, conn@[t] as int));
                }
                if v0.in_cascade(index as int, j) {
                    let y = choose|y: int| #[trigger] v0.connected(index as int, y) && (y == j || v0.adjacent(y, j));
                    assert(has(conn@, y));
                    let t = choose|t: int| 0 <= t < conn@.len() && conn@[t] as int == y;
                    assert(conn@[t] as int == j || v0.adjacent(conn@[t] as int, j));
                }
            }
            assert(self@.cells =~= v0.cascade(index as int).cells);
        }
    }

    /// Pushes onto `to_visit`, in order, each lone cell among `adj`.
    fn push_lone_cells(&self, adj: &Vec<usize>, to_visit: &mut Vec<usize>)
        requires
            adj@.len() <= 9,
            forall|k: int| 0 <= k < adj@.len() ==> (#[trigger] adj@[k]) < self@.cells.len(),
        ensures
            old(to_visit)@.len() <= final(to_visit)@.len() <= old(to_visit)@.len() + adj@.len(),
            final(to_visit)@.subrange(0, old(to_visit)@.len() as int) == old(to_visit)@,
            forall|k: int|
                old(to_visit)@.len() <= k < final(to_visit)@.len() ==> self@.lone(
                    #[trigger] final(to_visit)@[k] as int,
                ) && exists|s: int| 0 <= s < adj@.len() && adj@[s] == final(to_visit)@[k],
            forall|s: int|
                0 <= s < adj@.len() && self@.lone(adj@[s] as int) ==> has(
                    final(to_visit)@,
                    #[trigger] adj@[s] as int,
                ),
    {
        let ghost start = to_visit@;
        let mut t: usize = 0;
        while t < adj.len()
            invariant
                0 <= t <= adj@.len() <= 9,
                forall|k: int| 0 <= k < adj@.len() ==> (#[trigger] adj@[k]) < self@.cells.len(),
                start.len() <= to_visit@.len() <= start.len() + t,
                to_visit@.subrange(0, start.len() as int) == start,
                forall|k: int|
                    start.len() <= k < to_visit@.len() ==> self@.lone(#[trigger] to_visit@[k] as int)
                        && exists|s: int| 0 <= s < adj@.len() && adj@[s] == to_visit@[k],
                forall|s: int|
                    0 <= s < t && self@.lone(adj@[s] as int) ==> has(to_visit@, #[trigger] adj@[s] as int),
            decreases adj@.len() - t,
        {
            let a = adj[t];
            let ghost pre = to_visit@;
            if self.cells[a].is_lone_cell() {
                to_visit.push(a);
                assert(to_visit@.subrange(0, start.len() as int) =~= pre.subrange(0, start.len() as int));
                assert(to_visit@[pre.len() as int] == adj@[t as int]);
            }
            proof {
                lemma_has_push(pre, a);
            }
            t = t + 1;
        }
    }

    /// The positions of all grid neighbours of cell `index`, in row-major order.
    fn adjacent_indices(num_rows: usize, num_cols: usize, index: usize) -> (r: Vec<usize>)
        requires
            num_rows >= 1,
            num_cols >= 1,
            num_rows * num_cols <= usize::MAX,
            index < num_rows * num_cols,
        ensures
            r@.len() <= 8,
            r@.no_duplicates(),
            forall|a: int, b: int| 0 <= a < b < r@.len() ==> r@[a] < r@[b],
            forall|k: int| 0 <= k < r@.len() ==> (#[trigger] r@[k]) < num_rows * num_cols,
            forall|k: int|
                0 <= k < r@.len() ==> adjacent_in(num_rows as int, num_cols as int, index as int, #[trigger] r@[k] as int),
            forall|j: int|
                adjacent_in(num_rows as int, num_cols as int, index as int, j) ==> has(r@, j),
    {
        let ghost rows = num_rows as int;
        let ghost cols = num_cols as int;
        let r = index / num_cols;
        let c = index % num_cols;
        proof {
            lemma_row_col(rows, cols, index as int);
        }
        let rstart = if r == 0 { 0 } else { r - 1 };
        let cstart = if c == 0 { 0 } else { c - 1 };
        let rend = if r + 1 >= num_rows { num_rows - 1 } else { r + 1 };
        let cend = if c + 1 >= num_cols { num_cols - 1 } else { c + 1 };
        let mut adj: Vec<usize> = Vec::new();
        let mut nr: usize = rstart;
        while nr <= rend
            invariant
                rows == num_rows,
                cols == num_cols,
                num_rows >= 1,
                num_cols >= 1,
                num_rows * num_cols <= usize::MAX,
                index < num_rows * num_cols,
                r == index / num_cols,
                c == index % num_cols,
                index == flat(cols, r as int, c as int),
                r < num_rows,
                c < num_cols,
                rstart == (if r == 0 { 0 } else { r - 1 }),
                cstart == (if c == 0 { 0 } else { c - 1 }),
                rend == (if r + 1 >= num_rows { num_rows - 1 } else { r + 1 }),
                cend == (if c + 1 >= num_cols { num_cols - 1 } else { c + 1 }),
                rstart <= nr <= rend + 1,
                adj@.len() + (if nr > r { 1int } else { 0int }) <= 3 * (nr - rstart),
                forall|k: int|
                    0 <= k < adj@.len() ==> adjacent_in(rows, cols, index as int, #[trigger] adj@[k] as int)
                        && adj@[k] < flat(cols, nr as int, 0),
                forall|a: int, b: int| 0 <= a < b < adj@.len() ==> adj@[a] < adj@[b],
                forall|j: int|
                    adjacent_in(rows, cols, index as int, j) && j / cols < nr ==> has(adj@, j),
            decreases rend + 1 - nr,
        {
            let mut nc: usize = cstart;
            while nc <= cend
                invariant
                    rows == num_rows,
                    cols == num_cols,
                    num_rows >= 1,
                    num_cols >= 1,
                    num_rows * num_cols <= usize::MAX,
                    index < num_rows * num_cols,
                    r == index / num_cols,
                    c == index % num_cols,
                    index == flat(cols, r as int, c as int),
                    r < num_rows,
                    c < num_cols,
                    rstart == (if r == 0 { 0 } else { r - 1 }),
                    cstart == (if c == 0 { 0 } else { c - 1 }),
                    rend == (if r + 1 >= num_rows { num_rows - 1 } else { r + 1 }),
                    cend == (if c + 1 >= num_cols { num_cols - 1 } else { c + 1 }),
                    rstart <= nr <= rend,
                    cstart <= nc <= cend + 1,
                    adj@.len() + (if nr > r || (nr == r && nc > c) { 1int } else { 0int }) <= 3 * (nr
                        - rstart) + (nc - cstart),
                    forall|k: int|
                        0 <= k < adj@.len() ==> adjacent_in(rows, cols, index as int, #[trigger] adj@[k] as int)
                            && adj@[k] < flat(cols, nr as int, nc as int),
                    forall|a: int, b: int| 0 <= a < b < adj@.len() ==> adj@[a] < adj@[b],
                    forall|j: int|
                        adjacent_in(rows, cols, index as int, j) && (j / cols < nr || (j / cols == nr
                            && j % cols < nc)) ==> has(adj@, j),
                decreases cend + 1 - nc,
            {
                proof {
                    lemma_flat(rows, cols, nr as int, nc as int);
                }
                let ghost old_adj = adj@;
                if !(nr == r && nc == c) {
                    adj.push(nr * num_cols + nc);
                    assert(adj@.last() as int == flat(cols, nr as int, nc as int));
                    assert(forall|k: int| 0 <= k < old_adj.len() ==> adj@[k] == old_adj[k]);
                }
                nc = nc + 1;
                assert forall|j: int|
                    adjacent_in(rows, cols, index as int, j) && (j / cols < nr || (j / cols == nr
                        && j % cols < nc)) implies has(adj@, j) by {
                    if j / cols == nr && j % cols == nc - 1 {
                        lemma_row_col(rows, cols, j);
                        assert(j != index);
                        assert(adj@[adj@.len() - 1] as int == j);
                    } else {
                        assert(has(old_adj, j));
                        let k = choose|k: int| 0 <= k < old_adj.len() && old_adj[k] as int == j;
                        assert(adj@[k] == old_adj[k]);
                    }
                }
            }
            assert(flat(cols, nr as int, (cend + 1) as int) <= flat(cols, nr as int + 1, 0)) by (nonlinear_arith)
                requires cend + 1 <= cols;
            assert forall|j: int|
                adjacent_in(rows, cols, index as int, j) && j / cols < nr + 1 implies has(adj@, j) by {
                lemma_row_col(rows, cols, j);
                lemma_row_col(rows, cols, index as int);
            }
            nr = nr + 1;
        }
        proof {
            assert forall|j: int| adjacent_in(rows, cols, index as int, j) implies has(adj@, j) by {
                lemma_row_col(rows, cols, j);
            }
            assert forall|k: int| 0 <= k < adj@.len() implies (#[trigger] adj@[k]) < num_rows * num_cols by {
                assert(adjacent_in(rows, cols, index as int, adj@[k] as int));
            }
        }
        adj
    }
}

} // verus!
