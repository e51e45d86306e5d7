//! Laws of the board that relate several operations or hold of every board.
use crate::cell::{CellKind, CellMarker, CellState};
use crate::flood::{lemma_connected_self, lemma_connected_step};
use crate::grid::{flat, lemma_flat, lemma_flat_all, lemma_row_col, revealed, GridView};
use vstd::prelude::*;

verus! {

/// Revealing a cell twice leaves the board as revealing it once does.
pub proof fn lemma_reveal_idempotent(v: GridView, i: int)
    requires
        v.wf(),
        0 <= i < v.cells.len(),
    ensures
        v.reveal_at(i).reveal_at(i) == v.reveal_at(i),
{
    let w = v.reveal_at(i);
    if v.cells[i].state != CellState::Revealed {
        if v.cells[i].is_lone() {
            lemma_connected_self(v, i);
            assert(v.in_cascade(i, i));
            assert(w.cells[i] == revealed(v.cells[i]));
        } else {
            assert(w.cells[i] == revealed(v.cells[i]));
        }
    }
}

/// Revealing a lone cell leaves the whole region of lone cells connected to
/// it revealed, each with no adjacent mine, and the one-layer fringe bordering
/// that region revealed too; a fringe cell outside the region is not lone; no
/// other cell changes.
pub proof fn lemma_cascade_region(v: GridView, i: int)
    requires
        v.wf(),
        v.lone(i),
    ensures
        forall|j: int|
            #[trigger] v.connected(i, j) ==> v.reveal_at(i).cells[j].state == CellState::Revealed
                && v.reveal_at(i).cells[j].kind == CellKind::Empty
                && v.reveal_at(i).cells[j].adj_mine_count == 0,
        forall|y: int, j: int|
            v.connected(i, y) && #[trigger] v.adjacent(y, j) ==> v.reveal_at(i).cells[j].state
                == CellState::Revealed,
        forall|y: int, j: int|
            v.connected(i, y) && #[trigger] v.adjacent(y, j) && !v.connected(i, j) ==> !v.cells[j].is_lone(),
        forall|j: int|
            0 <= j < v.cells.len() && !v.in_cascade(i, j) ==> #[trigger] v.reveal_at(i).cells[j] == v.cells[j],
{
    let w = v.reveal_at(i);
    if v.cells[i].state == CellState::Revealed {
        assert forall|j: int| #[trigger] v.connected(i, j) implies v.cells[j].state == CellState::Revealed by {
            lemma_closed_region_revealed(v, i, j);
        }
    }
    assert forall|j: int| #[trigger] v.connected(i, j) implies w.cells[j].state == CellState::Revealed
        && w.cells[j].kind == CellKind::Empty && w.cells[j].adj_mine_count == 0 by {
        lemma_connected_ends_lone(v, i, j);
        assert(v.in_cascade(i, j));
    }
    assert forall|y: int, j: int| v.connected(i, y) && #[trigger] v.adjacent(y, j) implies w.cells[j].state
        == CellState::Revealed by {
        assert(v.in_cascade(i, j));
        lemma_connected_ends_lone(v, i, y);
    }
    assert forall|y: int, j: int|
        v.connected(i, y) && #[trigger] v.adjacent(y, j) && !v.connected(i, j) implies !v.cells[j].is_lone() by {
        if v.cells[j].is_lone() {
            lemma_connected_step(v, i, y, j);
        }
    }
}

/// On a well-formed board, every lone cell reached from a revealed lone cell
/// is revealed.
proof fn lemma_closed_region_revealed(v: GridView, o: int, x: int)
    requires
        v.wf(),
        v.lone(o),
        v.cells[o].state == CellState::Revealed,
        v.connected(o, x),
    ensures
        v.cells[x].state == CellState::Revealed,
{
    reveal(GridView::lone_path);
    let p = choose|p: Seq<int>| #[trigger] v.lone_path(p) && p[0] == o && p.last() == x;
    lemma_walk_revealed(v, p, p.len() - 1);
}

proof fn lemma_walk_revealed(v: GridView, p: Seq<int>, k: int)
    requires
        v.wf(),
        v.lone_path(p),
        v.cells[p[0]].state == CellState::Revealed,
        0 <= k < p.len(),
    ensures
        v.cells[p[k]].state == CellState::Revealed,
    decreases k,
{
    reveal(GridView::lone_path);
    if k > 0 {
        lemma_walk_revealed(v, p, k - 1);
        assert(v.adjacent(p[k - 1], p[k]));
        assert(v.lone(p[k - 1]));
    }
}

/// The last cell of a walk of lone cells is lone and on the board.
proof fn lemma_connected_ends_lone(v: GridView, o: int, x: int)
    requires
        v.connected(o, x),
    ensures
        v.lone(x),
{
    reveal(GridView::lone_path);
    let p = choose|p: Seq<int>| #[trigger] v.lone_path(p) && p[0] == o && p.last() == x;
    assert(v.lone(p[p.len() - 1]));
}

/// Revealing a mined cell loses the game, and once lost a game stays lost
/// under every operation: reveal, the cascade, flag, question mark, unmark
/// and toggle.
pub proof fn lemma_loss_is_permanent(v: GridView, i: int, s: CellState, m: CellMarker)
    requires
        v.wf(),
        0 <= i < v.cells.len(),
    ensures
        v.cells[i].kind == CellKind::Mine ==> v.reveal_at(i).is_lost(),
        v.is_lost() ==> v.reveal_at(i).is_lost(),
        v.is_lost() ==> v.cascade(i).is_lost(),
        v.is_lost() ==> v.mark_at(i, s).is_lost(),
        v.is_lost() ==> v.toggle_at(i, m).is_lost(),
{
    if v.cells[i].kind == CellKind::Mine {
        assert(v.reveal_at(i).cells[i].state == CellState::Revealed);
        assert(v.reveal_at(i).cells[i].kind == CellKind::Mine);
    }
    if v.is_lost() {
        let j = choose|j: int|
            0 <= j < v.cells.len() && (#[trigger] v.cells[j]).kind == CellKind::Mine
                && v.cells[j].state == CellState::Revealed;
        assert(v.reveal_at(i).cells[j].kind == CellKind::Mine);
        assert(v.reveal_at(i).cells[j].state == CellState::Revealed);
        assert(v.cascade(i).cells[j].kind == CellKind::Mine);
        assert(v.mark_at(i, s).cells[j].kind == CellKind::Mine);
        assert(v.mark_at(i, s).cells[j].state == CellState::Revealed);
        assert(v.toggle_at(i, m).cells[j].kind == CellKind::Mine);
        assert(v.toggle_at(i, m).cells[j].state == CellState::Revealed);
    }
}

/// `s` with the position of row `a`, column `b` added when that cell exists and holds a mine.
spec fn add_mine(v: GridView, s: Set<int>, a: int, b: int) -> Set<int> {
    if v.mine_at(a, b) == 1 {
        s.insert(flat(v.cols, a, b))
    } else {
        s
    }
}

/// Adding a mined cell that is not yet in a finite set grows it by one.
proof fn lemma_add_mine(v: GridView, s: Set<int>, a: int, b: int)
    requires
        s.finite(),
        v.mine_at(a, b) == 1 ==> !s.contains(flat(v.cols, a, b)),
    ensures
        add_mine(v, s, a, b).finite(),
        add_mine(v, s, a, b).len() == s.len() + v.mine_at(a, b),
        forall|x: int|
            #[trigger] add_mine(v, s, a, b).contains(x) <==> s.contains(x) || (v.mine_at(a, b) == 1 && x
                == flat(v.cols, a, b)),
{
}

/// The mined cells among the eight grid neighbours of row `r`, column `c`.
spec fn window_mines(v: GridView, r: int, c: int) -> Set<int> {
    let s1 = add_mine(v, Set::empty(), r - 1, c - 1);
    let s2 = add_mine(v, s1, r - 1, c);
    let s3 = add_mine(v, s2, r - 1, c + 1);
    let s4 = add_mine(v, s3, r, c - 1);
    let s5 = add_mine(v, s4, r, c + 1);
    let s6 = add_mine(v, s5, r + 1, c - 1);
    let s7 = add_mine(v, s6, r + 1, c);
    add_mine(v, s7, r + 1, c + 1)
}

/// A cell inside the board is at its row and column.
proof fn lemma_flat_if_in(v: GridView, a: int, b: int)
    ensures
        v.in_bounds(a, b) ==> flat(v.cols, a, b) / v.cols == a && flat(v.cols, a, b) % v.cols == b,
{
    if v.in_bounds(a, b) {
        lemma_flat(v.rows, v.cols, a, b);
    }
}

/// The eight neighbours are distinct cells, so the window holds as many cells
/// as there are mines around.
#[verifier::spinoff_prover]
proof fn lemma_window_len(v: GridView, r: int, c: int)
    requires
        v.cols >= 1,
    ensures
        window_mines(v, r, c).finite(),
        window_mines(v, r, c).len() == v.mines_around(r, c),
{
    lemma_flat_if_in(v, r - 1, c - 1);
    lemma_flat_if_in(v, r - 1, c);
    lemma_flat_if_in(v, r - 1, c + 1);
    lemma_flat_if_in(v, r, c - 1);
    lemma_flat_if_in(v, r, c + 1);
    lemma_flat_if_in(v, r + 1, c - 1);
    lemma_flat_if_in(v, r + 1, c);
    lemma_flat_if_in(v, r + 1, c + 1);
    let s1 = add_mine(v, Set::empty(), r - 1, c - 1);
    let s2 = add_mine(v, s1, r - 1, c);
    let s3 = add_mine(v, s2, r - 1, c + 1);
    let s4 = add_mine(v, s3, r, c - 1);
    let s5 = add_mine(v, s4, r, c + 1);
    let s6 = add_mine(v, s5, r + 1, c - 1);
    let s7 = add_mine(v, s6, r + 1, c);
    lemma_add_mine(v, Set::empty(), r - 1, c - 1);
    lemma_add_mine(v, s1, r - 1, c);
    lemma_add_mine(v, s2, r - 1, c + 1);
    lemma_add_mine(v, s3, r, c - 1);
    lemma_add_mine(v, s4, r, c + 1);
    lemma_add_mine(v, s5, r + 1, c - 1);
    lemma_add_mine(v, s6, r + 1, c);
    lemma_add_mine(v, s7, r + 1, c + 1);
}

/// The window around cell `i` holds exactly its mined grid neighbours.
#[verifier::spinoff_prover]
proof fn lemma_window_members(v: GridView, i: int, j: int)
    requires
        v.wf(),
        0 <= i < v.cells.len(),
    ensures
        v.neighbour_mines(i).contains(j) <==> window_mines(v, i / v.cols, i % v.cols).contains(j),
{
    let rows = v.rows;
    let cols = v.cols;
    lemma_row_col(rows, cols, i);
    let r = i / cols;
    let c = i % cols;
    let s1 = add_mine(v, Set::empty(), r - 1, c - 1);
    let s2 = add_mine(v, s1, r - 1, c);
    let s3 = add_mine(v, s2, r - 1, c + 1);
    let s4 = add_mine(v, s3, r, c - 1);
    let s5 = add_mine(v, s4, r, c + 1);
    let s6 = add_mine(v, s5, r + 1, c - 1);
    let s7 = add_mine(v, s6, r + 1, c);
    let s8 = add_mine(v, s7, r + 1, c + 1);
    assert(s8.contains(j) <==> (v.mine_at(r - 1, c - 1) == 1 && j == flat(cols, r - 1, c - 1))
        || (v.mine_at(r - 1, c) == 1 && j == flat(cols, r - 1, c))
        || (v.mine_at(r - 1, c + 1) == 1 && j == flat(cols, r - 1, c + 1))
        || (v.mine_at(r, c - 1) == 1 && j == flat(cols, r, c - 1))
        || (v.mine_at(r, c + 1) == 1 && j == flat(cols, r, c + 1))
        || (v.mine_at(r + 1, c - 1) == 1 && j == flat(cols, r + 1, c - 1))
        || (v.mine_at(r + 1, c) == 1 && j == flat(cols, r + 1, c))
        || (v.mine_at(r + 1, c + 1) == 1 && j == flat(cols, r + 1, c + 1)));
    if v.neighbour_mines(i).contains(j) {
        lemma_row_col(rows, cols, j);
        assert(v.mine_at(j / cols, j % cols) == 1);
    }
    if s8.contains(j) {
        lemma_flat_if_in(v, r - 1, c - 1);
        lemma_flat_if_in(v, r - 1, c);
        lemma_flat_if_in(v, r - 1, c + 1);
        lemma_flat_if_in(v, r, c - 1);
        lemma_flat_if_in(v, r, c + 1);
        lemma_flat_if_in(v, r + 1, c - 1);
        lemma_flat_if_in(v, r + 1, c);
        lemma_flat_if_in(v, r + 1, c + 1);
        lemma_flat_all(v.rows, v.cols);
    }
}

/// Every cell's adjacent mine count is the number of its mined grid
/// neighbours, counted as a set: the count a brute-force recount gives.
pub proof fn lemma_count_is_neighbour_mines(v: GridView, i: int)
    requires
        v.wf(),
        0 <= i < v.cells.len(),
    ensures
        v.neighbour_mines(i).finite(),
        v.cells[i].adj_mine_count == v.neighbour_mines(i).len(),
{
    reveal(GridView::counts_exact);
    let r = i / v.cols;
    let c = i % v.cols;
    lemma_window_len(v, r, c);
    assert forall|j: int| #[trigger] v.neighbour_mines(i).contains(j) <==> window_mines(v, r, c).contains(j) by {
        lemma_window_members(v, i, j);
    }
    assert(v.neighbour_mines(i) =~= window_mines(v, r, c));
}

/// Boards with the same cells kinds, cell by cell, have their mines at the same positions.
proof fn lemma_same_kinds_same_mines(a: GridView, b: GridView, t: int)
    requires
        0 <= t <= a.cells.len(),
        b.cells.len() == a.cells.len(),
        forall|j: int| 0 <= j < a.cells.len() ==> (#[trigger] b.cells[j]).kind == a.cells[j].kind,
    ensures
        b.mines_upto(t) == a.mines_upto(t),
    decreases t,
{
    if t > 0 {
        lemma_same_kinds_same_mines(a, b, t - 1);
        assert(b.cells[t - 1].kind == a.cells[t - 1].kind);
    }
}

/// No move adds, removes or shifts a mine: revealing, the cascade, marking
/// and toggling keep every mine position, so a board keeps the number of
/// mines it was laid out with whatever moves are played on it.
pub proof fn lemma_moves_keep_mines(v: GridView, i: int, s: CellState, m: CellMarker)
    requires
        v.wf(),
        0 <= i < v.cells.len(),
    ensures
        v.reveal_at(i).mine_positions() == v.mine_positions(),
        v.cascade(i).mine_positions() == v.mine_positions(),
        v.mark_at(i, s).mine_positions() == v.mine_positions(),
        v.toggle_at(i, m).mine_positions() == v.mine_positions(),
{
    let n = v.cells.len() as int;
    lemma_same_kinds_same_mines(v, v.cascade(i), n);
    lemma_same_kinds_same_mines(v, v.with_state(i, CellState::Revealed), n);
    lemma_same_kinds_same_mines(v, v.with_state(i, s), n);
    lemma_same_kinds_same_mines(v, v.with_state(i, CellState::Hidden), n);
    lemma_same_kinds_same_mines(v, v.with_state(i, CellState::Marked(m)), n);
}

/// Toggling a marker on a hidden cell marks it with that marker, and toggling
/// the same marker again gives back the board as it was.
pub proof fn lemma_toggle_twice(v: GridView, i: int, m: CellMarker)
    requires
        0 <= i < v.cells.len(),
        v.cells[i].state == CellState::Hidden,
    ensures
        v.toggle_at(i, m).cells[i].state == CellState::Marked(m),
        v.toggle_at(i, m).toggle_at(i, m) == v,
{
    let w = v.toggle_at(i, m);
    assert(w.cells[i].state == CellState::Marked(m));
    assert(w.toggle_at(i, m).cells =~= v.cells);
}

} // verus!
