//! Proof tools for the flood fill: walks of lone cells, the frontier of a
//! depth-first search, and counting visited cells.
use crate::grid::{has, GridView};
use vstd::prelude::*;

verus! {

/// The number of `true` entries of `s`.
pub open spec fn count_true(s: Seq<bool>) -> nat
    decreases s.len(),
{
    if s.len() == 0 {
        0
    } else {
        count_true(s.drop_last()) + if s.last() {
            1nat
        } else {
            0nat
        }
    }
}

pub(crate) proof fn lemma_count_true_zero(s: Seq<bool>)
    requires
        forall|j: int| 0 <= j < s.len() ==> !s[j],
    ensures
        count_true(s) == 0,
    decreases s.len(),
{
    if s.len() > 0 {
        lemma_count_true_zero(s.drop_last());
    }
}

pub(crate) proof fn lemma_count_true_bound(s: Seq<bool>)
    ensures
        count_true(s) <= s.len(),
    decreases s.len(),
{
    if s.len() > 0 {
        lemma_count_true_bound(s.drop_last());
    }
}

pub(crate) proof fn lemma_count_true_set(s: Seq<bool>, i: int)
    requires
        0 <= i < s.len(),
        !s[i],
    ensures
        count_true(s.update(i, true)) == count_true(s) + 1,
    decreases s.len(),
{
    let t = s.update(i, true);
    if i == s.len() - 1 {
        assert(t.drop_last() =~= s.drop_last());
    } else {
        assert(t.drop_last() =~= s.drop_last().update(i, true));
        lemma_count_true_set(s.drop_last(), i);
    }
}

/// Every lone neighbour of a visited cell is visited or waits on the stack.
#[verifier::opaque]
pub(crate) open spec fn frontier_closed(v: GridView, vis: Seq<bool>, stack: Seq<usize>) -> bool {
    forall|j: int, y: int|
        0 <= j < vis.len() && vis[j] && #[trigger] v.adjacent(j, y) && v.lone(y) ==> vis[y] || has(stack, y)
}

/// Appending `x` adds exactly `x` to the elements.
pub(crate) proof fn lemma_has_push(s: Seq<usize>, x: usize)
    ensures
        forall|j: int| #[trigger] has(s.push(x), j) <==> has(s, j) || j == x,
{
    assert forall|j: int| #[trigger] has(s.push(x), j) <==> has(s, j) || j == x by {
        if has(s, j) {
            let k = choose|k: int| 0 <= k < s.len() && s[k] as int == j;
            assert(s.push(x)[k] == s[k]);
        }
        if j == x {
            assert(s.push(x)[s.len() as int] == x);
        }
        if has(s.push(x), j) && j != x {
            let k = choose|k: int| 0 <= k < s.len() + 1 && s.push(x)[k] as int == j;
            assert(s[k] == s.push(x)[k]);
        }
    }
}

/// A list that starts with `base` has every element of `base`.
pub(crate) proof fn lemma_has_prefix(base: Seq<usize>, s: Seq<usize>, j: int)
    requires
        base.len() <= s.len(),
        s.subrange(0, base.len() as int) == base,
        has(base, j),
    ensures
        has(s, j),
{
    let k = choose|k: int| 0 <= k < base.len() && base[k] as int == j;
    assert(s.subrange(0, base.len() as int)[k] == s[k]);
}

/// Popping a cell that is already visited keeps the frontier closed.
pub(crate) proof fn lemma_frontier_pop_visited(v: GridView, vis: Seq<bool>, base: Seq<usize>, cur: int)
    requires
        frontier_closed(v, vis, base.push(cur as usize)),
        0 <= cur < vis.len(),
        vis[cur],
        forall|j: int| #[trigger] has(base.push(cur as usize), j) <==> has(base, j) || j == cur,
    ensures
        frontier_closed(v, vis, base),
{
    reveal(frontier_closed);
}

/// Visiting `cur` and stacking all its lone neighbours keeps the frontier closed.
pub(crate) proof fn lemma_frontier_visit(v: GridView, vis: Seq<bool>, base: Seq<usize>, cur: int, stack: Seq<usize>)
    requires
        vis.len() == v.cells.len(),
        frontier_closed(v, vis, base.push(cur as usize)),
        0 <= cur < vis.len(),
        forall|j: int| #[trigger] has(base.push(cur as usize), j) <==> has(base, j) || j == cur,
        base.len() <= stack.len(),
        stack.subrange(0, base.len() as int) == base,
        forall|y: int| v.adjacent(cur, y) && v.lone(y) ==> has(stack, y),
    ensures
        frontier_closed(v, vis.update(cur, true), stack),
{
    reveal(frontier_closed);
    let w = vis.update(cur, true);
    assert forall|j: int, y: int|
        0 <= j < w.len() && w[j] && #[trigger] v.adjacent(j, y) && v.lone(y) implies w[y] || has(stack, y) by {
        if j != cur {
            if !w[y] {
                assert(vis[j]);
                assert(!vis[y]);
                assert(has(base.push(cur as usize), y));
                lemma_has_prefix(base, stack, y);
            }
        }
    }
}

/// A closed frontier with an empty stack holds every lone cell reached from a visited cell.
pub(crate) proof fn lemma_frontier_done(v: GridView, vis: Seq<bool>, stack: Seq<usize>)
    requires
        frontier_closed(v, vis, stack),
        stack.len() == 0,
    ensures
        forall|j: int, y: int|
            0 <= j < vis.len() && vis[j] && #[trigger] v.adjacent(j, y) && v.lone(y) ==> vis[y],
{
    reveal(frontier_closed);
}

/// A lone cell reached from `o` extends its walk to any lone neighbour.
pub(crate) proof fn lemma_connected_step(v: GridView, o: int, x: int, y: int)
    requires
        v.connected(o, x),
        v.adjacent(x, y),
        v.lone(y),
    ensures
        v.connected(o, y),
{
    reveal(GridView::lone_path);
    let p = choose|p: Seq<int>| #[trigger] v.lone_path(p) && p[0] == o && p.last() == x;
    let q = p.push(y);
    assert forall|k: int| 0 <= k < q.len() - 1 implies v.adjacent(#[trigger] q[k], q[k + 1]) by {
        if k < p.len() - 1 {
            assert(v.adjacent(p[k], p[k + 1]));
        }
    }
    assert forall|k: int| 0 <= k < q.len() implies v.lone(#[trigger] q[k]) by {
        if k < p.len() {
            assert(v.lone(p[k]));
        }
    }
    assert(v.lone_path(q));
}

/// A lone cell is reached from itself.
pub(crate) proof fn lemma_connected_self(v: GridView, o: int)
    requires
        v.lone(o),
    ensures
        v.connected(o, o),
{
    reveal(GridView::lone_path);
    let p = seq![o];
    assert(v.lone_path(p));
}

/// A set of cells that holds `o` and every lone neighbour of its members holds
/// every lone cell reached from `o`.
pub(crate) proof fn lemma_closed_holds_connected(v: GridView, o: int, vis: Seq<bool>, x: int)
    requires
        vis.len() == v.cells.len(),
        0 <= o < vis.len(),
        vis[o],
        forall|j: int, y: int|
            0 <= j < vis.len() && vis[j] && #[trigger] v.adjacent(j, y) && v.lone(y) ==> vis[y],
        v.connected(o, x),
    ensures
        0 <= x < vis.len() && vis[x],
{
    reveal(GridView::lone_path);
    let p = choose|p: Seq<int>| #[trigger] v.lone_path(p) && p[0] == o && p.last() == x;
    lemma_walk_stays_in(v, vis, p, p.len() - 1);
}

pub(crate) proof fn lemma_walk_stays_in(v: GridView, vis: Seq<bool>, p: Seq<int>, k: int)
    requires
        vis.len() == v.cells.len(),
        v.lone_path(p),
        0 <= p[0] < vis.len(),
        vis[p[0]],
        forall|j: int, y: int|
            0 <= j < vis.len() && vis[j] && #[trigger] v.adjacent(j, y) && v.lone(y) ==> vis[y],
        0 <= k < p.len(),
    ensures
        0 <= p[k] < vis.len() && vis[p[k]],
    decreases k,
{
    reveal(GridView::lone_path);
    if k > 0 {
        lemma_walk_stays_in(v, vis, p, k - 1);
        assert(v.adjacent(p[k - 1], p[k]));
        assert(v.lone(p[k]));
    }
}

} // verus!
