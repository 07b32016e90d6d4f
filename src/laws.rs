use vstd::prelude::*;

use crate::grid::GridView;
use crate::node::{abs_diff, lemma_octile_step, max_int, octile, NodeStates};

verus! {

/// Octile distance between cells `a` and `b` of `v`.
pub open spec fn cell_octile(v: GridView, a: int, b: int) -> int {
    octile(v.nodes[a].x as int, v.nodes[a].y as int, v.nodes[b].x as int, v.nodes[b].y as int)
}

/// The longer of the two axis distances between cells `a` and `b` of `v`.
pub open spec fn cell_chebyshev(v: GridView, a: int, b: int) -> int {
    max_int(
        abs_diff(v.nodes[a].x as int, v.nodes[b].x as int),
        abs_diff(v.nodes[a].y as int, v.nodes[b].y as int),
    )
}

/// The heuristic is admissible: every walk costs at least the octile
/// distance between its first and last cells, and visits at least one cell
/// more than the longer axis distance between them.
pub proof fn lemma_heuristic_admissible(v: GridView, p: Seq<int>)
    requires
        v.wf(),
        v.is_walk(p),
    ensures
        v.walk_cost(p) >= cell_octile(v, p[0], p.last()),
        p.len() >= cell_chebyshev(v, p[0], p.last()) + 1,
    decreases p.len(),
{
    if p.len() > 1 {
        let q = p.drop_last();
        assert forall|k: int| 0 <= k < q.len() implies 0 <= #[trigger] q[k] < v.nodes.len()
            && v.passable(q[k]) by {
            assert(q[k] == p[k]);
        }
        assert forall|k: int| 0 <= k < q.len() - 1 implies v.adjacent(#[trigger] q[k], q[k + 1]) by {
            assert(q[k] == p[k] && q[k + 1] == p[k + 1]);
        }
        lemma_heuristic_admissible(v, q);
        let a = p[p.len() - 2];
        let b = p.last();
        assert(v.adjacent(p[p.len() - 2], p[p.len() - 2 + 1]));
        lemma_octile_step(
            v.nodes[p[0]].x as int,
            v.nodes[p[0]].y as int,
            v.nodes[a].x as int,
            v.nodes[a].y as int,
            v.nodes[b].x as int,
            v.nodes[b].y as int,
        );
        assert(q[0] == p[0] && q.last() == a);
        assert(v.walk_cost(p) == v.walk_cost(q) + crate::node::step_cost(v.diagonal(a, b)));
    } else {
        crate::node::lemma_octile_value(
            v.nodes[p[0]].x as int,
            v.nodes[p[0]].y as int,
            v.nodes[p[0]].x as int,
            v.nodes[p[0]].y as int,
        );
        assert(cell_chebyshev(v, p[0], p.last()) == 0);
    }
}

/// Whatever path a search returns costs at least the octile distance from the
/// start to the end, and holds at least one cell more than the longer axis
/// distance between them.
pub proof fn lemma_found_path_at_least_octile(before: GridView, after: GridView)
    requires
        before.wf(),
        before.searched_into(after),
        after.path.len() > 0,
    ensures
        before.walk_cost(after.path) >= cell_octile(before, before.start, before.end),
        after.path.len() >= cell_chebyshev(before, before.start, before.end) + 1,
{
    lemma_heuristic_admissible(before, after.path);
}

/// A search finds a path exactly when some route joins the start to the end:
/// walls that cut every route leave the path empty.
pub proof fn lemma_path_found_iff_reachable(before: GridView, after: GridView)
    requires
        before.wf(),
        before.searched_into(after),
    ensures
        after.path.len() > 0 <==> before.reachable(),
{
    if after.path.len() > 0 {
        assert(before.is_route(after.path));
    }
}

/// When the start and the end are one cell, a search returns that cell alone.
pub proof fn lemma_start_is_end(before: GridView, after: GridView)
    requires
        before.wf(),
        before.searched_into(after),
        before.start == before.end,
    ensures
        after.path == seq![before.start],
{
}

/// A search leaves what the next search depends on as it was: the
/// dimensions, the start, the end, which cells may be entered, and hence the
/// set of routes.
pub proof fn lemma_search_keeps_its_inputs(before: GridView, after: GridView)
    requires
        before.wf(),
        before.searched_into(after),
    ensures
        after.width == before.width,
        after.height == before.height,
        after.start == before.start,
        after.end == before.end,
        forall|i: int| 0 <= i < before.nodes.len() ==> #[trigger] after.passable(i) == before.passable(i),
        forall|p: Seq<int>| #[trigger] after.is_route(p) == before.is_route(p),
{
    assert forall|i: int| 0 <= i < before.nodes.len() implies #[trigger] after.passable(i)
        == before.passable(i) by {
        assert(after.nodes[i] == (crate::node::Node {
            state: before.marked_state(after.path, i),
            ..before.nodes[i]
        }));
        if GridView::on_path_before_last(after.path, i) {
            let k = choose|k: int| 0 <= k < after.path.len() - 1 && #[trigger] after.path[k] == i;
            assert(before.is_route(after.path));
            assert(before.passable(after.path[k]));
        }
    }
    assert forall|p: Seq<int>| #[trigger] after.is_route(p) == before.is_route(p) by {
        assert forall|a: int, b: int|
            0 <= a < before.nodes.len() && 0 <= b < before.nodes.len() implies #[trigger] after.adjacent(a, b)
            == before.adjacent(a, b) by {
            assert(after.nodes[a].x == before.nodes[a].x && after.nodes[a].y == before.nodes[a].y);
            assert(after.nodes[b].x == before.nodes[b].x && after.nodes[b].y == before.nodes[b].y);
        }
        if after.is_route(p) {
            assert forall|k: int| 0 <= k < p.len() implies 0 <= #[trigger] p[k] < before.nodes.len()
                && before.passable(p[k]) by {
                assert(after.passable(p[k]));
            }
            assert forall|k: int| 0 <= k < p.len() - 1 implies before.adjacent(#[trigger] p[k], p[k + 1]) by {
                assert(after.adjacent(p[k], p[k + 1]));
            }
        }
        if before.is_route(p) {
            assert forall|k: int| 0 <= k < p.len() implies 0 <= #[trigger] p[k] < after.nodes.len()
                && after.passable(p[k]) by {
                assert(before.passable(p[k]));
            }
            assert forall|k: int| 0 <= k < p.len() - 1 implies after.adjacent(#[trigger] p[k], p[k + 1]) by {
                assert(before.adjacent(p[k], p[k + 1]));
            }
        }
    }
}

/// Two grids whose cells sit at the same places price every walk alike.
pub proof fn lemma_walk_cost_same_cells(a: GridView, b: GridView, p: Seq<int>)
    requires
        a.nodes.len() == b.nodes.len(),
        forall|i: int|
            0 <= i < a.nodes.len() ==> #[trigger] a.nodes[i].x == b.nodes[i].x && a.nodes[i].y
                == b.nodes[i].y,
        forall|k: int| 0 <= k < p.len() ==> 0 <= #[trigger] p[k] < a.nodes.len(),
    ensures
        a.walk_cost(p) == b.walk_cost(p),
    decreases p.len(),
{
    if p.len() > 1 {
        let q = p.drop_last();
        assert forall|k: int| 0 <= k < q.len() implies 0 <= #[trigger] q[k] < a.nodes.len() by {
            assert(q[k] == p[k]);
        }
        lemma_walk_cost_same_cells(a, b, q);
        assert(a.nodes[p[p.len() - 2]].x == b.nodes[p[p.len() - 2]].x);
        assert(a.nodes[p[p.len() - 1]].x == b.nodes[p[p.len() - 1]].x);
    }
}

/// Two searches in a row return paths of the same cost: both are cheapest
/// routes over the same set of routes, and both are empty exactly when no
/// route exists. Which of several equally cheap routes is returned is not
/// stated here.
pub proof fn lemma_repeat_search_same_cost(first: GridView, second: GridView, third: GridView)
    requires
        first.wf(),
        first.searched_into(second),
        second.wf(),
        second.searched_into(third),
    ensures
        third.path.len() > 0 <==> second.path.len() > 0,
        second.path.len() > 0 ==> first.walk_cost(third.path) == first.walk_cost(second.path),
{
    lemma_search_keeps_its_inputs(first, second);
    if second.path.len() > 0 {
        assert(first.is_route(second.path));
        assert(second.is_route(second.path));
        assert(third.path.len() > 0);
        assert(second.is_route(third.path));
        assert(first.is_route(third.path));
        assert forall|i: int| 0 <= i < first.nodes.len() implies #[trigger] first.nodes[i].x
            == second.nodes[i].x && first.nodes[i].y == second.nodes[i].y by {
            assert(first.cell_ok(i));
            assert(second.nodes[i] == (crate::node::Node {
                state: first.marked_state(second.path, i),
                ..first.nodes[i]
            }));
        }
        lemma_walk_cost_same_cells(first, second, third.path);
        lemma_walk_cost_same_cells(first, second, second.path);
    } else {
        if third.path.len() > 0 {
            assert(second.is_route(third.path));
            assert(first.is_route(third.path));
        }
    }
}

/// Adding a wall to a DEFAULT cell and removing it again gives back the grid
/// as it was.
pub proof fn lemma_wall_round_trip(g: GridView, x: int, y: int)
    requires
        g.wf(),
        g.in_bounds(x, y),
        g.state(g.index_of(x, y)) == NodeStates::DEFAULT,
    ensures
        g.with_wall(g.index_of(x, y)).without_wall(g.index_of(x, y)) == g,
{
    let i = g.index_of(x, y);
    crate::grid::lemma_index_in_range(g.width, g.height, x, y);
    let w = g.with_wall(i);
    assert(w.state(i) == NodeStates::WALL);
    assert(w.without_wall(i).nodes =~= g.nodes);
}

/// Clearing the path after a successful search turns every PATH cell back
/// into DEFAULT and gives every WALL, START and END cell the state it had
/// before the search. A wall at the start cell is left out: the search walks
/// from it and marks it.
pub proof fn lemma_clear_after_search(before: GridView, after: GridView)
    requires
        before.wf(),
        before.searched_into(after),
        after.path.len() > 0,
        before.state(before.start) != NodeStates::WALL,
    ensures
        forall|i: int|
            0 <= i < before.nodes.len() && after.state(i) == NodeStates::PATH ==> #[trigger] after.path_cleared().state(i)
                == NodeStates::DEFAULT,
        forall|i: int|
            0 <= i < before.nodes.len() && (before.state(i) == NodeStates::WALL || before.state(i)
                == NodeStates::START || before.state(i) == NodeStates::END) ==> #[trigger] after.path_cleared().state(i)
                == before.state(i),
{
    assert forall|i: int|
        0 <= i < before.nodes.len() && (before.state(i) == NodeStates::WALL || before.state(i)
            == NodeStates::START || before.state(i) == NodeStates::END) implies #[trigger] after.path_cleared().state(i)
            == before.state(i) by {
        assert(after.nodes[i] == (crate::node::Node {
            state: before.marked_state(after.path, i),
            ..before.nodes[i]
        }));
        if GridView::on_path_before_last(after.path, i) {
            let k = choose|k: int| 0 <= k < after.path.len() - 1 && #[trigger] after.path[k] == i;
            assert(before.passable(after.path[k]));
            if before.state(i) == NodeStates::END {
                assert(after.path[after.path.len() - 1] == i);
            }
        }
    }
}

/// Sign of `d`: -1, 0 or 1.
pub open spec fn sign(d: int) -> int {
    if d > 0 {
        1
    } else if d < 0 {
        -1
    } else {
        0
    }
}

/// The walk that steps from column `x`, row `y` straight towards column
/// `tx`, row `ty`, diagonally while both coordinates differ.
pub open spec fn beeline(v: GridView, x: int, y: int, tx: int, ty: int) -> Seq<int>
    decreases max_int(abs_diff(x, tx), abs_diff(y, ty)),
{
    if x == tx && y == ty {
        seq![v.index_of(x, y)]
    } else {
        seq![v.index_of(x, y)] + beeline(v, x + sign(tx - x), y + sign(ty - y), tx, ty)
    }
}

/// Every grid without walls holds, between any two cells, a walk whose
/// cost is their octile distance.
pub proof fn lemma_beeline(v: GridView, x: int, y: int, tx: int, ty: int)
    requires
        v.wf(),
        v.in_bounds(x, y),
        v.in_bounds(tx, ty),
        forall|i: int| 0 <= i < v.nodes.len() ==> #[trigger] v.nodes[i].state != NodeStates::WALL,
    ensures
        v.is_walk(beeline(v, x, y, tx, ty)),
        beeline(v, x, y, tx, ty)[0] == v.index_of(x, y),
        beeline(v, x, y, tx, ty).last() == v.index_of(tx, ty),
        v.walk_cost(beeline(v, x, y, tx, ty)) == octile(x, y, tx, ty),
    decreases max_int(abs_diff(x, tx), abs_diff(y, ty)),
{
    let a = v.index_of(x, y);
    lemma_cell_at(v, x, y);
    if x == tx && y == ty {
        crate::node::lemma_octile_value(x, y, tx, ty);
    } else {
        let nx = x + sign(tx - x);
        let ny = y + sign(ty - y);
        lemma_beeline(v, nx, ny, tx, ty);
        lemma_cell_at(v, nx, ny);
        let rest = beeline(v, nx, ny, tx, ty);
        let g = beeline(v, x, y, tx, ty);
        assert(g == seq![a] + rest);
        assert(v.adjacent(a, rest[0]));
        assert forall|k: int| 0 <= k < g.len() implies 0 <= #[trigger] g[k] < v.nodes.len() && v.passable(g[k]) by {
            if k > 0 {
                assert(g[k] == rest[k - 1]);
            }
        }
        assert forall|k: int| 0 <= k < g.len() - 1 implies v.adjacent(#[trigger] g[k], g[k + 1]) by {
            if k > 0 {
                assert(g[k] == rest[k - 1] && g[k + 1] == rest[k]);
            }
        }
        crate::grid::lemma_cost_split(v, g, 1);
        assert(g.subrange(1, g.len() as int) =~= rest);
        let two = g.subrange(0, 2);
        assert(two.drop_last().len() == 1);
        assert(two[0] == a && two[1] == rest[0]);
        assert(v.walk_cost(two.drop_last()) == 0);
        assert(v.walk_cost(two) == crate::node::step_cost(v.diagonal(a, rest[0])));
        assert(v.diagonal(a, rest[0]) == (x != nx && y != ny));
        assert(v.walk_cost(g) == crate::node::step_cost(x != nx && y != ny) + v.walk_cost(rest));
        crate::node::lemma_octile_value(x, y, tx, ty);
        crate::node::lemma_octile_value(nx, ny, tx, ty);
    }
}

/// Column `x`, row `y` of a well-formed grid is the cell at `index_of(x, y)`.
pub proof fn lemma_cell_at(v: GridView, x: int, y: int)
    requires
        v.wf(),
        v.in_bounds(x, y),
    ensures
        0 <= v.index_of(x, y) < v.nodes.len(),
        v.nodes[v.index_of(x, y)].x == x,
        v.nodes[v.index_of(x, y)].y == y,
{
    crate::grid::lemma_index_in_range(v.width, v.height, x, y);
    let i = v.index_of(x, y);
    assert(v.cell_ok(i));
    crate::grid::lemma_coords_unique(v.width, v.nodes[i].x as int, v.nodes[i].y as int, x, y);
}

/// Each step of a walk costs six plus four for each axis it moves along, so
/// a walk costs at least six per step plus four per unit of axis distance
/// between its ends.
pub proof fn lemma_cost_per_step(v: GridView, p: Seq<int>)
    requires
        v.wf(),
        v.is_walk(p),
    ensures
        v.walk_cost(p) >= 6 * (p.len() - 1) + 4 * (abs_diff(
            v.nodes[p[0]].x as int,
            v.nodes[p.last()].x as int,
        ) + abs_diff(v.nodes[p[0]].y as int, v.nodes[p.last()].y as int)),
    decreases p.len(),
{
    if p.len() > 1 {
        let q = p.drop_last();
        crate::grid::lemma_walk_prefix(v, p, p.len() - 1);
        assert(q =~= p.subrange(0, p.len() - 1));
        lemma_cost_per_step(v, q);
        assert(v.adjacent(p[p.len() - 2], p[p.len() - 2 + 1]));
        assert(q.last() == p[p.len() - 2]);
    }
}

/// On a grid without walls a search returns a path whose cost is the octile
/// distance from the start to the end and whose length is one more than the
/// longer axis distance between them.
pub proof fn lemma_open_grid_path(before: GridView, after: GridView)
    requires
        before.wf(),
        before.searched_into(after),
        forall|i: int| 0 <= i < before.nodes.len() ==> #[trigger] before.nodes[i].state != NodeStates::WALL,
    ensures
        after.path.len() == cell_chebyshev(before, before.start, before.end) + 1,
        before.walk_cost(after.path) == cell_octile(before, before.start, before.end),
{
    let s = before.nodes[before.start];
    let e = before.nodes[before.end];
    assert(before.cell_ok(before.start));
    assert(before.cell_ok(before.end));
    lemma_beeline(before, s.x as int, s.y as int, e.x as int, e.y as int);
    let q = beeline(before, s.x as int, s.y as int, e.x as int, e.y as int);
    assert(before.is_route(q));
    assert(after.path.len() > 0);
    assert(before.walk_cost(after.path) <= before.walk_cost(q));
    lemma_heuristic_admissible(before, after.path);
    lemma_cost_per_step(before, after.path);
    crate::node::lemma_octile_value(s.x as int, s.y as int, e.x as int, e.y as int);
}

} // verus!
