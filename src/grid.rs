use vstd::prelude::*;

use crate::node::{abs_diff, lemma_octile_bounds, step_cost, Node, NodeStates};

verus! {

/// Why an editing operation was refused.
#[derive(Clone, Copy, Debug, PartialEq, Eq, Structural)]
pub enum GridError {
    /// The coordinates lie outside the grid.
    InvalidCoordinate,
}

/// The mathematical content of a [`Grid`].
pub struct GridView {
    pub width: int,
    pub height: int,
    pub start: int,
    pub end: int,
    pub path: Seq<int>,
    pub nodes: Seq<Node>,
}

/// Two coordinate pairs whose columns lie in a row of `w` cells and that give
/// the same linear index are the same pair.
pub proof fn lemma_coords_unique(w: int, x1: int, y1: int, x2: int, y2: int)
    requires
        0 <= x1 < w,
        0 <= x2 < w,
        y1 * w + x1 == y2 * w + x2,
    ensures
        x1 == x2,
        y1 == y2,
{
    assert(y1 == y2) by (nonlinear_arith)
        requires
            0 <= x1 < w,
            0 <= x2 < w,
            y1 * w + x1 == y2 * w + x2,
    ;
}

/// A cell `y * w + x` with `y < h` lies below `w * h`.
pub proof fn lemma_index_in_range(w: int, h: int, x: int, y: int)
    requires
        0 <= x < w,
        0 <= y < h,
    ensures
        0 <= y * w + x < w * h,
{
    assert(0 <= y * w + x < w * h) by (nonlinear_arith)
        requires
            0 <= x < w,
            0 <= y < h,
    ;
}

/// Cell `i` of `nodes` sits at its own index, at column `x` and row `y` of a
/// `w` by `h` grid with `i == y * w + x`.
pub open spec fn cell_at_home(nodes: Seq<Node>, w: int, h: int, i: int) -> bool {
    &&& nodes[i].index == i
    &&& 0 <= nodes[i].x < w
    &&& 0 <= nodes[i].y < h
    &&& nodes[i].y * w + nodes[i].x == i
}

impl GridView {
    pub open spec fn cell_ok(self, i: int) -> bool {
        cell_at_home(self.nodes, self.width, self.height, i)
    }

    pub open spec fn wf(self) -> bool {
        &&& 0 < self.width
        &&& 0 < self.height
        &&& self.width * self.height <= 65536
        &&& self.width <= 65536
        &&& self.height <= 65536
        &&& self.nodes.len() == self.width * self.height
        &&& 0 <= self.start < self.nodes.len()
        &&& 0 <= self.end < self.nodes.len()
        &&& forall|i: int|
            0 <= i < self.nodes.len() ==> #[trigger] cell_at_home(self.nodes, self.width, self.height, i)
        &&& forall|k: int| 0 <= k < self.path.len() ==> 0 <= #[trigger] self.path[k] < self.nodes.len()
        &&& forall|i: int|
            0 <= i < self.nodes.len() ==> {
                &&& #[trigger] self.nodes[i].state == NodeStates::START ==> i == self.start
                &&& self.nodes[i].state == NodeStates::END ==> i == self.end
            }
    }

    pub open spec fn in_bounds(self, x: int, y: int) -> bool {
        0 <= x < self.width && 0 <= y < self.height
    }

    /// Linear index of column `x`, row `y`: cells are laid out row by row.
    pub open spec fn index_of(self, x: int, y: int) -> int {
        y * self.width + x
    }

    pub open spec fn state(self, i: int) -> NodeStates {
        self.nodes[i].state
    }

    /// Cell `i` may be entered by a walk: the start cell, or any cell that is
    /// not a wall.
    pub open spec fn passable(self, i: int) -> bool {
        i == self.start || self.nodes[i].state != NodeStates::WALL
    }

    /// Distinct cells that touch by a side or a corner.
    pub open spec fn adjacent(self, a: int, b: int) -> bool {
        &&& a != b
        &&& abs_diff(self.nodes[a].x as int, self.nodes[b].x as int) <= 1
        &&& abs_diff(self.nodes[a].y as int, self.nodes[b].y as int) <= 1
    }

    pub open spec fn diagonal(self, a: int, b: int) -> bool {
        self.nodes[a].x != self.nodes[b].x && self.nodes[a].y != self.nodes[b].y
    }

    /// A sequence of passable cells, each adjacent to the next.
    pub open spec fn is_walk(self, p: Seq<int>) -> bool {
        &&& p.len() >= 1
        &&& forall|k: int|
            0 <= k < p.len() ==> 0 <= #[trigger] p[k] < self.nodes.len() && self.passable(p[k])
        &&& forall|k: int| 0 <= k < p.len() - 1 ==> self.adjacent(#[trigger] p[k], p[k + 1])
    }

    /// A walk from the start cell to the end cell.
    pub open spec fn is_route(self, p: Seq<int>) -> bool {
        &&& self.is_walk(p)
        &&& p[0] == self.start
        &&& p.last() == self.end
    }

    pub open spec fn reachable(self) -> bool {
        exists|p: Seq<int>| self.is_route(p)
    }

    /// Sum of the step costs along `p`.
    pub open spec fn walk_cost(self, p: Seq<int>) -> int
        decreases p.len(),
    {
        if p.len() <= 1 {
            0
        } else {
            self.walk_cost(p.drop_last()) + step_cost(
                self.diagonal(p[p.len() - 2], p[p.len() - 1]),
            )
        }
    }

    /// The cell list with cell `i` given state `s`.
    pub open spec fn nodes_with_state(self, i: int, s: NodeStates) -> Seq<Node> {
        self.nodes.update(i, Node { state: s, ..self.nodes[i] })
    }

    /// The start moved to cell `i`: the old start cell becomes DEFAULT, `i`
    /// becomes START.
    pub open spec fn with_start(self, i: int) -> GridView {
        let cleared = GridView { nodes: self.nodes_with_state(self.start, NodeStates::DEFAULT), ..self };
        GridView { start: i, nodes: cleared.nodes_with_state(i, NodeStates::START), ..self }
    }

    /// The end moved to cell `i`: the old end cell becomes DEFAULT, `i`
    /// becomes END.
    pub open spec fn with_end(self, i: int) -> GridView {
        let cleared = GridView { nodes: self.nodes_with_state(self.end, NodeStates::DEFAULT), ..self };
        GridView { end: i, nodes: cleared.nodes_with_state(i, NodeStates::END), ..self }
    }

    /// A DEFAULT or PATH cell `i` turned into a wall; any other cell is left.
    pub open spec fn with_wall(self, i: int) -> GridView {
        if self.state(i) == NodeStates::DEFAULT || self.state(i) == NodeStates::PATH {
            GridView { nodes: self.nodes_with_state(i, NodeStates::WALL), ..self }
        } else {
            self
        }
    }

    /// A wall at cell `i` turned back into a DEFAULT cell; any other cell is left.
    pub open spec fn without_wall(self, i: int) -> GridView {
        if self.state(i) == NodeStates::WALL {
            GridView { nodes: self.nodes_with_state(i, NodeStates::DEFAULT), ..self }
        } else {
            self
        }
    }

    /// Cell `i` stands on `p` somewhere before its last position.
    pub open spec fn on_path_before_last(p: Seq<int>, i: int) -> bool {
        exists|k: int| 0 <= k < p.len() - 1 && #[trigger] p[k] == i
    }

    /// The state of cell `i` once the cells of the path `p` are marked: each
    /// cell before the last one becomes PATH unless it is START.
    pub open spec fn marked_state(self, p: Seq<int>, i: int) -> NodeStates {
        if Self::on_path_before_last(p, i) && self.state(i) != NodeStates::START {
            NodeStates::PATH
        } else {
            self.state(i)
        }
    }

    /// `after` is what a search on this grid leaves: the same dimensions,
    /// start and end; as path a cheapest route from start to end, visiting no
    /// cell twice, whenever a route exists, and nothing otherwise; the single start cell
    /// when start and end coincide; the cells of the path marked, and nothing
    /// else changed.
    pub open spec fn searched_into(self, after: GridView) -> bool {
        &&& after.width == self.width
        &&& after.height == self.height
        &&& after.start == self.start
        &&& after.end == self.end
        &&& after.path.len() == 0 || self.is_route(after.path)
        &&& self.reachable() ==> after.path.len() > 0
        &&& forall|q: Seq<int>| #[trigger] self.is_route(q) ==> self.walk_cost(after.path) <= self.walk_cost(q)
        &&& after.path.no_duplicates()
        &&& self.start == self.end ==> after.path == seq![self.start]
        &&& after.nodes.len() == self.nodes.len()
        &&& forall|i: int|
            0 <= i < self.nodes.len() ==> #[trigger] after.nodes[i] == (Node {
                state: self.marked_state(after.path, i),
                ..self.nodes[i]
            })
    }

    /// Every PATH cell turned back into a DEFAULT cell.
    pub open spec fn path_cleared(self) -> GridView {
        GridView {
            nodes: Seq::new(
                self.nodes.len(),
                |i: int|
                    if self.nodes[i].state == NodeStates::PATH {
                        Node { state: NodeStates::DEFAULT, ..self.nodes[i] }
                    } else {
                        self.nodes[i]
                    },
            ),
            ..self
        }
    }
}

/// A rectangular grid of cells with a start, an end, walls and the most
/// recently found path.
///
/// Every operation that takes coordinates addresses column `x`, row `y`, the
/// cell at linear index `y * width + x`: the order in which cells are laid
/// out and in which [`Grid::nodes`] lists them. Coordinates outside the grid
/// are refused with [`GridError::InvalidCoordinate`].
pub struct Grid {
    width: i32,
    height: i32,
    start_index: usize,
    end_index: usize,
    path: Vec<usize>,
    nodes: Vec<Node>,
}

impl View for Grid {
    type V = GridView;

    closed spec fn view(&self) -> GridView {
        GridView {
            width: self.width as int,
            height: self.height as int,
            start: self.start_index as int,
            end: self.end_index as int,
            path: self.path@.map_values(|i: usize| i as int),
            nodes: self.nodes@,
        }
    }
}

impl Grid {
    /// A grid of `width * height` fresh cells laid out row by row, with the
    /// start at the first cell, the end at the last and no path.
    pub fn new(width: i32, height: i32) -> (r: Grid)
        requires
            0 < width,
            0 < height,
            width * height <= 65536,
        ensures
            r@.wf(),
            r@.width == width,
            r@.height == height,
            r@.start == 0,
            r@.end == width * height - 1,
            r@.path.len() == 0,
            forall|i: int|
                0 <= i < r@.nodes.len() ==> {
                    let n = #[trigger] r@.nodes[i];
                    &&& n.state == NodeStates::DEFAULT
                    &&& n.parent_index.is_none()
                    &&& !n.parent_diagonal
                    &&& n.g == 0 && n.h == 0 && n.f == 0
                },
    {
        let mut nodes: Vec<Node> = Vec::new();
        let mut index: usize = 0;
        let mut y: i32 = 0;
        while y < height
            invariant
                0 <= y <= height,
                0 < width,
                width * height <= 65536,
                index == nodes.len(),
                index == y * width,
                forall|i: int|
                    0 <= i < nodes.len() ==> {
                        let n = #[trigger] nodes@[i];
                        &&& n.index == i
                        &&& 0 <= n.x < width
                        &&& 0 <= n.y < height
                        &&& n.y * width + n.x == i
                        &&& n.state == NodeStates::DEFAULT
                        &&& n.parent_index.is_none()
                        &&& !n.parent_diagonal
                        &&& n.g == 0 && n.h == 0 && n.f == 0
                    },
            decreases height - y,
        {
            let mut x: i32 = 0;
            while x < width
                invariant
                    0 <= y < height,
                    0 <= x <= width,
                    width * height <= 65536,
                    index == nodes.len(),
                    index == y * width + x,
                    forall|i: int|
                        0 <= i < nodes.len() ==> {
                            let n = #[trigger] nodes@[i];
                            &&& n.index == i
                            &&& 0 <= n.x < width
                            &&& 0 <= n.y < height
                            &&& n.y * width + n.x == i
                            &&& n.state == NodeStates::DEFAULT
                            &&& n.parent_index.is_none()
                            &&& !n.parent_diagonal
                            &&& n.g == 0 && n.h == 0 && n.f == 0
                        },
                decreases width - x,
            {
                proof {
                    lemma_index_in_range(width as int, height as int, x as int, y as int);
                }
                nodes.push(Node::new(index, x, y));
                index += 1;
                x += 1;
            }
            assert(y * width + width == (y + 1) * width) by (nonlinear_arith);
            y += 1;
        }
        assert(y * width == width * height) by (nonlinear_arith)
            requires
                y == height,
        ;
        assert(width * height >= 1 && width <= width * height && height <= width * height)
            by (nonlinear_arith)
            requires
                0 < width,
                0 < height,
        ;
        let r = Grid {
            width: width,
            height: height,
            start_index: 0,
            end_index: (width * height - 1) as usize,
            path: Vec::new(),
            nodes: nodes,
        };
        r
    }

    /// Linear index of column `x`, row `y`.
    fn get_index(&self, x: i32, y: i32) -> (r: usize)
        requires
            self@.wf(),
            self@.in_bounds(x as int, y as int),
        ensures
            r == self@.index_of(x as int, y as int),
            r < self@.nodes.len(),
    {
        proof {
            lemma_index_in_range(self.width as int, self.height as int, x as int, y as int);
        }
        (y * self.width + x) as usize
    }

    fn set_state(&mut self, i: usize, s: NodeStates)
        requires
            i < old(self).nodes@.len(),
        ensures
            final(self)@ == (GridView { nodes: old(self)@.nodes_with_state(i as int, s), ..old(self)@ }),
            old(self)@.wf() && (s == NodeStates::START ==> i == old(self)@.start) && (s
                == NodeStates::END ==> i == old(self)@.end) ==> final(self)@.wf(),
    {
        let mut n = self.nodes[i];
        n.state = s;
        self.nodes.set(i, n);
        proof {
            if old(self)@.wf() {
                assert forall|j: int| 0 <= j < self@.nodes.len() implies #[trigger] cell_at_home(
                    self@.nodes,
                    self@.width,
                    self@.height,
                    j,
                ) by {
                    assert(old(self)@.cell_ok(j));
                }
            }
        }
    }

    /// Moves the start to column `x`, row `y`.
    pub fn set_start(&mut self, x: i32, y: i32) -> (r: Result<(), GridError>)
        requires
            old(self)@.wf(),
        ensures
            final(self)@.wf(),
            r is Ok <==> old(self)@.in_bounds(x as int, y as int),
            r is Ok ==> final(self)@ == old(self)@.with_start(old(self)@.index_of(x as int, y as int)),
            r is Err ==> r == Err::<(), GridError>(GridError::InvalidCoordinate) && final(self)@ == old(self)@,
    {
        if x < 0 || x >= self.width || y < 0 || y >= self.height {
            return Err(GridError::InvalidCoordinate);
        }
        let i = self.get_index(x, y);
        self.set_state(self.start_index, NodeStates::DEFAULT);
        self.start_index = i;
        self.set_state(i, NodeStates::START);
        Ok(())
    }

    /// Moves the end to column `x`, row `y`.
    pub fn set_end(&mut self, x: i32, y: i32) -> (r: Result<(), GridError>)
        requires
            old(self)@.wf(),
        ensures
            final(self)@.wf(),
            r is Ok <==> old(self)@.in_bounds(x as int, y as int),
            r is Ok ==> final(self)@ == old(self)@.with_end(old(self)@.index_of(x as int, y as int)),
            r is Err ==> r == Err::<(), GridError>(GridError::InvalidCoordinate) && final(self)@ == old(self)@,
    {
        if x < 0 || x >= self.width || y < 0 || y >= self.height {
            return Err(GridError::InvalidCoordinate);
        }
        let i = self.get_index(x, y);
        self.set_state(self.end_index, NodeStates::DEFAULT);
        self.end_index = i;
        self.set_state(i, NodeStates::END);
        Ok(())
    }

    /// Turns the cell at column `x`, row `y` into a wall if it is DEFAULT or
    /// PATH; START, END and WALL cells are left as they are.
    pub fn add_wall(&mut self, x: i32, y: i32) -> (r: Result<(), GridError>)
        requires
            old(self)@.wf(),
        ensures
            final(self)@.wf(),
            r is Ok <==> old(self)@.in_bounds(x as int, y as int),
            r is Ok ==> final(self)@ == old(self)@.with_wall(old(self)@.index_of(x as int, y as int)),
            r is Err ==> r == Err::<(), GridError>(GridError::InvalidCoordinate) && final(self)@ == old(self)@,
    {
        if x < 0 || x >= self.width || y < 0 || y >= self.height {
            return Err(GridError::InvalidCoordinate);
        }
        let i = self.get_index(x, y);
        let s = self.nodes[i].state;
        if s == NodeStates::DEFAULT || s == NodeStates::PATH {
            self.set_state(i, NodeStates::WALL);
        }
        Ok(())
    }

    /// Turns a wall at column `x`, row `y` back into a DEFAULT cell; any
    /// other cell is left as it is.
    pub fn remove_wall(&mut self, x: i32, y: i32) -> (r: Result<(), GridError>)
        requires
            old(self)@.wf(),
        ensures
            final(self)@.wf(),
            r is Ok <==> old(self)@.in_bounds(x as int, y as int),
            r is Ok ==> final(self)@ == old(self)@.without_wall(old(self)@.index_of(x as int, y as int)),
            r is Err ==> r == Err::<(), GridError>(GridError::InvalidCoordinate) && final(self)@ == old(self)@,
    {
        if x < 0 || x >= self.width || y < 0 || y >= self.height {
            return Err(GridError::InvalidCoordinate);
        }
        let i = self.get_index(x, y);
        if self.nodes[i].state == NodeStates::WALL {
            self.set_state(i, NodeStates::DEFAULT);
        }
        Ok(())
    }

    /// Turns every PATH cell back into a DEFAULT cell. The recorded path
    /// itself is kept.
    pub fn clear_path(&mut self)
        requires
            old(self)@.wf(),
        ensures
            final(self)@.wf(),
            final(self)@ == old(self)@.path_cleared(),
    {
        let ghost v = self@;
        let n = self.nodes.len();
        let mut i: usize = 0;
        while i < n
            invariant
                self@.wf(),
                n == v.nodes.len(),
                i <= n,
                self@ == (GridView { nodes: self@.nodes, ..v }),
                self@.nodes.len() == n,
                forall|j: int| 0 <= j < n ==> #[trigger] self@.nodes[j] == (if j < i {
                    v.path_cleared().nodes[j]
                } else {
                    v.nodes[j]
                }),
            decreases n - i,
        {
            if self.nodes[i].state == NodeStates::PATH {
                self.set_state(i, NodeStates::DEFAULT);
            }
            i += 1;
        }
        assert(self@.nodes =~= v.path_cleared().nodes);
    }

    /// Number of cells on the most recently found path.
    pub fn get_path_count(&self) -> (r: usize)
        requires
            self@.wf(),
        ensures
            r == self@.path.len(),
    {
        self.path.len()
    }

    /// The most recently found path as cell indices, from the start to the end.
    pub fn get_path(&self) -> (r: Vec<u16>)
        requires
            self@.wf(),
        ensures
            r@.len() == self@.path.len(),
            forall|k: int| 0 <= k < r@.len() ==> #[trigger] r@[k] as int == self@.path[k],
    {
        let mut r: Vec<u16> = Vec::new();
        let mut k: usize = 0;
        while k < self.path.len()
            invariant
                self@.wf(),
                k <= self.path.len(),
                r@.len() == k,
                forall|j: int| 0 <= j < k ==> #[trigger] r@[j] as int == self@.path[j],
            decreases self.path.len() - k,
        {
            proof {
                assert(self@.path[k as int] == self.path@[k as int] as int);
            }
            r.push(self.path[k] as u16);
            k += 1;
        }
        r
    }

    /// The state of every cell, in layout order.
    pub fn nodes(&self) -> (r: Vec<NodeStates>)
        requires
            self@.wf(),
        ensures
            r@.len() == self@.nodes.len(),
            forall|i: int| 0 <= i < r@.len() ==> #[trigger] r@[i] == self@.nodes[i].state,
    {
        let mut r: Vec<NodeStates> = Vec::new();
        let mut i: usize = 0;
        while i < self.nodes.len()
            invariant
                i <= self.nodes.len(),
                r@.len() == i,
                forall|j: int| 0 <= j < i ==> #[trigger] r@[j] == self@.nodes[j].state,
            decreases self.nodes.len() - i,
        {
            r.push(self.nodes[i].state);
            i += 1;
        }
        r
    }
}

/// Where a cell stands in a search.
#[derive(Clone, Copy, PartialEq, Eq, Structural)]
enum Mark {
    Unseen,
    Open,
    Closed,
}

/// What the search keeps of cell `i`: it is the same cell as in the grid;
/// it is closed exactly when `closed` holds it; once seen, its cost is at most
/// one diagonal step per closed cell, it may be entered, and unless it is the
/// start it hangs off a closed adjacent parent whose cost plus the step gives
/// its own.
spec fn arena_cell_ok(
    v: GridView,
    work: Seq<Node>,
    status: Seq<Mark>,
    closed: Set<int>,
    i: int,
) -> bool {
    &&& work[i].index == i
    &&& work[i].x == v.nodes[i].x
    &&& work[i].y == v.nodes[i].y
    &&& (status[i] == Mark::Closed <==> closed.contains(i))
    &&& status[i] != Mark::Unseen ==> {
        &&& 0 <= work[i].g <= 14 * closed.len()
        &&& work[i].h == cell_octile_to_end(v, i)
        &&& work[i].f == work[i].g + work[i].h
        &&& v.passable(i)
        &&& i != v.start ==> match work[i].parent_index {
            Some(p) => {
                &&& 0 <= p < v.nodes.len()
                &&& status[p as int] == Mark::Closed
                &&& v.adjacent(p as int, i)
                &&& work[i].g == work[p as int].g + step_cost(v.diagonal(p as int, i))
            },
            None => false,
        }
    }
}

/// Octile distance from cell `i` to the end cell.
spec fn cell_octile_to_end(v: GridView, i: int) -> int {
    crate::node::octile(
        v.nodes[i].x as int,
        v.nodes[i].y as int,
        v.nodes[v.end].x as int,
        v.nodes[v.end].y as int,
    )
}

spec fn arena_ok(v: GridView, work: Seq<Node>, status: Seq<Mark>, closed: Set<int>) -> bool {
    &&& work.len() == v.nodes.len()
    &&& status.len() == v.nodes.len()
    &&& closed.finite()
    &&& closed.subset_of(vstd::set_lib::set_int_range(0, v.nodes.len() as int))
    &&& status[v.start] != Mark::Unseen
    &&& work[v.start].parent_index.is_none()
    &&& work[v.start].g == 0
    &&& forall|i: int| 0 <= i < v.nodes.len() ==> #[trigger] arena_cell_ok(v, work, status, closed, i)
}

/// Every passable cell next to cell `c` has been seen.
spec fn expanded(v: GridView, status: Seq<Mark>, c: int) -> bool {
    forall|j: int|
        0 <= j < v.nodes.len() && v.adjacent(c, j) && v.passable(j) ==> #[trigger] status[j]
            != Mark::Unseen
}

/// Some entry of the open list is cell `i`.
spec fn queued(open: Seq<usize>, i: int) -> bool {
    exists|k: int| 0 <= k < open.len() && open[k] as int == i
}

/// Every open cell is on the open list, and every closed cell but `skip`
/// has had its neighbours seen.
spec fn progress_ok(v: GridView, status: Seq<Mark>, open: Seq<usize>, skip: int) -> bool {
    &&& forall|i: int| 0 <= i < v.nodes.len() && status[i] == Mark::Open ==> #[trigger] queued(open, i)
    &&& forall|c: int|
        0 <= c < v.nodes.len() && status[c] == Mark::Closed && c != skip ==> #[trigger] expanded(
            v,
            status,
            c,
        )
}

/// A cell seen stays seen.
spec fn seen_kept(s1: Seq<Mark>, s2: Seq<Mark>) -> bool {
    &&& s1.len() == s2.len()
    &&& forall|i: int| 0 <= i < s1.len() && s1[i] != Mark::Unseen ==> #[trigger] s2[i] != Mark::Unseen
}

proof fn lemma_expanded_kept(v: GridView, s1: Seq<Mark>, s2: Seq<Mark>, c: int)
    requires
        s1.len() == v.nodes.len(),
        seen_kept(s1, s2),
        expanded(v, s1, c),
    ensures
        expanded(v, s2, c),
{
    assert forall|j: int|
        0 <= j < v.nodes.len() && v.adjacent(c, j) && v.passable(j) implies #[trigger] s2[j]
        != Mark::Unseen by {
        assert(s1[j] != Mark::Unseen);
    }
}

/// With nothing left open and every closed cell expanded, each cell of a
/// walk from the start is closed.
proof fn lemma_route_closed(v: GridView, status: Seq<Mark>, p: Seq<int>, k: int)
    requires
        v.is_walk(p),
        p[0] == v.start,
        status.len() == v.nodes.len(),
        status[v.start] != Mark::Unseen,
        forall|i: int| 0 <= i < v.nodes.len() ==> #[trigger] status[i] != Mark::Open,
        forall|c: int|
            0 <= c < v.nodes.len() && status[c] == Mark::Closed ==> #[trigger] expanded(v, status, c),
        0 <= k < p.len(),
    ensures
        status[p[k]] == Mark::Closed,
    decreases k,
{
    if k > 0 {
        lemma_route_closed(v, status, p, k - 1);
        assert(v.adjacent(p[k - 1], p[k - 1 + 1]));
        assert(expanded(v, status, p[k - 1]));
        assert(status[p[k]] != Mark::Unseen);
        assert(status[p[k]] != Mark::Open);
    } else {
        assert(status[p[0]] != Mark::Open);
    }
}

/// Every open cell next to closed cell `c` costs at most `c`'s cost plus
/// the step.
spec fn relaxed_from(v: GridView, work: Seq<Node>, status: Seq<Mark>, c: int) -> bool {
    forall|j: int|
        0 <= j < v.nodes.len() && v.adjacent(c, j) && v.passable(j) && #[trigger] status[j]
            == Mark::Open ==> work[j].g <= work[c].g + step_cost(v.diagonal(c, j))
}

/// No walk from the start to a closed cell costs less than that cell's cost.
spec fn closed_optimal(v: GridView, work: Seq<Node>, status: Seq<Mark>) -> bool {
    forall|p: Seq<int>|
        #[trigger] v.is_walk(p) && p[0] == v.start && status[p.last()] == Mark::Closed
            ==> v.walk_cost(p) >= work[p.last()].g
}

/// The prefix of a walk is a walk.
pub proof fn lemma_walk_prefix(v: GridView, p: Seq<int>, m: int)
    requires
        v.is_walk(p),
        1 <= m <= p.len(),
    ensures
        v.is_walk(p.subrange(0, m)),
{
    let q = p.subrange(0, m);
    assert forall|k: int| 0 <= k < q.len() implies 0 <= #[trigger] q[k] < v.nodes.len() && v.passable(q[k]) by {
        assert(q[k] == p[k]);
    }
    assert forall|k: int| 0 <= k < q.len() - 1 implies v.adjacent(#[trigger] q[k], q[k + 1]) by {
        assert(q[k] == p[k] && q[k + 1] == p[k + 1]);
    }
}

/// The suffix of a walk is a walk.
proof fn lemma_walk_suffix(v: GridView, p: Seq<int>, k0: int)
    requires
        v.is_walk(p),
        0 <= k0 < p.len(),
    ensures
        v.is_walk(p.subrange(k0, p.len() as int)),
{
    let q = p.subrange(k0, p.len() as int);
    assert forall|k: int| 0 <= k < q.len() implies 0 <= #[trigger] q[k] < v.nodes.len() && v.passable(q[k]) by {
        assert(q[k] == p[k + k0]);
    }
    assert forall|k: int| 0 <= k < q.len() - 1 implies v.adjacent(#[trigger] q[k], q[k + 1]) by {
        assert(q[k] == p[k + k0] && q[k + 1] == p[k + k0 + 1]);
    }
}

/// The cost of a walk splits at any of its cells.
pub proof fn lemma_cost_split(v: GridView, p: Seq<int>, k: int)
    requires
        0 <= k < p.len(),
    ensures
        v.walk_cost(p) == v.walk_cost(p.subrange(0, k + 1)) + v.walk_cost(p.subrange(k, p.len() as int)),
    decreases p.len(),
{
    if k == p.len() - 1 {
        assert(p.subrange(0, k + 1) =~= p);
        assert(p.subrange(k, p.len() as int).len() == 1);
    } else {
        let q = p.drop_last();
        lemma_cost_split(v, q, k);
        assert(q.subrange(0, k + 1) =~= p.subrange(0, k + 1));
        let t = p.subrange(k, p.len() as int);
        assert(t.drop_last() =~= q.subrange(k, q.len() as int));
        assert(t[t.len() - 2] == p[p.len() - 2] && t[t.len() - 1] == p[p.len() - 1]);
    }
}

/// Along a walk the octile distance to the end drops by at most the cost
/// walked.
proof fn lemma_octile_consistent(v: GridView, q: Seq<int>)
    requires
        v.wf(),
        v.is_walk(q),
    ensures
        cell_octile_to_end(v, q[0]) <= v.walk_cost(q) + cell_octile_to_end(v, q.last()),
    decreases q.len(),
{
    if q.len() > 1 {
        let r = q.drop_last();
        lemma_walk_prefix(v, q, q.len() - 1);
        assert(r =~= q.subrange(0, q.len() - 1));
        lemma_octile_consistent(v, r);
        let a = q[q.len() - 2];
        let b = q[q.len() - 1];
        assert(v.adjacent(q[q.len() - 2], q[q.len() - 2 + 1]));
        crate::node::lemma_octile_step(
            v.nodes[v.end].x as int,
            v.nodes[v.end].y as int,
            v.nodes[b].x as int,
            v.nodes[b].y as int,
            v.nodes[a].x as int,
            v.nodes[a].y as int,
        );
        assert(r.last() == a);
    }
}

/// On a walk from the start to a cell not yet closed, some cell is open and
/// costs at most the walk up to it.
proof fn lemma_frontier(
    v: GridView,
    work: Seq<Node>,
    status: Seq<Mark>,
    closed: Set<int>,
    p: Seq<int>,
) -> (k: int)
    requires
        v.wf(),
        arena_ok(v, work, status, closed),
        forall|c: int|
            0 <= c < v.nodes.len() && status[c] == Mark::Closed ==> #[trigger] expanded(v, status, c),
        forall|c: int|
            0 <= c < v.nodes.len() && status[c] == Mark::Closed ==> #[trigger] relaxed_from(v, work, status, c),
        closed_optimal(v, work, status),
        v.is_walk(p),
        p[0] == v.start,
        status[p.last()] != Mark::Closed,
    ensures
        0 <= k < p.len(),
        status[p[k]] == Mark::Open,
        work[p[k]].g <= v.walk_cost(p.subrange(0, k + 1)),
    decreases p.len(),
{
    if p.len() == 1 {
        assert(arena_cell_ok(v, work, status, closed, v.start));
        assert(p.subrange(0, 1).len() == 1);
        0
    } else {
        let q = p.drop_last();
        lemma_walk_prefix(v, p, p.len() - 1);
        assert(q =~= p.subrange(0, p.len() - 1));
        if status[q.last()] != Mark::Closed {
            let k = lemma_frontier(v, work, status, closed, q);
            assert(q.subrange(0, k + 1) =~= p.subrange(0, k + 1));
            k
        } else {
            let c = q.last();
            let b = p.last();
            assert(v.adjacent(p[p.len() - 2], p[p.len() - 2 + 1]));
            assert(expanded(v, status, c));
            assert(relaxed_from(v, work, status, c));
            assert(status[b] != Mark::Unseen);
            assert(v.walk_cost(q) >= work[c].g);
            assert(p.subrange(0, p.len() as int) =~= p);
            p.len() - 1
        }
    }
}

/// The cost of cell `rev[i]` is that of the next entry, its parent, plus
/// the step between them.
spec fn back_step(v: GridView, work: Seq<Node>, rev: Seq<usize>, i: int) -> bool {
    work[rev[i] as int].g == work[rev[i + 1] as int].g + step_cost(
        v.diagonal(rev[i + 1] as int, rev[i] as int),
    )
}

/// A walk whose costs grow by each step's cost costs the difference between
/// the costs of its ends.
proof fn lemma_chain_cost(v: GridView, work: Seq<Node>, p: Seq<int>)
    requires
        p.len() >= 1,
        forall|j: int|
            0 <= j < p.len() - 1 ==> work[#[trigger] p[j + 1]].g == work[p[j]].g + step_cost(
                v.diagonal(p[j], p[j + 1]),
            ),
    ensures
        v.walk_cost(p) == work[p.last()].g - work[p[0]].g,
    decreases p.len(),
{
    if p.len() > 1 {
        let q = p.drop_last();
        assert forall|j: int| 0 <= j < q.len() - 1 implies work[#[trigger] q[j + 1]].g == work[q[j]].g
            + step_cost(v.diagonal(q[j], q[j + 1])) by {
            assert(q[j] == p[j] && q[j + 1] == p[j + 1]);
        }
        lemma_chain_cost(v, work, q);
        assert(work[p[p.len() - 2 + 1]].g == work[p[p.len() - 2]].g + step_cost(
            v.diagonal(p[p.len() - 2], p[p.len() - 2 + 1]),
        ));
    }
}

/// Cell `a` comes before cell `b` when the grid is scanned row by row, each
/// row from left to right.
pub open spec fn scan_before(a: Node, b: Node) -> bool {
    a.y < b.y || (a.y == b.y && a.x < b.x)
}

/// Some entry of `r` is cell `j`.
spec fn listed(r: Seq<Node>, j: int) -> bool {
    exists|k: int| 0 <= k < r.len() && r[k].index == j
}

/// Cell `i` stands among the first `m` entries of `p`.
spec fn marked_before(p: Seq<usize>, m: int, i: int) -> bool {
    exists|k: int| 0 <= k < m && #[trigger] p[k] as int == i
}

/// The open list holds distinct open cells.
spec fn open_ok(open: Seq<usize>, status: Seq<Mark>) -> bool {
    &&& forall|k: int|
        0 <= k < open.len() ==> #[trigger] open[k] < status.len() && status[open[k] as int]
            == Mark::Open
    &&& forall|a: int, b: int| 0 <= a < b < open.len() ==> open[a] != open[b]
}

impl Grid {
    /// The cells around `node` that are not walls, each flagged with whether
    /// the step from `node` to it is diagonal. Walls at the two flanking sides
    /// of a diagonal step do not block it.
    fn get_neighbours(&self, node: &Node) -> (r: Vec<Node>)
        requires
            self@.wf(),
            node.index < self@.nodes.len(),
            node.x == self@.nodes[node.index as int].x,
            node.y == self@.nodes[node.index as int].y,
        ensures
            forall|k: int|
                0 <= k < r.len() ==> {
                    let c = #[trigger] r@[k];
                    let i = c.index as int;
                    &&& 0 <= i < self@.nodes.len()
                    &&& c == (Node {
                        parent_diagonal: self@.diagonal(node.index as int, i),
                        ..self@.nodes[i]
                    })
                    &&& self@.adjacent(node.index as int, i)
                    &&& self@.state(i) != NodeStates::WALL
                },
            forall|j: int|
                0 <= j < self@.nodes.len() && self@.adjacent(node.index as int, j) && self@.state(j)
                    != NodeStates::WALL ==> #[trigger] listed(r@, j),
            forall|k1: int, k2: int|
                0 <= k1 < k2 < r.len() ==> #[trigger] scan_before(r@[k1], r@[k2]),
    {
        let ghost v = self@;
        let ghost ni = node.index as int;
        proof {
            assert(v.cell_ok(ni));
        }
        let mut r: Vec<Node> = Vec::new();
        let mut yy: i32 = node.y - 1;
        while yy <= node.y + 1
            invariant
                v == self@,
                v.wf(),
                0 <= ni < v.nodes.len(),
                node.index == ni,
                v.cell_ok(ni),
                node.x == v.nodes[ni].x,
                node.y == v.nodes[ni].y,
                node.y - 1 <= yy <= node.y + 2,
                forall|k1: int, k2: int| 0 <= k1 < k2 < r.len() ==> #[trigger] scan_before(r@[k1], r@[k2]),
                forall|k: int| 0 <= k < r.len() ==> #[trigger] r@[k].y < yy,
                forall|j: int|
                    0 <= j < v.nodes.len() && v.adjacent(ni, j) && v.state(j) != NodeStates::WALL
                        && v.nodes[j].y < yy ==> #[trigger] listed(r@, j),
                forall|k: int|
                    0 <= k < r.len() ==> {
                        let c = #[trigger] r@[k];
                        let i = c.index as int;
                        &&& 0 <= i < v.nodes.len()
                        &&& c == (Node { parent_diagonal: v.diagonal(ni, i), ..v.nodes[i] })
                        &&& v.adjacent(ni, i)
                        &&& v.state(i) != NodeStates::WALL
                    },
            decreases node.y + 2 - yy,
        {
            let mut xx: i32 = node.x - 1;
            while xx <= node.x + 1
                invariant
                    v == self@,
                    v.wf(),
                    0 <= ni < v.nodes.len(),
                    node.index == ni,
                    v.cell_ok(ni),
                    node.x == v.nodes[ni].x,
                    node.y == v.nodes[ni].y,
                    node.y - 1 <= yy <= node.y + 1,
                    node.x - 1 <= xx <= node.x + 2,
                    forall|k1: int, k2: int| 0 <= k1 < k2 < r.len() ==> #[trigger] scan_before(r@[k1], r@[k2]),
                    forall|k: int|
                        0 <= k < r.len() ==> #[trigger] r@[k].y < yy || (r@[k].y == yy && r@[k].x < xx),
                    forall|j: int|
                        0 <= j < v.nodes.len() && v.adjacent(ni, j) && v.state(j) != NodeStates::WALL
                            && (v.nodes[j].y < yy || (v.nodes[j].y == yy && v.nodes[j].x < xx))
                            ==> #[trigger] listed(r@, j),
                    forall|k: int|
                        0 <= k < r.len() ==> {
                            let c = #[trigger] r@[k];
                            let i = c.index as int;
                            &&& 0 <= i < v.nodes.len()
                            &&& c == (Node { parent_diagonal: v.diagonal(ni, i), ..v.nodes[i] })
                            &&& v.adjacent(ni, i)
                            &&& v.state(i) != NodeStates::WALL
                        },
                decreases node.x + 2 - xx,
            {
                let ghost r_before = r@;
                if !(xx == node.x && yy == node.y) && xx >= 0 && xx < self.width && yy >= 0 && yy
                    < self.height {
                    let i = self.get_index(xx, yy);
                    let mut c = self.nodes[i];
                    proof {
                        assert(v.cell_ok(i as int));
                        lemma_coords_unique(
                            v.width,
                            c.x as int,
                            c.y as int,
                            xx as int,
                            yy as int,
                        );
                    }
                    if c.state != NodeStates::WALL {
                        c.parent_diagonal = xx != node.x && yy != node.y;
                        r.push(c);
                    }
                }
                proof {
                    assert forall|j: int|
                        0 <= j < v.nodes.len() && v.adjacent(ni, j) && v.state(j) != NodeStates::WALL
                            && (v.nodes[j].y < yy || (v.nodes[j].y == yy && v.nodes[j].x < xx + 1))
                        implies #[trigger] listed(r@, j) by {
                        assert(v.cell_ok(j));
                        if v.nodes[j].y < yy || (v.nodes[j].y == yy && v.nodes[j].x < xx) {
                            assert(listed(r_before, j));
                            let k = choose|k: int| 0 <= k < r_before.len() && r_before[k].index == j;
                            assert(r@[k] == r_before[k]);
                        } else {
                            if xx == node.x && yy == node.y {
                                lemma_coords_unique(v.width, v.nodes[j].x as int, v.nodes[j].y as int, v.nodes[ni].x as int, v.nodes[ni].y as int);
                            }
                            lemma_index_in_range(v.width, v.height, v.nodes[j].x as int, v.nodes[j].y as int);
                            assert(r@[r@.len() - 1].index == j);
                        }
                    }
                }
                xx += 1;
            }
            yy += 1;
        }
        r
    }
}

impl Grid {
    /// Explores the grid from the start cell until the end cell is closed or
    /// no open cell is left. Returns whether the end cell was reached, the
    /// per-cell bookkeeping and the set of closed cells.
    #[verifier::rlimit(50)]
    fn explore(&self) -> (r: (bool, Vec<Node>, Vec<Mark>, Ghost<Set<int>>))
        requires
            self@.wf(),
        ensures
            arena_ok(self@, r.1@, r.2@, r.3@),
            r.0 ==> r.2@[self@.end] == Mark::Closed,
            self@.start == self@.end ==> r.0,
            self@.reachable() ==> r.0,
            closed_optimal(self@, r.1@, r.2@),
    {
        let ghost v = self@;
        let n = self.nodes.len();
        let start = self.start_index;
        let end = self.end_index;
        let end_node = self.nodes[end];
        proof {
            assert(v.cell_ok(end as int));
            assert(v.cell_ok(start as int));
        }
        let mut work: Vec<Node> = Vec::new();
        let mut status: Vec<Mark> = Vec::new();
        let mut i: usize = 0;
        while i < n
            invariant
                v == self@,
                v.wf(),
                n == v.nodes.len(),
                i <= n,
                work.len() == i,
                status.len() == i,
                forall|j: int| 0 <= j < i ==> #[trigger] work@[j] == v.nodes[j],
                forall|j: int| 0 <= j < i ==> #[trigger] status@[j] == Mark::Unseen,
            decreases n - i,
        {
            work.push(self.nodes[i]);
            status.push(Mark::Unseen);
            i += 1;
        }
        let mut first = work[start];
        first.parent_index = None;
        first.g = 0;
        first.set_h(end_node);
        first.f = first.h;
        work.set(start, first);
        status.set(start, Mark::Open);
        let mut open: Vec<usize> = Vec::new();
        open.push(start);
        let mut found = false;
        let ghost mut closed: Set<int> = Set::empty();
        proof {
            assert forall|j: int| 0 <= j < n implies #[trigger] arena_cell_ok(
                v,
                work@,
                status@,
                closed,
                j,
            ) by {
                assert(v.cell_ok(j));
            }
            assert(open@ == seq![start]);
            assert(open@[0] as int == start as int);
            assert(queued(open@, start as int));
            assert forall|p: Seq<int>| #[trigger] v.is_walk(p) && p[0] == v.start && status@[p.last()] == Mark::Closed
                implies v.walk_cost(p) >= work@[p.last()].g by {
                assert(arena_cell_ok(v, work@, status@, closed, p.last()));
            }
            assert forall|c: int| 0 <= c < n && status@[c] == Mark::Closed implies #[trigger] expanded(v, status@, c) by {
                assert(arena_cell_ok(v, work@, status@, closed, c));
            }
        }
        while open.len() > 0 && !found
            invariant
                v == self@,
                v.wf(),
                n == v.nodes.len(),
                start == v.start,
                end == v.end,
                end_node == v.nodes[end as int],
                arena_ok(v, work@, status@, closed),
                open_ok(open@, status@),
                found ==> status@[end as int] == Mark::Closed,
                start == end ==> found || (closed.len() == 0 && open@ == seq![start]),
                !found ==> progress_ok(v, status@, open@, -1),
                status@[end as int] == Mark::Closed ==> found,
                closed.len() == 0 ==> open@ == seq![start],
                closed.len() > 0 ==> status@[start as int] == Mark::Closed,
                !found ==> forall|c: int|
                    0 <= c < n && status@[c] == Mark::Closed ==> #[trigger] relaxed_from(v, work@, status@, c),
                closed_optimal(v, work@, status@),
            decreases n - closed.len(),
        {
            proof {
                vstd::set_lib::lemma_int_range(0, n as int);
                vstd::set_lib::lemma_len_subset(closed, vstd::set_lib::set_int_range(0, n as int));
            }
            let mut best: usize = 0;
            let mut k: usize = 1;
            while k < open.len()
                invariant
                    open_ok(open@, status@),
                    work.len() == n,
                    status.len() == n,
                    open.len() > 0,
                    best < open.len(),
                    1 <= k <= open.len(),
                    forall|k2: int|
                        0 <= k2 < k ==> work@[open@[best as int] as int].f <= work@[#[trigger] open@[k2] as int].f,
                    forall|k2: int|
                        0 <= k2 < best ==> work@[open@[best as int] as int].f < work@[#[trigger] open@[k2] as int].f,
                decreases open.len() - k,
            {
                if work[open[k]].f < work[open[best]].f {
                    best = k;
                }
                k += 1;
            }
            let ghost open_before = open@;
            let cur = open.remove(best);
            let ghost len_before = closed.len();
            let ghost before = closed;
            proof {
                assert(open@ == open_before.remove(best as int));
                assert(arena_cell_ok(v, work@, status@, closed, cur as int));
                assert forall|a: int| 0 <= a < open.len() implies open@[a] != cur by {
                    if a < best {
                        assert(open@[a] == open_before[a]);
                    } else {
                        assert(open@[a] == open_before[a + 1]);
                    }
                }
                assert(open_ok(open@, status@)) by {
                    assert forall|a: int| 0 <= a < open.len() implies #[trigger] open@[a] < n
                        && status@[open@[a] as int] == Mark::Open by {
                        if a < best {
                            assert(open@[a] == open_before[a]);
                        } else {
                            assert(open@[a] == open_before[a + 1]);
                        }
                    }
                    assert forall|a: int, b: int| 0 <= a < b < open.len() implies open@[a]
                        != open@[b] by {
                        let a1 = if a < best { a } else { a + 1 };
                        let b1 = if b < best { b } else { b + 1 };
                        assert(open@[a] == open_before[a1]);
                        assert(open@[b] == open_before[b1]);
                    }
                }
            }
            proof {
                assert forall|u: int| 0 <= u < n && status@[u] == Mark::Open implies work@[cur as int].f
                    <= #[trigger] work@[u].f by {
                    assert(queued(open_before, u));
                    let k = choose|k: int| 0 <= k < open_before.len() && open_before[k] as int == u;
                    assert(work@[open_before[best as int] as int].f <= work@[open_before[k] as int].f);
                }
                assert forall|p: Seq<int>| #[trigger] v.is_walk(p) && p[0] == v.start && p.last() == cur as int
                    implies v.walk_cost(p) >= work@[cur as int].g by {
                    let k = lemma_frontier(v, work@, status@, closed, p);
                    let u = p[k];
                    lemma_walk_suffix(v, p, k);
                    lemma_octile_consistent(v, p.subrange(k, p.len() as int));
                    lemma_cost_split(v, p, k);
                    assert(arena_cell_ok(v, work@, status@, closed, u));
                    assert(work@[cur as int].f <= work@[u].f);
                }
            }
            let ghost status_before = status@;
            status.set(cur, Mark::Closed);
            proof {
                closed = closed.insert(cur as int);
                assert(closed.len() == len_before + 1);
                vstd::set_lib::lemma_len_subset(closed, vstd::set_lib::set_int_range(0, n as int));
                assert forall|j: int| 0 <= j < n implies #[trigger] arena_cell_ok(
                    v,
                    work@,
                    status@,
                    closed,
                    j,
                ) by {
                    assert(arena_cell_ok(v, work@, status_before, before, j));
                }
                assert forall|a: int| 0 <= a < open.len() implies #[trigger] open@[a] < n
                    && status@[open@[a] as int] == Mark::Open by {
                    assert(open@[a] != cur);
                }
                assert(seen_kept(status_before, status@));
                assert forall|i: int| 0 <= i < n && status@[i] == Mark::Open implies #[trigger] queued(open@, i) by {
                    assert(queued(open_before, i));
                    let k = choose|k: int| 0 <= k < open_before.len() && open_before[k] as int == i;
                    if k < best {
                        assert(open@[k] == open_before[k]);
                    } else {
                        assert(k != best);
                        assert(open@[k - 1] == open_before[k]);
                    }
                }
                assert forall|c: int| 0 <= c < n && status@[c] == Mark::Closed && c != cur implies #[trigger] expanded(v, status@, c) by {
                    lemma_expanded_kept(v, status_before, status@, c);
                }
                assert(progress_ok(v, status@, open@, cur as int));
                assert forall|p: Seq<int>| #[trigger] v.is_walk(p) && p[0] == v.start && status@[p.last()] == Mark::Closed
                    implies v.walk_cost(p) >= work@[p.last()].g by {
                    if p.last() != cur as int {
                        assert(status_before[p.last()] == Mark::Closed);
                    }
                }
                assert forall|c: int| 0 <= c < n && status@[c] == Mark::Closed && c != cur implies #[trigger] relaxed_from(v, work@, status@, c) by {
                    assert(relaxed_from(v, work@, status_before, c));
                    assert forall|j: int| 0 <= j < v.nodes.len() && v.adjacent(c, j) && v.passable(j) && #[trigger] status@[j]
                        == Mark::Open implies work@[j].g <= work@[c].g + step_cost(v.diagonal(c, j)) by {
                        assert(status_before[j] == Mark::Open);
                    }
                }
            }
            if cur == end {
                found = true;
            } else {
                let cur_node = work[cur];
                let nbrs = self.get_neighbours(&cur_node);
                let mut j: usize = 0;
                while j < nbrs.len()
                    invariant
                        v == self@,
                        v.wf(),
                        n == v.nodes.len(),
                        start == v.start,
                        end == v.end,
                        end_node == v.nodes[end as int],
                        v.cell_ok(end as int),
                        cur < n,
                        closed.len() == len_before + 1,
                        closed.len() <= n,
                        cur_node == work@[cur as int],
                        status@[cur as int] == Mark::Closed,
                        0 <= cur_node.g <= 14 * len_before,
                        cur_node.index == cur,
                        cur_node.x == v.nodes[cur as int].x,
                        cur_node.y == v.nodes[cur as int].y,
                        forall|k: int|
                            0 <= k < nbrs.len() ==> {
                                let c = #[trigger] nbrs@[k];
                                let i = c.index as int;
                                &&& 0 <= i < n
                                &&& c == (Node {
                                    parent_diagonal: v.diagonal(cur as int, i),
                                    ..v.nodes[i]
                                })
                                &&& v.adjacent(cur as int, i)
                                &&& v.state(i) != NodeStates::WALL
                            },
                        arena_ok(v, work@, status@, closed),
                        open_ok(open@, status@),
                        progress_ok(v, status@, open@, cur as int),
                        status@[end as int] != Mark::Closed,
                        !found,
                        j <= nbrs.len(),
                        forall|k: int| 0 <= k < j ==> #[trigger] status@[nbrs@[k].index as int] != Mark::Unseen,
                        forall|i: int|
                            0 <= i < n && v.adjacent(cur as int, i) && v.state(i) != NodeStates::WALL
                                ==> #[trigger] listed(nbrs@, i),
                        status@[start as int] == Mark::Closed,
                        closed_optimal(v, work@, status@),
                        forall|c: int|
                            0 <= c < n && status@[c] == Mark::Closed && c != cur ==> #[trigger] relaxed_from(v, work@, status@, c),
                        forall|k: int|
                            0 <= k < j && #[trigger] status@[nbrs@[k].index as int] == Mark::Open ==> work@[nbrs@[k].index as int].g
                                <= cur_node.g + step_cost(v.diagonal(cur as int, nbrs@[k].index as int)),
                    decreases nbrs.len() - j,
                {
                    let vi = nbrs[j].index;
                    let diag = nbrs[j].parent_diagonal;
                    proof {
                        assert(v.cell_ok(vi as int));
                        assert(arena_cell_ok(v, work@, status@, closed, vi as int));
                    }
                    if status[vi] != Mark::Closed {
                        let mut cand = work[vi];
                        cand.set_h(end_node);
                        proof {
                            lemma_octile_bounds(
                                v.nodes[vi as int].x as int,
                                v.nodes[vi as int].y as int,
                                end_node.x as int,
                                end_node.y as int,
                            );
                            assert(0 <= cand.h <= 10 * (v.width + v.height));
                            assert(len_before < n);
                        }
                        cand.set_g_f(&cur_node, diag);
                        cand.parent_index = Some(cur);
                        cand.parent_diagonal = diag;
                        let ghost work_before = work@;
                        let ghost status_before = status@;
                        let ghost open_before = open@;
                        if status[vi] == Mark::Open {
                            if cand.g < work[vi].g {
                                work.set(vi, cand);
                            }
                        } else {
                            work.set(vi, cand);
                            status.set(vi, Mark::Open);
                            open.push(vi);
                        }
                        proof {
                            assert forall|m: int| 0 <= m < n implies #[trigger] arena_cell_ok(
                                v,
                                work@,
                                status@,
                                closed,
                                m,
                            ) by {
                                assert(arena_cell_ok(v, work_before, status_before, closed, m));
                                if m != vi as int && status@[m] != Mark::Unseen && m != start as int {
                                    let p = work@[m].parent_index.unwrap();
                                    assert(p as int != vi as int);
                                }
                            }
                            assert(seen_kept(status_before, status@));
                            assert forall|i: int| 0 <= i < n && status@[i] == Mark::Open implies #[trigger] queued(open@, i) by {
                                if i == vi as int && !queued(open_before, i) {
                                    assert(open@[open@.len() - 1] == vi);
                                } else {
                                    assert(queued(open_before, i));
                                    let k = choose|k: int| 0 <= k < open_before.len() && open_before[k] as int == i;
                                    assert(open@[k] == open_before[k]);
                                }
                            }
                            assert forall|c: int| 0 <= c < n && status@[c] == Mark::Closed && c != cur implies #[trigger] expanded(v, status@, c) by {
                                lemma_expanded_kept(v, status_before, status@, c);
                            }
                            assert forall|p: Seq<int>| #[trigger] v.is_walk(p) && p[0] == v.start && status@[p.last()] == Mark::Closed
                                implies v.walk_cost(p) >= work@[p.last()].g by {
                                assert(status_before[p.last()] == Mark::Closed);
                            }
                            assert forall|c: int| 0 <= c < n && status@[c] == Mark::Closed && c != cur implies #[trigger] relaxed_from(v, work@, status@, c) by {
                                assert(relaxed_from(v, work_before, status_before, c));
                                assert(expanded(v, status_before, c));
                                assert forall|jj: int| 0 <= jj < v.nodes.len() && v.adjacent(c, jj) && v.passable(jj) && #[trigger] status@[jj]
                                    == Mark::Open implies work@[jj].g <= work@[c].g + step_cost(v.diagonal(c, jj)) by {
                                    assert(status_before[jj] != Mark::Unseen);
                                }
                            }
                            assert forall|k: int|
                                0 <= k < j + 1 && #[trigger] status@[nbrs@[k].index as int] == Mark::Open implies work@[nbrs@[k].index as int].g
                                    <= cur_node.g + step_cost(v.diagonal(cur as int, nbrs@[k].index as int)) by {
                                if k < j && nbrs@[k].index != vi {
                                    assert(status_before[nbrs@[k].index as int] == Mark::Open);
                                }
                            }
                        }
                    }
                    j += 1;
                }
                proof {
                    assert forall|i: int|
                        0 <= i < n && v.adjacent(cur as int, i) && v.passable(i) implies #[trigger] status@[i]
                        != Mark::Unseen by {
                        if i != start as int {
                            assert(listed(nbrs@, i));
                            let k = choose|k: int| 0 <= k < nbrs@.len() && nbrs@[k].index == i;
                            assert(status@[nbrs@[k].index as int] != Mark::Unseen);
                        }
                    }
                    assert(expanded(v, status@, cur as int));
                    assert forall|i: int| 0 <= i < v.nodes.len() && v.adjacent(cur as int, i) && v.passable(i) && #[trigger] status@[i]
                        == Mark::Open implies work@[i].g <= work@[cur as int].g + step_cost(v.diagonal(cur as int, i)) by {
                        assert(listed(nbrs@, i));
                        let k = choose|k: int| 0 <= k < nbrs@.len() && nbrs@[k].index == i;
                        assert(status@[nbrs@[k].index as int] == Mark::Open);
                    }
                    assert(relaxed_from(v, work@, status@, cur as int));
                }
            }
        }
        proof {
            if v.reachable() && !found {
                let p = choose|p: Seq<int>| v.is_route(p);
                assert forall|i: int| 0 <= i < n implies #[trigger] status@[i] != Mark::Open by {
                    if status@[i] == Mark::Open {
                        assert(queued(open@, i));
                    }
                }
                lemma_route_closed(v, status@, p, p.len() - 1);
            }
        }
        (found, work, status, Ghost(closed))
    }

    /// Follows the parent links back from the closed end cell to the start
    /// cell and returns the cells passed, from the start to the end.
    fn trace_back(&self, work: &Vec<Node>, status: &Vec<Mark>, Ghost(closed): Ghost<Set<int>>) -> (path: Vec<usize>)
        requires
            self@.wf(),
            arena_ok(self@, work@, status@, closed),
            status@[self@.end] == Mark::Closed,
        ensures
            self@.walk_cost(path@.map_values(|i: usize| i as int)) == work@[self@.end].g,
            self@.is_route(path@.map_values(|i: usize| i as int)),
            path@.map_values(|i: usize| i as int).no_duplicates(),
            self@.start == self@.end ==> path@.map_values(|i: usize| i as int) == seq![self@.start],
    {
        let ghost v = self@;
        let n = self.nodes.len();
        let start = self.start_index;
        let end = self.end_index;
        let mut path: Vec<usize> = Vec::new();
        let mut rev: Vec<usize> = Vec::new();
        rev.push(end);
        let mut cur: usize = end;
        proof {
            assert(arena_cell_ok(v, work@, status@, closed, end as int));
        }
        while work[cur].parent_index.is_some()
            invariant
                v.wf(),
                n == v.nodes.len(),
                start == v.start,
                end == v.end,
                arena_ok(v, work@, status@, closed),
                cur < n,
                status@[cur as int] != Mark::Unseen,
                rev.len() >= 1,
                rev@[0] == end,
                rev@.last() == cur,
                start == end ==> rev.len() == 1,
                forall|i: int| 0 <= i < rev.len() - 1 ==> #[trigger] back_step(v, work@, rev@, i),
                forall|a: int, b: int|
                    0 <= a < b < rev.len() ==> work@[#[trigger] rev@[a] as int].g > work@[#[trigger] rev@[b] as int].g,
                forall|k: int|
                    0 <= k < rev.len() ==> #[trigger] rev@[k] < n && v.passable(rev@[k] as int),
                forall|k: int|
                    0 <= k < rev.len() - 1 ==> v.adjacent(#[trigger] rev@[k] as int, rev@[k + 1] as int),
            decreases work@[cur as int].g,
        {
            proof {
                assert(arena_cell_ok(v, work@, status@, closed, cur as int));
            }
            let p = work[cur].parent_index.unwrap();
            proof {
                assert(arena_cell_ok(v, work@, status@, closed, p as int));
            }
            let ghost rev_before = rev@;
            let ghost child = cur;
            rev.push(p);
            cur = p;
            proof {
                assert(rev@[rev.len() - 2] == child);
                assert forall|i: int| 0 <= i < rev.len() - 1 implies #[trigger] back_step(v, work@, rev@, i) by {
                    if i < rev.len() - 2 {
                        assert(back_step(v, work@, rev_before, i));
                        assert(rev@[i] == rev_before[i] && rev@[i + 1] == rev_before[i + 1]);
                    }
                }
            }
            proof {
                assert forall|a: int, b: int| 0 <= a < b < rev.len() implies work@[#[trigger] rev@[a] as int].g
                    > work@[#[trigger] rev@[b] as int].g by {
                    assert(rev@[a] == rev_before[a]);
                    if b < rev.len() - 1 {
                        assert(rev@[b] == rev_before[b]);
                    } else if a < rev.len() - 2 {
                        assert(work@[rev_before[a] as int].g > work@[rev_before[rev_before.len() - 1] as int].g);
                    }
                }
            }
        }
        proof {
            assert(arena_cell_ok(v, work@, status@, closed, cur as int));
        }
        let mut k: usize = rev.len();
        while k > 0
            invariant
                k <= rev.len(),
                path.len() == rev.len() - k,
                forall|j: int| 0 <= j < path.len() ==> #[trigger] path@[j] == rev@[rev.len() - 1 - j],
            decreases k,
        {
            k -= 1;
            path.push(rev[k]);
        }
        proof {
            let gp = path@.map_values(|i: usize| i as int);
            assert forall|j: int| 0 <= j < gp.len() implies 0 <= #[trigger] gp[j] < n && v.passable(gp[j]) by {
                assert(rev@[rev.len() - 1 - j] < n);
            }
            assert forall|j: int| 0 <= j < gp.len() - 1 implies v.adjacent(#[trigger] gp[j], gp[j + 1]) by {
                assert(v.adjacent(rev@[rev.len() - 2 - j] as int, rev@[rev.len() - 1 - j] as int));
            }
            assert(v.is_route(gp));
            assert forall|j: int| 0 <= j < gp.len() - 1 implies work@[#[trigger] gp[j + 1]].g == work@[gp[j]].g
                + step_cost(v.diagonal(gp[j], gp[j + 1])) by {
                let i = rev.len() - 2 - j;
                assert(path@[j] == rev@[i + 1] && path@[j + 1] == rev@[i]);
                assert(back_step(v, work@, rev@, i));
            }
            lemma_chain_cost(v, work@, gp);
            assert(arena_ok(v, work@, status@, closed));
            assert forall|a: int, b: int| 0 <= a < gp.len() && 0 <= b < gp.len() && a != b implies gp[a] != gp[b] by {
                let ra = rev.len() - 1 - a;
                let rb = rev.len() - 1 - b;
                assert(path@[a] == rev@[ra] && path@[b] == rev@[rb]);
                if ra < rb {
                    assert(work@[rev@[ra] as int].g > work@[rev@[rb] as int].g);
                } else {
                    assert(work@[rev@[rb] as int].g > work@[rev@[ra] as int].g);
                }
            }
            if start == end {
                assert(path@.len() == 1);
                assert(path@[0] == rev@[0]);
                assert(gp =~= seq![start as int]);
            }
        }
        path
    }

    /// Marks the cells of `path` before its last one as PATH, leaving START
    /// cells as they are.
    fn mark_path(&mut self, path: &Vec<usize>)
        requires
            old(self)@.wf(),
            forall|k: int| 0 <= k < path.len() ==> #[trigger] path@[k] < old(self)@.nodes.len(),
        ensures
            final(self)@.wf(),
            final(self)@ == (GridView { nodes: final(self)@.nodes, ..old(self)@ }),
            final(self)@.nodes.len() == old(self)@.nodes.len(),
            forall|i: int|
                0 <= i < old(self)@.nodes.len() ==> #[trigger] final(self)@.nodes[i] == (Node {
                    state: old(self)@.marked_state(path@.map_values(|i: usize| i as int), i),
                    ..old(self)@.nodes[i]
                }),
    {
        let ghost v = self@;
        let n = self.nodes.len();
        let ghost gp = path@.map_values(|i: usize| i as int);
        let last: usize = if path.len() > 0 { path.len() - 1 } else { 0 };
        let mut m: usize = 0;
        while m < last
            invariant
                self@.wf(),
                self@.width == v.width,
                self@.height == v.height,
                self@.start == v.start,
                self@.end == v.end,
                self@.path == v.path,
                self@.nodes.len() == n,
                n == v.nodes.len(),
                forall|k: int| 0 <= k < path.len() ==> #[trigger] path@[k] < n,
                m <= last,
                last == if path.len() > 0 { path.len() - 1 } else { 0 },
                forall|i: int|
                    0 <= i < n ==> #[trigger] self@.nodes[i] == (Node {
                        state: if marked_before(path@, m as int, i) && v.state(i) != NodeStates::START {
                            NodeStates::PATH
                        } else {
                            v.state(i)
                        },
                        ..v.nodes[i]
                    }),
            decreases path.len() - m,
        {
            let c = path[m];
            let ghost before = self@;
            if self.nodes[c].state != NodeStates::START {
                self.set_state(c, NodeStates::PATH);
            }
            proof {
                assert forall|i: int| 0 <= i < n implies #[trigger] self@.nodes[i] == (Node {
                    state: if marked_before(path@, m + 1, i) && v.state(i) != NodeStates::START {
                        NodeStates::PATH
                    } else {
                        v.state(i)
                    },
                    ..v.nodes[i]
                }) by {
                    assert(before.nodes[i] == self@.nodes[i] || i == c as int);
                    if i == c as int {
                        assert(path@[m as int] as int == i);
                    } else if marked_before(path@, m + 1, i) {
                        let k = choose|k: int| 0 <= k < m + 1 && #[trigger] path@[k] as int == i;
                        assert(k < m);
                    }
                }
            }
            m += 1;
        }
        proof {
            assert forall|i: int| 0 <= i < n implies #[trigger] self@.nodes[i] == (Node {
                state: v.marked_state(gp, i),
                ..v.nodes[i]
            }) by {
                if marked_before(path@, m as int, i) {
                    let k = choose|k: int| 0 <= k < m && #[trigger] path@[k] as int == i;
                    assert(gp[k] == i);
                }
                if GridView::on_path_before_last(gp, i) {
                    let k = choose|k: int| 0 <= k < gp.len() - 1 && #[trigger] gp[k] == i;
                    assert(path@[k] as int == i);
                }
            }
        }
    }

    /// Runs the A* search from the start cell to the end cell and records the
    /// path found, marking its cells; with no route the path is left empty.
    ///
    /// The open cell with the least `f` is expanded next, the one nearest the
    /// front of the open list among equal ones; the list keeps cells in the
    /// order they were opened. The contract below states which routes may be
    /// returned, not how ties between equally cheap ones fall. A cheaper route to an open cell updates its `g`, its
    /// `f` and its parent, so that `f == g + h` holds of every open cell and
    /// the path found is a cheapest one.
    pub fn a_star(&mut self)
        requires
            old(self)@.wf(),
        ensures
            final(self)@.wf(),
            old(self)@.searched_into(final(self)@),
    {
        let ghost v = self@;
        let (found, work, status, closed) = self.explore();
        let ghost gwork = work@;
        let ghost gstatus = status@;
        let path = if found {
            self.trace_back(&work, &status, closed)
        } else {
            Vec::new()
        };
        proof {
            let gp = path@.map_values(|i: usize| i as int);
            if found {
                assert forall|q: Seq<int>| #[trigger] v.is_route(q) implies v.walk_cost(gp) <= v.walk_cost(q) by {
                    assert(v.is_walk(q) && q[0] == v.start && gstatus[q.last()] == Mark::Closed);
                }
                assert forall|k: int| 0 <= k < path.len() implies #[trigger] path@[k] < v.nodes.len() by {
                    assert(gp[k] == path@[k] as int);
                }
            }
        }
        self.mark_path(&path);
        self.path = path;
        proof {
            assert(self@.path == path@.map_values(|i: usize| i as int));
        }
    }
}

} // verus!
