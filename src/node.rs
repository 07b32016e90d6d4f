use vstd::prelude::*;

verus! {

/// Cost of a horizontal or vertical step.
pub const MOVE_NORMAL_COST: i32 = 10;

/// Cost of a diagonal step.
pub const MOVE_DIAGONAL_COST: i32 = 14;

/// The role a cell plays on the grid.
#[allow(non_camel_case_types)]
#[derive(Clone, Copy, Debug, PartialEq, Eq, Structural)]
pub enum NodeStates {
    DEFAULT,
    WALL,
    START,
    END,
    PATH,
}

impl NodeStates {
    /// Numeric code of the state: 0 DEFAULT, 1 WALL, 2 START, 3 END, 4 PATH.
    pub open spec fn spec_code(self) -> u8 {
        match self {
            NodeStates::DEFAULT => 0,
            NodeStates::WALL => 1,
            NodeStates::START => 2,
            NodeStates::END => 3,
            NodeStates::PATH => 4,
        }
    }

    /// Numeric code of the state, as exposed to hosts that read a byte buffer.
    pub fn code(&self) -> (r: u8)
        ensures
            r == self.spec_code(),
    {
        match self {
            NodeStates::DEFAULT => 0,
            NodeStates::WALL => 1,
            NodeStates::START => 2,
            NodeStates::END => 3,
            NodeStates::PATH => 4,
        }
    }
}

/// Absolute difference of two integers.
pub open spec fn abs_diff(a: int, b: int) -> int {
    if a >= b {
        a - b
    } else {
        b - a
    }
}

pub open spec fn min_int(a: int, b: int) -> int {
    if a <= b {
        a
    } else {
        b
    }
}

pub open spec fn max_int(a: int, b: int) -> int {
    if a >= b {
        a
    } else {
        b
    }
}

/// Octile distance between two cells: the cost of the cheapest eight-way walk
/// between them on a grid without obstacles.
pub open spec fn octile(x1: int, y1: int, x2: int, y2: int) -> int {
    let dx = abs_diff(x1, x2);
    let dy = abs_diff(y1, y2);
    MOVE_NORMAL_COST * (dx + dy) + (MOVE_DIAGONAL_COST - 2 * MOVE_NORMAL_COST) * min_int(dx, dy)
}

/// The octile distance lies between the longer of the two axis distances
/// and the sum of both, in units of a straight step.
pub proof fn lemma_octile_bounds(x1: int, y1: int, x2: int, y2: int)
    ensures
        MOVE_NORMAL_COST * max_int(abs_diff(x1, x2), abs_diff(y1, y2)) <= octile(x1, y1, x2, y2)
            <= MOVE_NORMAL_COST * (abs_diff(x1, x2) + abs_diff(y1, y2)),
{
    let dx = abs_diff(x1, x2);
    let dy = abs_diff(y1, y2);
    let m = min_int(dx, dy);
    let big = max_int(dx, dy);
    assert(MOVE_NORMAL_COST * big <= MOVE_NORMAL_COST * (dx + dy) + (MOVE_DIAGONAL_COST - 2
        * MOVE_NORMAL_COST) * m <= MOVE_NORMAL_COST * (dx + dy)) by (nonlinear_arith)
        requires
            MOVE_NORMAL_COST == 10,
            MOVE_DIAGONAL_COST == 14,
            0 <= m,
            m + big == dx + dy,
    ;
}

/// The octile distance in plain numbers: ten per straight step and fourteen
/// per diagonal one.
pub proof fn lemma_octile_value(x1: int, y1: int, x2: int, y2: int)
    ensures
        octile(x1, y1, x2, y2) == 10 * max_int(abs_diff(x1, x2), abs_diff(y1, y2)) + 4 * min_int(
            abs_diff(x1, x2),
            abs_diff(y1, y2),
        ),
{
    let dx = abs_diff(x1, x2);
    let dy = abs_diff(y1, y2);
    let m = min_int(dx, dy);
    let big = max_int(dx, dy);
    assert(MOVE_NORMAL_COST * (dx + dy) + (MOVE_DIAGONAL_COST - 2 * MOVE_NORMAL_COST) * m == 10
        * big + 4 * m) by (nonlinear_arith)
        requires
            MOVE_NORMAL_COST == 10,
            MOVE_DIAGONAL_COST == 14,
            m + big == dx + dy,
    ;
}

/// One step from `(xa, ya)` to an adjacent `(xb, yb)` brings a cell at most
/// the step's cost closer, in octile distance, to `(x0, y0)`, and at most one
/// closer in the longer axis distance.
pub proof fn lemma_octile_step(x0: int, y0: int, xa: int, ya: int, xb: int, yb: int)
    requires
        abs_diff(xa, xb) <= 1,
        abs_diff(ya, yb) <= 1,
    ensures
        octile(x0, y0, xb, yb) <= octile(x0, y0, xa, ya) + step_cost(xa != xb && ya != yb),
        max_int(abs_diff(x0, xb), abs_diff(y0, yb)) <= max_int(abs_diff(x0, xa), abs_diff(y0, ya))
            + 1,
{
    lemma_octile_value(x0, y0, xa, ya);
    lemma_octile_value(x0, y0, xb, yb);
}

/// The heuristic is admissible: any sequence of `a` straight and `b`
/// diagonal king moves that covers the horizontal and vertical distances
/// costs at least their octile distance. Such moves cover at most `a + b`
/// along each axis and at most `a + 2 * b` along both together.
pub proof fn lemma_octile_admissible(x1: int, y1: int, x2: int, y2: int, a: int, b: int)
    requires
        0 <= a,
        0 <= b,
        abs_diff(x1, x2) <= a + b,
        abs_diff(y1, y2) <= a + b,
        abs_diff(x1, x2) + abs_diff(y1, y2) <= a + 2 * b,
    ensures
        octile(x1, y1, x2, y2) <= MOVE_NORMAL_COST * a + MOVE_DIAGONAL_COST * b,
{
    lemma_octile_value(x1, y1, x2, y2);
    assert(MOVE_NORMAL_COST * a + MOVE_DIAGONAL_COST * b == 10 * a + 14 * b) by (nonlinear_arith)
        requires
            MOVE_NORMAL_COST == 10,
            MOVE_DIAGONAL_COST == 14,
    ;
}

/// Cost of one step, diagonal or not.
pub open spec fn step_cost(diagonal: bool) -> int {
    if diagonal {
        MOVE_DIAGONAL_COST as int
    } else {
        MOVE_NORMAL_COST as int
    }
}

/// One grid cell: its position, role and search bookkeeping.
#[derive(Clone, Copy)]
pub struct Node {
    pub index: usize,
    pub parent_index: Option<usize>,
    pub parent_diagonal: bool,
    pub state: NodeStates,
    pub x: i32,
    pub y: i32,
    pub g: i32,
    pub h: i32,
    pub f: i32,
}

impl Node {
    /// Octile distance from this cell to `goal`.
    pub open spec fn octile_to(self, goal: Node) -> int {
        octile(self.x as int, self.y as int, goal.x as int, goal.y as int)
    }

    /// Whether the heuristic towards `goal` can be computed in `i32`.
    pub open spec fn heuristic_fits(self, goal: Node) -> bool {
        MOVE_NORMAL_COST * (abs_diff(self.x as int, goal.x as int) + abs_diff(
            self.y as int,
            goal.y as int,
        )) <= i32::MAX
    }

    /// A fresh cell: default state, no parent, zero costs.
    pub fn new(index: usize, x: i32, y: i32) -> (r: Node)
        ensures
            r.index == index,
            r.x == x,
            r.y == y,
            r.parent_index.is_none(),
            !r.parent_diagonal,
            r.state == NodeStates::DEFAULT,
            r.g == 0,
            r.h == 0,
            r.f == 0,
    {
        Node {
            index: index,
            parent_index: None,
            parent_diagonal: false,
            state: NodeStates::DEFAULT,
            x: x,
            y: y,
            g: 0,
            h: 0,
            f: 0,
        }
    }

    /// Sets `h` to the octile distance to `goal`; nothing else changes.
    pub fn set_h(&mut self, goal: Node)
        requires
            old(self).heuristic_fits(goal),
        ensures
            final(self).h == old(self).octile_to(goal),
            *final(self) == (Node { h: final(self).h, ..*old(self) }),
    {
        let dx: i32 = if self.x >= goal.x {
            self.x - goal.x
        } else {
            goal.x - self.x
        };
        let dy: i32 = if self.y >= goal.y {
            self.y - goal.y
        } else {
            goal.y - self.y
        };
        let m: i32 = if dx <= dy {
            dx
        } else {
            dy
        };
        let straight: i32 = dx + dy;
        let extra: i32 = MOVE_DIAGONAL_COST - 2 * MOVE_NORMAL_COST;
        assert(0 <= m <= straight);
        assert(0 <= MOVE_NORMAL_COST * straight <= i32::MAX);
        assert(-6 * straight <= extra * m <= 0) by (nonlinear_arith)
            requires
                extra == -6,
                0 <= m <= straight,
        ;
        self.h = MOVE_NORMAL_COST * straight + extra * m;
    }

    /// Sets `g` to the parent's `g` plus the cost of the step from it, and
    /// `f` to `g + h`; nothing else changes.
    pub fn set_g_f(&mut self, parent: &Node, diagonal: bool)
        requires
            i32::MIN <= parent.g + step_cost(diagonal) <= i32::MAX,
            i32::MIN <= parent.g + step_cost(diagonal) + old(self).h <= i32::MAX,
        ensures
            final(self).g == parent.g + step_cost(diagonal),
            final(self).f == final(self).g + old(self).h,
            *final(self) == (Node { g: final(self).g, f: final(self).f, ..*old(self) }),
    {
        self.g = parent.g + if diagonal {
            MOVE_DIAGONAL_COST
        } else {
            MOVE_NORMAL_COST
        };
        self.f = self.g + self.h;
    }
}

/// Two nodes are the same cell when their indices agree.
impl PartialEq for Node {
    fn eq(&self, other: &Node) -> (r: bool) {
        self.index == other.index
    }
}

impl vstd::std_specs::cmp::PartialEqSpecImpl for Node {
    open spec fn obeys_eq_spec() -> bool {
        true
    }

    open spec fn eq_spec(&self, other: &Node) -> bool {
        self.index == other.index
    }
}

} // verus!
