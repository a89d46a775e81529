//! Placement of the nodes on a grid: one row per depth, each row centred under the widest.

use vstd::prelude::*;
use crate::trace::well_formed;

verus! {

/// How many of the first `i` entries lie at depth `d`.
pub open spec fn count_at(depths: Seq<usize>, i: int, d: int) -> int
    decreases i,
{
    if i <= 0 {
        0
    } else {
        count_at(depths, i - 1, d) + if depths[i - 1] == d {
            1int
        } else {
            0int
        }
    }
}

/// How many nodes lie at depth `d`.
pub open spec fn level_size(depths: Seq<usize>, d: int) -> int {
    count_at(depths, depths.len() as int, d)
}

/// The size of the largest level among the first `n` entries.
pub open spec fn width_of(depths: Seq<usize>, n: int) -> int
    decreases n,
{
    if n <= 0 {
        0
    } else {
        let here = count_at(depths, n, depths[n - 1] as int);
        let before = width_of(depths, n - 1);
        if here > before {
            here
        } else {
            before
        }
    }
}

/// The size of the largest level of the whole tree.
pub open spec fn tree_width(depths: Seq<usize>) -> int {
    width_of(depths, depths.len() as int)
}

/// Where node `i` stands in its row, in half columns from the left edge of the widest
/// level: two for each node of its level before it, and one for each node that its level
/// has less than the widest, which centres the level.
pub open spec fn half_columns_of(depths: Seq<usize>, i: int) -> int {
    2 * count_at(depths, i, depths[i] as int) + (tree_width(depths) - level_size(
        depths,
        depths[i] as int,
    ))
}

/// The place of a node on the grid.
#[derive(Debug, Clone, Copy, PartialEq, Eq, Structural)]
pub struct GridPosition {
    /// Whole columns from the left edge of the widest level.
    pub column: usize,
    /// Whether the node stands half a column further to the right.
    pub half: bool,
    /// The row, which is the depth of the node.
    pub row: usize,
}

impl GridPosition {
    /// The horizontal place in half columns.
    pub open spec fn half_columns(self) -> int {
        2 * self.column + if self.half {
            1int
        } else {
            0int
        }
    }
}

/// Counts grow with the prefix, by at most one per entry.
pub proof fn lemma_count_grows(depths: Seq<usize>, i: int, j: int, d: int)
    requires
        0 <= i <= j,
    ensures
        0 <= count_at(depths, i, d) <= count_at(depths, j, d) <= count_at(depths, i, d) + (j - i),
    decreases j,
{
    if j > 0 {
        if i < j {
            lemma_count_grows(depths, i, j - 1, d);
        } else {
            lemma_count_grows(depths, i - 1, j - 1, d);
        }
    }
}

/// No level among the first `n` entries is larger than the width, which itself is at most
/// `n`.
pub proof fn lemma_width_bounds(depths: Seq<usize>, n: int, d: int)
    requires
        0 <= n <= depths.len(),
    ensures
        0 <= count_at(depths, n, d) <= width_of(depths, n) <= n,
    decreases n,
{
    if n > 0 {
        lemma_width_bounds(depths, n - 1, d);
        lemma_count_grows(depths, 0, n, depths[n - 1] as int);
    }
}

/// Some level among the first `n` entries is as large as the width.
pub proof fn lemma_width_attained(depths: Seq<usize>, n: int) -> (d: int)
    requires
        1 <= n <= depths.len(),
    ensures
        0 <= d,
        count_at(depths, n, d) == width_of(depths, n),
        exists|i: int| 0 <= i < n && depths[i] == d,
    decreases n,
{
    let last = depths[n - 1] as int;
    let here = count_at(depths, n, last);
    lemma_width_bounds(depths, n - 1, last);
    if here > width_of(depths, n - 1) {
        last
    } else {
        lemma_width_attained(depths, n - 1)
    }
}

/// A level that holds node `i` has more nodes in all than it has before `i`.
pub proof fn lemma_level_holds(depths: Seq<usize>, i: int)
    requires
        0 <= i < depths.len(),
    ensures
        0 <= count_at(depths, i, depths[i] as int) < level_size(depths, depths[i] as int),
{
    let d = depths[i] as int;
    lemma_count_grows(depths, i + 1, depths.len() as int, d);
    lemma_count_grows(depths, 0, i, d);
}

/// The nodes of a trace on the grid.
#[derive(Debug, Clone, PartialEq, Eq)]
pub struct Grid {
    /// The size of the largest level.
    pub width: usize,
    /// The place of each node, in trace order.
    pub cells: Vec<GridPosition>,
}

/// What the grid of a trace holds: the size of its largest level, and for every node its
/// depth as the row and its centred place within the row.
pub open spec fn is_grid_of(grid: Grid, depths: Seq<usize>) -> bool {
    &&& grid.width == tree_width(depths)
    &&& grid.cells.len() == depths.len()
    &&& forall|i: int|
        0 <= i < depths.len() ==> {
            &&& (#[trigger] grid.cells[i]).row == depths[i]
            &&& grid.cells[i].half_columns() == half_columns_of(depths, i)
        }
}

/// Counts the nodes of each level and finds the size of the largest. The counts cover the
/// levels from 0 to the deepest one that holds a node.
pub fn level_sizes(depths: &Vec<usize>) -> (r: (Vec<usize>, usize))
    requires
        well_formed(depths@),
    ensures
        forall|d: int| 0 <= d < r.0.len() ==> #[trigger] r.0[d] == level_size(depths@, d),
        forall|d: int| r.0.len() <= d ==> #[trigger] level_size(depths@, d) == 0,
        r.1 == tree_width(depths@),
        1 <= r.1 <= depths.len(),
{
    let n: usize = depths.len();
    let mut num_in_level: Vec<usize> = Vec::new();
    let mut width: usize = 0;
    let mut i: usize = 0;
    while i < n
        invariant
            0 <= i <= n,
            n == depths.len(),
            well_formed(depths@),
            i > 0 ==> num_in_level.len() > depths[i - 1],
            i == 0 ==> num_in_level.len() == 0,
            forall|d: int|
                0 <= d < num_in_level.len() ==> #[trigger] num_in_level[d] == count_at(
                    depths@,
                    i as int,
                    d,
                ),
            forall|d: int|
                num_in_level.len() <= d ==> #[trigger] count_at(depths@, i as int, d) == 0,
            width == width_of(depths@, i as int),
            i > 0 ==> width >= 1,
        decreases n - i,
    {
        let depth: usize = depths[i];
        proof {
            lemma_count_grows(depths@, 0, i as int, depth as int);
        }
        if depth == num_in_level.len() {
            num_in_level.push(1);
        } else {
            let grown: usize = num_in_level[depth] + 1;
            num_in_level[depth] = grown;
        }
        if num_in_level[depth] > width {
            width = num_in_level[depth];
        }
        assert forall|d: int| num_in_level.len() <= d implies #[trigger] count_at(
            depths@,
            i + 1,
            d,
        ) == 0 by {
            assert(count_at(depths@, i as int, d) == 0);
        }
        i = i + 1;
    }
    proof {
        lemma_width_bounds(depths@, n as int, 0);
    }
    (num_in_level, width)
}

/// A vector of `len` zeros.
fn zeros(len: usize) -> (v: Vec<usize>)
    ensures
        v.len() == len,
        forall|k: int| 0 <= k < len ==> v[k] == 0,
{
    let mut v: Vec<usize> = Vec::new();
    while v.len() < len
        invariant
            v.len() <= len,
            forall|k: int| 0 <= k < v.len() ==> v[k] == 0,
        decreases len - v.len(),
    {
        v.push(0);
    }
    v
}

/// Places every node on the grid. The row of a node is its depth. Within a row the nodes
/// stand one column apart in trace order, and the row is centred under the widest one.
pub fn place(depths: &Vec<usize>) -> (grid: Grid)
    requires
        well_formed(depths@),
    ensures
        is_grid_of(grid, depths@),
        levels_spread(grid, depths@),
{
    let n: usize = depths.len();
    let (num_in_level, width) = level_sizes(depths);
    let mut seen_at_level: Vec<usize> = zeros(num_in_level.len());
    let mut cells: Vec<GridPosition> = Vec::new();
    let mut i: usize = 0;
    while i < n
        invariant
            0 <= i <= n,
            n == depths.len(),
            cells.len() == i,
            seen_at_level.len() == num_in_level.len(),
            width == tree_width(depths@),
            forall|d: int|
                0 <= d < num_in_level.len() ==> #[trigger] num_in_level[d] == level_size(
                    depths@,
                    d,
                ),
            forall|d: int| num_in_level.len() <= d ==> #[trigger] level_size(depths@, d) == 0,
            forall|d: int|
                0 <= d < seen_at_level.len() ==> #[trigger] seen_at_level[d] == count_at(
                    depths@,
                    i as int,
                    d,
                ),
            forall|k: int|
                0 <= k < i ==> {
                    &&& (#[trigger] cells[k]).row == depths[k]
                    &&& cells[k].half_columns() == half_columns_of(depths@, k)
                },
        decreases n - i,
    {
        let depth: usize = depths[i];
        proof {
            lemma_level_holds(depths@, i as int);
            lemma_width_bounds(depths@, n as int, depth as int);
        }
        let seen: usize = seen_at_level[depth];
        let slack: usize = width - num_in_level[depth];
        let cell = GridPosition { column: seen + slack / 2, half: slack % 2 == 1, row: depth };
        cells.push(cell);
        seen_at_level[depth] = seen + 1;
        i = i + 1;
    }
    let grid = Grid { width, cells };
    proof {
        lemma_levels_spread(grid, depths@);
    }
    grid
}

/// Every rank below the size of a level is taken by one of its nodes.
pub proof fn lemma_rank_taken(depths: Seq<usize>, n: int, d: int, c: int) -> (i: int)
    requires
        0 <= n <= depths.len(),
        0 <= c < count_at(depths, n, d),
    ensures
        0 <= i < n,
        depths[i] == d,
        count_at(depths, i, d) == c,
    decreases n,
{
    if depths[n - 1] == d && count_at(depths, n - 1, d) == c {
        n - 1
    } else {
        lemma_rank_taken(depths, n - 1, d, c)
    }
}

/// Two nodes of one level stand in one row, the later at least a whole column to the
/// right of the earlier.
pub proof fn lemma_same_level_apart(grid: Grid, depths: Seq<usize>, i: int, j: int)
    requires
        is_grid_of(grid, depths),
        0 <= i < j < depths.len(),
        depths[i] == depths[j],
    ensures
        grid.cells[i].row == grid.cells[j].row,
        grid.cells[i].half_columns() + 2 <= grid.cells[j].half_columns(),
        grid.cells[i].column < grid.cells[j].column,
        grid.cells[i].half == grid.cells[j].half,
{
    let d = depths[i] as int;
    lemma_count_grows(depths, i + 1, j, d);
}

/// Every node stands between the left and the right edge of the widest level, and its
/// level leaves as much room on the left of its first node as on the right of its last.
pub proof fn lemma_centred(depths: Seq<usize>, i: int)
    requires
        0 <= i < depths.len(),
    ensures
        0 <= half_columns_of(depths, i) <= 2 * (tree_width(depths) - 1),
        half_columns_of(depths, i) == (tree_width(depths) - level_size(depths, depths[i] as int))
            + 2 * count_at(depths, i, depths[i] as int),
        2 * (tree_width(depths) - 1) - half_columns_of(depths, i) == (tree_width(depths)
            - level_size(depths, depths[i] as int)) + 2 * (level_size(depths, depths[i] as int) - 1
            - count_at(depths, i, depths[i] as int)),
{
    lemma_level_holds(depths, i);
    lemma_width_bounds(depths, depths.len() as int, depths[i] as int);
}

/// Some level is as large as the width, and such a level spans the width: its first node
/// stands on the left edge and its last node `width - 1` columns to the right of it.
pub proof fn lemma_widest_level_span(grid: Grid, depths: Seq<usize>) -> (ends: (int, int))
    requires
        depths.len() > 0,
        is_grid_of(grid, depths),
    ensures
        0 <= ends.0 <= ends.1 < depths.len(),
        depths[ends.0] == depths[ends.1],
        level_size(depths, depths[ends.0] as int) == grid.width >= 1,
        grid.cells[ends.0].half_columns() == 0,
        grid.cells[ends.1].half_columns() == 2 * (grid.width - 1),
        grid.cells[ends.1].column - grid.cells[ends.0].column == grid.width - 1,
{
    let n = depths.len() as int;
    let d = lemma_width_attained(depths, n);
    assert(tree_width(depths) >= 1) by {
        lemma_level_holds(depths, 0);
        lemma_width_bounds(depths, n, depths[0] as int);
    }
    let first = lemma_rank_taken(depths, n, d, 0);
    let last = lemma_rank_taken(depths, n, d, tree_width(depths) - 1);
    if last < first {
        lemma_count_grows(depths, last + 1, first, d);
    }
    (first, last)
}

/// Two nodes of one level stand in one row, the later at least a whole column to the right
/// of the earlier; and some level spans the whole width.
pub open spec fn levels_spread(grid: Grid, depths: Seq<usize>) -> bool {
    &&& forall|i: int, j: int|
        0 <= i < j < depths.len() && depths[i] == depths[j] ==> {
            &&& (#[trigger] grid.cells[i]).row == (#[trigger] grid.cells[j]).row
            &&& grid.cells[i].half_columns() + 2 <= grid.cells[j].half_columns()
        }
    &&& exists|i: int, j: int|
        {
            &&& 0 <= i <= j < depths.len()
            &&& depths[i] == depths[j]
            &&& (#[trigger] grid.cells[i]).half_columns() == 0
            &&& (#[trigger] grid.cells[j]).half_columns() == 2 * (grid.width - 1)
        }
}

/// The grid of a trace spreads its levels.
pub proof fn lemma_levels_spread(grid: Grid, depths: Seq<usize>)
    requires
        depths.len() > 0,
        is_grid_of(grid, depths),
    ensures
        levels_spread(grid, depths),
{
    assert forall|i: int, j: int|
        0 <= i < j < depths.len() && depths[i] == depths[j] implies {
        &&& (#[trigger] grid.cells[i]).row == (#[trigger] grid.cells[j]).row
        &&& grid.cells[i].half_columns() + 2 <= grid.cells[j].half_columns()
    } by {
        lemma_same_level_apart(grid, depths, i, j);
    }
    let ends = lemma_widest_level_span(grid, depths);
    assert(grid.cells[ends.0].half_columns() == 0 && grid.cells[ends.1].half_columns() == 2 * (
        grid.width - 1));
}

} // verus!
