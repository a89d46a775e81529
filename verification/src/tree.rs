//! The tree that a depth sequence implies, and the walk of a cart over it.

use vstd::prelude::*;
use crate::trace::well_formed;

verus! {

/// The most recent entry before `i` that lies at depth `d`; 0 where there is none.
pub open spec fn last_at(depths: Seq<usize>, i: int, d: int) -> int
    decreases i,
{
    if i <= 0 {
        0
    } else if depths[i - 1] == d {
        i - 1
    } else {
        last_at(depths, i - 1, d)
    }
}

/// The node under which node `i` hangs. A node that does not lie above its predecessor
/// hangs under that predecessor; one that backtracks to depth `d` hangs under the most
/// recent node at depth `d - 1`. The root is its own parent.
pub open spec fn parent_of(depths: Seq<usize>, i: int) -> int {
    if i <= 0 {
        0
    } else if depths[i] >= depths[i - 1] {
        i - 1
    } else {
        last_at(depths, i, depths[i] - 1)
    }
}

/// The edges of the tree on the first `n` nodes: one per node but the root, from its parent.
pub open spec fn tree_edges(depths: Seq<usize>, n: int) -> Seq<(int, int)> {
    Seq::new((n - 1) as nat, |k: int| (parent_of(depths, k + 1), k + 1))
}

/// The nodes from the root down to node `i`, each the parent of the next.
pub open spec fn ancestors(depths: Seq<usize>, i: int) -> Seq<int>
    decreases i,
{
    if i <= 0 {
        seq![0]
    } else {
        proof {
            lemma_parent_below(depths, i);
        }
        ancestors(depths, parent_of(depths, i)).push(i)
    }
}

/// The nodes passed on the way up from `from` until `to` is met, both included.
pub open spec fn climb(depths: Seq<usize>, from: int, to: int) -> Seq<int>
    decreases from,
{
    if from == to || from <= 0 {
        seq![from]
    } else {
        proof {
            lemma_parent_below(depths, from);
        }
        seq![from] + climb(depths, parent_of(depths, from), to)
    }
}

/// The nodes that the cart passes again between node `i - 1` and node `i`: none unless
/// node `i` backtracks, else the way up from the parent of node `i - 1` to the parent of
/// node `i`.
pub open spec fn retrace(depths: Seq<usize>, i: int) -> Seq<int> {
    if 1 <= i && depths[i] < depths[i - 1] {
        climb(depths, parent_of(depths, i - 1), parent_of(depths, i))
    } else {
        Seq::empty()
    }
}

/// The walk of the cart over the first `n` nodes: every node in trace order, with the
/// retraced ancestors before each node that backtracks.
pub open spec fn cart_walk(depths: Seq<usize>, n: int) -> Seq<int>
    decreases n,
{
    if n <= 1 {
        seq![0]
    } else {
        cart_walk(depths, n - 1) + retrace(depths, n - 1) + seq![n - 1]
    }
}

/// Two nodes are linked when an edge joins them, in either direction.
pub open spec fn linked(edges: Seq<(int, int)>, a: int, b: int) -> bool {
    exists|k: int| 0 <= k < edges.len() && (#[trigger] edges[k] == (a, b) || edges[k] == (b, a))
}

/// Entry `j` of `path` is a node after the root, and the next entry is its parent.
pub open spec fn climbs_at(depths: Seq<usize>, path: Seq<int>, j: int) -> bool {
    path[j] >= 1 && path[j + 1] == parent_of(depths, path[j])
}

/// An edge joins entry `j` of `walk` to the next entry.
pub open spec fn follows_at(edges: Seq<(int, int)>, walk: Seq<int>, j: int) -> bool {
    linked(edges, walk[j], walk[j + 1])
}

/// The most recent entry at a depth lies before the point it is asked from.
pub proof fn lemma_last_at_below(depths: Seq<usize>, i: int, d: int)
    ensures
        0 <= last_at(depths, i, d),
        i > 0 ==> last_at(depths, i, d) < i,
    decreases i,
{
    if i > 0 && depths[i - 1] != d {
        lemma_last_at_below(depths, i - 1, d);
    }
}

/// A parent precedes its child.
pub proof fn lemma_parent_below(depths: Seq<usize>, i: int)
    ensures
        0 <= parent_of(depths, i),
        i > 0 ==> parent_of(depths, i) < i,
{
    if i > 0 {
        lemma_last_at_below(depths, i, depths[i] - 1);
    }
}

/// Below the depth of node `i - 1`, every level has a most recent node before `i`, and all
/// nodes after it lie deeper.
pub proof fn lemma_level_open(depths: Seq<usize>, i: int, e: int)
    requires
        well_formed(depths),
        1 <= i <= depths.len(),
        0 <= e < depths[i - 1],
    ensures
        0 <= last_at(depths, i, e) < i - 1,
        depths[last_at(depths, i, e)] == e,
        forall|j: int| last_at(depths, i, e) < j < i ==> depths[j] > e,
    decreases i,
{
    if i > 1 {
        if depths[i - 2] > e {
            lemma_level_open(depths, i - 1, e);
        } else {
            assert(last_at(depths, i - 1, e) == i - 2);
        }
    }
}

/// Entries at other depths do not change which entry at depth `e` is the most recent.
pub proof fn lemma_last_at_skip(depths: Seq<usize>, a: int, b: int, e: int)
    requires
        0 <= a <= b,
        forall|j: int| a <= j < b ==> depths[j] != e,
    ensures
        last_at(depths, b, e) == last_at(depths, a, e),
    decreases b - a,
{
    if a < b {
        lemma_last_at_skip(depths, a, b - 1, e);
    }
}

/// The line of ancestors starts at the root, ends at the node itself and stays at or
/// before it.
pub proof fn lemma_ancestors_shape(depths: Seq<usize>, i: int)
    requires
        0 <= i,
    ensures
        ancestors(depths, i).len() >= 1,
        ancestors(depths, i)[0] == 0,
        ancestors(depths, i).last() == i,
        forall|k: int|
            0 <= k < ancestors(depths, i).len() ==> 0 <= #[trigger] ancestors(depths, i)[k] <= i,
    decreases i,
{
    if i > 0 {
        lemma_parent_below(depths, i);
        lemma_ancestors_shape(depths, parent_of(depths, i));
    }
}

/// An ancestor of a node other than the node itself is an ancestor of its parent.
pub proof fn lemma_ancestors_above(depths: Seq<usize>, k: int, x: int)
    requires
        0 <= k,
        ancestors(depths, k).contains(x),
        x != k,
    ensures
        k > 0,
        ancestors(depths, parent_of(depths, k)).contains(x),
{
    if k > 0 {
        let whole = ancestors(depths, k);
        let j = choose|j: int| 0 <= j < whole.len() && whole[j] == x;
        assert(ancestors(depths, parent_of(depths, k))[j] == x);
    } else {
        assert(ancestors(depths, k) =~= seq![0]);
    }
}

/// For every level down to its own, the most recent node at that level is among the
/// ancestors of a node.
pub proof fn lemma_level_heads(depths: Seq<usize>, k: int, e: int)
    requires
        well_formed(depths),
        0 <= k < depths.len(),
        0 <= e <= depths[k],
    ensures
        ancestors(depths, k).contains(last_at(depths, k + 1, e)),
    decreases k,
{
    let line = ancestors(depths, k);
    if e == depths[k] {
        assert(line[line.len() - 1] == k);
    } else if k > 0 {
        let up = ancestors(depths, parent_of(depths, k));
        let head = last_at(depths, k, e);
        if depths[k] >= depths[k - 1] {
            lemma_level_heads(depths, k - 1, e);
            let m = choose|m: int| 0 <= m < up.len() && up[m] == head;
            assert(line[m] == head);
        } else {
            let d = depths[k] as int;
            let p = last_at(depths, k, d - 1);
            lemma_level_open(depths, k, d - 1);
            lemma_last_at_skip(depths, p + 1, k, e);
            lemma_level_heads(depths, p, e);
            let m = choose|m: int| 0 <= m < up.len() && up[m] == head;
            assert(line[m] == head);
        }
    }
}

/// A climb towards an ancestor moves from child to parent and ends at that ancestor.
pub proof fn lemma_climb_shape(depths: Seq<usize>, from: int, to: int)
    requires
        0 <= from,
        ancestors(depths, from).contains(to),
    ensures
        climb(depths, from, to).len() >= 1,
        climb(depths, from, to)[0] == from,
        climb(depths, from, to).last() == to,
        forall|j: int|
            0 <= j < climb(depths, from, to).len() ==> 0 <= #[trigger] climb(depths, from, to)[j]
                <= from,
        forall|j: int|
            0 <= j < climb(depths, from, to).len() - 1 ==> #[trigger] climbs_at(
                depths,
                climb(depths, from, to),
                j,
            ),
    decreases from,
{
    if from != to {
        lemma_ancestors_above(depths, from, to);
        lemma_parent_below(depths, from);
        let up = parent_of(depths, from);
        lemma_climb_shape(depths, up, to);
        let rest = climb(depths, up, to);
        let all = climb(depths, from, to);
        assert(all =~= seq![from] + rest);
        assert forall|j: int| 0 <= j < all.len() - 1 implies #[trigger] climbs_at(
            depths,
            all,
            j,
        ) by {
            if j > 0 {
                assert(climbs_at(depths, rest, j - 1));
                assert(all[j] == rest[j - 1] && all[j + 1] == rest[j]);
            } else {
                assert(all[1] == rest[0]);
            }
        }
        assert forall|j: int| 0 <= j < all.len() implies 0 <= #[trigger] all[j] <= from by {
            if j > 0 {
                assert(all[j] == rest[j - 1]);
            }
        }
    }
}

/// The tree has one edge less than it has nodes. Each edge leads from a node to a later
/// one, and the edges lead to the nodes after the root in order, so that no node has two
/// parents.
pub proof fn lemma_one_parent_each(depths: Seq<usize>, n: int)
    requires
        well_formed(depths),
        1 <= n <= depths.len(),
    ensures
        tree_edges(depths, n).len() == n - 1,
        forall|k: int|
            0 <= k < n - 1 ==> 0 <= (#[trigger] tree_edges(depths, n)[k]).0 < tree_edges(
                depths,
                n,
            )[k].1 == k + 1,
        forall|j: int, k: int|
            0 <= j < n - 1 && 0 <= k < n - 1 && j != k ==> (#[trigger] tree_edges(depths, n)[j]).1
                != (#[trigger] tree_edges(depths, n)[k]).1,
{
    assert forall|k: int| 0 <= k < n - 1 implies 0 <= (#[trigger] tree_edges(depths, n)[k]).0
        < tree_edges(depths, n)[k].1 == k + 1 by {
        lemma_parent_below(depths, k + 1);
    }
}

/// A parent lies one level above its child, or on the child's level where the child
/// follows a node of its own level.
pub proof fn lemma_parent_level(depths: Seq<usize>, i: int)
    requires
        well_formed(depths),
        1 <= i < depths.len(),
    ensures
        depths[parent_of(depths, i)] == depths[i] - 1 || (depths[parent_of(depths, i)]
            == depths[i] && parent_of(depths, i) == i - 1),
{
    if depths[i] < depths[i - 1] {
        lemma_level_open(depths, i, depths[i] - 1);
    }
}

/// The walk starts at the root, ends at the last node, stays among the nodes and is at
/// least as long as the trace.
pub proof fn lemma_walk_shape(depths: Seq<usize>, n: int)
    requires
        well_formed(depths),
        1 <= n <= depths.len(),
    ensures
        cart_walk(depths, n).len() >= n,
        cart_walk(depths, n)[0] == 0,
        cart_walk(depths, n).last() == n - 1,
        forall|j: int|
            0 <= j < cart_walk(depths, n).len() ==> 0 <= #[trigger] cart_walk(depths, n)[j] < n,
    decreases n,
{
    if n > 1 {
        let i = n - 1;
        let before = cart_walk(depths, i);
        let again = retrace(depths, i);
        let walk = cart_walk(depths, n);
        lemma_walk_shape(depths, i);
        if depths[i] < depths[i - 1] {
            lemma_backtrack_shape(depths, i);
        }
        assert(walk == before + again + seq![i]);
    }
}

/// Before a node that backtracks, the cart climbs from the parent of the node it leaves to
/// the parent of the node it heads for, one edge at a time.
pub proof fn lemma_backtrack_shape(depths: Seq<usize>, i: int)
    requires
        well_formed(depths),
        1 <= i < depths.len(),
        depths[i] < depths[i - 1],
    ensures
        i >= 2,
        retrace(depths, i).len() >= 1,
        retrace(depths, i)[0] == parent_of(depths, i - 1),
        retrace(depths, i).last() == parent_of(depths, i),
        forall|j: int|
            0 <= j < retrace(depths, i).len() ==> 0 <= #[trigger] retrace(depths, i)[j] < i - 1,
        forall|j: int|
            0 <= j < retrace(depths, i).len() - 1 ==> #[trigger] climbs_at(
                depths,
                retrace(depths, i),
                j,
            ),
{
    let d = depths[i] as int;
    lemma_level_open(depths, i, d - 1);
    lemma_level_heads(depths, i - 1, d - 1);
    lemma_parent_below(depths, i - 1);
    lemma_ancestors_above(depths, i - 1, parent_of(depths, i));
    lemma_climb_shape(depths, parent_of(depths, i - 1), parent_of(depths, i));
}

/// The walk gains at least one entry for every node, and more for a node that backtracks.
pub proof fn lemma_walk_grows(depths: Seq<usize>, m: int, n: int)
    requires
        well_formed(depths),
        1 <= m <= n <= depths.len(),
    ensures
        cart_walk(depths, n).len() - n >= cart_walk(depths, m).len() - m,
        m < n && depths[m] < depths[m - 1] ==> cart_walk(depths, n).len() - n > cart_walk(
            depths,
            m,
        ).len() - m,
    decreases n - m,
{
    if m < n {
        lemma_walk_grows(depths, m + 1, n);
    }
}

/// Where any node backtracks, the walk is longer than the trace.
pub proof fn lemma_backtrack_lengthens(depths: Seq<usize>, n: int, i: int)
    requires
        well_formed(depths),
        1 <= i < n <= depths.len(),
        depths[i] < depths[i - 1],
    ensures
        cart_walk(depths, n).len() > n,
{
    lemma_walk_shape(depths, i);
    lemma_walk_grows(depths, i, n);
}

/// An edge joins every node after the root to its parent.
pub proof fn lemma_parent_linked(depths: Seq<usize>, n: int, x: int)
    requires
        1 <= x < n,
    ensures
        linked(tree_edges(depths, n), parent_of(depths, x), x),
        linked(tree_edges(depths, n), x, parent_of(depths, x)),
{
    let edges = tree_edges(depths, n);
    assert(edges[x - 1] == (parent_of(depths, x), x));
}

/// The walk follows the tree: an edge joins each entry of the walk to the next.
pub proof fn lemma_walk_follows_edges(depths: Seq<usize>, n: int)
    requires
        well_formed(depths),
        1 <= n <= depths.len(),
    ensures
        forall|j: int|
            0 <= j < cart_walk(depths, n).len() - 1 ==> #[trigger] follows_at(
                tree_edges(depths, n),
                cart_walk(depths, n),
                j,
            ),
    decreases n,
{
    if n > 1 {
        let i = n - 1;
        let before = cart_walk(depths, i);
        let again = retrace(depths, i);
        let walk = cart_walk(depths, n);
        let edges = tree_edges(depths, n);
        let earlier = tree_edges(depths, i);
        lemma_walk_follows_edges(depths, i);
        lemma_walk_shape(depths, i);
        assert(walk =~= before + again + seq![i]);
        if depths[i] < depths[i - 1] {
            lemma_backtrack_shape(depths, i);
        }
        assert forall|j: int| 0 <= j < walk.len() - 1 implies #[trigger] follows_at(
            edges,
            walk,
            j,
        ) by {
            let a = walk[j];
            let b = walk[j + 1];
            if j + 1 < before.len() {
                assert(a == before[j] && b == before[j + 1]);
                assert(follows_at(earlier, before, j));
                let k = choose|k: int|
                    0 <= k < earlier.len() && (#[trigger] earlier[k] == (a, b) || earlier[k] == (
                        b,
                        a,
                    ));
                assert(edges[k] == earlier[k]);
            } else if j + 1 == walk.len() - 1 {
                assert(b == i);
                assert(a == parent_of(depths, i)) by {
                    if again.len() > 0 {
                        assert(a == again[j - before.len()]);
                    } else {
                        assert(a == before[j]);
                    }
                }
                lemma_parent_linked(depths, n, i);
            } else if j + 1 == before.len() {
                assert(a == before[j] && b == again[0]);
                lemma_parent_linked(depths, n, i - 1);
            } else {
                let m = j - before.len();
                assert(a == again[m] && b == again[m + 1]);
                assert(climbs_at(depths, again, m));
                lemma_parent_linked(depths, n, a);
            }
        }
    }
}

/// Node indices as mathematical integers.
pub open spec fn node_ints(nodes: Seq<usize>) -> Seq<int> {
    nodes.map_values(|x: usize| x as int)
}

/// Edges as pairs of mathematical integers.
pub open spec fn edge_ints(edges: Seq<(usize, usize)>) -> Seq<(int, int)> {
    edges.map_values(|e: (usize, usize)| (e.0 as int, e.1 as int))
}

/// The tree recovered from a trace and the walk of the cart over it.
#[derive(Debug, Clone, PartialEq, Eq)]
pub struct Reconstruction {
    /// One edge per node but the root, as (parent, child), in the order of the children.
    pub edges: Vec<(usize, usize)>,
    /// Every node in trace order, with the ancestors passed again on each backtrack.
    pub cart_path: Vec<usize>,
}

/// Taking the last node off a sequence of nodes takes it off their integers.
proof fn lemma_node_ints_pop(nodes: Seq<usize>, rest: Seq<int>, top: int)
    requires
        node_ints(nodes) == rest.push(top),
    ensures
        node_ints(nodes.subrange(0, nodes.len() - 1)) == rest,
{
    let whole = node_ints(nodes);
    let cut = nodes.subrange(0, nodes.len() - 1);
    assert(whole.len() == rest.len() + 1);
    assert forall|k: int| 0 <= k < rest.len() implies #[trigger] node_ints(cut)[k] == rest[k] by {
        assert(whole[k] == rest.push(top)[k]);
    }
    assert(node_ints(cut) =~= rest);
}

/// Walks the cart back up the ancestor stack `pos` until it stands on `target`, noting
/// each node it passes in `cart_path`. The node the cart backtracks from is on top of the
/// stack and is dropped unnoted; `target` stays on the stack.
fn retrace_to(
    depths: &Vec<usize>,
    i: usize,
    target: usize,
    pos: &mut Vec<usize>,
    cart_path: &mut Vec<usize>,
)
    requires
        well_formed(depths@),
        1 <= i < depths.len(),
        depths[i as int] < depths[i - 1],
        target as int == parent_of(depths@, i as int),
        node_ints(old(pos)@) == ancestors(depths@, i - 1),
    ensures
        node_ints(final(pos)@) == ancestors(depths@, target as int),
        node_ints(final(cart_path)@) == node_ints(old(cart_path)@) + retrace(depths@, i as int),
{
    let ghost d = depths[i as int] as int;
    let ghost start = parent_of(depths@, i - 1);
    let ghost before = node_ints(cart_path@);
    proof {
        lemma_level_open(depths@, i as int, d - 1);
        lemma_level_heads(depths@, i - 1, d - 1);
        lemma_parent_below(depths@, i - 1);
        lemma_ancestors_shape(depths@, start);
        lemma_ancestors_above(depths@, i - 1, target as int);
        lemma_node_ints_pop(pos@, ancestors(depths@, start), i - 1);
    }
    pos.pop();
    loop
        invariant_except_break
            pos.len() >= 1,
            node_ints(pos@) == ancestors(depths@, pos@.last() as int),
            ancestors(depths@, pos@.last() as int).contains(target as int),
            node_ints(cart_path@) + climb(depths@, pos@.last() as int, target as int) == before
                + climb(depths@, start, target as int),
        ensures
            node_ints(pos@) == ancestors(depths@, target as int),
            node_ints(cart_path@) == before + climb(depths@, start, target as int),
        decreases pos.len(),
    {
        let ghost top = pos@.last() as int;
        let ghost noted = node_ints(cart_path@);
        let ghost stack = pos@;
        match pos.pop() {
            Some(x) => {
                cart_path.push(x);
                assert(node_ints(cart_path@) =~= noted.push(x as int));
                if x == target {
                    pos.push(x);
                    assert(node_ints(pos@) =~= ancestors(depths@, top));
                    assert(climb(depths@, top, target as int) =~= seq![top]);
                    break ;
                }
                proof {
                    let up = parent_of(depths@, top);
                    let line = ancestors(depths@, up);
                    lemma_ancestors_above(depths@, top, target as int);
                    lemma_parent_below(depths@, top);
                    lemma_ancestors_shape(depths@, up);
                    lemma_node_ints_pop(stack, line, top);
                    assert(pos@.last() as int == up) by {
                        assert(node_ints(pos@)[pos@.len() - 1] == line[line.len() - 1]);
                    }
                    assert(noted + climb(depths@, top, target as int) =~= noted.push(x as int)
                        + climb(depths@, up, target as int));
                }
            },
            None => {
                break ;
            },
        }
    }
}

/// Recovers the tree and the cart's walk from the depths of a trace. Scanning the depths in
/// order, each node after the root is hung under its parent, and before a node that
/// backtracks the cart is led back up over the ancestors it leaves.
pub fn reconstruct(depths: &Vec<usize>) -> (r: Reconstruction)
    requires
        well_formed(depths@),
    ensures
        edge_ints(r.edges@) == tree_edges(depths@, depths@.len() as int),
        node_ints(r.cart_path@) == cart_walk(depths@, depths@.len() as int),
        r.edges.len() == depths.len() - 1,
        forall|k: int|
            0 <= k < r.edges.len() ==> (#[trigger] r.edges[k]).0 < r.edges[k].1 == k + 1,
        r.cart_path.len() >= depths.len(),
        r.cart_path[0] == 0,
        forall|j: int| 0 <= j < r.cart_path.len() ==> #[trigger] r.cart_path[j] < depths.len(),
        forall|j: int|
            0 <= j < r.cart_path.len() - 1 ==> #[trigger] follows_at(
                edge_ints(r.edges@),
                node_ints(r.cart_path@),
                j,
            ),
{
    let n: usize = depths.len();
    let mut last_in_level: Vec<usize> = Vec::new();
    last_in_level.push(0);
    let mut current_level: usize = 0;
    let mut edges: Vec<(usize, usize)> = Vec::new();
    let mut pos: Vec<usize> = Vec::new();
    pos.push(0);
    let mut cart_path: Vec<usize> = Vec::new();
    cart_path.push(0);
    assert(node_ints(pos@) =~= ancestors(depths@, 0));
    assert(edge_ints(edges@) =~= tree_edges(depths@, 1));
    assert(node_ints(cart_path@) =~= cart_walk(depths@, 1));
    let mut i: usize = 1;
    while i < n
        invariant
            1 <= i <= n,
            n == depths.len(),
            well_formed(depths@),
            current_level == depths[i - 1],
            last_in_level.len() > current_level,
            forall|e: int|
                0 <= e < last_in_level.len() ==> #[trigger] last_in_level[e] as int == last_at(
                    depths@,
                    i as int,
                    e,
                ),
            node_ints(pos@) == ancestors(depths@, i - 1),
            edge_ints(edges@) == tree_edges(depths@, i as int),
            node_ints(cart_path@) == cart_walk(depths@, i as int),
        decreases n - i,
    {
        let depth: usize = depths[i];
        let ghost edges_before = edge_ints(edges@);
        let ghost path_before = node_ints(cart_path@);
        let ghost parent = parent_of(depths@, i as int);
        assert(depth <= depths[i - 1] + 1);
        if depth == current_level {
            edges.push((last_in_level[depth], i));
        } else if depth > current_level {
            edges.push((last_in_level[current_level], i));
        } else {
            assert(depth > 0);
            let backtrack_to: usize = last_in_level[depth - 1];
            edges.push((backtrack_to, i));
            retrace_to(depths, i, backtrack_to, &mut pos, &mut cart_path);
        }
        assert(edge_ints(edges@) =~= edges_before.push((parent, i as int)));
        assert(edge_ints(edges@) =~= tree_edges(depths@, i + 1));
        assert(node_ints(pos@) == ancestors(depths@, parent));
        if depth == last_in_level.len() {
            last_in_level.push(i);
        } else {
            last_in_level[depth] = i;
        }
        pos.push(i);
        cart_path.push(i);
        current_level = depth;
        assert(node_ints(pos@) =~= ancestors(depths@, parent).push(i as int));
        assert(node_ints(cart_path@) =~= path_before + retrace(depths@, i as int) + seq![i as int]);
        i = i + 1;
    }
    proof {
        lemma_one_parent_each(depths@, n as int);
        lemma_walk_shape(depths@, n as int);
        lemma_walk_follows_edges(depths@, n as int);
        let walk = cart_walk(depths@, n as int);
        assert forall|k: int| 0 <= k < edges.len() implies (#[trigger] edges[k]).0 < edges[k].1
            == k + 1 by {
            assert(edge_ints(edges@)[k] == tree_edges(depths@, n as int)[k]);
        }
        assert forall|j: int| 0 <= j < cart_path.len() implies #[trigger] cart_path[j]
            < depths.len() by {
            assert(node_ints(cart_path@)[j] == walk[j]);
        }
        assert forall|j: int| 0 <= j < cart_path.len() - 1 implies #[trigger] follows_at(
            edge_ints(edges@),
            node_ints(cart_path@),
            j,
        ) by {
            assert(follows_at(tree_edges(depths@, n as int), walk, j));
        }
        assert(node_ints(cart_path@)[0] == walk[0]);
    }
    Reconstruction { edges, cart_path }
}

} // verus!
