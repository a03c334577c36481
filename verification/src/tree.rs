//! The spanning tree that a maze is.
//!
//! The open cells of a maze under construction form a tree over the open
//! nodes: every open cell is joined to the seed by open cells, and there is
//! one open passage fewer than there are open nodes. The maze is perfect
//! once all nodes of the grid are open.

use vstd::prelude::*;
use crate::cell::{
    CellIndex, adjacent, is_interior, is_node, is_passage, is_separator,
    lemma_node_beside_passage, lower_end, seed, upper_end, valid_size,
};
use crate::walk::{adjacent_at, is_branch, lemma_walk_geometry};

verus! {

/// `route` goes through open cells only, one grid unit at a time.
pub open spec fn is_route(paths: Set<CellIndex>, route: Seq<CellIndex>) -> bool {
    &&& route.len() >= 1
    &&& forall|i: int| 0 <= i < route.len() ==> paths.contains(#[trigger] route[i])
    &&& forall|i: int| 0 <= i < route.len() - 1 ==> #[trigger] adjacent_at(route, i)
}

/// `route` is a route from `a` to `b`.
pub open spec fn joins(
    paths: Set<CellIndex>,
    route: Seq<CellIndex>,
    a: CellIndex,
    b: CellIndex,
) -> bool {
    &&& is_route(paths, route)
    &&& route[0] == a
    &&& route.last() == b
}

/// Some route through open cells leads from `a` to `b`.
pub open spec fn connected(paths: Set<CellIndex>, a: CellIndex, b: CellIndex) -> bool {
    exists|route: Seq<CellIndex>| #[trigger] joins(paths, route, a, b)
}

/// The open cells that are nodes.
pub open spec fn open_nodes(paths: Set<CellIndex>) -> Set<CellIndex> {
    paths.filter(|c: CellIndex| is_node(c))
}

/// The open cells that are separators.
pub open spec fn open_separators(paths: Set<CellIndex>) -> Set<CellIndex> {
    paths.filter(|c: CellIndex| is_separator(c))
}

/// All the nodes of a grid of the given size.
pub open spec fn node_cells(size: (usize, usize)) -> Set<CellIndex> {
    Set::new(|c: CellIndex| is_interior(size, c) && is_node(c))
}

/// What holds of a single open cell of a tree: it lies inside the border, it
/// is a node or a passage, a passage has both its ends open, and the cell is
/// joined to the seed.
pub open spec fn cell_in_tree(size: (usize, usize), paths: Set<CellIndex>, c: CellIndex) -> bool {
    &&& is_interior(size, c)
    &&& is_node(c) || is_passage(c)
    &&& is_passage(c) ==> paths.contains(lower_end(c)) && paths.contains(upper_end(c))
    &&& connected(paths, c, seed())
}

/// The open cells `paths` form a tree that holds the seed: they are
/// connected, and the open separators, each a passage between two open
/// nodes, are one fewer than the open nodes.
pub open spec fn is_tree(size: (usize, usize), paths: Set<CellIndex>) -> bool {
    &&& paths.finite()
    &&& paths.contains(seed())
    &&& forall|c: CellIndex| #[trigger] paths.contains(c) ==> cell_in_tree(size, paths, c)
    &&& open_separators(paths).len() + 1 == open_nodes(paths).len()
}

/// The open cells `paths` form a perfect maze: a tree that spans all nodes
/// of the grid.
pub open spec fn is_perfect(size: (usize, usize), paths: Set<CellIndex>) -> bool {
    &&& is_tree(size, paths)
    &&& forall|c: CellIndex| is_interior(size, c) && is_node(c) ==> #[trigger] paths.contains(c)
}

/// A route stays a route when more cells are opened.
pub proof fn lemma_route_grows(paths: Set<CellIndex>, more: Set<CellIndex>, route: Seq<CellIndex>)
    requires
        is_route(paths, route),
        paths.subset_of(more),
    ensures
        is_route(more, route),
{
}

/// An open cell next to the start of a route extends the route.
pub proof fn lemma_route_prepend(paths: Set<CellIndex>, c: CellIndex, route: Seq<CellIndex>)
    requires
        is_route(paths, route),
        paths.contains(c),
        adjacent(c, route[0]),
    ensures
        joins(paths, seq![c] + route, c, route.last()),
{
    let longer = seq![c] + route;
    assert forall|i: int| 0 <= i < longer.len() - 1 implies #[trigger] adjacent_at(longer, i) by {
        if i > 0 {
            assert(adjacent_at(route, i - 1));
        }
    }
}

/// A route walked backwards is a route.
pub proof fn lemma_route_reverse(paths: Set<CellIndex>, route: Seq<CellIndex>)
    requires
        is_route(paths, route),
    ensures
        joins(paths, route.reverse(), route.last(), route[0]),
{
    let back = route.reverse();
    assert forall|i: int| 0 <= i < back.len() - 1 implies #[trigger] adjacent_at(back, i) by {
        assert(adjacent_at(route, route.len() - 2 - i));
    }
}

/// Two routes that meet make one route.
pub proof fn lemma_route_concat(
    paths: Set<CellIndex>,
    first: Seq<CellIndex>,
    second: Seq<CellIndex>,
)
    requires
        is_route(paths, first),
        is_route(paths, second),
        first.last() == second[0],
    ensures
        joins(paths, first.drop_last() + second, first[0], second.last()),
{
    let whole = first.drop_last() + second;
    let cut = first.len() - 1;
    assert forall|i: int| 0 <= i < whole.len() - 1 implies #[trigger] adjacent_at(whole, i) by {
        if i < cut {
            assert(adjacent_at(first, i));
        } else {
            assert(adjacent_at(second, i - cut));
        }
    }
}

/// Being connected is symmetric.
pub proof fn lemma_connected_symmetric(paths: Set<CellIndex>, a: CellIndex, b: CellIndex)
    requires
        connected(paths, a, b),
    ensures
        connected(paths, b, a),
{
    let route = choose|route: Seq<CellIndex>| #[trigger] joins(paths, route, a, b);
    lemma_route_reverse(paths, route);
    assert(joins(paths, route.reverse(), b, a));
}

/// Being connected is transitive.
pub proof fn lemma_connected_transitive(
    paths: Set<CellIndex>,
    a: CellIndex,
    b: CellIndex,
    c: CellIndex,
)
    requires
        connected(paths, a, b),
        connected(paths, b, c),
    ensures
        connected(paths, a, c),
{
    let first = choose|route: Seq<CellIndex>| #[trigger] joins(paths, route, a, b);
    let second = choose|route: Seq<CellIndex>| #[trigger] joins(paths, route, b, c);
    lemma_route_concat(paths, first, second);
    assert(joins(paths, first.drop_last() + second, a, c));
}

/// Any two open cells of a tree are connected.
pub proof fn lemma_tree_connected(
    size: (usize, usize),
    paths: Set<CellIndex>,
    a: CellIndex,
    b: CellIndex,
)
    requires
        is_tree(size, paths),
        paths.contains(a),
        paths.contains(b),
    ensures
        connected(paths, a, b),
{
    assert(cell_in_tree(size, paths, a));
    assert(cell_in_tree(size, paths, b));
    lemma_connected_symmetric(paths, b, seed());
    lemma_connected_transitive(paths, a, seed(), b);
}

/// The seed alone is a tree.
pub proof fn lemma_seed_is_tree(size: (usize, usize))
    requires
        valid_size(size),
    ensures
        is_tree(size, set![seed()]),
{
    let paths = set![seed()];
    let route = seq![seed()];
    assert(joins(paths, route, seed(), seed()));
    assert(open_nodes(paths) =~= set![seed()]);
    assert(open_separators(paths) =~= Set::<CellIndex>::empty());
}

/// The cells of one more position of `path` are those of the positions
/// before, and the cell at that position.
pub proof fn lemma_take_to_set(path: Seq<CellIndex>, m: int)
    requires
        0 <= m < path.len(),
    ensures
        path.take(m + 1).to_set() == path.take(m).to_set().insert(path[m]),
{
    let longer = path.take(m + 1);
    let shorter = path.take(m);
    assert forall|c: CellIndex| longer.contains(c) <==> (shorter.contains(c) || c == path[m]) by {
        if longer.contains(c) {
            let i = choose|i: int| 0 <= i < longer.len() && longer[i] == c;
            if i < m {
                assert(shorter[i] == c);
            }
        }
        if shorter.contains(c) {
            let i = choose|i: int| 0 <= i < shorter.len() && shorter[i] == c;
            assert(longer[i] == c);
        }
        if c == path[m] {
            assert(longer[m] == c);
        }
    }
    assert(longer.to_set() =~= shorter.to_set().insert(path[m]));
}

/// No cell of a branch is open but its last.
pub proof fn lemma_branch_is_new(
    size: (usize, usize),
    paths: Set<CellIndex>,
    path: Seq<CellIndex>,
    start: CellIndex,
    i: int,
)
    requires
        valid_size(size),
        is_tree(size, paths),
        is_interior(size, start),
        is_node(start),
        is_branch(size, paths, path, start),
        0 <= i < path.len() - 1,
    ensures
        !paths.contains(path[i]),
{
    lemma_walk_geometry(size, paths, path, start);
    if i % 2 == 1 {
        assert(is_passage(path[i]));
        assert(is_node(path[i - 1]));
        assert(adjacent_at(path, i - 1));
        assert(!paths.contains(path[i - 1]));
        lemma_node_beside_passage(path[i], path[i - 1]);
        if paths.contains(path[i]) {
            assert(cell_in_tree(size, paths, path[i]));
        }
    }
}

/// Opening the first `m` cells of a branch opens as many nodes and as many
/// passages as stand among them.
proof fn lemma_branch_counts(
    size: (usize, usize),
    paths: Set<CellIndex>,
    path: Seq<CellIndex>,
    start: CellIndex,
    m: int,
)
    requires
        valid_size(size),
        is_tree(size, paths),
        is_interior(size, start),
        is_node(start),
        is_branch(size, paths, path, start),
        0 <= m <= path.len() - 1,
    ensures
        paths.union(path.take(m).to_set()).finite(),
        open_nodes(paths.union(path.take(m).to_set())).len() == open_nodes(paths).len() + (m + 1)
            / 2,
        open_separators(paths.union(path.take(m).to_set())).len() == open_separators(paths).len()
            + m / 2,
    decreases m,
{
    let grown = paths.union(path.take(m).to_set());
    if m == 0 {
        assert(path.take(0).to_set() =~= Set::<CellIndex>::empty());
        assert(grown =~= paths);
    } else {
        let before = paths.union(path.take(m - 1).to_set());
        let c = path[m - 1];
        lemma_branch_counts(size, paths, path, start, m - 1);
        lemma_take_to_set(path, m - 1);
        assert(grown =~= before.insert(c));
        lemma_branch_is_new(size, paths, path, start, m - 1);
        assert(!path.take(m - 1).to_set().contains(c)) by {
            let shorter = path.take(m - 1);
            if shorter.contains(c) {
                let i = choose|i: int| 0 <= i < shorter.len() && shorter[i] == c;
                assert(path[i] == path[m - 1]);
            }
        }
        assert(!before.contains(c));
        lemma_walk_geometry(size, paths, path, start);
        assert(is_interior(size, path[m - 1]));
        before.lemma_len_filter(|c: CellIndex| is_node(c));
        before.lemma_len_filter(|c: CellIndex| is_separator(c));
        if (m - 1) % 2 == 0 {
            assert(is_node(c));
            assert(open_nodes(grown) =~= open_nodes(before).insert(c));
            assert(open_separators(grown) =~= open_separators(before));
        } else {
            assert(is_passage(c));
            assert(open_nodes(grown) =~= open_nodes(before));
            assert(open_separators(grown) =~= open_separators(before).insert(c));
        }
    }
}

/// Once a branch is opened, each of its cells is joined to the seed.
proof fn lemma_branch_connected(
    size: (usize, usize),
    paths: Set<CellIndex>,
    path: Seq<CellIndex>,
    start: CellIndex,
    i: int,
)
    requires
        valid_size(size),
        is_tree(size, paths),
        is_interior(size, start),
        is_node(start),
        is_branch(size, paths, path, start),
        0 <= i < path.len(),
    ensures
        connected(paths.union(path.to_set()), path[i], seed()),
    decreases path.len() - i,
{
    let grown = paths.union(path.to_set());
    if i == path.len() - 1 {
        assert(cell_in_tree(size, paths, path[i]));
        let route = choose|route: Seq<CellIndex>| #[trigger] joins(paths, route, path[i], seed());
        lemma_route_grows(paths, grown, route);
        assert(joins(grown, route, path[i], seed()));
    } else {
        lemma_branch_connected(size, paths, path, start, i + 1);
        let route = choose|route: Seq<CellIndex>|
            #[trigger] joins(grown, route, path[i + 1], seed());
        lemma_walk_geometry(size, paths, path, start);
        assert(adjacent_at(path, i));
        assert(path.contains(path[i]));
        lemma_route_prepend(grown, path[i], route);
        assert(joins(grown, seq![path[i]] + route, path[i], seed()));
    }
}

/// A tree to which a branch is added is a tree. No cell is closed by it, and
/// it gains as many nodes as passages: one of each for every move of the
/// branch, so at least one where the branch starts outside the tree.
pub proof fn lemma_branch_grows_tree(
    size: (usize, usize),
    paths: Set<CellIndex>,
    path: Seq<CellIndex>,
    start: CellIndex,
)
    requires
        valid_size(size),
        is_tree(size, paths),
        is_interior(size, start),
        is_node(start),
        is_branch(size, paths, path, start),
    ensures
        is_tree(size, paths.union(path.to_set())),
        paths.subset_of(paths.union(path.to_set())),
        open_nodes(paths.union(path.to_set())).len() == open_nodes(paths).len() + path.len() / 2,
        open_separators(paths.union(path.to_set())).len() == open_separators(paths).len()
            + path.len() / 2,
        !paths.contains(start) ==> open_nodes(paths.union(path.to_set())).len() > open_nodes(
            paths,
        ).len(),
{
    let grown = paths.union(path.to_set());
    let last = path.len() - 1;
    lemma_walk_geometry(size, paths, path, start);
    lemma_branch_counts(size, paths, path, start, last);
    lemma_take_to_set(path, last);
    assert(path.take(last + 1) =~= path);
    assert(grown =~= paths.union(path.take(last).to_set()));
    assert forall|c: CellIndex| #[trigger] grown.contains(c) implies cell_in_tree(
        size,
        grown,
        c,
    ) by {
        if paths.contains(c) {
            assert(cell_in_tree(size, paths, c));
            let route = choose|route: Seq<CellIndex>| #[trigger] joins(paths, route, c, seed());
            lemma_route_grows(paths, grown, route);
            assert(joins(grown, route, c, seed()));
        } else {
            let i = choose|i: int| 0 <= i < path.len() && path[i] == c;
            lemma_branch_connected(size, paths, path, start, i);
            assert(is_interior(size, path[i]));
            if i % 2 == 1 {
                assert(is_passage(c));
                assert(is_node(path[i - 1]) && is_node(path[i + 1]));
                assert(adjacent_at(path, i - 1));
                assert(adjacent_at(path, i));
                lemma_node_beside_passage(c, path[i - 1]);
                lemma_node_beside_passage(c, path[i + 1]);
                assert(path[i - 1] != path[i + 1]);
                assert(path.contains(path[i - 1]));
                assert(path.contains(path[i + 1]));
            } else {
                assert(is_node(c));
            }
        }
    }
}

/// In a perfect maze any two nodes of the grid are joined by a route through
/// open cells.
pub proof fn lemma_perfect_connects_nodes(
    size: (usize, usize),
    paths: Set<CellIndex>,
    a: CellIndex,
    b: CellIndex,
)
    requires
        is_perfect(size, paths),
        is_interior(size, a),
        is_node(a),
        is_interior(size, b),
        is_node(b),
    ensures
        connected(paths, a, b),
{
    lemma_tree_connected(size, paths, a, b);
}

/// In a perfect maze the open nodes are all the nodes of the grid, and the
/// open separators are one fewer.
pub proof fn lemma_perfect_counts(size: (usize, usize), paths: Set<CellIndex>)
    requires
        is_perfect(size, paths),
    ensures
        open_nodes(paths) == node_cells(size),
        node_cells(size).finite(),
        open_separators(paths).len() == node_cells(size).len() - 1,
{
    assert forall|c: CellIndex| open_nodes(paths).contains(c) <==> node_cells(size).contains(
        c,
    ) by {
        if paths.contains(c) {
            assert(cell_in_tree(size, paths, c));
        }
    }
    assert(open_nodes(paths) =~= node_cells(size));
    paths.lemma_len_filter(|c: CellIndex| is_node(c));
}

} // verus!
