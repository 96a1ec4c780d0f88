//! The mathematical model of a grid of cells, and the properties that a
//! generated maze has.

use crate::cell::{direction_between, Cell, CellView};
use vstd::prelude::*;
use vstd::relations::injective_on;
use vstd::set_lib::{lemma_int_range, lemma_len_subset, lemma_map_size, set_int_range};

verus! {

/// The cells of a grid, row by row, as mathematical values.
pub open spec fn cells_view(v: Seq<Vec<Cell>>) -> Seq<Seq<CellView>> {
    v.map_values(|row: Vec<Cell>| row@.map_values(|c: Cell| c@))
}

/// Whether `p` lies in the grid of `rows` rows and `cols` columns.
pub open spec fn in_bounds(rows: int, cols: int, p: (i32, i32)) -> bool {
    0 <= p.0 < rows && 0 <= p.1 < cols
}

/// The cell stored at `p`.
pub open spec fn cell_of(g: Seq<Seq<CellView>>, p: (i32, i32)) -> CellView {
    g[p.0 as int][p.1 as int]
}

/// `g` with the cell at `p` replaced by `v`.
pub open spec fn put(g: Seq<Seq<CellView>>, p: (i32, i32), v: CellView) -> Seq<Seq<CellView>> {
    g.update(p.0 as int, g[p.0 as int].update(p.1 as int, v))
}

/// Whether `g` has `rows` rows of `cols` cells, each holding its own
/// coordinate, with a cell count that fits in an `i32`.
pub open spec fn shaped(g: Seq<Seq<CellView>>, rows: int, cols: int) -> bool {
    &&& 0 <= rows
    &&& 0 <= cols
    &&& rows * cols <= i32::MAX
    &&& g.len() == rows
    &&& forall|r: int| 0 <= r < rows ==> #[trigger] g[r].len() == cols
    &&& forall|r: int, c: int|
        0 <= r < rows && 0 <= c < cols ==> (#[trigger] g[r][c]).row == r && g[r][c].column == c
}

/// The coordinate (`r`, `c`) when it lies in the grid.
pub open spec fn neighbor_at(rows: int, cols: int, r: int, c: int) -> Option<(i32, i32)> {
    if 0 <= r < rows && 0 <= c < cols {
        Some((r as i32, c as i32))
    } else {
        None
    }
}

/// Whether the four neighbor fields of `v` hold exactly the cells beside it
/// in the grid.
pub open spec fn wired_cell(v: CellView, rows: int, cols: int) -> bool {
    &&& v.north == neighbor_at(rows, cols, v.row - 1, v.column as int)
    &&& v.south == neighbor_at(rows, cols, v.row + 1, v.column as int)
    &&& v.east == neighbor_at(rows, cols, v.row as int, v.column + 1)
    &&& v.west == neighbor_at(rows, cols, v.row as int, v.column - 1)
}

/// Whether every cell of `g` is wired.
pub open spec fn wired(g: Seq<Seq<CellView>>, rows: int, cols: int) -> bool {
    forall|r: int, c: int|
        0 <= r < rows && 0 <= c < cols ==> wired_cell(#[trigger] g[r][c], rows, cols)
}

/// Whether no cell of `g` has a link.
pub open spec fn blank(g: Seq<Seq<CellView>>, rows: int, cols: int) -> bool {
    forall|r: int, c: int| 0 <= r < rows && 0 <= c < cols ==> (#[trigger] g[r][c]).links.len() == 0
}

/// Whether no cell of `g` records a neighbor.
pub open spec fn unwired(g: Seq<Seq<CellView>>, rows: int, cols: int) -> bool {
    forall|r: int, c: int|
        0 <= r < rows && 0 <= c < cols ==> (#[trigger] g[r][c]).neighbor_seq().len() == 0
}

/// Whether the cell at `p` links to `q`.
pub open spec fn linked(g: Seq<Seq<CellView>>, p: (i32, i32), q: (i32, i32)) -> bool {
    cell_of(g, p).link_set().contains(q)
}

/// Whether every link goes to a recorded neighbor of its cell.
pub open spec fn links_adjacent(g: Seq<Seq<CellView>>, rows: int, cols: int) -> bool {
    forall|p: (i32, i32), q: (i32, i32)|
        in_bounds(rows, cols, p) && #[trigger] linked(g, p, q) ==> cell_of(g, p).neighbor_set().contains(q)
}

/// Whether every link lands in the grid and is matched by a link back.
pub open spec fn links_symmetric(g: Seq<Seq<CellView>>, rows: int, cols: int) -> bool {
    forall|p: (i32, i32), q: (i32, i32)|
        in_bounds(rows, cols, p) && #[trigger] linked(g, p, q) ==> in_bounds(rows, cols, q) && linked(g, q, p)
}

/// Whether `after` is `before` with every cell in the same place, and with
/// links that differ only by a passage between `a` and `b`, recorded on
/// both cells.
pub open spec fn adds_passage(
    before: Seq<Seq<CellView>>,
    after: Seq<Seq<CellView>>,
    rows: int,
    cols: int,
    a: (i32, i32),
    b: (i32, i32),
) -> bool {
    &&& shaped(after, rows, cols)
    &&& forall|r: int, c: int|
        0 <= r < rows && 0 <= c < cols ==> (#[trigger] after[r][c]).same_place(before[r][c])
    &&& forall|p: (i32, i32), q: (i32, i32)|
        in_bounds(rows, cols, p) ==> (#[trigger] linked(after, p, q) <==> linked(before, p, q) || (p
            == a && q == b) || (p == b && q == a))
}

/// Opening a passage keeps every cell wired.
pub proof fn lemma_passage_keeps_wired(
    g0: Seq<Seq<CellView>>,
    g1: Seq<Seq<CellView>>,
    rows: int,
    cols: int,
    a: (i32, i32),
    b: (i32, i32),
)
    requires
        wired(g0, rows, cols),
        adds_passage(g0, g1, rows, cols, a, b),
    ensures
        wired(g1, rows, cols),
{
    assert forall|r: int, c: int| 0 <= r < rows && 0 <= c < cols implies wired_cell(
        #[trigger] g1[r][c],
        rows,
        cols,
    ) by {
        assert(g1[r][c].same_place(g0[r][c]));
        assert(wired_cell(g0[r][c], rows, cols));
    }
}

/// In a wired grid, a cell's recorded neighbors are exactly the cells of
/// the grid one axis step away.
pub proof fn lemma_wired_neighbors(g: Seq<Seq<CellView>>, rows: int, cols: int, p: (i32, i32), q: (i32, i32))
    requires
        shaped(g, rows, cols),
        wired(g, rows, cols),
        in_bounds(rows, cols, p),
    ensures
        cell_of(g, p).neighbor_set().contains(q) <==> in_bounds(rows, cols, q) && adjacent(p, q),
{
    let v = cell_of(g, p);
    assert(wired_cell(g[p.0 as int][p.1 as int], rows, cols));
    assert(v.at() == p);
    v.lemma_neighbor_set(q);
    assert(rows <= rows * cols && cols <= rows * cols) by (nonlinear_arith)
        requires
            rows >= 1,
            cols >= 1,
    ;
    if v.north == Some(q) {
        assert(q.0 == p.0 - 1 && q.1 == p.1);
    }
    if v.south == Some(q) {
        assert(q.0 == p.0 + 1 && q.1 == p.1);
    }
    if v.east == Some(q) {
        assert(q.0 == p.0 && q.1 == p.1 + 1);
    }
    if v.west == Some(q) {
        assert(q.0 == p.0 && q.1 == p.1 - 1);
    }
    if in_bounds(rows, cols, q) && adjacent(p, q) {
        if q.0 == p.0 - 1 && q.1 == p.1 {
            assert(v.north == Some(q));
        } else if q.0 == p.0 + 1 && q.1 == p.1 {
            assert(v.south == Some(q));
        } else if q.0 == p.0 && q.1 == p.1 + 1 {
            assert(v.east == Some(q));
        } else {
            assert(v.west == Some(q));
        }
    }
}

/// Writing a cell back at its own coordinate keeps the grid's shape and
/// changes that one cell alone.
pub proof fn lemma_put(g: Seq<Seq<CellView>>, rows: int, cols: int, p: (i32, i32), v: CellView)
    requires
        shaped(g, rows, cols),
        in_bounds(rows, cols, p),
        v.at() == p,
    ensures
        shaped(put(g, p, v), rows, cols),
        forall|r: int, c: int|
            0 <= r < rows && 0 <= c < cols ==> #[trigger] put(g, p, v)[r][c] == if r == p.0 && c
                == p.1 {
                v
            } else {
                g[r][c]
            },
{
    let h = put(g, p, v);
    assert forall|r: int| 0 <= r < rows implies #[trigger] h[r].len() == cols by {
        assert(g[r].len() == cols);
    }
    assert forall|r: int, c: int| 0 <= r < rows && 0 <= c < cols implies (#[trigger] h[r][c]).row
        == r && h[r][c].column == c by {
        assert(g[r][c].row == r);
    }
}

/// Every coordinate of the grid.
pub open spec fn coords_set(rows: int, cols: int) -> Set<(i32, i32)> {
    Set::new(|p: (i32, i32)| in_bounds(rows, cols, p))
}

/// The grid has `rows * cols` coordinates.
pub proof fn lemma_coords_set_len(rows: int, cols: int)
    requires
        0 <= rows,
        0 <= cols,
        rows * cols <= i32::MAX,
    ensures
        coords_set(rows, cols).finite(),
        coords_set(rows, cols).len() == rows * cols,
    decreases rows,
{
    broadcast use vstd::set_lib::group_set_properties;

    if rows == 0 {
        assert(coords_set(rows, cols) =~= Set::empty());
    } else {
        assert((rows - 1) * cols <= rows * cols && cols <= rows * cols
            && (rows - 1) * cols + cols == rows * cols) by (nonlinear_arith)
            requires
                rows >= 1,
                cols >= 0,
        ;
        lemma_coords_set_len(rows - 1, cols);
        let f = |c: int| ((rows - 1) as i32, c as i32);
        let range = set_int_range(0, cols);
        let row = range.map(f);
        lemma_int_range(0, cols);
        assert(injective_on(f, range)) by {
            assert forall|x: int, y: int|
                range.contains(x) && range.contains(y) && #[trigger] f(x) == #[trigger] f(y) implies x
                == y by {
                assert(f(x).1 as int == x);
                assert(f(y).1 as int == y);
            }
        }
        lemma_map_size(range, row, f);
        let above = coords_set(rows - 1, cols);
        assert forall|p: (i32, i32)| #[trigger] coords_set(rows, cols).contains(p) implies above.union(
            row,
        ).contains(p) by {
            if p.0 == rows - 1 {
                let c = p.1 as int;
                assert(range.contains(c));
                assert(f(c) == p);
            }
        }
        assert forall|p: (i32, i32)| #[trigger] row.contains(p) implies p.0 == rows - 1 && 0 <= p.1
            < cols by {
            let c = choose|c: int| range.contains(c) && f(c) == p;
            assert(cols >= 1);
            assert(rows <= rows * cols) by (nonlinear_arith)
                requires
                    rows >= 1,
                    cols >= 1,
            ;
        }
        assert(coords_set(rows, cols) =~= above.union(row));
        assert(above.disjoint(row));
        vstd::set_lib::lemma_set_disjoint_lens(above, row);
    }
}

/// A sequence of distinct coordinates of the grid is no longer than the
/// grid has cells.
pub proof fn lemma_distinct_coords_bounded(s: Seq<(i32, i32)>, rows: int, cols: int)
    requires
        0 <= rows,
        0 <= cols,
        rows * cols <= i32::MAX,
        s.no_duplicates(),
        forall|i: int| 0 <= i < s.len() ==> in_bounds(rows, cols, #[trigger] s[i]),
    ensures
        s.len() <= rows * cols,
{
    s.unique_seq_to_set();
    lemma_coords_set_len(rows, cols);
    assert(s.to_set().subset_of(coords_set(rows, cols)));
    lemma_len_subset(s.to_set(), coords_set(rows, cols));
}

/// Whether `p` and `q` are one axis step apart.
pub open spec fn adjacent(p: (i32, i32), q: (i32, i32)) -> bool {
    direction_between(p, q) is Some
}

/// Whether the links of `g` are exactly the passages between each cell of
/// `done` other than `root` and its parent: a neighboring cell of smaller
/// depth. With every cell done, this makes the passages a spanning tree.
pub open spec fn partial_tree(
    g: Seq<Seq<CellView>>,
    rows: int,
    cols: int,
    root: (i32, i32),
    parent: Map<(i32, i32), (i32, i32)>,
    depth: Map<(i32, i32), nat>,
    done: Set<(i32, i32)>,
) -> bool {
    &&& in_bounds(rows, cols, root)
    &&& forall|p: (i32, i32)| #[trigger] done.contains(p) ==> in_bounds(rows, cols, p)
    &&& forall|p: (i32, i32)|
        #[trigger] done.contains(p) && p != root ==> {
            &&& parent.contains_key(p)
            &&& in_bounds(rows, cols, parent[p])
            &&& adjacent(p, parent[p])
            &&& depth.contains_key(p)
            &&& depth.contains_key(parent[p])
            &&& depth[parent[p]] < depth[p]
        }
    &&& forall|p: (i32, i32), q: (i32, i32)|
        in_bounds(rows, cols, p) ==> (#[trigger] linked(g, p, q) <==> in_bounds(rows, cols, q) && ((
        done.contains(p) && p != root && parent[p] == q) || (done.contains(q) && q != root
            && parent[q] == p)))
}

/// Whether the passages of `g` form a spanning tree: some cell is a root,
/// and every other cell has exactly one passage toward it, to a neighbor
/// nearer the root, with no other passages.
pub open spec fn is_spanning_tree(g: Seq<Seq<CellView>>, rows: int, cols: int) -> bool {
    exists|root: (i32, i32), parent: Map<(i32, i32), (i32, i32)>, depth: Map<(i32, i32), nat>|
        partial_tree(g, rows, cols, root, parent, depth, coords_set(rows, cols))
}

/// A blank grid is a partial tree with nothing done, for any root inside.
pub proof fn lemma_tree_start(
    g: Seq<Seq<CellView>>,
    rows: int,
    cols: int,
    root: (i32, i32),
    parent: Map<(i32, i32), (i32, i32)>,
    depth: Map<(i32, i32), nat>,
)
    requires
        shaped(g, rows, cols),
        blank(g, rows, cols),
        in_bounds(rows, cols, root),
    ensures
        partial_tree(g, rows, cols, root, parent, depth, Set::empty()),
{
    assert forall|p: (i32, i32), q: (i32, i32)| in_bounds(rows, cols, p) implies !#[trigger] linked(
        g,
        p,
        q,
    ) by {
        assert(g[p.0 as int][p.1 as int].links.len() == 0);
    }
}

/// The root may join the done cells at any time.
pub proof fn lemma_tree_add_root(
    g: Seq<Seq<CellView>>,
    rows: int,
    cols: int,
    root: (i32, i32),
    parent: Map<(i32, i32), (i32, i32)>,
    depth: Map<(i32, i32), nat>,
    done: Set<(i32, i32)>,
)
    requires
        partial_tree(g, rows, cols, root, parent, depth, done),
    ensures
        partial_tree(g, rows, cols, root, parent, depth, done.insert(root)),
{
}

/// Carving a passage from a cell not yet done to a neighbor of smaller
/// depth makes it done, with that neighbor as its parent.
pub proof fn lemma_tree_grow(
    g0: Seq<Seq<CellView>>,
    g1: Seq<Seq<CellView>>,
    rows: int,
    cols: int,
    root: (i32, i32),
    parent: Map<(i32, i32), (i32, i32)>,
    depth: Map<(i32, i32), nat>,
    done: Set<(i32, i32)>,
    p: (i32, i32),
    n: (i32, i32),
    d: nat,
)
    requires
        partial_tree(g0, rows, cols, root, parent, depth, done),
        shaped(g0, rows, cols),
        adds_passage(g0, g1, rows, cols, p, n),
        in_bounds(rows, cols, p),
        in_bounds(rows, cols, n),
        adjacent(p, n),
        p != root,
        !done.contains(p),
        depth.contains_key(n),
        depth[n] < d,
        forall|q: (i32, i32)|
            #[trigger] done.contains(q) && q != root && parent[q] == p ==> depth.contains_key(p)
                && depth[p] == d,
    ensures
        partial_tree(g1, rows, cols, root, parent.insert(p, n), depth.insert(p, d), done.insert(p)),
{
    let parent1 = parent.insert(p, n);
    let depth1 = depth.insert(p, d);
    let done1 = done.insert(p);
    assert(n != p);
    assert forall|q: (i32, i32)| #[trigger] done1.contains(q) && q != root implies {
        &&& parent1.contains_key(q)
        &&& in_bounds(rows, cols, parent1[q])
        &&& adjacent(q, parent1[q])
        &&& depth1.contains_key(q)
        &&& depth1.contains_key(parent1[q])
        &&& depth1[parent1[q]] < depth1[q]
    } by {
        if q != p {
            assert(done.contains(q));
            if parent[q] == p {
                assert(depth[p] == d);
            }
        }
    }
    assert forall|x: (i32, i32), q: (i32, i32)| in_bounds(rows, cols, x) implies (#[trigger] linked(
        g1,
        x,
        q,
    ) <==> in_bounds(rows, cols, q) && ((done1.contains(x) && x != root && parent1[x] == q) || (
    done1.contains(q) && q != root && parent1[q] == x))) by {
        assert(linked(g1, x, q) <==> linked(g0, x, q) || (x == p && q == n) || (x == n && q == p));
        if x == p {
            assert(!done.contains(p));
        }
        if q == p {
            assert(!done.contains(p));
        }
    }
}

/// Once every cell is done, the passages form a spanning tree.
pub proof fn lemma_tree_complete(
    g: Seq<Seq<CellView>>,
    rows: int,
    cols: int,
    root: (i32, i32),
    parent: Map<(i32, i32), (i32, i32)>,
    depth: Map<(i32, i32), nat>,
    done: Set<(i32, i32)>,
)
    requires
        partial_tree(g, rows, cols, root, parent, depth, done),
        done =~= coords_set(rows, cols),
    ensures
        is_spanning_tree(g, rows, cols),
{
}

/// The links of a partial tree are matched both ways.
pub proof fn lemma_tree_symmetric(
    g: Seq<Seq<CellView>>,
    rows: int,
    cols: int,
    root: (i32, i32),
    parent: Map<(i32, i32), (i32, i32)>,
    depth: Map<(i32, i32), nat>,
    done: Set<(i32, i32)>,
)
    requires
        partial_tree(g, rows, cols, root, parent, depth, done),
    ensures
        links_symmetric(g, rows, cols),
        forall|p: (i32, i32), q: (i32, i32)|
            in_bounds(rows, cols, p) && #[trigger] linked(g, p, q) ==> adjacent(p, q),
{
    assert forall|p: (i32, i32), q: (i32, i32)| in_bounds(rows, cols, p) && #[trigger] linked(g, p, q) implies adjacent(p, q) by {
        if !(done.contains(p) && p != root && parent[p] == q) {
            assert(done.contains(q) && q != root && parent[q] == p);
            assert(adjacent(q, p));
        }
    }
}

/// Whether `path` is a walk along the passages of `g`: one cell or more,
/// each linking to the next.
pub open spec fn is_walk(g: Seq<Seq<CellView>>, path: Seq<(i32, i32)>) -> bool {
    &&& path.len() >= 1
    &&& forall|i: int| 0 <= i < path.len() - 1 ==> #[trigger] linked(g, path[i], path[i + 1])
}

/// Whether a walk along passages joins every two cells of the grid.
pub open spec fn connected(g: Seq<Seq<CellView>>, rows: int, cols: int) -> bool {
    forall|p: (i32, i32), q: (i32, i32)|
        in_bounds(rows, cols, p) && in_bounds(rows, cols, q) ==> exists|path: Seq<(i32, i32)>|
            #[trigger] is_walk(g, path) && path[0] == p && path[path.len() - 1] == q
}

/// Whether `a` comes before `b` in row-major order.
pub open spec fn precedes(a: (i32, i32), b: (i32, i32)) -> bool {
    a.0 < b.0 || (a.0 == b.0 && a.1 < b.1)
}

/// The passages of `g`, each once: the linked pairs of cells, the first
/// before the second in row-major order.
pub open spec fn passages(g: Seq<Seq<CellView>>, rows: int, cols: int) -> Set<((i32, i32), (i32, i32))> {
    Set::new(
        |e: ((i32, i32), (i32, i32))|
            in_bounds(rows, cols, e.0) && linked(g, e.0, e.1) && precedes(e.0, e.1),
    )
}

/// In a partial tree with every cell done, each cell has a walk to the root.
proof fn lemma_walk_to_root(
    g: Seq<Seq<CellView>>,
    rows: int,
    cols: int,
    root: (i32, i32),
    parent: Map<(i32, i32), (i32, i32)>,
    depth: Map<(i32, i32), nat>,
    p: (i32, i32),
) -> (path: Seq<(i32, i32)>)
    requires
        partial_tree(g, rows, cols, root, parent, depth, coords_set(rows, cols)),
        in_bounds(rows, cols, p),
    ensures
        is_walk(g, path),
        path[0] == p,
        path[path.len() - 1] == root,
        forall|i: int| 0 <= i < path.len() ==> in_bounds(rows, cols, #[trigger] path[i]),
    decreases
            (if p == root {
                0
            } else {
                depth[p] + 1
            }),
{
    if p == root {
        seq![p]
    } else {
        assert(coords_set(rows, cols).contains(p));
        let n = parent[p];
        assert(linked(g, p, n));
        if n != root {
            assert(coords_set(rows, cols).contains(n));
        }
        let rest = lemma_walk_to_root(g, rows, cols, root, parent, depth, n);
        let path = seq![p] + rest;
        assert forall|i: int| 0 <= i < path.len() - 1 implies #[trigger] linked(g, path[i], path[i + 1]) by {
            if i > 0 {
                assert(path[i] == rest[i - 1] && path[i + 1] == rest[i]);
                assert(linked(g, rest[i - 1], rest[(i - 1) + 1]));
            }
        }
        path
    }
}

/// A walk along passages matched both ways, reversed, is a walk.
proof fn lemma_walk_reverse(g: Seq<Seq<CellView>>, rows: int, cols: int, path: Seq<(i32, i32)>)
    requires
        links_symmetric(g, rows, cols),
        is_walk(g, path),
        forall|i: int| 0 <= i < path.len() ==> in_bounds(rows, cols, #[trigger] path[i]),
    ensures
        is_walk(g, path.reverse()),
        path.reverse()[0] == path[path.len() - 1],
        path.reverse()[path.len() - 1] == path[0],
{
    let r = path.reverse();
    assert forall|i: int| 0 <= i < r.len() - 1 implies #[trigger] linked(g, r[i], r[i + 1]) by {
        let j = path.len() - 2 - i;
        assert(r[i] == path[j + 1] && r[i + 1] == path[j]);
        assert(linked(g, path[j], path[j + 1]));
        assert(in_bounds(rows, cols, path[j]));
    }
}

/// The passages of a spanning tree join every two cells.
pub proof fn lemma_tree_connected(g: Seq<Seq<CellView>>, rows: int, cols: int)
    requires
        is_spanning_tree(g, rows, cols),
    ensures
        connected(g, rows, cols),
{
    let (root, parent, depth) = choose|root: (i32, i32), parent: Map<(i32, i32), (i32, i32)>, depth: Map<(i32, i32), nat>|
        partial_tree(g, rows, cols, root, parent, depth, coords_set(rows, cols));
    lemma_tree_symmetric(g, rows, cols, root, parent, depth, coords_set(rows, cols));
    assert forall|p: (i32, i32), q: (i32, i32)|
        in_bounds(rows, cols, p) && in_bounds(rows, cols, q) implies exists|path: Seq<(i32, i32)>|
        #[trigger] is_walk(g, path) && path[0] == p && path[path.len() - 1] == q by {
        let up = lemma_walk_to_root(g, rows, cols, root, parent, depth, p);
        let back = lemma_walk_to_root(g, rows, cols, root, parent, depth, q);
        lemma_walk_reverse(g, rows, cols, back);
        let down = back.reverse();
        let path = up + down.drop_first();
        assert forall|i: int| 0 <= i < path.len() - 1 implies #[trigger] linked(g, path[i], path[i + 1]) by {
            if i < up.len() - 1 {
                assert(path[i] == up[i] && path[i + 1] == up[i + 1]);
            } else if i == up.len() - 1 {
                assert(path[i] == root);
                assert(down[0] == root);
                assert(path[i + 1] == down[1]);
                assert(linked(g, down[0int], down[0int + 1]));
            } else {
                let j = i - up.len() + 1;
                assert(path[i] == down[j] && path[i + 1] == down[j + 1]);
            }
        }
        assert(is_walk(g, path));
        assert(path[path.len() - 1] == q);
    }
}

/// The passage between a cell other than the root and its parent.
pub open spec fn tree_edge(parent: Map<(i32, i32), (i32, i32)>, p: (i32, i32)) -> ((i32, i32), (i32, i32)) {
    if precedes(p, parent[p]) {
        (p, parent[p])
    } else {
        (parent[p], p)
    }
}

/// A spanning tree of a grid of `rows * cols` cells has `rows * cols - 1`
/// passages.
pub proof fn lemma_tree_passage_count(g: Seq<Seq<CellView>>, rows: int, cols: int)
    requires
        0 <= rows,
        0 <= cols,
        rows * cols <= i32::MAX,
        is_spanning_tree(g, rows, cols),
    ensures
        passages(g, rows, cols).len() == rows * cols - 1,
{
    let (root, parent, depth) = choose|root: (i32, i32), parent: Map<(i32, i32), (i32, i32)>, depth: Map<(i32, i32), nat>|
        partial_tree(g, rows, cols, root, parent, depth, coords_set(rows, cols));
    let all = coords_set(rows, cols);
    lemma_coords_set_len(rows, cols);
    lemma_tree_symmetric(g, rows, cols, root, parent, depth, all);
    let others = all.remove(root);
    assert(all.contains(root));
    let f = |p: (i32, i32)| tree_edge(parent, p);
    assert(injective_on(f, others)) by {
        assert forall|x: (i32, i32), y: (i32, i32)|
            others.contains(x) && others.contains(y) && #[trigger] f(x) == #[trigger] f(y) implies x == y by {
            assert(all.contains(x) && all.contains(y));
            assert(adjacent(x, parent[x]) && adjacent(y, parent[y]));
            assert(x != parent[x]) by {
                assert(crate::cell::direction_between(x, parent[x]) is Some);
            }
            assert(y != parent[y]) by {
                assert(crate::cell::direction_between(y, parent[y]) is Some);
            }
            if x != y {
                assert(x == parent[y] && y == parent[x]);
                assert(depth[parent[x]] < depth[x]);
                assert(depth[parent[y]] < depth[y]);
            }
        }
    }
    let edges = passages(g, rows, cols);
    assert forall|e: ((i32, i32), (i32, i32))| #[trigger] edges.contains(e) <==> others.map(f).contains(e) by {
        if edges.contains(e) {
            let (a, b) = e;
            assert(linked(g, a, b));
            if a != root && parent[a] == b {
                assert(others.contains(a));
                assert(f(a) == e);
            } else {
                assert(b != root && parent[b] == a);
                assert(in_bounds(rows, cols, b));
                assert(others.contains(b));
                assert(f(b) == e);
            }
        }
        if others.map(f).contains(e) {
            let p = choose|p: (i32, i32)| others.contains(p) && f(p) == e;
            assert(all.contains(p));
            let n = parent[p];
            assert(linked(g, p, n));
            assert(linked(g, n, p));
            assert(p != n) by {
                assert(crate::cell::direction_between(p, n) is Some);
            }
        }
    }
    assert(edges =~= others.map(f));
    lemma_map_size(others, edges, f);
}

/// Every two cells of a spanning tree are joined by a walk along passages,
/// and there is one passage fewer than there are cells.
pub proof fn lemma_spanning_tree(g: Seq<Seq<CellView>>, rows: int, cols: int)
    requires
        shaped(g, rows, cols),
        is_spanning_tree(g, rows, cols),
    ensures
        connected(g, rows, cols),
        passages(g, rows, cols).len() == rows * cols - 1,
{
    lemma_tree_connected(g, rows, cols);
    lemma_tree_passage_count(g, rows, cols);
}

} // verus!
