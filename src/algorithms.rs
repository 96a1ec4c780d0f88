//! The three maze generation algorithms: Binary Tree, Sidewinder and
//! Aldous-Broder. Each carves passages, recorded on both cells, into a
//! wired grid without passages, and leaves a spanning tree.

use crate::cell::{option_seq, Cell, Direction};
use crate::grid::Grid;
use crate::hash_grid::HashGrid;
use crate::maze::{
    adjacent, blank, cell_of, cells_view, connected, coords_set, in_bounds, is_spanning_tree,
    lemma_passage_keeps_wired, lemma_spanning_tree, lemma_tree_add_root, lemma_tree_complete,
    lemma_tree_grow, lemma_tree_start, lemma_tree_symmetric, lemma_wired_neighbors, linked,
    links_adjacent, links_symmetric, partial_tree, passages, shaped, wired,
};
use crate::random::RandomSource;
use crate::store::{carve, commit_passage, copy_cells, lookup};
use vstd::prelude::*;

verus! {

/// The north and east neighbors of a cell, in that order, where it has
/// them.
pub open spec fn north_east(v: crate::cell::CellView) -> Seq<(i32, i32)> {
    option_seq(v.north) + option_seq(v.east)
}

/// Picks one of the north and east neighbors of `some_cell` uniformly, if
/// it has any, and links to it.
pub fn binary_tree_cell(some_cell: &mut Cell, rng: &mut RandomSource) -> (r: Option<(i32, i32)>)
    ensures
        final(rng).replayed() == old(rng).replayed(),
        old(rng).replays() && north_east(old(some_cell)@).len() > 0 ==> r == Some(
            north_east(old(some_cell)@)[(old(rng).next_replayed() as int) % (north_east(old(some_cell)@).len() as int)],
        ),
        r is None <==> old(some_cell).north is None && old(some_cell).east is None,
        r is None ==> final(some_cell)@ == old(some_cell)@,
        r is Some ==> (old(some_cell).north == r || old(some_cell).east == r),
        r is Some ==> final(some_cell)@.link_set() == old(some_cell)@.link_set().insert(r->Some_0),
        final(some_cell)@.same_place(old(some_cell)@),
{
    let mut neighbors: Vec<(i32, i32)> = Vec::new();
    if let Some(n) = some_cell.north {
        neighbors.push(n);
    }
    if let Some(e) = some_cell.east {
        neighbors.push(e);
    }
    assert(neighbors@ =~= north_east(old(some_cell)@));
    if neighbors.len() > 0 {
        let pick = rng.below(neighbors.len());
        let coords = neighbors[pick];
        some_cell.link(coords);
        Some(coords)
    } else {
        None
    }
}

/// The number of steps north and east from `p` to the top-right corner.
pub open spec fn corner_rank(p: (i32, i32), cols: int) -> nat {
    (p.0 + (cols - 1 - p.1)) as nat
}

/// The depth of each cell of a Binary Tree maze.
pub open spec fn corner_depths(rows: int, cols: int) -> Map<(i32, i32), nat> {
    Map::new(|p: (i32, i32)| in_bounds(rows, cols, p), |p: (i32, i32)| corner_rank(p, cols))
}

/// The cells before (`r`, `c`) in row-major order.
pub open spec fn cells_before(rows: int, cols: int, r: int, c: int) -> Set<(i32, i32)> {
    Set::new(|p: (i32, i32)| in_bounds(rows, cols, p) && (p.0 < r || (p.0 == r && p.1 < c)))
}

/// Whether `q` is the cell just north of, or just east of, `p`.
pub open spec fn north_or_east(p: (i32, i32), q: (i32, i32)) -> bool {
    (q.0 == p.0 - 1 && q.1 == p.1) || (q.0 == p.0 && q.1 == p.1 + 1)
}

/// Whether each cell but the top-right corner links to exactly one of its
/// north and east neighbors, and the corner to neither.
pub open spec fn binary_tree_shape(g: Seq<Seq<crate::cell::CellView>>, rows: int, cols: int) -> bool {
    forall|r: int, c: int|
        0 <= r < rows && 0 <= c < cols ==> if r == 0 && c == cols - 1 {
            !(#[trigger] g[r][c]).has_link_toward(Direction::North) && !g[r][c].has_link_toward(
                Direction::East,
            )
        } else {
            (#[trigger] g[r][c]).has_link_toward(Direction::North) != g[r][c].has_link_toward(
                Direction::East,
            )
        }
}

/// What every generated maze is: wired as before, each passage recorded on
/// both cells between neighbors, the passages forming a spanning tree.
pub open spec fn is_maze(g: Seq<Seq<crate::cell::CellView>>, rows: int, cols: int) -> bool {
    &&& shaped(g, rows, cols)
    &&& wired(g, rows, cols)
    &&& links_adjacent(g, rows, cols)
    &&& links_symmetric(g, rows, cols)
    &&& is_spanning_tree(g, rows, cols)
}

/// Every generated maze is a spanning tree of its grid: a walk along
/// passages joins every two cells, and there is one passage fewer than there
/// are cells, none for a grid of one cell.
pub proof fn lemma_maze_spans(g: Seq<Seq<crate::cell::CellView>>, rows: int, cols: int)
    requires
        is_maze(g, rows, cols),
    ensures
        connected(g, rows, cols),
        passages(g, rows, cols).len() == rows * cols - 1,
{
    lemma_spanning_tree(g, rows, cols);
}

/// A tree whose passages run between neighbors of a wired grid makes a
/// maze.
proof fn lemma_tree_is_maze(
    g: Seq<Seq<crate::cell::CellView>>,
    rows: int,
    cols: int,
    root: (i32, i32),
    parent: Map<(i32, i32), (i32, i32)>,
    depth: Map<(i32, i32), nat>,
)
    requires
        shaped(g, rows, cols),
        wired(g, rows, cols),
        partial_tree(g, rows, cols, root, parent, depth, coords_set(rows, cols)),
    ensures
        is_maze(g, rows, cols),
{
    lemma_tree_complete(g, rows, cols, root, parent, depth, coords_set(rows, cols));
    lemma_tree_symmetric(g, rows, cols, root, parent, depth, coords_set(rows, cols));
    assert forall|p: (i32, i32), q: (i32, i32)|
        in_bounds(rows, cols, p) && #[trigger] linked(g, p, q) implies cell_of(g, p).neighbor_set().contains(q) by {
        lemma_wired_neighbors(g, rows, cols, p, q);
    }
}

/// A Binary Tree maze carved into a copy of `some_grid`: each cell, in
/// row-major order, opens a passage to its north or its east neighbor,
/// drawn uniformly among those that exist.
pub fn binary_tree(some_grid: &Grid, rng: &mut RandomSource) -> (r: Grid)
    requires
        some_grid.wf(),
        some_grid.rows >= 1,
        some_grid.columns >= 1,
        wired(some_grid.cells(), some_grid.rows as int, some_grid.columns as int),
        blank(some_grid.cells(), some_grid.rows as int, some_grid.columns as int),
    ensures
        r.wf(),
        r.rows == some_grid.rows,
        r.columns == some_grid.columns,
        is_maze(r.cells(), r.rows as int, r.columns as int),
        binary_tree_shape(r.cells(), r.rows as int, r.columns as int),
        forall|v: usize| #[trigger] old(rng).replays_only(v) ==> binary_tree_picks(
            r.cells(),
            r.rows as int,
            r.columns as int,
            v,
        ),
{
    let rows = some_grid.rows;
    let cols = some_grid.columns;
    let mut cells = copy_cells(&some_grid.grid);
    let ghost root: (i32, i32) = (0i32, (cols - 1) as i32);
    let ghost depth = corner_depths(rows as int, cols as int);
    let ghost mut parent: Map<(i32, i32), (i32, i32)> = Map::empty();
    let ghost v0 = old(rng).next_replayed();
    let ghost fixed = old(rng).replays_only(v0);
    proof {
        lemma_tree_start(cells_view(cells@), rows as int, cols as int, root, parent, depth);
        assert(cells_before(rows as int, cols as int, 0, 0) =~= Set::empty());
    }
    let mut r: i32 = 0;
    while r < rows
        invariant
            0 <= r <= rows,
            rows == some_grid.rows,
            cols == some_grid.columns,
            cols >= 1,
            root == (0i32, (cols - 1) as i32),
            depth == corner_depths(rows as int, cols as int),
            shaped(cells_view(cells@), rows as int, cols as int),
            wired(cells_view(cells@), rows as int, cols as int),
            partial_tree(
                cells_view(cells@),
                rows as int,
                cols as int,
                root,
                parent,
                depth,
                cells_before(rows as int, cols as int, r as int, 0),
            ),
            forall|p: (i32, i32)|
                #[trigger] cells_before(rows as int, cols as int, r as int, 0).contains(p) && p != root
                    ==> north_or_east(p, parent[p]),
            rng.replayed() == old(rng).replayed(),
            fixed == old(rng).replays_only(v0),
            fixed ==> forall|p: (i32, i32)|
                #[trigger] cells_before(rows as int, cols as int, r as int, 0).contains(p) && p.0 >= 1
                    && p.1 < cols - 1 ==> parent[p] == picked(p, v0),
        decreases rows - r,
    {
        let mut c: i32 = 0;
        while c < cols
            invariant
                0 <= r < rows,
                0 <= c <= cols,
                rows == some_grid.rows,
                cols == some_grid.columns,
                root == (0i32, (cols - 1) as i32),
                depth == corner_depths(rows as int, cols as int),
                shaped(cells_view(cells@), rows as int, cols as int),
                wired(cells_view(cells@), rows as int, cols as int),
                partial_tree(
                    cells_view(cells@),
                    rows as int,
                    cols as int,
                    root,
                    parent,
                    depth,
                    cells_before(rows as int, cols as int, r as int, c as int),
                ),
                forall|p: (i32, i32)|
                    #[trigger] cells_before(rows as int, cols as int, r as int, c as int).contains(p)
                        && p != root ==> north_or_east(p, parent[p]),
                rng.replayed() == old(rng).replayed(),
                fixed == old(rng).replays_only(v0),
                fixed ==> forall|p: (i32, i32)|
                    #[trigger] cells_before(rows as int, cols as int, r as int, c as int).contains(p)
                        && p.0 >= 1 && p.1 < cols - 1 ==> parent[p] == picked(p, v0),
            decreases cols - c,
        {
            let ghost g0 = cells_view(cells@);
            let ghost done = cells_before(rows as int, cols as int, r as int, c as int);
            let p = (r, c);
            let mut cell = lookup(&cells, rows, cols, p).unwrap().copy();
            let ghost cell_before = cell;
            proof {
                assert(g0[r as int][c as int] == cell@);
                assert(wired_cell_at(g0, rows as int, cols as int, r as int, c as int));
            }
            proof {
                rng.lemma_position_in_range();
                if fixed {
                    assert(rng.replays_only(v0));
                }
            }
            let pick = binary_tree_cell(&mut cell, rng);
            match pick {
                Some(n) => {
                    proof {
                        assert(n.0 == r - 1 && n.1 == c || n.0 == r && n.1 == c + 1);
                        assert(in_bounds(rows as int, cols as int, n));
                        assert(adjacent(p, n));
                        assert(p != root);
                        assert(!done.contains(p));
                    }
                    commit_passage(&mut cells, rows, cols, cell, n);
                    proof {
                        let g1 = cells_view(cells@);
                        lemma_tree_grow(g0, g1, rows as int, cols as int, root, parent, depth, done, p, n, corner_rank(p, cols as int));
                        lemma_passage_keeps_wired(g0, g1, rows as int, cols as int, p, n);
                        assert(depth.insert(p, corner_rank(p, cols as int)) =~= depth);
                        if fixed && r >= 1 && c < cols - 1 {
                            assert(north_east(cell_before@) =~= seq![((r - 1) as i32, c), (r, (c + 1) as i32)]);
                            assert((v0 as int) % 2 == 0 || (v0 as int) % 2 == 1);
                        }
                        parent = parent.insert(p, n);
                    }
                },
                None => {
                    proof {
                        assert(p == root);
                        lemma_tree_add_root(g0, rows as int, cols as int, root, parent, depth, done);
                    }
                },
            }
            proof {
                assert(done.insert(p) =~= cells_before(rows as int, cols as int, r as int, c + 1));
            }
            c = c + 1;
        }
        proof {
            assert(cells_before(rows as int, cols as int, r as int, cols as int) =~= cells_before(rows as int, cols as int, r + 1, 0));
        }
        r = r + 1;
    }
    let ghost g = cells_view(cells@);
    proof {
        assert(cells_before(rows as int, cols as int, rows as int, 0) =~= coords_set(rows as int, cols as int));
        lemma_tree_is_maze(g, rows as int, cols as int, root, parent, depth);
        lemma_binary_tree_shape(g, rows as int, cols as int, root, parent, depth);
        old(rng).lemma_position_in_range();
        if fixed {
            lemma_binary_tree_picks(g, rows as int, cols as int, root, parent, depth, v0);
        }
    }
    Grid::from_cells_sized(cells, rows, cols)
}

/// The neighbor that a cell with both a north and an east neighbor picks
/// when every draw is `v`: east when `v` is odd, north when it is even.
pub open spec fn picked(p: (i32, i32), v: usize) -> (i32, i32) {
    if v % 2 == 1 {
        (p.0, (p.1 + 1) as i32)
    } else {
        ((p.0 - 1) as i32, p.1)
    }
}

/// Whether every cell with both a north and an east neighbor links east
/// when `v` is odd and north when it is even.
pub open spec fn binary_tree_picks(g: Seq<Seq<crate::cell::CellView>>, rows: int, cols: int, v: usize) -> bool {
    forall|r: int, c: int|
        1 <= r < rows && 0 <= c < cols - 1 ==> (#[trigger] g[r][c]).has_link_toward(Direction::East) == (v
            % 2 == 1)
}

/// In a Binary Tree maze whose cells with two choices all picked by `v`,
/// those cells link as `v` says.
proof fn lemma_binary_tree_picks(
    g: Seq<Seq<crate::cell::CellView>>,
    rows: int,
    cols: int,
    root: (i32, i32),
    parent: Map<(i32, i32), (i32, i32)>,
    depth: Map<(i32, i32), nat>,
    v: usize,
)
    requires
        shaped(g, rows, cols),
        wired(g, rows, cols),
        root == (0i32, (cols - 1) as i32),
        partial_tree(g, rows, cols, root, parent, depth, coords_set(rows, cols)),
        forall|p: (i32, i32)| #[trigger] coords_set(rows, cols).contains(p) && p != root ==> north_or_east(p, parent[p]),
        forall|p: (i32, i32)|
            #[trigger] coords_set(rows, cols).contains(p) && p.0 >= 1 && p.1 < cols - 1 ==> parent[p] == picked(p, v),
    ensures
        binary_tree_picks(g, rows, cols, v),
{
    assert forall|r: int, c: int| 1 <= r < rows && 0 <= c < cols - 1 implies (#[trigger] g[r][c]).has_link_toward(
        Direction::East,
    ) == (v % 2 == 1) by {
        let vv = g[r][c];
        assert(crate::maze::wired_cell(vv, rows, cols));
        assert(rows <= rows * cols && cols <= rows * cols) by (nonlinear_arith)
            requires
                rows >= 1,
                cols >= 1,
        ;
        let p = (r as i32, c as i32);
        let ee = (r as i32, (c + 1) as i32);
        assert(vv.at() == p);
        assert(cell_of(g, p) == vv);
        assert(coords_set(rows, cols).contains(p));
        assert(coords_set(rows, cols).contains(ee));
        assert(vv.east == Some(ee));
        assert(vv.has_link_toward(Direction::East) == linked(g, p, ee));
        assert(north_or_east(ee, parent[ee]));
        assert(parent[p] == picked(p, v));
    }
}

/// Whether the cell at (`r`, `c`) is wired.
pub open spec fn wired_cell_at(g: Seq<Seq<crate::cell::CellView>>, rows: int, cols: int, r: int, c: int) -> bool {
    crate::maze::wired_cell(g[r][c], rows, cols)
}

/// A Binary Tree maze links each cell to exactly one of its north and east
/// neighbors, but the top-right corner, which links to neither.
proof fn lemma_binary_tree_shape(
    g: Seq<Seq<crate::cell::CellView>>,
    rows: int,
    cols: int,
    root: (i32, i32),
    parent: Map<(i32, i32), (i32, i32)>,
    depth: Map<(i32, i32), nat>,
)
    requires
        shaped(g, rows, cols),
        wired(g, rows, cols),
        root == (0i32, (cols - 1) as i32),
        partial_tree(g, rows, cols, root, parent, depth, coords_set(rows, cols)),
        forall|p: (i32, i32)| #[trigger] coords_set(rows, cols).contains(p) && p != root ==> north_or_east(p, parent[p]),
    ensures
        binary_tree_shape(g, rows, cols),
{
    assert forall|r: int, c: int| 0 <= r < rows && 0 <= c < cols implies if r == 0 && c == cols - 1 {
        !(#[trigger] g[r][c]).has_link_toward(Direction::North) && !g[r][c].has_link_toward(Direction::East)
    } else {
        (#[trigger] g[r][c]).has_link_toward(Direction::North) != g[r][c].has_link_toward(Direction::East)
    } by {
        let v = g[r][c];
        assert(crate::maze::wired_cell(v, rows, cols));
        assert(rows <= rows * cols && cols <= rows * cols) by (nonlinear_arith)
            requires
                rows >= 1,
                cols >= 1,
        ;
        let p = (r as i32, c as i32);
        assert(v.at() == p);
        assert(cell_of(g, p) == v);
        let nn = ((r - 1) as i32, c as i32);
        let ee = (r as i32, (c + 1) as i32);
        if r >= 1 {
            assert(v.north == Some(nn));
            assert(coords_set(rows, cols).contains(nn));
            assert(v.has_link_toward(Direction::North) == linked(g, p, nn));
            if nn != root {
                assert(north_or_east(nn, parent[nn]));
            }
        } else {
            assert(v.north is None);
        }
        if c + 1 < cols {
            assert(v.east == Some(ee));
            assert(coords_set(rows, cols).contains(ee));
            assert(v.has_link_toward(Direction::East) == linked(g, p, ee));
            if ee != root {
                assert(north_or_east(ee, parent[ee]));
            }
        } else {
            assert(v.east is None);
        }
        if p != root {
            assert(coords_set(rows, cols).contains(p));
            assert(north_or_east(p, parent[p]));
            assert(in_bounds(rows, cols, parent[p]));
        }
    }
}

/// The cells before (`r`, `a`) in row-major order, and those of row `r`
/// from column `lo` up to, not including, `hi`.
pub open spec fn run_done(rows: int, cols: int, r: int, a: int, lo: int, hi: int) -> Set<(i32, i32)> {
    Set::new(
        |p: (i32, i32)|
            in_bounds(rows, cols, p) && (p.0 < r || (p.0 == r && p.1 < a) || (p.0 == r && lo <= p.1
                < hi)),
    )
}

/// What Sidewinder keeps while it carves: a partial tree rooted at the
/// top-right corner, whose done cells have their parents done too, and
/// whose top-row cells each have their east neighbor as parent.
#[verifier::opaque]
pub open spec fn sidewinder_state(
    g: Seq<Seq<crate::cell::CellView>>,
    rows: int,
    cols: int,
    root: (i32, i32),
    parent: Map<(i32, i32), (i32, i32)>,
    depth: Map<(i32, i32), nat>,
    done: Set<(i32, i32)>,
) -> bool {
    &&& partial_tree(g, rows, cols, root, parent, depth, done)
    &&& depth.contains_key(root)
    &&& forall|q: (i32, i32)| #[trigger] done.contains(q) ==> depth.contains_key(q)
    &&& forall|q: (i32, i32)| #[trigger] done.contains(q) && q != root ==> done.contains(parent[q])
    &&& forall|q: (i32, i32)|
        #[trigger] done.contains(q) && q != root && q.0 == 0 ==> parent[q] == (0i32, (q.1 + 1) as i32)
    &&& forall|q: (i32, i32)| #[trigger] done.contains(q) && q != root ==> parent[q].0 <= q.0
}

/// What Sidewinder keeps, over the stored cells, with row `r` done before
/// column `a` and from column `lo` up to, not including, `hi`.
pub open spec fn carving(
    cells: Seq<Vec<Cell>>,
    rows: i32,
    cols: i32,
    root: (i32, i32),
    parent: Map<(i32, i32), (i32, i32)>,
    depth: Map<(i32, i32), nat>,
    r: int,
    a: int,
    lo: int,
    hi: int,
) -> bool {
    sidewinder_state(
        cells_view(cells),
        rows as int,
        cols as int,
        root,
        parent,
        depth,
        run_done(rows as int, cols as int, r, a, lo, hi),
    )
}

/// Carving a passage from a cell not yet done to a done neighbor keeps
/// what Sidewinder keeps, with that neighbor as its parent.
proof fn lemma_sidewinder_step(
    g0: Seq<Seq<crate::cell::CellView>>,
    g1: Seq<Seq<crate::cell::CellView>>,
    rows: int,
    cols: int,
    root: (i32, i32),
    parent: Map<(i32, i32), (i32, i32)>,
    depth: Map<(i32, i32), nat>,
    done: Set<(i32, i32)>,
    p: (i32, i32),
    n: (i32, i32),
)
    requires
        sidewinder_state(g0, rows, cols, root, parent, depth, done),
        shaped(g0, rows, cols),
        wired(g0, rows, cols),
        crate::maze::adds_passage(g0, g1, rows, cols, p, n),
        in_bounds(rows, cols, p),
        in_bounds(rows, cols, n),
        adjacent(p, n),
        !done.contains(p),
        done.contains(n),
        p != root,
        p.0 == 0 ==> n == (0i32, (p.1 + 1) as i32),
        n.0 <= p.0,
    ensures
        sidewinder_state(g1, rows, cols, root, parent.insert(p, n), depth.insert(p, depth[n] + 1), done.insert(p)),
        wired(g1, rows, cols),
{
    reveal(sidewinder_state);
    lemma_tree_grow(g0, g1, rows, cols, root, parent, depth, done, p, n, depth[n] + 1);
    lemma_passage_keeps_wired(g0, g1, rows, cols, p, n);
}

/// Carves the passages of row `r` from column `lo` west to column `a`,
/// each cell taking its east neighbor as parent.
fn carve_west_chain(
    cells: &mut Vec<Vec<Cell>>,
    rows: i32,
    cols: i32,
    r: i32,
    a: i32,
    lo: i32,
    hi: i32,
    Ghost(root): Ghost<(i32, i32)>,
    Ghost(parent0): Ghost<Map<(i32, i32), (i32, i32)>>,
    Ghost(depth0): Ghost<Map<(i32, i32), nat>>,
)
    requires
        shaped(cells_view(old(cells)@), rows as int, cols as int),
        wired(cells_view(old(cells)@), rows as int, cols as int),
        0 <= r < rows,
        0 <= a <= lo < hi <= cols,
        root == (0i32, (cols - 1) as i32),
        r == 0 ==> hi == cols,
        carving(old(cells)@, rows, cols, root, parent0, depth0, r as int, a as int, lo as int, hi as int),
    ensures
        shaped(cells_view(final(cells)@), rows as int, cols as int),
        wired(cells_view(final(cells)@), rows as int, cols as int),
        exists|parent: Map<(i32, i32), (i32, i32)>, depth: Map<(i32, i32), nat>|
            #[trigger] carving(final(cells)@, rows, cols, root, parent, depth, r as int, a as int, a as int, hi as int),
{
    let ghost mut parent = parent0;
    let ghost mut depth = depth0;
    let mut j = lo;
    while j > a
        invariant
            shaped(cells_view(cells@), rows as int, cols as int),
            wired(cells_view(cells@), rows as int, cols as int),
            0 <= r < rows,
            0 <= a <= j < hi <= cols,
            root == (0i32, (cols - 1) as i32),
            r == 0 ==> hi == cols,
            carving(cells@, rows, cols, root, parent, depth, r as int, a as int, j as int, hi as int),
        decreases j - a,
    {
        let ghost g0 = cells_view(cells@);
        let ghost done = run_done(rows as int, cols as int, r as int, a as int, j as int, hi as int);
        let p = (r, j - 1);
        let n = (r, j);
        proof {
            assert(done.contains(n));
            assert(!done.contains(p));
            assert(done.contains(root));
            assert(adjacent(p, n));
        }
        carve(cells, rows, cols, p, n);
        proof {
            let g1 = cells_view(cells@);
            let d = depth[n] + 1;
            lemma_sidewinder_step(g0, g1, rows as int, cols as int, root, parent, depth, done, p, n);
            parent = parent.insert(p, n);
            depth = depth.insert(p, d);
            assert(done.insert(p) =~= run_done(rows as int, cols as int, r as int, a as int, j - 1, hi as int));
        }
        j = j - 1;
    }
}

/// Carves the passages of row `r` from column `hi - 1` east to column `b`,
/// each cell taking its west neighbor as parent.
fn carve_east_chain(
    cells: &mut Vec<Vec<Cell>>,
    rows: i32,
    cols: i32,
    r: i32,
    a: i32,
    hi: i32,
    b: i32,
    Ghost(root): Ghost<(i32, i32)>,
    Ghost(parent0): Ghost<Map<(i32, i32), (i32, i32)>>,
    Ghost(depth0): Ghost<Map<(i32, i32), nat>>,
)
    requires
        shaped(cells_view(old(cells)@), rows as int, cols as int),
        wired(cells_view(old(cells)@), rows as int, cols as int),
        0 < r < rows,
        0 <= a < hi <= b + 1 <= cols,
        root == (0i32, (cols - 1) as i32),
        carving(old(cells)@, rows, cols, root, parent0, depth0, r as int, a as int, a as int, hi as int),
    ensures
        shaped(cells_view(final(cells)@), rows as int, cols as int),
        wired(cells_view(final(cells)@), rows as int, cols as int),
        exists|parent: Map<(i32, i32), (i32, i32)>, depth: Map<(i32, i32), nat>|
            #[trigger] carving(final(cells)@, rows, cols, root, parent, depth, r as int, a as int, a as int, b + 1),
{
    let ghost mut parent = parent0;
    let ghost mut depth = depth0;
    let mut j = hi;
    while j <= b
        invariant
            shaped(cells_view(cells@), rows as int, cols as int),
            wired(cells_view(cells@), rows as int, cols as int),
            0 < r < rows,
            0 <= a < j <= b + 1 <= cols,
            root == (0i32, (cols - 1) as i32),
            carving(cells@, rows, cols, root, parent, depth, r as int, a as int, a as int, j as int),
        decreases b + 1 - j,
    {
        let ghost g0 = cells_view(cells@);
        let ghost done = run_done(rows as int, cols as int, r as int, a as int, a as int, j as int);
        let p = (r, j);
        let n = (r, j - 1);
        proof {
            assert(done.contains(n));
            assert(!done.contains(p));
            assert(done.contains(root));
            assert(adjacent(p, n));
        }
        carve(cells, rows, cols, p, n);
        proof {
            let g1 = cells_view(cells@);
            let d = depth[n] + 1;
            lemma_sidewinder_step(g0, g1, rows as int, cols as int, root, parent, depth, done, p, n);
            parent = parent.insert(p, n);
            depth = depth.insert(p, d);
            assert(done.insert(p) =~= run_done(rows as int, cols as int, r as int, a as int, a as int, j + 1));
        }
        j = j + 1;
    }
}

/// The top-right corner may join the done cells.
proof fn lemma_sidewinder_root(
    g: Seq<Seq<crate::cell::CellView>>,
    rows: int,
    cols: int,
    root: (i32, i32),
    parent: Map<(i32, i32), (i32, i32)>,
    depth: Map<(i32, i32), nat>,
    done: Set<(i32, i32)>,
)
    requires
        sidewinder_state(g, rows, cols, root, parent, depth, done),
    ensures
        sidewinder_state(g, rows, cols, root, parent, depth, done.insert(root)),
{
    reveal(sidewinder_state);
    lemma_tree_add_root(g, rows, cols, root, parent, depth, done);
}

/// Closes the run of row `r` from column `a` to column `b`: the cell at
/// column `k` opens a passage north, when the row has a row above it, and
/// each other cell of the run a passage toward it along the row. On the
/// top row the run spans the whole row and leads east to the corner.
fn close_run(
    cells: &mut Vec<Vec<Cell>>,
    rows: i32,
    cols: i32,
    r: i32,
    a: i32,
    b: i32,
    k: i32,
    Ghost(root): Ghost<(i32, i32)>,
    Ghost(parent): Ghost<Map<(i32, i32), (i32, i32)>>,
    Ghost(depth): Ghost<Map<(i32, i32), nat>>,
)
    requires
        shaped(cells_view(old(cells)@), rows as int, cols as int),
        wired(cells_view(old(cells)@), rows as int, cols as int),
        0 <= r < rows,
        0 <= a <= k <= b < cols,
        root == (0i32, (cols - 1) as i32),
        r == 0 ==> a == 0 && b == cols - 1,
        carving(old(cells)@, rows, cols, root, parent, depth, r as int, a as int, a as int, a as int),
    ensures
        shaped(cells_view(final(cells)@), rows as int, cols as int),
        wired(cells_view(final(cells)@), rows as int, cols as int),
        exists|parent: Map<(i32, i32), (i32, i32)>, depth: Map<(i32, i32), nat>|
            #[trigger] carving(final(cells)@, rows, cols, root, parent, depth, r as int, a as int, a as int, b + 1),
{
    let ghost done = run_done(rows as int, cols as int, r as int, a as int, a as int, a as int);
    if r == 0 {
        proof {
            lemma_sidewinder_root(cells_view(cells@), rows as int, cols as int, root, parent, depth, done);
            assert(done.insert(root) =~= run_done(rows as int, cols as int, 0, 0, b as int, b + 1));
        }
        carve_west_chain(cells, rows, cols, r, a, b, b + 1, Ghost(root), Ghost(parent), Ghost(depth));
    } else {
        let ghost g0 = cells_view(cells@);
        let p = (r, k);
        let n = (r - 1, k);
        proof {
            assert(done.contains(n));
            assert(!done.contains(p));
            assert(done.contains(root));
            assert(adjacent(p, n));
        }
        carve(cells, rows, cols, p, n);
        let ghost parent1 = parent.insert(p, n);
        let ghost depth1 = depth.insert(p, depth[n] + 1);
        proof {
            lemma_sidewinder_step(g0, cells_view(cells@), rows as int, cols as int, root, parent, depth, done, p, n);
            assert(done.insert(p) =~= run_done(rows as int, cols as int, r as int, a as int, k as int, k + 1));
        }
        carve_west_chain(cells, rows, cols, r, a, k, k + 1, Ghost(root), Ghost(parent1), Ghost(depth1));
        let ghost (parent2, depth2) = choose|parent2: Map<(i32, i32), (i32, i32)>, depth2: Map<(i32, i32), nat>|
            #[trigger] carving(cells@, rows, cols, root, parent2, depth2, r as int, a as int, a as int, k + 1);
        carve_east_chain(cells, rows, cols, r, a, k + 1, b, Ghost(root), Ghost(parent2), Ghost(depth2));
    }
}

/// Whether every cell of the top row but the last links east, and none
/// of them north.
pub open spec fn top_row_corridor(g: Seq<Seq<crate::cell::CellView>>, cols: int) -> bool {
    &&& forall|c: int| 0 <= c < cols - 1 ==> (#[trigger] g[0][c]).has_link_toward(Direction::East)
    &&& forall|c: int| 0 <= c < cols ==> !(#[trigger] g[0][c]).has_link_toward(Direction::North)
}

/// Whether cells `a` through `b` of row `r` form a run: each of them but
/// the last links east, and neither the cell before nor the last one does.
pub open spec fn is_run(g: Seq<Seq<crate::cell::CellView>>, cols: int, r: int, a: int, b: int) -> bool {
    &&& 0 <= a <= b < cols
    &&& forall|j: int| a <= j < b ==> (#[trigger] g[r][j]).has_link_toward(Direction::East)
    &&& (a == 0 || !g[r][a - 1].has_link_toward(Direction::East))
    &&& !g[r][b].has_link_toward(Direction::East)
}

/// Whether every run of a row below the top has exactly one cell with a
/// passage north.
pub open spec fn runs_close_north(g: Seq<Seq<crate::cell::CellView>>, rows: int, cols: int) -> bool {
    forall|r: int, a: int, b: int|
        1 <= r < rows && #[trigger] is_run(g, cols, r, a, b) ==> exists|k: int|
            #[trigger] north_only_at(g, r, a, b, k)
}

/// Whether, of cells `a` through `b` of row `r`, the one at column `k` and
/// no other has a passage north.
pub open spec fn north_only_at(g: Seq<Seq<crate::cell::CellView>>, r: int, a: int, b: int, k: int) -> bool {
    &&& a <= k <= b
    &&& forall|j: int|
        a <= j <= b ==> ((#[trigger] g[r][j]).has_link_toward(Direction::North) <==> j == k)
}

/// The coordinate of row `r`, column `j`.
pub open spec fn at_rc(r: int, j: int) -> (i32, i32) {
    (r as i32, j as i32)
}

/// How the links of a cell below the top row of a finished tree follow from
/// the parents: each cell's parent is its north, east or west neighbor.
proof fn lemma_row_facts(
    g: Seq<Seq<crate::cell::CellView>>,
    rows: int,
    cols: int,
    root: (i32, i32),
    parent: Map<(i32, i32), (i32, i32)>,
    depth: Map<(i32, i32), nat>,
    r: int,
    j: int,
)
    requires
        shaped(g, rows, cols),
        wired(g, rows, cols),
        root == (0i32, (cols - 1) as i32),
        partial_tree(g, rows, cols, root, parent, depth, coords_set(rows, cols)),
        forall|q: (i32, i32)| #[trigger] coords_set(rows, cols).contains(q) && q != root ==> parent[q].0 <= q.0,
        1 <= r < rows,
        0 <= j < cols,
    ensures
        g[r][j].has_link_toward(Direction::East) <==> j + 1 < cols && (parent[at_rc(r, j)] == at_rc(r, j + 1)
            || parent[at_rc(r, j + 1)] == at_rc(r, j)),
        g[r][j].has_link_toward(Direction::North) <==> parent[at_rc(r, j)] == at_rc(r - 1, j),
        parent[at_rc(r, j)] == at_rc(r - 1, j) || (j + 1 < cols && parent[at_rc(r, j)] == at_rc(r, j + 1))
            || (j >= 1 && parent[at_rc(r, j)] == at_rc(r, j - 1)),
        j + 1 < cols ==> !(parent[at_rc(r, j)] == at_rc(r, j + 1) && parent[at_rc(r, j + 1)] == at_rc(r, j)),
{
    assert(rows <= rows * cols && cols <= rows * cols) by (nonlinear_arith)
        requires
            rows >= 1,
            cols >= 1,
    ;
    let all = coords_set(rows, cols);
    let q = at_rc(r, j);
    let v = g[r][j];
    assert(crate::maze::wired_cell(v, rows, cols));
    assert(cell_of(g, q) == v);
    assert(all.contains(q));
    assert(q != root);
    let n = parent[q];
    assert(adjacent(q, n) && in_bounds(rows, cols, n));
    assert(n.0 <= q.0);
    let up = at_rc(r - 1, j);
    assert(all.contains(up));
    if up != root {
        assert(parent[up].0 <= up.0);
    }
    assert(linked(g, q, up) <==> (parent[q] == up) || (up != root && parent[up] == q));
    if j + 1 < cols {
        let e = at_rc(r, j + 1);
        assert(all.contains(e));
        assert(e != root);
        assert(linked(g, q, e) <==> (parent[q] == e) || (parent[e] == q));
        if parent[q] == e && parent[e] == q {
            assert(depth[parent[q]] < depth[q]);
            assert(depth[parent[e]] < depth[e]);
        }
    }
}

/// In a run whose cell `j` is not a west pointer, some cell from `j` on
/// points north, every cell before it from `j` points east, and every cell
/// after it points west.
proof fn lemma_run_scan(
    g: Seq<Seq<crate::cell::CellView>>,
    rows: int,
    cols: int,
    root: (i32, i32),
    parent: Map<(i32, i32), (i32, i32)>,
    depth: Map<(i32, i32), nat>,
    r: int,
    a: int,
    b: int,
    j: int,
) -> (k: int)
    requires
        shaped(g, rows, cols),
        wired(g, rows, cols),
        root == (0i32, (cols - 1) as i32),
        partial_tree(g, rows, cols, root, parent, depth, coords_set(rows, cols)),
        forall|q: (i32, i32)| #[trigger] coords_set(rows, cols).contains(q) && q != root ==> parent[q].0 <= q.0,
        1 <= r < rows,
        is_run(g, cols, r, a, b),
        a <= j <= b,
        j == 0 || parent[at_rc(r, j)] != at_rc(r, j - 1),
    ensures
        j <= k <= b,
        forall|i: int| a <= i <= b && j <= i ==> (#[trigger] g[r][i]).has_link_toward(Direction::North) == (i == k),
    decreases b - j,
{
    lemma_row_facts(g, rows, cols, root, parent, depth, r, j);
    if parent[at_rc(r, j)] == at_rc(r - 1, j) {
        lemma_run_tail(g, rows, cols, root, parent, depth, r, a, b, j, b);
        assert forall|i: int| a <= i <= b && j <= i implies (#[trigger] g[r][i]).has_link_toward(Direction::North) == (i == j) by {
            lemma_row_facts(g, rows, cols, root, parent, depth, r, i);
        }
        j
    } else {
        assert(parent[at_rc(r, j)] == at_rc(r, j + 1));
        assert(j < b) by {
            if j == b {
                assert(g[r][b].has_link_toward(Direction::East));
            }
        }
        lemma_row_facts(g, rows, cols, root, parent, depth, r, j + 1);
        let k = lemma_run_scan(g, rows, cols, root, parent, depth, r, a, b, j + 1);
        k
    }
}

/// After a north pointer at `k`, every cell of the run up to `t` points
/// west.
proof fn lemma_run_tail(
    g: Seq<Seq<crate::cell::CellView>>,
    rows: int,
    cols: int,
    root: (i32, i32),
    parent: Map<(i32, i32), (i32, i32)>,
    depth: Map<(i32, i32), nat>,
    r: int,
    a: int,
    b: int,
    k: int,
    t: int,
)
    requires
        shaped(g, rows, cols),
        wired(g, rows, cols),
        root == (0i32, (cols - 1) as i32),
        partial_tree(g, rows, cols, root, parent, depth, coords_set(rows, cols)),
        forall|q: (i32, i32)| #[trigger] coords_set(rows, cols).contains(q) && q != root ==> parent[q].0 <= q.0,
        1 <= r < rows,
        is_run(g, cols, r, a, b),
        a <= k <= t <= b,
        parent[at_rc(r, k)] == at_rc(r - 1, k),
    ensures
        forall|i: int| k < i <= t ==> parent[#[trigger] at_rc(r, i)] == at_rc(r, i - 1),
    decreases t - k,
{
    if t > k {
        lemma_run_tail(g, rows, cols, root, parent, depth, r, a, b, k, t - 1);
        lemma_row_facts(g, rows, cols, root, parent, depth, r, t - 1);
        lemma_row_facts(g, rows, cols, root, parent, depth, r, t);
        assert(g[r][t - 1].has_link_toward(Direction::East));
        if t - 1 > k {
            assert(parent[at_rc(r, t - 1)] == at_rc(r, t - 2));
        }
    }
}

/// In a Sidewinder maze every run below the top row has exactly one cell
/// with a passage north.
proof fn lemma_sidewinder_runs(
    g: Seq<Seq<crate::cell::CellView>>,
    rows: int,
    cols: int,
    root: (i32, i32),
    parent: Map<(i32, i32), (i32, i32)>,
    depth: Map<(i32, i32), nat>,
)
    requires
        shaped(g, rows, cols),
        wired(g, rows, cols),
        root == (0i32, (cols - 1) as i32),
        partial_tree(g, rows, cols, root, parent, depth, coords_set(rows, cols)),
        forall|q: (i32, i32)| #[trigger] coords_set(rows, cols).contains(q) && q != root ==> parent[q].0 <= q.0,
    ensures
        runs_close_north(g, rows, cols),
{
    assert forall|r: int, a: int, b: int| 1 <= r < rows && #[trigger] is_run(g, cols, r, a, b) implies exists|k: int|
        #[trigger] north_only_at(g, r, a, b, k) by {
        lemma_row_facts(g, rows, cols, root, parent, depth, r, a);
        if a > 0 {
            lemma_row_facts(g, rows, cols, root, parent, depth, r, a - 1);
            assert(!g[r][a - 1].has_link_toward(Direction::East));
        }
        let k = lemma_run_scan(g, rows, cols, root, parent, depth, r, a, b, a);
        assert(north_only_at(g, r, a, b, k));
    }
}

/// A Sidewinder maze: its cells and its top row.
proof fn lemma_sidewinder_done(
    g: Seq<Seq<crate::cell::CellView>>,
    rows: int,
    cols: int,
    root: (i32, i32),
    parent: Map<(i32, i32), (i32, i32)>,
    depth: Map<(i32, i32), nat>,
)
    requires
        shaped(g, rows, cols),
        wired(g, rows, cols),
        rows >= 1,
        root == (0i32, (cols - 1) as i32),
        sidewinder_state(g, rows, cols, root, parent, depth, run_done(rows, cols, rows, 0, 0, 0)),
    ensures
        is_maze(g, rows, cols),
        top_row_corridor(g, cols),
        runs_close_north(g, rows, cols),
{
    reveal(sidewinder_state);
    assert(run_done(rows, cols, rows, 0, 0, 0) =~= coords_set(rows, cols));
    lemma_tree_is_maze(g, rows, cols, root, parent, depth);
    lemma_sidewinder_runs(g, rows, cols, root, parent, depth);
    assert(rows <= rows * cols && cols <= rows * cols) by (nonlinear_arith)
        requires
            rows >= 1,
            cols >= 1,
    ;
    assert forall|c: int| 0 <= c < cols - 1 implies (#[trigger] g[0][c]).has_link_toward(Direction::East) by {
        let q = (0i32, c as i32);
        assert(crate::maze::wired_cell(g[0][c], rows, cols));
        assert(coords_set(rows, cols).contains(q));
        assert(parent[q] == (0i32, (c + 1) as i32));
        assert(cell_of(g, q) == g[0][c]);
        assert(linked(g, q, parent[q]));
    }
    assert forall|c: int| 0 <= c < cols implies !(#[trigger] g[0][c]).has_link_toward(Direction::North) by {
        assert(crate::maze::wired_cell(g[0][c], rows, cols));
    }
}

/// A Sidewinder maze carved into a copy of `some_grid`. Row by row, west to
/// east, each cell extends the current run; the run closes at the east
/// edge, or, below the top row, when a fair coin says so. A closing run
/// opens one passage north from a cell drawn uniformly from the run, and
/// passages east between its cells. The top row is one corridor.
pub fn sidewinder(some_grid: &Grid, rng: &mut RandomSource) -> (r: Grid)
    requires
        some_grid.wf(),
        some_grid.rows >= 1,
        some_grid.columns >= 1,
        wired(some_grid.cells(), some_grid.rows as int, some_grid.columns as int),
        blank(some_grid.cells(), some_grid.rows as int, some_grid.columns as int),
    ensures
        r.wf(),
        r.rows == some_grid.rows,
        r.columns == some_grid.columns,
        is_maze(r.cells(), r.rows as int, r.columns as int),
        top_row_corridor(r.cells(), r.columns as int),
        runs_close_north(r.cells(), r.rows as int, r.columns as int),
{
    let rows = some_grid.rows;
    let cols = some_grid.columns;
    let mut cells = copy_cells(&some_grid.grid);
    let ghost root: (i32, i32) = (0i32, (cols - 1) as i32);
    proof {
        let parent = Map::<(i32, i32), (i32, i32)>::empty();
        let depth = Map::<(i32, i32), nat>::empty().insert(root, 0);
        lemma_tree_start(cells_view(cells@), rows as int, cols as int, root, parent, depth);
        assert(run_done(rows as int, cols as int, 0, 0, 0, 0) =~= Set::empty());
        reveal(sidewinder_state);
        assert(carving(cells@, rows, cols, root, parent, depth, 0, 0, 0, 0));
    }
    let mut r: i32 = 0;
    while r < rows
        invariant
            0 <= r <= rows,
            rows == some_grid.rows,
            cols == some_grid.columns,
            cols >= 1,
            root == (0i32, (cols - 1) as i32),
            shaped(cells_view(cells@), rows as int, cols as int),
            wired(cells_view(cells@), rows as int, cols as int),
            exists|parent: Map<(i32, i32), (i32, i32)>, depth: Map<(i32, i32), nat>|
                #[trigger] carving(cells@, rows, cols, root, parent, depth, r as int, 0, 0, 0),
        decreases rows - r,
    {
        let mut run_start: i32 = 0;
        let mut c: i32 = 0;
        while c < cols
            invariant
                0 <= r < rows,
                0 <= run_start <= c <= cols,
                r == 0 ==> run_start == 0 || run_start == cols,
                c == cols ==> run_start == cols,
                rows == some_grid.rows,
                cols == some_grid.columns,
                root == (0i32, (cols - 1) as i32),
                shaped(cells_view(cells@), rows as int, cols as int),
                wired(cells_view(cells@), rows as int, cols as int),
                exists|parent: Map<(i32, i32), (i32, i32)>, depth: Map<(i32, i32), nat>|
                    #[trigger] carving(cells@, rows, cols, root, parent, depth, r as int, run_start as int, run_start as int, run_start as int),
            decreases cols - c,
        {
            let ghost g0 = cells_view(cells@);
            let cell = lookup(&cells, rows, cols, (r, c)).unwrap();
            proof {
                assert(g0[r as int][c as int] == cell@);
                assert(wired_cell_at(g0, rows as int, cols as int, r as int, c as int));
            }
            let at_northern_boundary = cell.north.is_none();
            let should_close_out = cell.east.is_none() || (!at_northern_boundary && rng.below(2) == 0);
            if should_close_out {
                let run_count = c - run_start + 1;
                let k = if run_count == 1 {
                    c
                } else {
                    run_start + rng.below(run_count as usize) as i32
                };
                let ghost (parent, depth) = choose|parent: Map<(i32, i32), (i32, i32)>, depth: Map<(i32, i32), nat>|
                    #[trigger] carving(cells@, rows, cols, root, parent, depth, r as int, run_start as int, run_start as int, run_start as int);
                close_run(&mut cells, rows, cols, r, run_start, c, k, Ghost(root), Ghost(parent), Ghost(depth));
                proof {
                    let (parent1, depth1) = choose|p1: Map<(i32, i32), (i32, i32)>, d1: Map<(i32, i32), nat>|
                        #[trigger] carving(cells@, rows, cols, root, p1, d1, r as int, run_start as int, run_start as int, c + 1);
                    assert(run_done(rows as int, cols as int, r as int, run_start as int, run_start as int, c + 1)
                        =~= run_done(rows as int, cols as int, r as int, c + 1, c + 1, c + 1));
                    assert(carving(cells@, rows, cols, root, parent1, depth1, r as int, c + 1, c + 1, c + 1));
                }
                run_start = c + 1;
            }
            c = c + 1;
        }
        proof {
            let (parent1, depth1) = choose|p1: Map<(i32, i32), (i32, i32)>, d1: Map<(i32, i32), nat>|
                #[trigger] carving(cells@, rows, cols, root, p1, d1, r as int, cols as int, cols as int, cols as int);
            assert(run_done(rows as int, cols as int, r as int, cols as int, cols as int, cols as int)
                =~= run_done(rows as int, cols as int, r + 1, 0, 0, 0));
            assert(carving(cells@, rows, cols, root, parent1, depth1, r + 1, 0, 0, 0));
        }
        r = r + 1;
    }
    let ghost g = cells_view(cells@);
    proof {
        let (parent, depth) = choose|parent: Map<(i32, i32), (i32, i32)>, depth: Map<(i32, i32), nat>|
            #[trigger] carving(cells@, rows, cols, root, parent, depth, rows as int, 0, 0, 0);
        lemma_sidewinder_done(g, rows as int, cols as int, root, parent, depth);
    }
    Grid::from_cells_sized(cells, rows, cols)
}

/// What the Aldous-Broder walk keeps: the visited cells, `done`, form a
/// partial tree rooted at `start` whose parents were visited earlier; a
/// cell other than `start` was visited exactly when it has a link; and
/// before the first passage only `start` was visited.
#[verifier::opaque]
pub open spec fn walk_state(
    g: Seq<Seq<crate::cell::CellView>>,
    rows: int,
    cols: int,
    start: (i32, i32),
    parent: Map<(i32, i32), (i32, i32)>,
    depth: Map<(i32, i32), nat>,
    done: Set<(i32, i32)>,
    cur: (i32, i32),
    count: nat,
) -> bool {
    &&& partial_tree(g, rows, cols, start, parent, depth, done)
    &&& done.finite()
    &&& done.contains(start)
    &&& done.contains(cur)
    &&& forall|q: (i32, i32)| #[trigger] done.contains(q) ==> depth.contains_key(q) && depth[q] < count
    &&& forall|q: (i32, i32)| #[trigger] done.contains(q) && q != start ==> done.contains(parent[q])
    &&& forall|p: (i32, i32)|
        in_bounds(rows, cols, p) && p != start ==> (#[trigger] done.contains(p) <==> !cell_of(
            g,
            p,
        ).link_set().is_empty())
    &&& cell_of(g, start).link_set().is_empty() ==> done == Set::<(i32, i32)>::empty().insert(start)
}

/// The walk starts at `start` on a grid without passages.
proof fn lemma_walk_start(g: Seq<Seq<crate::cell::CellView>>, rows: int, cols: int, start: (i32, i32))
    requires
        shaped(g, rows, cols),
        blank(g, rows, cols),
        in_bounds(rows, cols, start),
    ensures
        walk_state(g, rows, cols, start, Map::empty(), Map::empty().insert(start, 0nat), Set::empty().insert(start), start, 1),
{
    reveal(walk_state);
    let parent = Map::<(i32, i32), (i32, i32)>::empty();
    let depth = Map::<(i32, i32), nat>::empty().insert(start, 0nat);
    lemma_tree_start(g, rows, cols, start, parent, depth);
    lemma_tree_add_root(g, rows, cols, start, parent, depth, Set::empty());
    assert forall|p: (i32, i32)| in_bounds(rows, cols, p) implies cell_of(g, p).link_set().is_empty() by {
        assert(g[p.0 as int][p.1 as int].links.len() == 0);
        assert(cell_of(g, p).link_set() =~= Set::empty());
    }
}

/// Moving to a visited cell keeps what the walk keeps.
proof fn lemma_walk_move(
    g: Seq<Seq<crate::cell::CellView>>,
    rows: int,
    cols: int,
    start: (i32, i32),
    parent: Map<(i32, i32), (i32, i32)>,
    depth: Map<(i32, i32), nat>,
    done: Set<(i32, i32)>,
    cur: (i32, i32),
    count: nat,
    nb: (i32, i32),
)
    requires
        walk_state(g, rows, cols, start, parent, depth, done, cur, count),
        in_bounds(rows, cols, nb),
        !cell_of(g, nb).link_set().is_empty(),
    ensures
        walk_state(g, rows, cols, start, parent, depth, done, nb, count),
{
    reveal(walk_state);
    if nb != start {
        assert(done.contains(nb));
    }
}

/// Opening a passage between `a` and `b` leaves the links of every other
/// cell as they were.
proof fn lemma_passage_elsewhere(
    g0: Seq<Seq<crate::cell::CellView>>,
    g1: Seq<Seq<crate::cell::CellView>>,
    rows: int,
    cols: int,
    a: (i32, i32),
    b: (i32, i32),
    p: (i32, i32),
)
    requires
        crate::maze::adds_passage(g0, g1, rows, cols, a, b),
        in_bounds(rows, cols, p),
        p != a,
        p != b,
    ensures
        cell_of(g1, p).link_set() == cell_of(g0, p).link_set(),
{
    assert forall|q: (i32, i32)| cell_of(g1, p).link_set().contains(q) <==> cell_of(g0, p).link_set().contains(q) by {
        assert(linked(g1, p, q) <==> linked(g0, p, q));
    }
    assert(cell_of(g1, p).link_set() =~= cell_of(g0, p).link_set());
}

/// Carving a passage from the current cell to an unvisited neighbor visits
/// it, with the current cell as its parent.
#[verifier::rlimit(40)]
proof fn lemma_walk_carve(
    g0: Seq<Seq<crate::cell::CellView>>,
    g1: Seq<Seq<crate::cell::CellView>>,
    rows: int,
    cols: int,
    start: (i32, i32),
    parent: Map<(i32, i32), (i32, i32)>,
    depth: Map<(i32, i32), nat>,
    done: Set<(i32, i32)>,
    cur: (i32, i32),
    count: nat,
    nb: (i32, i32),
)
    requires
        walk_state(g0, rows, cols, start, parent, depth, done, cur, count),
        shaped(g0, rows, cols),
        crate::maze::adds_passage(g0, g1, rows, cols, nb, cur),
        in_bounds(rows, cols, nb),
        adjacent(nb, cur),
        cell_of(g0, nb).link_set().is_empty(),
    ensures
        walk_state(g1, rows, cols, start, parent.insert(nb, cur), depth.insert(nb, count), done.insert(nb), nb, count + 1),
        !done.contains(nb),
{
    reveal(walk_state);
    assert(nb != cur) by {
        assert(crate::cell::direction_between(nb, cur) is Some);
    }
    if nb == start {
        assert(done == Set::<(i32, i32)>::empty().insert(start));
        assert(done.contains(cur));
    }
    assert(!done.contains(nb));
    lemma_tree_grow(g0, g1, rows, cols, start, parent, depth, done, nb, cur, count);
    let done1 = done.insert(nb);
    assert(linked(g1, nb, cur));
    assert(cell_of(g1, nb).link_set().contains(cur));
    assert(linked(g1, cur, nb));
    assert(cell_of(g1, cur).link_set().contains(nb));
    assert forall|p: (i32, i32)|
        in_bounds(rows, cols, p) && p != start implies (#[trigger] done1.contains(p) <==> !cell_of(g1, p).link_set().is_empty()) by {
        if p != nb && p != cur {
            lemma_passage_elsewhere(g0, g1, rows, cols, nb, cur, p);
        }
    }
    if cell_of(g1, start).link_set().is_empty() {
        assert(start != cur && start != nb);
        lemma_passage_elsewhere(g0, g1, rows, cols, nb, cur, start);
        assert(done.contains(cur));
    }
}

/// Facts about the visited cells that the walk relies on at each step.
proof fn lemma_walk_facts(
    g: Seq<Seq<crate::cell::CellView>>,
    rows: int,
    cols: int,
    start: (i32, i32),
    parent: Map<(i32, i32), (i32, i32)>,
    depth: Map<(i32, i32), nat>,
    done: Set<(i32, i32)>,
    cur: (i32, i32),
    count: nat,
)
    requires
        walk_state(g, rows, cols, start, parent, depth, done, cur, count),
    ensures
        done.finite(),
        done.len() >= 1,
        done.subset_of(coords_set(rows, cols)),
        in_bounds(rows, cols, cur),
{
    reveal(walk_state);
    assert(done.contains(start));
    vstd::set_lib::lemma_len_subset(Set::empty().insert(start), done);
}

/// A grid of two cells or more gives every cell a neighbor.
proof fn lemma_some_neighbor(g: Seq<Seq<crate::cell::CellView>>, rows: int, cols: int, p: (i32, i32))
    requires
        shaped(g, rows, cols),
        wired(g, rows, cols),
        in_bounds(rows, cols, p),
        rows * cols >= 2,
    ensures
        cell_of(g, p).neighbor_seq().len() > 0,
{
    let v = cell_of(g, p);
    assert(crate::maze::wired_cell(g[p.0 as int][p.1 as int], rows, cols));
    assert(rows >= 2 || cols >= 2) by (nonlinear_arith)
        requires
            rows * cols >= 2,
            rows >= 1,
            cols >= 1,
    ;
    assert(rows <= rows * cols && cols <= rows * cols) by (nonlinear_arith)
        requires
            rows >= 1,
            cols >= 1,
    ;
    if v.north is Some || v.south is Some || v.east is Some || v.west is Some {
    } else {
        assert(false);
    }
}

/// One step of the Aldous-Broder walk from `cur` to the neighbor `next`:
/// opens a passage between them, recorded on both, exactly when `next` has
/// no passage yet, and says whether it did.
pub fn walk_step(hgrid: &mut HashGrid, cur: (i32, i32), next: (i32, i32)) -> (carved: bool)
    requires
        old(hgrid).wf(),
        in_bounds(old(hgrid).rows as int, old(hgrid).columns as int, cur),
        in_bounds(old(hgrid).rows as int, old(hgrid).columns as int, next),
        adjacent(cur, next),
    ensures
        final(hgrid).wf(),
        final(hgrid).rows == old(hgrid).rows,
        final(hgrid).columns == old(hgrid).columns,
        final(hgrid).distances == old(hgrid).distances,
        carved == cell_of(old(hgrid).cells(), next).link_set().is_empty(),
        carved ==> crate::maze::adds_passage(
            old(hgrid).cells(),
            final(hgrid).cells(),
            old(hgrid).rows as int,
            old(hgrid).columns as int,
            next,
            cur,
        ),
        !carved ==> final(hgrid).cells() == old(hgrid).cells(),
{
    let ncell = hgrid.get_item(next).unwrap();
    if !ncell.has_links() {
        carve(&mut hgrid.grid, hgrid.rows, hgrid.columns, next, cur);
        true
    } else {
        false
    }
}

/// While only the start has been visited, the walk is at the start, and
/// any neighbor it draws is unvisited and has no passage.
proof fn lemma_walk_first_step(
    g: Seq<Seq<crate::cell::CellView>>,
    rows: int,
    cols: int,
    start: (i32, i32),
    parent: Map<(i32, i32), (i32, i32)>,
    depth: Map<(i32, i32), nat>,
    done: Set<(i32, i32)>,
    cur: (i32, i32),
    count: nat,
    nb: (i32, i32),
)
    requires
        walk_state(g, rows, cols, start, parent, depth, done, cur, count),
        done.len() == 1,
        in_bounds(rows, cols, nb),
        adjacent(cur, nb),
    ensures
        cell_of(g, nb).link_set().is_empty(),
{
    reveal(walk_state);
    assert(done.remove(start).len() == 0);
    assert(done.remove(start) =~= Set::empty());
    assert(done.contains(cur));
    if cur != start {
        assert(done.remove(start).contains(cur));
    }
    assert(nb != cur) by {
        assert(crate::cell::direction_between(cur, nb) is Some);
    }
    if nb != start {
        if done.contains(nb) {
            assert(done.remove(start).contains(nb));
        }
    }
}

/// A walk that visited a cell besides the start has opened a passage.
proof fn lemma_walk_carved(
    g: Seq<Seq<crate::cell::CellView>>,
    rows: int,
    cols: int,
    start: (i32, i32),
    parent: Map<(i32, i32), (i32, i32)>,
    depth: Map<(i32, i32), nat>,
    done: Set<(i32, i32)>,
    cur: (i32, i32),
    count: nat,
)
    requires
        walk_state(g, rows, cols, start, parent, depth, done, cur, count),
        done.len() >= 2,
    ensures
        exists|p: (i32, i32), q: (i32, i32)| in_bounds(rows, cols, p) && #[trigger] linked(g, p, q),
{
    reveal(walk_state);
    assert(done.remove(start).len() >= 1);
    let p = done.remove(start).choose();
    assert(done.remove(start).contains(p));
    assert(in_bounds(rows, cols, p) && p != start);
    let q = cell_of(g, p).link_set().choose();
    assert(linked(g, p, q));
}

/// Carves an Aldous-Broder maze into `hgrid`: a random walk from a cell
/// drawn uniformly moves each step to a neighbor drawn uniformly, opening a
/// passage to it when it has none yet, until every cell has been visited.
/// The walk gives up after `max_steps` steps; the result says whether it
/// visited every cell. Either way every passage joins two neighbors and is
/// recorded on both of them.
pub fn aldous_broder(hgrid: &mut HashGrid, rng: &mut RandomSource, max_steps: u64) -> (complete: bool)
    requires
        old(hgrid).wf(),
        old(hgrid).rows >= 1,
        old(hgrid).columns >= 1,
        wired(old(hgrid).cells(), old(hgrid).rows as int, old(hgrid).columns as int),
        blank(old(hgrid).cells(), old(hgrid).rows as int, old(hgrid).columns as int),
    ensures
        final(hgrid).wf(),
        final(hgrid).rows == old(hgrid).rows,
        final(hgrid).columns == old(hgrid).columns,
        final(hgrid).distances == old(hgrid).distances,
        wired(final(hgrid).cells(), final(hgrid).rows as int, final(hgrid).columns as int),
        links_adjacent(final(hgrid).cells(), final(hgrid).rows as int, final(hgrid).columns as int),
        links_symmetric(final(hgrid).cells(), final(hgrid).rows as int, final(hgrid).columns as int),
        complete ==> is_maze(final(hgrid).cells(), final(hgrid).rows as int, final(hgrid).columns as int),
        !complete ==> exists|p: (i32, i32)|
            in_bounds(final(hgrid).rows as int, final(hgrid).columns as int, p)
                && #[trigger] cell_of(final(hgrid).cells(), p).link_set().is_empty(),
        old(hgrid).rows * old(hgrid).columns == 1 ==> complete,
        max_steps >= 1 && old(hgrid).rows * old(hgrid).columns >= 2 ==> exists|p: (i32, i32), q: (i32, i32)|
            in_bounds(final(hgrid).rows as int, final(hgrid).columns as int, p) && #[trigger] linked(
                final(hgrid).cells(),
                p,
                q,
            ),
{
    let rows = hgrid.rows;
    let cols = hgrid.columns;
    let ghost area = rows as int * cols as int;
    proof {
        assert(1 <= area) by (nonlinear_arith)
            requires
                rows >= 1,
                cols >= 1,
                area == rows * cols,
        ;
    }
    let mut unvisited: usize = hgrid.len() - 1;
    let mut cur = hgrid.random_cell(rng).unwrap().coords();
    let ghost start = cur;
    let ghost mut parent: Map<(i32, i32), (i32, i32)> = Map::empty();
    let ghost mut depth: Map<(i32, i32), nat> = Map::empty().insert(start, 0nat);
    let ghost mut done: Set<(i32, i32)> = Set::empty().insert(start);
    let ghost mut count: nat = 1;
    proof {
        lemma_walk_start(hgrid.cells(), rows as int, cols as int, start);
        crate::maze::lemma_coords_set_len(rows as int, cols as int);
    }
    let mut steps: u64 = 0;
    while unvisited > 0 && steps < max_steps
        invariant
            hgrid.wf(),
            hgrid.rows == rows,
            hgrid.columns == cols,
            hgrid.distances == old(hgrid).distances,
            rows >= 1,
            cols >= 1,
            area == rows * cols,
            coords_set(rows as int, cols as int).len() == area,
            coords_set(rows as int, cols as int).finite(),
            wired(hgrid.cells(), rows as int, cols as int),
            walk_state(hgrid.cells(), rows as int, cols as int, start, parent, depth, done, cur, count),
            done.len() + unvisited == area,
            in_bounds(rows as int, cols as int, cur),
            steps > 0 ==> unvisited + 2 <= area,
            steps == 0 ==> unvisited + 1 == area,
            steps <= max_steps,
        decreases max_steps - steps,
    {
        let ghost g0 = hgrid.cells();
        proof {
            lemma_walk_facts(g0, rows as int, cols as int, start, parent, depth, done, cur, count);
            lemma_some_neighbor(g0, rows as int, cols as int, cur);
        }
        let cell = hgrid.get_item(cur).unwrap();
        let neighbor = cell.random_neighbor(rng).unwrap();
        proof {
            lemma_wired_neighbors(g0, rows as int, cols as int, cur, neighbor);
        }
        proof {
            assert(adjacent(cur, neighbor));
            assert(adjacent(neighbor, cur)) by {
                assert(crate::cell::direction_between(cur, neighbor) is Some);
            }
            if steps == 0 {
                lemma_walk_first_step(g0, rows as int, cols as int, start, parent, depth, done, cur, count, neighbor);
            }
        }
        if walk_step(hgrid, cur, neighbor) {
            proof {
                lemma_walk_carve(g0, hgrid.cells(), rows as int, cols as int, start, parent, depth, done, cur, count, neighbor);
                lemma_passage_keeps_wired(g0, hgrid.cells(), rows as int, cols as int, neighbor, cur);
                parent = parent.insert(neighbor, cur);
                depth = depth.insert(neighbor, count);
                done = done.insert(neighbor);
                count = count + 1;
            }
            unvisited = unvisited - 1;
        } else {
            proof {
                lemma_walk_move(g0, rows as int, cols as int, start, parent, depth, done, cur, count, neighbor);
            }
        }
        cur = neighbor;
        steps = steps + 1;
    }
    let ghost g = hgrid.cells();
    proof {
        lemma_walk_facts(g, rows as int, cols as int, start, parent, depth, done, cur, count);
        reveal(walk_state);
        lemma_tree_symmetric(g, rows as int, cols as int, start, parent, depth, done);
        assert forall|p: (i32, i32), q: (i32, i32)|
            in_bounds(rows as int, cols as int, p) && #[trigger] linked(g, p, q) implies cell_of(g, p).neighbor_set().contains(q) by {
            lemma_wired_neighbors(g, rows as int, cols as int, p, q);
        }
        assert(done.subset_of(coords_set(rows as int, cols as int)));
        if max_steps >= 1 && area >= 2 {
            assert(steps > 0);
            lemma_walk_carved(g, rows as int, cols as int, start, parent, depth, done, cur, count);
        }
        if unvisited == 0 {
            vstd::set_lib::lemma_subset_equality(done, coords_set(rows as int, cols as int));
            lemma_tree_is_maze(g, rows as int, cols as int, start, parent, depth);
        } else {
            assert(!coords_set(rows as int, cols as int).subset_of(done)) by {
                if coords_set(rows as int, cols as int).subset_of(done) {
                    vstd::set_lib::lemma_len_subset(coords_set(rows as int, cols as int), done);
                }
            }
            let p = choose|p: (i32, i32)| coords_set(rows as int, cols as int).contains(p) && !done.contains(p);
            assert(in_bounds(rows as int, cols as int, p) && cell_of(g, p).link_set().is_empty());
        }
    }
    unvisited == 0
}

} // verus!
