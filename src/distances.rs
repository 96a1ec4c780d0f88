//! Breadth-first distances from a root cell over the passages of a grid,
//! and the reconstruction of a shortest path back to the root.

use crate::cell::Cell;
use crate::grid::Grid;
use crate::hash_grid::HashGrid;
use crate::maze::{cells_view, in_bounds, lemma_distinct_coords_bounded, linked, links_symmetric, shaped};
use crate::store::lookup;
use vstd::prelude::*;

verus! {

/// Entries of a distance table: a coordinate and its distance.
pub type Entries = Seq<((i32, i32), u32)>;

/// Whether no coordinate appears twice among `s`'s entries.
pub open spec fn keys_unique(s: Entries) -> bool {
    forall|i: int, j: int| 0 <= i < j < s.len() ==> (#[trigger] s[i]).0 != (#[trigger] s[j]).0
}

/// Whether some entry of `s` is for `k`.
pub open spec fn has_key(s: Entries, k: (i32, i32)) -> bool {
    exists|i: int| 0 <= i < s.len() && (#[trigger] s[i]).0 == k
}

/// The table `s` as a map from coordinate to distance.
#[verifier::opaque]
pub open spec fn map_of(s: Entries) -> Map<(i32, i32), u32> {
    Map::new(
        |k: (i32, i32)| has_key(s, k),
        |k: (i32, i32)| s[choose|i: int| 0 <= i < s.len() && (#[trigger] s[i]).0 == k].1,
    )
}

/// The coordinates of `s`'s entries, in order.
pub open spec fn keys_of(s: Entries) -> Seq<(i32, i32)> {
    s.map_values(|e: ((i32, i32), u32)| e.0)
}

/// The empty table is the empty map.
pub proof fn lemma_map_of_empty(s: Entries)
    requires
        s.len() == 0,
    ensures
        map_of(s) == Map::<(i32, i32), u32>::empty(),
{
    reveal(map_of);
    assert(map_of(s) =~= Map::empty());
}

/// The map holds a key exactly when some entry is for it.
pub proof fn lemma_map_of_contains(s: Entries, k: (i32, i32))
    ensures
        map_of(s).contains_key(k) == has_key(s, k),
{
    reveal(map_of);
}

/// Each entry of a table with unique keys is what the map holds.
pub proof fn lemma_map_of_index(s: Entries, i: int)
    requires
        keys_unique(s),
        0 <= i < s.len(),
    ensures
        map_of(s).contains_key(s[i].0),
        map_of(s)[s[i].0] == s[i].1,
{
    reveal(map_of);
    let k = s[i].0;
    assert(has_key(s, k));
    let j = choose|j: int| 0 <= j < s.len() && (#[trigger] s[j]).0 == k;
    if j != i {
        if j < i {
            assert(s[j].0 != s[i].0);
        } else {
            assert(s[i].0 != s[j].0);
        }
    }
}

/// Appending an entry for a new key adds that key to the map.
pub proof fn lemma_map_of_push(s: Entries, k: (i32, i32), v: u32)
    requires
        keys_unique(s),
        !map_of(s).contains_key(k),
    ensures
        keys_unique(s.push((k, v))),
        map_of(s.push((k, v))) == map_of(s).insert(k, v),
{
    reveal(map_of);
    let t = s.push((k, v));
    assert forall|i: int, j: int| 0 <= i < j < t.len() implies (#[trigger] t[i]).0 != (
    #[trigger] t[j]).0 by {
        if j == s.len() {
            assert(s[i] == t[i]);
            if t[i].0 == k {
                assert(has_key(s, k));
            }
        } else {
            assert(s[i] == t[i] && s[j] == t[j]);
        }
    }
    assert forall|q: (i32, i32)| #[trigger] map_of(t).contains_key(q) <==> map_of(s).insert(
        k,
        v,
    ).contains_key(q) by {
        if has_key(s, q) {
            let i = choose|i: int| 0 <= i < s.len() && (#[trigger] s[i]).0 == q;
            assert(t[i] == s[i]);
        }
        if has_key(t, q) && q != k {
            let i = choose|i: int| 0 <= i < t.len() && (#[trigger] t[i]).0 == q;
            assert(t[i] == s[i]);
        }
        if q == k {
            assert(t[s.len() as int].0 == k);
        }
    }
    assert forall|q: (i32, i32)| #[trigger] map_of(t).contains_key(q) implies map_of(t)[q] == map_of(
        s,
    ).insert(k, v)[q] by {
        let i = choose|i: int| 0 <= i < t.len() && (#[trigger] t[i]).0 == q;
        lemma_map_of_index(t, i);
        if i < s.len() {
            assert(t[i] == s[i]);
            lemma_map_of_index(s, i);
        }
    }
    assert(map_of(t) =~= map_of(s).insert(k, v));
}

/// A table with unique keys holds as many keys as entries.
pub proof fn lemma_keys_of_distinct(s: Entries)
    requires
        keys_unique(s),
    ensures
        keys_of(s).no_duplicates(),
        keys_of(s).len() == s.len(),
        forall|i: int| 0 <= i < s.len() ==> #[trigger] keys_of(s)[i] == s[i].0,
{
}

/// The distance recorded for `k` in `entries`, if any.
fn find(entries: &Vec<((i32, i32), u32)>, k: (i32, i32)) -> (r: Option<u32>)
    requires
        keys_unique(entries@),
    ensures
        r is Some <==> map_of(entries@).contains_key(k),
        r is Some ==> r->Some_0 == map_of(entries@)[k],
{
    let mut i: usize = 0;
    while i < entries.len()
        invariant
            i <= entries@.len(),
            keys_unique(entries@),
            forall|j: int| 0 <= j < i ==> (#[trigger] entries@[j]).0 != k,
        decreases entries@.len() - i,
    {
        let e = entries[i];
        if e.0.0 == k.0 && e.0.1 == k.1 {
            proof {
                lemma_map_of_index(entries@, i as int);
            }
            return Some(e.1);
        }
        i = i + 1;
    }
    proof {
        lemma_map_of_contains(entries@, k);
    }
    None
}

/// Whether `m` holds exactly the breadth-first distances from `start` over
/// the links of `g`: the root is at zero; every other cell is one further
/// than some cell linking to it; and every cell that a recorded cell links
/// to is recorded, at most one further.
pub open spec fn is_bfs_map(
    g: Seq<Seq<crate::cell::CellView>>,
    rows: int,
    cols: int,
    start: (i32, i32),
    m: Map<(i32, i32), u32>,
) -> bool {
    &&& m.contains_key(start)
    &&& m[start] == 0
    &&& forall|k: (i32, i32)| #[trigger] m.contains_key(k) ==> in_bounds(rows, cols, k)
    &&& forall|k: (i32, i32)|
        #[trigger] m.contains_key(k) && k != start ==> exists|n: (i32, i32)|
            #[trigger] linked(g, n, k) && m.contains_key(n) && m[n] + 1 == m[k]
    &&& forall|n: (i32, i32), k: (i32, i32)|
        m.contains_key(n) && #[trigger] linked(g, n, k) ==> m.contains_key(k) && m[k] <= m[n] + 1
}

/// Whether every link of a cell of the grid lands in the grid.
pub open spec fn links_inside(g: Seq<Seq<crate::cell::CellView>>, rows: int, cols: int) -> bool {
    forall|p: (i32, i32), q: (i32, i32)|
        in_bounds(rows, cols, p) && #[trigger] linked(g, p, q) ==> in_bounds(rows, cols, q)
}

/// What holds of a partial breadth-first table `dist`: the root is at
/// zero, every recorded cell lies in the grid, and every recorded cell but
/// the root is one further than some recorded cell linking to it.
pub open spec fn bfs_sound(
    g: Seq<Seq<crate::cell::CellView>>,
    rows: int,
    cols: int,
    start: (i32, i32),
    dist: Map<(i32, i32), u32>,
) -> bool {
    &&& dist.contains_key(start)
    &&& dist[start] == 0
    &&& forall|k: (i32, i32)| #[trigger] dist.contains_key(k) ==> in_bounds(rows, cols, k)
    &&& forall|k: (i32, i32)|
        #[trigger] dist.contains_key(k) && k != start ==> exists|n: (i32, i32)|
            #[trigger] linked(g, n, k) && dist.contains_key(n) && dist[n] + 1 == dist[k]
}

/// Recording a linked cell one further than a recorded one keeps the table
/// sound.
proof fn lemma_bfs_insert(
    g: Seq<Seq<crate::cell::CellView>>,
    rows: int,
    cols: int,
    start: (i32, i32),
    dist: Map<(i32, i32), u32>,
    cur: (i32, i32),
    key: (i32, i32),
    next: u32,
)
    requires
        bfs_sound(g, rows, cols, start, dist),
        dist.contains_key(cur),
        dist[cur] + 1 == next,
        linked(g, cur, key),
        !dist.contains_key(key),
        in_bounds(rows, cols, key),
    ensures
        bfs_sound(g, rows, cols, start, dist.insert(key, next)),
{
    let m = dist.insert(key, next);
    assert forall|k: (i32, i32)| #[trigger] m.contains_key(k) && k != start implies exists|n: (i32, i32)|
        #[trigger] linked(g, n, k) && m.contains_key(n) && m[n] + 1 == m[k] by {
        if k == key {
            assert(linked(g, cur, k) && m.contains_key(cur));
        } else {
            let n = choose|n: (i32, i32)|
                #[trigger] linked(g, n, k) && dist.contains_key(n) && dist[n] + 1 == dist[k];
            assert(linked(g, n, k) && m.contains_key(n) && m[n] + 1 == m[k]);
        }
    }
}

/// Gives every cell that `cell` links to and that `entries` does not yet
/// record the distance `next`, adding it to `new_frontier`.
fn visit_links(
    cells: &Vec<Vec<Cell>>,
    rows: i32,
    cols: i32,
    cell: &Cell,
    cur: (i32, i32),
    next: u32,
    entries: &mut Vec<((i32, i32), u32)>,
    new_frontier: &mut Vec<(i32, i32)>,
    Ghost(start): Ghost<(i32, i32)>,
    Ghost(area): Ghost<int>,
)
    requires
        shaped(cells_view(cells@), rows as int, cols as int),
        area == rows * cols,
        links_inside(cells_view(cells@), rows as int, cols as int),
        in_bounds(rows as int, cols as int, cur),
        cell@ == crate::maze::cell_of(cells_view(cells@), cur),
        keys_unique(old(entries)@),
        old(entries)@.len() <= area,
        bfs_sound(cells_view(cells@), rows as int, cols as int, start, map_of(old(entries)@)),
        map_of(old(entries)@).contains_key(cur),
        map_of(old(entries)@)[cur] + 1 == next,
        forall|k: (i32, i32)| #[trigger] map_of(old(entries)@).contains_key(k) ==> map_of(old(entries)@)[k] <= next,
        forall|t: int|
            0 <= t < old(new_frontier)@.len() ==> map_of(old(entries)@).contains_key(#[trigger] old(new_frontier)@[t])
                && map_of(old(entries)@)[old(new_frontier)@[t]] == next,
        forall|k: (i32, i32)|
            #[trigger] map_of(old(entries)@).contains_key(k) && map_of(old(entries)@)[k] == next ==> old(new_frontier)@.contains(k),
    ensures
        keys_unique(final(entries)@),
        final(entries)@.len() <= area,
        final(entries)@.len() - old(entries)@.len() == final(new_frontier)@.len() - old(new_frontier)@.len(),
        bfs_sound(cells_view(cells@), rows as int, cols as int, start, map_of(final(entries)@)),
        forall|k: (i32, i32)| #[trigger] map_of(old(entries)@).contains_key(k) ==> map_of(final(entries)@).contains_key(k)
            && map_of(final(entries)@)[k] == map_of(old(entries)@)[k],
        forall|k: (i32, i32)| #[trigger] map_of(final(entries)@).contains_key(k) && !map_of(old(entries)@).contains_key(k)
            ==> map_of(final(entries)@)[k] == next,
        forall|k: (i32, i32)| #[trigger] map_of(final(entries)@).contains_key(k) ==> map_of(final(entries)@)[k] <= next,
        forall|t: int|
            0 <= t < final(new_frontier)@.len() ==> map_of(final(entries)@).contains_key(#[trigger] final(new_frontier)@[t])
                && map_of(final(entries)@)[final(new_frontier)@[t]] == next,
        forall|k: (i32, i32)|
            #[trigger] map_of(final(entries)@).contains_key(k) && map_of(final(entries)@)[k] == next ==> final(new_frontier)@.contains(k),
        forall|k: (i32, i32)|
            #[trigger] linked(cells_view(cells@), cur, k) ==> map_of(final(entries)@).contains_key(k)
                && map_of(final(entries)@)[k] <= next,
{
    let ghost g = cells_view(cells@);
    let mut j: usize = 0;
    while j < cell.links.len()
        invariant
            g == cells_view(cells@),
            shaped(g, rows as int, cols as int),
            area == rows * cols,
            in_bounds(rows as int, cols as int, cur),
            cell@ == crate::maze::cell_of(g, cur),
            links_inside(g, rows as int, cols as int),
            keys_unique(entries@),
            entries@.len() <= area,
            entries@.len() - old(entries)@.len() == new_frontier@.len() - old(new_frontier)@.len(),
            j <= cell.links@.len(),
            bfs_sound(g, rows as int, cols as int, start, map_of(entries@)),
            map_of(entries@).contains_key(cur),
            map_of(entries@)[cur] + 1 == next,
            forall|k: (i32, i32)| #[trigger] map_of(old(entries)@).contains_key(k) ==> map_of(entries@).contains_key(k)
                && map_of(entries@)[k] == map_of(old(entries)@)[k],
            forall|k: (i32, i32)| #[trigger] map_of(entries@).contains_key(k) && !map_of(old(entries)@).contains_key(k)
                ==> map_of(entries@)[k] == next,
            forall|k: (i32, i32)| #[trigger] map_of(entries@).contains_key(k) ==> map_of(entries@)[k] <= next,
            forall|t: int|
                0 <= t < new_frontier@.len() ==> map_of(entries@).contains_key(#[trigger] new_frontier@[t])
                    && map_of(entries@)[new_frontier@[t]] == next,
            forall|k: (i32, i32)|
                #[trigger] map_of(entries@).contains_key(k) && map_of(entries@)[k] == next ==> new_frontier@.contains(k),
            forall|t: int|
                0 <= t < j ==> map_of(entries@).contains_key(#[trigger] cell.links@[t])
                    && map_of(entries@)[cell.links@[t]] <= next,
        decreases cell.links@.len() - j,
    {
        let key = cell.links[j];
        proof {
            assert(cell@.link_set().contains(key));
            assert(linked(g, cur, key));
        }
        if find(entries, key).is_none() {
            let ghost before = entries@;
            let ghost nf0 = new_frontier@;
            proof {
                lemma_map_of_push(before, key, next);
                lemma_bfs_insert(g, rows as int, cols as int, start, map_of(before), cur, key, next);
            }
            entries.push((key, next));
            new_frontier.push(key);
            proof {
                let dist = map_of(entries@);
                lemma_keys_of_distinct(entries@);
                assert forall|t: int| 0 <= t < keys_of(entries@).len() implies in_bounds(
                    rows as int,
                    cols as int,
                    #[trigger] keys_of(entries@)[t],
                ) by {
                    lemma_map_of_index(entries@, t);
                }
                lemma_distinct_coords_bounded(keys_of(entries@), rows as int, cols as int);
                assert forall|k: (i32, i32)|
                    #[trigger] dist.contains_key(k) && dist[k] == next implies new_frontier@.contains(k) by {
                    if k == key {
                        assert(new_frontier@[nf0.len() as int] == key);
                    } else {
                        assert(map_of(before).contains_key(k));
                        assert(nf0.contains(k));
                        let t = choose|t: int| 0 <= t < nf0.len() && nf0[t] == k;
                        assert(new_frontier@[t] == k);
                    }
                }
            }
        }
        j = j + 1;
    }
    proof {
        assert forall|k: (i32, i32)| #[trigger] linked(g, cur, k) implies map_of(entries@).contains_key(k)
            && map_of(entries@)[k] <= next by {
            assert(cell@.link_set().contains(k));
            let u = choose|u: int| 0 <= u < cell.links@.len() && cell.links@[u] == k;
            assert(cell.links@[u] == k);
        }
    }
}

/// Breadth-first distances from `start` over the links of `cells`, layer
/// by layer: each cell of the frontier gives every linked cell not yet
/// recorded a distance one greater than its own.
fn bfs(cells: &Vec<Vec<Cell>>, rows: i32, cols: i32, start: (i32, i32)) -> (r: Vec<((i32, i32), u32)>)
    requires
        shaped(cells_view(cells@), rows as int, cols as int),
        in_bounds(rows as int, cols as int, start),
        links_inside(cells_view(cells@), rows as int, cols as int),
    ensures
        keys_unique(r@),
        is_bfs_map(cells_view(cells@), rows as int, cols as int, start, map_of(r@)),
{
    let ghost g = cells_view(cells@);
    let ghost area = rows as int * cols as int;
    let mut entries: Vec<((i32, i32), u32)> = Vec::new();
    proof {
        lemma_map_of_empty(entries@);
        lemma_map_of_push(entries@, start, 0);
    }
    entries.push((start, 0));
    let ghost mut dist: Map<(i32, i32), u32> = map![start => 0u32];
    let mut frontier: Vec<(i32, i32)> = Vec::new();
    frontier.push(start);
    let mut d: u32 = 0;
    proof {
        assert(dist =~= Map::<(i32, i32), u32>::empty().insert(start, 0));
        assert(frontier@[0] == start);
        assert(1 <= area) by (nonlinear_arith)
            requires
                0 <= start.0 < rows,
                0 <= start.1 < cols,
                area == rows * cols,
        ;
    }
    while frontier.len() > 0
        invariant
            g == cells_view(cells@),
            shaped(g, rows as int, cols as int),
            area == rows * cols,
            links_inside(g, rows as int, cols as int),
            keys_unique(entries@),
            map_of(entries@) == dist,
            entries@.len() <= area,
            frontier@.len() > 0 ==> entries@.len() >= d + 1,
            bfs_sound(g, rows as int, cols as int, start, dist),
            forall|k: (i32, i32)| #[trigger] dist.contains_key(k) ==> dist[k] <= d,
            forall|j: int|
                0 <= j < frontier@.len() ==> dist.contains_key(#[trigger] frontier@[j])
                    && dist[frontier@[j]] == d,
            forall|k: (i32, i32)| #[trigger] dist.contains_key(k) && dist[k] == d ==> frontier@.contains(k),
            forall|n: (i32, i32), k: (i32, i32)|
                dist.contains_key(n) && dist[n] < d && #[trigger] linked(g, n, k) ==> dist.contains_key(k)
                    && dist[k] <= dist[n] + 1,
        decreases area - entries@.len() + if frontier@.len() > 0 {
            1int
        } else {
            0int
        },
    {
        let ghost len0 = entries@.len();
        let next = d + 1;
        let mut new_frontier: Vec<(i32, i32)> = Vec::new();
        let mut i: usize = 0;
        while i < frontier.len()
            invariant
                g == cells_view(cells@),
                shaped(g, rows as int, cols as int),
                area == rows * cols,
                links_inside(g, rows as int, cols as int),
                keys_unique(entries@),
                map_of(entries@) == dist,
                next == d + 1,
                len0 >= d + 1,
                entries@.len() == len0 + new_frontier@.len(),
                entries@.len() <= area,
                i <= frontier@.len(),
                bfs_sound(g, rows as int, cols as int, start, dist),
                forall|k: (i32, i32)| #[trigger] dist.contains_key(k) ==> dist[k] <= next,
                forall|j: int|
                    0 <= j < frontier@.len() ==> dist.contains_key(#[trigger] frontier@[j])
                        && dist[frontier@[j]] == d,
                forall|k: (i32, i32)|
                    #[trigger] dist.contains_key(k) && dist[k] == d ==> frontier@.contains(k),
                forall|j: int|
                    0 <= j < new_frontier@.len() ==> dist.contains_key(#[trigger] new_frontier@[j])
                        && dist[new_frontier@[j]] == next,
                forall|k: (i32, i32)|
                    #[trigger] dist.contains_key(k) && dist[k] == next ==> new_frontier@.contains(k),
                forall|n: (i32, i32), k: (i32, i32)|
                    dist.contains_key(n) && dist[n] < d && #[trigger] linked(g, n, k)
                        ==> dist.contains_key(k) && dist[k] <= dist[n] + 1,
                forall|j: int, k: (i32, i32)|
                    0 <= j < i && #[trigger] linked(g, frontier@[j], k) ==> dist.contains_key(k)
                        && dist[k] <= next,
            decreases frontier@.len() - i,
        {
            let cur = frontier[i];
            let cell = lookup(cells, rows, cols, cur).unwrap();
            let ghost before = dist;
            visit_links(cells, rows, cols, cell, cur, next, &mut entries, &mut new_frontier, Ghost(start), Ghost(area));
            proof {
                dist = map_of(entries@);
                assert forall|k: (i32, i32)|
                    #[trigger] dist.contains_key(k) && dist[k] == d implies frontier@.contains(k) by {
                    assert(before.contains_key(k));
                }
                assert forall|j: int|
                    0 <= j < frontier@.len() implies dist.contains_key(#[trigger] frontier@[j])
                        && dist[frontier@[j]] == d by {
                    assert(before.contains_key(frontier@[j]));
                }
                assert forall|n: (i32, i32), k: (i32, i32)|
                    dist.contains_key(n) && dist[n] < d && #[trigger] linked(g, n, k)
                        implies dist.contains_key(k) && dist[k] <= dist[n] + 1 by {
                    assert(before.contains_key(n));
                }
            }
            proof {
                assert forall|t: int, k: (i32, i32)|
                    0 <= t < i + 1 && #[trigger] linked(g, frontier@[t], k) implies dist.contains_key(k)
                    && dist[k] <= next by {
                    if t < i {
                        assert(before.contains_key(k));
                    }
                }
            }
            i = i + 1;
        }
        proof {
            assert forall|n: (i32, i32), k: (i32, i32)|
                dist.contains_key(n) && dist[n] < next && #[trigger] linked(g, n, k) implies dist.contains_key(k)
                && dist[k] <= dist[n] + 1 by {
                if dist[n] == d {
                    assert(frontier@.contains(n));
                    let t = choose|t: int| 0 <= t < frontier@.len() && frontier@[t] == n;
                    assert(linked(g, frontier@[t], k));
                }
            }
        }
        frontier = new_frontier;
        d = next;
    }
    proof {
        assert forall|n: (i32, i32), k: (i32, i32)|
            dist.contains_key(n) && #[trigger] linked(g, n, k) implies dist.contains_key(k) && dist[k]
            <= dist[n] + 1 by {
            if dist[n] == d {
                assert(frontier@.contains(n));
            }
        }
    }
    entries
}

/// Distances from a root cell, one per reached coordinate.
#[derive(Debug, PartialEq, Eq)]
pub struct DistanceMap {
    root: (i32, i32),
    map: Vec<((i32, i32), u32)>,
}

impl DistanceMap {
    /// The coordinate distances are measured from.
    pub closed spec fn root(&self) -> (i32, i32) {
        self.root
    }

    /// The recorded distance of each reached coordinate.
    pub closed spec fn distances(&self) -> Map<(i32, i32), u32> {
        map_of(self.map@)
    }

    /// Whether each coordinate is recorded at most once.
    pub closed spec fn wf(&self) -> bool {
        keys_unique(self.map@)
    }

    /// A map rooted at `root` holding the entries of `map`.
    pub fn new(root: (i32, i32), map: Vec<((i32, i32), u32)>) -> (r: DistanceMap)
        requires
            keys_unique(map@),
        ensures
            r.wf(),
            r.root() == root,
            r.distances() == map_of(map@),
    {
        DistanceMap { root, map }
    }

    /// The coordinate distances are measured from.
    pub fn root_coords(&self) -> (r: (i32, i32))
        ensures
            r == self.root(),
    {
        self.root
    }

    /// The recorded distance of `k`, or `None` when `k` was not reached.
    pub fn get(&self, k: (i32, i32)) -> (r: Option<u32>)
        requires
            self.wf(),
        ensures
            r is Some <==> self.distances().contains_key(k),
            r is Some ==> r->Some_0 == self.distances()[k],
    {
        find(&self.map, k)
    }

    /// The recorded entries, each coordinate once.
    pub fn entries(&self) -> (r: &Vec<((i32, i32), u32)>)
        requires
            self.wf(),
        ensures
            keys_unique(r@),
            map_of(r@) == self.distances(),
    {
        &self.map
    }

    /// Breadth-first distances from `start` over the passages of `hgrid`.
    pub fn from_hashgrid(start: (i32, i32), hgrid: &HashGrid) -> (r: DistanceMap)
        requires
            hgrid.wf(),
            in_bounds(hgrid.rows as int, hgrid.columns as int, start),
            links_inside(hgrid.cells(), hgrid.rows as int, hgrid.columns as int),
        ensures
            r.wf(),
            r.root() == start,
            is_bfs_map(hgrid.cells(), hgrid.rows as int, hgrid.columns as int, start, r.distances()),
    {
        let map = bfs(&hgrid.grid, hgrid.rows, hgrid.columns, start);
        DistanceMap { root: start, map }
    }

    /// The shortest path from `goal` back to the root, over passages that
    /// are recorded on both cells, when this map holds the breadth-first
    /// distances over `hgrid`: each entry is a cell and its distance, from
    /// `goal` down to the root at zero.
    pub fn path_to(&self, goal: (i32, i32), hgrid: &HashGrid) -> (r: Vec<((i32, i32), u32)>)
        requires
            self.wf(),
            hgrid.wf(),
            links_symmetric(hgrid.cells(), hgrid.rows as int, hgrid.columns as int),
            is_bfs_map(hgrid.cells(), hgrid.rows as int, hgrid.columns as int, self.root(), self.distances()),
            self.distances().contains_key(goal),
        ensures
            is_path_back(hgrid.cells(), self.root(), self.distances(), goal, r@),
    {
        walk_back(&hgrid.grid, hgrid.rows, hgrid.columns, self, goal)
    }

    /// Whether `k` has a recorded distance.
    pub fn has_entry(&self, k: (i32, i32)) -> (r: bool)
        requires
            self.wf(),
        ensures
            r == self.distances().contains_key(k),
    {
        self.get(k).is_some()
    }

    /// Breadth-first distances from `start` over the passages of `grid`.
    pub fn from_grid(start: (i32, i32), grid: &Grid) -> (r: DistanceMap)
        requires
            grid.wf(),
            in_bounds(grid.rows as int, grid.columns as int, start),
            links_inside(grid.cells(), grid.rows as int, grid.columns as int),
        ensures
            r.wf(),
            r.root() == start,
            is_bfs_map(grid.cells(), grid.rows as int, grid.columns as int, start, r.distances()),
    {
        let map = bfs(&grid.grid, grid.rows, grid.columns, start);
        DistanceMap { root: start, map }
    }
}

/// The path from `goal` back to the root of `dist`, a table of breadth-first
/// distances over links that are matched both ways: from each cell the
/// walk moves to the first linked cell with a smaller recorded distance.
fn walk_back(
    cells: &Vec<Vec<Cell>>,
    rows: i32,
    cols: i32,
    dist: &DistanceMap,
    goal: (i32, i32),
) -> (r: Vec<((i32, i32), u32)>)
    requires
        dist.wf(),
        shaped(cells_view(cells@), rows as int, cols as int),
        links_symmetric(cells_view(cells@), rows as int, cols as int),
        is_bfs_map(cells_view(cells@), rows as int, cols as int, dist.root(), dist.distances()),
        dist.distances().contains_key(goal),
    ensures
        is_path_back(cells_view(cells@), dist.root(), dist.distances(), goal, r@),
{
    let ghost g = cells_view(cells@);
    let ghost m = dist.distances();
    let mut path: Vec<((i32, i32), u32)> = Vec::new();
    let mut current = goal;
    let mut dc = dist.get(goal).unwrap();
    path.push((goal, dc));
    while dc > 0
        invariant
            g == cells_view(cells@),
            m == dist.distances(),
            dist.wf(),
            shaped(g, rows as int, cols as int),
            links_symmetric(g, rows as int, cols as int),
            is_bfs_map(g, rows as int, cols as int, dist.root(), m),
            m.contains_key(goal),
            m.contains_key(current),
            m[current] == dc,
            path@.len() + dc == m[goal] + 1,
            path@.len() >= 1,
            path@[0].0 == goal,
            path@[path@.len() - 1] == (current, dc),
            forall|i: int| 0 <= i < path@.len() ==> #[trigger] path@[i].1 == m[goal] - i,
            forall|i: int| 0 <= i < path@.len() ==> m.contains_key(#[trigger] path@[i].0) && m[path@[i].0] == path@[i].1,
            forall|i: int| 0 <= i < path@.len() - 1 ==> linked(g, #[trigger] path@[i].0, path@[i + 1].0),
        decreases dc,
    {
        proof {
            assert(current != dist.root());
        }
        let ghost n = choose|n: (i32, i32)| #[trigger] linked(g, n, current) && m.contains_key(n) && m[n] + 1 == m[current];
        let cell = lookup(cells, rows, cols, current).unwrap();
        let mut j: usize = 0;
        let mut found: Option<(i32, i32)> = None;
        while j < cell.links.len()
            invariant
                g == cells_view(cells@),
                m == dist.distances(),
                dist.wf(),
                shaped(g, rows as int, cols as int),
                links_symmetric(g, rows as int, cols as int),
                is_bfs_map(g, rows as int, cols as int, dist.root(), m),
                m.contains_key(current),
                m[current] == dc,
                dc > 0,
                cell@ == crate::maze::cell_of(g, current),
                in_bounds(rows as int, cols as int, current),
                j <= cell.links@.len(),
                found is None ==> forall|t: int| 0 <= t < j ==> !(m.contains_key(#[trigger] cell.links@[t]) && m[cell.links@[t]] < dc),
                found is Some ==> linked(g, current, found->Some_0) && m.contains_key(found->Some_0) && m[found->Some_0] + 1 == dc,
            decreases cell.links@.len() - j,
        {
            if found.is_none() {
                let key = cell.links[j];
                proof {
                    assert(cell@.link_set().contains(key));
                    assert(linked(g, current, key));
                }
                match dist.get(key) {
                    Some(v) => {
                        if v < dc {
                            proof {
                                assert(linked(g, key, current));
                            }
                            found = Some(key);
                        }
                    },
                    None => {},
                }
            }
            j = j + 1;
        }
        proof {
            if found is None {
                assert(linked(g, current, n));
                assert(cell@.link_set().contains(n));
                let u = choose|u: int| 0 <= u < cell.links@.len() && cell.links@[u] == n;
                assert(cell.links@[u] == n);
            }
        }
        let nb = found.unwrap();
        let ghost prev = path@;
        current = nb;
        dc = dc - 1;
        path.push((current, dc));
        proof {
            assert forall|i: int| 0 <= i < path@.len() - 1 implies linked(g, #[trigger] path@[i].0, path@[i + 1].0) by {
                if i < prev.len() - 1 {
                    assert(path@[i] == prev[i] && path@[i + 1] == prev[i + 1]);
                }
            }
        }
    }
    proof {
        if current != dist.root() {
            let n = choose|n: (i32, i32)| #[trigger] linked(g, n, current) && m.contains_key(n) && m[n] + 1 == m[current];
        }
    }
    path
}

/// Whether `path` leads from `goal` back to `root` one recorded step at a
/// time: it starts at `goal`, ends at `root`, holds `m[goal] + 1` cells,
/// the `i`-th of them at recorded distance `m[goal] - i`, and each cell
/// links to the next.
pub open spec fn is_path_back(
    g: Seq<Seq<crate::cell::CellView>>,
    root: (i32, i32),
    m: Map<(i32, i32), u32>,
    goal: (i32, i32),
    path: Entries,
) -> bool {
    &&& path.len() == m[goal] + 1
    &&& path[0].0 == goal
    &&& path[path.len() - 1].0 == root
    &&& forall|i: int| 0 <= i < path.len() ==> #[trigger] path[i].1 == m[goal] - i
    &&& forall|i: int| 0 <= i < path.len() ==> m.contains_key(#[trigger] path[i].0) && m[path[i].0] == path[i].1
    &&& forall|i: int| 0 <= i < path.len() - 1 ==> linked(g, #[trigger] path[i].0, path[i + 1].0)
}

/// The cells of a path back hold distinct coordinates.
pub proof fn lemma_path_keys_unique(
    g: Seq<Seq<crate::cell::CellView>>,
    root: (i32, i32),
    m: Map<(i32, i32), u32>,
    goal: (i32, i32),
    path: Entries,
)
    requires
        is_path_back(g, root, m, goal, path),
    ensures
        keys_unique(path),
{
    assert forall|i: int, j: int| 0 <= i < j < path.len() implies (#[trigger] path[i]).0 != (
    #[trigger] path[j]).0 by {
        assert(path[i].1 == m[goal] - i);
        assert(path[j].1 == m[goal] - j);
    }
}

} // verus!