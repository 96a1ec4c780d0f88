//! A single grid position: its coordinate, its four optional neighbor
//! coordinates, and the set of coordinates it has an open passage to.

use crate::random::RandomSource;
use vstd::prelude::*;

verus! {

/// One of the four axis directions on the grid. Rows grow downward and
/// columns grow rightward.
#[derive(PartialEq, Eq, Structural, Clone, Copy, Debug, Hash)]
pub enum Direction {
    North,
    East,
    South,
    West,
}

/// The coordinate one step from `p` in direction `way`, as mathematical integers.
pub open spec fn step(p: (i32, i32), way: Direction) -> (int, int) {
    match way {
        Direction::North => (p.0 - 1, p.1 as int),
        Direction::East => (p.0 as int, p.1 + 1),
        Direction::South => (p.0 + 1, p.1 as int),
        Direction::West => (p.0 as int, p.1 - 1),
    }
}

/// Whether `q` is the coordinate one step from `p` in direction `way`.
pub open spec fn is_step(p: (i32, i32), way: Direction, q: (i32, i32)) -> bool {
    q.0 as int == step(p, way).0 && q.1 as int == step(p, way).1
}

/// The direction in which `to` lies from `from`, when it is exactly one
/// axis step away.
pub open spec fn direction_between(from: (i32, i32), to: (i32, i32)) -> Option<Direction> {
    if is_step(from, Direction::North, to) {
        Some(Direction::North)
    } else if is_step(from, Direction::South, to) {
        Some(Direction::South)
    } else if is_step(from, Direction::West, to) {
        Some(Direction::West)
    } else if is_step(from, Direction::East, to) {
        Some(Direction::East)
    } else {
        None
    }
}

/// The coordinate one step from `current` in direction `way`.
pub fn next_cell(current: (i32, i32), way: Direction) -> (r: (i32, i32))
    requires
        i32::MIN < current.0 < i32::MAX,
        i32::MIN < current.1 < i32::MAX,
    ensures
        is_step(current, way, r),
{
    let (row, col) = current;
    match way {
        Direction::North => (row - 1, col),
        Direction::East => (row, col + 1),
        Direction::South => (row + 1, col),
        Direction::West => (row, col - 1),
    }
}

/// The one-element sequence holding `o`'s value, or the empty sequence.
pub open spec fn option_seq<T>(o: Option<T>) -> Seq<T> {
    match o {
        Some(x) => seq![x],
        None => Seq::empty(),
    }
}

/// An element of a concatenation comes from one of its two parts.
pub proof fn lemma_concat_contains<T>(x: Seq<T>, y: Seq<T>, q: T)
    ensures
        (x + y).contains(q) <==> x.contains(q) || y.contains(q),
{
    if (x + y).contains(q) {
        let i = choose|i: int| 0 <= i < (x + y).len() && (x + y)[i] == q;
        if i < x.len() {
            assert(x[i] == q);
        } else {
            assert(y[i - x.len()] == q);
        }
    }
    if x.contains(q) {
        let i = choose|i: int| 0 <= i < x.len() && x[i] == q;
        assert((x + y)[i] == q);
    }
    if y.contains(q) {
        let i = choose|i: int| 0 <= i < y.len() && y[i] == q;
        assert((x + y)[x.len() + i] == q);
    }
}

/// `option_seq(o)` holds `q` exactly when `o` is `Some(q)`.
pub proof fn lemma_option_seq_contains<T>(o: Option<T>, q: T)
    ensures
        option_seq(o).contains(q) <==> o == Some(q),
{
    if o == Some(q) {
        assert(option_seq(o)[0] == q);
    }
}

/// The steps from `p` in the order North, East, South, West whose
/// coordinates are both non-negative, each with its direction.
pub open spec fn non_negative_steps(p: (i32, i32)) -> Seq<(Direction, (i32, i32))> {
    let north = (Direction::North, ((p.0 - 1) as i32, p.1));
    let east = (Direction::East, (p.0, (p.1 + 1) as i32));
    let south = (Direction::South, ((p.0 + 1) as i32, p.1));
    let west = (Direction::West, (p.0, (p.1 - 1) as i32));
    option_seq(if p.0 - 1 >= 0 && p.1 >= 0 { Some(north) } else { None })
        + option_seq(if p.0 >= 0 && p.1 + 1 >= 0 { Some(east) } else { None })
        + option_seq(if p.0 + 1 >= 0 && p.1 >= 0 { Some(south) } else { None })
        + option_seq(if p.0 >= 0 && p.1 - 1 >= 0 { Some(west) } else { None })
}

/// The four axis steps from `coords`, in the order North, East, South,
/// West, keeping those whose coordinates are both non-negative.
pub fn neighbor_cells(coords: (i32, i32)) -> (r: Vec<(Direction, (i32, i32))>)
    requires
        i32::MIN < coords.0 < i32::MAX,
        i32::MIN < coords.1 < i32::MAX,
    ensures
        r@ == non_negative_steps(coords),
{
    let mut answers: Vec<(Direction, (i32, i32))> = Vec::new();
    let (row, col) = coords;
    let north = (row - 1, col);
    if north.0 >= 0 && north.1 >= 0 {
        answers.push((Direction::North, north));
    }
    let east = (row, col + 1);
    if east.0 >= 0 && east.1 >= 0 {
        answers.push((Direction::East, east));
    }
    let south = (row + 1, col);
    if south.0 >= 0 && south.1 >= 0 {
        answers.push((Direction::South, south));
    }
    let west = (row, col - 1);
    if west.0 >= 0 && west.1 >= 0 {
        answers.push((Direction::West, west));
    }
    assert(answers@ =~= non_negative_steps(coords));
    answers
}

/// One grid position. `links` holds the coordinates this cell has an open
/// passage to; the four neighbor fields hold the coordinates of the cells
/// beside it, where there are any.
#[derive(Debug, Clone, PartialEq, Eq)]
pub struct Cell {
    pub row: i32,
    pub column: i32,
    pub links: Vec<(i32, i32)>,
    pub north: Option<(i32, i32)>,
    pub south: Option<(i32, i32)>,
    pub east: Option<(i32, i32)>,
    pub west: Option<(i32, i32)>,
}

/// The mathematical value of a [`Cell`].
pub struct CellView {
    pub row: i32,
    pub column: i32,
    pub links: Seq<(i32, i32)>,
    pub north: Option<(i32, i32)>,
    pub south: Option<(i32, i32)>,
    pub east: Option<(i32, i32)>,
    pub west: Option<(i32, i32)>,
}

impl View for Cell {
    type V = CellView;

    open spec fn view(&self) -> CellView {
        CellView {
            row: self.row,
            column: self.column,
            links: self.links@,
            north: self.north,
            south: self.south,
            east: self.east,
            west: self.west,
        }
    }
}

impl CellView {
    /// The coordinate of this cell.
    pub open spec fn at(self) -> (i32, i32) {
        (self.row, self.column)
    }

    /// The coordinates this cell has a passage to.
    pub open spec fn link_set(self) -> Set<(i32, i32)> {
        self.links.to_set()
    }

    /// The neighbor recorded in direction `way`.
    pub open spec fn neighbor_in(self, way: Direction) -> Option<(i32, i32)> {
        match way {
            Direction::North => self.north,
            Direction::East => self.east,
            Direction::South => self.south,
            Direction::West => self.west,
        }
    }

    /// The recorded neighbors in the order North, East, South, West.
    pub open spec fn neighbor_seq(self) -> Seq<(i32, i32)> {
        option_seq(self.north) + option_seq(self.east) + option_seq(self.south) + option_seq(
            self.west,
        )
    }

    /// The recorded neighbors as a set.
    pub open spec fn neighbor_set(self) -> Set<(i32, i32)> {
        self.neighbor_seq().to_set()
    }

    /// A coordinate is a recorded neighbor exactly when one of the four
    /// fields holds it.
    pub proof fn lemma_neighbor_set(self, q: (i32, i32))
        ensures
            self.neighbor_set().contains(q) <==> self.north == Some(q) || self.east == Some(q)
                || self.south == Some(q) || self.west == Some(q),
    {
        let a = option_seq(self.north);
        let b = option_seq(self.east);
        let c = option_seq(self.south);
        let d = option_seq(self.west);
        lemma_concat_contains(a + b + c, d, q);
        lemma_concat_contains(a + b, c, q);
        lemma_concat_contains(a, b, q);
        lemma_option_seq_contains(self.north, q);
        lemma_option_seq_contains(self.east, q);
        lemma_option_seq_contains(self.south, q);
        lemma_option_seq_contains(self.west, q);
    }

    /// Whether `other` holds the same coordinate and the same neighbors.
    pub open spec fn same_place(self, other: CellView) -> bool {
        &&& self.row == other.row
        &&& self.column == other.column
        &&& self.north == other.north
        &&& self.south == other.south
        &&& self.east == other.east
        &&& self.west == other.west
    }

    /// Whether each recorded neighbor lies one step away in its own
    /// direction.
    pub open spec fn neighbors_geometric(self) -> bool {
        &&& self.north matches Some(n) ==> is_step(self.at(), Direction::North, n)
        &&& self.east matches Some(n) ==> is_step(self.at(), Direction::East, n)
        &&& self.south matches Some(n) ==> is_step(self.at(), Direction::South, n)
        &&& self.west matches Some(n) ==> is_step(self.at(), Direction::West, n)
    }

    /// Whether every link goes to a recorded neighbor.
    pub open spec fn links_to_neighbors(self) -> bool {
        self.link_set().subset_of(self.neighbor_set())
    }

    /// Whether `way` has a recorded neighbor and this cell links to it.
    pub open spec fn has_link_toward(self, way: Direction) -> bool {
        match self.neighbor_in(way) {
            Some(n) => self.link_set().contains(n),
            None => false,
        }
    }
}

impl Cell {
    /// A cell at (`row`, `column`) with no links and no neighbors.
    pub fn new(row: i32, column: i32) -> (r: Cell)
        ensures
            r@.row == row,
            r@.column == column,
            r@.links.len() == 0,
            r@.north is None,
            r@.south is None,
            r@.east is None,
            r@.west is None,
    {
        Cell {
            row,
            column,
            links: Vec::new(),
            north: None,
            south: None,
            east: None,
            west: None,
        }
    }

    /// A field-by-field copy of this cell.
    pub fn copy(&self) -> (r: Cell)
        ensures
            r@ == self@,
    {
        let mut links: Vec<(i32, i32)> = Vec::new();
        let mut i: usize = 0;
        while i < self.links.len()
            invariant
                i <= self.links@.len(),
                links@ == self.links@.subrange(0, i as int),
            decreases self.links@.len() - i,
        {
            links.push(self.links[i]);
            i = i + 1;
        }
        assert(links@ =~= self.links@);
        Cell {
            row: self.row,
            column: self.column,
            links,
            north: self.north,
            south: self.south,
            east: self.east,
            west: self.west,
        }
    }

    /// The coordinate of this cell.
    pub fn coords(&self) -> (r: (i32, i32))
        ensures
            r == self@.at(),
    {
        (self.row, self.column)
    }

    /// Whether `other` is among this cell's links.
    pub fn is_linked_to(&self, other: (i32, i32)) -> (r: bool)
        ensures
            r == self@.link_set().contains(other),
    {
        let mut i: usize = 0;
        while i < self.links.len()
            invariant
                i <= self.links@.len(),
                forall|j: int| 0 <= j < i ==> self.links@[j] != other,
            decreases self.links@.len() - i,
        {
            let l = self.links[i];
            if l.0 == other.0 && l.1 == other.1 {
                assert(self.links@.contains(other));
                return true;
            }
            i = i + 1;
        }
        false
    }

    /// Records a one-directional passage from this cell to `other`. The
    /// caller links the reverse direction on the other cell.
    pub fn link(&mut self, other: (i32, i32))
        ensures
            final(self)@.link_set() == old(self)@.link_set().insert(other),
            final(self)@.same_place(old(self)@),
            old(self)@.links.no_duplicates() ==> final(self)@.links.no_duplicates(),
    {
        if !self.is_linked_to(other) {
            self.links.push(other);
            proof {
                old(self).links@.lemma_push_to_set_commute(other);
                if old(self).links@.no_duplicates() {
                    assert forall|i: int, j: int|
                        0 <= i < self.links@.len() && 0 <= j < self.links@.len() && i != j implies self.links@[i]
                        != self.links@[j] by {
                        if i == old(self).links@.len() as int {
                            assert(old(self).links@.contains(self.links@[j]));
                        } else if j == old(self).links@.len() as int {
                            assert(old(self).links@.contains(self.links@[i]));
                        }
                    }
                }
            }
        } else {
            assert(self.links@.to_set() =~= old(self).links@.to_set().insert(other));
        }
    }

    /// Whether this cell has a passage to any cell.
    pub fn has_links(&self) -> (r: bool)
        ensures
            r == !self@.link_set().is_empty(),
    {
        proof {
            if self.links@.len() > 0 {
                assert(self@.link_set().contains(self.links@[0]));
            } else {
                assert(self@.link_set() =~= Set::empty());
            }
        }
        !self.links.is_empty()
    }

    /// Records `other` as the neighbor in the direction it lies, and links
    /// to it. Gives `None`, and changes nothing, when `other` is not one
    /// axis step away.
    pub fn add_neighbor(&mut self, other: (i32, i32)) -> (r: Option<()>)
        ensures
            r is Some <==> direction_between(old(self)@.at(), other) is Some,
            r is None ==> final(self)@ == old(self)@,
            r is Some ==> {
                let way = direction_between(old(self)@.at(), other)->Some_0;
                &&& final(self)@.neighbor_in(way) == Some(other)
                &&& forall|d: Direction|
                    d != way ==> final(self)@.neighbor_in(d) == old(self)@.neighbor_in(d)
                &&& final(self)@.link_set() == old(self)@.link_set().insert(other)
                &&& final(self)@.at() == old(self)@.at()
            },
            old(self)@.neighbors_geometric() && old(self)@.links_to_neighbors()
                ==> final(self)@.neighbors_geometric() && final(self)@.links_to_neighbors(),
    {
        let way = self.neighbor_direction(other);
        match way {
            Some(Direction::East) => {
                self.east = Some(other);
            },
            Some(Direction::South) => {
                self.south = Some(other);
            },
            Some(Direction::West) => {
                self.west = Some(other);
            },
            Some(Direction::North) => {
                self.north = Some(other);
            },
            None => {
                return None;
            },
        }
        self.link(other);
        proof {
            let o = old(self)@;
            let f = self@;
            if o.neighbors_geometric() && o.links_to_neighbors() {
                assert forall|x: (i32, i32)| f.link_set().contains(x) implies f.neighbor_set().contains(x) by {
                    f.lemma_neighbor_set(x);
                    if x != other {
                        assert(o.link_set().contains(x));
                        assert(o.neighbor_set().contains(x));
                        o.lemma_neighbor_set(x);
                    }
                }
            }
        }
        Some(())
    }

    /// The neighbor recorded in direction `way`.
    pub fn match_direction(&self, way: &Direction) -> (r: Option<(i32, i32)>)
        ensures
            r == self@.neighbor_in(*way),
    {
        match way {
            Direction::East => self.east,
            Direction::South => self.south,
            Direction::West => self.west,
            Direction::North => self.north,
        }
    }

    /// The direction in which `neighbor` lies from this cell, when it is
    /// exactly one axis step away.
    pub fn neighbor_direction(&self, neighbor: (i32, i32)) -> (r: Option<Direction>)
        ensures
            r == direction_between(self@.at(), neighbor),
    {
        let row = self.row as i64;
        let column = self.column as i64;
        let n_row = neighbor.0 as i64;
        let n_column = neighbor.1 as i64;
        if n_row == row - 1 && n_column == column {
            Some(Direction::North)
        } else if n_row == row + 1 && n_column == column {
            Some(Direction::South)
        } else if n_row == row && n_column == column - 1 {
            Some(Direction::West)
        } else if n_row == row && n_column == column + 1 {
            Some(Direction::East)
        } else {
            None
        }
    }

    /// Whether there is a neighbor in direction `way` and this cell links
    /// to it.
    pub fn direction_has_link(&self, way: Direction) -> (r: bool)
        ensures
            r == self@.has_link_toward(way),
    {
        match self.match_direction(&way) {
            Some(n) => self.is_linked_to(n),
            None => false,
        }
    }

    /// The recorded neighbors in the order North, East, South, West.
    pub fn neighbors(&self) -> (r: Vec<(i32, i32)>)
        ensures
            r@ == self@.neighbor_seq(),
    {
        let mut result: Vec<(i32, i32)> = Vec::new();
        if let Some(n) = self.north {
            result.push(n);
        }
        if let Some(n) = self.east {
            result.push(n);
        }
        if let Some(n) = self.south {
            result.push(n);
        }
        if let Some(n) = self.west {
            result.push(n);
        }
        assert(result@ =~= self@.neighbor_seq());
        result
    }

    /// One of the recorded neighbors, drawn uniformly from `rng`, or `None`
    /// when there is none.
    pub fn random_neighbor(&self, rng: &mut RandomSource) -> (r: Option<(i32, i32)>)
        ensures
            r is None <==> self@.neighbor_seq().len() == 0,
            r is Some ==> self@.neighbor_set().contains(r->Some_0),
    {
        let all = self.neighbors();
        if all.len() == 0 {
            None
        } else {
            let pick = rng.below(all.len());
            assert(self@.neighbor_seq().contains(all@[pick as int]));
            Some(all[pick])
        }
    }
}

} // verus!
