use mazes::algorithms::{aldous_broder, binary_tree};
use mazes::distances::DistanceMap;
use mazes::grid::Grid;
use mazes::hash_grid::HashGrid;
use mazes::label::label_for;
use mazes::random::RandomSource;

fn corridor_grid() -> Grid {
    let grid = Grid::new(3, 3);
    let mut rng = RandomSource::replaying(vec![1]);
    binary_tree(&grid, &mut rng)
}

#[test]
fn distances_on_east_north_maze() {
    let maze = corridor_grid();
    let dm = DistanceMap::from_grid((2, 0), &maze);
    assert_eq!(dm.root_coords(), (2, 0));
    assert_eq!(dm.get((2, 0)), Some(0));
    assert_eq!(dm.get((2, 2)), Some(2));
    assert_eq!(dm.get((1, 2)), Some(3));
    assert_eq!(dm.get((1, 0)), Some(5));
    assert_eq!(dm.get((0, 0)), Some(6));
    assert_eq!(dm.entries().len(), 9);
    assert_eq!(dm.get((3, 3)), None);
}

#[test]
fn distance_is_one_more_than_nearest_linked_cell() {
    let mut hgrid = HashGrid::new(4, 5);
    let mut rng = RandomSource::seeded(11);
    assert!(aldous_broder(&mut hgrid, &mut rng, u64::MAX));
    let dm = DistanceMap::from_hashgrid((3, 0), &hgrid);
    assert_eq!(dm.get((3, 0)), Some(0));
    for (k, d) in dm.entries() {
        if *k == (3, 0) {
            continue;
        }
        let cell = hgrid.get_item(*k).unwrap();
        let best = cell.links.iter().map(|l| dm.get(*l).unwrap()).min().unwrap();
        assert_eq!(*d, best + 1);
    }
}

#[test]
fn unreached_cells_are_absent() {
    let mut grid = Grid::new(2, 2);
    let mut a = grid.get_item((0, 0)).unwrap().copy();
    a.link((0, 1));
    grid.replace_cell(a).unwrap();
    let mut b = grid.get_item((0, 1)).unwrap().copy();
    b.link((0, 0));
    grid.replace_cell(b).unwrap();
    let dm = DistanceMap::from_grid((0, 0), &grid);
    assert_eq!(dm.entries().len(), 2);
    assert_eq!(dm.get((0, 1)), Some(1));
    assert_eq!(dm.get((1, 0)), None);
}

#[test]
fn path_to_walks_back_to_root() {
    for seed in 0..10u64 {
        let mut hgrid = HashGrid::new(4, 4);
        let mut rng = RandomSource::seeded(seed);
        assert!(aldous_broder(&mut hgrid, &mut rng, u64::MAX));
        let dm = DistanceMap::from_hashgrid((3, 0), &hgrid);
        for (goal, d) in dm.entries().clone() {
            let path = dm.path_to(goal, &hgrid);
            assert_eq!(path.len() as u32, d + 1);
            assert_eq!(path[0], (goal, d));
            assert_eq!(path[path.len() - 1], ((3, 0), 0));
            for i in 0..path.len() - 1 {
                assert_eq!(path[i + 1].1 + 1, path[i].1);
                let cell = hgrid.get_item(path[i].0).unwrap();
                assert!(cell.links.contains(&path[i + 1].0));
            }
        }
    }
}

#[test]
fn distance_map_new_holds_entries() {
    let dm = DistanceMap::new((1, 1), vec![((1, 1), 0), ((1, 2), 1)]);
    assert_eq!(dm.root_coords(), (1, 1));
    assert_eq!(dm.get((1, 2)), Some(1));
    assert!(dm.has_entry((1, 1)));
    assert!(!dm.has_entry((0, 0)));
}

#[test]
fn labels_are_padded_distances() {
    assert_eq!(label_for(None), "    ");
    assert_eq!(label_for(Some(0)), " 00 ");
    assert_eq!(label_for(Some(5)), " 05 ");
    assert_eq!(label_for(Some(42)), " 42 ");
    assert_eq!(label_for(Some(123)), " 123 ");
}

#[test]
fn cell_body_shows_distance_map() {
    let mut hgrid = HashGrid::new(2, 2);
    assert_eq!(hgrid.get_cell_body(&(0, 0)), "    ");
    let mut rng = RandomSource::seeded(5);
    assert!(aldous_broder(&mut hgrid, &mut rng, u64::MAX));
    hgrid.build_distance_map();
    assert_eq!(hgrid.get_cell_body(&(1, 0)), " 00 ");
    let dm = hgrid.distances.as_ref().unwrap();
    assert_eq!(dm.entries().len(), 4);
    assert_eq!(dm.root_coords(), (1, 0));
    assert_eq!(hgrid.get_cell_body(&(5, 5)), "    ");
}

#[test]
fn breadcrumbs_follow_longest_path() {
    for seed in 0..10u64 {
        let mut hgrid = HashGrid::new(3, 4);
        let mut rng = RandomSource::seeded(seed);
        assert!(aldous_broder(&mut hgrid, &mut rng, u64::MAX));
        let full = DistanceMap::from_hashgrid((2, 0), &hgrid);
        let longest = full.entries().iter().map(|e| e.1).max().unwrap();
        hgrid.build_breadcrumbs_to_longest();
        let crumbs = hgrid.distances.as_ref().unwrap();
        assert_eq!(crumbs.entries().len() as u32, longest + 1);
        assert_eq!(crumbs.get((2, 0)), Some(0));
        for (k, d) in crumbs.entries() {
            assert_eq!(full.get(*k), Some(*d));
        }
        assert_eq!(hgrid.get_cell_body(&(2, 0)), " 00 ");
    }
}

#[test]
fn breadcrumbs_on_corridor_maze() {
    let mut hgrid = HashGrid::new(2, 3);
    let mut rng = RandomSource::replaying(vec![1]);
    let grid = binary_tree(&Grid::new(2, 3), &mut rng);
    for r in 0..2 {
        for c in 0..3 {
            hgrid.replace_cell(grid.get_item((r, c)).unwrap().copy()).unwrap();
        }
    }
    hgrid.build_breadcrumbs_to_longest();
    let crumbs = hgrid.distances.as_ref().unwrap();
    assert_eq!(crumbs.get((0, 0)), Some(5));
    assert_eq!(crumbs.entries().len(), 6);
    assert_eq!(hgrid.get_cell_body(&(0, 0)), " 05 ");
    assert_eq!(hgrid.get_cell_body(&(1, 2)), " 02 ");
}
