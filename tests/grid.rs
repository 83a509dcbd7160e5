use physics_wasm::{candidate_pairs, cell_index, get_spatial_grid, neighbor_cells};

#[test]
fn corner_cells_have_three_neighbors() {
    assert_eq!(neighbor_cells(4, 0), vec![1, 4, 5]);
    assert_eq!(neighbor_cells(4, 3), vec![2, 6, 7]);
    assert_eq!(neighbor_cells(4, 12), vec![8, 9, 13]);
    assert_eq!(neighbor_cells(4, 15), vec![10, 11, 14]);
    assert_eq!(neighbor_cells(49, 0), vec![1, 49, 50]);
    assert_eq!(neighbor_cells(49, 48), vec![47, 96, 97]);
}

#[test]
fn edge_cells_have_five_neighbors() {
    assert_eq!(neighbor_cells(4, 1), vec![0, 2, 4, 5, 6]);
    assert_eq!(neighbor_cells(4, 4), vec![0, 1, 5, 8, 9]);
    assert_eq!(neighbor_cells(4, 7), vec![2, 3, 6, 10, 11]);
    assert_eq!(neighbor_cells(4, 14), vec![9, 10, 11, 13, 15]);
}

#[test]
fn interior_cells_have_eight_neighbors() {
    assert_eq!(neighbor_cells(4, 5), vec![0, 1, 2, 4, 6, 8, 9, 10]);
    assert_eq!(neighbor_cells(49, 50), vec![0, 1, 2, 49, 51, 98, 99, 100]);
}

#[test]
fn small_grids_have_few_neighbors() {
    assert_eq!(neighbor_cells(1, 0), Vec::<usize>::new());
    assert_eq!(neighbor_cells(2, 0), vec![1, 2, 3]);
    assert_eq!(neighbor_cells(2, 1), vec![0, 2, 3]);
}

#[test]
fn cell_index_is_row_major() {
    assert_eq!(cell_index(49, 3, 4), 4 * 49 + 3);
    assert_eq!(cell_index(49, 0, 0), 0);
    assert_eq!(cell_index(49, 48, 48), 49 * 49 - 1);
}

#[test]
fn cell_index_clamps_out_of_range_coordinates() {
    assert_eq!(cell_index(49, -2, -3), 0);
    assert_eq!(cell_index(49, 100, 5), 5 * 49 + 48);
    assert_eq!(cell_index(49, 49, 49), 49 * 49 - 1);
    assert_eq!(cell_index(49, i64::MIN, i64::MAX), 48 * 49);
}

#[test]
fn grid_places_each_particle_in_one_cell() {
    let coords = vec![(0, 0), (1, 0), (0, 0), (60, -1), (-5, 9)];
    let grid = get_spatial_grid(4, &coords);
    assert_eq!(grid.len(), 16);
    assert_eq!(grid[0].items, vec![0, 2]);
    assert_eq!(grid[1].items, vec![1]);
    assert_eq!(grid[3].items, vec![3]);
    assert_eq!(grid[12].items, vec![4]);
    let placed: usize = grid.iter().map(|c| c.items.len()).sum();
    assert_eq!(placed, coords.len());
}

#[test]
fn grid_cells_know_their_place_and_neighbors() {
    let grid = get_spatial_grid(4, &vec![]);
    assert_eq!((grid[6].column, grid[6].row), (2, 1));
    assert_eq!(grid[6].neighbors, vec![1, 2, 3, 5, 7, 9, 10, 11]);
    assert_eq!(grid[0].neighbors, vec![1, 4, 5]);
    assert!(grid.iter().all(|c| c.items.is_empty()));
}

#[test]
fn pairs_come_cell_by_cell_later_item_first() {
    let coords = vec![(0, 0), (2, 2), (0, 0), (2, 2), (3, 3), (0, 0)];
    let grid = get_spatial_grid(4, &coords);
    let pairs = candidate_pairs(&grid);
    assert_eq!(pairs, vec![(2, 0), (5, 0), (5, 2), (3, 1)]);
}

#[test]
fn a_particle_alone_in_its_cell_has_no_pairs() {
    let grid = get_spatial_grid(4, &vec![(0, 0), (3, 3)]);
    assert!(candidate_pairs(&grid).is_empty());
}

#[test]
fn two_particles_in_one_cell_make_one_pair() {
    let grid = get_spatial_grid(49, &vec![(-2, 0), (1, 0)]);
    assert!(candidate_pairs(&grid).is_empty());
    let grid = get_spatial_grid(49, &vec![(0, 0), (0, 0)]);
    assert_eq!(candidate_pairs(&grid), vec![(1, 0)]);
}
