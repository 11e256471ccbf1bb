use abiogenesis::spatial_hash::SpatialHashGrid;

// The world of these tests: a square centred on the origin with half size 50,
// split into 10 x 10 cells of size 10. The floating-point geometry that turns
// world positions into grid coordinates is written out here as the program
// around the library computes it.
const MIN: f32 = -50.0;
const SIZE: f32 = 100.0;
const CELL: f32 = 10.0;

type Item = ((f32, f32), i32);

fn world_to_grid(pos: (f32, f32)) -> (i32, i32) {
    (
        ((pos.0 - MIN) / CELL).floor() as i32,
        ((pos.1 - MIN) / CELL).floor() as i32,
    )
}

fn radius_cells(radius: f32) -> (i32, i32) {
    let r = (radius / CELL).ceil() as i32;
    (r, r)
}

fn toroidal_distance(a: (f32, f32), b: (f32, f32)) -> f32 {
    let mut dx = (a.0 - b.0).abs();
    let mut dy = (a.1 - b.1).abs();
    if dx > SIZE / 2.0 {
        dx = SIZE - dx;
    }
    if dy > SIZE / 2.0 {
        dy = SIZE - dy;
    }
    (dx * dx + dy * dy).sqrt()
}

fn new_grid() -> SpatialHashGrid<Item> {
    SpatialHashGrid::new((10, 10))
}

fn insert(grid: &mut SpatialHashGrid<Item>, pos: (f32, f32), value: i32) {
    grid.insert(world_to_grid(pos), (pos, value));
}

fn query_values(grid: &SpatialHashGrid<Item>, pos: (f32, f32), radius: f32) -> Vec<i32> {
    grid.query(world_to_grid(pos), radius_cells(radius), |item: &Item| {
        toroidal_distance(item.0, pos) <= radius
    })
    .into_iter()
    .map(|item| item.1)
    .collect()
}

#[test]
fn test_query_cells_center() {
    let grid = new_grid();
    assert_eq!(
        grid.get_query_cells(world_to_grid((-40.0, -40.0)), radius_cells(10.0)),
        vec![
            (0, 0),
            (0, 1),
            (0, 2),
            (1, 0),
            (1, 1),
            (1, 2),
            (2, 0),
            (2, 1),
            (2, 2)
        ]
    );
}

#[test]
fn test_query_cells_toroidal() {
    let grid = new_grid();
    assert_eq!(
        grid.get_query_cells(world_to_grid((-50.0, -50.0)), radius_cells(10.0)),
        vec![
            (9, 9),
            (9, 0),
            (9, 1),
            (0, 9),
            (0, 0),
            (0, 1),
            (1, 9),
            (1, 0),
            (1, 1)
        ]
    );
}

#[test]
fn test_grid_to_index_conversion() {
    let grid = new_grid();
    assert_eq!(grid.grid_to_index((0, 0)), 0);
    assert_eq!(grid.grid_to_index((1, 0)), 1);
    assert_eq!(grid.grid_to_index((0, 1)), 10);
    assert_eq!(grid.grid_to_index((5, 5)), 55);
    assert_eq!(grid.grid_to_index((9, 9)), 99);
}

#[test]
fn test_insert_and_query_basic() {
    let mut grid = new_grid();
    insert(&mut grid, (0.0, 0.0), 42);
    let results = query_values(&grid, (0.0, 0.0), 10.0);
    assert_eq!(results.len(), 1);
    assert_eq!(results[0], 42);
}

#[test]
fn test_query_within_radius() {
    let mut grid = new_grid();
    insert(&mut grid, (0.0, 0.0), 1);
    insert(&mut grid, (10.0, 0.0), 2);
    insert(&mut grid, (20.0, 0.0), 3);
    let results = query_values(&grid, (0.0, 0.0), 15.0);
    assert!(results.contains(&1));
    assert!(results.contains(&2));
    assert!(!results.contains(&3));
}

#[test]
fn test_toroidal_wrapping_horizontal() {
    let mut grid = new_grid();
    insert(&mut grid, (45.0, 0.0), 1);
    assert_eq!(query_values(&grid, (-45.0, 0.0), 20.0), vec![1]);
}

#[test]
fn test_toroidal_wrapping_vertical() {
    let mut grid = new_grid();
    insert(&mut grid, (0.0, 45.0), 1);
    assert_eq!(query_values(&grid, (0.0, -45.0), 20.0), vec![1]);
}

#[test]
fn test_toroidal_wrapping_diagonal() {
    let mut grid = new_grid();
    insert(&mut grid, (45.0, 45.0), 1);
    assert_eq!(query_values(&grid, (-45.0, -45.0), 20.0), vec![1]);
}

#[test]
fn test_multiple_items_same_cell() {
    let mut grid = new_grid();
    insert(&mut grid, (1.0, 1.0), 1);
    insert(&mut grid, (2.0, 2.0), 2);
    insert(&mut grid, (3.0, 3.0), 3);
    let results = query_values(&grid, (1.0, 1.0), 2.0);
    assert_eq!(results.len(), 2);
    assert!(results.contains(&1));
    assert!(results.contains(&2));
    assert!(!results.contains(&3));
}

#[test]
fn test_expanding_query_radius() {
    let mut grid = new_grid();
    insert(&mut grid, (0.0, 0.0), 1);
    insert(&mut grid, (10.0, 10.0), 2);
    insert(&mut grid, (15.0, 15.0), 3);
    insert(&mut grid, (-20.0, -20.0), 4);
    insert(&mut grid, (-30.0, 30.0), 5);

    assert_eq!(query_values(&grid, (0.0, 0.0), 1.0), vec![1]);
    assert_eq!(query_values(&grid, (0.0, 0.0), 15.0), vec![1, 2]);
    assert_eq!(query_values(&grid, (0.0, 0.0), 22.0), vec![1, 2, 3]);
    assert_eq!(query_values(&grid, (0.0, 0.0), 30.0), vec![4, 1, 2, 3]);
    assert_eq!(query_values(&grid, (0.0, 0.0), 42.0), vec![4, 1, 2, 3]);
}

#[test]
fn new_grid_has_one_empty_bucket_per_cell() {
    let grid: SpatialHashGrid<u8> = SpatialHashGrid::new((4, 3));
    assert_eq!(grid.cells.len(), 12);
    assert!(grid.cells.iter().all(|c| c.is_empty()));
    assert_eq!(grid.cell_count, (4, 3));
}

#[test]
fn wrap_coordinates_takes_the_residue() {
    let grid: SpatialHashGrid<u8> = SpatialHashGrid::new((10, 7));
    assert_eq!(grid.wrap_coordinates((0, 0)), (0, 0));
    assert_eq!(grid.wrap_coordinates((-1, -1)), (9, 6));
    assert_eq!(grid.wrap_coordinates((10, 7)), (0, 0));
    assert_eq!(grid.wrap_coordinates((23, -15)), (3, 6));
    assert_eq!(grid.wrap_coordinates((-20, 14)), (0, 0));
    assert_eq!(grid.wrap_coordinates((i32::MIN, i32::MAX)), (2, 1));
}

#[test]
fn wrap_is_periodic_and_idempotent() {
    let grid: SpatialHashGrid<u8> = SpatialHashGrid::new((6, 5));
    for v in -20..20 {
        let w = grid.wrap_coordinates((v, v));
        assert_eq!(grid.wrap_coordinates((v + 6, v + 5)), w);
        assert_eq!(grid.wrap_coordinates(w), w);
    }
}

#[test]
fn grid_to_index_of_coordinates_outside_the_grid() {
    let grid: SpatialHashGrid<u8> = SpatialHashGrid::new((10, 10));
    assert_eq!(grid.grid_to_index((12, 0)), 12);
    assert_eq!(grid.grid_to_index((-1, 1)), 9);
    assert_eq!(grid.grid_to_index((0, -1)), (-10i32) as usize);
}

#[test]
fn insert_outside_the_grid_stores_nothing() {
    let mut grid: SpatialHashGrid<u8> = SpatialHashGrid::new((10, 10));
    grid.insert((0, 10), 1);
    grid.insert((-1, 0), 2);
    assert!(grid.cells.iter().all(|c| c.is_empty()));
    grid.insert((3, 2), 3);
    assert_eq!(grid.cells[23], vec![3]);
}

#[test]
fn clear_empties_every_bucket() {
    let mut grid: SpatialHashGrid<u8> = SpatialHashGrid::new((3, 3));
    grid.insert((0, 0), 1);
    grid.insert((2, 2), 2);
    grid.insert((2, 2), 3);
    grid.clear();
    assert_eq!(grid.cells.len(), 9);
    assert!(grid.cells.iter().all(|c| c.is_empty()));
    assert!(grid.query((1, 1), (1, 1), |_: &u8| true).is_empty());
}

#[test]
fn query_window_shape() {
    let grid: SpatialHashGrid<u8> = SpatialHashGrid::new((10, 10));
    assert_eq!(grid.get_query_cells((4, 4), (2, 1)).len(), 15);
    assert_eq!(grid.get_query_cells((4, 4), (0, 0)), vec![(4, 4)]);
    assert!(grid.get_query_cells((4, 4), (-1, 3)).is_empty());
    assert!(grid.get_query_cells((4, 4), (3, -1)).is_empty());
    assert_eq!(
        grid.get_query_cells((0, 5), (1, 0)),
        vec![(9, 5), (0, 5), (1, 5)]
    );
}

#[test]
fn query_keeps_window_order_and_asks_about_every_item() {
    let mut grid: SpatialHashGrid<u8> = SpatialHashGrid::new((5, 5));
    grid.insert((1, 1), 10);
    grid.insert((1, 1), 11);
    grid.insert((0, 0), 20);
    grid.insert((4, 4), 30);
    grid.insert((3, 3), 40);
    let all: Vec<u8> = grid.query((0, 0), (1, 1), |_: &u8| true).into_iter().copied().collect();
    assert_eq!(all, vec![30, 20, 10, 11]);
    let even: Vec<u8> = grid
        .query((0, 0), (1, 1), |v: &u8| *v % 20 == 0)
        .into_iter()
        .copied()
        .collect();
    assert_eq!(even, vec![20]);
    assert!(grid.query((0, 0), (1, 1), |_: &u8| false).is_empty());
    let asked = std::cell::Cell::new(0);
    let _ = grid.query((0, 0), (1, 1), |_: &u8| {
        asked.set(asked.get() + 1);
        true
    });
    assert_eq!(asked.get(), 4);
}

#[test]
fn query_reaches_an_item_within_the_radius() {
    let mut grid: SpatialHashGrid<u8> = SpatialHashGrid::new((8, 8));
    grid.insert((7, 0), 5);
    let found: Vec<u8> = grid.query((1, 6), (2, 2), |_: &u8| true).into_iter().copied().collect();
    assert_eq!(found, vec![5]);
    let missed: Vec<u8> = grid.query((3, 3), (2, 2), |_: &u8| true).into_iter().copied().collect();
    assert!(missed.is_empty());
}

#[test]
fn query_window_names_each_cell_once_when_it_fits() {
    let grid: SpatialHashGrid<u8> = SpatialHashGrid::new((10, 10));
    let mut cells = grid.get_query_cells((0, 9), (4, 4));
    assert_eq!(cells.len(), 81);
    cells.sort();
    cells.dedup();
    assert_eq!(cells.len(), 81);
    // A window wider than the grid names a column twice.
    let wide = grid.get_query_cells((5, 5), (5, 0));
    assert_eq!(wide.len(), 11);
    assert_eq!(wide[0], (0, 5));
    assert_eq!(wide[10], (0, 5));
}

#[test]
fn insert_pushes_in_arrival_order() {
    let mut grid: SpatialHashGrid<u8> = SpatialHashGrid::new((4, 4));
    grid.insert((1, 2), 7);
    grid.insert((1, 2), 8);
    grid.insert((3, 0), 9);
    assert_eq!(grid.cells[9], vec![7, 8]);
    assert_eq!(grid.cells[3], vec![9]);
    assert_eq!(grid.cells.iter().map(|c| c.len()).sum::<usize>(), 3);
}

#[test]
fn every_bucket_is_the_index_of_a_cell() {
    let grid: SpatialHashGrid<u8> = SpatialHashGrid::new((7, 3));
    let mut seen = vec![false; 21];
    for y in 0..3 {
        for x in 0..7 {
            let i = grid.grid_to_index((x, y));
            assert!(!seen[i]);
            seen[i] = true;
        }
    }
    assert!(seen.iter().all(|s| *s));
    assert_eq!(grid.grid_to_index((15 % 7, 15 / 7)), 15);
}

#[test]
fn a_larger_radius_only_adds_cells_and_items() {
    let mut grid: SpatialHashGrid<u8> = SpatialHashGrid::new((10, 10));
    for (i, p) in [(0, 0), (2, 3), (9, 9), (5, 1), (4, 4)].iter().enumerate() {
        grid.insert(*p, i as u8);
    }
    let small = grid.get_query_cells((1, 1), (1, 2));
    let large = grid.get_query_cells((1, 1), (3, 2));
    assert!(small.iter().all(|c| large.contains(c)));
    let few: Vec<u8> = grid.query((1, 1), (1, 1), |_: &u8| true).into_iter().copied().collect();
    let more: Vec<u8> = grid.query((1, 1), (3, 3), |_: &u8| true).into_iter().copied().collect();
    assert!(few.iter().all(|v| more.contains(v)));
    assert!(few.len() < more.len());
}

#[test]
fn a_larger_radius_only_adds_results_for_a_fixed_rule() {
    let mut grid: SpatialHashGrid<u8> = SpatialHashGrid::new((10, 10));
    for (i, p) in [(0, 0), (2, 3), (9, 9), (5, 1), (4, 4), (1, 2)].iter().enumerate() {
        grid.insert(*p, i as u8);
    }
    let rule = |v: &u8| *v % 2 == 1;
    let small: Vec<u8> = grid.query((1, 1), (1, 1), rule).into_iter().copied().collect();
    let large: Vec<u8> = grid.query((1, 1), (3, 3), rule).into_iter().copied().collect();
    assert_eq!(small, vec![5]);
    assert!(small.iter().all(|v| large.contains(v)));
    assert_eq!(large.len(), 2);
}
