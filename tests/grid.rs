use terrain_gen::grid::VoxelGrid;

#[test]
fn test_voxel_grid() {
    let mut grid = VoxelGrid::new(10, 10, 10);
    assert_eq!(grid.get(5, 5, 5), false);

    grid.set(5, 5, 5, true);
    assert_eq!(grid.get(5, 5, 5), true);

    grid.set(5, 5, 5, false);
    assert_eq!(grid.get(5, 5, 5), false);
}

#[test]
fn set_then_get_every_cell_of_a_small_grid() {
    let mut grid = VoxelGrid::new(3, 4, 5);
    for z in 0..4 {
        for y in 0..5 {
            for x in 0..3 {
                grid.set(x, y, z, true);
                assert!(grid.get(x, y, z));
            }
        }
    }
    assert_eq!(grid.get_solid_count(), 60);
    grid.set(1, 2, 3, false);
    assert!(!grid.get(1, 2, 3));
    assert!(grid.get(0, 2, 3));
    assert_eq!(grid.get_solid_count(), 59);
}

#[test]
fn out_of_bounds_reads_are_air_and_writes_are_ignored() {
    let mut grid = VoxelGrid::new(4, 4, 4);
    grid.set(4, 0, 0, true);
    grid.set(0, 4, 0, true);
    grid.set(0, 0, 4, true);
    assert_eq!(grid.get_solid_count(), 0);
    grid.set(3, 3, 3, true);
    assert!(!grid.get(4, 3, 3));
    assert!(!grid.get(3, 4, 3));
    assert!(!grid.get(3, 3, 4));
    assert!(!grid.get(usize::MAX, 0, 0));
    assert!(grid.get(3, 3, 3));
}

#[test]
fn solid_count_matches_enumeration() {
    let mut grid = VoxelGrid::new(7, 3, 5);
    let mut k: usize = 0;
    for z in 0..3 {
        for y in 0..5 {
            for x in 0..7 {
                if (x * 31 + y * 17 + z * 7) % 3 == 0 {
                    grid.set(x, y, z, true);
                }
                k += 1;
            }
        }
    }
    assert_eq!(k, 105);
    let mut brute = 0;
    for z in 0..3 {
        for y in 0..5 {
            for x in 0..7 {
                if grid.get(x, y, z) {
                    brute += 1;
                }
            }
        }
    }
    assert_eq!(grid.get_solid_count(), brute);
    assert!(brute > 0);
}

#[test]
fn degenerate_grid_is_empty() {
    let grid = VoxelGrid::new(0, 5, 5);
    assert_eq!(grid.get_solid_count(), 0);
    assert!(!grid.get(0, 0, 0));
    assert_eq!(grid.to_voxel_array(), "");
    assert_eq!(grid.dimensions(), vec![0, 5, 5]);
}

#[test]
fn dimensions_are_width_height_depth() {
    let grid = VoxelGrid::new(3, 8, 6);
    assert_eq!(grid.dimensions(), vec![3, 8, 6]);
}

#[test]
fn fill_with_constant_height_stacks_columns() {
    let mut grid = VoxelGrid::new(4, 10, 3);
    let heights = vec![6usize; 12];
    grid.fill_from_heightmap(&heights);
    for y in 0..3 {
        for x in 0..4 {
            let mut column = 0;
            for z in 0..10 {
                assert_eq!(grid.get(x, y, z), z < 6);
                if grid.get(x, y, z) {
                    column += 1;
                }
            }
            assert_eq!(column, 6);
        }
    }
    assert_eq!(grid.get_solid_count(), 72);
}

#[test]
fn fill_clamps_heights_to_the_grid() {
    let mut grid = VoxelGrid::new(2, 5, 2);
    grid.fill_from_heightmap(&[0, 3, 9, 5]);
    assert_eq!(grid.get_solid_count(), 0 + 3 + 5 + 5);
    assert!(!grid.get(0, 0, 0));
    assert!(grid.get(1, 0, 2));
    assert!(!grid.get(1, 0, 3));
    assert!(grid.get(0, 1, 4));
    assert!(grid.get(1, 1, 4));
}

#[test]
fn fill_keeps_cells_already_solid() {
    let mut grid = VoxelGrid::new(2, 5, 1);
    grid.set(0, 0, 4, true);
    grid.fill_from_heightmap(&[1, 0]);
    assert!(grid.get(0, 0, 0));
    assert!(grid.get(0, 0, 4));
    assert!(!grid.get(0, 0, 1));
    assert_eq!(grid.get_solid_count(), 2);
}

#[test]
fn export_of_fresh_grid_is_all_zero() {
    let grid = VoxelGrid::new(3, 10, 2);
    let text = grid.to_voxel_array();
    let tokens: Vec<&str> = text.split(' ').collect();
    assert_eq!(tokens.len(), 3 * 2 * 23);
    assert!(tokens.iter().all(|t| *t == "0"));
    assert_eq!(text.len(), 2 * 3 * 2 * 23 - 1);
}

#[test]
fn export_order_is_layer_row_column() {
    let mut grid = VoxelGrid::new(2, 2, 2);
    grid.set(1, 0, 0, true);
    grid.set(0, 1, 1, true);
    let text = grid.to_voxel_array();
    let tokens: Vec<&str> = text.split(' ').collect();
    assert_eq!(tokens.len(), 2 * 2 * 23);
    assert_eq!(&tokens[0..8], &["0", "1", "0", "0", "0", "0", "1", "0"]);
    assert!(tokens[8..].iter().all(|t| *t == "0"));
}

#[test]
fn export_pads_and_truncates_to_fixed_height() {
    let mut low = VoxelGrid::new(1, 2, 1);
    low.fill_from_heightmap(&[2]);
    let expected: Vec<&str> = (0..23).map(|z| if z < 2 { "1" } else { "0" }).collect();
    assert_eq!(low.to_voxel_array(), expected.join(" "));

    let mut tall = VoxelGrid::new(1, 30, 1);
    tall.fill_from_heightmap(&[30]);
    let text = tall.to_voxel_array();
    assert_eq!(text.split(' ').count(), 23);
    assert!(text.split(' ').all(|t| t == "1"));
}
