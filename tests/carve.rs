use terrain_gen::carve::{
    carve_cavern_cells, carve_caves_with, carve_sphere, worm_start, Sphere, CAVERN_FLOOR,
};
use terrain_gen::grid::VoxelGrid;
use terrain_gen::rng::{lcg_next, seeded_random};

fn solid_grid(w: usize, h: usize, d: usize) -> VoxelGrid {
    let mut grid = VoxelGrid::new(w, h, d);
    grid.fill_from_heightmap(&vec![h; w * d]);
    grid
}

#[test]
fn lcg_steps_match_known_values() {
    assert_eq!(lcg_next(0), 1013904223);
    assert_eq!(lcg_next(1), 1015568748);
    assert_eq!(lcg_next(u64::MAX), 1012239698);
}

#[test]
fn seeded_random_advances_and_reduces() {
    let mut state: u64 = 0;
    let r = seeded_random(&mut state, 1000);
    assert_eq!(state, 1013904223);
    assert_eq!(r, 223);
}

#[test]
fn worm_start_draws_in_order() {
    let mut state: u64 = 7;
    let start = worm_start(&mut state, 10, 10, 10);
    assert_eq!(start.x, 8);
    assert_eq!(start.y, 3);
    assert_eq!(start.z, 7);
    assert_eq!(start.segments, 63);
    assert_eq!(start.radius, 2);
    assert_eq!(state, 9247607072934174606);
}

#[test]
fn worm_start_is_reproducible() {
    let mut a: u64 = 12345;
    let mut b: u64 = 12345;
    for _ in 0..4 {
        let sa = worm_start(&mut a, 32, 32, 50);
        let sb = worm_start(&mut b, 32, 32, 50);
        assert_eq!(
            (sa.x, sa.y, sa.z, sa.segments, sa.radius),
            (sb.x, sb.y, sb.z, sb.segments, sb.radius)
        );
        assert!(sa.x < 32 && sa.y < 32);
        assert!(sa.z >= 5 && sa.z < 5 + 30);
        assert!(sa.segments >= 50 && sa.segments < 100);
        assert!(sa.radius >= 2 && sa.radius < 4);
    }
    assert_eq!(a, b);
}

#[test]
fn sphere_removes_set_cell() {
    let mut grid = VoxelGrid::new(10, 10, 10);
    grid.set(5, 5, 5, true);
    assert!(grid.get(5, 5, 5));
    carve_sphere(&mut grid, 5, 5, 5, 2);
    assert!(!grid.get(5, 5, 5));
}

#[test]
fn sphere_of_radius_one_removes_seven_cells() {
    let mut grid = solid_grid(5, 5, 5);
    carve_sphere(&mut grid, 2, 2, 2, 1);
    assert_eq!(grid.get_solid_count(), 125 - 7);
    assert!(!grid.get(2, 2, 3));
    assert!(grid.get(3, 3, 2));
}

#[test]
fn sphere_is_inclusive_and_clipped_at_the_edges() {
    let mut grid = solid_grid(6, 6, 6);
    carve_sphere(&mut grid, 0, 0, 0, 2);
    // cells with x^2 + y^2 + z^2 <= 4 in the positive octant
    let mut expected_removed = 0;
    for z in 0..6usize {
        for y in 0..6usize {
            for x in 0..6usize {
                let inside = x * x + y * y + z * z <= 4;
                if inside {
                    expected_removed += 1;
                }
                assert_eq!(grid.get(x, y, z), !inside);
            }
        }
    }
    assert_eq!(expected_removed, 11);
    assert_eq!(grid.get_solid_count(), 216 - 11);
}

#[test]
fn sphere_of_radius_zero_removes_its_centre() {
    let mut grid = solid_grid(3, 3, 3);
    carve_sphere(&mut grid, 1, 1, 1, 0);
    assert_eq!(grid.get_solid_count(), 26);
    assert!(!grid.get(1, 1, 1));
}

#[test]
fn cavern_cells_respect_floor_and_top() {
    let mut grid = solid_grid(2, 8, 2);
    let hollow = vec![true; 2 * 8 * 2];
    carve_cavern_cells(&mut grid, 6, &hollow);
    for z in 0..8 {
        let solid = z < CAVERN_FLOOR || z >= 6;
        assert_eq!(grid.get(0, 0, z), solid);
        assert_eq!(grid.get(1, 1, z), solid);
    }
    assert_eq!(grid.get_solid_count(), 4 * 5);
}

#[test]
fn cavern_cells_follow_marks() {
    let mut grid = solid_grid(3, 6, 1);
    let mut hollow = vec![false; 3 * 6];
    // cell (1, 0, 4) sits at 4 * 3 + 1
    hollow[13] = true;
    // a mark below the floor is never used
    hollow[2 * 3 + 2] = true;
    carve_cavern_cells(&mut grid, 100, &hollow);
    assert!(!grid.get(1, 0, 4));
    assert!(grid.get(2, 0, 2));
    assert_eq!(grid.get_solid_count(), 17);
}

#[test]
fn no_spheres_and_no_marks_change_nothing() {
    let mut grid = solid_grid(4, 6, 4);
    let before = grid.to_voxel_array();
    carve_caves_with(&mut grid, &[], 10, &vec![false; 4 * 6 * 4]);
    assert_eq!(grid.to_voxel_array(), before);
}

#[test]
fn caves_are_reproducible() {
    let spheres = [
        Sphere { x: 3, y: 3, z: 5, radius: 2 },
        Sphere { x: 4, y: 3, z: 5, radius: 3 },
    ];
    let hollow: Vec<bool> = (0..10 * 10 * 10).map(|i| i % 7 == 0).collect();
    let mut a = solid_grid(10, 10, 10);
    let mut b = solid_grid(10, 10, 10);
    carve_caves_with(&mut a, &spheres, 7, &hollow);
    carve_caves_with(&mut b, &spheres, 7, &hollow);
    assert_eq!(a.to_voxel_array(), b.to_voxel_array());
    assert!(!a.get(4, 3, 5));
    assert!(a.get(0, 0, 0));
    assert!(a.get_solid_count() < 1000);
}

#[test]
fn worm_pass_removes_covered_cell() {
    let mut grid = VoxelGrid::new(10, 10, 10);
    grid.set(5, 5, 5, true);
    let spheres = [Sphere { x: 4, y: 5, z: 5, radius: 2 }];
    carve_caves_with(&mut grid, &spheres, 0, &vec![false; 1000]);
    assert!(!grid.get(5, 5, 5));
}
