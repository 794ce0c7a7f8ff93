use gravity_grid::force::{divide_and_conquer, zero_shells, CellPair, Moment, NUM_SHELLS};
use gravity_grid::grid::{CellPos, GravityGrid};

fn at(x: i64, y: i64) -> Option<CellPos> {
    Some(CellPos { x, y })
}

fn total(grid: &GravityGrid) -> u64 {
    grid.cell_mass.iter().map(|&m| m as u64).sum()
}

/// The force on a cell from its shells, by the inverse-square law:
/// `g / cell_size^2 * sum_k k^(-3/2) * shell_k`.
fn force_of(shells: &Vec<Moment>, g: f64, cell_size: f64) -> (f64, f64) {
    let mut fx = 0.0;
    let mut fy = 0.0;
    for k in 1..shells.len() {
        let w = g / (cell_size * cell_size) / (k as f64).powf(1.5);
        fx += w * shells[k].x as f64;
        fy += w * shells[k].y as f64;
    }
    (fx, fy)
}

fn place(grid: &mut GravityGrid, cells: &[(i64, i64, u32)]) -> Vec<Option<usize>> {
    let mut list = Vec::new();
    for &(x, y, n) in cells {
        for _ in 0..n {
            list.push(at(x, y));
        }
    }
    grid.compute_mass(&list)
}

#[test]
fn new_adds_a_margin_of_two_cells() {
    let grid = GravityGrid::new(1000, 1000, 100);
    assert_eq!(grid.width, 14);
    assert_eq!(grid.height, 14);
    assert_eq!(grid.cell_size, 100);
    assert_eq!(grid.cell_mass.len(), 196);
    assert!(grid.cell_mass.iter().all(|&m| m == 0));
    let grid = GravityGrid::new(1000, 500, 30);
    assert_eq!(grid.width, 37);
    assert_eq!(grid.height, 20);
}

#[test]
fn empty_grid_does_not_panic() {
    let mut grid = GravityGrid::with_cells(0, 0, 1);
    grid.zero_mass();
    let r = grid.compute_mass(&vec![at(0, 0), None]);
    assert_eq!(r, vec![None, None]);
    grid.compute_force();
    assert_eq!(grid.cell_mass.len(), 0);
}

#[test]
fn get_index_is_row_major() {
    let grid = GravityGrid::with_cells(3, 4, 1);
    assert_eq!(grid.get_index(at(1, 2)), Some(7));
    assert_eq!(grid.get_index(at(0, 0)), Some(0));
    assert_eq!(grid.get_index(at(2, 3)), Some(11));
    assert_eq!(grid.get_index(at(3, 0)), None);
    assert_eq!(grid.get_index(at(0, 4)), None);
    assert_eq!(grid.get_index(at(-1, 0)), None);
    assert_eq!(grid.get_index(None), None);
}

#[test]
fn zeroing_twice_equals_zeroing_once() {
    let mut grid = GravityGrid::with_cells(4, 4, 1);
    place(&mut grid, &[(1, 1, 3), (2, 3, 2)]);
    grid.zero_mass();
    let once = grid.cell_mass.clone();
    grid.zero_mass();
    assert_eq!(grid.cell_mass, once);
    assert!(grid.cell_mass.iter().all(|&m| m == 0));
}

#[test]
fn mass_is_conserved_for_particles_on_the_grid() {
    let mut grid = GravityGrid::with_cells(5, 5, 10);
    let cells = vec![at(0, 0), at(4, 4), at(2, 2), at(2, 2), at(0, 4)];
    grid.zero_mass();
    let r = grid.compute_mass(&cells);
    assert_eq!(total(&grid), 5);
    assert_eq!(r, vec![Some(0), Some(24), Some(12), Some(12), Some(20)]);
    assert_eq!(grid.cell_mass[12], 2);
}

#[test]
fn binning_without_zeroing_accumulates() {
    let mut grid = GravityGrid::with_cells(2, 2, 1);
    place(&mut grid, &[(1, 0, 1)]);
    place(&mut grid, &[(1, 0, 1)]);
    assert_eq!(grid.cell_mass[1], 2);
}

#[test]
fn particles_off_the_grid_are_excluded() {
    let mut grid = GravityGrid::with_cells(3, 3, 1);
    let cells = vec![at(-1, 0), at(0, -2), at(3, 1), at(1, 3), None, at(1, 1)];
    let r = grid.compute_mass(&cells);
    assert_eq!(r, vec![None, None, None, None, None, Some(4)]);
    assert_eq!(total(&grid), 1);
}

#[test]
fn corner_search_stays_on_the_grid() {
    let mut grid = GravityGrid::with_cells(3, 3, 1);
    let all: Vec<(i64, i64, u32)> =
        (0..3).flat_map(|y| (0..3).map(move |x| (x, y, 1))).collect();
    place(&mut grid, &all);
    for &(x, y) in &[(0u32, 0u32), (2, 0), (0, 2), (2, 2)] {
        let pairs = grid.interaction_pairs(x, y);
        assert_eq!(pairs.len(), 8);
        for p in &pairs {
            assert!(p.x2 < 3 && p.y2 < 3);
            assert!((p.y2 * 3 + p.x2) < 9);
            assert!(p.x2 != x || p.y2 != y);
        }
    }
    let mut big = GravityGrid::with_cells(20, 20, 1);
    let all: Vec<(i64, i64, u32)> =
        (0..20).flat_map(|y| (0..20).map(move |x| (x, y, 1))).collect();
    place(&mut big, &all);
    assert_eq!(big.interaction_pairs(0, 0).len(), 35);
    assert_eq!(big.interaction_pairs(19, 19).len(), 35);
    assert_eq!(big.interaction_pairs(10, 10).len(), 120);
}

#[test]
fn pairs_skip_empty_cells_and_the_cell_itself() {
    let mut grid = GravityGrid::with_cells(3, 1, 1);
    place(&mut grid, &[(0, 0, 2), (2, 0, 3)]);
    let pairs = grid.interaction_pairs(0, 0);
    assert_eq!(
        pairs,
        vec![CellPair { x1: 0, y1: 0, mass1: 2, x2: 2, y2: 0, mass2: 3 }]
    );
    assert!(grid.interaction_pairs(1, 0).is_empty());
}

#[test]
fn forces_between_two_cells_are_equal_and_opposite() {
    let mut grid = GravityGrid::with_cells(8, 8, 1);
    place(&mut grid, &[(1, 2, 4), (4, 6, 7)]);
    grid.compute_force();
    let a = grid.force_shells(1, 2).clone();
    let b = grid.force_shells(4, 6).clone();
    // displacement (3, 4): shell 25, moment 4 * 7 * (3, 4)
    assert_eq!(a[25], Moment { x: 84, y: 112 });
    assert_eq!(b[25], Moment { x: -84, y: -112 });
    let fa = force_of(&a, 2.0, 3.0);
    let fb = force_of(&b, 2.0, 3.0);
    assert!((fa.0 + fb.0).abs() < 1e-9 && (fa.1 + fb.1).abs() < 1e-9);
}

#[test]
fn reduction_is_independent_of_the_split() {
    let mut grid = GravityGrid::with_cells(11, 11, 1);
    let cells: Vec<(i64, i64, u32)> = (0..11)
        .flat_map(|y| (0..11).map(move |x| (x, y, ((x * 7 + y * 3) % 5 + 1) as u32)))
        .collect();
    place(&mut grid, &cells);
    let pairs = grid.interaction_pairs(5, 5);
    assert!(pairs.len() > 50);
    let whole = divide_and_conquer(&pairs);
    assert_eq!(whole.len(), NUM_SHELLS);
    for mid in 1..pairs.len() {
        let lo = divide_and_conquer(&pairs[..mid]);
        let hi = divide_and_conquer(&pairs[mid..]);
        for k in 0..NUM_SHELLS {
            assert_eq!(whole[k].x, lo[k].x + hi[k].x);
            assert_eq!(whole[k].y, lo[k].y + hi[k].y);
        }
    }
    let mut seq = zero_shells();
    for p in &pairs {
        let dx = p.x2 as i128 - p.x1 as i128;
        let dy = p.y2 as i128 - p.y1 as i128;
        let m = p.mass1 as i128 * p.mass2 as i128;
        let k = (dx * dx + dy * dy) as usize;
        seq[k].x += m * dx;
        seq[k].y += m * dy;
    }
    assert_eq!(whole, seq);
}

#[test]
fn three_by_three_scenario() {
    let mut grid = GravityGrid::with_cells(3, 3, 1);
    grid.zero_mass();
    place(&mut grid, &[(0, 0, 10), (2, 0, 10)]);
    grid.compute_force();
    let a = grid.force_shells(0, 0);
    let b = grid.force_shells(2, 0);
    assert_eq!(a[4], Moment { x: 200, y: 0 });
    assert_eq!(b[4], Moment { x: -200, y: 0 });
    let fa = force_of(a, 1.0, 1.0);
    let fb = force_of(b, 1.0, 1.0);
    assert!((fa.0 - 25.0).abs() < 1e-9 && fa.1.abs() < 1e-9);
    assert!((fb.0 + 25.0).abs() < 1e-9 && fb.1.abs() < 1e-9);
    assert_eq!(grid.force_shells(1, 1), &zero_shells());
}

#[test]
fn single_particle_feels_no_force() {
    let mut grid = GravityGrid::with_cells(4, 4, 5);
    place(&mut grid, &[(2, 1, 1)]);
    grid.compute_force();
    assert_eq!(grid.force_shells(2, 1), &zero_shells());
    assert_eq!(force_of(grid.force_shells(2, 1), 1.0, 5.0), (0.0, 0.0));
}

#[test]
fn cells_beyond_the_radius_do_not_interact() {
    let mut grid = GravityGrid::with_cells(20, 1, 1);
    place(&mut grid, &[(0, 0, 3), (6, 0, 3)]);
    grid.compute_force();
    assert_eq!(grid.force_shells(0, 0), &zero_shells());
    grid.zero_mass();
    place(&mut grid, &[(0, 0, 3), (5, 0, 2)]);
    grid.compute_force();
    assert_eq!(grid.force_shells(0, 0)[25], Moment { x: 30, y: 0 });
    assert_eq!(grid.force_shells(5, 0)[25], Moment { x: -30, y: 0 });
}

#[test]
fn force_is_recomputed_not_accumulated() {
    let mut grid = GravityGrid::with_cells(3, 1, 1);
    place(&mut grid, &[(0, 0, 1), (1, 0, 1)]);
    grid.compute_force();
    grid.compute_force();
    assert_eq!(grid.force_shells(0, 0)[1], Moment { x: 1, y: 0 });
}
