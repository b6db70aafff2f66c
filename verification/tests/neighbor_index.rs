use fluid_simulator::cell::PARTS_PER_CELL;
use fluid_simulator::neighbor_search::{GridError, NeighborSearcher, ParticleSearchStaticMatrix};

fn grid_5x5() -> ParticleSearchStaticMatrix<25> {
    ParticleSearchStaticMatrix::<25>::new(5).expect("a 5 by 5 grid is valid")
}

fn adjacent(a: (usize, usize), b: (usize, usize)) -> bool {
    a.0.abs_diff(b.0) <= 1 && a.1.abs_diff(b.1) <= 1
}

fn brute_force(points: &[(usize, usize)], center: (usize, usize)) -> Vec<usize> {
    let mut found = Vec::new();
    for (slot, point) in points.iter().enumerate() {
        if adjacent(*point, center) {
            found.push(slot);
        }
    }
    found
}

fn sorted(mut slots: Vec<usize>) -> Vec<usize> {
    slots.sort();
    slots
}

fn scattered() -> Vec<(usize, usize)> {
    vec![
        (0, 0),
        (1, 1),
        (4, 4),
        (2, 2),
        (2, 3),
        (3, 3),
        (0, 4),
        (1, 0),
        (2, 2),
        (4, 0),
        (3, 4),
        (1, 2),
    ]
}

#[test]
fn build_files_each_slot_under_its_cell() {
    let mut grid = grid_5x5();
    grid.build(&[(0, 0), (1, 1), (4, 4), (1, 1)]);
    assert_eq!(grid.cell(0), vec![0]);
    assert_eq!(grid.cell(6), vec![1, 3]);
    assert_eq!(grid.cell(24), vec![2]);
    for index in 0..25 {
        if index != 0 && index != 6 && index != 24 {
            assert_eq!(grid.cell(index), Vec::<usize>::new());
        }
    }
    assert_eq!(grid.overflow_count(), 0);
}

#[test]
fn build_keeps_slots_in_insertion_order() {
    let mut grid = grid_5x5();
    grid.build(&[(3, 1), (0, 0), (3, 1), (3, 1), (0, 0)]);
    assert_eq!(grid.cell(8), vec![0, 2, 3]);
    assert_eq!(grid.cell(0), vec![1, 4]);
}

#[test]
fn build_discards_what_was_filed_before() {
    let mut grid = grid_5x5();
    grid.build(&[(0, 0), (1, 1), (2, 2)]);
    grid.build(&[(4, 4)]);
    assert_eq!(grid.cell(0), Vec::<usize>::new());
    assert_eq!(grid.cell(6), Vec::<usize>::new());
    assert_eq!(grid.cell(12), Vec::<usize>::new());
    assert_eq!(grid.cell(24), vec![0]);
    assert_eq!(grid.get_neigbors((0, 0)), Vec::<usize>::new());
}

#[test]
fn build_of_nothing_empties_the_grid() {
    let mut grid = grid_5x5();
    grid.build(&[(2, 2), (2, 2)]);
    grid.build(&[]);
    for index in 0..25 {
        assert_eq!(grid.cell(index), Vec::<usize>::new());
    }
    assert_eq!(grid.get_neigbors((2, 2)), Vec::<usize>::new());
    assert!(!grid.has_overflowed());
}

#[test]
fn neighbors_come_cell_by_cell_in_row_major_order() {
    let mut grid = grid_5x5();
    // slots:        0       1       2       3       4       5       6
    grid.build(&[(3, 3), (1, 1), (2, 2), (2, 1), (1, 1), (3, 2), (0, 0)]);
    assert_eq!(grid.get_neigbors((2, 2)), vec![1, 4, 3, 2, 5, 0]);
}

#[test]
fn neighbors_of_two_particles_two_cells_apart() {
    let mut grid = grid_5x5();
    grid.build(&[(1, 2), (3, 2)]);
    assert_eq!(grid.get_neigbors((1, 2)), vec![0]);
    assert_eq!(grid.get_neigbors((3, 2)), vec![1]);
    assert_eq!(grid.get_neigbors((2, 2)), vec![0, 1]);
}

#[test]
fn neighbors_match_brute_force_search() {
    let points = scattered();
    let mut grid = grid_5x5();
    grid.build(&points);
    assert!(!grid.has_overflowed());
    for row in 0..5 {
        for column in 0..5 {
            let center = (column, row);
            assert_eq!(
                sorted(grid.get_neigbors(center)),
                brute_force(&points, center),
                "around {:?}",
                center
            );
        }
    }
}

#[test]
fn neighbors_hold_no_slot_twice() {
    let points = scattered();
    let mut grid = grid_5x5();
    grid.build(&points);
    for row in 0..5 {
        for column in 0..5 {
            let near = sorted(grid.get_neigbors((column, row)));
            for pair in near.windows(2) {
                assert_ne!(pair[0], pair[1]);
            }
            for slot in near {
                assert!(slot < points.len());
            }
        }
    }
}

#[test]
fn a_particle_is_its_own_neighbor() {
    let points = scattered();
    let mut grid = grid_5x5();
    grid.build(&points);
    for (slot, point) in points.iter().enumerate() {
        assert!(grid.get_neigbors(*point).contains(&slot));
    }
}

#[test]
fn rebuilding_with_the_same_points_gives_the_same_neighbors() {
    let points = scattered();
    let mut grid = grid_5x5();
    grid.build(&points);
    let mut first = Vec::new();
    for row in 0..5 {
        for column in 0..5 {
            first.push(grid.get_neigbors((column, row)));
        }
    }
    grid.build(&points);
    let mut other = grid_5x5();
    other.build(&[(2, 2), (2, 2), (2, 2)]);
    other.build(&points);
    let mut k = 0;
    for row in 0..5 {
        for column in 0..5 {
            assert_eq!(grid.get_neigbors((column, row)), first[k]);
            assert_eq!(other.get_neigbors((column, row)), first[k]);
            k += 1;
        }
    }
    for index in 0..25 {
        assert_eq!(grid.cell(index), other.cell(index));
    }
}

#[test]
fn dropping_a_particle_only_removes_its_slot() {
    let points = scattered();
    for dropped in 0..points.len() {
        let mut rest = points.clone();
        rest.remove(dropped);
        let mut before = grid_5x5();
        before.build(&points);
        let mut after = grid_5x5();
        after.build(&rest);
        for row in 0..5 {
            for column in 0..5 {
                let center = (column, row);
                let mut expected = Vec::new();
                for slot in before.get_neigbors(center) {
                    if slot < dropped {
                        expected.push(slot);
                    } else if slot > dropped {
                        expected.push(slot - 1);
                    }
                }
                assert_eq!(after.get_neigbors(center), expected);
            }
        }
    }
}

#[test]
fn dropping_a_particle_from_a_list_of_two() {
    let mut before = grid_5x5();
    before.build(&[(1, 1), (2, 2), (1, 2)]);
    assert_eq!(before.get_neigbors((1, 1)), vec![0, 2, 1]);
    let mut after = grid_5x5();
    after.build(&[(1, 1), (1, 2)]);
    assert_eq!(after.get_neigbors((1, 1)), vec![0, 1]);
}

#[test]
fn a_cell_over_capacity_keeps_its_first_slots_and_reports_the_rest() {
    let mut points = vec![(3, 1), (0, 0)];
    for _ in 0..PARTS_PER_CELL + 2 {
        points.push((2, 2));
    }
    points.push((3, 1));
    let mut grid = grid_5x5();
    grid.build(&points);
    assert!(grid.has_overflowed());
    assert_eq!(grid.overflow_count(), 2);
    let kept: Vec<usize> = (2..2 + PARTS_PER_CELL).collect();
    assert_eq!(grid.cell(12), kept);
    assert_eq!(grid.cell(8), vec![0, PARTS_PER_CELL + 4]);
    assert_eq!(grid.cell(0), vec![1]);
    for index in 0..25 {
        if index != 0 && index != 8 && index != 12 {
            assert_eq!(grid.cell(index), Vec::<usize>::new());
        }
    }
}

#[test]
fn a_cell_filled_to_capacity_is_not_an_overflow() {
    let points = vec![(4, 4); PARTS_PER_CELL];
    let mut grid = grid_5x5();
    grid.build(&points);
    assert!(!grid.has_overflowed());
    assert_eq!(grid.overflow_count(), 0);
    assert_eq!(grid.cell(24).len(), PARTS_PER_CELL);
    let mut one_more = points.clone();
    one_more.push((4, 4));
    grid.build(&one_more);
    assert!(grid.has_overflowed());
    assert_eq!(grid.overflow_count(), 1);
    assert_eq!(grid.cell(24).len(), PARTS_PER_CELL);
    assert!(!grid.cell(24).contains(&PARTS_PER_CELL));
}

#[test]
fn overflow_in_two_cells_is_counted_together() {
    let mut points = Vec::new();
    for _ in 0..PARTS_PER_CELL + 3 {
        points.push((0, 0));
        points.push((4, 2));
    }
    let mut grid = grid_5x5();
    grid.build(&points);
    assert_eq!(grid.overflow_count(), 6);
    assert_eq!(grid.cell(0).len(), PARTS_PER_CELL);
    assert_eq!(grid.cell(14).len(), PARTS_PER_CELL);
    assert_eq!(grid.cell(0)[PARTS_PER_CELL - 1], 2 * (PARTS_PER_CELL - 1));
    assert_eq!(grid.cell(14)[0], 1);
}

#[test]
fn overflow_is_forgotten_by_the_next_build() {
    let mut grid = grid_5x5();
    grid.build(&vec![(1, 1); PARTS_PER_CELL + 5]);
    assert_eq!(grid.overflow_count(), 5);
    grid.build(&[(1, 1)]);
    assert_eq!(grid.overflow_count(), 0);
    assert_eq!(grid.cell(6), vec![0]);
}

#[test]
fn dropping_a_listed_particle_from_an_overfull_cell_lets_another_in() {
    let points = vec![(2, 2); PARTS_PER_CELL + 1];
    let mut before = grid_5x5();
    before.build(&points);
    let listed = before.get_neigbors((2, 2));
    assert!(listed.contains(&0));
    assert!(!listed.contains(&PARTS_PER_CELL));
    let mut after = grid_5x5();
    after.build(&points[1..]);
    // The particle that was turned away now holds slot PARTS_PER_CELL - 1 and is listed.
    assert_eq!(after.get_neigbors((2, 2)).len(), PARTS_PER_CELL);
    assert!(after.get_neigbors((2, 2)).contains(&(PARTS_PER_CELL - 1)));
}

#[test]
fn neighbors_in_a_single_row_grid() {
    let mut grid = ParticleSearchStaticMatrix::<6>::new(6).expect("valid");
    assert_eq!(grid.height(), 1);
    grid.build(&[(0, 0), (1, 0), (2, 0), (5, 0)]);
    assert_eq!(grid.get_neigbors((1, 0)), vec![0, 1, 2]);
    assert_eq!(grid.get_neigbors((4, 0)), vec![3]);
    assert_eq!(grid.get_neigbors((3, 0)), vec![2]);
}

#[test]
fn try_build_files_points_on_the_grid() {
    let mut grid = grid_5x5();
    assert_eq!(grid.try_build(&[(0, 0), (4, 4), (0, 0)]), Ok(()));
    assert_eq!(grid.cell(0), vec![0, 2]);
    assert_eq!(grid.cell(24), vec![1]);
}

#[test]
fn try_build_reports_the_first_point_off_the_grid_and_changes_nothing() {
    let mut grid = grid_5x5();
    grid.build(&[(1, 1), (2, 2)]);
    let outcome = grid.try_build(&[(0, 0), (5, 1), (3, 3), (0, 9)]);
    assert_eq!(outcome, Err(GridError::OutOfDomain { column: 5, row: 1 }));
    assert_eq!(grid.cell(6), vec![0]);
    assert_eq!(grid.cell(12), vec![1]);
    assert_eq!(grid.cell(0), Vec::<usize>::new());
    let outcome = grid.try_build(&[(0, 0), (4, 5)]);
    assert_eq!(outcome, Err(GridError::OutOfDomain { column: 4, row: 5 }));
}

#[test]
fn first_out_of_domain_finds_the_first_only() {
    let grid = grid_5x5();
    assert_eq!(grid.first_out_of_domain(&[]), None);
    assert_eq!(grid.first_out_of_domain(&[(0, 0), (4, 4)]), None);
    assert_eq!(grid.first_out_of_domain(&[(0, 0), (4, 5), (7, 7)]), Some(1));
    assert_eq!(grid.first_out_of_domain(&[(usize::MAX, 0)]), Some(0));
}

#[test]
fn is_in_domain_tests_column_and_row() {
    let grid = grid_5x5();
    assert!(grid.is_in_domain(&(0, 0)));
    assert!(grid.is_in_domain(&(4, 4)));
    assert!(!grid.is_in_domain(&(5, 0)));
    assert!(!grid.is_in_domain(&(0, 5)));
    let short = ParticleSearchStaticMatrix::<8>::new(3).expect("valid");
    assert!(short.is_in_domain(&(2, 1)));
    assert!(!short.is_in_domain(&(0, 2)));
}

#[test]
fn try_get_neigbors_lists_or_reports() {
    let mut grid = grid_5x5();
    grid.build(&[(1, 1), (2, 2), (4, 4)]);
    assert_eq!(grid.try_get_neigbors((1, 1)), Ok(vec![0, 1]));
    assert_eq!(
        grid.try_get_neigbors((5, 4)),
        Err(GridError::OutOfDomain { column: 5, row: 4 })
    );
    assert_eq!(
        grid.try_get_neigbors((0, 5)),
        Err(GridError::OutOfDomain { column: 0, row: 5 })
    );
}

#[test]
fn a_new_grid_lists_no_neighbors() {
    let grid = grid_5x5();
    for row in 0..5 {
        for column in 0..5 {
            assert_eq!(grid.get_neigbors((column, row)), Vec::<usize>::new());
        }
    }
}

#[test]
fn the_lower_row_is_listed_before_the_upper_row() {
    let mut grid = grid_5x5();
    grid.build(&[(0, 1), (1, 0)]);
    assert_eq!(grid.get_neigbors((1, 1)), vec![1, 0]);
}

#[test]
fn neighbors_of_an_inner_cell_and_of_a_corner_cell() {
    let mut grid = grid_5x5();
    grid.build(&[(0, 0), (1, 1), (4, 4), (2, 1)]);
    assert_eq!(grid.get_neigbors((1, 1)), vec![0, 1, 3]);
    assert_eq!(grid.get_neigbors((4, 4)), vec![2]);
}
