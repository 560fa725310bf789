use arnis::binary32::F32;
use arnis::binary64::F64;
use arnis::elevation::element::GridElement;
use arnis::elevation::mmap_grid::{widest, MmapGrid};
use memmap2::MmapMut;

fn f(x: f64) -> F64 {
    F64::from_bits(x.to_bits())
}

fn n(x: F64) -> f64 {
    f64::from_bits(x.to_bits())
}

fn f4(x: f32) -> F32 {
    F32::from_bits(x.to_bits())
}

fn n4(x: F32) -> f32 {
    f32::from_bits(x.to_bits())
}

fn numbers(row: &[F64]) -> Vec<f64> {
    row.iter().map(|v| n(*v)).collect()
}

fn map<T: GridElement>(rows: usize, cols: usize) -> MmapMut {
    MmapMut::map_anon(MmapGrid::<T>::byte_len(rows, cols).unwrap()).unwrap()
}

fn grid<T: GridElement>(rows: usize, cols: usize) -> MmapGrid<T> {
    MmapGrid::new(map::<T>(rows, cols), rows, cols).unwrap()
}

fn transposed<T: GridElement>(g: &MmapGrid<T>) -> MmapGrid<T> {
    g.transpose(map::<T>(g.cols(), g.len())).unwrap()
}

#[test]
fn new_grid_is_zero_filled_and_indexable() {
    let grid = grid::<F32>(3, 4);
    assert_eq!(grid.len(), 3);
    assert_eq!(grid.cols(), 4);
    let mut rows = grid.iter();
    let mut count = 0;
    while let Some(row) = rows.next() {
        let row: Vec<f32> = row.iter().map(|v| n4(*v)).collect();
        assert_eq!(row, &[0.0f32; 4]);
        count += 1;
    }
    assert_eq!(count, 3);
}

#[test]
fn write_then_read_round_trips_exactly() {
    let mut grid = grid::<F32>(5, 5);
    for y in 0..5 {
        for x in 0..5 {
            grid.set(y, x, f4((y * 5 + x) as f32 * 1.5));
        }
    }
    for y in 0..5 {
        for x in 0..5 {
            assert_eq!(n4(grid.get(y, x)), (y * 5 + x) as f32 * 1.5);
        }
    }
}

#[test]
fn from_rows_matches_source_data_and_zero_pads_short_rows() {
    let rows = vec![vec![f(1.0), f(2.0), f(3.0)], vec![f(4.0), f(5.0)]];
    assert_eq!(widest(&rows), 3);
    let grid = MmapGrid::from_rows(map::<F64>(2, 3), &rows).unwrap();
    assert_eq!(grid.len(), 2);
    assert_eq!(grid.cols(), 3);
    assert_eq!(numbers(&grid.row(0)), &[1.0, 2.0, 3.0]);
    assert_eq!(numbers(&grid.row(1)), &[4.0, 5.0, 0.0]);
}

#[test]
fn preserves_nan_and_infinity_sentinels() {
    let mut grid = grid::<F32>(1, 3);
    grid.set(0, 0, f4(f32::NAN));
    grid.set(0, 1, f4(f32::INFINITY));
    grid.set(0, 2, f4(f32::NEG_INFINITY));
    assert!(n4(grid.get(0, 0)).is_nan());
    assert_eq!(n4(grid.get(0, 1)), f32::INFINITY);
    assert_eq!(n4(grid.get(0, 2)), f32::NEG_INFINITY);
}

#[test]
fn f64_grid_round_trips_exactly() {
    let mut grid = grid::<F64>(4, 4);
    for y in 0..4 {
        for x in 0..4 {
            grid.set(y, x, f((y * 4 + x) as f64 * std::f64::consts::PI));
        }
    }
    for y in 0..4 {
        for x in 0..4 {
            assert_eq!(n(grid.get(y, x)), (y * 4 + x) as f64 * std::f64::consts::PI);
        }
    }
}

#[test]
fn par_iter_visits_every_row_exactly_once_in_order() {
    let mut grid = grid::<F64>(50, 3);
    for y in 0..50 {
        grid.set_row(y, &vec![f(y as f64), f(y as f64 + 1.0), f(y as f64 + 2.0)]);
    }
    let collected: Vec<Vec<f64>> = grid.par_iter().iter().map(|row| numbers(row)).collect();
    assert_eq!(collected.len(), 50);
    for (y, row) in collected.iter().enumerate() {
        assert_eq!(row, &[y as f64, y as f64 + 1.0, y as f64 + 2.0]);
    }
}

#[test]
fn par_iter_mut_writes_are_visible_sequentially_after() {
    let mut grid = grid::<F64>(200, 4);
    grid.par_iter_mut(|y, row| {
        let mut row = row;
        for (x, v) in row.iter_mut().enumerate() {
            *v = f((y * 4 + x) as f64);
        }
        row
    });
    for y in 0..200 {
        for x in 0..4 {
            assert_eq!(n(grid.get(y, x)), (y * 4 + x) as f64);
        }
    }
}

#[test]
fn clone_from_refreshes_in_place_without_reallocating() {
    let mut a = grid::<F64>(3, 3);
    let mut b = grid::<F64>(3, 3);
    a.set(1, 1, f(42.0));
    b.clone_from(&a);
    assert_eq!(n(b.get(1, 1)), 42.0);
    a.set(1, 1, f(7.0));
    // `b` must not alias `a`'s storage: a real copy, not a shared mapping.
    assert_eq!(n(b.get(1, 1)), 42.0);
}

#[test]
fn is_send_and_sync() {
    fn assert_send_sync<T: Send + Sync>() {}
    assert_send_sync::<MmapGrid<F32>>();
    assert_send_sync::<MmapGrid<F64>>();
}

#[test]
fn transpose_matches_naive_transpose_for_a_rectangular_grid() {
    let rows = 7;
    let cols = 5;
    let mut grid = grid::<F64>(rows, cols);
    for y in 0..rows {
        for x in 0..cols {
            grid.set(y, x, f((y * cols + x) as f64));
        }
    }
    let t = transposed(&grid);
    assert_eq!(t.len(), cols);
    assert_eq!(t.cols(), rows);
    for y in 0..rows {
        for x in 0..cols {
            assert_eq!(n(t.get(x, y)), n(grid.get(y, x)), "mismatch at ({x},{y})");
        }
    }
}

#[test]
fn transpose_is_its_own_inverse() {
    let mut grid = grid::<F64>(1300, 900);
    for y in 0..grid.len() {
        for x in 0..grid.cols() {
            grid.set(y, x, f((y as f64 * 31.0 + x as f64 * 7.0).sin()));
        }
    }
    let round_tripped = transposed(&transposed(&grid));
    assert!(round_tripped == grid);
}

#[test]
fn a_mapping_of_another_length_is_refused() {
    assert_eq!(MmapGrid::<F64>::byte_len(3, 5), Some(120));
    assert_eq!(MmapGrid::<F32>::byte_len(3, 5), Some(60));
    assert_eq!(MmapGrid::<F64>::byte_len(0, 5), Some(1));
    assert_eq!(MmapGrid::<F64>::byte_len(usize::MAX, 2), None);
    assert_eq!(MmapGrid::<F64>::byte_len(usize::MAX / 4, 1), None);
    assert!(MmapGrid::<F64>::new(map::<F64>(3, 5), 3, 4).is_err());
    assert!(MmapGrid::<F32>::new(map::<F64>(3, 5), 3, 5).is_err());
    let g = grid::<F64>(2, 2);
    assert!(g.clone_into(map::<F64>(2, 3)).is_err());
    assert!(g.transpose(map::<F64>(2, 3)).is_err());
    assert!(MmapGrid::from_rows(map::<F64>(1, 1), &vec![vec![f(1.0), f(2.0)]]).is_err());
}

#[test]
fn grids_without_cells_have_their_shape() {
    let g = grid::<F64>(0, 5);
    assert!(g.is_empty() && g.len() == 0 && g.cols() == 5);
    assert!(g.first().is_none());
    assert!(g.iter().next().is_none());
    let t = transposed(&g);
    assert!(!t.is_empty() && t.len() == 5 && t.cols() == 0);
    assert_eq!(t.first().unwrap().len(), 0);
    let rows = t.par_iter();
    assert!(rows.len() == 5 && rows.iter().all(|r| r.is_empty()));
    assert_eq!(t.as_flat_slice().len(), 0);
    assert!(transposed(&t) == g);
    assert!(!(t == g));
}

#[test]
fn every_row_is_visited_in_its_place_across_batches() {
    for rows in [63, 64, 65, 130] {
        let mut g = grid::<F64>(rows, 3);
        g.par_iter_mut(|y, row| {
            let mut row = row;
            for (x, c) in row.iter_mut().enumerate() {
                *c = f((y * 3 + x) as f64);
            }
            row
        });
        let read = g.par_iter();
        assert_eq!(read.len(), rows);
        for (y, row) in read.iter().enumerate() {
            let first = (y * 3) as f64;
            assert_eq!(numbers(row), &[first, first + 1.0, first + 2.0]);
        }
    }
    let mut empty = grid::<F64>(70, 0);
    empty.par_iter_mut(|_, row| row);
    assert_eq!(empty.par_iter().len(), 70);
}

#[test]
fn rows_are_worked_on_in_parallel_and_given_in_order() {
    let mut g = grid::<F64>(130, 2);
    for y in 0..130 {
        g.set_row(y, &vec![f(y as f64), f(0.5)]);
    }
    let sums = g.par_map(|y, row| (y, row.iter().map(|c| n(*c)).sum::<f64>()));
    let expected: Vec<(usize, f64)> = (0..130).map(|y| (y, y as f64 + 0.5)).collect();
    assert_eq!(sums, expected);
    assert_eq!(grid::<F64>(3, 0).par_map(|y, row| (y, row.len())), vec![(0, 0), (1, 0), (2, 0)]);
    assert!(grid::<F64>(0, 3).par_map(|y, _| y).is_empty());
}

#[test]
fn a_copy_equals_its_source_and_goes_its_own_way() {
    let mut a = grid::<F64>(2, 3);
    a.set_row(1, &vec![f(1.0), f(-0.0), f(3.0)]);
    let b = a.clone_into(map::<F64>(2, 3)).unwrap();
    assert!(a == b);
    a.set(0, 0, f(9.0));
    assert!(!(a == b));
    assert_eq!(numbers(&b.as_flat_slice()), &[0.0, 0.0, 0.0, 1.0, 0.0, 3.0]);
    assert_eq!(b.get(1, 1).to_bits(), (-0.0f64).to_bits());
}

#[test]
fn zeros_are_equal_and_nans_are_not() {
    let mut a = grid::<F32>(1, 1);
    let mut b = grid::<F32>(1, 1);
    a.set(0, 0, f4(-0.0));
    assert!(a == b);
    a.set(0, 0, f4(f32::NAN));
    b.set(0, 0, f4(f32::NAN));
    assert!(!(a == b));
}

#[test]
fn all_elements_can_be_replaced_at_once() {
    let mut g = grid::<F64>(2, 2);
    g.as_flat_mut_slice(|cells| {
        let mut cells = cells;
        for (i, c) in cells.iter_mut().enumerate() {
            *c = f(i as f64);
        }
        cells
    });
    assert_eq!(numbers(&g.row(0)), &[0.0, 1.0]);
    assert_eq!(numbers(&g.row(1)), &[2.0, 3.0]);
    assert_eq!(numbers(&g.first().unwrap()), &[0.0, 1.0]);
}

#[test]
fn a_mappings_bytes_are_the_elements() {
    let mut m = map::<F64>(1, 2);
    m[..8].copy_from_slice(&1.25f64.to_bits().to_le_bytes());
    m[8..].copy_from_slice(&(-7.0f64).to_bits().to_le_bytes());
    let g = MmapGrid::<F64>::new(m, 1, 2).unwrap();
    assert_eq!(numbers(&g.row(0)), &[1.25, -7.0]);
}
