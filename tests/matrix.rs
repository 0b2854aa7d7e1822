use fixedbitset::FixedBitSet;
use triangular_adjacency::{get_index_from_row_column, EdgesIterator, StrictlyUpperTriangularMatrix};

#[test]
fn positive_test_3x3_matrix() {
    let mut matrix = StrictlyUpperTriangularMatrix::zeroed(3);
    assert_eq!(matrix.get(0, 1), false);
    let ones: Vec<(usize, usize)> = matrix.iter_ones().collect();
    assert_eq!(ones, vec![]);

    matrix.set(0, 1, true);
    let ones: Vec<(usize, usize)> = matrix.iter_ones().collect();
    assert_eq!(ones, vec![(0, 1)]);
}

#[test]
fn scenario_3x3_neighbours() {
    let mut matrix = StrictlyUpperTriangularMatrix::zeroed(3);
    assert!(!matrix.get(0, 1));
    assert_eq!(matrix.iter_ones().collect(), vec![]);
    matrix.set(0, 1, true);
    assert!(matrix.get(0, 1));
    assert_eq!(matrix.iter_ones().collect(), vec![(0, 1)]);
    assert_eq!(matrix.iter_neighbours(0).collect(), vec![1]);
    assert_eq!(matrix.iter_neighbours(1).collect(), vec![]);
}

#[test]
fn zeroed_has_no_entries() {
    let size = 6;
    let matrix = StrictlyUpperTriangularMatrix::zeroed(size);
    assert_eq!(matrix.size(), size);
    for i in 0..size {
        for j in (i + 1)..size {
            assert!(!matrix.get(i, j));
        }
        assert_eq!(matrix.iter_neighbours(i).collect(), vec![]);
    }
    assert_eq!(matrix.iter_ones().collect(), vec![]);
}

#[test]
fn zeroed_small_sizes() {
    let empty = StrictlyUpperTriangularMatrix::zeroed(0);
    assert_eq!(empty.size(), 0);
    assert_eq!(empty.iter_ones().collect(), vec![]);
    let single = StrictlyUpperTriangularMatrix::zeroed(1);
    assert_eq!(single.size(), 1);
    assert_eq!(single.iter_ones().collect(), vec![]);
    assert_eq!(single.iter_neighbours(0).collect(), vec![]);
}

#[test]
fn set_then_get() {
    let mut matrix = StrictlyUpperTriangularMatrix::zeroed(4);
    matrix.set(1, 3, true);
    assert!(matrix.get(1, 3));
    assert!(!matrix.get(0, 3));
    assert!(!matrix.get(1, 2));
    assert!(!matrix.get(2, 3));
    matrix.set(1, 3, false);
    assert!(!matrix.get(1, 3));
}

#[test]
fn set_returns_previous_value() {
    let mut matrix = StrictlyUpperTriangularMatrix::zeroed(4);
    assert_eq!(matrix.set(0, 2, true), false);
    assert_eq!(matrix.set(0, 2, true), true);
    assert_eq!(matrix.set(0, 2, false), true);
    assert_eq!(matrix.set(0, 2, false), false);
}

#[test]
fn iter_ones_visits_every_row_in_order() {
    let mut matrix = StrictlyUpperTriangularMatrix::zeroed(5);
    matrix.set(3, 4, true);
    matrix.set(0, 4, true);
    matrix.set(1, 2, true);
    matrix.set(0, 1, true);
    matrix.set(2, 4, true);
    assert_eq!(
        matrix.iter_ones().collect(),
        vec![(0, 1), (0, 4), (1, 2), (2, 4), (3, 4)]
    );
}

#[test]
fn iter_ones_step_by_step() {
    let mut matrix = StrictlyUpperTriangularMatrix::zeroed(3);
    matrix.set(1, 2, true);
    matrix.set(0, 2, true);
    let mut it = matrix.iter_ones();
    assert_eq!(it.next(), Some((0, 2)));
    assert_eq!(it.next(), Some((1, 2)));
    assert_eq!(it.next(), None);
    assert_eq!(it.next(), None);
}

#[test]
fn iter_ones_full_matrix() {
    let size = 4;
    let mut matrix = StrictlyUpperTriangularMatrix::zeroed(size);
    let mut expected = Vec::new();
    for i in 0..size {
        for j in (i + 1)..size {
            matrix.set(i, j, true);
            expected.push((i, j));
        }
    }
    assert_eq!(matrix.iter_ones().collect(), expected);
}

#[test]
fn edges_iterator_over_bit_set() {
    let mut bits = FixedBitSet::with_capacity(9);
    bits.set(3 * 0 + 2, true);
    bits.set(3 * 1 + 2, true);
    bits.set(3 * 2 + 1, true);
    assert_eq!(EdgesIterator::new(3, &bits).collect(), vec![(0, 2), (1, 2)]);
}

#[test]
fn iter_neighbours_forward_only() {
    let mut matrix = StrictlyUpperTriangularMatrix::zeroed(6);
    matrix.set(0, 2, true);
    matrix.set(2, 5, true);
    matrix.set(2, 3, true);
    matrix.set(1, 2, true);
    assert_eq!(matrix.iter_neighbours(2).collect(), vec![3, 5]);
    assert_eq!(matrix.iter_neighbours(0).collect(), vec![2]);
    assert_eq!(matrix.iter_neighbours(5).collect(), vec![]);
    let mut it = matrix.iter_neighbours(2);
    assert_eq!(it.next(), Some(3));
    assert_eq!(it.next(), Some(5));
    assert_eq!(it.next(), None);
    assert_eq!(it.next(), None);
}

#[test]
fn from_ones_matches_sequential_sets() {
    let ones = [(2, 3), (0, 1), (2, 3), (0, 3)];
    let built = StrictlyUpperTriangularMatrix::from_ones(4, &ones);
    let mut stepped = StrictlyUpperTriangularMatrix::zeroed(4);
    for &(i, j) in ones.iter() {
        stepped.set(i, j, true);
    }
    assert_eq!(built.size(), 4);
    for i in 0..4 {
        for j in (i + 1)..4 {
            assert_eq!(built.get(i, j), stepped.get(i, j));
        }
    }
    assert_eq!(built.iter_ones().collect(), vec![(0, 1), (0, 3), (2, 3)]);
}

#[test]
fn from_ones_empty_list() {
    let built = StrictlyUpperTriangularMatrix::from_ones(3, &[]);
    assert_eq!(built.iter_ones().collect(), vec![]);
}

#[test]
fn index_is_row_major() {
    assert_eq!(get_index_from_row_column(0, 1, 3), 1);
    assert_eq!(get_index_from_row_column(1, 2, 3), 5);
    assert_eq!(get_index_from_row_column(2, 4, 5), 14);
}

#[test]
fn clone_keeps_entries() {
    let mut matrix = StrictlyUpperTriangularMatrix::zeroed(3);
    matrix.set(0, 2, true);
    let copy = matrix.clone();
    matrix.set(0, 2, false);
    assert!(copy.get(0, 2));
    assert!(!matrix.get(0, 2));
}
