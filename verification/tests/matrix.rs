use rust_fm::alphabet::{AlphabetPattern, DNAAlphabet, Direction};
use rust_fm::matrix::BandedMatrix;

#[test]
fn test_new() {
    let banded_matrix = BandedMatrix::new(6, 1);

    let result = vec![
        0, 0, 1, 0, 0, 1, 0, 0, 2, 2, 0, 0, 0, 2, 2, 0, 0, 0, 2, 2, 0, 0, 0, 2, 2, 0, 0, 0, 0,
        2, 0, 0, 0, 0, 2, 0, 0, 0, 0, 0,
    ];

    let flat: Vec<usize> = (0..banded_matrix.flat_len())
        .map(|q| banded_matrix.flat_at(q))
        .collect();
    assert_eq!(flat, result);

    let (n, m, b, columns_per_row) = banded_matrix.dimensions();
    assert_eq!(n, 8);
    assert_eq!(m, 7);
    assert_eq!(b, 1);
    assert_eq!(columns_per_row, 5);
}

#[test]
fn test_first_column() {
    let banded_matrix = BandedMatrix::new(6, 1);

    let column_results = vec![(1, 0), (1, 0), (2, 0), (3, 0), (4, 0), (5, 0), (6, 0)];

    let (n, _, _, _) = banded_matrix.dimensions();
    for i in 1..n {
        assert_eq!(banded_matrix.first_column(i), column_results[i - 1].0);
        assert_eq!(
            banded_matrix.cell_value(i, banded_matrix.first_column(i)),
            column_results[i - 1].1
        );
    }
}

#[test]
fn test_last_column() {
    let banded_matrix = BandedMatrix::new(6, 1);

    let column_results = vec![(2, 0), (3, 0), (4, 0), (5, 0), (6, 0), (6, 0), (6, 0)];

    let (n, _, _, _) = banded_matrix.dimensions();
    for i in 1..n {
        assert_eq!(banded_matrix.last_column(i), column_results[i - 1].0);
        assert_eq!(
            banded_matrix.cell_value(i, banded_matrix.last_column(i)),
            column_results[i - 1].1
        );
    }
}

#[test]
fn test_update_cell_match() {
    let mut banded_matrix = BandedMatrix::new(6, 1);

    assert_eq!(banded_matrix.cell_value(1, 1), 0);

    banded_matrix.update_cell(false, 1, 1);

    assert_eq!(banded_matrix.cell_value(1, 1), 0);
}

#[test]
fn test_update_cell_mismatch() {
    let mut banded_matrix = BandedMatrix::new(6, 1);

    assert_eq!(banded_matrix.cell_value(1, 1), 0);

    banded_matrix.update_cell(true, 1, 1);

    assert_eq!(banded_matrix.cell_value(1, 1), 1);
}

#[test]
fn test_update_row() {
    let mut banded_matrix = BandedMatrix::new(6, 1);

    let pattern =
        AlphabetPattern::<DNAAlphabet>::new(&"ACAAGT".bytes().collect(), Direction::FORWARD);

    assert_eq!(banded_matrix.cell_value(1, 1), 0);
    assert_eq!(banded_matrix.cell_value(1, 2), 0);

    let min_edit_distance = banded_matrix.update_row(&pattern, 1, 0);

    assert_eq!(banded_matrix.cell_value(1, 1), 0);
    assert_eq!(banded_matrix.cell_value(1, 2), 1);
    assert_eq!(min_edit_distance, 0);
}

#[test]
fn test_in_final_column() {
    let banded_matrix = BandedMatrix::new(6, 1);

    let in_final_column_results = vec![false, false, false, false, false, true, true, true];

    let (_, m, _, _) = banded_matrix.dimensions();
    for i in 0..m {
        assert_eq!(banded_matrix.in_final_column(i), in_final_column_results[i]);
    }
}

#[test]
fn test_final_column() {
    let mut banded_matrix = BandedMatrix::new(6, 1);

    for i in 5..=7 {
        assert_eq!(banded_matrix.final_column(i), 0);

        banded_matrix.set_cell(i, 6, 1);

        assert_eq!(banded_matrix.final_column(i), 1);
    }
}
