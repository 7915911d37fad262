use rust_fm::alphabet::{AlphabetIndex, AlphabetString, DNAAlphabet};
use rust_fm::bitvector::{Bitvec, OccurenceTable};

const BITVEC_SIZE: usize = 10_000;

const BWT: &str = "GCACAATATGAACGGATCTAG";
const BWT_INDEX_VEC: [AlphabetIndex; 21] = [
    2, 1, 0, 1, 0, 0, 3, 0, 3, 2, 0, 0, 1, 2, 2, 0, 3, 1, 3, 0, 2,
];
const SENTINEL_POS: usize = 2;

fn bwt_string() -> AlphabetString<DNAAlphabet> {
    AlphabetString::<DNAAlphabet>::from_chars(&BWT.bytes().collect())
}

#[test]
fn test_index_operator_empty() {
    let bitvector = Bitvec::new(BITVEC_SIZE);

    for i in 0..BITVEC_SIZE {
        assert_eq!(bitvector.get(i), false);
    }
}

#[test]
fn test_index_operator_full() {
    let mut bitvector = Bitvec::new(BITVEC_SIZE);

    for i in 0..BITVEC_SIZE {
        bitvector.set(i, true);
    }

    for i in 0..BITVEC_SIZE {
        assert_eq!(bitvector.get(i), true);
    }
}

#[test]
fn test_index_function() {
    let mut bitvector = Bitvec::new(BITVEC_SIZE);

    for i in 0..1024 {
        bitvector.set(i, true);
    }

    bitvector.calculate_counts();

    for i in 0..1025 {
        assert_eq!(bitvector.rank(i), i);
    }

    for i in 1025..BITVEC_SIZE {
        assert_eq!(bitvector.rank(i), 1024);
    }
}

#[test]
fn test_rank_full_length_counts_all_set_bits() {
    let mut bitvector = Bitvec::new(777);
    let mut expected = 0;
    for i in 0..777 {
        if i % 3 == 0 || i % 7 == 0 {
            bitvector.set(i, true);
            expected += 1;
        }
    }
    bitvector.calculate_counts();
    assert_eq!(bitvector.rank(777), expected);
}

#[test]
fn test_calculate_counts_idempotent() {
    let mut bitvector = Bitvec::new(2048);
    for i in (0..2048).step_by(5) {
        bitvector.set(i, true);
    }
    bitvector.calculate_counts();
    let ranks: Vec<usize> = (0..=2048).map(|i| bitvector.rank(i)).collect();
    bitvector.calculate_counts();
    let ranks_again: Vec<usize> = (0..=2048).map(|i| bitvector.rank(i)).collect();
    assert_eq!(ranks, ranks_again);
}

#[test]
fn bitvector_test_initialize_occurence_table() {
    let occurence_table = OccurenceTable::from_bwt(&bwt_string(), SENTINEL_POS);

    let mut result = vec![Bitvec::new(21); 4];
    for i in 0..BWT_INDEX_VEC.len() {
        if i == SENTINEL_POS {
            continue;
        }

        for j in BWT_INDEX_VEC[i] as usize..4 {
            result[j].set(i, true);
        }
    }

    assert_eq!(occurence_table.table, result);
}

#[test]
fn bitvector_test_occ() {
    let occurence_table = OccurenceTable::from_bwt(&bwt_string(), SENTINEL_POS);

    let occ_results: Vec<Vec<usize>> = vec![
        vec![0, 0, 0, 0, 0, 1, 2, 2, 3, 3, 3, 4, 5, 5, 5, 5, 6, 6, 6, 6, 7],
        vec![0, 0, 1, 1, 2, 2, 2, 2, 2, 2, 2, 2, 2, 3, 3, 3, 3, 3, 4, 4, 4],
        vec![0, 1, 1, 1, 1, 1, 1, 1, 1, 1, 2, 2, 2, 2, 3, 4, 4, 4, 4, 4, 4],
        vec![0, 0, 0, 0, 0, 0, 0, 1, 1, 2, 2, 2, 2, 2, 2, 2, 2, 3, 3, 4, 4],
    ];

    for i in 0..BWT_INDEX_VEC.len() {
        for j in 0..4 {
            assert_eq!(occurence_table.occ(j, i), occ_results[j][i]);
        }
    }
}

#[test]
fn test_cumulative_occ() {
    let occurence_table = OccurenceTable::from_bwt(&bwt_string(), SENTINEL_POS);

    let occ_results: Vec<Vec<usize>> = vec![
        vec![0, 0, 0, 1, 1, 1, 1, 1, 1, 1, 1, 1, 1, 1, 1, 1, 1, 1, 1, 1, 1],
        vec![0, 0, 0, 1, 1, 2, 3, 3, 4, 4, 4, 5, 6, 6, 6, 6, 7, 7, 7, 7, 8],
        vec![0, 0, 1, 2, 3, 4, 5, 5, 6, 6, 6, 7, 8, 9, 9, 9, 10, 10, 11, 11, 12],
        vec![
            0, 1, 2, 3, 4, 5, 6, 6, 7, 7, 8, 9, 10, 11, 12, 13, 14, 14, 15, 15, 16,
        ],
    ];

    for i in 0..BWT_INDEX_VEC.len() {
        for j in 0..4 {
            assert_eq!(occurence_table.cumulative_occ(j, i), occ_results[j][i]);
        }
    }
}
