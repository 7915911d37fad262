use rust_fm::alphabet::{AlphabetChar, AlphabetPattern, AlphabetString, DNAAlphabet, Direction};
use rust_fm::errors::Error;
use rust_fm::fm_index::FMIndex;
use suffix_array::SuffixArray;

const INPUT: &str = "AACTAGGGCAATGTTCAACG";
const BWT: &str = "GCACAATATGAACGGATCTAG";

const INPUT_VEC: [AlphabetChar; 20] = [
    b'A', b'A', b'C', b'T', b'A', b'G', b'G', b'G', b'C', b'A', b'A', b'T', b'G', b'T', b'T',
    b'C', b'A', b'A', b'C', b'G',
];

const BWT_VEC: [AlphabetChar; 21] = [
    b'G', b'C', b'A', b'C', b'A', b'A', b'T', b'A', b'T', b'G', b'A', b'A', b'C', b'G', b'G',
    b'A', b'T', b'C', b'T', b'A', b'G',
];
const BWT_DOLLAR_POS: usize = 2;

fn input_string() -> AlphabetString<DNAAlphabet> {
    AlphabetString::<DNAAlphabet>::from_chars(&INPUT.bytes().collect())
}

fn pattern(p: &str) -> AlphabetPattern<DNAAlphabet> {
    AlphabetPattern::<DNAAlphabet>::new(&p.bytes().collect(), Direction::FORWARD)
}

#[test]
fn test_bwt_from_sa() {
    let translated_input_vec = input_string();
    let translated_bwt_vec =
        AlphabetString::<DNAAlphabet>::from_chars(&BWT.bytes().collect());

    let suffix_array = SuffixArray::new(&INPUT_VEC).into_parts().1;

    let mut bwt = AlphabetString::<DNAAlphabet>::new(21);
    FMIndex::<DNAAlphabet>::bwt_from_sa(&mut bwt, &suffix_array, &translated_input_vec);

    assert_eq!(
        bwt.bytes[0..BWT_DOLLAR_POS],
        translated_bwt_vec.bytes[0..BWT_DOLLAR_POS]
    );
    assert_eq!(
        bwt.bytes[BWT_DOLLAR_POS + 1..21],
        translated_bwt_vec.bytes[BWT_DOLLAR_POS + 1..21]
    );
}

#[test]
fn fm_index_test_initialize_counts() {
    let translated_bwt_vec =
        AlphabetString::<DNAAlphabet>::from_chars(&BWT.bytes().collect());

    let mut counts = vec![0; 4];
    FMIndex::<DNAAlphabet>::initialize_counts(&mut counts, &translated_bwt_vec, BWT_DOLLAR_POS);

    let counts_results: [usize; 4] = [1, 8, 12, 17];

    assert_eq!(counts, counts_results);
}

#[test]
fn fm_index_test_occ() {
    let fm_index = FMIndex::new(input_string(), 1);

    let occ_results: Vec<Vec<usize>> = vec![
        vec![0, 0, 0, 0, 0, 1, 2, 2, 3, 3, 3, 4, 5, 5, 5, 5, 6, 6, 6, 6, 7],
        vec![0, 0, 1, 1, 2, 2, 2, 2, 2, 2, 2, 2, 2, 3, 3, 3, 3, 3, 4, 4, 4],
        vec![0, 1, 1, 1, 1, 1, 1, 1, 1, 1, 2, 2, 2, 2, 3, 4, 4, 4, 4, 4, 4],
        vec![0, 0, 0, 0, 0, 0, 0, 1, 1, 2, 2, 2, 2, 2, 2, 2, 2, 3, 3, 4, 4],
    ];

    for i in 0..BWT_VEC.len() {
        for j in 0..4 {
            assert_eq!(fm_index.occ(j, i), occ_results[j][i]);
        }
    }
}

#[test]
fn test_find_lf() {
    let fm_index = FMIndex::new(input_string(), 1);

    let lf_results: Vec<usize> = vec![
        12, 8, 0, 9, 1, 2, 17, 3, 18, 13, 4, 5, 10, 14, 15, 6, 19, 11, 20, 7, 16,
    ];

    for i in 0..BWT_VEC.len() {
        assert_eq!(fm_index.find_lf(i), lf_results[i]);
    }
}

#[test]
fn test_find_sa() {
    let fm_index = FMIndex::new(input_string(), 3);

    let sa_results: Vec<u32> = vec![
        20, 16, 0, 9, 17, 1, 4, 10, 15, 8, 18, 2, 19, 7, 6, 5, 12, 3, 14, 11, 13,
    ];

    for i in 0..BWT_VEC.len() {
        assert_eq!(fm_index.find_sa(i), sa_results[i]);
    }
}

#[test]
fn test_locate_agrees_across_sparsity_factors() {
    let dense = FMIndex::new(input_string(), 1);
    let sparse = FMIndex::new(input_string(), 3);

    for i in 0..21 {
        assert_eq!(dense.find_sa(i), sparse.find_sa(i));
    }
}

#[test]
fn test_exact_match() {
    let fm_index = FMIndex::new(input_string(), 3);

    // Define all test cases
    let exact_match_single = vec!["A", "C", "G", "T"];
    let exact_match_double = vec!["AA", "AC", "AG", "AT"];
    let mut exact_match_start = pattern("AACT");
    let mut exact_match_end = pattern("AACG");
    let mut exact_match_not = pattern("CCC");

    // Define all test results
    let exact_match_single_results: Vec<Vec<u32>> = vec![
        vec![0, 1, 4, 9, 10, 16, 17],
        vec![2, 8, 15, 18],
        vec![5, 6, 7, 12, 19],
        vec![3, 11, 13, 14],
    ];
    let exact_match_double_results: Vec<Vec<u32>> =
        vec![vec![0, 9, 16], vec![1, 17], vec![4], vec![10]];
    let exact_match_start_results: Vec<u32> = vec![0];
    let exact_match_end_results: Vec<u32> = vec![16];
    let exact_match_not_results: Vec<u32> = vec![];

    for i in 0..exact_match_single.len() {
        let mut p = pattern(exact_match_single[i]);
        let mut result = fm_index.exact_match(&mut p);
        result.sort();

        assert_eq!(result, exact_match_single_results[i]);
    }

    for i in 0..exact_match_double.len() {
        let mut p = pattern(exact_match_double[i]);
        let mut result = fm_index.exact_match(&mut p);
        result.sort();

        assert_eq!(result, exact_match_double_results[i]);
    }

    assert_eq!(
        fm_index.exact_match(&mut exact_match_start),
        exact_match_start_results
    );
    assert_eq!(
        fm_index.exact_match(&mut exact_match_end),
        exact_match_end_results
    );
    assert_eq!(
        fm_index.exact_match(&mut exact_match_not),
        exact_match_not_results
    );
}

#[test]
fn test_approximate_match_finds_exact_and_near_occurrences() {
    let fm_index = FMIndex::new(input_string(), 1);

    // "AACT" occurs exactly at position 0; with one substitution it also
    // matches elsewhere.  Every reported node must locate to a position,
    // and the exact occurrence must be among the located positions of
    // some reported node.
    let mut p = pattern("AACT");
    let occurences = fm_index.approximate_match(&mut p, 1);
    assert!(!occurences.is_empty());

    let mut located: Vec<u32> = Vec::new();
    for o in &occurences {
        for row in o.range().start..o.range().end {
            located.push(fm_index.find_sa(row));
        }
    }
    assert!(located.contains(&0));
}

#[test]
fn test_approximate_match_reports_within_budget_only() {
    let fm_index = FMIndex::new(input_string(), 1);

    // "ACTG" does not occur exactly, but dropping its final symbol
    // leaves "ACT" at position 1, so with one edit allowed the search
    // must report something; with no edits allowed it must not.
    let mut near = pattern("ACTG");
    assert!(!fm_index.approximate_match(&mut near, 1).is_empty());

    let mut near_strict = pattern("ACTG");
    assert!(fm_index.approximate_match(&mut near_strict, 0).is_empty());

    // With no edits allowed, an exactly occurring pattern is reported.
    let mut exact = pattern("AACT");
    assert!(!fm_index.approximate_match(&mut exact, 0).is_empty());
}

#[test]
fn test_try_new_reports_empty_text_and_zero_factor() {
    let empty = AlphabetString::<DNAAlphabet>::from_chars(&Vec::new());
    match FMIndex::try_new(empty, 1) {
        Err(e) => assert_eq!(e, Error::EmptyText),
        Ok(_) => panic!("an empty text was accepted"),
    }

    match FMIndex::try_new(input_string(), 0) {
        Err(e) => assert_eq!(e, Error::InvalidSparsityFactor),
        Ok(_) => panic!("a zero sparsity factor was accepted"),
    }

    assert!(FMIndex::try_new(input_string(), 2).is_ok());
}
