use rust_fm::suffix_array::SparseSuffixArray;
use suffix_array::SuffixArray;

const INPUT: &[u8] = b"AACTAGGGCAATGTTCAACG";

#[test]
fn test_sparse_suffix_array_stores_multiples_of_factor() {
    let sa = SuffixArray::new(INPUT).into_parts().1;

    let sparse = SparseSuffixArray::from_sa(&sa, 3);

    let mut stored_cursor = 0;
    for i in 0..sa.len() {
        let expected_present = sa[i] % 3 == 0;
        assert_eq!(sparse.contains(i as u32), expected_present);
        if expected_present {
            // The entry is recovered through rank over the presence
            // bitvector.
            assert_eq!(sparse.sparse_sa[stored_cursor], sa[i]);
            stored_cursor += 1;
        }
    }
    assert_eq!(sparse.sparse_sa.len(), stored_cursor);
}

#[test]
fn test_sparse_suffix_array_factor_one_keeps_everything() {
    let sa = SuffixArray::new(INPUT).into_parts().1;

    let sparse = SparseSuffixArray::from_sa(&sa, 1);

    assert_eq!(sparse.sparse_sa, sa);
    for i in 0..sa.len() {
        assert!(sparse.contains(i as u32));
    }
}
