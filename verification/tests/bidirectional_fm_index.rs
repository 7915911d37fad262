use rust_fm::alphabet::{AlphabetPattern, AlphabetString, DNAAlphabet, Direction};
use rust_fm::bidirectional_fm_index::BidirectionalFMIndex;
use rust_fm::errors::Error;
use rust_fm::range::RangePair;
use suffix_array::SuffixArray;

const INPUT: &str = "AACTAGGGCAATGTTCAACG";
//                 $AAAAAAACCCCGGGGGTTTT
const BWT: &str = "GCACAATATGAACGGATCTAG";
const BWT_SENTINEL: usize = 2;

const INPUT_REV: &str = "GCAACTTGTAACGGGATCAA";
//                     $AAAAAAACCCCGGGGGTTTT
const BWT_REV: &str = "AACTCAAGTGAAGAGCTGATC";
const BWT_REV_SENTINEL: usize = 13;

fn string(s: &str) -> AlphabetString<DNAAlphabet> {
    AlphabetString::<DNAAlphabet>::from_chars(&s.bytes().collect())
}

fn pattern(p: &str, d: Direction) -> AlphabetPattern<DNAAlphabet> {
    AlphabetPattern::<DNAAlphabet>::new(&p.bytes().collect(), d)
}

#[test]
fn test_forward_bwt_from_sa() {
    let input = string(INPUT);

    let suffix_array = SuffixArray::new(INPUT.as_bytes()).into_parts().1;

    let bwt_result = string(BWT);

    let mut bwt = AlphabetString::<DNAAlphabet>::new(21);
    BidirectionalFMIndex::<DNAAlphabet>::forward_bwt_from_sa(&mut bwt, &suffix_array, &input);

    assert_eq!(bwt.bytes[0..BWT_SENTINEL], bwt_result.bytes[0..BWT_SENTINEL]);
    assert_eq!(
        bwt.bytes[BWT_SENTINEL + 1..21],
        bwt_result.bytes[BWT_SENTINEL + 1..21]
    );
}

#[test]
fn test_backward_bwt_from_sa() {
    let input = string(INPUT);

    let suffix_array = SuffixArray::new(INPUT_REV.as_bytes()).into_parts().1;

    let bwt_result = string(BWT_REV);

    let mut bwt = AlphabetString::<DNAAlphabet>::new(21);
    BidirectionalFMIndex::<DNAAlphabet>::backward_bwt_from_sa(&mut bwt, &suffix_array, &input);

    assert_eq!(
        bwt.bytes[0..BWT_REV_SENTINEL],
        bwt_result.bytes[0..BWT_REV_SENTINEL]
    );
    assert_eq!(
        bwt.bytes[BWT_REV_SENTINEL + 1..21],
        bwt_result.bytes[BWT_REV_SENTINEL + 1..21]
    );
}

#[test]
fn bidirectional_fm_index_test_initialize_counts() {
    let bwt = string(BWT);

    let mut counts = vec![0; 4];
    BidirectionalFMIndex::<DNAAlphabet>::initialize_counts(&mut counts, &bwt, BWT_SENTINEL);

    let counts_results: [usize; 4] = [1, 8, 12, 17];

    assert_eq!(counts, counts_results);
}

#[test]
fn test_add_char_left() {
    let index = BidirectionalFMIndex::<DNAAlphabet>::new(string(INPUT), 1);

    let mut range_pair = RangePair::from((0, 21, 0, 21));

    assert_eq!(
        index.add_char_left(1, &range_pair.clone(), &mut range_pair),
        true
    );
    assert_eq!(range_pair, RangePair::from((8, 12, 8, 12)));

    assert_eq!(
        index.add_char_left(2, &range_pair.clone(), &mut range_pair),
        true
    );
    assert_eq!(range_pair, RangePair::from((13, 14, 10, 11)));

    assert_eq!(
        index.add_char_left(2, &range_pair.clone(), &mut range_pair),
        true
    );
    assert_eq!(range_pair, RangePair::from((14, 15, 10, 11)));

    assert_eq!(
        index.add_char_left(3, &range_pair.clone(), &mut range_pair),
        false
    );
    assert_eq!(range_pair, RangePair::from((19, 19, 11, 11)));
}

#[test]
fn test_add_char_right() {
    let index = BidirectionalFMIndex::<DNAAlphabet>::new(string(INPUT), 1);

    let mut range_pair = RangePair::from((0, 21, 0, 21));

    assert_eq!(
        index.add_char_right(1, &range_pair.clone(), &mut range_pair),
        true
    );
    assert_eq!(range_pair, RangePair::from((8, 12, 8, 12)));

    assert_eq!(
        index.add_char_right(3, &range_pair.clone(), &mut range_pair),
        true
    );
    assert_eq!(range_pair, RangePair::from((11, 12, 18, 19)));

    assert_eq!(
        index.add_char_right(0, &range_pair.clone(), &mut range_pair),
        true
    );
    assert_eq!(range_pair, RangePair::from((11, 12, 7, 8)));

    assert_eq!(
        index.add_char_right(3, &range_pair.clone(), &mut range_pair),
        false
    );
    assert_eq!(range_pair, RangePair::from((12, 12, 18, 18)));
}

#[test]
fn test_exact_match_backwards() {
    let index = BidirectionalFMIndex::new(string(INPUT), 1);

    let exact_match_single = vec![
        pattern("A", Direction::BACKWARD),
        pattern("C", Direction::BACKWARD),
        pattern("G", Direction::BACKWARD),
        pattern("T", Direction::BACKWARD),
    ];

    let exact_match_double = vec![
        pattern("AA", Direction::BACKWARD),
        pattern("AC", Direction::BACKWARD),
        pattern("AG", Direction::BACKWARD),
        pattern("AT", Direction::BACKWARD),
    ];

    let exact_match_start = pattern("AACT", Direction::BACKWARD);
    let exact_match_end = pattern("AACG", Direction::BACKWARD);
    let exact_match_not = pattern("CCC", Direction::BACKWARD);

    let exact_match_single_results = vec![
        RangePair::from((1, 8, 1, 8)),
        RangePair::from((8, 12, 8, 12)),
        RangePair::from((12, 17, 12, 17)),
        RangePair::from((17, 21, 17, 21)),
    ];

    let exact_match_double_results = vec![
        RangePair::from((1, 4, 2, 5)),
        RangePair::from((4, 6, 8, 10)),
        RangePair::from((6, 7, 12, 13)),
        RangePair::from((7, 8, 17, 18)),
    ];

    let exact_match_start_results = RangePair::from((2, 3, 18, 19));
    let exact_match_end_results = RangePair::from((1, 2, 13, 14));
    let exact_match_not_results = RangePair::from((0, 0, 0, 0));

    for i in 0..exact_match_single.len() {
        assert_eq!(
            index.exact_match(&exact_match_single[i]),
            exact_match_single_results[i]
        );
    }

    for i in 0..exact_match_double.len() {
        assert_eq!(
            index.exact_match(&exact_match_double[i]),
            exact_match_double_results[i]
        );
    }

    assert_eq!(index.exact_match(&exact_match_start), exact_match_start_results);
    assert_eq!(index.exact_match(&exact_match_end), exact_match_end_results);
    assert_eq!(index.exact_match(&exact_match_not), exact_match_not_results);
}

#[test]
fn test_exact_match_forwards() {
    let index = BidirectionalFMIndex::new(string(INPUT), 1);

    let exact_match_single = vec![
        pattern("A", Direction::FORWARD),
        pattern("C", Direction::FORWARD),
        pattern("G", Direction::FORWARD),
        pattern("T", Direction::FORWARD),
    ];

    let exact_match_double = vec![
        pattern("AA", Direction::FORWARD),
        pattern("AC", Direction::FORWARD),
        pattern("AG", Direction::FORWARD),
        pattern("AT", Direction::FORWARD),
    ];

    let exact_match_start = pattern("AACT", Direction::FORWARD);
    let exact_match_end = pattern("AACG", Direction::FORWARD);
    let exact_match_not = pattern("CCC", Direction::FORWARD);

    let exact_match_single_results = vec![
        RangePair::from((1, 8, 1, 8)),
        RangePair::from((8, 12, 8, 12)),
        RangePair::from((12, 17, 12, 17)),
        RangePair::from((17, 21, 17, 21)),
    ];

    let exact_match_double_results = vec![
        RangePair::from((1, 4, 2, 5)),
        RangePair::from((4, 6, 8, 10)),
        RangePair::from((6, 7, 12, 13)),
        RangePair::from((7, 8, 17, 18)),
    ];

    let exact_match_start_results = RangePair::from((2, 3, 18, 19));
    let exact_match_end_results = RangePair::from((1, 2, 13, 14));
    let exact_match_not_results = RangePair::from((0, 0, 0, 0));

    for i in 0..exact_match_single.len() {
        assert_eq!(
            index.exact_match(&exact_match_single[i]),
            exact_match_single_results[i]
        );
    }

    for i in 0..exact_match_double.len() {
        assert_eq!(
            index.exact_match(&exact_match_double[i]),
            exact_match_double_results[i]
        );
    }

    assert_eq!(index.exact_match(&exact_match_start), exact_match_start_results);
    assert_eq!(index.exact_match(&exact_match_end), exact_match_end_results);
    assert_eq!(index.exact_match(&exact_match_not), exact_match_not_results);
}

#[test]
fn test_range_pair_widths_stay_synchronized() {
    let index = BidirectionalFMIndex::<DNAAlphabet>::new(string(INPUT), 1);

    let mut range_pair = RangePair::from((0, 21, 0, 21));
    for c in [0usize, 1, 0, 2] {
        index.add_char_left(c, &range_pair.clone(), &mut range_pair);
        assert_eq!(range_pair.normal_range.width(), range_pair.reversed_range.width());
    }

    let mut range_pair = RangePair::from((0, 21, 0, 21));
    for c in [1usize, 3, 0] {
        index.add_char_right(c, &range_pair.clone(), &mut range_pair);
        assert_eq!(range_pair.normal_range.width(), range_pair.reversed_range.width());
    }
}

#[test]
fn test_serialization_round_trip() {
    let index = BidirectionalFMIndex::<DNAAlphabet>::new(string(INPUT), 2);

    let bytes = index.to_bin();
    let loaded = BidirectionalFMIndex::<DNAAlphabet>::from_bin(&bytes)
        .expect("the stream of a built index must load");

    for p in ["A", "AA", "AACT", "AACG", "CCC", "GG", "T"] {
        for d in [Direction::FORWARD, Direction::BACKWARD] {
            let pat = pattern(p, d);
            assert_eq!(index.exact_match(&pat), loaded.exact_match(&pat));
        }
    }

    let mut range_pair = RangePair::from((0, 21, 0, 21));
    let mut loaded_pair = RangePair::from((0, 21, 0, 21));
    for c in [0usize, 1, 2] {
        index.add_char_left(c, &range_pair.clone(), &mut range_pair);
        loaded.add_char_left(c, &loaded_pair.clone(), &mut loaded_pair);
        assert_eq!(range_pair, loaded_pair);
    }
}

#[test]
fn test_from_bin_rejects_mismatched_sizes() {
    let ragged = vec![1u8, 2, 3];
    match BidirectionalFMIndex::<DNAAlphabet>::from_bin(&ragged) {
        Err(e) => assert_eq!(e, Error::DeserializationMismatch),
        Ok(_) => panic!("a ragged stream was accepted"),
    }

    let mut header_only: Vec<u8> = Vec::new();
    header_only.extend_from_slice(&20u64.to_le_bytes());
    match BidirectionalFMIndex::<DNAAlphabet>::from_bin(&header_only) {
        Err(e) => assert_eq!(e, Error::DeserializationMismatch),
        Ok(_) => panic!("a bare header was accepted"),
    }
}
