use rust_fm::alphabet::{AlphabetChar, AlphabetIndex, AlphabetString, DNAAlphabet};
use rust_fm::fm_index::FMIndex;
use rust_fm::range::Range;
use rust_fm::tree::{Position, SearchTree};

const INPUT_VEC: [AlphabetChar; 20] = [
    b'A', b'A', b'C', b'T', b'A', b'G', b'G', b'G', b'C', b'A', b'A', b'T', b'G', b'T', b'T',
    b'C', b'A', b'A', b'C', b'G',
];

fn index() -> FMIndex<DNAAlphabet> {
    FMIndex::new(
        AlphabetString::<DNAAlphabet>::from_chars(&INPUT_VEC.to_vec()),
        1,
    )
}

#[test]
fn test_position_new() {
    let position = Position::new(Range::new(0, 5), 0, 0);

    assert_eq!(position.range().start, 0);
    assert_eq!(position.range().end, 5);
    assert_eq!(position.character(), 0);
    assert_eq!(position.row(), 0);
}

#[test]
fn test_search_tree_new() {
    let fm_index = index();

    let search_tree = SearchTree::new(&fm_index);

    assert_eq!(search_tree.search_space, vec![]);
}

#[test]
fn test_extend_search_space() {
    let fm_index = index();

    let mut search_tree = SearchTree::new(&fm_index);

    let extend_results = vec![(1, 8), (8, 12), (12, 16), (17, 21)];

    search_tree.extend_search_space(&Range::new(0, 20), 0);

    assert_eq!(search_tree.search_space.len(), 4);

    for i in 0..4 {
        assert_eq!(search_tree.search_space[i].range().start, extend_results[i].0);
        assert_eq!(search_tree.search_space[i].range().end, extend_results[i].1);
        assert_eq!(search_tree.search_space[i].character(), i as AlphabetIndex);
        assert_eq!(search_tree.search_space[i].row(), 1);
    }
}

#[test]
fn test_iterator() {
    let fm_index = index();

    let mut search_tree = SearchTree::new(&fm_index);

    search_tree.extend_search_space(&Range::new(0, 20), 0);

    let mut i = 0;
    while let Some(_) = search_tree.next() {
        if i < 4 {
            search_tree.extend_search_space(&Range::new(0, 20), 0);
        }

        i += 1;
    }

    assert_eq!(i, 20);
}
