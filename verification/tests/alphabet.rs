use rust_fm::alphabet::{Alphabet, AlphabetChar, AlphabetIndex, AlphabetString, DNAAlphabet};
use rust_fm::errors::Error;

const DNA_CHARACTERS: [AlphabetChar; 4] = [b'A', b'C', b'G', b'T'];
const DNA_INDICES: [AlphabetIndex; 4] = [0, 1, 2, 3];

#[test]
fn test_dna_alphabet_c2i() {
    let alphabet = DNAAlphabet::default();

    for i in 0..DNA_CHARACTERS.len() {
        assert_eq!(alphabet.c2i(DNA_CHARACTERS[i]), DNA_INDICES[i]);
    }
}

#[test]
fn test_dna_alphabet_i2c() {
    let alphabet = DNAAlphabet::default();

    for i in 0..DNA_INDICES.len() {
        assert_eq!(alphabet.i2c(DNA_INDICES[i]), DNA_CHARACTERS[i]);
    }
}

#[test]
fn test_dna_alphabet_len() {
    assert_eq!(DNAAlphabet::default().len(), 4)
}

#[test]
fn test_dna_alphabet_bits() {
    assert_eq!(DNAAlphabet::default().bits(), 2)
}

#[test]
fn test_try_from_chars_rejects_foreign_symbol() {
    let good: Vec<u8> = b"ACGT".to_vec();
    assert!(AlphabetString::<DNAAlphabet>::try_from_chars(&good).is_ok());

    let bad: Vec<u8> = b"ACXT".to_vec();
    match AlphabetString::<DNAAlphabet>::try_from_chars(&bad) {
        Err(e) => assert_eq!(e, Error::MalformedAlphabet),
        Ok(_) => panic!("a symbol outside the alphabet was accepted"),
    }
}
