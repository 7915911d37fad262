use rust_fm::io::ProcessedU16;

#[test]
fn test_processed_u16_hands_out_packed_bits() {
    // The byte 0b1110_0100 packs the symbol indices 3, 2, 1, 0, two
    // bits each, highest first.
    let mut window = ProcessedU16::default();
    assert!(window.needs_byte());
    window.add_byte(0b1110_0100);
    assert!(!window.needs_byte());

    assert_eq!(window.get(2), 3);
    assert_eq!(window.get(2), 2);
    assert_eq!(window.get(2), 1);
    assert_eq!(window.get(2), 0);
    assert!(window.needs_byte());
}

#[test]
fn test_processed_u16_keeps_older_bits_on_top() {
    let mut window = ProcessedU16::default();
    window.add_byte(0xAB);
    // Six of the first byte's bits remain unread when the second byte
    // arrives beneath them.
    assert_eq!(window.get(2), 0b10);
    window.add_byte(0xCD);

    // The rest of the first byte comes out before the second byte.
    assert_eq!(window.get(6), 0b101011);
    assert_eq!(window.get(8), 0xCD);
}
