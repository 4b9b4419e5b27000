use piss::byte_mask::ByteMask;

#[test]
fn test_invalid_number() {
    let result = ByteMask::new(9);
    assert!(result.is_err());

    let result = ByteMask::new(0);
    assert!(result.is_err());
}

#[test]
fn test_values() {
    let mask = ByteMask::new(1).unwrap();
    assert_eq!(mask.bits, 1);
    assert_eq!(mask.mask, 0b00000001);
    assert_eq!(mask.chunks, 8);
    assert_eq!(mask.padded, false);
    assert_eq!(mask.byte, 0);
    assert_eq!(mask.step, 0);

    let mask = ByteMask::new(2).unwrap();
    assert_eq!(mask.bits, 2);
    assert_eq!(mask.mask, 0b00000011);
    assert_eq!(mask.chunks, 4);
    assert_eq!(mask.padded, false);
    assert_eq!(mask.byte, 0);
    assert_eq!(mask.step, 0);

    let mask = ByteMask::new(3).unwrap();
    assert_eq!(mask.bits, 3);
    assert_eq!(mask.mask, 0b00000111);
    assert_eq!(mask.chunks, 3);
    assert_eq!(mask.padded, true);
    assert_eq!(mask.byte, 0);
    assert_eq!(mask.step, 0);

    let mask = ByteMask::new(4).unwrap();
    assert_eq!(mask.bits, 4);
    assert_eq!(mask.mask, 0b00001111);
    assert_eq!(mask.chunks, 2);
    assert_eq!(mask.padded, false);
    assert_eq!(mask.byte, 0);
    assert_eq!(mask.step, 0);

    let mask = ByteMask::new(5).unwrap();
    assert_eq!(mask.bits, 5);
    assert_eq!(mask.mask, 0b00011111);
    assert_eq!(mask.chunks, 2);
    assert_eq!(mask.padded, true);
    assert_eq!(mask.byte, 0);
    assert_eq!(mask.step, 0);

    let mask = ByteMask::new(6).unwrap();
    assert_eq!(mask.bits, 6);
    assert_eq!(mask.mask, 0b00111111);
    assert_eq!(mask.chunks, 2);
    assert_eq!(mask.padded, true);
    assert_eq!(mask.byte, 0);
    assert_eq!(mask.step, 0);

    let mask = ByteMask::new(7).unwrap();
    assert_eq!(mask.bits, 7);
    assert_eq!(mask.mask, 0b01111111);
    assert_eq!(mask.chunks, 2);
    assert_eq!(mask.padded, true);
    assert_eq!(mask.byte, 0);
    assert_eq!(mask.step, 0);

    let mask = ByteMask::new(8).unwrap();
    assert_eq!(mask.bits, 8);
    assert_eq!(mask.mask, 0b11111111);
    assert_eq!(mask.chunks, 1);
    assert_eq!(mask.padded, false);
    assert_eq!(mask.byte, 0);
    assert_eq!(mask.step, 0);
}

#[test]
fn test_set_byte() {
    let mut mask = ByteMask::new(2).unwrap();
    mask.step = 3;
    mask.set_byte(5);
    assert_eq!(mask.bits, 2);
    assert_eq!(mask.chunks, 4);
    assert_eq!(mask.padded, false);
    assert_eq!(mask.byte, 5);
    assert_eq!(mask.step, 0);
}

#[test]
fn test_join_bits() {
    let expected = 0b10010011;

    let mask = ByteMask::new(1).unwrap();
    let bytes = mask.join_chunks(&vec![1, 0, 0, 1, 0, 0, 1, 1]);
    assert_eq!(expected, bytes);

    let mask = ByteMask::new(2).unwrap();
    let bytes = mask.join_chunks(&vec![0b10, 0b01, 0b00, 0b11]);
    assert_eq!(expected, bytes);

    let mask = ByteMask::new(3).unwrap();
    let bytes = mask.join_chunks(&vec![0b100, 0b100, 0b011]);
    assert_eq!(expected, bytes);

    let mask = ByteMask::new(4).unwrap();
    let bytes = mask.join_chunks(&vec![0b1001, 0b0011]);
    assert_eq!(expected, bytes);

    let mask = ByteMask::new(5).unwrap();
    let bytes = mask.join_chunks(&vec![0b10010, 0b00011]);
    assert_eq!(expected, bytes);

    let mask = ByteMask::new(6).unwrap();
    let bytes = mask.join_chunks(&vec![0b100100, 0b000011]);
    assert_eq!(expected, bytes);

    let mask = ByteMask::new(7).unwrap();
    let bytes = mask.join_chunks(&vec![0b1001001, 0b00000001]);
    assert_eq!(expected, bytes);

    let mask = ByteMask::new(8).unwrap();
    let bytes = mask.join_chunks(&vec![0b10010011]);
    assert_eq!(expected, bytes);
}

#[test]
fn test_iterator() {
    let mut mask = ByteMask::new(1).unwrap();
    let expected = vec![1, 0, 0, 1, 0, 0, 1, 1];
    let result: Vec<u8> = mask.set_byte(0b10010011).collect();
    assert_eq!(expected, result);

    let mut mask = ByteMask::new(2).unwrap();
    let expected = vec![0b10, 0b01, 0b00, 0b11];
    let result: Vec<u8> = mask.set_byte(0b10010011).collect();
    assert_eq!(expected, result);

    let mut mask = ByteMask::new(3).unwrap();
    let expected = vec![0b100, 0b100, 0b011];
    let result: Vec<u8> = mask.set_byte(0b10010011).collect();
    assert_eq!(expected, result);

    let mut mask = ByteMask::new(4).unwrap();
    let expected = vec![0b1001, 0b0011];
    let result: Vec<u8> = mask.set_byte(0b10010011).collect();
    assert_eq!(expected, result);

    let mut mask = ByteMask::new(5).unwrap();
    let expected = vec![0b10010, 0b00011];
    let result: Vec<u8> = mask.set_byte(0b10010011).collect();
    assert_eq!(expected, result);

    let mut mask = ByteMask::new(6).unwrap();
    let expected = vec![0b100100, 0b000011];
    let result: Vec<u8> = mask.set_byte(0b10010011).collect();
    assert_eq!(expected, result);

    let mut mask = ByteMask::new(7).unwrap();
    let expected = vec![0b1001001, 0b0000001];
    let result: Vec<u8> = mask.set_byte(0b10010011).collect();
    assert_eq!(expected, result);

    let mut mask = ByteMask::new(8).unwrap();
    let expected = vec![0b10010011];
    let result: Vec<u8> = mask.set_byte(0b10010011).collect();
    assert_eq!(expected, result);
}
