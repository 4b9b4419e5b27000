use piss::byte_mask::ByteMask;
use piss::decoder::Decoder;
use piss::encoder::Encoder;
use piss::errors::Error;
use piss::pipeline::{decode, encode};

fn split(bits: u8, byte: u8) -> Vec<u8> {
    let mut mask = ByteMask::new(bits).unwrap();
    mask.set_byte(byte).collect()
}

#[test]
fn two_bit_example() {
    let mask = ByteMask::new(2).unwrap();
    assert_eq!(split(2, 0x93), vec![0b10, 0b01, 0b00, 0b11]);
    let carrier = encode(vec![0u8; 4], &[0b10010011], mask).unwrap();
    let low: Vec<u8> = carrier.iter().map(|b| b & 0b11).collect();
    assert_eq!(low, vec![0b10, 0b01, 0b00, 0b11]);
    assert_eq!(decode(carrier, mask), vec![0x93]);
    assert_eq!(mask.join_chunks(&[0b10, 0b01, 0b00, 0b11]), 0x93);
}

#[test]
fn round_trip_every_width_and_byte() {
    for bits in 1..=8u8 {
        let mask = ByteMask::new(bits).unwrap();
        for v in 0..=255u8 {
            assert_eq!(mask.join_chunks(&split(bits, v)), v);
        }
    }
}

#[test]
fn chunk_count_and_bound() {
    for bits in 1..=8u8 {
        let mask = ByteMask::new(bits).unwrap();
        for v in 0..=255u8 {
            let chunks = split(bits, v);
            assert_eq!(chunks.len(), mask.chunks as usize);
            assert!(chunks.iter().all(|c| *c <= mask.mask));
        }
    }
}

#[test]
fn padding_flags_and_chunk_counts() {
    let expected = [(1, 8, false), (2, 4, false), (3, 3, true), (4, 2, false)];
    let more = [(5, 2, true), (6, 2, true), (7, 2, true), (8, 1, false)];
    for (bits, chunks, padded) in expected.iter().chain(more.iter()) {
        let mask = ByteMask::new(*bits).unwrap();
        assert_eq!(mask.chunks, *chunks);
        assert_eq!(mask.padded, *padded);
    }
}

#[test]
fn next_stops_after_last_chunk() {
    let mut mask = ByteMask::new(4).unwrap();
    mask.set_byte(0xA5);
    assert_eq!(mask.next(), Some(0xA));
    assert_eq!(mask.next(), Some(0x5));
    assert_eq!(mask.next(), None);
    assert_eq!(mask.next(), None);
    mask.set_byte(0x3C);
    assert_eq!(mask.next(), Some(0x3));
}

#[test]
fn join_fills_missing_chunks_with_zero() {
    let mask = ByteMask::new(2).unwrap();
    assert_eq!(mask.join_chunks(&[0b10]), 0b10000000);
    assert_eq!(mask.join_chunks(&[]), 0);
    let mask = ByteMask::new(3).unwrap();
    assert_eq!(mask.join_chunks(&[0b100, 0b100]), 0b10010000);
}

#[test]
fn capacity_check() {
    let mask = ByteMask::new(2).unwrap();
    let err = Encoder::new(vec![0u8; 7], 2, mask).err().unwrap();
    assert_eq!(err, Error::SecretTooLarge);
    let encoder = Encoder::new(vec![0u8; 8], 2, mask).unwrap();
    assert_eq!(encoder.zeroes, 0);
    let encoder = Encoder::new(vec![0u8; 11], 2, mask).unwrap();
    assert_eq!(encoder.zeroes, 3);
    let err = Encoder::new(vec![0u8; 3], usize::MAX, mask).err().unwrap();
    assert_eq!(err, Error::SecretTooLarge);
    assert_eq!(encode(vec![0u8; 3], &[1], mask), Err(Error::SecretTooLarge));
}

#[test]
fn invalid_width() {
    assert_eq!(ByteMask::new(0).err(), Some(Error::InvalidNumberOfBits));
    assert_eq!(ByteMask::new(9).err(), Some(Error::InvalidNumberOfBits));
    assert_eq!(ByteMask::new(255).err(), Some(Error::InvalidNumberOfBits));
}

#[test]
fn full_pipeline_every_width() {
    let secret = b"The Matrix has you.".to_vec();
    for bits in 1..=8u8 {
        let mask = ByteMask::new(bits).unwrap();
        for extra in 0..10usize {
            let size = secret.len() * mask.chunks as usize + extra;
            let carrier = encode(vec![0u8; size], &secret, mask).unwrap();
            assert_eq!(carrier.len(), size);
            assert_eq!(decode(carrier, mask), secret);
        }
    }
}

#[test]
fn embedding_keeps_high_bits() {
    let mask = ByteMask::new(3).unwrap();
    let mut encoder = Encoder::new(vec![0xFFu8; 5], 1, mask).unwrap();
    encoder.save(&[0b10010011]);
    assert_eq!(encoder.image, vec![0xF8, 0xF8, 0xF8 | 0b100, 0xF8 | 0b100, 0xF8 | 0b011]);
    let decoder = Decoder::new(encoder.image, mask);
    assert_eq!(decoder.save(), vec![0b10010011]);
}

#[test]
fn start_is_realigned_to_a_byte_boundary() {
    let mask = ByteMask::new(2).unwrap();
    assert_eq!(decode(vec![0, 0, 0, 0, 0, 1], mask), vec![1]);
    assert_eq!(decode(vec![0, 0, 1, 0, 0, 0], mask), vec![0b01000000]);
    assert_eq!(decode(vec![0b11111100; 6], mask), Vec::<u8>::new());
}

#[test]
fn leading_zero_byte_is_lost() {
    let mask = ByteMask::new(8).unwrap();
    let carrier = encode(vec![0u8; 2], &[0, 1], mask).unwrap();
    assert_eq!(decode(carrier, mask), vec![1]);
}

#[test]
fn error_messages() {
    assert_eq!(Error::SecretTooLarge.message(), "Secret is too large to fit in image");
    assert_eq!(Error::InvalidNumberOfBits.message(), "Only 1 to 8 LSB bits are allowed");
}
