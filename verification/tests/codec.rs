use golomb_set::golomb_decode;
use golomb_set::golomb_encode;
use golomb_set::BitBuffer;
use golomb_set::BitReader;
use golomb_set::GcsError;

fn bools(buffer: &BitBuffer) -> Vec<bool> {
    (0..buffer.len()).map(|i| buffer.get(i).unwrap()).collect()
}

fn decode_all(buffer: &BitBuffer, p: u8) -> Result<u64, GcsError> {
    let mut reader = BitReader::new(buffer);
    golomb_decode(&mut reader, p)
}

#[test]
fn golomb_single() {
    for p in 2u8..16 {
        let mut n = 0u64;
        while n < 100000 {
            let code = golomb_encode(n, p);
            assert_eq!(decode_all(&code, p), Ok(n));
            n += 37 + u64::from(p);
        }
    }
}

#[test]
fn golomb_round_trip_wide_exponents() {
    let values = [0u64, 1, 2, 255, 256, 65535, (1 << 40) - 1, 1 << 39];
    for p in 30u8..63 {
        for value in values.iter() {
            let code = golomb_encode(*value, p);
            assert_eq!(code.len() as u64, (*value >> p) + 1 + u64::from(p));
            assert_eq!(decode_all(&code, p), Ok(*value));
        }
    }
}

#[test]
fn golomb_round_trip_small_values_every_exponent() {
    for p in 1u8..64 {
        for value in 0u64..200 {
            if (value >> p) < 150 {
                let code = golomb_encode(value, p);
                assert_eq!(decode_all(&code, p), Ok(value));
            }
        }
    }
}

#[test]
fn golomb_encode_exact_bits() {
    // 9 = 2 * 4 + 1: two one-bits, the zero-bit, then 01.
    let code = golomb_encode(9, 2);
    assert_eq!(bools(&code), vec![true, true, false, false, true]);
    assert_eq!(code.to_bytes(), vec![0xC8]);
}

#[test]
fn golomb_encode_zero() {
    let code = golomb_encode(0, 3);
    assert_eq!(bools(&code), vec![false, false, false, false]);
}

#[test]
fn golomb_encode_remainder_is_most_significant_bit_first() {
    // 6 = 0 * 8 + 6: the zero-bit, then 110.
    let code = golomb_encode(6, 3);
    assert_eq!(bools(&code), vec![false, true, true, false]);
    // 1 = 0 * 8 + 1: the zero-bit, then 001.
    let code = golomb_encode(1, 3);
    assert_eq!(bools(&code), vec![false, false, false, true]);
}

#[test]
fn golomb_decode_exact_value() {
    // 1110 101: quotient 3, remainder 5, with p = 3 that is 29.
    let buffer = BitBuffer::from_bytes(vec![0b1110_1010]);
    let mut reader = BitReader::new(&buffer);
    assert_eq!(golomb_decode(&mut reader, 3), Ok(29));
    assert!(!reader.is_exhausted());
    assert_eq!(reader.next_bit(), Some(false));
    assert!(reader.is_exhausted());
    assert_eq!(reader.next_bit(), None);
}

#[test]
fn golomb_decode_reads_code_words_in_turn() {
    // 0 01 | 10 11 | 0 00 | 10 10 | 0 0 with p = 2: 1, 7, 0, 6, and two
    // bits that are no code word.
    let buffer = BitBuffer::from_bytes(vec![0b0011_0110, 0b0010_1000]);
    let mut reader = BitReader::new(&buffer);
    assert_eq!(golomb_decode(&mut reader, 2), Ok(1));
    assert_eq!(golomb_decode(&mut reader, 2), Ok(7));
    assert_eq!(golomb_decode(&mut reader, 2), Ok(0));
    assert_eq!(golomb_decode(&mut reader, 2), Ok(6));
    assert!(!reader.is_exhausted());
    assert_eq!(golomb_decode(&mut reader, 2), Err(GcsError::DecodeError));
    assert!(reader.is_exhausted());
    assert_eq!(golomb_decode(&mut reader, 2), Err(GcsError::DecodeError));
}

#[test]
fn golomb_decode_only_ones_is_an_error() {
    for bytes in 0usize..5 {
        let buffer = BitBuffer::from_bytes(vec![0xFF; bytes]);
        for p in [1u8, 2, 7, 8, 20, 63] {
            let mut reader = BitReader::new(&buffer);
            assert_eq!(golomb_decode(&mut reader, p), Err(GcsError::DecodeError));
            assert!(reader.is_exhausted());
        }
    }
}

#[test]
fn golomb_decode_truncated_remainder_is_an_error() {
    // 110 and five more bits, where p asks for six and for sixty.
    let buffer = BitBuffer::from_bytes(vec![0b1101_0101]);
    let mut reader = BitReader::new(&buffer);
    assert_eq!(golomb_decode(&mut reader, 6), Err(GcsError::DecodeError));
    assert!(reader.is_exhausted());
    let mut reader = BitReader::new(&buffer);
    assert_eq!(golomb_decode(&mut reader, 60), Err(GcsError::DecodeError));
    let mut reader = BitReader::new(&buffer);
    assert_eq!(golomb_decode(&mut reader, 5), Ok(2 * 32 + 0b10101));
}

#[test]
fn golomb_decode_value_beyond_64_bits_is_an_error() {
    // Two one-bits with p = 63: 2 * 2^63 does not fit.
    let mut bytes = vec![0b1100_0000];
    bytes.extend_from_slice(&[0u8; 8]);
    let buffer = BitBuffer::from_bytes(bytes);
    let mut reader = BitReader::new(&buffer);
    assert_eq!(golomb_decode(&mut reader, 63), Err(GcsError::DecodeError));
    assert!(reader.is_exhausted());
    // One one-bit with p = 63 is 2^63.
    let mut bytes = vec![0b1000_0000];
    bytes.extend_from_slice(&[0u8; 8]);
    let buffer = BitBuffer::from_bytes(bytes);
    let mut reader = BitReader::new(&buffer);
    assert_eq!(golomb_decode(&mut reader, 63), Ok(1u64 << 63));
}

#[test]
fn bit_buffer_bytes_are_read_most_significant_bit_first() {
    let buffer = BitBuffer::from_bytes(vec![0x80, 0x01]);
    assert_eq!(buffer.len(), 16);
    assert_eq!(buffer.get(0), Some(true));
    assert_eq!(buffer.get(1), Some(false));
    assert_eq!(buffer.get(14), Some(false));
    assert_eq!(buffer.get(15), Some(true));
    assert_eq!(buffer.get(16), None);
    assert_eq!(buffer.to_bytes(), vec![0x80, 0x01]);
}

#[test]
fn bit_buffer_last_byte_is_filled_with_zeros() {
    // Seven bits 1011111 make one byte 1011_1110.
    let code = golomb_encode(31 + 32, 5);
    assert_eq!(code.len(), 7);
    assert_eq!(code.to_bytes(), vec![0b1011_1110]);
    // Nine bits make two bytes.
    let code = golomb_encode(3 * 32 + 31, 5);
    assert_eq!(code.len(), 9);
    assert_eq!(code.to_bytes(), vec![0b1110_1111, 0b1000_0000]);
}

#[test]
fn bit_reader_skip_to_end_leaves_nothing() {
    let buffer = BitBuffer::from_bytes(vec![0xAA]);
    let mut reader = BitReader::new(&buffer);
    assert_eq!(reader.next_bit(), Some(true));
    reader.skip_to_end();
    assert!(reader.is_exhausted());
    assert_eq!(reader.next_bit(), None);
}

#[test]
fn error_descriptions() {
    assert_eq!(
        GcsError::LimitReached.description(),
        "Limit for the number of elements has been reached"
    );
    assert_eq!(
        GcsError::DecodeError.description(),
        "Decoding failed due to invalid Golomb-Rice bit sequence"
    );
}

#[test]
fn a_copy_of_a_bit_buffer_holds_the_same_bits() {
    let buffer = BitBuffer::from_bytes(vec![0xA5, 0x0F, 0x33]);
    let copy = buffer.clone();
    assert_eq!(copy, buffer);
    assert_eq!(bools(&copy), bools(&buffer));
    assert_eq!(copy.to_bytes(), vec![0xA5, 0x0F, 0x33]);
}

#[test]
fn every_cut_of_a_code_word_is_an_error() {
    for p in [1u8, 3, 8] {
        for value in [0u64, 1, 9, 77] {
            let code = golomb_encode(value, p);
            let bits = bools(&code);
            let mut bytes = code.to_bytes();
            // Cut at whole bytes only: the bits of the last byte that are
            // padding would otherwise be read as part of the code word.
            while bytes.len() * 8 >= bits.len() && !bytes.is_empty() {
                bytes.pop();
            }
            let cut = BitBuffer::from_bytes(bytes);
            let mut reader = BitReader::new(&cut);
            assert_eq!(golomb_decode(&mut reader, p), Err(GcsError::DecodeError));
        }
    }
}
