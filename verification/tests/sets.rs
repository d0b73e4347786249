use golomb_set::Gcs;
use golomb_set::GcsError;
use golomb_set::HashAlgorithm;
use golomb_set::UnpackedGcs;

fn filled(n: usize, p: u8, hash: HashAlgorithm, count: u32) -> UnpackedGcs {
    let mut set = UnpackedGcs::new(n, p, hash);
    for i in 0..count {
        set.insert(&i.to_be_bytes()).unwrap();
    }
    set
}

#[test]
fn alpha_bravo_scenario() {
    let mut gcs = UnpackedGcs::new(3, 5, HashAlgorithm::Md5);
    assert_eq!(gcs.insert(b"alpha"), Ok(()));
    assert_eq!(gcs.insert(b"bravo"), Ok(()));

    assert!(gcs.contains(b"alpha"));
    assert!(gcs.contains(b"bravo"));
    assert!(!gcs.contains(b"charlie"));
    assert_eq!(gcs.fingerprints(), &vec![47, 95]);

    let packed = gcs.pack();
    assert_eq!(packed.contains(b"alpha"), Ok(true));
    assert_eq!(packed.contains(b"bravo"), Ok(true));
    assert_eq!(packed.contains(b"charlie"), Ok(false));

    let mut unpacked = packed.unpack().unwrap();
    assert_eq!(unpacked, gcs);
    assert!(unpacked.contains(b"alpha"));
    assert!(unpacked.contains(b"bravo"));

    assert_eq!(unpacked.insert(b"delta"), Ok(()));
    assert_eq!(unpacked.insert(b"echo"), Err(GcsError::LimitReached));
    assert_eq!(unpacked.len(), 3);
    assert_eq!(unpacked.fingerprints(), &vec![24, 47, 95]);
}

#[test]
fn new_set_is_empty() {
    let gcs = UnpackedGcs::new(10, 9, HashAlgorithm::XxHash64);
    assert_eq!(gcs.len(), 0);
    assert_eq!(gcs.n(), 10);
    assert_eq!(gcs.p(), 9);
    assert_eq!(gcs.hash(), HashAlgorithm::XxHash64);
    assert!(gcs.fingerprints().is_empty());
    assert!(!gcs.contains(b"anything"));
    let packed = gcs.pack();
    assert_eq!(packed.data().len(), 0);
    assert_eq!(packed.contains(b"anything"), Ok(false));
    assert_eq!(packed.unpack(), Ok(gcs));
}

#[test]
fn add_query_unpacked_single() {
    for i in 0u32..300 {
        let bytes = vec![(i % 256) as u8; (i % 17) as usize];
        let mut unpacked = UnpackedGcs::new(10, 9, HashAlgorithm::XxHash64);
        unpacked.insert(&bytes).unwrap();
        assert!(unpacked.contains(&bytes));
    }
}

#[test]
fn add_query_packed_single() {
    for i in 0u32..300 {
        let bytes = vec![(i % 256) as u8; (i % 17) as usize];
        let mut unpacked = UnpackedGcs::new(10, 9, HashAlgorithm::XxHash64);
        unpacked.insert(&bytes).unwrap();
        let gcs = unpacked.pack();
        assert_eq!(gcs.contains(&bytes), Ok(true));
    }
}

#[test]
fn pack_roundtrip() {
    let algorithms = [HashAlgorithm::Md5, HashAlgorithm::XxHash32, HashAlgorithm::XxHash64];
    for hash in algorithms.iter() {
        for p in 2u8..16 {
            for count in [0u32, 1, 2, 7, 50] {
                let gcs = filled(60, p, *hash, count);
                assert_eq!(gcs.len(), count as usize);
                let unpacked = gcs.pack().unpack().unwrap();
                assert_eq!(gcs, unpacked);
                assert_eq!(unpacked.n(), 60);
                assert_eq!(unpacked.p(), p);
                assert_eq!(unpacked.fingerprints(), gcs.fingerprints());
            }
        }
    }
}

#[test]
fn pack_does_not_change_the_set() {
    let gcs = filled(100, 7, HashAlgorithm::Md5, 100);
    let copy = gcs.clone();
    let first = gcs.pack();
    let second = gcs.pack();
    assert_eq!(gcs, copy);
    assert_eq!(first, second);
}

#[test]
fn no_false_negatives_in_either_form() {
    let algorithms = [HashAlgorithm::Md5, HashAlgorithm::XxHash32, HashAlgorithm::XxHash64];
    for hash in algorithms.iter() {
        let gcs = filled(200, 6, *hash, 200);
        let packed = gcs.pack();
        for i in 0u32..200 {
            assert!(gcs.contains(&i.to_be_bytes()));
            assert_eq!(packed.contains(&i.to_be_bytes()), Ok(true));
        }
    }
}

#[test]
fn packed_and_unpacked_agree_on_every_query() {
    let gcs = filled(50, 4, HashAlgorithm::XxHash64, 50);
    let packed = gcs.pack();
    for i in 0u32..2000 {
        let input = (i + 1_000_000).to_be_bytes();
        assert_eq!(packed.contains(&input), Ok(gcs.contains(&input)));
    }
    for value in 0u64..800 {
        assert_eq!(packed.contains_fingerprint(value), Ok(gcs.contains_fingerprint(value)));
    }
}

#[test]
fn fingerprints_stay_ascending_and_below_the_modulus() {
    let gcs = filled(300, 8, HashAlgorithm::Md5, 300);
    let values = gcs.fingerprints();
    assert_eq!(values.len(), 300);
    for pair in values.windows(2) {
        assert!(pair[0] <= pair[1]);
    }
    for value in values.iter() {
        assert!(*value < 300 * 256);
    }
}

#[test]
fn limit_is_enforced() {
    for n in [1usize, 2, 5, 40] {
        let mut gcs = UnpackedGcs::new(n, 10, HashAlgorithm::XxHash64);
        for i in 0..n as u32 {
            assert_eq!(gcs.insert(&i.to_be_bytes()), Ok(()));
            assert_eq!(gcs.len(), i as usize + 1);
        }
        let full = gcs.clone();
        assert_eq!(gcs.insert(b"one more"), Err(GcsError::LimitReached));
        assert_eq!(gcs.len(), n);
        assert_eq!(gcs, full);
        assert_eq!(gcs.insert_fingerprint(0), Err(GcsError::LimitReached));
        assert_eq!(gcs, full);
    }
}

#[test]
fn insert_fingerprint_keeps_the_order_and_duplicates() {
    let mut gcs = UnpackedGcs::new(6, 4, HashAlgorithm::Md5);
    for value in [50u64, 3, 95, 3, 0, 50] {
        assert_eq!(gcs.insert_fingerprint(value), Ok(()));
    }
    assert_eq!(gcs.fingerprints(), &vec![0, 3, 3, 50, 50, 95]);
    assert!(gcs.contains_fingerprint(0));
    assert!(gcs.contains_fingerprint(3));
    assert!(gcs.contains_fingerprint(50));
    assert!(gcs.contains_fingerprint(95));
    assert!(!gcs.contains_fingerprint(1));
    assert!(!gcs.contains_fingerprint(49));
    assert!(!gcs.contains_fingerprint(94));
    let packed = gcs.pack();
    assert_eq!(packed.unpack(), Ok(gcs));
    assert_eq!(packed.contains_fingerprint(3), Ok(true));
    assert_eq!(packed.contains_fingerprint(95), Ok(true));
    assert_eq!(packed.contains_fingerprint(4), Ok(false));
}

#[test]
fn inserting_the_same_input_twice_keeps_both() {
    let mut gcs = UnpackedGcs::new(3, 5, HashAlgorithm::Md5);
    gcs.insert(b"alpha").unwrap();
    gcs.insert(b"alpha").unwrap();
    assert_eq!(gcs.fingerprints(), &vec![95, 95]);
    assert_eq!(gcs.pack().unpack(), Ok(gcs));
}

#[test]
fn pack_exact_bytes() {
    let mut gcs = UnpackedGcs::new(3, 5, HashAlgorithm::Md5);
    gcs.insert(b"alpha").unwrap();
    gcs.insert(b"bravo").unwrap();
    // 47 = 1 * 32 + 15 and 95 - 47 = 48 = 1 * 32 + 16: 10 01111, 10 10000.
    let packed = gcs.pack();
    assert_eq!(packed.data().len(), 14);
    let mut out = Vec::new();
    packed.write(&mut out);
    assert_eq!(out, vec![0x9f, 0x40]);

    gcs.insert(b"charlie").unwrap();
    let packed = gcs.pack();
    assert_eq!(packed.data().len(), 20);
    let mut out = vec![0xEE];
    packed.write(&mut out);
    assert_eq!(out, vec![0xEE, 0x02, 0x7d, 0x00]);
}

#[test]
fn from_reader_takes_the_bytes_as_the_bit_stream() {
    let gcs = Gcs::from_reader(vec![0x02, 0x7d, 0x00], 3, 5, HashAlgorithm::Md5);
    assert_eq!(gcs.n(), 3);
    assert_eq!(gcs.p(), 5);
    assert_eq!(gcs.hash(), HashAlgorithm::Md5);
    assert_eq!(gcs.data().len(), 24);
    let mut out = Vec::new();
    gcs.write(&mut out);
    assert_eq!(out, vec![0x02, 0x7d, 0x00]);
    assert_eq!(gcs.contains(b"charlie"), Ok(true));
    assert_eq!(gcs.contains(b"bravo"), Ok(true));
    assert_eq!(gcs.contains(b"alpha"), Ok(true));
    // The four zero bits that fill the last byte are no code word.
    assert_eq!(gcs.contains(b"delta"), Err(GcsError::DecodeError));
    assert_eq!(gcs.unpack(), Err(GcsError::DecodeError));
}

#[test]
fn from_reader_of_a_whole_number_of_code_words_unpacks() {
    // p = 3: 0 001 | 0 010 | 10 000 | 0 11: 1, 3, 11 and two bits too few.
    let gcs = Gcs::from_reader(vec![0b0001_0010, 0b1000_0011], 4, 3, HashAlgorithm::Md5);
    assert_eq!(gcs.contains_fingerprint(1), Ok(true));
    assert_eq!(gcs.contains_fingerprint(3), Ok(true));
    assert_eq!(gcs.contains_fingerprint(11), Ok(true));
    assert_eq!(gcs.contains_fingerprint(2), Err(GcsError::DecodeError));
    assert_eq!(gcs.unpack(), Err(GcsError::DecodeError));

    // p = 3: 0 001 | 0 010 | 0 110 | 0 111: 1, 3, 9, 16.
    let gcs = Gcs::from_reader(vec![0b0001_0010, 0b0110_0111], 4, 3, HashAlgorithm::Md5);
    let set = gcs.unpack().unwrap();
    assert_eq!(set.fingerprints(), &vec![1, 3, 9, 16]);
    assert_eq!(set.n(), 4);
    assert_eq!(set.p(), 3);
    assert_eq!(gcs.contains_fingerprint(16), Ok(true));
    assert_eq!(gcs.contains_fingerprint(2), Ok(false));
    assert_eq!(set.pack(), gcs);
}

#[test]
fn unpack_yields_every_fingerprint_of_the_stream() {
    // p = 3: 0 001 | 0 010 | 0 110 | 0 111: 1, 3, 9, 16, one more than the
    // set is made for.
    let gcs = Gcs::from_reader(vec![0b0001_0010, 0b0110_0111], 3, 3, HashAlgorithm::Md5);
    let mut set = gcs.unpack().unwrap();
    assert_eq!(set.fingerprints(), &vec![1, 3, 9, 16]);
    assert_eq!(set.n(), 3);
    assert_eq!(set.p(), 3);
    assert!(set.contains_fingerprint(16));
    assert_eq!(set.insert_fingerprint(2), Err(GcsError::LimitReached));
    assert_eq!(set.len(), 4);
    assert!(set.can_pack());
    assert_eq!(set.pack(), gcs);

    // p = 3: 0 101 | 0 010: 5 and 7, in a set made for one.
    let gcs = Gcs::from_reader(vec![0x52], 1, 3, HashAlgorithm::Md5);
    assert_eq!(gcs.contains_fingerprint(7), Ok(true));
    let set = gcs.unpack().unwrap();
    assert_eq!(set.fingerprints(), &vec![5, 7]);
    assert_eq!(set.pack(), gcs);
}

#[test]
fn unpack_keeps_a_fingerprint_beyond_the_modulus() {
    // p = 1: 110 0 | 0 0 | 0 0: 4, 4, 4, none of them below 1 * 2.
    let gcs = Gcs::from_reader(vec![0b1100_0000], 1, 1, HashAlgorithm::Md5);
    let set = gcs.unpack().unwrap();
    assert_eq!(set.fingerprints(), &vec![4, 4, 4]);
    assert_eq!(set.n(), 1);
    assert_eq!(set.p(), 1);
    assert_eq!(set.pack(), gcs);
    // p = 1: 1110 0 | 0 0 | 0: the last bit is no code word.
    assert_eq!(
        Gcs::from_reader(vec![0b1110_0000], 3, 1, HashAlgorithm::Md5).unpack(),
        Err(GcsError::DecodeError)
    );
}

#[test]
fn unpack_fails_only_where_a_code_word_is_cut_short() {
    // Every byte string of one byte, with p = 1: it unpacks exactly when
    // the byte is a whole number of code words.
    for byte in 0u16..256 {
        let byte = byte as u8;
        let bits: Vec<bool> = (0..8).map(|i| byte & (0x80 >> i) != 0).collect();
        let mut values = Vec::new();
        let mut sum = 0u64;
        let mut at = 0usize;
        let mut whole = true;
        while at < 8 {
            let mut ones = 0u64;
            while at < 8 && bits[at] {
                ones += 1;
                at += 1;
            }
            if at + 1 >= 8 {
                whole = false;
                break;
            }
            sum += 2 * ones + u64::from(bits[at + 1]);
            values.push(sum);
            at += 2;
        }
        let gcs = Gcs::from_reader(vec![byte], 1, 1, HashAlgorithm::Md5);
        match gcs.unpack() {
            Ok(set) => {
                assert!(whole, "byte {:#010b}", byte);
                assert_eq!(set.fingerprints(), &values);
            }
            Err(error) => {
                assert!(!whole, "byte {:#010b}", byte);
                assert_eq!(error, GcsError::DecodeError);
            }
        }
    }
}

#[test]
fn can_pack_tells_whether_the_packed_form_fits() {
    let gcs = filled(100, 7, HashAlgorithm::Md5, 100);
    assert!(gcs.can_pack());
    assert!(UnpackedGcs::new(1, 1, HashAlgorithm::Md5).can_pack());

    // A difference of 2^63 with p = 1 takes 2^62 one-bits.
    let mut set = UnpackedGcs::new(2, 1, HashAlgorithm::Md5);
    set.insert_fingerprint(3).unwrap();
    assert!(set.can_pack());
    set.insert_fingerprint(1u64 << 63).unwrap();
    assert!(!set.can_pack());
    assert_eq!(set.fingerprints(), &vec![3, 1u64 << 63]);

    let mut set = UnpackedGcs::new(2, 1, HashAlgorithm::Md5);
    set.insert_fingerprint(u64::MAX).unwrap();
    assert!(!set.can_pack());
}

#[test]
fn packed_query_of_only_ones_is_an_error() {
    let gcs = Gcs::from_reader(vec![0xFF; 4], 10, 9, HashAlgorithm::XxHash64);
    assert_eq!(gcs.contains(b"anything"), Err(GcsError::DecodeError));
    assert_eq!(gcs.contains_fingerprint(0), Err(GcsError::DecodeError));
    assert_eq!(gcs.unpack(), Err(GcsError::DecodeError));
}

#[test]
fn packed_query_with_a_sum_beyond_64_bits_is_an_error() {
    // p = 63: 10 and 63 zero bits is 2^63, twice; the second starts at
    // bit 65.
    let mut bytes = vec![0u8; 17];
    bytes[0] = 0b1000_0000;
    bytes[8] = 0b0100_0000;
    let gcs = Gcs::from_reader(bytes, 1, 63, HashAlgorithm::Md5);
    assert_eq!(gcs.contains_fingerprint(1u64 << 63), Ok(true));
    assert_eq!(gcs.contains_fingerprint(5), Err(GcsError::DecodeError));
    assert_eq!(gcs.unpack(), Err(GcsError::DecodeError));
}

#[test]
fn false_positive_rate_is_near_one_in_two_to_the_p() {
    let n = 2000u32;
    let gcs = filled(n as usize, 3, HashAlgorithm::XxHash64, n);
    assert_eq!(gcs.len(), n as usize);
    let tries = 8000u32;
    let mut positives = 0u32;
    for i in 0..tries {
        if gcs.contains(&(i + 10_000_000).to_be_bytes()) {
            positives += 1;
        }
    }
    let rate = f64::from(positives) / f64::from(tries);
    assert!(rate > 0.08, "rate {}", rate);
    assert!(rate < 0.16, "rate {}", rate);
}

#[test]
fn false_positive_rate_of_the_packed_form() {
    let n = 300u32;
    let packed = filled(n as usize, 4, HashAlgorithm::Md5, n).pack();
    let tries = 2000u32;
    let mut positives = 0u32;
    for i in 0..tries {
        if packed.contains(&(i + 10_000_000).to_be_bytes()) == Ok(true) {
            positives += 1;
        }
    }
    let rate = f64::from(positives) / f64::from(tries);
    assert!(rate > 0.03, "rate {}", rate);
    assert!(rate < 0.10, "rate {}", rate);
}

#[test]
fn a_copy_of_a_packed_set_answers_alike() {
    let gcs = filled(20, 5, HashAlgorithm::XxHash32, 20);
    let packed = gcs.pack();
    let copy = packed.clone();
    assert_eq!(copy, packed);
    assert_eq!(copy.data().len(), packed.data().len());
    assert_eq!(copy.data().to_bytes(), packed.data().to_bytes());
    assert_eq!(copy.unpack(), Ok(gcs));
    for i in 0u32..20 {
        assert_eq!(copy.contains(&i.to_be_bytes()), Ok(true));
    }
}

#[test]
fn written_bytes_read_back_hold_the_same_members() {
    // With p = 7 every code word takes a whole number of bytes here.
    let mut gcs = UnpackedGcs::new(4, 7, HashAlgorithm::Md5);
    for value in [5u64, 100, 130, 500] {
        gcs.insert_fingerprint(value).unwrap();
    }
    let packed = gcs.pack();
    let mut bytes = Vec::new();
    packed.write(&mut bytes);
    // 5: 0 0000101; 95: 0 1011111; 30: 0 0011110; 370 = 2 * 128 + 114: 110 1110010.
    assert_eq!(bytes, vec![0b0000_0101, 0b0101_1111, 0b0001_1110, 0b1101_1100, 0b1000_0000]);
    let read = Gcs::from_reader(bytes, 4, 7, HashAlgorithm::Md5);
    assert_eq!(read.contains_fingerprint(500), Ok(true));
    assert_eq!(read.contains_fingerprint(130), Ok(true));
    // The six zero bits behind the last code word are no code word.
    assert_eq!(read.contains_fingerprint(501), Err(GcsError::DecodeError));
}

#[test]
fn from_reader_of_no_bytes_is_an_empty_set() {
    let mut emptied = vec![1u8, 2, 3];
    emptied.clear();
    for source in [Vec::new(), Vec::with_capacity(16), emptied] {
        let gcs = Gcs::from_reader(source, 10, 9, HashAlgorithm::XxHash64);
        assert_eq!(gcs.data().len(), 0);
        assert_eq!(gcs.contains(b"anything"), Ok(false));
        let set = gcs.unpack().unwrap();
        assert_eq!(set.len(), 0);
        let mut out = Vec::new();
        gcs.write(&mut out);
        assert!(out.is_empty());
    }
}
