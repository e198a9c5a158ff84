use algors::bloom::{Bloom, DeserializeError};
use algors::hash::{XxHasher, XxHasherError, XXH_SECRET_SIZE_MIN};

fn test_hasher() -> XxHasher {
    let secret = vec![0x42u8; XXH_SECRET_SIZE_MIN];
    XxHasher::new(secret)
}

/// Sizes a filter for `size_hint` items at false positive rate `p_false`.
fn with_hints(size_hint: usize, p_false: f64, hasher: XxHasher) -> Bloom<XxHasher> {
    let ln2 = std::f64::consts::LN_2;
    let m = (-((size_hint as f64) * p_false.ln()) / (ln2 * ln2)).ceil() as u64;
    let bits = Bloom::<XxHasher>::roundi_to_bits_type_size(m);
    let k = ((bits as f64 / size_hint as f64) * ln2).floor().max(1.0) as u32;
    Bloom::with_bits(bits, k, hasher)
}

fn describe(result: &Result<Bloom<XxHasher>, DeserializeError<XxHasher>>) -> String {
    match result {
        Ok(_) => "Ok".to_string(),
        Err(e) => format!("{:?}", e),
    }
}

#[test]
fn test_serialization_round_trip() {
    let mut bloom = with_hints(1000, 0.01, test_hasher());
    let items: Vec<&[u8]> = vec![b"apple", b"banana", b"cherry", b"date", b"elderberry"];

    for item in &items {
        bloom.insert(item);
    }

    let serialized = bloom.serialize().expect("serialization failed");
    let deserialized: Bloom<XxHasher> =
        Bloom::deserialize(&serialized).expect("deserialization failed");

    assert_eq!(bloom.bits_num(), deserialized.bits_num());
    assert_eq!(bloom.hash_num(), deserialized.hash_num());

    for item in &items {
        assert!(deserialized.contains(item), "missing item: {:?}", item);
    }

    assert!(!deserialized.contains(b"foobar"));
}

#[test]
fn test_serialization_empty() {
    let bloom = with_hints(100, 0.1, test_hasher());
    let serialized = bloom.serialize().expect("serialization failed");
    let deserialized: Bloom<XxHasher> =
        Bloom::deserialize(&serialized).expect("deserialization failed");

    assert_eq!(bloom.bits_num(), deserialized.bits_num());
    assert_eq!(bloom.hash_num(), deserialized.hash_num());
    assert!(!deserialized.contains(b"any"));
}

#[test]
fn test_deserialize_invalid_magic() {
    let bloom = with_hints(100, 0.1, test_hasher());
    let mut serialized = bloom.serialize().expect("serialization failed");

    // Corrupt magic
    serialized[0] = b'X';

    let result: Result<Bloom<XxHasher>, _> = Bloom::deserialize(&serialized);
    match result {
        Err(DeserializeError::InvalidMagic) => {}
        _ => panic!("Expected InvalidMagic error, got {}", describe(&result)),
    }
}

#[test]
fn test_deserialize_invalid_version() {
    let bloom = with_hints(100, 0.1, test_hasher());
    let mut serialized = bloom.serialize().expect("serialization failed");

    // Magic is 16 bytes, version is at index 16
    serialized[16] = 255;

    let result: Result<Bloom<XxHasher>, _> = Bloom::deserialize(&serialized);
    match result {
        Err(DeserializeError::InvalidVersion) => {}
        _ => panic!("Expected InvalidVersion error, got {}", describe(&result)),
    }
}

#[test]
fn test_deserialize_truncated_buffer() {
    let bloom = with_hints(100, 0.1, test_hasher());
    let serialized = bloom.serialize().expect("serialization failed");

    for i in 0..serialized.len() - 1 {
        let truncated = &serialized[..i];
        let result: Result<Bloom<XxHasher>, _> = Bloom::deserialize(truncated);
        match result {
            Err(DeserializeError::BufferTooShort { .. }) => {}
            _ => panic!(
                "Expected BufferTooShort at truncation {}, got {}",
                i,
                describe(&result)
            ),
        }
    }
}

#[test]
fn test_deserialize_mismatched_bits_num() {
    let bloom = with_hints(100, 0.1, test_hasher());
    let mut serialized = bloom.serialize().expect("serialization failed").to_vec();

    // magic(16) + version(1) + hash_num(4) + hasher_len(4) + hasher_data(136) = 161
    // bits_num is at index 161
    let bits_num_pos = 16 + 1 + 4 + 4 + XXH_SECRET_SIZE_MIN;
    let stored_bits_num = u64::from_le_bytes(
        serialized[bits_num_pos..bits_num_pos + 8]
            .try_into()
            .unwrap(),
    );

    // Change bits_num to something that doesn't match the buffer length
    let new_bits_num = stored_bits_num + 64;
    serialized[bits_num_pos..bits_num_pos + 8].copy_from_slice(&new_bits_num.to_le_bytes());

    let result: Result<Bloom<XxHasher>, _> = Bloom::deserialize(&serialized);
    match result {
        Err(DeserializeError::BufferTooShort { .. }) => {}
        _ => panic!(
            "Expected BufferTooShort due to mismatched bits_num, got {}",
            describe(&result)
        ),
    }
}

#[test]
fn test_deserialize_unaligned_buffer() {
    let bloom = with_hints(100, 0.1, test_hasher());
    let mut serialized = bloom.serialize().expect("serialization failed").to_vec();

    // Add one extra byte
    serialized.push(0);

    let result: Result<Bloom<XxHasher>, _> = Bloom::deserialize(&serialized);
    match result {
        Err(DeserializeError::BufferTooShort { .. }) => {}
        _ => panic!(
            "Expected BufferTooShort due to unaligned buffer, got {}",
            describe(&result)
        ),
    }
}

#[test]
fn test_deserialize_zero_bits_num() {
    let bloom = with_hints(100, 0.1, test_hasher());
    let mut serialized = bloom.serialize().expect("serialization failed").to_vec();

    let bits_num_pos = 16 + 1 + 4 + 4 + XXH_SECRET_SIZE_MIN;
    serialized[bits_num_pos..bits_num_pos + 8].copy_from_slice(&0u64.to_le_bytes());

    // We have to truncate the buffer to match expected_rem_size = 0
    serialized.truncate(bits_num_pos + 8);

    let result: Result<Bloom<XxHasher>, _> = Bloom::deserialize(&serialized);
    match result {
        Err(DeserializeError::BufferTooShort { .. }) => {}
        _ => panic!("Expected error for zero bits_num, got {}", describe(&result)),
    }
}

#[test]
fn test_serialized_layout() {
    let bloom = Bloom::with_bits(128, 5, test_hasher());
    let bytes = bloom.serialize().unwrap();
    assert_eq!(&bytes[0..16], b"BloomFile\x00\x00\x00\x00\x00\x00\x00");
    assert_eq!(bytes[16], 1);
    assert_eq!(&bytes[17..21], &5u32.to_le_bytes());
    assert_eq!(&bytes[21..25], &(XXH_SECRET_SIZE_MIN as u32).to_le_bytes());
    assert_eq!(&bytes[25..25 + XXH_SECRET_SIZE_MIN], &[0x42u8; XXH_SECRET_SIZE_MIN][..]);
    let at = 25 + XXH_SECRET_SIZE_MIN;
    assert_eq!(&bytes[at..at + 8], &128u64.to_le_bytes());
    assert_eq!(bytes.len(), at + 8 + 16);
    assert!(bytes[at + 8..].iter().all(|&b| b == 0));
}

#[test]
fn test_deserialize_short_secret() {
    // a secret under the minimum is refused by the hasher
    let bloom = Bloom::with_bits(64, 2, test_hasher());
    let mut bytes = bloom.serialize().unwrap();
    let short = (XXH_SECRET_SIZE_MIN - 1) as u32;
    bytes[21..25].copy_from_slice(&short.to_le_bytes());
    bytes.remove(25);
    let result: Result<Bloom<XxHasher>, _> = Bloom::deserialize(&bytes);
    match result {
        Err(DeserializeError::HasherError(XxHasherError::SecretTooShort { need, have })) => {
            assert_eq!(need, XXH_SECRET_SIZE_MIN);
            assert_eq!(have, XXH_SECRET_SIZE_MIN - 1);
        }
        _ => panic!("Expected HasherError, got {}", describe(&result)),
    }
}

#[test]
fn test_deserialize_reports_needed_length() {
    let bloom = Bloom::with_bits(64, 2, test_hasher());
    let bytes = bloom.serialize().unwrap();
    let result: Result<Bloom<XxHasher>, _> = Bloom::deserialize(&bytes[..10]);
    match result {
        Err(DeserializeError::BufferTooShort { need, have }) => {
            assert_eq!(need, 16);
            assert_eq!(have, 10);
        }
        _ => panic!("Expected BufferTooShort, got {}", describe(&result)),
    }
    // cut inside the words: counted from where the words start, the
    // next multiple of the word size is asked for
    let cut = bytes.len() - 3;
    let words_at = 25 + XXH_SECRET_SIZE_MIN + 8;
    let result: Result<Bloom<XxHasher>, _> = Bloom::deserialize(&bytes[..cut]);
    match result {
        Err(DeserializeError::BufferTooShort { need, have }) => {
            assert_eq!(need, words_at + 8 - (cut - words_at) % 8);
            assert_eq!(have, cut);
        }
        _ => panic!("Expected BufferTooShort, got {}", describe(&result)),
    }
    // a word too many
    let mut long = bytes.to_vec();
    long.extend_from_slice(&[0u8; 8]);
    let result: Result<Bloom<XxHasher>, _> = Bloom::deserialize(&long);
    match result {
        Err(DeserializeError::BufferTooShort { need, have }) => {
            assert_eq!(need, bytes.len());
            assert_eq!(have, long.len());
        }
        _ => panic!("Expected BufferTooShort, got {}", describe(&result)),
    }
}
