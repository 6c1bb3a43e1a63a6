use libtaurus::hash::{self, HASH_LEN};

#[test]
fn hex_formats() {
    let mut bytes = [0u8; HASH_LEN];
    for (i, b) in bytes.iter_mut().enumerate() {
        *b = i as u8;
    }
    let h = hash::Hash::with_bytes(bytes);
    assert_eq!(
        h.to_hex(),
        "000102030405060708090a0b0c0d0e0f101112131415161718191a1b1c1d1e1f"
    );
    assert_eq!(h.to_short_hex(), "00010203..");
}

#[test]
fn from_slice_checks_length() {
    let bytes: Vec<u8> = (0..32).collect();
    assert_eq!(hash::Hash::from_slice(&bytes).unwrap().as_slice().to_vec(), bytes);
    assert!(matches!(hash::Hash::from_slice(&bytes[..31]), Err(hash::Error::TryFromSlice)));
    let mut long = bytes.clone();
    long.push(0);
    assert!(matches!(hash::Hash::from_slice(&long), Err(hash::Error::TryFromSlice)));
}

#[test]
fn default_hash_is_zero() {
    assert_eq!(hash::Hash::default().as_slice(), &[0u8; HASH_LEN]);
}

#[test]
fn random_hashes_differ() {
    assert_ne!(hash::Hash::random(), hash::Hash::random());
}

#[test]
fn bytes_lt_is_lexicographic() {
    let a = hash::Hash::with_bytes([1u8; HASH_LEN]);
    let mut b_bytes = [1u8; HASH_LEN];
    b_bytes[31] = 2;
    let b = hash::Hash::with_bytes(b_bytes);
    assert!(a.bytes_lt(&b));
    assert!(!b.bytes_lt(&a));
    assert!(!a.bytes_lt(&a));
}
