use hkdf_tree::{derive_bytes, DeriveError, MAX_OUTPUT_LEN};

fn hex(s: &str) -> Vec<u8> {
    let digits: Vec<u8> = s
        .bytes()
        .filter(|b| !b.is_ascii_whitespace())
        .map(|b| match b {
            b'0'..=b'9' => b - b'0',
            b'a'..=b'f' => b - b'a' + 10,
            b'A'..=b'F' => b - b'A' + 10,
            _ => panic!("invalid hex in test vector"),
        })
        .collect();
    assert!(digits.len() % 2 == 0, "invalid hex in test vector");
    digits.chunks(2).map(|p| p[0] * 16 + p[1]).collect()
}

#[test]
fn rfc5869_a1_basic() {
    let ikm = hex("0b0b0b0b0b0b0b0b0b0b0b0b0b0b0b0b0b0b0b0b0b0b");
    let salt = hex("000102030405060708090a0b0c");
    let info = hex("f0f1f2f3f4f5f6f7f8f9");
    let expected_okm = hex("3cb25f25faacd57a90434f64d0362f2a\
         2d2d0a90cf1a5a4c5db02d56ecc4c5bf\
         34007208d5b887185865");

    let okm = derive_bytes(&ikm, &salt, &info, 42).expect("derive succeeds");
    assert_eq!(&*okm, expected_okm.as_slice());
}

#[test]
fn rfc5869_a2_long() {
    let ikm = hex("000102030405060708090a0b0c0d0e0f\
         101112131415161718191a1b1c1d1e1f\
         202122232425262728292a2b2c2d2e2f\
         303132333435363738393a3b3c3d3e3f\
         404142434445464748494a4b4c4d4e4f");
    let salt = hex("606162636465666768696a6b6c6d6e6f\
         707172737475767778797a7b7c7d7e7f\
         808182838485868788898a8b8c8d8e8f\
         909192939495969798999a9b9c9d9e9f\
         a0a1a2a3a4a5a6a7a8a9aaabacadaeaf");
    let info = hex("b0b1b2b3b4b5b6b7b8b9babbbcbdbebf\
         c0c1c2c3c4c5c6c7c8c9cacbcccdcecf\
         d0d1d2d3d4d5d6d7d8d9dadbdcdddedf\
         e0e1e2e3e4e5e6e7e8e9eaebecedeeef\
         f0f1f2f3f4f5f6f7f8f9fafbfcfdfeff");
    let expected_okm = hex("b11e398dc80327a1c8e7f78c596a4934\
         4f012eda2d4efad8a050cc4c19afa97c\
         59045a99cac7827271cb41c65e590e09\
         da3275600c2f09b8367793a9aca3db71\
         cc30c58179ec3e87c14c01d5c1f3434f\
         1d87");

    let okm = derive_bytes(&ikm, &salt, &info, 82).expect("derive succeeds");
    assert_eq!(&*okm, expected_okm.as_slice());
}

#[test]
fn rfc5869_a3_empty_salt_and_info() {
    let ikm = hex("0b0b0b0b0b0b0b0b0b0b0b0b0b0b0b0b0b0b0b0b0b0b");
    let salt: &[u8] = &[];
    let info: &[u8] = &[];
    let expected_okm = hex("8da4e775a563c18f715f802a063c5a31\
         b8a11f5c5ee1879ec3454e5f3c738d2d\
         9d201395faa4b61a96c8");

    let okm = derive_bytes(&ikm, salt, info, 42).expect("derive succeeds");
    assert_eq!(&*okm, expected_okm.as_slice());
}

#[test]
fn output_too_long_is_rejected() {
    let ikm = [0u8; 32];
    let ok = derive_bytes(&ikm, &[], &[], MAX_OUTPUT_LEN).expect("max length must work");
    assert_eq!(
        ok.len(),
        8160,
        "MAX_OUTPUT_LEN is 255 * 32 -- HKDF cannot expand beyond 255 hash blocks"
    );
    let err = derive_bytes(&ikm, &[], &[], MAX_OUTPUT_LEN + 1).unwrap_err();
    assert_eq!(
        err,
        DeriveError::OutputTooLong {
            requested: MAX_OUTPUT_LEN + 1,
            max: MAX_OUTPUT_LEN,
        }
    );
}

#[test]
fn max_output_len_is_accepted() {
    let ikm = [0u8; 32];
    let okm = derive_bytes(&ikm, &[], &[], MAX_OUTPUT_LEN).expect("boundary allowed");
    assert_eq!(okm.len(), MAX_OUTPUT_LEN);
}

#[test]
fn same_inputs_produce_same_output() {
    let ikm = b"deterministic input";
    let salt = b"public-salt-v1";
    let info = b"alice/laptop/fde-daily-v1";
    let a = derive_bytes(ikm, salt, info, 64).unwrap();
    let b = derive_bytes(ikm, salt, info, 64).unwrap();
    assert_eq!(&*a, &*b);
}

#[test]
fn different_info_produces_different_output() {
    let ikm = b"deterministic input";
    let salt = b"public-salt-v1";
    let a = derive_bytes(ikm, salt, b"alice/laptop/fde-daily-v1", 32).unwrap();
    let b = derive_bytes(ikm, salt, b"alice/laptop/fde-daily-v2", 32).unwrap();
    assert_ne!(&*a, &*b);
}

#[test]
fn different_salt_produces_different_output() {
    let ikm = b"deterministic input";
    let info = b"alice/laptop/fde-daily-v1";
    let a = derive_bytes(ikm, b"salt-a-v1", info, 32).unwrap();
    let b = derive_bytes(ikm, b"salt-b-v1", info, 32).unwrap();
    assert_ne!(&*a, &*b);
}

#[test]
fn zero_length_output_is_empty() {
    let okm = derive_bytes(b"seed", b"salt", b"info", 0).unwrap();
    assert!(okm.is_empty());
}

#[test]
fn derive_error_message() {
    let err = derive_bytes(b"seed", b"", b"", 9000).unwrap_err();
    assert_eq!(
        err.message(),
        "output length 9000 bytes exceeds HKDF-SHA256 maximum of 8160 bytes"
    );
}

#[test]
fn empty_salt_acts_as_32_zero_bytes() {
    let ikm = b"some master seed material";
    let empty = derive_bytes(ikm, &[], b"info", 42).unwrap();
    let zeros = derive_bytes(ikm, &[0u8; 32], b"info", 42).unwrap();
    assert_eq!(empty, zeros);
    let one = derive_bytes(ikm, &[0u8; 1], b"info", 42).unwrap();
    assert_eq!(one, zeros);
}
