use hkdf_tree::encoding::{
    encode_alphanumeric, encode_base64, encode_diceware, encode_numeric, sample_uniform, BitReader,
    EncodeError,
};

/// A tiny wordlist for deterministic tests. Not for real use.
const TEST_WORDLIST: &[&str] = &[
    "alpha", "bravo", "charlie", "delta", "echo", "foxtrot", "golf", "hotel",
];

const KAT_BYTES: &[u8] = &[
    0x00, 0x11, 0x22, 0x33, 0x44, 0x55, 0x66, 0x77, 0x88, 0x99, 0xaa, 0xbb, 0xcc, 0xdd, 0xee,
    0xff, 0x0f, 0x1e, 0x2d, 0x3c, 0x4b, 0x5a, 0x69, 0x78, 0x87, 0x96, 0xa5, 0xb4, 0xc3, 0xd2,
    0xe1, 0xf0,
];

fn varied(mult: u8) -> [u8; 32] {
    let mut a = [0u8; 32];
    for (i, b) in a.iter_mut().enumerate() {
        *b = (i as u8).wrapping_mul(mult);
    }
    a
}

#[test]
fn kat_bit_reader_mixed_widths() {
    let bytes = [0b1011_0010, 0b0100_1101];
    let mut r = BitReader::new(&bytes);
    assert_eq!(r.read(3), Some(0b101));
    assert_eq!(r.read(5), Some(0b10010));
    assert_eq!(r.read(6), Some(0b010011));
    assert_eq!(r.read(2), Some(0b01));
    assert_eq!(r.read(1), None);
}

#[test]
fn kat_sample_uniform_rejects_out_of_range() {
    let bytes = [0b1110_0000, 0b0000_0000];
    let mut r = BitReader::new(&bytes);
    assert_eq!(sample_uniform(&mut r, 5), Some(0));
    assert_eq!(r.bit_pos(), 6);
}

#[test]
fn kat_sample_uniform_accepts_max_minus_one() {
    let bytes = [0b1000_0000];
    let mut r = BitReader::new(&bytes);
    assert_eq!(sample_uniform(&mut r, 3), Some(2));
}

#[test]
fn kat_diceware_exact_output() {
    let out = encode_diceware(KAT_BYTES, TEST_WORDLIST, 6).expect("encode");
    assert_eq!(
        out.as_str(),
        "alpha alpha alpha bravo alpha echo",
        "diceware output changed -- this breaks every derived passphrase"
    );
}

#[test]
fn kat_alphanumeric_exact_output() {
    let out = encode_alphanumeric(KAT_BYTES, 16).expect("encode");
    assert_eq!(
        out.as_str(),
        "ABEiM0RVZneImaq7",
        "alphanumeric output changed -- this breaks every derived password"
    );
}

#[test]
fn kat_numeric_exact_output() {
    let out = encode_numeric(KAT_BYTES, 12).expect("encode");
    assert_eq!(
        out.as_str(),
        "001122334455",
        "numeric output changed -- this breaks every derived PIN"
    );
}

#[test]
fn kat_rejection_sampling_diverges_from_base64() {
    let all_ones = [0xff_u8; 32];
    assert!(
        matches!(
            encode_alphanumeric(&all_ones, 8),
            Err(EncodeError::InsufficientEntropy)
        ),
        "every 6-bit group of 0xff is 63, which must always be rejected"
    );
    let b64 = encode_base64(&all_ones, 6).expect("encode");
    assert_eq!(b64.as_str(), "////////");

    let mixed = [
        0x0f_u8, 0xff, 0x0f, 0xff, 0x0f, 0xff, 0x0f, 0xff, 0x0f, 0xff, 0x0f, 0xff,
    ];
    let alnum = encode_alphanumeric(&mixed, 4).expect("encode");
    let b64_mixed = encode_base64(&mixed, 3).expect("encode");
    assert_eq!(
        alnum.as_str(),
        "D8Pw",
        "rejection sampling changed -- derived passwords would change"
    );
    assert_eq!(b64_mixed.as_str(), "D/8P");
    assert_ne!(alnum.as_str(), b64_mixed.as_str());
}

#[test]
fn kat_boundary_value_62_is_rejected() {
    let bytes = [0xf8_u8, 0x00];
    let out = encode_alphanumeric(&bytes, 1).expect("encode");
    assert_eq!(
        out.as_str(),
        "A",
        "the value 62 must be rejected, not accepted as an index"
    );
}

#[test]
fn kat_base64_exact_output() {
    let out = encode_base64(KAT_BYTES, 12).expect("encode");
    assert_eq!(
        out.as_str(),
        "ABEiM0RVZneImaq7",
        "base64 output changed -- this breaks every derived blob"
    );
}

#[test]
fn bit_reader_reads_msb_first() {
    let bytes = [0b1010_1010];
    let mut r = BitReader::new(&bytes);
    assert_eq!(r.read(4), Some(0b1010));
    assert_eq!(r.read(4), Some(0b1010));
    assert_eq!(r.read(1), None);
}

#[test]
fn bit_reader_crosses_byte_boundary() {
    let bytes = [0xFF, 0x00];
    let mut r = BitReader::new(&bytes);
    assert_eq!(r.read(12), Some(0xFF0));
}

#[test]
fn sample_uniform_never_returns_out_of_range() {
    let bytes = varied(37);
    let mut r = BitReader::new(&bytes);
    for _ in 0..10 {
        let s = sample_uniform(&mut r, 7).expect("should not exhaust");
        assert!(s < 7);
    }
}

#[test]
fn diceware_is_deterministic() {
    let bytes = [0x12, 0x34, 0x56, 0x78, 0x9a, 0xbc, 0xde, 0xf0];
    let a = encode_diceware(&bytes, TEST_WORDLIST, 4).unwrap();
    let b = encode_diceware(&bytes, TEST_WORDLIST, 4).unwrap();
    assert_eq!(&*a, &*b);
}

#[test]
fn diceware_produces_space_separated_words() {
    let bytes = [0x00, 0x00, 0x00, 0x00];
    let out = encode_diceware(&bytes, TEST_WORDLIST, 4).unwrap();
    let words: Vec<&str> = out.split(' ').collect();
    assert_eq!(words.len(), 4);
    for w in words {
        assert!(TEST_WORDLIST.contains(&w));
    }
}

#[test]
fn diceware_all_zeros_gives_first_word_repeatedly() {
    let bytes = [0x00; 4];
    let out = encode_diceware(&bytes, TEST_WORDLIST, 3).unwrap();
    assert_eq!(&*out, "alpha alpha alpha");
}

#[test]
fn diceware_rejects_empty_wordlist() {
    let err = encode_diceware(&[0u8; 8], &[], 4).unwrap_err();
    assert_eq!(err, EncodeError::InvalidWordlistSize(0));
}

#[test]
fn diceware_rejects_zero_length() {
    let err = encode_diceware(&[0u8; 8], TEST_WORDLIST, 0).unwrap_err();
    assert_eq!(err, EncodeError::ZeroLength);
}

#[test]
fn diceware_returns_insufficient_entropy_when_buffer_short() {
    let err = encode_diceware(&[0xFF; 4], TEST_WORDLIST, 100).unwrap_err();
    assert_eq!(err, EncodeError::InsufficientEntropy);
}

#[test]
fn numeric_produces_digits_only() {
    let bytes = [0x12, 0x34, 0x56, 0x78, 0x9a, 0xbc, 0xde, 0xf0];
    let out = encode_numeric(&bytes, 6).unwrap();
    assert_eq!(out.len(), 6);
    for c in out.chars() {
        assert!(c.is_ascii_digit(), "non-digit in {}", out);
    }
}

#[test]
fn numeric_is_deterministic() {
    let bytes = [0x12, 0x34, 0x56, 0x78, 0x9a, 0xbc, 0xde, 0xf0];
    let a = encode_numeric(&bytes, 6).unwrap();
    let b = encode_numeric(&bytes, 6).unwrap();
    assert_eq!(&*a, &*b);
}

#[test]
fn alphanumeric_produces_only_charset_characters() {
    let bytes = varied(37);
    let out = encode_alphanumeric(&bytes, 12).unwrap();
    assert_eq!(out.len(), 12);
    for c in out.chars() {
        assert!(c.is_ascii_alphanumeric(), "non-alphanumeric in {}", out);
    }
}

#[test]
fn alphanumeric_is_deterministic() {
    let bytes = varied(41);
    let a = encode_alphanumeric(&bytes, 16).unwrap();
    let b = encode_alphanumeric(&bytes, 16).unwrap();
    assert_eq!(&*a, &*b);
}

#[test]
fn base64_matches_known_vector() {
    let bytes = b"hello";
    let out = encode_base64(bytes, 5).unwrap();
    assert_eq!(&*out, "aGVsbG8=");
}

#[test]
fn base64_rejects_short_buffer() {
    let err = encode_base64(&[0u8; 4], 10).unwrap_err();
    assert_eq!(err, EncodeError::InsufficientEntropy);
}

#[test]
fn base64_takes_only_requested_bytes() {
    let out = encode_base64(b"abcdef", 3).unwrap();
    assert_eq!(&*out, "YWJj");
}

// ---------------------------------------------------------------------------
// Further cases
// ---------------------------------------------------------------------------

#[test]
fn bit_reader_zero_width_read_consumes_nothing() {
    let bytes = [0xAB];
    let mut r = BitReader::new(&bytes);
    assert_eq!(r.read(0), Some(0));
    assert_eq!(r.bit_pos(), 0);
    assert_eq!(r.read(8), Some(0xAB));
    assert_eq!(r.read(0), Some(0));
    assert_eq!(r.bit_pos(), 8);
}

#[test]
fn bit_reader_full_width_read() {
    let bytes = [0xDE, 0xAD, 0xBE, 0xEF, 0x01];
    let mut r = BitReader::new(&bytes);
    assert_eq!(r.read(32), Some(0xDEAD_BEEF));
    assert_eq!(r.read(32), None);
    assert_eq!(r.bit_pos(), 32);
}

#[test]
fn sample_uniform_single_symbol_alphabet_reads_no_bits() {
    let bytes: [u8; 0] = [];
    let mut r = BitReader::new(&bytes);
    assert_eq!(sample_uniform(&mut r, 1), Some(0));
    assert_eq!(r.bit_pos(), 0);
}

#[test]
fn sample_uniform_exhausted_stream_gives_none() {
    let bytes = [0xFF];
    let mut r = BitReader::new(&bytes);
    // 3-bit samples of 0b111 = 7 are all rejected against max 5; the third read fails.
    assert_eq!(sample_uniform(&mut r, 5), None);
    assert_eq!(r.bit_pos(), 6);
}

#[test]
fn diceware_single_word_list_always_picks_it() {
    let out = encode_diceware(&[], &["only"], 3).unwrap();
    assert_eq!(out.as_str(), "only only only");
}

#[test]
fn numeric_rejects_zero_length() {
    assert_eq!(encode_numeric(&[0u8; 8], 0).unwrap_err(), EncodeError::ZeroLength);
}

#[test]
fn alphanumeric_rejects_zero_length() {
    assert_eq!(encode_alphanumeric(&[0u8; 8], 0).unwrap_err(), EncodeError::ZeroLength);
}

#[test]
fn base64_rejects_zero_count() {
    assert_eq!(encode_base64(&[0u8; 8], 0).unwrap_err(), EncodeError::ZeroLength);
}

#[test]
fn numeric_rejects_ten_and_above() {
    // 4-bit samples 1111 (15) and 1010 (10) are rejected, 0111 (7) accepted.
    let out = encode_numeric(&[0xFA, 0x70], 1).unwrap();
    assert_eq!(out.as_str(), "7");
}

#[test]
fn base64_padding_one_and_two_bytes() {
    assert_eq!(encode_base64(b"a", 1).unwrap().as_str(), "YQ==");
    assert_eq!(encode_base64(b"ab", 2).unwrap().as_str(), "YWI=");
}

#[test]
fn base64_and_alphanumeric_agree_without_rejections() {
    // No 6-bit group of these 12 bytes reaches 62.
    let out_a = encode_alphanumeric(KAT_BYTES, 16).unwrap();
    let out_b = encode_base64(KAT_BYTES, 12).unwrap();
    assert_eq!(out_a, out_b);
}

#[test]
fn longer_buffer_keeps_successful_output() {
    let short = encode_numeric(KAT_BYTES, 12).unwrap();
    let mut longer = KAT_BYTES.to_vec();
    longer.extend_from_slice(&[0xAA; 16]);
    let long = encode_numeric(&longer, 12).unwrap();
    assert_eq!(short, long);
}

#[test]
fn encode_error_messages() {
    assert_eq!(EncodeError::InsufficientEntropy.message(), "insufficient entropy in input buffer");
    assert_eq!(EncodeError::InvalidWordlistSize(0).message(), "wordlist size 0 is out of range");
    assert_eq!(EncodeError::ZeroLength.message(), "output length must be at least 1");
}

#[test]
fn numeric_takes_accepted_nibbles_in_order() {
    // Nibbles 1, 2, A, B, 3, C: the values 10 and above are skipped.
    let bytes = [0x12, 0xAB, 0x3C];
    assert_eq!(encode_numeric(&bytes, 3).unwrap(), "123");
    assert_eq!(encode_numeric(&bytes, 4).unwrap_err(), EncodeError::InsufficientEntropy);
    // Every 6-bit group of 0xFF bytes is 63, never below 62.
    assert_eq!(encode_alphanumeric(&[0xff; 32], 8).unwrap_err(), EncodeError::InsufficientEntropy);
    // Base64 of n bytes has 4 * ceil(n / 3) characters.
    for n in 1..10 {
        assert_eq!(encode_base64(&[7u8; 10], n).unwrap().len(), 4 * ((n + 2) / 3));
    }
}

#[test]
fn sample_uniform_takes_first_accepted_group_and_stops_after_it() {
    // Nibbles F, F, 1, 2 for max 10 (4-bit groups): the third is the first
    // accepted one, so the reader stops after 3 groups.
    let bytes = [0xFF, 0x12];
    let mut r = BitReader::new(&bytes);
    assert_eq!(sample_uniform(&mut r, 10), Some(1));
    assert_eq!(r.bit_pos(), 12);
    // With no accepted group left the draw fails past every whole group.
    let bytes = [0xFF, 0xFF, 0xFF];
    let mut r = BitReader::new(&bytes);
    assert_eq!(sample_uniform(&mut r, 62), None);
    assert_eq!(r.bit_pos(), 24);
}
