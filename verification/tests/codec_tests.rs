use bs64::CodecError;

#[test]
fn simple() {
    let output = bs64::encode::encode(b"hello\n");
    assert_eq!(output, "aGVsbG8K");

    let output = bs64::encode::encode(b"helllo\n");
    assert_eq!(output, "aGVsbGxvCg==");
}

#[test]
fn decode_literal() {
    assert_eq!(bs64::decode(b"aGVsbG8K").unwrap(), b"hello\n");
    assert_eq!(bs64::decode(b"aGVsbGxvCg==").unwrap(), b"helllo\n");
}

#[test]
fn empty_round_trip() {
    assert_eq!(bs64::encode(b""), "");
    assert_eq!(bs64::decode(b"").unwrap(), Vec::<u8>::new());
}

#[test]
fn round_trip_all_lengths() {
    for n in 0..200usize {
        let input: Vec<u8> = (0..n).map(|i| (i * 37 + n) as u8).collect();
        let encoded = bs64::encode(&input);
        let decoded = bs64::decode(encoded.as_bytes()).unwrap();
        assert_eq!(decoded, input);
    }
}

#[test]
fn round_trip_block_boundary() {
    // one full 24-byte block, no scalar tail
    let input: Vec<u8> = (0..24u8).collect();
    let encoded = bs64::encode(&input);
    assert_eq!(encoded.len(), 32);
    assert_eq!(bs64::decode(encoded.as_bytes()).unwrap(), input);

    // one block plus a two-byte tail that needs padding
    let input: Vec<u8> = (0..26u8).collect();
    let encoded = bs64::encode(&input);
    assert!(encoded.ends_with('='));
    assert_eq!(bs64::decode(encoded.as_bytes()).unwrap(), input);
}

#[test]
fn length_formula() {
    for n in 0..200usize {
        let input = vec![7u8; n];
        let expected = if n % 3 == 0 { n / 3 * 4 } else { n / 3 * 4 + 4 };
        assert_eq!(bs64::encode_len(&input), expected);
        assert_eq!(bs64::encode(&input).len(), expected);
    }
}

#[test]
fn padding_shape() {
    for n in 1..100usize {
        let input = vec![0xABu8; n];
        let encoded = bs64::encode(&input);
        match n % 3 {
            0 => assert!(!encoded.contains('=')),
            1 => assert!(encoded.ends_with("==")),
            _ => {
                assert!(encoded.ends_with('='));
                assert!(!encoded.ends_with("=="));
            }
        }
    }
}

#[test]
fn scalar_block_parity() {
    // the plain scalar encoder, the block-tiled encoder, and the allocating
    // entry point agree byte for byte
    for n in 0..100usize {
        let input: Vec<u8> = (0..n).map(|i| (i * 101 + 3) as u8).collect();
        let from_scalar = bs64::encode::encode(&input);
        let from_block = bs64::encode(&input);
        assert_eq!(from_scalar, from_block);

        let mut buf = vec![0u8; bs64::encode_len(&input)];
        let written = bs64::simple::encode(&input, &mut buf);
        assert_eq!(written, buf.len());
        assert_eq!(from_block.as_bytes(), &buf[..]);
    }
}

#[test]
fn corrupted_byte_is_rejected() {
    let input: Vec<u8> = (0..50u8).collect();
    let encoded = bs64::encode(&input).into_bytes();
    let unpadded = encoded.len() - 2; // length 50 % 3 == 2: one pad at the end
    for j in 0..unpadded {
        let mut corrupted = encoded.clone();
        corrupted[j] = b'!';
        match bs64::decode(&corrupted) {
            Err(CodecError::InvalidInput(_, _, _, _)) => (),
            other => panic!("expected InvalidInput, got {:?}", other),
        }
    }
}

#[test]
fn invalid_input_names_first_bad_quartet() {
    match bs64::decode(b"abcdab!d") {
        Err(CodecError::InvalidInput(a, b, c, d)) => {
            assert_eq!((a, b, c, d), (b'a', b'b', b'!', b'd'));
        }
        other => panic!("expected InvalidInput, got {:?}", other),
    }
    // a pad character anywhere but the end is outside the alphabet
    match bs64::decode(b"ab=aabcd") {
        Err(CodecError::InvalidInput(a, b, c, d)) => {
            assert_eq!((a, b, c, d), (b'a', b'b', b'=', b'a'));
        }
        other => panic!("expected InvalidInput, got {:?}", other),
    }
    // an invalid byte in the short group left after stripping the padding
    match bs64::decode(b"abcda!==") {
        Err(CodecError::InvalidInput(a, b, c, d)) => {
            assert_eq!((a, b, c, d), (b'a', b'!', b'=', b'='));
        }
        other => panic!("expected InvalidInput, got {:?}", other),
    }
}

#[test]
fn input_length_errors() {
    for n in [1usize, 2, 3, 5, 6, 7, 9, 13] {
        let input = vec![b'A'; n];
        match bs64::decode(&input) {
            Err(CodecError::InputModError(l)) => assert_eq!(l, n),
            other => panic!("expected InputModError, got {:?}", other),
        }
    }
    for n in [4usize, 8, 12] {
        let input = vec![b'A'; n];
        assert!(bs64::decode(&input).is_ok());
    }
}

#[test]
fn output_too_short_errors() {
    let input = b"hello\n";
    let mut small = vec![0u8; 7];
    match bs64::encode_mut(input, &mut small) {
        Err(CodecError::OutputLengthTooShort(got, need)) => {
            assert_eq!(got, 7);
            assert_eq!(need, 8);
        }
        other => panic!("expected OutputLengthTooShort, got {:?}", other),
    }
    assert_eq!(small, vec![0u8; 7]);

    let mut small = vec![0u8; 5];
    match bs64::decode_mut(b"aGVsbG8K", &mut small) {
        Err(CodecError::OutputLengthTooShort(got, need)) => {
            assert_eq!(got, 5);
            assert_eq!(need, 6);
        }
        other => panic!("expected OutputLengthTooShort, got {:?}", other),
    }
}

#[test]
fn decode_mut_matches_decode() {
    for n in 0..100usize {
        let input: Vec<u8> = (0..n).map(|i| (i * 13 + 5) as u8).collect();
        let encoded = bs64::encode(&input).into_bytes();
        let expected = bs64::decode(&encoded).unwrap();
        let mut buf = vec![0u8; bs64::decode_len(&encoded)];
        let written = bs64::decode_mut(&encoded, &mut buf).unwrap();
        assert_eq!(&buf[..written], &expected[..]);
    }
}

#[test]
fn simple_decode_reports_exact_offsets() {
    // the decoder under simple:: is the one behind decode(); call it directly
    let encoded = bs64::encode(b"abcdefg").into_bytes();
    let mut buf = vec![0u8; bs64::decode_len(&encoded)];
    let written = bs64::simple::decode(&encoded, &mut buf).unwrap();
    assert_eq!(buf[..written].to_vec(), b"abcdefg".to_vec());
}

#[test]
fn options_entry_points() {
    let s = bs64::EncodeOptions::default().encode(b"hi");
    assert_eq!(s, "aGk=");
    let v = bs64::DecodeOptions::default().decode(b"aGk=").unwrap();
    assert_eq!(v, b"hi");
    let mut buf = vec![0u8; 4];
    let n = bs64::EncodeOptions::default().encode_mut(b"hi", &mut buf).unwrap();
    assert_eq!(n, 4);
    assert_eq!(buf, b"aGk=");
    let mut out = vec![0u8; 3];
    let n = bs64::DecodeOptions::default().decode_mut(b"aGk=", &mut out).unwrap();
    assert_eq!(n, 2);
    assert_eq!(out[..n].to_vec(), b"hi".to_vec());
}

#[test]
fn non_canonical_trailing_bits_accepted() {
    // only alphabet membership is checked: a quartet whose discarded low
    // bits are not zero still decodes
    assert_eq!(bs64::decode(b"AB==").unwrap(), vec![0u8]);
}
