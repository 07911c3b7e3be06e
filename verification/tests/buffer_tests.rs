use bs64::codecs::fairy::Fairy;
use bs64::codecs::sponge::Sponge;
use bs64::codecs::vanilla::Vanilla;
use bs64::codecs::{Codec, CodecBuf, CodecError};

#[test]
fn buffer_push_and_len() {
    let mut buf = CodecBuf::new();
    assert_eq!(buf.len(), 0);
    buf.push(1).unwrap();
    buf.push(2).unwrap();
    assert_eq!(buf.len(), 2);
    assert_eq!(buf.as_bytes(), &[1u8, 2u8][..]);
    buf.clear();
    assert_eq!(buf.len(), 0);
}

#[test]
fn buffer_push_overflow() {
    let mut buf = CodecBuf::new();
    for i in 0..1024 {
        buf.push(i as u8).unwrap();
    }
    assert!(matches!(buf.push(0), Err(CodecError::BufferOverflow)));
    assert_eq!(buf.len(), 1024);
}

#[test]
fn buffer_extend_by_slice() {
    let mut buf = CodecBuf::new();
    buf.extend_by_slice(b"abc").unwrap();
    buf.extend_by_slice(b"de").unwrap();
    assert_eq!(buf.as_bytes(), b"abcde".as_slice());
    // extend_by_slice refuses to fill the buffer to its very last byte
    let mut buf = CodecBuf::new();
    let big = vec![7u8; 1024];
    assert!(matches!(
        buf.extend_by_slice(&big),
        Err(CodecError::BufferOverflow)
    ));
    assert_eq!(buf.len(), 0);
    buf.extend_by_slice(&big[..1023]).unwrap();
    assert_eq!(buf.len(), 1023);
}

#[test]
fn buffer_copy_from_slice() {
    let mut buf = CodecBuf::new();
    buf.extend_by_slice(b"something").unwrap();
    buf.copy_from_slice(b"xyz");
    assert_eq!(buf.as_bytes(), b"xyz".as_slice());
}

#[test]
fn buffer_chunks() {
    let mut buf = CodecBuf::new();
    buf.extend_by_slice(b"abcdefgh").unwrap();
    let chunks = buf.chunks(3);
    assert_eq!(chunks.len(), 3);
    assert_eq!(chunks[0], b"abc".to_vec());
    assert_eq!(chunks[1], b"def".to_vec());
    assert_eq!(chunks[2], b"gh".to_vec());
    let whole = buf.chunks(100);
    assert_eq!(whole.len(), 1);
    assert_eq!(whole[0], b"abcdefgh".to_vec());
    buf.clear();
    assert_eq!(buf.chunks(4).len(), 0);
}

fn encode_with<C: Codec>(codec: &C, data: &[u8]) -> Vec<u8> {
    let mut input = CodecBuf::new();
    input.copy_from_slice(data);
    let mut output = CodecBuf::new();
    codec.encode_buf(&mut input, &mut output).unwrap();
    output.as_bytes().to_vec()
}

#[test]
fn vanilla_matches_encode() {
    for n in 0..80usize {
        let data: Vec<u8> = (0..n).map(|i| (i * 29 + 1) as u8).collect();
        let expected = bs64::encode(&data).into_bytes();
        assert_eq!(encode_with(&Vanilla::default(), &data), expected);
    }
}

#[test]
fn fairy_matches_encode() {
    for n in 0..80usize {
        let data: Vec<u8> = (0..n).map(|i| (i * 53 + 11) as u8).collect();
        let expected = bs64::encode(&data).into_bytes();
        assert_eq!(encode_with(&Fairy::default(), &data), expected);
    }
}

#[test]
fn sponge_matches_encode() {
    for n in 0..80usize {
        let data: Vec<u8> = (0..n).map(|i| (i * 71 + 17) as u8).collect();
        let expected = bs64::encode(&data).into_bytes();
        assert_eq!(encode_with(&Sponge::default(), &data), expected);
    }
}

#[test]
fn codecs_append_to_existing_output() {
    let mut input = CodecBuf::new();
    input.copy_from_slice(b"hello\n");
    let mut output = CodecBuf::new();
    output.extend_by_slice(b">> ").unwrap();
    Vanilla::default().encode_buf(&mut input, &mut output).unwrap();
    assert_eq!(output.as_bytes(), b">> aGVsbG8K".as_slice());
}

#[test]
fn encode_buf_overflow_reported() {
    let mut input = CodecBuf::new();
    input.copy_from_slice(&[0u8; 900]);
    let mut output = CodecBuf::new();
    output.extend_by_slice(&[b'x'; 500]).unwrap();
    // 500 + 1200 encoded characters cannot fit in 1024
    assert!(matches!(
        Vanilla::default().encode_buf(&mut input, &mut output),
        Err(CodecError::BufferOverflow)
    ));
    let mut output = CodecBuf::new();
    output.extend_by_slice(&[b'x'; 500]).unwrap();
    assert!(matches!(
        Fairy::default().encode_buf(&mut input, &mut output),
        Err(CodecError::BufferOverflow)
    ));
    let mut output = CodecBuf::new();
    output.extend_by_slice(&[b'x'; 500]).unwrap();
    assert!(matches!(
        Sponge::default().encode_buf(&mut input, &mut output),
        Err(CodecError::BufferOverflow)
    ));
}

#[test]
fn fairy_push_chars_lut() {
    let mut output = CodecBuf::new();
    bs64::codecs::fairy::push_chars_lut(b"hel", &mut output).unwrap();
    assert_eq!(output.as_bytes(), b"aGVs".as_slice());
    bs64::codecs::fairy::push_chars_lut_n(b"lo", &mut output).unwrap();
    assert_eq!(output.as_bytes(), b"aGVsbG8".as_slice());
    let mut output = CodecBuf::new();
    bs64::codecs::fairy::push_chars_lut_n(b"h", &mut output).unwrap();
    assert_eq!(output.as_bytes(), b"aA".as_slice());
}

#[test]
fn vanilla_push_chars() {
    let mut output = CodecBuf::new();
    bs64::codecs::vanilla::push_chars(b"hel", &mut output, 4).unwrap();
    assert_eq!(output.as_bytes(), b"aGVs".as_slice());
    bs64::codecs::vanilla::push_chars(b"lo\0", &mut output, 3).unwrap();
    assert_eq!(output.as_bytes(), b"aGVsbG8".as_slice());
}

#[test]
fn sponge_decode_buf_round_trip() {
    let data = b"round trip through the backing crate";
    let encoded = bs64::encode(data).into_bytes();
    let mut decoded: Vec<u8> = Vec::new();
    Sponge::default().decode_buf(&encoded, &mut decoded).unwrap();
    assert_eq!(decoded, data);
}
