use calamine::error::ExcelError;
use calamine::rle::decompress_stream;

#[test]
fn single_literal_chunk() {
    let c = [0x01, 0x03, 0x80, 0x00, 0xAB];
    assert_eq!(decompress_stream(&c).unwrap(), vec![0xAB]);
}

#[test]
fn bad_signature_byte() {
    match decompress_stream(&[0x02, 0x03, 0x80, 0x00, 0xAB]) {
        Err(ExcelError::Malformed(m)) => assert_eq!(m, "invalid signature byte"),
        other => panic!("unexpected {:?}", other),
    }
}

#[test]
fn empty_input_is_an_io_error() {
    assert!(matches!(decompress_stream(&[]), Err(ExcelError::Io(_))));
}

#[test]
fn signature_alone_gives_nothing() {
    assert_eq!(decompress_stream(&[0x01]).unwrap(), Vec::<u8>::new());
}

#[test]
fn copy_token_repeats_earlier_bytes() {
    // "abc" as literals, then a copy token: offset 3, length 6 ("abcabc").
    // With 3 bytes decompressed the bit count is 4: offset (3 - 1) << 12, length 6 - 3.
    let token: u16 = (2 << 12) | 3;
    let c = [0x01, 0x06, 0x80, 0x08, b'a', b'b', b'c', (token & 0xFF) as u8, (token >> 8) as u8];
    assert_eq!(decompress_stream(&c).unwrap(), b"abcabcabc".to_vec());
}

#[test]
fn self_overlapping_copy() {
    // One literal then a copy of offset 1, length 5.
    let token: u16 = 5 - 3;
    let c = [0x01, 0x04, 0x80, 0x02, b'x', (token & 0xFF) as u8, (token >> 8) as u8];
    assert_eq!(decompress_stream(&c).unwrap(), b"xxxxxx".to_vec());
}

#[test]
fn copy_token_before_start_is_an_error() {
    let c = [0x01, 0x03, 0x80, 0x01, 0x00, 0x00];
    assert!(decompress_stream(&c).is_err());
}

#[test]
fn uncompressed_chunk() {
    let mut c = vec![0x01, 0xFF, 0x3F];
    let body: Vec<u8> = (0..4096u32).map(|i| (i % 251) as u8).collect();
    c.extend_from_slice(&body);
    assert_eq!(decompress_stream(&c).unwrap(), body);
}

#[test]
fn truncated_uncompressed_chunk() {
    let c = [0x01, 0xFF, 0x3F, 1, 2, 3];
    assert!(matches!(decompress_stream(&c), Err(ExcelError::Io(_))));
}

/// Literal-only encoding: chunks of up to eight bytes, header 0x8000 + k, flag 0.
fn literal_form(b: &[u8]) -> Vec<u8> {
    let mut c = vec![0x01];
    for chunk in b.chunks(8) {
        c.extend_from_slice(&[chunk.len() as u8, 0x80, 0x00]);
        c.extend_from_slice(chunk);
    }
    c
}

#[test]
fn literal_form_round_trips() {
    let b: Vec<u8> = (0..100u32).map(|i| (i * 7 % 256) as u8).collect();
    assert_eq!(decompress_stream(&literal_form(&b)).unwrap(), b);
    assert_eq!(decompress_stream(&literal_form(b"Attribute VB_Name")).unwrap(), b"Attribute VB_Name".to_vec());
}

#[test]
fn consecutive_compressed_chunks_decode_independently() {
    assert_eq!(decompress_stream(&[0x01, 0x01, 0x80, 0x00, 0x41]).unwrap(), vec![0x41]);
    assert_eq!(decompress_stream(&[0x01, 0x01, 0x80, 0x00, 0x42]).unwrap(), vec![0x42]);
    let joined = [0x01, 0x01, 0x80, 0x00, 0x41, 0x01, 0x80, 0x00, 0x42];
    assert_eq!(decompress_stream(&joined).unwrap(), vec![0x41, 0x42]);
}

#[test]
fn long_source_spans_many_chunks() {
    let b: Vec<u8> = (0..10000u32).map(|i| (i % 97) as u8 + 32).collect();
    assert_eq!(decompress_stream(&literal_form(&b)).unwrap(), b);
}

#[test]
fn copy_token_reaching_into_an_earlier_chunk_is_malformed() {
    let c = [0x01, 0x01, 0x80, 0x00, 0x41, 0x02, 0x80, 0x01, 0x00, 0x00];
    assert!(matches!(decompress_stream(&c), Err(ExcelError::Malformed(_))));
}
