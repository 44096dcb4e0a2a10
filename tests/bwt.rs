use simple_file_compressor::bwt;
use simple_file_compressor::CodecError;

#[test]
fn burrows_wheeler_burrows_wheeler_encode() {
    let text: Vec<u8> = "BANANA".bytes().collect();
    let (index, transformed) = bwt::encode(&text);

    let result: Vec<u8> = "NNBAAA".bytes().collect();
    assert_eq!((3, result), (index, transformed));
}

#[test]
fn burrows_wheeler_burrows_wheeler_decode() {
    let text: Vec<u8> = "NNBAAA".bytes().collect();
    let transformed = bwt::decode(3, &text).unwrap();
    let result: Vec<u8> = "BANANA".bytes().collect();
    assert_eq!(result, transformed);

    let text: Vec<u8> = "ACAACG".bytes().collect();
    let (index, encoded) = bwt::encode(&text);
    let decoded = bwt::decode(index, &encoded).unwrap();
    assert_eq!(text, decoded);
}

#[test]
fn burrows_wheeler_encoding_with_metadatas() {
    let text: Vec<u8> = "BANANA".bytes().collect();

    let encoded = bwt::encode_with_metadata(&text);
    let decoded = bwt::decode_with_metadata(&encoded).unwrap();
    assert_eq!(text, decoded);

    let encoded = bwt::encode_with_metadata(&text);
    let decoded = bwt::decode_with_metadata(&encoded).unwrap();
    assert_eq!(text, decoded);
}

#[test]
fn bwt_banana_frame() {
    let text: Vec<u8> = "BANANA".bytes().collect();
    let mut expected = vec![3u8];
    expected.extend("NNBAAA".bytes());
    assert_eq!(expected, bwt::encode_with_metadata(&text));
}

#[test]
fn bwt_periodic_input_round_trips() {
    let text: Vec<u8> = "abababab".bytes().collect();
    let (index, encoded) = bwt::encode(&text);
    assert_eq!(0, index);
    assert_eq!(text, bwt::decode(index, &encoded).unwrap());
}

#[test]
fn bwt_row_outside_block_fails() {
    assert_eq!(Err(CodecError::InvalidPrimaryIndex), bwt::decode(6, b"NNBAAA"));
    assert_eq!(Ok(vec![]), bwt::decode(0, b""));
}
