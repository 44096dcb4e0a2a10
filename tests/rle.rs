use simple_file_compressor::rle;
use simple_file_compressor::CodecError;

#[test]
fn rle_simple_test() {
    let text: Vec<u8> = "ABBCCCDDDDFFFFF\n".bytes().collect();
    let encoded = rle::encode(&text).unwrap();
    let decoded = rle::decode(&encoded).unwrap();
    assert_eq!(text, decoded);
}

#[test]
fn rle_wire_format() {
    let text: Vec<u8> = "ABBCCC".bytes().collect();
    assert_eq!(vec![b'A', 1, b'B', 2, b'C', 3], rle::encode(&text).unwrap());
    let long = vec![7u8; 300];
    assert_eq!(vec![7, 0x82, 0x2C], rle::encode(&long).unwrap());
}

#[test]
fn rle_empty_input_fails() {
    assert_eq!(Err(CodecError::EmptyInput), rle::encode(&[]));
    assert_eq!(Err(CodecError::EmptyInput), rle::decode(&[]));
}

#[test]
fn rle_truncated_count_fails() {
    assert_eq!(Err(CodecError::MalformedVarsize), rle::decode(&[b'A']));
    assert_eq!(Err(CodecError::MalformedVarsize), rle::decode(&[b'A', 0x81]));
}
