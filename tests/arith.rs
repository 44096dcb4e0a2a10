use simple_file_compressor::arith;
use simple_file_compressor::CodecError;

#[test]
fn arithmetic_simple_test() {
    let text: Vec<u8> = "RGGRRRGGGB\n".bytes().collect();

    let (offset, freq, encoded) = arith::encode(&text);
    let decoded = arith::decode(offset, freq, &encoded).unwrap();

    assert_eq!(text, decoded);
}

#[test]
fn arithmetic_medium_test() {
    let echantillon: Vec<u8> = "AAAAACCCCadkjahsdkjashdkjashdjkashdkjashdCCCBBB".bytes().collect();

    let mut text: Vec<u8> = Vec::new();
    for _ in 0..100 {
        text.extend_from_slice(&echantillon);
    }

    let (offset, freq, encoded) = arith::encode(&text);
    let decoded = arith::decode(offset, freq, &encoded).unwrap();

    assert_eq!(text, decoded);
}

#[test]
fn arithmetic_extensive_test() {
    let echantillon: Vec<u8> = (0..256).into_iter().map(|x| x as u8).collect();
    let mut text: Vec<u8> = Vec::new();

    for _ in 0..3 {
        text.extend_from_slice(&echantillon);
    }

    let (offset, freq, encoded) = arith::encode(&text);
    let decoded = arith::decode(offset, freq, &encoded).unwrap();

    assert_eq!(text, decoded);
}

#[test]
fn arithmetic_encode_n_decode_with_metadatas() {
    let text: Vec<u8> = "RGGRRRGGGB\n".bytes().collect();

    let encoded = arith::encode_with_metadatas(&text);
    let decoded = arith::decode_with_metadatas(&encoded).unwrap();

    assert_eq!(text, decoded);
}

#[test]
fn arithmetic_frequency_table_is_ascending() {
    let text: Vec<u8> = "RGGRRRGGGB\n".bytes().collect();
    let (_, freq, _) = arith::encode(&text);
    assert_eq!(vec![(b'\n', 1), (b'B', 1), (b'G', 5), (b'R', 4)], freq);
    let frame = arith::encode_with_metadatas(&text);
    assert_eq!(&frame[1..10], &[8, b'\n', 1, b'B', 1, b'G', 5, b'R', 4]);
}

#[test]
fn arithmetic_single_byte_round_trips() {
    let encoded = arith::encode_with_metadatas(b"a");
    assert_eq!(b"a".to_vec(), arith::decode_with_metadatas(&encoded).unwrap());
}

#[test]
fn arithmetic_bad_frames_fail() {
    assert_eq!(Err(CodecError::InvalidArithmeticRange), arith::decode_with_metadatas(&[]));
    assert_eq!(Err(CodecError::InvalidArithmeticRange), arith::decode(9, vec![(b'a', 1)], &[0]));
}
