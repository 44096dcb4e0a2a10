use std::collections::HashMap;

use simple_file_compressor::mtf;
use simple_file_compressor::CodecError;

fn get_entropy(values: &[u8]) -> f64 {
    let mut freq: HashMap<u8, usize> = HashMap::new();
    for key in values {
        *freq.entry(*key).or_insert(0) += 1;
    }
    let total = values.len() as f64;
    let mut entropy: f64 = 0.;
    for (_, &num) in &freq {
        let p = num as f64 / total;
        entropy += p * p.log2();
    }
    -entropy
}

#[test]
fn move_to_front_encode() {
    let text: Vec<u8> = "NNBAAA".bytes().collect();
    let encoded = mtf::encode(&text).unwrap();

    let initial_entropy = (get_entropy(&text) * 100.).round() / 100.;
    let encoded_entropy = (get_entropy(&encoded) * 100.).round() / 100.;

    assert_eq!(vec![78, 0, 67, 67, 0, 0], encoded);
    assert_eq!(initial_entropy, encoded_entropy);
}

#[test]
fn move_to_front_decode() {
    let encoded = vec![78, 0, 67, 67, 0, 0];
    let decoded = mtf::decode(&encoded).unwrap();

    let expected: Vec<u8> = "NNBAAA".bytes().collect();
    assert_eq!(expected, decoded);
}

#[test]
fn move_to_front_rejects_byte_255() {
    assert_eq!(Err(CodecError::InvalidAlphabet), mtf::encode(&[1, 255]));
    assert_eq!(Err(CodecError::InvalidAlphabet), mtf::decode(&[255]));
}

#[test]
fn move_to_front_round_trip() {
    let text: Vec<u8> = (0..254u8).chain(0..254u8).rev().collect();
    let encoded = mtf::encode(&text).unwrap();
    assert_eq!(text.len(), encoded.len());
    assert_eq!(text, mtf::decode(&encoded).unwrap());
}
