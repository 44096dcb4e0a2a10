use simple_file_compressor::huffman::HuffmanTree;
use simple_file_compressor::lzw;
use simple_file_compressor::CodecError;

#[test]
fn test_encode() {
    let text = "AABABCCABC";
    let to_encode: Vec<u8> = text.bytes().collect();

    let (_, encoded) = lzw::encode(&to_encode);

    assert_eq!(vec![0, 0, 1, 4, 2, 2, 6], encoded);
}

#[test]
fn lzw_encoder_test_decode() {
    let to_decode = [0, 0, 1, 4, 2, 2, 6];

    let single_chars = [65u8, 66u8, 67u8];
    let decoded = lzw::decode(&single_chars, &to_decode).unwrap();

    let text: Vec<u8> = "AABABCCABC".bytes().collect();
    assert_eq!(text, decoded);
}

#[test]
fn encode_n_decode() {
    let text = "aaaaabbbbbbbbbccccccccccccdddddddddddddeeeeeeeeeeeeeeeefffffffffffffffffffffffffffffffffffffffffffff";
    let to_encode: Vec<u8> = text.bytes().collect();

    let (single_chars, to_decode) = lzw::encode(&to_encode);
    let decoded = lzw::decode(&single_chars, &to_decode).unwrap();

    assert_eq!(to_encode, decoded);
}

#[test]
fn encode_n_decode_default_text_255() {
    let to_encode: Vec<u8> = (1..=255).collect();

    let (single_chars, to_decode) = lzw::encode(&to_encode);
    let decoded = lzw::decode(&single_chars, &to_decode).unwrap();

    assert_eq!(to_encode, decoded);
}

#[test]
fn parsing_encoding_through_huffman_encoding() {
    let text = "aaaaabbbbbbbbbccccccccccccdddddddddddddeeeeeeeeeeeeeeeefffffffffffffffffffffffffffffffffffffffffffff";

    let to_encode: Vec<u8> = text.bytes().collect();
    let (single_chars_huff_lzw, encoded_with_lzw) = lzw::encode(&to_encode);

    let tree = HuffmanTree::load_tree_from_bytes(&encoded_with_lzw);
    let (nb_bits, compressed_buffer) = tree.encode(&encoded_with_lzw);

    let decoded_huffman = tree.decode(&compressed_buffer, nb_bits).unwrap();
    assert_eq!(encoded_with_lzw, decoded_huffman);

    let decoded = lzw::decode(&single_chars_huff_lzw, &decoded_huffman).unwrap();
    let text: Vec<u8> = text.bytes().collect();
    assert_eq!(text, decoded);
}

#[test]
fn lzw_encoder_encode_n_decode_with_metadatas() {
    let text = "AABABCCABC";
    let to_encode: Vec<u8> = text.bytes().collect();

    let encoded = lzw::encode_with_metadatas(&to_encode);
    assert_eq!(vec![3, 65, 66, 67, 0, 0, 1, 4, 2, 2, 6], encoded);

    let decoded = lzw::decode_with_metadatas(&encoded).unwrap();
    let text: Vec<u8> = text.bytes().collect();
    assert_eq!(text, decoded);
}

#[test]
fn lzw_index_beyond_dictionary_fails() {
    assert_eq!(Err(CodecError::InvalidLzwIndex), lzw::decode(&[65], &[0, 2]));
    // the first index cannot use the entry being built
    assert_eq!(Err(CodecError::InvalidLzwIndex), lzw::decode(&[65], &[1]));
}

#[test]
fn lzw_all_bytes_round_trip() {
    let mut text: Vec<u8> = (0..=255).collect();
    text.extend((0..=255u8).rev());
    text.extend(vec![9u8; 40]);
    let encoded = lzw::encode_with_metadatas(&text);
    assert_eq!(text, lzw::decode_with_metadatas(&encoded).unwrap());
}

#[test]
fn lzw_empty_input() {
    let encoded = lzw::encode_with_metadatas(&[]);
    assert_eq!(vec![0], encoded);
    assert_eq!(Vec::<u8>::new(), lzw::decode_with_metadatas(&encoded).unwrap());
}
