use simple_file_compressor::bits::Bit;
use simple_file_compressor::huffman::{FrequencyChar, HuffmanTree};
use simple_file_compressor::CodecError;

fn sample_tree() -> HuffmanTree {
    let array = vec![
        FrequencyChar(b'a', 5),
        FrequencyChar(b'b', 9),
        FrequencyChar(b'c', 12),
        FrequencyChar(b'd', 13),
        FrequencyChar(b'e', 16),
        FrequencyChar(b'f', 45),
    ];
    HuffmanTree::new(&array)
}

fn bits(v: &[u8]) -> Vec<Bit> {
    v.iter().map(|&b| if b == 1 { Bit::ONE } else { Bit::ZERO }).collect()
}

#[test]
fn huffman_tree_get_encoding() {
    let tree = sample_tree();
    let encoding = tree.get_encoding();

    assert_eq!(encoding[0], (b'f', bits(&[0])));
    assert_eq!(encoding[1], (b'c', bits(&[1, 0, 0])));
    assert_eq!(encoding[2], (b'd', bits(&[1, 0, 1])));
    assert_eq!(encoding[3], (b'a', bits(&[1, 1, 0, 0])));
    assert_eq!(encoding[4], (b'b', bits(&[1, 1, 0, 1])));
    assert_eq!(encoding[5], (b'e', bits(&[1, 1, 1])));
}

#[test]
fn huffman_tree_testing_indexing_by_char() {
    let tree = sample_tree();

    assert_eq!(tree.code_of(b'f').unwrap(), bits(&[0]));
    assert_eq!(tree.code_of(b'c').unwrap(), bits(&[1, 0, 0]));
    assert_eq!(tree.code_of(b'd').unwrap(), bits(&[1, 0, 1]));
    assert_eq!(tree.code_of(b'a').unwrap(), bits(&[1, 1, 0, 0]));
    assert_eq!(tree.code_of(b'b').unwrap(), bits(&[1, 1, 0, 1]));
    assert_eq!(tree.code_of(b'e').unwrap(), bits(&[1, 1, 1]));
}

#[test]
fn huffman_tree_testing_indexing_by_encoding() {
    let tree = sample_tree();

    assert_eq!(tree.symbol_at(&vec![0]), Some(b'f'));
    assert_eq!(tree.symbol_at(&vec![1, 0, 0]), Some(b'c'));
    assert_eq!(tree.symbol_at(&vec![1, 0, 1]), Some(b'd'));
    assert_eq!(tree.symbol_at(&vec![1, 1, 0, 0]), Some(b'a'));
    assert_eq!(tree.symbol_at(&vec![1, 1, 0, 1]), Some(b'b'));
    assert_eq!(tree.symbol_at(&vec![1, 1, 1]), Some(b'e'));
}

#[test]
fn huffman_tree_test_decode() {
    let tree = sample_tree();

    // 'faced' is 0 1100 100 111 101: 0b0110_0100 0b1111_01--
    let encoded: [u8; 2] = [0b0110_0100, 0b1111_0100];
    let decoded = tree.decode(&encoded, 14).unwrap();

    let text: Vec<u8> = "faced".bytes().collect();
    assert_eq!(text, decoded);
}

#[test]
fn huffman_tree_tree_len() {
    let tree = sample_tree();
    let len = tree.len();
    assert_eq!(11, len);
}

#[test]
fn huffman_tree_converting_tree_to_array() {
    let tree = sample_tree();
    let values = tree.convert_to_vec();
    let new_tree = HuffmanTree::from_bytes(&values).unwrap();

    assert_eq!(new_tree.code_of(b'f').unwrap(), bits(&[0]));
    assert_eq!(new_tree.code_of(b'c').unwrap(), bits(&[1, 0, 0]));
    assert_eq!(new_tree.code_of(b'd').unwrap(), bits(&[1, 0, 1]));
    assert_eq!(new_tree.code_of(b'a').unwrap(), bits(&[1, 1, 0, 0]));
    assert_eq!(new_tree.code_of(b'b').unwrap(), bits(&[1, 1, 0, 1]));
    assert_eq!(new_tree.code_of(b'e').unwrap(), bits(&[1, 1, 1]));
}

#[test]
fn huffman_tree_encode_n_decode_with_metadatas() {
    let text: Vec<u8> = "AAABBCCDACCAA".bytes().collect();
    let encoded = HuffmanTree::encode_with_metadatas(&text);
    let decoded = HuffmanTree::decode_with_metadatas(&encoded).unwrap();
    assert_eq!(text, decoded);
}

#[test]
fn tree_with_null_char() {
    for sample in [
        "ABBBCCCCCDDDDDD\0\0",
        "ABBBCCCCCDDDDDDD\0\0\0\0",
        "ABBBCCCCCDDDDDD\0\0\0\0\0\0",
        "ABBBCCCCCDDDDDD\0\0\0\0\0\0\0\0\0\0",
    ] {
        let text: Vec<u8> = sample.bytes().collect();
        let tree = HuffmanTree::load_tree_from_bytes(&text);
        let (nb_bits, encoded) = tree.encode(&text);

        let formatted_tree = tree.as_bytes();
        let new_tree = HuffmanTree::from_bytes(&formatted_tree).unwrap();
        let decoded = new_tree.decode(&encoded, nb_bits).unwrap();
        assert_eq!(text, decoded);
    }
}

#[test]
fn huffman_faced_packs_fourteen_bits() {
    let tree = sample_tree();
    let text: Vec<u8> = "faced".bytes().collect();
    let (nb_bits, encoded) = tree.encode(&text);
    assert_eq!(14, nb_bits);
    assert_eq!(vec![0b0110_0100, 0b1111_0100], encoded);
}

#[test]
fn huffman_serialization_escapes_null_leaf() {
    let text = vec![0u8, 0, 1];
    let tree = HuffmanTree::load_tree_from_bytes(&text);
    assert_eq!(vec![0, 1, 255, 255], tree.as_bytes());
}

#[test]
fn huffman_single_symbol_round_trips() {
    let text = vec![b'x'; 5];
    let encoded = HuffmanTree::encode_with_metadatas(&text);
    assert_eq!(vec![1, b'x', 5], encoded);
    assert_eq!(text, HuffmanTree::decode_with_metadatas(&encoded).unwrap());
}

#[test]
fn huffman_empty_input_round_trips() {
    let encoded = HuffmanTree::encode_with_metadatas(&[]);
    assert_eq!(vec![0, 0], encoded);
    assert_eq!(Vec::<u8>::new(), HuffmanTree::decode_with_metadatas(&encoded).unwrap());
}

#[test]
fn huffman_malformed_frames_fail() {
    // tree claims three bytes but only an internal node marker follows
    assert_eq!(Err(CodecError::MalformedTree), HuffmanTree::decode_with_metadatas(&[1, 0, 0]));
    // bits end inside a codeword
    let tree = sample_tree();
    assert_eq!(Err(CodecError::MalformedTree), tree.decode(&[0b1000_0000], 2));
    assert_eq!(Err(CodecError::MalformedVarsize), HuffmanTree::decode_with_metadatas(&[0x80]));
}

#[test]
fn huffman_ties_prefer_internal_nodes() {
    let array = vec![FrequencyChar(b'a', 1), FrequencyChar(b'b', 1), FrequencyChar(b'c', 2)];
    let tree = HuffmanTree::new(&array);
    // a and b join into an internal node of weight 2, which leaves the queue
    // before the leaf c of the same weight and so goes left
    assert_eq!(tree.code_of(b'a').unwrap(), bits(&[0, 0]));
    assert_eq!(tree.code_of(b'b').unwrap(), bits(&[0, 1]));
    assert_eq!(tree.code_of(b'c').unwrap(), bits(&[1]));
    assert_eq!(vec![0, 0, b'a', b'b', b'c'], tree.as_bytes());
}
