use simple_file_compressor::bwt;
use simple_file_compressor::huffman::HuffmanTree;
use simple_file_compressor::lzw;
use simple_file_compressor::mtf;
use simple_file_compressor::pipeline::{compress, decompress, default_stages, parse_stages, PipelineError, Stage};
use simple_file_compressor::CodecError;

#[test]
fn compress_with_lzw_then_huffman() {
    let text: Vec<u8> = "AAABBCCDACCAA".bytes().collect();

    let encoded_lzw = lzw::encode_with_metadatas(&text);
    let encoded_huff = HuffmanTree::encode_with_metadatas(&encoded_lzw);

    let decoded = HuffmanTree::decode_with_metadatas(&encoded_huff).unwrap();
    assert_eq!(encoded_lzw, decoded);

    let decoded = lzw::decode_with_metadatas(&decoded).unwrap();
    assert_eq!(text, decoded)
}

#[test]
fn compress_with_huffman_then_lzw() {
    let text: Vec<u8> = "AAABBCCDACCAA".bytes().collect();

    let encoded_huff = HuffmanTree::encode_with_metadatas(&text);
    let encoded_lzw = lzw::encode_with_metadatas(&encoded_huff);

    let decoded = lzw::decode_with_metadatas(&encoded_lzw).unwrap();
    assert_eq!(encoded_huff, decoded);

    let decoded = HuffmanTree::decode_with_metadatas(&decoded).unwrap();
    assert_eq!(text, decoded)
}

#[test]
fn compress_with_bwt_mtf_huff() {
    let mut text: Vec<u8> = "AAABBCCDACCAA".bytes().collect();
    let bloat = text.clone();
    for _ in 0..100 {
        text.extend_from_slice(&bloat);
    }

    let encoded_bwt = bwt::encode_with_metadata(&text);
    let encoded_mtf = mtf::encode(&encoded_bwt).unwrap();
    let encoded_huff = HuffmanTree::encode_with_metadatas(&encoded_mtf);

    let decoded_huff = HuffmanTree::decode_with_metadatas(&encoded_huff).unwrap();
    assert_eq!(decoded_huff, encoded_mtf);

    let decoded_mft = mtf::decode(&decoded_huff).unwrap();
    assert_eq!(decoded_mft, encoded_bwt);

    let decoded_bwt = bwt::decode_with_metadata(&decoded_mft).unwrap();
    assert_eq!(text, decoded_bwt);

    // the transform helps Huffman coding on this input
    let huffman_only = HuffmanTree::encode_with_metadatas(&text);
    assert!(encoded_huff.len() < huffman_only.len());
}

#[test]
fn pipeline_round_trips_every_stage() {
    let text: Vec<u8> = "ABBCCCDDDDFFFFF\nthe quick brown fox".bytes().collect();
    for name in ["huff", "lzw", "bwt", "mtf", "arith", "rle"] {
        let stages = parse_stages(&[name]).unwrap();
        let packed = compress(&stages, &text).unwrap();
        assert_eq!(text, decompress(&stages, &packed).unwrap());
    }
}

#[test]
fn pipeline_bwt_mtf_huff_by_name() {
    let mut text: Vec<u8> = Vec::new();
    for _ in 0..100 {
        text.extend("AAABBCCDACCAA".bytes());
    }
    let stages = parse_stages(&["bwt", "mtf", "huff"]).unwrap();
    assert_eq!(vec![Stage::Bwt, Stage::Mtf, Stage::Huffman], stages);
    let packed = compress(&stages, &text).unwrap();
    assert_eq!(text, decompress(&stages, &packed).unwrap());
}

#[test]
fn pipeline_composes_stage_by_stage() {
    let text: Vec<u8> = "mississippi river banks".bytes().collect();
    let all = [Stage::Rle, Stage::Lzw, Stage::Huffman];
    let whole = compress(&all, &text).unwrap();
    let first = compress(&all[..1], &text).unwrap();
    let rest = compress(&all[1..], &first).unwrap();
    assert_eq!(whole, rest);
    assert_eq!(text, decompress(&all, &whole).unwrap());
}

#[test]
fn pipeline_default_is_lzw_then_huffman() {
    assert_eq!(vec![Stage::Lzw, Stage::Huffman], default_stages());
    let text: Vec<u8> = "aaaaabbbbbbbbbcccccccccccc".bytes().collect();
    let stages = default_stages();
    let packed = compress(&stages, &text).unwrap();
    assert_eq!(text, decompress(&stages, &packed).unwrap());
}

#[test]
fn pipeline_unknown_stage_is_reported_with_index() {
    assert_eq!(
        Err(PipelineError { stage: 1, error: CodecError::UnknownStage }),
        parse_stages(&["lzw", "zip", "huff"])
    );
    assert_eq!(Err(CodecError::UnknownStage), Stage::from_name("huffman "));
}

#[test]
fn pipeline_stage_failure_is_reported_with_index() {
    let stages = [Stage::Lzw, Stage::Rle];
    assert_eq!(Err(PipelineError { stage: 1, error: CodecError::EmptyInput }), compress(&stages[1..], &[]).map_err(|e| PipelineError { stage: e.stage + 1, error: e.error }));
    let stages = [Stage::Mtf];
    assert_eq!(Err(PipelineError { stage: 0, error: CodecError::InvalidAlphabet }), compress(&stages, &[255]));
    assert_eq!(Err(PipelineError { stage: 0, error: CodecError::EmptyInput }), decompress(&[Stage::Rle], &[]));
}
