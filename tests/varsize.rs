use simple_file_compressor::varsize::{decode_varsize, encode_varsize, get_first_decoded};
use simple_file_compressor::CodecError;

#[test]
fn test_encode_variable_width_code() {
    let n = 1;
    let encoded = encode_varsize(n);
    assert_eq!(vec![0x01], encoded);

    let n = 512;
    let encoded = encode_varsize(n);
    assert_eq!(vec![0x84, 0x00], encoded);

    let n = 1024;
    let encoded = encode_varsize(n);
    assert_eq!(vec![0x88, 0x00], encoded);

    let n = 99999;
    let encoded = encode_varsize(n);
    assert_eq!(vec![0x86, 0x8D, 0x1F], encoded);
}

#[test]
fn test_decode_variable_width_code() {
    let n = vec![0x01];
    let decoded = decode_varsize(n).unwrap();
    assert_eq!(vec![1], decoded);

    let n = vec![0x84, 0x00];
    let decoded = decode_varsize(n).unwrap();
    assert_eq!(vec![512], decoded);

    let n = vec![0x88, 0x00];
    let decoded = decode_varsize(n).unwrap();
    assert_eq!(vec![1024], decoded);

    let n = vec![0x86, 0x8D, 0x1F];
    let decoded = decode_varsize(n).unwrap();
    assert_eq!(vec![99999], decoded);
}

#[test]
fn varsize_zero_is_one_byte() {
    assert_eq!(vec![0x00], encode_varsize(0));
    assert_eq!(Ok((0, 1)), get_first_decoded(&[0x00]));
}

#[test]
fn varsize_first_token_with_tail() {
    for n in [0usize, 1, 127, 128, 300, 16383, 16384, 99999, usize::MAX] {
        let mut bytes = encode_varsize(n);
        let len = bytes.len();
        bytes.extend_from_slice(&[0x85, 0x01, 0x7F]);
        assert_eq!(Ok((n, len)), get_first_decoded(&bytes));
    }
}

#[test]
fn varsize_is_minimal() {
    assert_eq!(1, encode_varsize(127).len());
    assert_eq!(2, encode_varsize(128).len());
    assert_eq!(2, encode_varsize(16383).len());
    assert_eq!(3, encode_varsize(16384).len());
    assert_ne!(0x80, encode_varsize(16384)[0]);
}

#[test]
fn varsize_truncated_is_malformed() {
    assert_eq!(Err(CodecError::MalformedVarsize), get_first_decoded(&[0x81]));
    assert_eq!(Err(CodecError::MalformedVarsize), get_first_decoded(&[]));
    assert_eq!(Err(CodecError::MalformedVarsize), decode_varsize(vec![0x01, 0x82]));
}

#[test]
fn varsize_too_wide_is_malformed() {
    let bytes = vec![0xFF; 12];
    let mut wide = bytes.clone();
    wide.push(0x7F);
    assert_eq!(Err(CodecError::MalformedVarsize), get_first_decoded(&wide));
}

#[test]
fn varsize_stream_decodes_all_tokens() {
    let mut bytes = encode_varsize(5);
    bytes.extend(encode_varsize(300));
    bytes.extend(encode_varsize(0));
    assert_eq!(vec![5, 300, 0], decode_varsize(bytes).unwrap());
}
