//! A lossless byte-stream compressor: six self-describing codecs (Huffman,
//! LZW, Burrows-Wheeler, move-to-front, arithmetic and run-length coding)
//! over a common byte interface, and a pipeline that applies an ordered list
//! of them and undoes it in reverse order.
use vstd::prelude::*;

pub mod arith;
pub mod bignum;
pub mod bits;
pub mod bwt;
pub mod fenwick;
pub mod huffman;
pub mod lzw;
pub mod mtf;
pub mod pipeline;
pub mod rle;
pub mod varsize;

verus! {

/// Why a codec or the pipeline failed.
#[derive(Debug, Clone, Copy, PartialEq, Eq, Structural)]
pub enum CodecError {
    /// A varsize integer is truncated or does not fit in a `usize`.
    MalformedVarsize,
    /// Serialized Huffman tree bytes end early or are inconsistent.
    MalformedTree,
    /// An LZW index lies beyond the current dictionary.
    InvalidLzwIndex,
    /// A move-to-front index (or input byte) lies outside the alphabet.
    InvalidAlphabet,
    /// The arithmetic decoder found no symbol for its scaled value.
    InvalidArithmeticRange,
    /// A pipeline stage name outside the closed set.
    UnknownStage,
    /// A BWT row index outside the block.
    InvalidPrimaryIndex,
    /// Run-length coding was given no bytes.
    EmptyInput,
    /// An input too long for the codec's counters.
    InputTooLarge,
}

/// Appends the bytes of `src` to `out`.
pub fn extend_bytes(out: &mut Vec<u8>, src: &[u8])
    ensures
        final(out)@ == old(out)@ + src@,
{
    let mut i: usize = 0;
    while i < src.len()
        invariant
            i <= src@.len(),
            out@ == old(out)@ + src@.subrange(0, i as int),
        decreases src@.len() - i,
    {
        out.push(src[i]);
        i += 1;
        assert(out@ =~= old(out)@ + src@.subrange(0, i as int));
    }
    assert(src@.subrange(0, i as int) =~= src@);
}

/// The bytes of `s` in `[lo, hi)`.
pub fn slice_between(s: &[u8], lo: usize, hi: usize) -> (r: Vec<u8>)
    requires
        lo <= hi <= s@.len(),
    ensures
        r@ == s@.subrange(lo as int, hi as int),
{
    let mut out: Vec<u8> = Vec::new();
    let mut i: usize = lo;
    while i < hi
        invariant
            lo <= i <= hi <= s@.len(),
            out@ == s@.subrange(lo as int, i as int),
        decreases hi - i,
    {
        out.push(s[i]);
        i += 1;
        assert(out@ =~= s@.subrange(lo as int, i as int));
    }
    out
}

} // verus!
