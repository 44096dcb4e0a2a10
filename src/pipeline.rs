//! The composition engine: an ordered list of codec stages applied in turn
//! on compression and undone in reverse order on decompression.
use vstd::prelude::*;
use vstd::string::StringSliceAdditionalSpecFns;

use crate::arith::{self, arith_frame_decode_spec, arith_frame_ok};
use crate::bwt::{self, bwt_frame_decode_spec, is_bwt_frame};
use crate::huffman::{huff_decode_spec, huff_frame_ok, HuffmanTree};
use crate::lzw::{self, lzw_frame, lzw_frame_decode_spec};
use crate::mtf::{self, mtf_decode_spec, mtf_encode_spec};
use crate::rle::{self, rle_decode_spec, rle_encode_spec};
use crate::{slice_between, CodecError};

verus! {

/// One codec of the pipeline.
#[derive(Debug, Clone, Copy, PartialEq, Eq, Structural)]
pub enum Stage {
    Huffman,
    Lzw,
    Bwt,
    Mtf,
    Arith,
    Rle,
}

/// A failure of the pipeline: the index of the stage and what went wrong.
#[derive(Debug, Clone, Copy, PartialEq, Eq, Structural)]
pub struct PipelineError {
    pub stage: usize,
    pub error: CodecError,
}

/// The stage that a name stands for.
pub open spec fn stage_named(name: Seq<u8>) -> Option<Stage> {
    if name == seq![104u8, 117, 102, 102] {
        Some(Stage::Huffman)
    } else if name == seq![108u8, 122, 119] {
        Some(Stage::Lzw)
    } else if name == seq![98u8, 119, 116] {
        Some(Stage::Bwt)
    } else if name == seq![109u8, 116, 102] {
        Some(Stage::Mtf)
    } else if name == seq![97u8, 114, 105, 116, 104] {
        Some(Stage::Arith)
    } else if name == seq![114u8, 108, 101] {
        Some(Stage::Rle)
    } else {
        None
    }
}

/// Longest input a stage accepts.
pub open spec fn max_input() -> nat {
    (usize::MAX / 512) as nat
}

/// Encoding `x` with stage `s` fails.
pub open spec fn encode_fails(s: Stage, x: Seq<u8>) -> bool {
    x.len() > max_input() || (s == Stage::Mtf && mtf_encode_spec(x) is None) || (s == Stage::Rle && x.len() == 0)
}

/// Why encoding `x` with stage `s` fails, when it does.
pub open spec fn encode_error(s: Stage, x: Seq<u8>) -> CodecError {
    if x.len() > max_input() {
        CodecError::InputTooLarge
    } else if s == Stage::Mtf {
        CodecError::InvalidAlphabet
    } else {
        CodecError::EmptyInput
    }
}

/// `y` is the frame that stage `s` makes of `x`.
pub open spec fn encodes(s: Stage, x: Seq<u8>, y: Seq<u8>) -> bool {
    !encode_fails(s, x) && match s {
        Stage::Huffman => huff_frame_ok(x, y),
        Stage::Lzw => y == lzw_frame(x),
        Stage::Bwt => is_bwt_frame(x, y),
        Stage::Mtf => mtf_encode_spec(x) == Some(y),
        Stage::Arith => arith_frame_ok(x, y),
        Stage::Rle => y == rle_encode_spec(x),
    }
}

/// What stage `s` decodes the frame `y` to.
pub open spec fn decodes(s: Stage, y: Seq<u8>) -> Option<Seq<u8>> {
    match s {
        Stage::Huffman => huff_decode_spec(y),
        Stage::Lzw => lzw_frame_decode_spec(y),
        Stage::Bwt => bwt_frame_decode_spec(y),
        Stage::Mtf => mtf_decode_spec(y),
        Stage::Arith => arith_frame_decode_spec(y),
        Stage::Rle => if y.len() == 0 {
            None
        } else {
            rle_decode_spec(y)
        },
    }
}

/// `y` is what compressing `x` with the stages in order gives.
pub open spec fn compresses(stages: Seq<Stage>, x: Seq<u8>, y: Seq<u8>) -> bool
    decreases stages.len(),
{
    if stages.len() == 0 {
        y == x
    } else {
        exists|m: Seq<u8>| #[trigger] encodes(stages[0], x, m) && compresses(stages.drop_first(), m, y)
    }
}

/// What decompressing `y` with the stages, last stage first, gives.
pub open spec fn decompress_spec(stages: Seq<Stage>, y: Seq<u8>) -> Option<Seq<u8>>
    decreases stages.len(),
{
    if stages.len() == 0 {
        Some(y)
    } else {
        match decodes(stages.last(), y) {
            Some(z) => decompress_spec(stages.drop_last(), z),
            None => None,
        }
    }
}

/// Stage `s` gives back every input from its frame.
pub open spec fn inverts(s: Stage) -> bool {
    forall|a: Seq<u8>, b: Seq<u8>| #[trigger] encodes(s, a, b) ==> decodes(s, b) == Some(a)
}

/// Compressing with `s1` followed by `s2` is compressing with `s1`, then
/// compressing the result with `s2`.
pub proof fn lemma_compress_split(s1: Seq<Stage>, s2: Seq<Stage>, x: Seq<u8>, y: Seq<u8>)
    ensures
        compresses(s1 + s2, x, y) <==> exists|m: Seq<u8>| compresses(s1, x, m) && #[trigger] compresses(s2, m, y),
    decreases s1.len(),
{
    if s1.len() == 0 {
        assert(s1 + s2 =~= s2);
        if compresses(s2, x, y) {
            assert(compresses(s1, x, x));
        }
    } else {
        let s = s1 + s2;
        assert(s.drop_first() =~= s1.drop_first() + s2);
        assert(s[0] == s1[0]);
        if compresses(s, x, y) {
            let m1 = choose|m1: Seq<u8>| #[trigger] encodes(s[0], x, m1) && compresses(s.drop_first(), m1, y);
            lemma_compress_split(s1.drop_first(), s2, m1, y);
            let m = choose|m: Seq<u8>| compresses(s1.drop_first(), m1, m) && #[trigger] compresses(s2, m, y);
            assert(encodes(s1[0], x, m1) && compresses(s1.drop_first(), m1, m));
            assert(compresses(s1, x, m));
        }
        if exists|m: Seq<u8>| compresses(s1, x, m) && #[trigger] compresses(s2, m, y) {
            let m = choose|m: Seq<u8>| compresses(s1, x, m) && #[trigger] compresses(s2, m, y);
            let m1 = choose|m1: Seq<u8>| #[trigger] encodes(s1[0], x, m1) && compresses(s1.drop_first(), m1, m);
            lemma_compress_split(s1.drop_first(), s2, m1, y);
            assert(compresses(s.drop_first(), m1, y));
            assert(encodes(s[0], x, m1));
        }
    }
}

/// Decompressing what a pipeline of self-inverting stages compressed gives
/// the input back.
pub proof fn lemma_pipeline_round_trip(stages: Seq<Stage>, x: Seq<u8>, y: Seq<u8>)
    requires
        forall|i: int| 0 <= i < stages.len() ==> inverts(#[trigger] stages[i]),
        compresses(stages, x, y),
    ensures
        decompress_spec(stages, y) == Some(x),
    decreases stages.len(),
{
    if stages.len() > 0 {
        let n = stages.len();
        let front = stages.drop_last();
        let last = seq![stages.last()];
        assert(front + last =~= stages);
        lemma_compress_split(front, last, x, y);
        let m = choose|m: Seq<u8>| compresses(front, x, m) && #[trigger] compresses(last, m, y);
        let z = choose|z: Seq<u8>| #[trigger] encodes(last[0], m, z) && compresses(last.drop_first(), z, y);
        assert(last.drop_first().len() == 0);
        assert(z == y);
        assert(inverts(stages[n - 1]));
        assert(decodes(stages.last(), y) == Some(m));
        assert forall|i: int| 0 <= i < front.len() implies inverts(#[trigger] front[i]) by {
            assert(front[i] == stages[i]);
        }
        lemma_pipeline_round_trip(front, x, m);
    }
}

/// Move-to-front gives back every input from its encoding.
pub proof fn lemma_mtf_inverts()
    ensures
        inverts(Stage::Mtf),
{
    assert forall|a: Seq<u8>, b: Seq<u8>| #[trigger] encodes(Stage::Mtf, a, b) implies decodes(Stage::Mtf, b) == Some(a) by {
        mtf::lemma_mtf_round_trip(a);
    }
}

/// Run-length coding gives back every input from its encoding.
pub proof fn lemma_rle_inverts()
    ensures
        inverts(Stage::Rle),
{
    assert forall|a: Seq<u8>, b: Seq<u8>| #[trigger] encodes(Stage::Rle, a, b) implies decodes(Stage::Rle, b) == Some(a) by {
        rle::lemma_rle_round_trip(a);
        crate::rle::lemma_frame_nonempty(a);
    }
}

/// LZW gives back every input from its frame.
pub proof fn lemma_lzw_inverts()
    ensures
        inverts(Stage::Lzw),
{
    assert forall|a: Seq<u8>, b: Seq<u8>| #[trigger] encodes(Stage::Lzw, a, b) implies decodes(Stage::Lzw, b) == Some(a) by {
        lzw::lemma_lzw_round_trip(a);
    }
}

/// The Burrows-Wheeler stage gives back every input from its frame.
pub proof fn lemma_bwt_inverts()
    ensures
        inverts(Stage::Bwt),
{
    assert forall|a: Seq<u8>, b: Seq<u8>| #[trigger] encodes(Stage::Bwt, a, b) implies decodes(Stage::Bwt, b) == Some(a) by {
        bwt::lemma_bwt_frame_round_trip(a, b);
    }
}

/// A stage whose round trip is proved for every input.
pub open spec fn proved_stage(s: Stage) -> bool {
    s == Stage::Lzw || s == Stage::Bwt || s == Stage::Mtf || s == Stage::Rle
}

/// Decompressing what a pipeline of LZW, Burrows-Wheeler, move-to-front
/// and run-length stages compressed gives the input back.
pub proof fn lemma_proved_pipeline_round_trip(stages: Seq<Stage>, x: Seq<u8>, y: Seq<u8>)
    requires
        forall|i: int| 0 <= i < stages.len() ==> proved_stage(#[trigger] stages[i]),
        compresses(stages, x, y),
    ensures
        decompress_spec(stages, y) == Some(x),
{
    lemma_lzw_inverts();
    lemma_bwt_inverts();
    lemma_mtf_inverts();
    lemma_rle_inverts();
    assert forall|i: int| 0 <= i < stages.len() implies inverts(#[trigger] stages[i]) by {
        assert(proved_stage(stages[i]));
    }
    lemma_pipeline_round_trip(stages, x, y);
}

impl Stage {
    /// The stage called `name` (`huff`, `lzw`, `bwt`, `mtf`, `arith` or `rle`).
    pub fn from_name(name: &str) -> (r: Result<Stage, CodecError>)
        ensures
            match r {
                Ok(s) => stage_named(name.spec_bytes()) == Some(s),
                Err(e) => e == CodecError::UnknownStage && stage_named(name.spec_bytes()) is None,
            },
    {
        let b = name.as_bytes();
        if bytes_equal(b, &[104u8, 117, 102, 102]) {
            Ok(Stage::Huffman)
        } else if bytes_equal(b, &[108u8, 122, 119]) {
            Ok(Stage::Lzw)
        } else if bytes_equal(b, &[98u8, 119, 116]) {
            Ok(Stage::Bwt)
        } else if bytes_equal(b, &[109u8, 116, 102]) {
            Ok(Stage::Mtf)
        } else if bytes_equal(b, &[97u8, 114, 105, 116, 104]) {
            Ok(Stage::Arith)
        } else if bytes_equal(b, &[114u8, 108, 101]) {
            Ok(Stage::Rle)
        } else {
            Err(CodecError::UnknownStage)
        }
    }

    /// Encodes `input` with this stage.
    pub fn encode_frame(&self, input: &[u8]) -> (r: Result<Vec<u8>, CodecError>)
        ensures
            match r {
                Ok(v) => encodes(*self, input@, v@),
                Err(e) => encode_fails(*self, input@) && e == encode_error(*self, input@),
            },
    {
        if input.len() > usize::MAX / 512 {
            return Err(CodecError::InputTooLarge);
        }
        match self {
            Stage::Huffman => Ok(HuffmanTree::encode_with_metadatas(input)),
            Stage::Lzw => Ok(lzw::encode_with_metadatas(input)),
            Stage::Bwt => Ok(bwt::encode_with_metadata(input)),
            Stage::Mtf => mtf::encode(input),
            Stage::Arith => Ok(arith::encode_with_metadatas(input)),
            Stage::Rle => rle::encode(input),
        }
    }

    /// Decodes the frame `input` of this stage.
    pub fn decode_frame(&self, input: &[u8]) -> (r: Result<Vec<u8>, CodecError>)
        ensures
            match r {
                Ok(v) => decodes(*self, input@) == Some(v@),
                Err(_) => decodes(*self, input@) is None,
            },
    {
        match self {
            Stage::Huffman => HuffmanTree::decode_with_metadatas(input),
            Stage::Lzw => lzw::decode_with_metadatas(input),
            Stage::Bwt => bwt::decode_with_metadata(input),
            Stage::Mtf => mtf::decode(input),
            Stage::Arith => arith::decode_with_metadatas(input),
            Stage::Rle => rle::decode(input),
        }
    }
}

fn bytes_equal(a: &[u8], b: &[u8]) -> (r: bool)
    ensures
        r == (a@ == b@),
{
    if a.len() != b.len() {
        return false;
    }
    let mut i: usize = 0;
    while i < a.len()
        invariant
            i <= a@.len() == b@.len(),
            forall|t: int| 0 <= t < i ==> a@[t] == b@[t],
        decreases a@.len() - i,
    {
        if a[i] != b[i] {
            return false;
        }
        i += 1;
    }
    assert(a@ =~= b@);
    true
}

/// Parses stage names, failing on the first unknown one.
pub fn parse_stages(names: &[&str]) -> (r: Result<Vec<Stage>, PipelineError>)
    ensures
        match r {
            Ok(v) => v@.len() == names@.len() && forall|i: int|
                0 <= i < names@.len() ==> stage_named(#[trigger] names@[i].spec_bytes()) == Some(v@[i]),
            Err(e) => e.error == CodecError::UnknownStage && e.stage < names@.len() && stage_named(
                names@[e.stage as int].spec_bytes(),
            ) is None && forall|i: int| 0 <= i < e.stage ==> stage_named(#[trigger] names@[i].spec_bytes()) is Some,
        },
{
    let mut out: Vec<Stage> = Vec::new();
    let mut i: usize = 0;
    while i < names.len()
        invariant
            i <= names@.len(),
            out@.len() == i,
            forall|t: int| 0 <= t < i ==> stage_named(#[trigger] names@[t].spec_bytes()) == Some(out@[t]),
        decreases names@.len() - i,
    {
        match Stage::from_name(names[i]) {
            Ok(s) => out.push(s),
            Err(e) => {
                return Err(PipelineError { stage: i, error: e });
            },
        }
        i += 1;
    }
    Ok(out)
}

/// The stages used when none are given: LZW, then Huffman.
pub fn default_stages() -> (r: Vec<Stage>)
    ensures
        r@ == seq![Stage::Lzw, Stage::Huffman],
{
    let mut v: Vec<Stage> = Vec::new();
    v.push(Stage::Lzw);
    v.push(Stage::Huffman);
    assert(v@ =~= seq![Stage::Lzw, Stage::Huffman]);
    v
}

/// Compresses `input` with each stage in order.
pub fn compress(stages: &[Stage], input: &[u8]) -> (r: Result<Vec<u8>, PipelineError>)
    ensures
        match r {
            Ok(v) => compresses(stages@, input@, v@),
            Err(e) => e.stage < stages@.len() && exists|m: Seq<u8>|
                compresses(stages@.subrange(0, e.stage as int), input@, m) && encode_fails(stages@[e.stage as int], m)
                    && e.error == encode_error(stages@[e.stage as int], m),
        },
{
    let mut cur = slice_between(input, 0, input.len());
    assert(input@.subrange(0, input@.len() as int) =~= input@);
    assert(stages@.subrange(0, 0) =~= Seq::<Stage>::empty());
    let mut i: usize = 0;
    while i < stages.len()
        invariant
            i <= stages@.len(),
            compresses(stages@.subrange(0, i as int), input@, cur@),
        decreases stages@.len() - i,
    {
        let ghost prev = cur@;
        match stages[i].encode_frame(cur.as_slice()) {
            Ok(next) => {
                proof {
                    let one = seq![stages@[i as int]];
                    assert(stages@.subrange(0, i + 1) =~= stages@.subrange(0, i as int) + one);
                    assert(one.drop_first() =~= Seq::<Stage>::empty());
                    assert(compresses(one.drop_first(), next@, next@));
                    assert(one[0] == stages@[i as int]);
                    assert(encodes(one[0], prev, next@));
                    assert(compresses(one, prev, next@));
                    lemma_compress_split(stages@.subrange(0, i as int), one, input@, next@);
                }
                cur = next;
            },
            Err(e) => {
                return Err(PipelineError { stage: i, error: e });
            },
        }
        i += 1;
    }
    assert(stages@.subrange(0, i as int) =~= stages@);
    Ok(cur)
}

/// Decompresses `input`, undoing the stages from the last to the first.
pub fn decompress(stages: &[Stage], input: &[u8]) -> (r: Result<Vec<u8>, PipelineError>)
    ensures
        match r {
            Ok(v) => decompress_spec(stages@, input@) == Some(v@),
            Err(e) => decompress_spec(stages@, input@) is None && e.stage < stages@.len(),
        },
{
    let mut cur = slice_between(input, 0, input.len());
    assert(input@.subrange(0, input@.len() as int) =~= input@);
    let mut i: usize = stages.len();
    assert(stages@.subrange(0, stages@.len() as int) =~= stages@);
    while i > 0
        invariant
            i <= stages@.len(),
            decompress_spec(stages@, input@) == decompress_spec(stages@.subrange(0, i as int), cur@),
        decreases i,
    {
        let ghost pre = stages@.subrange(0, i as int);
        assert(pre.drop_last() =~= stages@.subrange(0, i - 1));
        assert(pre.last() == stages@[i - 1]);
        match stages[i - 1].decode_frame(cur.as_slice()) {
            Ok(next) => {
                cur = next;
            },
            Err(e) => {
                return Err(PipelineError { stage: i - 1, error: e });
            },
        }
        i -= 1;
    }
    assert(stages@.subrange(0, 0) =~= Seq::<Stage>::empty());
    Ok(cur)
}

} // verus!
