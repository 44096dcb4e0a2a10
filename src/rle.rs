//! Run-length coding: each maximal run of a byte `c` of length `k` becomes
//! `c` followed by the varsize encoding of `k`.
use vstd::prelude::*;

use crate::varsize::{decode_varsize_at, lemma_varsize_round_trip, lemma_varsize_minimal, parse_varsize, push_varsize, varsize_of};
use crate::CodecError;

verus! {

broadcast use vstd::seq_lib::group_seq_properties;

/// The bytes a run stands for.
pub open spec fn run_bytes(r: (u8, nat)) -> Seq<u8> {
    Seq::new(r.1, |i: int| r.0)
}

/// The bytes that a sequence of runs stands for.
pub open spec fn expand(rs: Seq<(u8, nat)>) -> Seq<u8> {
    byte_pieces(rs).flatten()
}

pub open spec fn byte_pieces(rs: Seq<(u8, nat)>) -> Seq<Seq<u8>> {
    rs.map_values(|r: (u8, nat)| run_bytes(r))
}

pub open spec fn frame_pieces(rs: Seq<(u8, nat)>) -> Seq<Seq<u8>> {
    rs.map_values(|r: (u8, nat)| run_frame(r))
}

pub open spec fn run_views(v: Seq<(u8, usize)>) -> Seq<(u8, nat)> {
    v.map_values(|p: (u8, usize)| (p.0, p.1 as nat))
}

/// The wire form of one run.
pub open spec fn run_frame(r: (u8, nat)) -> Seq<u8> {
    seq![r.0] + varsize_of(r.1)
}

/// The wire form of a sequence of runs.
pub open spec fn rle_frame(rs: Seq<(u8, nat)>) -> Seq<u8> {
    frame_pieces(rs).flatten()
}

/// The maximal runs of `x`, in order.
pub open spec fn runs(x: Seq<u8>) -> Seq<(u8, nat)>
    decreases x.len(),
{
    if x.len() == 0 {
        Seq::empty()
    } else {
        let rs = runs(x.drop_last());
        if x.len() >= 2 && x[x.len() - 2] == x.last() {
            rs.update(rs.len() - 1, (x.last(), rs.last().1 + 1))
        } else {
            rs.push((x.last(), 1nat))
        }
    }
}

/// The runs read back from a frame.
pub open spec fn rle_parse(s: Seq<u8>) -> Option<Seq<(u8, nat)>>
    decreases s.len(),
{
    if s.len() == 0 {
        Some(Seq::empty())
    } else {
        match parse_varsize(s.drop_first()) {
            Some((k, m)) => if 0 < m && 1 + m <= s.len() {
                match rle_parse(s.subrange((1 + m) as int, s.len() as int)) {
                    Some(rest) => Some(seq![(s[0], k)] + rest),
                    None => None,
                }
            } else {
                None
            },
            None => None,
        }
    }
}

/// What encoding `x` gives.
pub open spec fn rle_encode_spec(x: Seq<u8>) -> Seq<u8> {
    rle_frame(runs(x))
}

/// What decoding the frame `s` gives; `None` for a malformed frame.
pub open spec fn rle_decode_spec(s: Seq<u8>) -> Option<Seq<u8>> {
    match rle_parse(s) {
        Some(rs) => Some(expand(rs)),
        None => None,
    }
}

proof fn lemma_runs(x: Seq<u8>)
    ensures
        expand(runs(x)) == x,
        x.len() > 0 ==> runs(x).len() > 0 && runs(x).last().0 == x.last(),
        forall|j: int| 0 <= j < runs(x).len() ==> 1 <= #[trigger] runs(x)[j].1 <= x.len(),
    decreases x.len(),
{
    if x.len() > 0 {
        let y = x.drop_last();
        lemma_runs(y);
        let rs = runs(y);
        if x.len() >= 2 && x[x.len() - 2] == x.last() {
            let last = rs.last();
            let rs2 = rs.update(rs.len() - 1, (x.last(), last.1 + 1));
            assert(rs.drop_last().push(last) =~= rs);
            assert(rs.drop_last().push((x.last(), last.1 + 1)) =~= rs2);
            assert(byte_pieces(rs) =~= byte_pieces(rs.drop_last()).push(run_bytes(last)));
            assert(byte_pieces(rs2) =~= byte_pieces(rs.drop_last()).push(
                run_bytes((x.last(), last.1 + 1)),
            ));
            byte_pieces(rs.drop_last()).lemma_flatten_push(run_bytes(last));
            byte_pieces(rs.drop_last()).lemma_flatten_push(run_bytes((x.last(), last.1 + 1)));
            assert(y.last() == x[x.len() - 2]);
            assert(run_bytes((x.last(), last.1 + 1)) =~= run_bytes(last).push(x.last()));
            assert(x =~= y.push(x.last()));
            assert(forall|j: int| 0 <= j < rs2.len() - 1 ==> rs2[j] == rs[j]);
        } else {
            let rs2 = rs.push((x.last(), 1nat));
            assert(byte_pieces(rs2) =~= byte_pieces(rs).push(run_bytes((x.last(), 1nat))));
            byte_pieces(rs).lemma_flatten_push(run_bytes((x.last(), 1nat)));
            assert(run_bytes((x.last(), 1nat)) =~= seq![x.last()]);
            assert(x =~= y.push(x.last()));
        }
    }
}

proof fn lemma_parse_frame(rs: Seq<(u8, nat)>)
    requires
        forall|j: int| 0 <= j < rs.len() ==> #[trigger] rs[j].1 <= usize::MAX,
    ensures
        rle_parse(rle_frame(rs)) == Some(rs),
    decreases rs.len(),
{
    if rs.len() > 0 {
        let s = rle_frame(rs);
        let rest = rle_frame(rs.drop_first());
        assert(frame_pieces(rs).drop_first() =~= frame_pieces(rs.drop_first()));
        assert(s == run_frame(rs[0]) + rest);
        let v = varsize_of(rs[0].1);
        lemma_varsize_round_trip(rs[0].1, rest);
        lemma_varsize_minimal(rs[0].1);
        assert(s.drop_first() =~= v + rest);
        assert(s.subrange((1 + v.len()) as int, s.len() as int) =~= rest);
        lemma_parse_frame(rs.drop_first());
        assert(seq![(s[0], rs[0].1)] + rs.drop_first() =~= rs);
    } else {
        assert(rle_frame(rs) =~= Seq::<u8>::empty());
    }
}

/// The encoding of a nonempty byte string is nonempty.
pub proof fn lemma_frame_nonempty(x: Seq<u8>)
    requires
        x.len() >= 1,
    ensures
        rle_encode_spec(x).len() >= 1,
{
    lemma_runs(x);
    let rs = runs(x);
    assert(frame_pieces(rs) =~= frame_pieces(rs.drop_last()).push(run_frame(rs.last())));
    frame_pieces(rs.drop_last()).lemma_flatten_push(run_frame(rs.last()));
}

/// Decoding the encoding of a nonempty byte string gives it back.
pub proof fn lemma_rle_round_trip(x: Seq<u8>)
    requires
        1 <= x.len() <= usize::MAX,
    ensures
        rle_decode_spec(rle_encode_spec(x)) == Some(x),
{
    lemma_runs(x);
    lemma_parse_frame(runs(x));
}

/// Writes the wire form of the runs `encoded`.
fn reduce_sizes(encoded: &Vec<(u8, usize)>) -> (r: Vec<u8>)
    ensures
        r@ == rle_frame(run_views(encoded@)),
{
    let mut out: Vec<u8> = Vec::new();
    let mut i: usize = 0;
    while i < encoded.len()
        invariant
            i <= encoded@.len(),
            out@ == rle_frame(run_views(encoded@.subrange(0, i as int))),
        decreases encoded@.len() - i,
    {
        let (c, count) = encoded[i];
        proof {
            let a = run_views(encoded@.subrange(0, i as int));
            assert(run_views(encoded@.subrange(0, i + 1)) =~= a.push((c, count as nat)));
            assert(frame_pieces(a.push((c, count as nat))) =~= frame_pieces(a).push(
                run_frame((c, count as nat)),
            ));
            frame_pieces(a).lemma_flatten_push(run_frame((c, count as nat)));
        }
        out.push(c);
        push_varsize(&mut out, count);
        i += 1;
        assert(out@ =~= rle_frame(run_views(encoded@.subrange(0, i as int))));
    }
    assert(encoded@.subrange(0, i as int) =~= encoded@);
    out
}

/// Run-length encodes `input`; fails on an empty input.
pub fn encode(input: &[u8]) -> (r: Result<Vec<u8>, CodecError>)
    ensures
        input@.len() == 0 ==> r == Err::<Vec<u8>, CodecError>(CodecError::EmptyInput),
        input@.len() > 0 ==> (r matches Ok(v) && v@ == rle_encode_spec(input@)),
{
    if input.len() == 0 {
        return Err(CodecError::EmptyInput);
    }
    let mut encoded: Vec<(u8, usize)> = Vec::new();
    encoded.push((input[0], 1));
    let mut i: usize = 1;
    proof {
        assert(input@.subrange(0, 1).drop_last() =~= Seq::<u8>::empty());
        assert(runs(Seq::<u8>::empty()) == Seq::<(u8, nat)>::empty());
        assert(input@.subrange(0, 1).last() == input@[0]);
        assert(run_views(encoded@) =~= runs(input@.subrange(0, 1)));
    }
    while i < input.len()
        invariant
            1 <= i <= input@.len(),
            run_views(encoded@) == runs(input@.subrange(0, i as int)),
            encoded@.len() > 0,
            forall|j: int| 0 <= j < encoded@.len() ==> #[trigger] encoded@[j].1 <= i,
        decreases input@.len() - i,
    {
        let c = input[i];
        let ghost pre = input@.subrange(0, i as int);
        let ghost cur = input@.subrange(0, i + 1);
        assert(cur.drop_last() =~= pre);
        let last = encoded.len() - 1;
        if c == input[i - 1] {
            let (lc, lk) = encoded[last];
            encoded.set(last, (lc, lk + 1));
            proof {
                lemma_runs(pre);
                assert(cur[cur.len() - 2] == input@[i - 1]);
                assert(run_views(encoded@) =~= runs(cur));
            }
        } else {
            encoded.push((c, 1));
            proof {
                assert(cur[cur.len() - 2] == input@[i - 1]);
                assert(run_views(encoded@) =~= runs(cur));
            }
        }
        i += 1;
    }
    assert(input@.subrange(0, i as int) =~= input@);
    Ok(reduce_sizes(&encoded))
}

/// Expands a run-length frame; fails on an empty or malformed frame.
pub fn decode(input: &[u8]) -> (r: Result<Vec<u8>, CodecError>)
    ensures
        input@.len() == 0 ==> r == Err::<Vec<u8>, CodecError>(CodecError::EmptyInput),
        input@.len() > 0 ==> match r {
            Ok(v) => rle_decode_spec(input@) == Some(v@),
            Err(e) => e == CodecError::MalformedVarsize && rle_decode_spec(input@) is None,
        },
{
    if input.len() == 0 {
        return Err(CodecError::EmptyInput);
    }
    let ghost mut done: Seq<(u8, nat)> = Seq::empty();
    let mut decoded: Vec<u8> = Vec::new();
    let mut i: usize = 0;
    assert(input@.subrange(0, input@.len() as int) =~= input@);
    assert(expand(done) =~= Seq::<u8>::empty());
    while i < input.len()
        invariant
            i <= input@.len(),
            decoded@ == expand(done),
            rle_parse(input@) == match rle_parse(input@.subrange(i as int, input@.len() as int)) {
                Some(rest) => Some(done + rest),
                None => None,
            },
        decreases input@.len() - i,
    {
        let ghost s = input@.subrange(i as int, input@.len() as int);
        let c = input[i];
        assert(s.drop_first() =~= input@.subrange(i + 1, input@.len() as int));
        let (num, m) = match decode_varsize_at(input, i + 1) {
            Ok(p) => p,
            Err(e) => {
                return Err(e);
            },
        };
        proof {
            crate::varsize::lemma_parse_consumes(s.drop_first());
        }
        let mut j: usize = 0;
        while j < num
            invariant
                j <= num,
                decoded@ == expand(done) + Seq::new(j as nat, |t: int| c),
            decreases num - j,
        {
            decoded.push(c);
            j += 1;
            assert(decoded@ =~= expand(done) + Seq::new(j as nat, |t: int| c));
        }
        proof {
            byte_pieces(done).lemma_flatten_push(run_bytes((c, num as nat)));
            assert(byte_pieces(done.push((c, num as nat))) =~= byte_pieces(done).push(
                run_bytes((c, num as nat)),
            ));
            assert(s.subrange((1 + m) as int, s.len() as int) =~= input@.subrange(
                i + 1 + m,
                input@.len() as int,
            ));
            match rle_parse(s.subrange((1 + m) as int, s.len() as int)) {
                Some(rest) => {
                    assert(done + (seq![(c, num as nat)] + rest) =~= done.push((c, num as nat))
                        + rest);
                },
                None => {},
            }
            done = done.push((c, num as nat));
            assert(decoded@ =~= expand(done));
        }
        i = i + 1 + m;
    }
    proof {
        assert(input@.subrange(i as int, input@.len() as int) =~= Seq::<u8>::empty());
        assert(done + Seq::<(u8, nat)>::empty() =~= done);
    }
    Ok(decoded)
}

/// Reads a whole frame of `(byte, varsize count)` pairs.
pub fn parse_runs(input: &[u8]) -> (r: Result<Vec<(u8, usize)>, CodecError>)
    ensures
        match r {
            Ok(v) => rle_parse(input@) == Some(run_views(v@)),
            Err(e) => e == CodecError::MalformedVarsize && rle_parse(input@) is None,
        },
{
    let mut pairs: Vec<(u8, usize)> = Vec::new();
    let mut i: usize = 0;
    assert(input@.subrange(0, input@.len() as int) =~= input@);
    assert(run_views(pairs@) =~= Seq::<(u8, nat)>::empty());
    while i < input.len()
        invariant
            i <= input@.len(),
            rle_parse(input@) == match rle_parse(input@.subrange(i as int, input@.len() as int)) {
                Some(rest) => Some(run_views(pairs@) + rest),
                None => None,
            },
        decreases input@.len() - i,
    {
        let ghost s = input@.subrange(i as int, input@.len() as int);
        let c = input[i];
        assert(s.drop_first() =~= input@.subrange(i + 1, input@.len() as int));
        let (num, m) = match decode_varsize_at(input, i + 1) {
            Ok(p) => p,
            Err(e) => {
                return Err(e);
            },
        };
        proof {
            crate::varsize::lemma_parse_consumes(s.drop_first());
            assert(s.subrange((1 + m) as int, s.len() as int) =~= input@.subrange(
                i + 1 + m,
                input@.len() as int,
            ));
            assert(run_views(pairs@.push((c, num))) =~= run_views(pairs@).push((c, num as nat)));
            match rle_parse(s.subrange((1 + m) as int, s.len() as int)) {
                Some(rest) => {
                    assert(run_views(pairs@) + (seq![(c, num as nat)] + rest) =~= run_views(pairs@).push(
                        (c, num as nat),
                    ) + rest);
                },
                None => {},
            }
        }
        pairs.push((c, num));
        i = i + 1 + m;
    }
    proof {
        assert(input@.subrange(i as int, input@.len() as int) =~= Seq::<u8>::empty());
        assert(run_views(pairs@) + Seq::<(u8, nat)>::empty() =~= run_views(pairs@));
    }
    Ok(pairs)
}

} // verus!
