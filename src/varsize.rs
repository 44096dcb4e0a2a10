//! Variable-width encoding of nonnegative integers: base-128 digits, most
//! significant first, with the high bit of every byte but the last set.
use vstd::prelude::*;

use crate::CodecError;

verus! {

/// Continuation bytes (high bit set) carrying the base-128 digits of `n`,
/// most significant first; empty for zero.
pub open spec fn varsize_prefix(n: nat) -> Seq<u8>
    decreases n,
{
    if n == 0 {
        Seq::empty()
    } else {
        varsize_prefix(n / 128).push((n % 128 + 128) as u8)
    }
}

/// The canonical (shortest) varsize encoding of `n`.
pub open spec fn varsize_of(n: nat) -> Seq<u8> {
    varsize_prefix(n / 128).push((n % 128) as u8)
}

/// Reads one token from the front of `s`; `acc` is the value of the digits
/// already read. Yields the value and the number of bytes of `s` consumed.
pub open spec fn parse_varsize_from(s: Seq<u8>, acc: nat) -> Option<(nat, nat)>
    decreases s.len(),
{
    if s.len() == 0 {
        None
    } else if s[0] < 128 {
        Some(((acc * 128 + s[0]) as nat, 1))
    } else {
        match parse_varsize_from(s.drop_first(), (acc * 128 + s[0] - 128) as nat) {
            Some((v, k)) => Some((v, k + 1)),
            None => None,
        }
    }
}

/// The first varsize token of `s`, as (value, bytes consumed); `None` when
/// the token is truncated or its value exceeds `usize::MAX`.
pub open spec fn parse_varsize(s: Seq<u8>) -> Option<(nat, nat)> {
    match parse_varsize_from(s, 0) {
        Some((v, k)) => if v <= usize::MAX {
            Some((v, k))
        } else {
            None
        },
        None => None,
    }
}

/// All the tokens packed back to back in `s`.
pub open spec fn parse_varsize_stream(s: Seq<u8>) -> Option<Seq<nat>>
    decreases s.len(),
{
    if s.len() == 0 {
        Some(Seq::empty())
    } else {
        match parse_varsize(s) {
            Some((v, k)) => if 0 < k <= s.len() {
                match parse_varsize_stream(s.subrange(k as int, s.len() as int)) {
                    Some(rest) => Some(seq![v] + rest),
                    None => None,
                }
            } else {
                None
            },
            None => None,
        }
    }
}

/// The concatenation of the encodings of `ns`.
pub open spec fn varsize_stream_of(ns: Seq<nat>) -> Seq<u8>
    decreases ns.len(),
{
    if ns.len() == 0 {
        Seq::empty()
    } else {
        varsize_of(ns[0]) + varsize_stream_of(ns.drop_first())
    }
}

pub open spec fn as_nats(v: Seq<usize>) -> Seq<nat> {
    v.map_values(|x: usize| x as nat)
}

spec fn shifted(o: Option<(nat, nat)>, i: nat) -> Option<(nat, nat)> {
    match o {
        Some((v, k)) => Some((v, k + i)),
        None => None,
    }
}

proof fn lemma_parse_from_monotone(s: Seq<u8>, acc: nat)
    ensures
        parse_varsize_from(s, acc) matches Some((v, k)) ==> v >= acc && 1 <= k <= s.len(),
    decreases s.len(),
{
    if s.len() > 0 && s[0] >= 128 {
        lemma_parse_from_monotone(s.drop_first(), (acc * 128 + s[0] - 128) as nat);
    }
}

proof fn lemma_prefix_parse(n: nat, tail: Seq<u8>, acc: nat)
    ensures
        parse_varsize_from(varsize_prefix(n) + tail, acc) == shifted(
            parse_varsize_from(tail, acc * pow128(varsize_prefix(n).len()) + n),
            varsize_prefix(n).len(),
        ),
    decreases n,
{
    if n > 0 {
        let m = n / 128;
        let d = (n % 128) as u8;
        let p = varsize_prefix(m);
        let t2 = seq![(d + 128) as u8] + tail;
        assert(varsize_prefix(n) + tail =~= p + t2);
        lemma_prefix_parse(m, t2, acc);
        let a1 = acc * pow128(p.len()) + m;
        // one more continuation byte
        assert(t2.drop_first() =~= tail);
        assert(parse_varsize_from(t2, a1) == shifted(parse_varsize_from(tail, (a1 * 128 + d) as nat), 1));
        lemma_pow128_succ(p.len());
        assert(a1 * 128 + d == acc * pow128(p.len() + 1) + n) by (nonlinear_arith)
            requires
                a1 == acc * pow128(p.len()) + m,
                m == n / 128,
                d == n % 128,
                pow128(p.len() + 1) == pow128(p.len()) * 128,
        ;
        assert(varsize_prefix(n).len() == p.len() + 1);
        let x = parse_varsize_from(tail, (acc * pow128(p.len() + 1) + n) as nat);
        assert(parse_varsize_from(t2, a1) == shifted(x, 1));
        assert(parse_varsize_from(p + t2, acc) == shifted(shifted(x, 1), p.len()));
        assert(shifted(shifted(x, 1), p.len()) == shifted(x, p.len() + 1));
    } else {
        assert(varsize_prefix(n) + tail =~= tail);
        assert(pow128(0) == 1);
    }
}

pub open spec fn pow128(k: nat) -> nat
    decreases k,
{
    if k == 0 {
        1
    } else {
        128 * pow128((k - 1) as nat)
    }
}

proof fn lemma_pow128_succ(k: nat)
    ensures
        pow128(k + 1) == pow128(k) * 128,
{
    assert(pow128(k + 1) == 128 * pow128(k));
}

/// A successful parse consumes at least one byte and no more than there are.
pub proof fn lemma_parse_consumes(s: Seq<u8>)
    ensures
        parse_varsize(s) matches Some((v, k)) ==> 1 <= k <= s.len(),
{
    lemma_parse_from_monotone(s, 0);
}

/// Decoding the canonical encoding of `n`, followed by anything, gives back
/// `n` and the length of its encoding.
pub proof fn lemma_varsize_round_trip(n: nat, tail: Seq<u8>)
    requires
        n <= usize::MAX,
    ensures
        parse_varsize(varsize_of(n) + tail) == Some((n, varsize_of(n).len())),
{
    let m = n / 128;
    let d = (n % 128) as u8;
    let t = seq![d] + tail;
    assert(varsize_of(n) + tail =~= varsize_prefix(m) + t);
    lemma_prefix_parse(m, t, 0);
    assert(parse_varsize_from(t, m) == Some(((m * 128 + d) as nat, 1nat)));
}

/// The canonical encoding is minimal: it never starts with a continuation
/// byte that carries no digit.
pub proof fn lemma_varsize_minimal(n: nat)
    ensures
        varsize_of(n).len() >= 1,
        varsize_of(n).len() > 1 ==> varsize_of(n)[0] != 0x80u8,
{
    lemma_prefix_first(n / 128);
    if n / 128 > 0 {
        assert(varsize_of(n)[0] == varsize_prefix(n / 128)[0]);
    }
}

proof fn lemma_prefix_first(m: nat)
    ensures
        m > 0 ==> varsize_prefix(m).len() > 0 && varsize_prefix(m)[0] != 0x80u8,
    decreases m,
{
    if m > 0 {
        lemma_prefix_first(m / 128);
        if m / 128 > 0 {
            assert(varsize_prefix(m)[0] == varsize_prefix(m / 128)[0]);
        } else {
            assert(m % 128 == m);
        }
    }
}

/// Decoding a stream of canonical encodings gives back the integers.
pub proof fn lemma_varsize_stream_round_trip(ns: Seq<nat>)
    requires
        forall|i: int| 0 <= i < ns.len() ==> ns[i] <= usize::MAX,
    ensures
        parse_varsize_stream(varsize_stream_of(ns)) == Some(ns),
    decreases ns.len(),
{
    if ns.len() > 0 {
        let s = varsize_stream_of(ns);
        let e = varsize_of(ns[0]);
        let rest = varsize_stream_of(ns.drop_first());
        lemma_varsize_round_trip(ns[0], rest);
        lemma_varsize_minimal(ns[0]);
        assert(s.subrange(e.len() as int, s.len() as int) =~= rest);
        lemma_varsize_stream_round_trip(ns.drop_first());
        assert(seq![ns[0]] + ns.drop_first() =~= ns);
    }
}

fn encode_prefix(m: usize) -> (r: Vec<u8>)
    ensures
        r@ == varsize_prefix(m as nat),
    decreases m,
{
    if m == 0 {
        Vec::new()
    } else {
        let mut v = encode_prefix(m / 128);
        v.push((m % 128 + 128) as u8);
        v
    }
}

/// Encodes `n` in as few bytes as possible.
pub fn encode_varsize(n: usize) -> (r: Vec<u8>)
    ensures
        r@ == varsize_of(n as nat),
{
    let mut v = encode_prefix(n / 128);
    v.push((n % 128) as u8);
    v
}

/// Appends the encoding of `n` to `out`.
pub fn push_varsize(out: &mut Vec<u8>, n: usize)
    ensures
        final(out)@ == old(out)@ + varsize_of(n as nat),
{
    let e = encode_varsize(n);
    let mut i: usize = 0;
    while i < e.len()
        invariant
            i <= e.len(),
            e@ == varsize_of(n as nat),
            out@ == old(out)@ + e@.subrange(0, i as int),
        decreases e.len() - i,
    {
        out.push(e[i]);
        i += 1;
        assert(e@.subrange(0, i as int) =~= e@.subrange(0, i - 1) .push(e[i - 1]));
    }
    assert(e@.subrange(0, e.len() as int) =~= e@);
}

/// Decodes the token that starts at `start` in `buf`, giving its value and
/// the number of bytes it takes.
pub fn decode_varsize_at(buf: &[u8], start: usize) -> (r: Result<(usize, usize), CodecError>)
    requires
        start <= buf@.len(),
    ensures
        match r {
            Ok((v, k)) => parse_varsize(buf@.subrange(start as int, buf@.len() as int)) == Some(
                (v as nat, k as nat),
            ),
            Err(e) => e == CodecError::MalformedVarsize && parse_varsize(
                buf@.subrange(start as int, buf@.len() as int),
            ) is None,
        },
{
    let ghost s = buf@.subrange(start as int, buf@.len() as int);
    let mut i: usize = start;
    let mut acc: usize = 0;
    proof {
        assert(s.subrange(0, s.len() as int) =~= s);
    }
    loop
        invariant
            start <= i <= buf@.len(),
            s == buf@.subrange(start as int, buf@.len() as int),
            parse_varsize_from(s, 0) == shifted(
                parse_varsize_from(buf@.subrange(i as int, buf@.len() as int), acc as nat),
                (i - start) as nat,
            ),
        decreases buf@.len() - i,
    {
        let ghost rest = buf@.subrange(i as int, buf@.len() as int);
        if i >= buf.len() {
            return Err(CodecError::MalformedVarsize);
        }
        let b = buf[i];
        let d: usize = if b >= 128 {
            (b - 128) as usize
        } else {
            b as usize
        };
        assert(rest[0] == b);
        if acc > (usize::MAX - d) / 128 {
            proof {
                assert(acc * 128 + d > usize::MAX) by (nonlinear_arith)
                    requires
                        acc > (usize::MAX - d) / 128,
                        d <= 127,
                ;
                if b >= 128 {
                    lemma_parse_from_monotone(rest.drop_first(), (acc * 128 + d) as nat);
                }
            }
            return Err(CodecError::MalformedVarsize);
        }
        assert(acc * 128 + d <= usize::MAX) by (nonlinear_arith)
            requires
                acc <= (usize::MAX - d) / 128,
                d <= 127,
        ;
        acc = acc * 128 + d;
        i += 1;
        assert(rest.drop_first() =~= buf@.subrange(i as int, buf@.len() as int));
        if b < 128 {
            return Ok((acc, i - start));
        }
    }
}

/// Decodes the first token of `encoded`: its value and the number of bytes
/// it takes.
pub fn get_first_decoded(encoded: &[u8]) -> (r: Result<(usize, usize), CodecError>)
    ensures
        match r {
            Ok((v, k)) => parse_varsize(encoded@) == Some((v as nat, k as nat)),
            Err(e) => e == CodecError::MalformedVarsize && parse_varsize(encoded@) is None,
        },
{
    proof {
        assert(encoded@.subrange(0, encoded@.len() as int) =~= encoded@);
    }
    decode_varsize_at(encoded, 0)
}

/// Decodes every token packed in `encoded`, in order.
pub fn decode_varsize(encoded: Vec<u8>) -> (r: Result<Vec<usize>, CodecError>)
    ensures
        match r {
            Ok(v) => parse_varsize_stream(encoded@) == Some(as_nats(v@)),
            Err(e) => e == CodecError::MalformedVarsize && parse_varsize_stream(encoded@) is None,
        },
{
    decode_varsize_slice(encoded.as_slice())
}

/// Decodes every token packed in `encoded`, in order.
pub fn decode_varsize_slice(encoded: &[u8]) -> (r: Result<Vec<usize>, CodecError>)
    ensures
        match r {
            Ok(v) => parse_varsize_stream(encoded@) == Some(as_nats(v@)),
            Err(e) => e == CodecError::MalformedVarsize && parse_varsize_stream(encoded@) is None,
        },
{
    let mut out: Vec<usize> = Vec::new();
    let mut i: usize = 0;
    proof {
        assert(encoded@.subrange(0, encoded@.len() as int) =~= encoded@);
    }
    while i < encoded.len()
        invariant
            i <= encoded@.len(),
            parse_varsize_stream(encoded@) == match parse_varsize_stream(
                encoded@.subrange(i as int, encoded@.len() as int),
            ) {
                Some(rest) => Some(as_nats(out@) + rest),
                None => None,
            },
        decreases encoded@.len() - i,
    {
        let ghost s = encoded@.subrange(i as int, encoded@.len() as int);
        match decode_varsize_at(encoded, i) {
            Ok((v, k)) => {
                proof {
                    lemma_parse_from_monotone(s, 0);
                    assert(s.subrange(k as int, s.len() as int) =~= encoded@.subrange(
                        (i + k) as int,
                        encoded@.len() as int,
                    ));
                    assert(as_nats(out@.push(v)) =~= as_nats(out@) + seq![v as nat]);
                    match parse_varsize_stream(s.subrange(k as int, s.len() as int)) {
                        Some(rest) => {
                            assert(as_nats(out@) + (seq![v as nat] + rest) =~= as_nats(out@.push(v)) + rest);
                        },
                        None => {},
                    }
                }
                out.push(v);
                i = i + k;
            },
            Err(e) => {
                return Err(e);
            },
        }
    }
    proof {
        assert(encoded@.subrange(i as int, encoded@.len() as int) =~= Seq::<u8>::empty());
        assert(as_nats(out@) + Seq::<nat>::empty() =~= as_nats(out@));
    }
    Ok(out)
}

/// Encodes each integer of `xs` and concatenates the encodings.
pub fn encode_varsize_stream(xs: &[usize]) -> (r: Vec<u8>)
    ensures
        r@ == varsize_stream_of(as_nats(xs@)),
{
    let mut out: Vec<u8> = Vec::new();
    let mut j: usize = 0;
    assert(as_nats(xs@).subrange(0, xs@.len() as int) =~= as_nats(xs@));
    while j < xs.len()
        invariant
            j <= xs@.len(),
            out@ + varsize_stream_of(as_nats(xs@).subrange(j as int, xs@.len() as int))
                == varsize_stream_of(as_nats(xs@)),
        decreases xs@.len() - j,
    {
        let ghost rest = as_nats(xs@).subrange(j as int, xs@.len() as int);
        assert(rest.drop_first() =~= as_nats(xs@).subrange(j + 1, xs@.len() as int));
        push_varsize(&mut out, xs[j]);
        j += 1;
    }
    proof {
        assert(as_nats(xs@).subrange(j as int, xs@.len() as int) =~= Seq::<nat>::empty());
        assert(out@ + Seq::<u8>::empty() =~= out@);
    }
    out
}

} // verus!
