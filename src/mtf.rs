//! Move-to-front transform over the alphabet `0..255` (byte 255 excluded).
use vstd::prelude::*;

use crate::CodecError;

verus! {

/// The starting symbol list: the bytes 0 to 254 in order.
pub open spec fn initial_symbols() -> Seq<u8> {
    Seq::new(255, |i: int| i as u8)
}

/// Index of the first occurrence of `c` in `list`, or -1.
pub open spec fn position(list: Seq<u8>, c: u8) -> int
    decreases list.len(),
{
    if list.len() == 0 {
        -1
    } else if list[0] == c {
        0
    } else {
        let r = position(list.drop_first(), c);
        if r < 0 {
            -1
        } else {
            r + 1
        }
    }
}

/// `list` with its element at `p` moved to the front.
pub open spec fn moved_to_front(list: Seq<u8>, p: int) -> Seq<u8> {
    seq![list[p]] + list.subrange(0, p) + list.subrange(p + 1, list.len() as int)
}

/// Indices that encoding `x` emits when starting from `list`; `None` when a
/// byte of `x` is not in the list.
pub open spec fn mtf_encode_from(list: Seq<u8>, x: Seq<u8>) -> Option<Seq<u8>>
    decreases x.len(),
{
    if x.len() == 0 {
        Some(Seq::empty())
    } else {
        let p = position(list, x[0]);
        if p < 0 {
            None
        } else {
            match mtf_encode_from(moved_to_front(list, p), x.drop_first()) {
                Some(rest) => Some(seq![p as u8] + rest),
                None => None,
            }
        }
    }
}

/// Bytes that decoding the indices `e` yields when starting from `list`;
/// `None` when an index lies outside the list.
pub open spec fn mtf_decode_from(list: Seq<u8>, e: Seq<u8>) -> Option<Seq<u8>>
    decreases e.len(),
{
    if e.len() == 0 {
        Some(Seq::empty())
    } else if e[0] < list.len() {
        match mtf_decode_from(moved_to_front(list, e[0] as int), e.drop_first()) {
            Some(rest) => Some(seq![list[e[0] as int]] + rest),
            None => None,
        }
    } else {
        None
    }
}

pub open spec fn mtf_encode_spec(x: Seq<u8>) -> Option<Seq<u8>> {
    mtf_encode_from(initial_symbols(), x)
}

pub open spec fn mtf_decode_spec(e: Seq<u8>) -> Option<Seq<u8>> {
    mtf_decode_from(initial_symbols(), e)
}

pub proof fn lemma_position(list: Seq<u8>, c: u8)
    ensures
        -1 <= position(list, c) < list.len(),
        position(list, c) >= 0 ==> list[position(list, c)] == c,
        position(list, c) < 0 ==> forall|i: int| 0 <= i < list.len() ==> list[i] != c,
        position(list, c) >= 0 ==> forall|i: int| 0 <= i < position(list, c) ==> list[i] != c,
    decreases list.len(),
{
    if list.len() > 0 && list[0] != c {
        lemma_position(list.drop_first(), c);
        assert forall|i: int| 1 <= i < list.len() implies list[i] == list.drop_first()[i - 1] by {}
    }
}

proof fn lemma_mtf_round_trip_from(list: Seq<u8>, x: Seq<u8>)
    requires
        list.len() <= 256,
        mtf_encode_from(list, x) is Some,
    ensures
        mtf_decode_from(list, mtf_encode_from(list, x).unwrap()) == Some(x),
    decreases x.len(),
{
    if x.len() > 0 {
        let p = position(list, x[0]);
        lemma_position(list, x[0]);
        let next = moved_to_front(list, p);
        lemma_mtf_round_trip_from(next, x.drop_first());
        let e = mtf_encode_from(list, x).unwrap();
        assert(e.drop_first() =~= mtf_encode_from(next, x.drop_first()).unwrap());
        assert(seq![x[0]] + x.drop_first() =~= x);
    }
}

/// Decoding the move-to-front encoding of `x` gives `x` back.
pub proof fn lemma_mtf_round_trip(x: Seq<u8>)
    requires
        mtf_encode_spec(x) is Some,
    ensures
        mtf_decode_spec(mtf_encode_spec(x).unwrap()) == Some(x),
{
    lemma_mtf_round_trip_from(initial_symbols(), x);
}

fn initial_list() -> (r: Vec<u8>)
    ensures
        r@ == initial_symbols(),
{
    let mut v: Vec<u8> = Vec::new();
    let mut i: u8 = 0;
    while i < 255
        invariant
            i <= 255,
            v@ == Seq::new(i as nat, |j: int| j as u8),
        decreases 255 - i,
    {
        v.push(i);
        i += 1;
        assert(v@ =~= Seq::new(i as nat, |j: int| j as u8));
    }
    v
}

/// Moves the element at `p` to the front, shifting the ones before it.
fn move_to_front(list: &mut Vec<u8>, p: usize)
    requires
        p < old(list)@.len(),
    ensures
        final(list)@ == moved_to_front(old(list)@, p as int),
{
    let c = list[p];
    let mut i: usize = p;
    while i > 0
        invariant
            i <= p < list@.len(),
            list@.len() == old(list)@.len(),
            c == old(list)@[p as int],
            forall|t: int| 0 <= t <= i ==> list@[t] == old(list)@[t],
            forall|t: int| i < t <= p ==> list@[t] == old(list)@[t - 1],
            forall|t: int| p < t < list@.len() ==> list@[t] == old(list)@[t],
        decreases i,
    {
        let prev = list[i - 1];
        list.set(i, prev);
        i -= 1;
    }
    list.set(0, c);
    assert(list@ =~= moved_to_front(old(list)@, p as int));
}

/// Replaces each byte by its current position in the symbol list and moves
/// it to the front; fails on byte 255, which the list lacks.
pub fn encode(input: &[u8]) -> (r: Result<Vec<u8>, CodecError>)
    ensures
        match r {
            Ok(v) => mtf_encode_spec(input@) == Some(v@),
            Err(e) => e == CodecError::InvalidAlphabet && mtf_encode_spec(input@) is None,
        },
{
    let mut symbols = initial_list();
    let mut encoded: Vec<u8> = Vec::new();
    let mut i: usize = 0;
    assert(input@.subrange(0, input@.len() as int) =~= input@);
    while i < input.len()
        invariant
            i <= input@.len(),
            symbols@.len() == 255,
            mtf_encode_spec(input@) == match mtf_encode_from(
                symbols@,
                input@.subrange(i as int, input@.len() as int),
            ) {
                Some(rest) => Some(encoded@ + rest),
                None => None,
            },
        decreases input@.len() - i,
    {
        let ghost rest = input@.subrange(i as int, input@.len() as int);
        let c = input[i];
        let mut p: usize = 0;
        while p < symbols.len() && symbols[p] != c
            invariant
                p <= symbols@.len(),
                forall|t: int| 0 <= t < p ==> symbols@[t] != c,
            decreases symbols@.len() - p,
        {
            p += 1;
        }
        proof {
            lemma_position(symbols@, c);
            assert(rest[0] == c);
            assert(rest.drop_first() =~= input@.subrange(i + 1, input@.len() as int));
        }
        if p == symbols.len() {
            return Err(CodecError::InvalidAlphabet);
        }
        assert(position(symbols@, c) == p);
        let ghost before = symbols@;
        encoded.push(p as u8);
        move_to_front(&mut symbols, p);
        proof {
            match mtf_encode_from(symbols@, rest.drop_first()) {
                Some(tail) => {
                    assert(encoded@ + tail =~= regrouped(encoded@, tail));
                },
                None => {},
            }
        }
        i += 1;
    }
    proof {
        assert(input@.subrange(i as int, input@.len() as int) =~= Seq::<u8>::empty());
        assert(encoded@ + Seq::<u8>::empty() =~= encoded@);
    }
    Ok(encoded)
}

spec fn regrouped(a: Seq<u8>, b: Seq<u8>) -> Seq<u8> {
    a.drop_last() + (seq![a.last()] + b)
}

/// Replaces each index by the symbol at that position and moves the symbol
/// to the front; fails on an index outside the list.
pub fn decode(encoded: &[u8]) -> (r: Result<Vec<u8>, CodecError>)
    ensures
        match r {
            Ok(v) => mtf_decode_spec(encoded@) == Some(v@),
            Err(e) => e == CodecError::InvalidAlphabet && mtf_decode_spec(encoded@) is None,
        },
{
    let mut symbols = initial_list();
    let mut decoded: Vec<u8> = Vec::new();
    let mut i: usize = 0;
    assert(encoded@.subrange(0, encoded@.len() as int) =~= encoded@);
    while i < encoded.len()
        invariant
            i <= encoded@.len(),
            symbols@.len() == 255,
            mtf_decode_spec(encoded@) == match mtf_decode_from(
                symbols@,
                encoded@.subrange(i as int, encoded@.len() as int),
            ) {
                Some(rest) => Some(decoded@ + rest),
                None => None,
            },
        decreases encoded@.len() - i,
    {
        let ghost rest = encoded@.subrange(i as int, encoded@.len() as int);
        let index = encoded[i] as usize;
        proof {
            assert(rest[0] == encoded@[i as int]);
            assert(rest.drop_first() =~= encoded@.subrange(i + 1, encoded@.len() as int));
        }
        if index >= symbols.len() {
            return Err(CodecError::InvalidAlphabet);
        }
        let symbol = symbols[index];
        decoded.push(symbol);
        move_to_front(&mut symbols, index);
        proof {
            match mtf_decode_from(symbols@, rest.drop_first()) {
                Some(tail) => {
                    assert(decoded@ + tail =~= regrouped(decoded@, tail));
                },
                None => {},
            }
        }
        i += 1;
    }
    proof {
        assert(encoded@.subrange(i as int, encoded@.len() as int) =~= Seq::<u8>::empty());
        assert(decoded@ + Seq::<u8>::empty() =~= decoded@);
    }
    Ok(decoded)
}

} // verus!
