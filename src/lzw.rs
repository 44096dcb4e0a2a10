//! Lempel-Ziv-Welch coding. The dictionary starts with the distinct bytes of
//! the input in order of first appearance; indices go out as varsize tokens.
use vstd::prelude::*;
use std::collections::HashMap;

use crate::varsize::{
    as_nats, decode_varsize_at, decode_varsize_slice, encode_varsize_stream, lemma_parse_consumes,
    lemma_varsize_round_trip, lemma_varsize_stream_round_trip, parse_varsize,
    parse_varsize_stream, push_varsize, varsize_of, varsize_stream_of,
};
use crate::{extend_bytes, slice_between, CodecError};

verus! {

broadcast use vstd::std_specs::hash::group_hash_axioms;

/// The distinct bytes among the first `n` of `x`, in order of first
/// appearance.
pub open spec fn seed_upto(x: Seq<u8>, n: int) -> Seq<u8>
    decreases n,
{
    if n <= 0 {
        Seq::empty()
    } else {
        let s = seed_upto(x, n - 1);
        if s.contains(x[n - 1]) {
            s
        } else {
            s.push(x[n - 1])
        }
    }
}

/// The distinct bytes of `x` in order of first appearance.
pub open spec fn seed(x: Seq<u8>) -> Seq<u8> {
    seed_upto(x, x.len() as int)
}

/// The starting dictionary: one single-byte entry per seed byte.
pub open spec fn seed_dict(chars: Seq<u8>) -> Seq<Seq<u8>> {
    chars.map_values(|c: u8| seq![c])
}

/// Index of the first entry equal to `s`, or -1.
pub open spec fn find_entry(dict: Seq<Seq<u8>>, s: Seq<u8>) -> int
    decreases dict.len(),
{
    if dict.len() == 0 {
        -1
    } else if dict.last() == s {
        let r = find_entry(dict.drop_last(), s);
        if r >= 0 {
            r
        } else {
            dict.len() - 1
        }
    } else {
        find_entry(dict.drop_last(), s)
    }
}

/// Indices emitted for the rest `x` of the input, given the dictionary and
/// the current match `w`.
pub open spec fn lzw_run(dict: Seq<Seq<u8>>, w: Seq<u8>, x: Seq<u8>) -> Seq<nat>
    decreases x.len(),
{
    if x.len() == 0 {
        seq![find_entry(dict, w) as nat]
    } else {
        let wc = w.push(x[0]);
        if find_entry(dict, wc) >= 0 {
            lzw_run(dict, wc, x.drop_first())
        } else {
            seq![find_entry(dict, w) as nat] + lzw_run(dict.push(wc), seq![x[0]], x.drop_first())
        }
    }
}

/// The indices that encoding `x` emits.
pub open spec fn lzw_indices(x: Seq<u8>) -> Seq<nat> {
    if x.len() == 0 {
        Seq::empty()
    } else {
        lzw_run(seed_dict(seed(x)), seq![x[0]], x.drop_first())
    }
}

/// Bytes that decoding the indices `idx` yields from the dictionary `dict`
/// and the previous entry `prev`; `None` on an index beyond the dictionary.
pub open spec fn lzw_decode_from(dict: Seq<Seq<u8>>, prev: Seq<u8>, idx: Seq<nat>) -> Option<Seq<u8>>
    decreases idx.len(),
{
    if idx.len() == 0 {
        Some(Seq::empty())
    } else {
        let k = idx[0];
        let entry = if k < dict.len() {
            Some(dict[k as int])
        } else if k == dict.len() && prev.len() > 0 {
            Some(prev.push(prev[0]))
        } else {
            None
        };
        match entry {
            None => None,
            Some(e) => {
                let d2 = if prev.len() > 0 {
                    dict.push(prev.push(e[0]))
                } else {
                    dict
                };
                match lzw_decode_from(d2, e, idx.drop_first()) {
                    Some(rest) => Some(e + rest),
                    None => None,
                }
            },
        }
    }
}

/// What decoding the single bytes `chars` and the packed indices `s` gives.
pub open spec fn lzw_decode_spec(chars: Seq<u8>, s: Seq<u8>) -> Option<Seq<u8>> {
    match parse_varsize_stream(s) {
        Some(idx) => lzw_decode_from(seed_dict(chars), Seq::empty(), idx),
        None => None,
    }
}

/// The LZW frame of `x`: the seed count, the seed bytes, then the indices.
pub open spec fn lzw_frame(x: Seq<u8>) -> Seq<u8> {
    varsize_of(seed(x).len()) + seed(x) + varsize_stream_of(lzw_indices(x))
}

/// What decoding the LZW frame `s` gives; `None` for a malformed frame.
pub open spec fn lzw_frame_decode_spec(s: Seq<u8>) -> Option<Seq<u8>> {
    match parse_varsize(s) {
        Some((n, k)) => if k + n <= s.len() {
            lzw_decode_spec(s.subrange(k as int, (k + n) as int), s.subrange((k + n) as int, s.len() as int))
        } else {
            None
        },
        None => None,
    }
}

pub open spec fn distinct_entries(dict: Seq<Seq<u8>>) -> bool {
    forall|a: int, b: int| 0 <= a < dict.len() && 0 <= b < dict.len() && a != b ==> dict[a] != dict[b]
}

proof fn lemma_find_entry(dict: Seq<Seq<u8>>, s: Seq<u8>)
    requires
        distinct_entries(dict),
    ensures
        -1 <= find_entry(dict, s) < dict.len(),
        find_entry(dict, s) >= 0 ==> dict[find_entry(dict, s)] == s,
        find_entry(dict, s) < 0 ==> forall|j: int| 0 <= j < dict.len() ==> dict[j] != s,
    decreases dict.len(),
{
    if dict.len() > 0 {
        let d = dict.drop_last();
        assert(distinct_entries(d)) by {
            assert forall|a: int, b: int| 0 <= a < d.len() && 0 <= b < d.len() && a != b implies d[a] != d[b] by {
                assert(d[a] == dict[a] && d[b] == dict[b]);
            }
        }
        lemma_find_entry(d, s);
        assert forall|j: int| 0 <= j < d.len() implies d[j] == dict[j] by {}
        if find_entry(d, s) >= 0 && dict.last() == s {
            assert(dict[find_entry(d, s)] == dict[dict.len() - 1]);
        }
    }
}

proof fn lemma_seed_upto(x: Seq<u8>, n: int)
    requires
        0 <= n <= x.len(),
    ensures
        forall|a: int, b: int| 0 <= a < b < seed_upto(x, n).len() ==> seed_upto(x, n)[a] != seed_upto(x, n)[b],
        forall|t: int| 0 <= t < n ==> seed_upto(x, n).contains(#[trigger] x[t]),
        seed_upto(x, n).len() <= n,
    decreases n,
{
    if n > 0 {
        lemma_seed_upto(x, n - 1);
        let s = seed_upto(x, n - 1);
        if !s.contains(x[n - 1]) {
            let s2 = s.push(x[n - 1]);
            assert forall|t: int| 0 <= t < n implies s2.contains(#[trigger] x[t]) by {
                if t < n - 1 {
                    let j = choose|j: int| 0 <= j < s.len() && s[j] == x[t];
                    assert(s2[j] == x[t]);
                } else {
                    assert(s2[s.len() as int] == x[t]);
                }
            }
        }
    }
}

/// The seed bytes of `input`, in order of first appearance.
fn collect_seeds(input: &[u8]) -> (r: (Vec<u8>, Vec<usize>))
    ensures
        r.0@ == seed(input@),
        r.1@.len() == 256,
        forall|c: int|
            0 <= c < 256 ==> (#[trigger] r.1@[c] < r.0@.len() && r.0@[r.1@[c] as int] == c as u8)
                || (r.1@[c] == usize::MAX && !r.0@.contains(c as u8)),
{
    let mut seed_index: Vec<usize> = Vec::new();
    let mut c: usize = 0;
    while c < 256
        invariant
            c <= 256,
            seed_index@.len() == c,
            forall|d: int| 0 <= d < c ==> seed_index@[d] == usize::MAX,
        decreases 256 - c,
    {
        seed_index.push(usize::MAX);
        c += 1;
    }
    let mut chars: Vec<u8> = Vec::new();
    let mut i: usize = 0;
    while i < input.len()
        invariant
            i <= input@.len(),
            seed_index@.len() == 256,
            chars@ == seed_upto(input@, i as int),
            chars@.len() <= i,
            forall|d: int|
                0 <= d < 256 ==> (#[trigger] seed_index@[d] < chars@.len() && chars@[seed_index@[d] as int]
                    == d as u8) || (seed_index@[d] == usize::MAX && !chars@.contains(d as u8)),
        decreases input@.len() - i,
    {
        let b = input[i];
        if seed_index[b as usize] == usize::MAX {
            proof {
                assert(!chars@.contains(b));
            }
            seed_index.set(b as usize, chars.len());
            chars.push(b);
            proof {
                assert forall|d: int| 0 <= d < 256 implies (#[trigger] seed_index@[d] < chars@.len()
                    && chars@[seed_index@[d] as int] == d as u8) || (seed_index@[d] == usize::MAX
                    && !chars@.contains(d as u8)) by {
                    if d != b as int && seed_index@[d] == usize::MAX {
                        if chars@.contains(d as u8) {
                            let j = choose|j: int| 0 <= j < chars@.len() && chars@[j] == d as u8;
                            if j < chars@.len() - 1 {
                                assert(chars@.drop_last()[j] == d as u8);
                                assert(chars@.drop_last().contains(d as u8));
                            }
                        }
                    }
                }
            }
        } else {
            proof {
                let j = seed_index@[b as int];
                assert(chars@[j as int] == b);
                assert(chars@.contains(b));
            }
        }
        i += 1;
    }
    (chars, seed_index)
}

/// Encodes `input`: the seed bytes, and the emitted indices as varsize tokens.
pub fn encode(input: &[u8]) -> (r: (Vec<u8>, Vec<u8>))
    requires
        input@.len() <= usize::MAX / 512,
    ensures
        r.0@ == seed(input@),
        r.1@ == varsize_stream_of(lzw_indices(input@)),
{
    let (unique_char, seed_index) = collect_seeds(input);
    let mut indexes: Vec<usize> = Vec::new();
    if input.len() == 0 {
        proof {
            assert(as_nats(indexes@) =~= Seq::<nat>::empty());
        }
        let bytes = encode_varsize_stream(indexes.as_slice());
        return (unique_char, bytes);
    }
    proof {
        lemma_seed_upto(input@, input@.len() as int);
    }
    let ghost x = input@;
    let ghost mut dict: Seq<Seq<u8>> = seed_dict(unique_char@);
    let mut codewords: HashMap<usize, usize> = HashMap::new();
    let mut dict_len: usize = unique_char.len();
    let first = input[0];
    proof {
        assert(x[0] == first);
        assert(unique_char@.contains(first));
    }
    let mut w: usize = seed_index[first as usize];
    let mut i: usize = 1;
    proof {
        assert(distinct_entries(dict)) by {
            assert forall|a: int, b: int| 0 <= a < dict.len() && 0 <= b < dict.len() && a != b implies dict[a] != dict[b] by {
                assert(dict[a][0] == unique_char@[a]);
                assert(dict[b][0] == unique_char@[b]);
            }
        }
        assert(dict[w as int] =~= seq![x[0]]);
        assert forall|a: int, j: int, c: u8|
            0 <= a < dict.len() && 0 <= j < dict.len() && #[trigger] dict[j] == #[trigger] dict[a].push(c)
            implies codewords@.contains_key((a * 256 + c) as usize) by {
            assert(dict[j].len() == 1 && dict[a].len() == 1);
        }
        assert(x.drop_first() =~= x.subrange(1, x.len() as int));
    }
    while i < input.len()
        invariant
            x == input@,
            1 <= i <= x.len() <= usize::MAX / 512,
            dict.len() == dict_len,
            dict_len <= x.len() + i,
            w < dict_len,
            seed_index@.len() == 256,
            unique_char@ == seed(x),
            forall|t: int| 0 <= t < x.len() ==> unique_char@.contains(#[trigger] x[t]),
            forall|c: int|
                0 <= c < 256 ==> (#[trigger] seed_index@[c] < unique_char@.len() && unique_char@[seed_index@[c] as int]
                    == c as u8) || (seed_index@[c] == usize::MAX && !unique_char@.contains(c as u8)),
            forall|j: int| 0 <= j < unique_char@.len() ==> #[trigger] dict[j] == seq![unique_char@[j]],
            unique_char@.len() <= dict.len(),
            distinct_entries(dict),
            forall|j: int| 0 <= j < dict.len() ==> (#[trigger] dict[j]).len() >= 1,
            forall|j: int|
                0 <= j < dict.len() && (#[trigger] dict[j]).len() >= 2 ==> find_entry(dict, dict[j].drop_last()) >= 0,
            forall|k: usize|
                #[trigger] codewords@.contains_key(k) ==> (k / 256) < dict.len() && codewords@[k] < dict.len()
                    && dict[codewords@[k] as int] == dict[(k / 256) as int].push((k % 256) as u8),
            forall|a: int, j: int, c: u8|
                0 <= a < dict.len() && 0 <= j < dict.len() && #[trigger] dict[j] == #[trigger] dict[a].push(c)
                    ==> codewords@.contains_key((a * 256 + c) as usize),
            as_nats(indexes@) + lzw_run(dict, dict[w as int], x.subrange(i as int, x.len() as int))
                == lzw_indices(x),
        decreases x.len() - i,
    {
        let c = input[i];
        let key = w * 256 + c as usize;
        let ghost rest = x.subrange(i as int, x.len() as int);
        let ghost wc = dict[w as int].push(c);
        proof {
            assert(rest.drop_first() =~= x.subrange(i + 1, x.len() as int));
            assert(rest[0] == c);
            assert(key / 256 == w && key % 256 == c) by (nonlinear_arith)
                requires
                    key == w * 256 + c,
                    c < 256,
            ;
            lemma_find_entry(dict, wc);
            lemma_find_entry(dict, dict[w as int]);
        }
        match codewords.get(&key) {
            Some(j) => {
                proof {
                    assert(dict[*j as int] == wc);
                }
                w = *j;
            },
            None => {
                proof {
                    assert forall|j: int| 0 <= j < dict.len() implies dict[j] != wc by {
                        if dict[j] == wc {
                            assert(codewords@.contains_key((w * 256 + c) as usize));
                        }
                    }
                }
                indexes.push(w);
                codewords.insert(key, dict_len);
                let ghost old_dict = dict;
                proof {
                    dict = dict.push(wc);
                }
                dict_len += 1;
                proof {
                    assert(unique_char@.contains(c));
                }
                w = seed_index[c as usize];
                proof {
                    assert(dict[w as int] == seq![c]);
                    assert(distinct_entries(dict)) by {
                        assert forall|a: int, b: int| 0 <= a < dict.len() && 0 <= b < dict.len() && a != b implies dict[a] != dict[b] by {
                            if a < old_dict.len() && b < old_dict.len() {
                                assert(dict[a] == old_dict[a] && dict[b] == old_dict[b]);
                            }
                        }
                    }
                    assert forall|j: int|
                        0 <= j < dict.len() && (#[trigger] dict[j]).len() >= 2 implies find_entry(dict, dict[j].drop_last()) >= 0 by {
                        lemma_find_entry(dict, dict[j].drop_last());
                        if j < old_dict.len() {
                            lemma_find_entry(old_dict, dict[j].drop_last());
                            let p = find_entry(old_dict, dict[j].drop_last());
                            assert(dict[p] == old_dict[p]);
                        } else {
                            assert(dict[j].drop_last() =~= old_dict[key_entry(key)]);
                            assert(dict[key_entry(key)] == old_dict[key_entry(key)]);
                        }
                    }
                    assert forall|a: int, j: int, c2: u8|
                        0 <= a < dict.len() && 0 <= j < dict.len() && #[trigger] dict[j] == #[trigger] dict[a].push(c2)
                        implies codewords@.contains_key((a * 256 + c2) as usize) by {
                        let wo = key_entry(key);
                        if j == old_dict.len() {
                            assert(dict[a] =~= dict[j].drop_last());
                            assert(dict[j].drop_last() =~= old_dict[wo]);
                            if a == old_dict.len() {
                                assert(dict[a].len() == dict[j].len());
                            } else {
                                assert(dict[a] == old_dict[a]);
                                assert(a == wo);
                            }
                            assert(dict[j].last() == c2);
                            assert(wc.last() == c);
                            assert(c2 == c);
                            assert((a * 256 + c2) as usize == key);
                        } else if a == old_dict.len() {
                            // an old entry extending the new one would make the new one old
                            assert(dict[j] == old_dict[j]);
                            assert(old_dict[j].len() >= 2);
                            assert(old_dict[j].drop_last() =~= wc);
                            assert(find_entry(old_dict, old_dict[j].drop_last()) >= 0);
                            lemma_find_entry(old_dict, wc);
                        } else {
                            assert(dict[j] == old_dict[j] && dict[a] == old_dict[a]);
                            assert(old_dict[j] == old_dict[a].push(c2));
                        }
                    }
                    assert forall|k: usize| #[trigger] codewords@.contains_key(k) implies (k / 256) < dict.len()
                        && codewords@[k] < dict.len() && dict[codewords@[k] as int] == dict[(k / 256) as int].push(
                        (k % 256) as u8) by {
                        if k != key {
                            assert(dict[(k / 256) as int] == old_dict[(k / 256) as int]);
                            assert(dict[codewords@[k] as int] == old_dict[codewords@[k] as int]);
                        }
                    }
                    assert(as_nats(indexes@) =~= as_nats(indexes@.drop_last()).push(key_entry(key) as nat));
                    assert(as_nats(indexes@.drop_last()).push(key_entry(key) as nat) + lzw_run(dict, seq![c], rest.drop_first())
                        =~= as_nats(indexes@.drop_last()) + (seq![key_entry(key) as nat] + lzw_run(dict, seq![c], rest.drop_first())));
                }
            },
        }
        i += 1;
    }
    proof {
        let last = x.subrange(i as int, x.len() as int);
        assert(last =~= Seq::<u8>::empty());
        lemma_find_entry(dict, dict[w as int]);
        assert(as_nats(indexes@.push(w)) =~= as_nats(indexes@).push(w as nat));
        assert(as_nats(indexes@).push(w as nat) =~= as_nats(indexes@) + seq![w as nat]);
    }
    indexes.push(w);
    let bytes = encode_varsize_stream(indexes.as_slice());
    (unique_char, bytes)
}

/// The dictionary index that a key was made from.
spec fn key_entry(key: usize) -> int {
    (key / 256) as int
}

pub open spec fn entries_view(v: Seq<Vec<u8>>) -> Seq<Seq<u8>> {
    v.map_values(|e: Vec<u8>| e@)
}

/// Decodes the packed indices `input` against the seed bytes `single_chars`.
pub fn decode(single_chars: &[u8], input: &[u8]) -> (r: Result<Vec<u8>, CodecError>)
    ensures
        match r {
            Ok(v) => lzw_decode_spec(single_chars@, input@) == Some(v@),
            Err(e) => lzw_decode_spec(single_chars@, input@) is None && (e == CodecError::MalformedVarsize
                <==> parse_varsize_stream(input@) is None) && (e == CodecError::MalformedVarsize || e
                == CodecError::InvalidLzwIndex),
        },
{
    let indices = match decode_varsize_slice(input) {
        Ok(v) => v,
        Err(e) => {
            return Err(e);
        },
    };
    let ghost idx = as_nats(indices@);
    let mut encoding: Vec<Vec<u8>> = Vec::new();
    let mut t: usize = 0;
    while t < single_chars.len()
        invariant
            t <= single_chars@.len(),
            entries_view(encoding@) == seed_dict(single_chars@.subrange(0, t as int)),
            forall|j: int| 0 <= j < encoding@.len() ==> (#[trigger] encoding@[j])@.len() >= 1,
        decreases single_chars@.len() - t,
    {
        let mut e: Vec<u8> = Vec::new();
        e.push(single_chars[t]);
        assert(e@ =~= seq![single_chars@[t as int]]);
        let ghost prev_view = entries_view(encoding@);
        encoding.push(e);
        assert(entries_view(encoding@) =~= prev_view.push(seq![single_chars@[t as int]]));
        assert(seed_dict(single_chars@.subrange(0, t + 1)) =~= seed_dict(single_chars@.subrange(0, t as int)).push(
            seq![single_chars@[t as int]],
        ));
        t += 1;
        assert(entries_view(encoding@) =~= seed_dict(single_chars@.subrange(0, t as int)));
    }
    assert(single_chars@.subrange(0, t as int) =~= single_chars@);
    let mut previous: Vec<u8> = Vec::new();
    let mut decoded: Vec<u8> = Vec::new();
    let mut i: usize = 0;
    assert(idx.subrange(0, idx.len() as int) =~= idx);
    while i < indices.len()
        invariant
            i <= indices@.len(),
            idx == as_nats(indices@),
            parse_varsize_stream(input@) == Some(idx),
            forall|j: int| 0 <= j < encoding@.len() ==> (#[trigger] encoding@[j])@.len() >= 1,
            lzw_decode_spec(single_chars@, input@) == match lzw_decode_from(
                entries_view(encoding@),
                previous@,
                idx.subrange(i as int, idx.len() as int),
            ) {
                Some(rest) => Some(decoded@ + rest),
                None => None,
            },
        decreases indices@.len() - i,
    {
        let ghost rest = idx.subrange(i as int, idx.len() as int);
        let ghost dict = entries_view(encoding@);
        let k = indices[i];
        assert(rest[0] == k as nat);
        assert(rest.drop_first() =~= idx.subrange(i + 1, idx.len() as int));
        let entry: Vec<u8> = if k < encoding.len() {
            let src = &encoding[k];
            slice_between(src.as_slice(), 0, src.len())
        } else if k == encoding.len() && previous.len() > 0 {
            let mut e = slice_between(previous.as_slice(), 0, previous.len());
            e.push(previous[0]);
            e
        } else {
            return Err(CodecError::InvalidLzwIndex);
        };
        proof {
            if k < encoding@.len() {
                assert(encoding@[k as int]@.subrange(0, encoding@[k as int]@.len() as int) =~= encoding@[k as int]@);
                assert(entry@ == dict[k as int]);
            } else {
                assert(previous@.subrange(0, previous@.len() as int) =~= previous@);
            }
        }
        let ghost before = decoded@;
        extend_bytes(&mut decoded, entry.as_slice());
        if previous.len() > 0 {
            let mut ne = slice_between(previous.as_slice(), 0, previous.len());
            ne.push(entry[0]);
            proof {
                assert(previous@.subrange(0, previous@.len() as int) =~= previous@);
            }
            encoding.push(ne);
        }
        proof {
            assert(entries_view(encoding@) =~= if previous@.len() > 0 {
                dict.push(previous@.push(entry@[0]))
            } else {
                dict
            });
            match lzw_decode_from(entries_view(encoding@), entry@, rest.drop_first()) {
                Some(tail) => {
                    assert(before + (entry@ + tail) =~= decoded@ + tail);
                },
                None => {},
            }
        }
        previous = entry;
        i += 1;
    }
    proof {
        assert(idx.subrange(i as int, idx.len() as int) =~= Seq::<nat>::empty());
        assert(decoded@ + Seq::<u8>::empty() =~= decoded@);
    }
    Ok(decoded)
}

/// The LZW frame of `input`.
pub fn encode_with_metadatas(input: &[u8]) -> (r: Vec<u8>)
    requires
        input@.len() <= usize::MAX / 512,
    ensures
        r@ == lzw_frame(input@),
{
    let (unique_chars, encoded) = encode(input);
    let mut out: Vec<u8> = Vec::new();
    push_varsize(&mut out, unique_chars.len());
    extend_bytes(&mut out, unique_chars.as_slice());
    extend_bytes(&mut out, encoded.as_slice());
    assert(out@ =~= lzw_frame(input@));
    out
}

/// Decodes an LZW frame.
pub fn decode_with_metadatas(input: &[u8]) -> (r: Result<Vec<u8>, CodecError>)
    ensures
        match r {
            Ok(v) => lzw_frame_decode_spec(input@) == Some(v@),
            Err(_) => lzw_frame_decode_spec(input@) is None,
        },
{
    proof {
        assert(input@.subrange(0, input@.len() as int) =~= input@);
        lemma_parse_consumes(input@);
    }
    let (num_chars, k) = match decode_varsize_at(input, 0) {
        Ok(p) => p,
        Err(e) => {
            return Err(e);
        },
    };
    if num_chars > input.len() - k {
        return Err(CodecError::MalformedVarsize);
    }
    let single_chars = slice_between(input, k, k + num_chars);
    let encoded = slice_between(input, k + num_chars, input.len());
    decode(single_chars.as_slice(), encoded.as_slice())
}

proof fn lemma_find_entry_found(dict: Seq<Seq<u8>>, s: Seq<u8>)
    ensures
        find_entry(dict, s) < dict.len(),
        find_entry(dict, s) >= 0 ==> dict[find_entry(dict, s)] == s,
        (exists|j: int| 0 <= j < dict.len() && dict[j] == s) ==> find_entry(dict, s) >= 0,
    decreases dict.len(),
{
    if dict.len() > 0 {
        let d = dict.drop_last();
        lemma_find_entry_found(d, s);
        if exists|j: int| 0 <= j < dict.len() && dict[j] == s {
            let j = choose|j: int| 0 <= j < dict.len() && dict[j] == s;
            if j < dict.len() - 1 {
                assert(d[j] == s);
            }
        }
        if find_entry(d, s) >= 0 {
            assert(dict[find_entry(d, s)] == d[find_entry(d, s)]);
        }
    }
}

proof fn lemma_find_entry_push(dict: Seq<Seq<u8>>, e: Seq<u8>, s: Seq<u8>)
    requires
        find_entry(dict, s) >= 0,
    ensures
        find_entry(dict.push(e), s) >= 0,
{
    lemma_find_entry_found(dict, s);
    lemma_find_entry_found(dict.push(e), s);
    assert(dict.push(e)[find_entry(dict, s)] == s);
}

/// The decoder, one entry behind the encoder, reads back the current match
/// and the rest of the input.
proof fn lemma_decode_run(d: Seq<Seq<u8>>, dec: Seq<Seq<u8>>, prev: Seq<u8>, w: Seq<u8>, r: Seq<u8>)
    requires
        w.len() >= 1,
        find_entry(d, w) >= 0,
        forall|t: int| 0 <= t < r.len() ==> find_entry(d, seq![#[trigger] r[t]]) >= 0,
        (prev.len() == 0 && dec == d) || (prev.len() > 0 && d == dec.push(prev.push(w[0]))),
    ensures
        lzw_decode_from(dec, prev, lzw_run(d, w, r)) == Some(w + r),
        forall|t: int| 0 <= t < lzw_run(d, w, r).len() ==> #[trigger] lzw_run(d, w, r)[t] < d.len() + r.len(),
    decreases r.len(),
{
    let k = find_entry(d, w);
    lemma_find_entry_found(d, w);
    assert(d[k] == w);
    // the entry the decoder produces for index k is w
    let entry = if k < dec.len() {
        dec[k]
    } else {
        prev.push(prev[0])
    };
    if prev.len() > 0 && k == dec.len() {
        assert(w == prev.push(w[0]));
        assert(w[0] == prev[0]);
        assert(entry =~= w);
    } else {
        assert(dec[k] == d[k]);
    }
    assert(entry == w);
    let d2 = if prev.len() > 0 {
        dec.push(prev.push(entry[0]))
    } else {
        dec
    };
    assert(d2 == d);
    if r.len() == 0 {
        let run = lzw_run(d, w, r);
        assert(run == seq![k as nat]);
        assert(run.drop_first() =~= Seq::<nat>::empty());
        assert(lzw_decode_from(d2, entry, Seq::<nat>::empty()) == Some(Seq::<u8>::empty()));
        assert(w + Seq::<u8>::empty() =~= w);
        assert(w + r =~= w);
    } else {
        let c = r[0];
        let wc = w.push(c);
        let r2 = r.drop_first();
        assert forall|t: int| 0 <= t < r2.len() implies find_entry(d, seq![#[trigger] r2[t]]) >= 0 by {
            assert(r2[t] == r[t + 1]);
        }
        if find_entry(d, wc) >= 0 {
            assert(wc[0] == w[0]);
            lemma_decode_run(d, dec, prev, wc, r2);
            assert(wc + r2 =~= w + r);
        } else {
            let d3 = d.push(wc);
            assert(find_entry(d, seq![c]) >= 0) by {
                assert(r[0] == c);
            }
            lemma_find_entry_push(d, wc, seq![c]);
            assert forall|t: int| 0 <= t < r2.len() implies find_entry(d3, seq![#[trigger] r2[t]]) >= 0 by {
                assert(find_entry(d, seq![r2[t]]) >= 0);
                lemma_find_entry_push(d, wc, seq![r2[t]]);
            }
            assert(seq![c][0] == c);
            assert(d3 == d.push(w.push(seq![c][0])));
            lemma_decode_run(d3, d, w, seq![c], r2);
            let run = lzw_run(d, w, r);
            let tail = lzw_run(d3, seq![c], r2);
            assert(run == seq![k as nat] + tail);
            assert(run[0] == k as nat);
            assert(run.drop_first() =~= tail);
            assert(w + (seq![c] + r2) =~= w + r);
            assert forall|t: int| 0 <= t < run.len() implies #[trigger] run[t] < d.len() + r.len() by {
                if t > 0 {
                    assert(run[t] == tail[t - 1]);
                }
            }
        }
    }
}

proof fn lemma_seed_dict_has(chars: Seq<u8>, c: u8)
    requires
        chars.contains(c),
    ensures
        find_entry(seed_dict(chars), seq![c]) >= 0,
{
    let j = choose|j: int| 0 <= j < chars.len() && chars[j] == c;
    assert(seed_dict(chars)[j] == seq![c]);
    lemma_find_entry_found(seed_dict(chars), seq![c]);
}

/// Decoding the LZW frame of `x` gives `x` back.
pub proof fn lemma_lzw_round_trip(x: Seq<u8>)
    requires
        x.len() <= usize::MAX / 512,
    ensures
        lzw_frame_decode_spec(lzw_frame(x)) == Some(x),
{
    let chars = seed(x);
    let d = seed_dict(chars);
    let idx = lzw_indices(x);
    lemma_seed_upto(x, x.len() as int);
    if x.len() > 0 {
        assert forall|t: int| 0 <= t < x.drop_first().len() implies find_entry(d, seq![#[trigger] x.drop_first()[t]]) >= 0 by {
            assert(x.drop_first()[t] == x[t + 1]);
            assert(chars.contains(x[t + 1]));
            lemma_seed_dict_has(chars, x[t + 1]);
        }
        lemma_seed_dict_has(chars, x[0]);
        lemma_decode_run(d, d, Seq::empty(), seq![x[0]], x.drop_first());
        assert(seq![x[0]] + x.drop_first() =~= x);
        assert forall|i: int| 0 <= i < idx.len() implies idx[i] <= usize::MAX by {
            assert(idx[i] < d.len() + x.drop_first().len());
        }
    } else {
        assert(idx =~= Seq::<nat>::empty());
    }
    lemma_varsize_stream_round_trip(idx);
    let f = lzw_frame(x);
    let stream = varsize_stream_of(idx);
    let v = varsize_of(chars.len());
    assert(f =~= v + (chars + stream));
    lemma_varsize_round_trip(chars.len(), chars + stream);
    assert(f.subrange(v.len() as int, (v.len() + chars.len()) as int) =~= chars);
    assert(f.subrange((v.len() + chars.len()) as int, f.len() as int) =~= stream);
}

} // verus!
