//! Burrows-Wheeler transform: the last column of the sorted rotations and
//! the row of the input, inverted through the LF mapping.
use vstd::prelude::*;

use crate::varsize::{decode_varsize_at, lemma_parse_consumes, parse_varsize, push_varsize, varsize_of};
use crate::{extend_bytes, slice_between, CodecError};
use vstd::arithmetic::div_mod::lemma_small_mod;

verus! {

broadcast use vstd::seq_lib::group_to_multiset_ensures, vstd::seq_lib::lemma_multiset_commutative, vstd::multiset::group_multiset_axioms;

/// The rotation of `x` that starts at `i`.
pub open spec fn rotation(x: Seq<u8>, i: int) -> Seq<u8> {
    Seq::new(x.len(), |t: int| x[(i + t) % (x.len() as int)])
}

/// Lexicographic order on byte strings.
pub open spec fn lex_le(a: Seq<u8>, b: Seq<u8>) -> bool
    decreases a.len(),
{
    if a.len() == 0 || b.len() == 0 {
        a.len() <= b.len()
    } else if a[0] != b[0] {
        a[0] < b[0]
    } else {
        lex_le(a.drop_first(), b.drop_first())
    }
}

pub open spec fn indices(n: nat) -> Seq<usize> {
    Seq::new(n, |i: int| i as usize)
}

/// `p` lists the rotations of `x` in lexicographic order.
pub open spec fn sorts_rotations(x: Seq<u8>, p: Seq<usize>) -> bool {
    &&& p.len() == x.len()
    &&& p.to_multiset() == indices(x.len()).to_multiset()
    &&& forall|k: int| 0 <= k < p.len() - 1 ==> lex_le(rotation(x, #[trigger] p[k] as int), rotation(x, p[k + 1] as int))
}

/// `(r, l)` is the transform of `x` for the rotation order `p`: `l` is the
/// last column, `r` the first row that equals `x`.
pub open spec fn bwt_of_order(x: Seq<u8>, p: Seq<usize>, r: nat, l: Seq<u8>) -> bool {
    let n = x.len() as int;
    &&& l == Seq::new(x.len(), |k: int| x[(p[k] + n - 1) % n])
    &&& if n == 0 {
        r == 0
    } else {
        &&& r < n
        &&& rotation(x, p[r as int] as int) == x
        &&& forall|k: int| 0 <= k < r ==> rotation(x, #[trigger] p[k] as int) != x
    }
}

/// `(r, l)` is the Burrows-Wheeler transform of `x`.
pub open spec fn is_bwt(x: Seq<u8>, r: nat, l: Seq<u8>) -> bool {
    exists|p: Seq<usize>| sorts_rotations(x, p) && bwt_of_order(x, p, r, l)
}

proof fn lemma_lex_total(a: Seq<u8>, b: Seq<u8>)
    ensures
        lex_le(a, b) || lex_le(b, a),
    decreases a.len(),
{
    if a.len() > 0 && b.len() > 0 && a[0] == b[0] {
        lemma_lex_total(a.drop_first(), b.drop_first());
    }
}

proof fn lemma_lex_trans(a: Seq<u8>, b: Seq<u8>, c: Seq<u8>)
    requires
        lex_le(a, b),
        lex_le(b, c),
    ensures
        lex_le(a, c),
    decreases a.len(),
{
    if a.len() > 0 && b.len() > 0 && c.len() > 0 && a[0] == b[0] && b[0] == c[0] {
        lemma_lex_trans(a.drop_first(), b.drop_first(), c.drop_first());
    }
}

/// Whether the rotation at `i` is lexicographically at most the one at `j`.
fn rot_le(x: &[u8], i: usize, j: usize) -> (r: bool)
    requires
        i < x@.len(),
        j < x@.len(),
    ensures
        r == lex_le(rotation(x@, i as int), rotation(x@, j as int)),
{
    let n = x.len();
    let ghost a = rotation(x@, i as int);
    let ghost b = rotation(x@, j as int);
    let mut t: usize = 0;
    let mut ai: usize = i;
    let mut bi: usize = j;
    assert(a.subrange(0, n as int) =~= a);
    assert(b.subrange(0, n as int) =~= b);
    proof {
        lemma_small_mod(i as nat, n as nat);
        lemma_small_mod(j as nat, n as nat);
    }
    while t < n
        invariant
            n == x@.len(),
            t <= n,
            ai < n,
            bi < n,
            ai as int == (i + t) % (n as int),
            bi as int == (j + t) % (n as int),
            a == rotation(x@, i as int),
            b == rotation(x@, j as int),
            lex_le(a, b) == lex_le(a.subrange(t as int, n as int), b.subrange(t as int, n as int)),
        decreases n - t,
    {
        let ghost sa = a.subrange(t as int, n as int);
        let ghost sb = b.subrange(t as int, n as int);
        assert(sa[0] == x@[ai as int]);
        assert(sb[0] == x@[bi as int]);
        if x[ai] != x[bi] {
            return x[ai] < x[bi];
        }
        assert(sa.drop_first() =~= a.subrange(t + 1, n as int));
        assert(sb.drop_first() =~= b.subrange(t + 1, n as int));
        ai = if ai + 1 == n { 0 } else { ai + 1 };
        bi = if bi + 1 == n { 0 } else { bi + 1 };
        proof {
            assert(ai as int == (i + t + 1) % (n as int)) by (nonlinear_arith)
                requires
                    ai as int == (if (i + t) % (n as int) + 1 == n { 0 } else { (i + t) % (n as int) + 1 }),
                    n > 0,
            ;
            assert(bi as int == (j + t + 1) % (n as int)) by (nonlinear_arith)
                requires
                    bi as int == (if (j + t) % (n as int) + 1 == n { 0 } else { (j + t) % (n as int) + 1 }),
                    n > 0,
            ;
        }
        t += 1;
    }
    assert(a.subrange(t as int, n as int).len() == 0);
    true
}

spec fn sorted_by(x: Seq<u8>, p: Seq<usize>) -> bool {
    forall|k: int| 0 <= k < p.len() - 1 ==> lex_le(rotation(x, #[trigger] p[k] as int), rotation(x, p[k + 1] as int))
}

fn merge(x: &[u8], a: Vec<usize>, b: Vec<usize>) -> (r: Vec<usize>)
    requires
        forall|k: int| 0 <= k < a@.len() ==> a@[k] < x@.len(),
        forall|k: int| 0 <= k < b@.len() ==> b@[k] < x@.len(),
        sorted_by(x@, a@),
        sorted_by(x@, b@),
    ensures
        r@.to_multiset() == a@.to_multiset().add(b@.to_multiset()),
        sorted_by(x@, r@),
        forall|k: int| 0 <= k < r@.len() ==> r@[k] < x@.len(),
        r@.len() == a@.len() + b@.len(),
{
    let mut out: Vec<usize> = Vec::new();
    let mut i: usize = 0;
    let mut j: usize = 0;
    while i < a.len() || j < b.len()
        invariant
            i <= a@.len(),
            j <= b@.len(),
            forall|k: int| 0 <= k < a@.len() ==> a@[k] < x@.len(),
            forall|k: int| 0 <= k < b@.len() ==> b@[k] < x@.len(),
            forall|k: int| 0 <= k < out@.len() ==> out@[k] < x@.len(),
            sorted_by(x@, a@),
            sorted_by(x@, b@),
            sorted_by(x@, out@),
            out@.len() == i + j,
            out@.to_multiset() == a@.subrange(0, i as int).to_multiset().add(b@.subrange(0, j as int).to_multiset()),
            out@.len() > 0 && i < a@.len() ==> lex_le(rotation(x@, out@.last() as int), rotation(x@, a@[i as int] as int)),
            out@.len() > 0 && j < b@.len() ==> lex_le(rotation(x@, out@.last() as int), rotation(x@, b@[j as int] as int)),
        decreases a@.len() + b@.len() - i - j,
    {
        let take_a = if i < a.len() && j < b.len() {
            rot_le(x, a[i], b[j])
        } else {
            i < a.len()
        };
        let ghost prev = out@;
        if take_a {
            let e = a[i];
            out.push(e);
            proof {
                assert(a@.subrange(0, i + 1) =~= a@.subrange(0, i as int).push(e));
                if j < b@.len() && i < a@.len() {
                    lemma_lex_total(rotation(x@, e as int), rotation(x@, b@[j as int] as int));
                }
                if i + 1 < a@.len() {
                    assert(lex_le(rotation(x@, a@[i as int] as int), rotation(x@, a@[i + 1] as int)));
                }
            }
            i += 1;
        } else {
            let e = b[j];
            out.push(e);
            proof {
                assert(b@.subrange(0, j + 1) =~= b@.subrange(0, j as int).push(e));
                if i < a@.len() {
                    lemma_lex_total(rotation(x@, a@[i as int] as int), rotation(x@, e as int));
                }
                if j + 1 < b@.len() {
                    assert(lex_le(rotation(x@, b@[j as int] as int), rotation(x@, b@[j + 1] as int)));
                }
            }
            j += 1;
        }
        proof {
            assert forall|k: int| 0 <= k < out@.len() - 1 implies lex_le(
                rotation(x@, #[trigger] out@[k] as int),
                rotation(x@, out@[k + 1] as int),
            ) by {
                if k < prev.len() - 1 {
                    assert(out@[k] == prev[k] && out@[k + 1] == prev[k + 1]);
                } else {
                    assert(out@[k] == prev.last());
                }
            }
        }
    }
    assert(a@.subrange(0, i as int) =~= a@);
    assert(b@.subrange(0, j as int) =~= b@);
    out
}

fn merge_sort(x: &[u8], v: Vec<usize>) -> (r: Vec<usize>)
    requires
        forall|k: int| 0 <= k < v@.len() ==> v@[k] < x@.len(),
    ensures
        r@.to_multiset() == v@.to_multiset(),
        sorted_by(x@, r@),
        forall|k: int| 0 <= k < r@.len() ==> r@[k] < x@.len(),
        r@.len() == v@.len(),
    decreases v@.len(),
{
    if v.len() <= 1 {
        return v;
    }
    let mid = v.len() / 2;
    let mut left: Vec<usize> = Vec::new();
    let mut right: Vec<usize> = Vec::new();
    let mut k: usize = 0;
    while k < v.len()
        invariant
            k <= v@.len(),
            mid < v@.len(),
            k <= mid ==> left@ == v@.subrange(0, k as int) && right@.len() == 0,
            k > mid ==> left@ == v@.subrange(0, mid as int) && right@ == v@.subrange(mid as int, k as int),
        decreases v@.len() - k,
    {
        if k < mid {
            left.push(v[k]);
            assert(left@ =~= v@.subrange(0, k + 1));
        } else {
            right.push(v[k]);
            assert(right@ =~= v@.subrange(mid as int, k + 1));
        }
        k += 1;
    }
    proof {
        assert(v@ =~= v@.subrange(0, mid as int) + v@.subrange(mid as int, v@.len() as int));
    }
    let sl = merge_sort(x, left);
    let sr = merge_sort(x, right);
    merge(x, sl, sr)
}

/// Sorts the rotations of `input`: the row of the input and the last column.
pub fn encode(input: &[u8]) -> (r: (usize, Vec<u8>))
    ensures
        is_bwt(input@, r.0 as nat, r.1@),
{
    let n = input.len();
    let mut order: Vec<usize> = Vec::new();
    let mut i: usize = 0;
    while i < n
        invariant
            i <= n == input@.len(),
            order@ == indices(i as nat),
        decreases n - i,
    {
        order.push(i);
        i += 1;
        assert(order@ =~= indices(i as nat));
    }
    let p = merge_sort(input, order);
    let mut last: Vec<u8> = Vec::new();
    let mut k: usize = 0;
    while k < n
        invariant
            k <= n == input@.len(),
            p@.len() == n,
            forall|t: int| 0 <= t < p@.len() ==> p@[t] < n,
            last@ == Seq::new(k as nat, |t: int| input@[(p@[t] + n - 1) % (n as int)]),
        decreases n - k,
    {
        let s = p[k];
        let c = if s == 0 { input[n - 1] } else { input[s - 1] };
        proof {
            assert(((s + n - 1) as int) % (n as int) == if s == 0 { n - 1 } else { s - 1 }) by (nonlinear_arith)
                requires
                    s < n,
            ;
        }
        last.push(c);
        k += 1;
        assert(last@ =~= Seq::new(k as nat, |t: int| input@[(p@[t] + n - 1) % (n as int)]));
    }
    let mut row: usize = 0;
    if n > 0 {
        proof {
            lemma_zero_listed(p@, n as nat);
        }
        row = first_row(input, &p);
    }
    proof {
        assert(sorts_rotations(input@, p@));
        assert(bwt_of_order(input@, p@, row as nat, last@));
    }
    (row, last)
}

proof fn lemma_zero_listed(p: Seq<usize>, n: nat)
    requires
        n > 0,
        p.to_multiset() == indices(n).to_multiset(),
    ensures
        exists|z: int| 0 <= z < p.len() && p[z] == 0usize,
{
    assert(indices(n)[0] == 0usize);
    assert(indices(n).to_multiset().count(0usize) > 0);
    assert(p.to_multiset().count(0usize) > 0);
    assert(p.contains(0usize));
}

/// The first position of `p` whose rotation equals the input.
fn first_row(input: &[u8], p: &Vec<usize>) -> (row: usize)
    requires
        p@.len() == input@.len(),
        forall|t: int| 0 <= t < p@.len() ==> p@[t] < input@.len(),
        exists|z: int| 0 <= z < p@.len() && p@[z] == 0usize,
    ensures
        row < p@.len(),
        rotation(input@, p@[row as int] as int) == input@,
        forall|t: int| 0 <= t < row ==> rotation(input@, #[trigger] p@[t] as int) != input@,
{
    let n = input.len();
    let ghost z = choose|z: int| 0 <= z < p@.len() && p@[z] == 0usize;
    proof {
        assert forall|t: int| 0 <= t < n implies #[trigger] rotation(input@, 0)[t] == input@[t] by {
            lemma_small_mod(t as nat, n as nat);
        }
        assert(rotation(input@, 0) =~= input@);
    }
    let mut row: usize = 0;
    while !rotation_is_input(input, p[row])
        invariant
            row <= z < n == input@.len() == p@.len(),
            p@[z] == 0usize,
            rotation(input@, 0) == input@,
            forall|t: int| 0 <= t < p@.len() ==> p@[t] < n,
            forall|t: int| 0 <= t < row ==> rotation(input@, #[trigger] p@[t] as int) != input@,
        decreases z - row,
    {
        row += 1;
    }
    row
}

fn rotation_is_input(x: &[u8], s: usize) -> (r: bool)
    requires
        s < x@.len(),
    ensures
        r == (rotation(x@, s as int) == x@),
{
    let n = x.len();
    let mut t: usize = 0;
    let mut si: usize = s;
    proof {
        lemma_small_mod(s as nat, n as nat);
    }
    while t < n
        invariant
            n == x@.len(),
            t <= n,
            si < n,
            si as int == (s + t) % (n as int),
            forall|u: int| 0 <= u < t ==> rotation(x@, s as int)[u] == x@[u],
        decreases n - t,
    {
        if x[si] != x[t] {
            proof {
                assert(rotation(x@, s as int)[t as int] != x@[t as int]);
            }
            return false;
        }
        si = if si + 1 == n { 0 } else { si + 1 };
        proof {
            assert(si as int == (s + t + 1) % (n as int)) by (nonlinear_arith)
                requires
                    si as int == (if (s + t) % (n as int) + 1 == n { 0 } else { (s + t) % (n as int) + 1 }),
                    n > 0,
            ;
        }
        t += 1;
    }
    assert(rotation(x@, s as int) =~= x@);
    true
}

/// Number of entries of `l` below `c`.
pub open spec fn count_below(l: Seq<u8>, c: u8) -> nat
    decreases l.len(),
{
    if l.len() == 0 {
        0
    } else {
        count_below(l.drop_last(), c) + if l.last() < c {
            1nat
        } else {
            0nat
        }
    }
}

/// Number of entries of `l` equal to `c`.
pub open spec fn count_of(l: Seq<u8>, c: u8) -> nat
    decreases l.len(),
{
    if l.len() == 0 {
        0
    } else {
        count_of(l.drop_last(), c) + if l.last() == c {
            1nat
        } else {
            0nat
        }
    }
}

/// The LF mapping: the row of the first column that holds the occurrence of
/// `l[j]` found at row `j` of the last column.
pub open spec fn lf(l: Seq<u8>, j: int) -> int {
    (count_below(l, l[j]) + count_of(l.subrange(0, j), l[j])) as int
}

/// The `m` bytes that end at row `j`, read backwards through the LF mapping.
pub open spec fn lf_walk(l: Seq<u8>, j: int, m: nat) -> Seq<u8>
    decreases m,
{
    if m == 0 {
        Seq::empty()
    } else {
        lf_walk(l, lf(l, j), (m - 1) as nat).push(l[j])
    }
}

/// What inverting the transform `(r, l)` gives; `None` for a row outside
/// the block.
pub open spec fn bwt_decode_spec(r: nat, l: Seq<u8>) -> Option<Seq<u8>> {
    if l.len() == 0 {
        if r == 0 {
            Some(Seq::empty())
        } else {
            None
        }
    } else if r < l.len() {
        Some(lf_walk(l, r as int, l.len()))
    } else {
        None
    }
}

proof fn lemma_counts_split(l: Seq<u8>, c: u8)
    ensures
        count_below(l, (c + 1) as u8) == count_below(l, c) + count_of(l, c) || c == 255,
        count_below(l, c) + count_of(l, c) <= l.len(),
    decreases l.len(),
{
    if l.len() > 0 {
        lemma_counts_split(l.drop_last(), c);
    }
}

proof fn lemma_count_below_zero(l: Seq<u8>)
    ensures
        count_below(l, 0u8) == 0,
    decreases l.len(),
{
    if l.len() > 0 {
        lemma_count_below_zero(l.drop_last());
    }
}

proof fn lemma_count_prefix(l: Seq<u8>, j: int, c: u8)
    requires
        0 <= j < l.len(),
        l[j] == c,
    ensures
        count_of(l.subrange(0, j), c) < count_of(l, c),
    decreases l.len(),
{
    if j < l.len() - 1 {
        lemma_count_prefix(l.drop_last(), j, c);
        assert(l.drop_last().subrange(0, j) =~= l.subrange(0, j));
    } else {
        assert(l.drop_last() =~= l.subrange(0, j));
    }
}

proof fn lemma_lf_bound(l: Seq<u8>, j: int)
    requires
        0 <= j < l.len(),
    ensures
        0 <= lf(l, j) < l.len(),
{
    lemma_counts_split(l, l[j]);
    lemma_count_prefix(l, j, l[j]);
}

/// Inverts the transform: `input` is the last column, `index` the row of
/// the untransformed block.
pub fn decode(index: usize, input: &[u8]) -> (r: Result<Vec<u8>, CodecError>)
    ensures
        match r {
            Ok(v) => bwt_decode_spec(index as nat, input@) == Some(v@),
            Err(e) => e == CodecError::InvalidPrimaryIndex && bwt_decode_spec(index as nat, input@) is None,
        },
{
    let n = input.len();
    if n == 0 {
        if index == 0 {
            return Ok(Vec::new());
        }
        return Err(CodecError::InvalidPrimaryIndex);
    }
    if index >= n {
        return Err(CodecError::InvalidPrimaryIndex);
    }
    let ghost l = input@;
    // occurrences of each byte
    let mut counts: Vec<usize> = Vec::new();
    let mut c: usize = 0;
    while c < 256
        invariant
            c <= 256,
            counts@.len() == c,
            forall|d: int| 0 <= d < c ==> counts@[d] == 0,
        decreases 256 - c,
    {
        counts.push(0);
        c += 1;
    }
    let mut i: usize = 0;
    while i < n
        invariant
            n == l.len(),
            l == input@,
            i <= n,
            counts@.len() == 256,
            forall|d: int| 0 <= d < 256 ==> #[trigger] counts@[d] as nat == count_of(l.subrange(0, i as int), d as u8),
        decreases n - i,
    {
        let b = input[i] as usize;
        proof {
            assert(l.subrange(0, i + 1).drop_last() =~= l.subrange(0, i as int));
            lemma_counts_split(l.subrange(0, i as int), b as u8);
        }
        counts.set(b, counts[b] + 1);
        i += 1;
    }
    assert(l.subrange(0, n as int) =~= l);
    proof {
        lemma_count_below_zero(l);
    }
    // first row of each byte in the first column
    let mut starts: Vec<usize> = Vec::new();
    let mut total: usize = 0;
    let mut c: usize = 0;
    while c < 256
        invariant
            n == l.len(),
            l == input@,
            c <= 256,
            counts@.len() == 256,
            starts@.len() == c,
            forall|d: int| 0 <= d < 256 ==> #[trigger] counts@[d] as nat == count_of(l, d as u8),
            total as nat == count_below(l, c as u8) || c == 256,
            c < 256 ==> total as nat == count_below(l, c as u8),
            total <= n,
            forall|d: int| 0 <= d < c ==> #[trigger] starts@[d] as nat == count_below(l, d as u8),
        decreases 256 - c,
    {
        starts.push(total);
        proof {
            lemma_counts_split(l, c as u8);
        }
        total = total + counts[c];
        c += 1;
    }
    // the LF mapping, row by row
    let mut seen: Vec<usize> = Vec::new();
    let mut c: usize = 0;
    while c < 256
        invariant
            c <= 256,
            seen@.len() == c,
            forall|d: int| 0 <= d < c ==> seen@[d] == 0,
        decreases 256 - c,
    {
        seen.push(0);
        c += 1;
    }
    let mut lfs: Vec<usize> = Vec::new();
    let mut j: usize = 0;
    while j < n
        invariant
            n == l.len(),
            l == input@,
            j <= n,
            seen@.len() == 256,
            starts@.len() == 256,
            forall|d: int| 0 <= d < 256 ==> #[trigger] starts@[d] as nat == count_below(l, d as u8),
            forall|d: int| 0 <= d < 256 ==> #[trigger] seen@[d] as nat == count_of(l.subrange(0, j as int), d as u8),
            lfs@.len() == j,
            forall|t: int| 0 <= t < j ==> #[trigger] lfs@[t] as int == lf(l, t) && lfs@[t] < n,
        decreases n - j,
    {
        let b = input[j] as usize;
        proof {
            lemma_lf_bound(l, j as int);
            assert(l.subrange(0, j + 1).drop_last() =~= l.subrange(0, j as int));
            lemma_counts_split(l.subrange(0, j as int), b as u8);
        }
        lfs.push(starts[b] + seen[b]);
        seen.set(b, seen[b] + 1);
        j += 1;
    }
    // walk backwards from the row of the block itself
    let mut decoded: Vec<u8> = Vec::new();
    let mut t: usize = 0;
    while t < n
        invariant
            t <= n,
            decoded@.len() == t,
        decreases n - t,
    {
        decoded.push(0);
        t += 1;
    }
    let mut row: usize = index;
    let mut s: usize = 0;
    assert(decoded@.subrange(n as int, n as int) =~= Seq::<u8>::empty());
    assert(lf_walk(l, index as int, n as nat) =~= lf_walk(l, index as int, n as nat) + Seq::<u8>::empty());
    while s < n
        invariant
            n == l.len(),
            l == input@,
            s <= n,
            row < n,
            decoded@.len() == n,
            lfs@.len() == n,
            forall|u: int| 0 <= u < n ==> #[trigger] lfs@[u] as int == lf(l, u) && lfs@[u] < n,
            lf_walk(l, index as int, n as nat) == lf_walk(l, row as int, (n - s) as nat) + decoded@.subrange(
                (n - s) as int,
                n as int,
            ),
        decreases n - s,
    {
        let pos = n - 1 - s;
        let ghost before = decoded@;
        decoded.set(pos, input[row]);
        proof {
            assert(decoded@.subrange(pos as int, n as int) =~= seq![l[row as int]] + before.subrange(pos + 1, n as int));
            assert(lf_walk(l, row as int, (n - s) as nat) == lf_walk(l, lf(l, row as int), (n - s - 1) as nat).push(l[row as int]));
            assert(lf_walk(l, lf(l, row as int), (n - s - 1) as nat).push(l[row as int]) + before.subrange(pos + 1, n as int)
                =~= lf_walk(l, lf(l, row as int), (n - s - 1) as nat) + (seq![l[row as int]] + before.subrange(pos + 1, n as int)));
        }
        row = lfs[row];
        s += 1;
    }
    proof {
        assert(lf_walk(l, row as int, 0) =~= Seq::<u8>::empty());
        assert(decoded@.subrange(0, n as int) =~= decoded@);
        assert(Seq::<u8>::empty() + decoded@ =~= decoded@);
    }
    Ok(decoded)
}

/// The BWT frame of `x` is the varsize row index followed by the last column.
pub open spec fn is_bwt_frame(x: Seq<u8>, f: Seq<u8>) -> bool {
    exists|r: nat, l: Seq<u8>| is_bwt(x, r, l) && f == varsize_of(r) + l
}

/// What decoding the BWT frame `s` gives; `None` for a malformed frame.
pub open spec fn bwt_frame_decode_spec(s: Seq<u8>) -> Option<Seq<u8>> {
    match parse_varsize(s) {
        Some((r, k)) => bwt_decode_spec(r, s.subrange(k as int, s.len() as int)),
        None => None,
    }
}

/// The BWT frame of `input`.
pub fn encode_with_metadata(input: &[u8]) -> (r: Vec<u8>)
    ensures
        is_bwt_frame(input@, r@),
{
    let (row_index, encoded_input) = encode(input);
    let mut encoded: Vec<u8> = Vec::new();
    push_varsize(&mut encoded, row_index);
    extend_bytes(&mut encoded, encoded_input.as_slice());
    assert(encoded@ =~= varsize_of(row_index as nat) + encoded_input@);
    encoded
}

/// Decodes a BWT frame.
pub fn decode_with_metadata(input: &[u8]) -> (r: Result<Vec<u8>, CodecError>)
    ensures
        match r {
            Ok(v) => bwt_frame_decode_spec(input@) == Some(v@),
            Err(_) => bwt_frame_decode_spec(input@) is None,
        },
{
    proof {
        assert(input@.subrange(0, input@.len() as int) =~= input@);
        lemma_parse_consumes(input@);
    }
    let (index, k) = match decode_varsize_at(input, 0) {
        Ok(p) => p,
        Err(e) => {
            return Err(e);
        },
    };
    let rest = slice_between(input, k, input.len());
    decode(index, rest.as_slice())
}

pub open spec fn lex_lt(a: Seq<u8>, b: Seq<u8>) -> bool {
    lex_le(a, b) && a != b
}

/// Number of entries of `s` below `q`.
pub open spec fn count_lt(s: Seq<Seq<u8>>, q: Seq<u8>) -> nat
    decreases s.len(),
{
    if s.len() == 0 {
        0
    } else {
        count_lt(s.drop_last(), q) + if lex_lt(s.last(), q) {
            1nat
        } else {
            0nat
        }
    }
}

/// Number of entries of `s` at most `q`.
pub open spec fn count_le(s: Seq<Seq<u8>>, q: Seq<u8>) -> nat
    decreases s.len(),
{
    if s.len() == 0 {
        0
    } else {
        count_le(s.drop_last(), q) + if lex_le(s.last(), q) {
            1nat
        } else {
            0nat
        }
    }
}

proof fn lemma_lex_antisym(a: Seq<u8>, b: Seq<u8>)
    requires
        a.len() == b.len(),
        lex_le(a, b),
        lex_le(b, a),
    ensures
        a == b,
    decreases a.len(),
{
    if a.len() > 0 {
        lemma_lex_antisym(a.drop_first(), b.drop_first());
        assert(a =~= seq![a[0]] + a.drop_first());
        assert(b =~= seq![b[0]] + b.drop_first());
    } else {
        assert(a =~= b);
    }
}

proof fn lemma_count_remove(s: Seq<Seq<u8>>, i: int, q: Seq<u8>)
    requires
        0 <= i < s.len(),
    ensures
        count_lt(s, q) == count_lt(s.remove(i), q) + if lex_lt(s[i], q) { 1nat } else { 0nat },
        count_le(s, q) == count_le(s.remove(i), q) + if lex_le(s[i], q) { 1nat } else { 0nat },
    decreases s.len(),
{
    if i < s.len() - 1 {
        lemma_count_remove(s.drop_last(), i, q);
        assert(s.remove(i).drop_last() =~= s.drop_last().remove(i));
        assert(s.remove(i).last() == s.last());
    } else {
        assert(s.remove(i) =~= s.drop_last());
    }
}

proof fn lemma_count_perm(s1: Seq<Seq<u8>>, s2: Seq<Seq<u8>>, q: Seq<u8>)
    requires
        s1.to_multiset() == s2.to_multiset(),
    ensures
        count_lt(s1, q) == count_lt(s2, q),
        count_le(s1, q) == count_le(s2, q),
    decreases s1.len(),
{
    if s1.len() == 0 {
        assert(s2.len() == s2.to_multiset().len());
        assert(s2 =~= Seq::<Seq<u8>>::empty());
    } else {
        let e = s1.last();
        assert(s1.drop_last().push(e) =~= s1);
        assert(s1.to_multiset() == s1.drop_last().to_multiset().insert(e));
        assert(s2.to_multiset().count(e) > 0);
        assert(s2.contains(e));
        let i = choose|i: int| 0 <= i < s2.len() && s2[i] == e;
        assert(s2.remove(i).to_multiset() == s2.to_multiset().remove(e));
        assert(s1.drop_last().to_multiset() =~= s1.to_multiset().remove(e));
        lemma_count_perm(s1.drop_last(), s2.remove(i), q);
        lemma_count_remove(s2, i, q);
    }
}

/// The rotations of `x` starting `d` after each position listed in `s`.
pub open spec fn rows_from(x: Seq<u8>, s: Seq<usize>, d: int) -> Seq<Seq<u8>> {
    Seq::new(s.len(), |k: int| rotation(x, s[k] + d))
}

proof fn lemma_rows_perm(x: Seq<u8>, s1: Seq<usize>, s2: Seq<usize>, d: int)
    requires
        s1.to_multiset() == s2.to_multiset(),
    ensures
        rows_from(x, s1, d).to_multiset() == rows_from(x, s2, d).to_multiset(),
    decreases s1.len(),
{
    if s1.len() == 0 {
        assert(s2.len() == s2.to_multiset().len());
        assert(rows_from(x, s1, d) =~= rows_from(x, s2, d));
    } else {
        let e = s1.last();
        assert(s1.drop_last().push(e) =~= s1);
        assert(s1.to_multiset() == s1.drop_last().to_multiset().insert(e));
        assert(s2.to_multiset().count(e) > 0);
        assert(s2.contains(e));
        let i = choose|i: int| 0 <= i < s2.len() && s2[i] == e;
        assert(s2.remove(i).to_multiset() == s2.to_multiset().remove(e));
        assert(s1.drop_last().to_multiset() =~= s1.to_multiset().remove(e));
        lemma_rows_perm(x, s1.drop_last(), s2.remove(i), d);
        let r1 = rows_from(x, s1, d);
        let r2 = rows_from(x, s2, d);
        let v = rotation(x, e + d);
        assert(r1 =~= rows_from(x, s1.drop_last(), d).push(v));
        assert(rows_from(x, s2.remove(i), d) =~= r2.remove(i));
        assert(r2[i] == v);
        assert(r2.remove(i).to_multiset() == r2.to_multiset().remove(v));
        assert(r2.to_multiset().count(v) > 0) by {
            assert(r2.contains(v));
        }
        assert(r2.to_multiset() =~= r2.to_multiset().remove(v).insert(v));
    }
}

proof fn lemma_rotation_mod(x: Seq<u8>, i: int)
    requires
        x.len() > 0,
    ensures
        rotation(x, i + x.len()) == rotation(x, i),
{
    let n = x.len() as int;
    assert forall|t: int| 0 <= t < n implies #[trigger] rotation(x, i + n)[t] == rotation(x, i)[t] by {
        vstd::arithmetic::div_mod::lemma_mod_add_multiples_vanish(i + t, n);
        assert(i + n + t == n + (i + t));
    }
    assert(rotation(x, i + n) =~= rotation(x, i));
}

/// Every rotation appears as often among the rows as among the rows moved
/// back by one position.
proof fn lemma_shifted_rows_perm(x: Seq<u8>, p: Seq<usize>)
    requires
        0 < x.len() <= usize::MAX,
        p.to_multiset() == indices(x.len()).to_multiset(),
    ensures
        rows_from(x, p, 0).to_multiset() == rows_from(x, p, x.len() - 1).to_multiset(),
{
    let n = x.len() as int;
    lemma_rows_perm(x, p, indices(x.len()), 0);
    lemma_rows_perm(x, p, indices(x.len()), n - 1);
    let front = rows_from(x, indices((n - 1) as nat), 0);
    let last = rotation(x, n - 1);
    assert forall|k: int| 0 <= k < n implies #[trigger] indices(x.len())[k] as int == k by {}
    assert forall|k: int| 0 <= k < n - 1 implies #[trigger] indices((n - 1) as nat)[k] as int == k by {}
    assert(rows_from(x, indices(x.len()), 0) =~= front.push(last));
    assert forall|k: int| 1 <= k < n implies #[trigger] rows_from(x, indices(x.len()), n - 1)[k] == front[k - 1] by {
        lemma_rotation_mod(x, k - 1);
        assert(k - 1 + n == k + (n - 1));
        assert(indices(x.len())[k] as int == k);
        assert(indices((n - 1) as nat)[k - 1] as int == k - 1);
    }
    assert(rows_from(x, indices(x.len()), n - 1) =~= seq![last] + front);
    assert(front.push(last) =~= front + seq![last]);
    assert((front + seq![last]).to_multiset() =~= (seq![last] + front).to_multiset());
}

proof fn lemma_lex_refl(a: Seq<u8>)
    ensures
        lex_le(a, a),
    decreases a.len(),
{
    if a.len() > 0 {
        lemma_lex_refl(a.drop_first());
    }
}

proof fn lemma_lex_truncate(a: Seq<u8>, b: Seq<u8>, m: int)
    requires
        a.len() == b.len(),
        0 <= m <= a.len(),
        lex_le(a, b),
    ensures
        lex_le(a.subrange(0, m), b.subrange(0, m)),
    decreases a.len(),
{
    if m > 0 && a[0] == b[0] {
        lemma_lex_truncate(a.drop_first(), b.drop_first(), m - 1);
        assert(a.subrange(0, m).drop_first() =~= a.drop_first().subrange(0, m - 1));
        assert(b.subrange(0, m).drop_first() =~= b.drop_first().subrange(0, m - 1));
    }
}

proof fn lemma_sorted_pairwise(x: Seq<u8>, p: Seq<usize>, j: int, k: int)
    requires
        sorts_rotations(x, p),
        0 <= j <= k < p.len(),
    ensures
        lex_le(rotation(x, p[j] as int), rotation(x, p[k] as int)),
    decreases k - j,
{
    if j == k {
        lemma_lex_refl(rotation(x, p[j] as int));
    } else {
        lemma_sorted_pairwise(x, p, j, k - 1);
        assert(lex_le(rotation(x, p[k - 1] as int), rotation(x, p[k] as int)));
        lemma_lex_trans(rotation(x, p[j] as int), rotation(x, p[k - 1] as int), rotation(x, p[k] as int));
    }
}

/// The last column for the order `p`.
pub open spec fn last_column(x: Seq<u8>, p: Seq<usize>) -> Seq<u8> {
    Seq::new(x.len(), |k: int| x[(p[k] + x.len() - 1) % (x.len() as int)])
}

proof fn lemma_shifted_row(x: Seq<u8>, i: int)
    requires
        x.len() > 0,
        0 <= i,
    ensures
        rotation(x, i + x.len() - 1) == seq![x[(i + x.len() - 1) % (x.len() as int)]] + rotation(x, i).subrange(0, x.len() - 1),
{
    let n = x.len() as int;
    let q = rotation(x, i + n - 1);
    let w = seq![x[(i + n - 1) % n]] + rotation(x, i).subrange(0, n - 1);
    assert forall|t: int| 0 <= t < n implies #[trigger] q[t] == w[t] by {
        if t > 0 {
            vstd::arithmetic::div_mod::lemma_mod_add_multiples_vanish(i + t - 1, n);
            assert(i + n - 1 + t == n + (i + t - 1));
        }
    }
    assert(q =~= w);
}

proof fn lemma_count_lt_at_least(s: Seq<Seq<u8>>, q: Seq<u8>, m: int)
    requires
        0 <= m <= s.len(),
        forall|j: int| 0 <= j < m ==> lex_lt(#[trigger] s[j], q),
    ensures
        count_lt(s, q) >= m,
    decreases s.len(),
{
    if s.len() > 0 {
        if m == s.len() {
            lemma_count_lt_at_least(s.drop_last(), q, m - 1);
        } else {
            lemma_count_lt_at_least(s.drop_last(), q, m);
        }
    }
}

proof fn lemma_count_le_at_most(s: Seq<Seq<u8>>, q: Seq<u8>, m: int)
    requires
        0 <= m <= s.len(),
        forall|j: int| m <= j < s.len() ==> !lex_le(#[trigger] s[j], q),
    ensures
        count_le(s, q) <= m,
    decreases s.len(),
{
    if s.len() > m {
        lemma_count_le_at_most(s.drop_last(), q, m);
    } else if s.len() > 0 {
        lemma_count_le_at_most(s.drop_last(), q, m - 1);
    }
}

/// The rows shifted back by one, counted against the shifted row of `k`,
/// bound the LF mapping of `k`.
proof fn lemma_lf_counts(x: Seq<u8>, p: Seq<usize>, k: int, m: int)
    requires
        sorts_rotations(x, p),
        0 < x.len() <= usize::MAX,
        0 <= k < x.len(),
        0 <= m <= x.len(),
    ensures
        count_lt(rows_from(x, p, x.len() - 1).subrange(0, m), rows_from(x, p, x.len() - 1)[k])
            <= count_below(last_column(x, p).subrange(0, m), last_column(x, p)[k])
            + count_of(last_column(x, p).subrange(0, if m < k { m } else { k }), last_column(x, p)[k]),
        count_le(rows_from(x, p, x.len() - 1).subrange(0, m), rows_from(x, p, x.len() - 1)[k])
            >= count_below(last_column(x, p).subrange(0, m), last_column(x, p)[k])
            + count_of(last_column(x, p).subrange(0, if m < k + 1 { m } else { k + 1 }), last_column(x, p)[k]),
    decreases m,
{
    let n = x.len() as int;
    let qs = rows_from(x, p, n - 1);
    let l = last_column(x, p);
    let c = l[k];
    let qk = qs[k];
    if m == 0 {
        assert(qs.subrange(0, 0) =~= Seq::<Seq<u8>>::empty());
        assert(l.subrange(0, 0) =~= Seq::<u8>::empty());
    } else {
        lemma_lf_counts(x, p, k, m - 1);
        let j = m - 1;
        assert(qs.subrange(0, m).drop_last() =~= qs.subrange(0, j));
        assert(qs.subrange(0, m).last() == qs[j]);
        assert(l.subrange(0, m).drop_last() =~= l.subrange(0, j));
        assert(l.subrange(0, m).last() == l[j]);
        lemma_shifted_row(x, p[j] as int);
        lemma_shifted_row(x, p[k] as int);
        let rj = rotation(x, p[j] as int);
        let rk = rotation(x, p[k] as int);
        assert(qs[j] == seq![l[j]] + rj.subrange(0, n - 1));
        assert(qk == seq![c] + rk.subrange(0, n - 1));
        assert((seq![l[j]] + rj.subrange(0, n - 1)).drop_first() =~= rj.subrange(0, n - 1));
        assert((seq![c] + rk.subrange(0, n - 1)).drop_first() =~= rk.subrange(0, n - 1));
        if l[j] == c {
            if j <= k {
                lemma_sorted_pairwise(x, p, j, k);
                lemma_lex_truncate(rj, rk, n - 1);
                assert(lex_le(qs[j], qk));
            }
            if j >= k {
                lemma_sorted_pairwise(x, p, k, j);
                lemma_lex_truncate(rk, rj, n - 1);
                assert(lex_le(qk, qs[j]));
                if lex_lt(qs[j], qk) {
                    lemma_lex_antisym(qs[j], qk);
                }
            }
            if j < k {
                assert(l.subrange(0, m).drop_last() =~= l.subrange(0, j));
            }
            if m < k {
                assert(l.subrange(0, m).drop_last() == l.subrange(0, m - 1));
            }
            if m <= k {
                assert(l.subrange(0, m).drop_last() == l.subrange(0, m - 1));
            }
        } else if l[j] < c {
            assert(qs[j][0] == l[j]);
            assert(qk[0] == c);
            assert(lex_le(qs[j], qk));
            assert(qs[j] != qk);
        } else {
            assert(qs[j][0] == l[j]);
            assert(qk[0] == c);
            assert(!lex_le(qs[j], qk));
        }
    }
}

/// The LF mapping sends row `k` to a row holding the rotation of row `k`
/// moved back by one position.
proof fn lemma_lf_row(x: Seq<u8>, p: Seq<usize>, k: int)
    requires
        sorts_rotations(x, p),
        0 < x.len() <= usize::MAX,
        0 <= k < x.len(),
    ensures
        0 <= lf(last_column(x, p), k) < x.len(),
        rotation(x, p[lf(last_column(x, p), k)] as int) == rows_from(x, p, x.len() - 1)[k],
{
    let n = x.len() as int;
    let l = last_column(x, p);
    let c = l[k];
    let r = rows_from(x, p, 0);
    let q = rows_from(x, p, n - 1);
    let qk = q[k];
    let m = lf(l, k);
    lemma_lf_bound(l, k);
    lemma_lf_counts(x, p, k, n);
    assert(q.subrange(0, n) =~= q);
    assert(l.subrange(0, n) =~= l);
    assert(l.subrange(0, k + 1).drop_last() =~= l.subrange(0, k));
    assert(count_of(l.subrange(0, k + 1), c) == count_of(l.subrange(0, k), c) + 1);
    lemma_shifted_rows_perm(x, p);
    lemma_count_perm(r, q, qk);
    assert(count_lt(r, qk) <= m);
    assert(count_le(r, qk) >= m + 1);
    assert forall|j: int| 0 <= j < n implies #[trigger] r[j] == rotation(x, p[j] as int) by {
        assert(p[j] + 0 == p[j] as int);
    }
    let rm = r[m];
    if lex_lt(rm, qk) {
        assert forall|j: int| 0 <= j < m + 1 implies lex_lt(#[trigger] r[j], qk) by {
            lemma_sorted_pairwise(x, p, j, m);
            lemma_lex_trans(r[j], rm, qk);
            if r[j] == qk {
                lemma_lex_antisym(rm, qk);
            }
        }
        lemma_count_lt_at_least(r, qk, m + 1);
        assert(false);
    }
    if !lex_le(rm, qk) {
        assert forall|j: int| m <= j < n implies !lex_le(#[trigger] r[j], qk) by {
            lemma_sorted_pairwise(x, p, m, j);
            if lex_le(r[j], qk) {
                lemma_lex_trans(rm, r[j], qk);
            }
        }
        lemma_count_le_at_most(r, qk, m);
        assert(false);
    }
    assert(rm == qk);
}

/// The `t` bytes before position `s` are the `t - 1` bytes before `s - 1`
/// followed by the byte at `s - 1`.
#[verifier::spinoff_prover]
proof fn lemma_window_step(x: Seq<u8>, s: int, t: int)
    requires
        0 < x.len(),
        0 <= s < x.len(),
        1 <= t <= x.len(),
    ensures
        rotation(x, s + x.len() - t).subrange(0, t) == rotation(
            x,
            (if s == 0 { x.len() - 1 } else { s - 1 }) + x.len() - (t - 1),
        ).subrange(0, t - 1).push(x[(s + x.len() - 1) % (x.len() as int)]),
{
    let n = x.len() as int;
    let s2 = if s == 0 { n - 1 } else { s - 1 };
    let want = rotation(x, s + n - t).subrange(0, t);
    let got = rotation(x, s2 + n - (t - 1)).subrange(0, t - 1).push(x[(s + n - 1) % n]);
    assert forall|u: int| 0 <= u < t implies #[trigger] got[u] == want[u] by {
        if u < t - 1 {
            assert(want[u] == x[(s + n - t + u) % n]);
            assert(got[u] == x[(s2 + n - (t - 1) + u) % n]);
            if s == 0 {
                vstd::arithmetic::div_mod::lemma_mod_add_multiples_vanish(n - t + u, n);
                assert(s2 + n - (t - 1) + u == n + (n - t + u));
            } else {
                assert(s2 + n - (t - 1) + u == s + n - t + u);
            }
        } else {
            assert(want[u] == x[(s + n - t + u) % n]);
            assert(s + n - t + u == s + n - 1);
        }
    }
    assert(got =~= want);
}

/// Walking the LF mapping back `t` steps from a row that holds the rotation
/// at `s` reads the `t` bytes before position `s`.
#[verifier::spinoff_prover]
proof fn lemma_lf_walk(x: Seq<u8>, p: Seq<usize>, j: int, s: int, t: nat)
    requires
        sorts_rotations(x, p),
        0 < x.len() <= usize::MAX,
        0 <= j < x.len(),
        0 <= s < x.len(),
        t <= x.len(),
        rotation(x, p[j] as int) == rotation(x, s),
    ensures
        lf_walk(last_column(x, p), j, t) == rotation(x, s + x.len() - t).subrange(0, t as int),
    decreases t,
{
    let n = x.len() as int;
    let l = last_column(x, p);
    if t == 0 {
        assert(rotation(x, s + n).subrange(0, 0) =~= Seq::<u8>::empty());
    } else {
        lemma_lf_row(x, p, j);
        let j2 = lf(l, j);
        let s2 = if s == 0 { n - 1 } else { s - 1 };
        let e1 = x[(p[j] + n - 1) % n];
        let e2 = x[(s + n - 1) % n];
        assert(rotation(x, p[j] as int)[n - 1] == e1);
        assert(rotation(x, s)[n - 1] == e2);
        assert(e1 == e2);
        assert(l[j] == e1);
        lemma_shifted_row(x, p[j] as int);
        lemma_shifted_row(x, s);
        assert(rotation(x, p[j] + n - 1) == rotation(x, s + n - 1));
        if s > 0 {
            lemma_rotation_mod(x, s - 1);
            assert(s - 1 + n == s + n - 1);
        }
        assert(rotation(x, s + n - 1) == rotation(x, s2));
        assert(rows_from(x, p, n - 1)[j] == rotation(x, p[j] + n - 1));
        assert(rotation(x, p[j2] as int) == rotation(x, s2));
        lemma_lf_walk(x, p, j2, s2, (t - 1) as nat);
        lemma_window_step(x, s, t as int);
    }
}

/// Inverting the transform of a block gives the block back.
#[verifier::spinoff_prover]
pub proof fn lemma_bwt_round_trip(x: Seq<u8>, r: nat, l: Seq<u8>)
    requires
        x.len() <= usize::MAX,
        is_bwt(x, r, l),
    ensures
        bwt_decode_spec(r, l) == Some(x),
{
    let n = x.len() as int;
    let p = choose|p: Seq<usize>| sorts_rotations(x, p) && bwt_of_order(x, p, r, l);
    if n == 0 {
        assert(l.len() == 0);
        assert(x =~= Seq::<u8>::empty());
    } else {
        assert(l =~= last_column(x, p));
        assert forall|u: int| 0 <= u < n implies #[trigger] rotation(x, 0)[u] == x[u] by {
            lemma_small_mod(u as nat, n as nat);
        }
        assert(rotation(x, 0) =~= x);
        lemma_lf_walk(x, p, r as int, 0, n as nat);
        assert(rotation(x, 0 + n - n) == rotation(x, 0));
        assert(rotation(x, 0).subrange(0, n) =~= x);
    }
}

/// Decoding the BWT frame of a block gives the block back.
pub proof fn lemma_bwt_frame_round_trip(x: Seq<u8>, f: Seq<u8>)
    requires
        x.len() <= usize::MAX,
        is_bwt_frame(x, f),
    ensures
        bwt_frame_decode_spec(f) == Some(x),
{
    let (r, l) = choose|r: nat, l: Seq<u8>| is_bwt(x, r, l) && f == varsize_of(r) + l;
    lemma_bwt_round_trip(x, r, l);
    let p = choose|p: Seq<usize>| sorts_rotations(x, p) && bwt_of_order(x, p, r, l);
    assert(r <= usize::MAX);
    crate::varsize::lemma_varsize_round_trip(r, l);
    assert(f.subrange(varsize_of(r).len() as int, f.len() as int) =~= l);
}

} // verus!
