//! Arithmetic coding with a static model taken from the input, after
//! Witten, Neal and Cleary, at a precision of (input length) x (alphabet
//! size) bits.
use vstd::prelude::*;
use vstd::arithmetic::power2::{lemma_pow2_pos, pow2};

use crate::bignum::{binary_value, BigNum};
use crate::bits::{get_bit, packs, Bit, BitQueue, CompressedBuffer};
use crate::fenwick::{find_index_from, front_sum, lemma_front_sum, range_sum, FenwickTree};
use crate::huffman::{
    byte_freqs, count_bytes, freq_total, lemma_byte_freqs_has, lemma_byte_freqs_total, lemma_occurrences_pos,
    FrequencyChar,
};
use crate::mtf::position;
use crate::rle::{parse_runs, rle_frame, rle_parse, run_views};
use crate::varsize::{decode_varsize_at, lemma_parse_consumes, parse_varsize, push_varsize, varsize_of};
use crate::{extend_bytes, slice_between, CodecError};

verus! {

pub open spec fn top_value(nb: nat) -> nat {
    (pow2(nb) - 1) as nat
}

pub open spec fn first_quarter(nb: nat) -> nat {
    top_value(nb) / 4 + 1
}

pub open spec fn half_value(nb: nat) -> nat {
    2 * first_quarter(nb)
}

pub open spec fn third_quarter(nb: nat) -> nat {
    3 * first_quarter(nb)
}

pub open spec fn sat_sub(a: nat, b: nat) -> nat {
    if a >= b {
        (a - b) as nat
    } else {
        0
    }
}

/// Cumulative count of the symbols before index `i`.
pub open spec fn cum(counts: Seq<usize>, i: int) -> nat {
    range_sum(counts, 0, i)
}

/// The interval `[low, high]` after coding the symbol at index `i`.
pub open spec fn narrow(low: nat, high: nat, counts: Seq<usize>, i: int) -> (nat, nat) {
    let t = cum(counts, counts.len() as int);
    let range = sat_sub(high + 1, low);
    (low + range * cum(counts, i) / t, sat_sub(low + range * cum(counts, i + 1) / t, 1))
}

/// A bit followed by `pending` opposite bits.
pub open spec fn emitted(b: bool, pending: nat) -> Seq<bool> {
    seq![b] + Seq::new(pending, |i: int| !b)
}

/// Encoder renormalization, at most `fuel` rounds, on (low, high, pending
/// opposite bits, output bits). Each round doubles `high - low` plus one and
/// a round runs only while that gap is below half the range, so a valid
/// interval leaves the loop within `nb + 1` rounds; the round bound, like
/// the cap on pending bits at `usize::MAX`, keeps the definition total.
pub open spec fn enc_renorm(nb: nat, st: (nat, nat, nat, Seq<bool>), fuel: nat) -> (nat, nat, nat, Seq<bool>)
    decreases fuel,
{
    let (low, high, pending, out) = st;
    if fuel == 0 {
        st
    } else if high < half_value(nb) {
        enc_renorm(nb, (2 * low, 2 * high + 1, 0, out + emitted(false, pending)), (fuel - 1) as nat)
    } else if low >= half_value(nb) {
        enc_renorm(
            nb,
            (2 * sat_sub(low, half_value(nb)), 2 * sat_sub(high, half_value(nb)) + 1, 0, out + emitted(true, pending)),
            (fuel - 1) as nat,
        )
    } else if low >= first_quarter(nb) && high < third_quarter(nb) && pending < usize::MAX {
        enc_renorm(
            nb,
            (2 * sat_sub(low, first_quarter(nb)), 2 * sat_sub(high, first_quarter(nb)) + 1, pending + 1, out),
            (fuel - 1) as nat,
        )
    } else {
        st
    }
}

/// The encoder state after coding the bytes `x`.
pub open spec fn enc_symbols(
    nb: nat,
    syms: Seq<u8>,
    counts: Seq<usize>,
    st: (nat, nat, nat, Seq<bool>),
    x: Seq<u8>,
) -> (nat, nat, nat, Seq<bool>)
    decreases x.len(),
{
    if x.len() == 0 {
        st
    } else {
        let (lo, hi) = narrow(st.0, st.1, counts, position(syms, x[0]));
        enc_symbols(nb, syms, counts, enc_renorm(nb, (lo, hi, st.2, st.3), nb + 2), x.drop_first())
    }
}

/// The output bits once the last interval is settled.
pub open spec fn enc_finish(nb: nat, st: (nat, nat, nat, Seq<bool>)) -> Seq<bool> {
    let pending = if st.2 < usize::MAX {
        st.2 + 1
    } else {
        st.2
    };
    st.3 + emitted(st.0 > first_quarter(nb), pending)
}

pub open spec fn syms_of(fs: Seq<FrequencyChar>) -> Seq<u8> {
    fs.map_values(|f: FrequencyChar| f.0)
}

pub open spec fn counts_of(fs: Seq<FrequencyChar>) -> Seq<usize> {
    fs.map_values(|f: FrequencyChar| f.1)
}

pub open spec fn freq_pairs(fs: Seq<FrequencyChar>) -> Seq<(u8, usize)> {
    fs.map_values(|f: FrequencyChar| (f.0, f.1))
}

/// Bits of precision: the total count times the alphabet size.
pub open spec fn precision(counts: Seq<usize>) -> nat {
    cum(counts, counts.len() as int) * counts.len()
}

/// The bits that arithmetic coding of `x` emits.
pub open spec fn arith_bits(x: Seq<u8>) -> Seq<bool> {
    let fs = byte_freqs(x);
    let nb = precision(counts_of(fs));
    enc_finish(nb, enc_symbols(nb, syms_of(fs), counts_of(fs), (0, top_value(nb), 0, Seq::empty()), x))
}

proof fn lemma_counts_total(fs: Seq<FrequencyChar>)
    ensures
        front_sum(counts_of(fs)) == freq_total(fs),
    decreases fs.len(),
{
    if fs.len() > 0 {
        assert(counts_of(fs).drop_first() =~= counts_of(fs.drop_first()));
        lemma_counts_total(fs.drop_first());
    }
}

/// The constants of the coder for `nb` bits of precision.
struct Bounds {
    top: BigNum,
    first_quarter: BigNum,
    half: BigNum,
    third_quarter: BigNum,
}

impl Bounds {
    spec fn ok(&self, nb: nat) -> bool {
        &&& self.top@ == top_value(nb)
        &&& self.first_quarter@ == first_quarter(nb)
        &&& self.half@ == half_value(nb)
        &&& self.third_quarter@ == third_quarter(nb)
    }

    fn new(num_bits: usize) -> (r: Bounds)
        ensures
            r.ok(num_bits as nat),
    {
        let mut top = BigNum::pow2(num_bits);
        proof {
            lemma_pow2_pos(num_bits as nat);
        }
        top.substract(&BigNum::from_usize(1));
        let mut first_quarter = top.copy();
        first_quarter.divide(&BigNum::from_usize(4));
        first_quarter.add(&BigNum::from_usize(1));
        let mut half = first_quarter.copy();
        half.multiply(&BigNum::from_usize(2));
        let mut third_quarter = first_quarter.copy();
        third_quarter.multiply(&BigNum::from_usize(3));
        Bounds { top, first_quarter, half, third_quarter }
    }
}

/// `n - m`, or zero when `m` is larger.
fn saturating_sub(n: &BigNum, m: &BigNum) -> (r: BigNum)
    ensures
        r@ == sat_sub(n@, m@),
{
    if n.lt(m) {
        BigNum::new()
    } else {
        let mut r = n.copy();
        r.substract(m);
        r
    }
}

/// `low + range * c / total` for the current interval.
fn scale_point(low: &BigNum, range: &BigNum, c: usize, total: usize) -> (r: BigNum)
    requires
        total > 0,
    ensures
        r@ == low@ + range@ * (c as nat) / (total as nat),
{
    let mut p = range.copy();
    p.multiply(&BigNum::from_usize(c));
    p.divide(&BigNum::from_usize(total));
    let mut r = low.copy();
    r.add(&p);
    r
}

/// Writes `bit` and the owed opposite bits.
fn emit(queue: &mut BitQueue, buffer: &mut CompressedBuffer, one: bool)
    requires
        old(buffer).wf(),
    ensures
        final(buffer).wf(),
        final(buffer)@ == old(buffer)@ + emitted(one, old(queue).pending()),
        final(queue).pending() == 0,
{
    let bits = queue.bit_followed_by_inverted(if one { 1 } else { 0 });
    let ghost want = emitted(one, old(queue).pending());
    let mut i: usize = 0;
    while i < bits.len()
        invariant
            i <= bits@.len(),
            bits@ == seq![(if one { 1u8 } else { 0u8 })] + Seq::new(old(queue).pending(), |j: int| (1 - (if one { 1u8 } else { 0u8 })) as u8),
            want.len() == bits@.len(),
            want == emitted(one, old(queue).pending()),
            buffer.wf(),
            buffer@ == old(buffer)@ + want.subrange(0, i as int),
        decreases bits@.len() - i,
    {
        let b = if bits[i] == 1 { Bit::ONE } else { Bit::ZERO };
        proof {
            if i == 0 {
                assert(want[0] == one);
                assert(bits@[0] == (if one { 1u8 } else { 0u8 }));
            } else {
                assert(want[i as int] == !one);
                assert(bits@[i as int] == (1 - (if one { 1u8 } else { 0u8 })) as u8);
            }
        }
        buffer.push_bit(b);
        i += 1;
        assert(buffer@ =~= old(buffer)@ + want.subrange(0, i as int));
    }
    assert(want.subrange(0, i as int) =~= want);
}

/// The coding interval and output of the encoder.
struct EncoderState {
    low: BigNum,
    high: BigNum,
    queue: BitQueue,
    buffer: CompressedBuffer,
}

impl EncoderState {
    spec fn view(&self) -> (nat, nat, nat, Seq<bool>) {
        (self.low@, self.high@, self.queue.pending(), self.buffer@)
    }

    fn renormalize(&mut self, bounds: &Bounds, num_bits: usize, fuel0: usize)
        requires
            bounds.ok(num_bits as nat),
            old(self).buffer.wf(),
        ensures
            final(self).buffer.wf(),
            final(self)@ == enc_renorm(num_bits as nat, old(self)@, fuel0 as nat),
    {
        let mut fuel = fuel0;
        loop
            invariant
                bounds.ok(num_bits as nat),
                self.buffer.wf(),
                enc_renorm(num_bits as nat, old(self)@, fuel0 as nat) == enc_renorm(num_bits as nat, self@, fuel as nat),
            ensures
                self.buffer.wf(),
                self@ == enc_renorm(num_bits as nat, old(self)@, fuel0 as nat),
            decreases fuel,
        {
            if fuel == 0 {
                assert(enc_renorm(num_bits as nat, self@, 0) == self@);
                break;
            }
            if self.high.lt(&bounds.half) {
                emit(&mut self.queue, &mut self.buffer, false);
            } else if !self.low.lt(&bounds.half) {
                emit(&mut self.queue, &mut self.buffer, true);
                self.low.substract(&bounds.half);
                self.high.substract(&bounds.half);
            } else if !self.low.lt(&bounds.first_quarter) && self.high.lt(&bounds.third_quarter)
                && self.queue.pending_count() < usize::MAX {
                self.low.substract(&bounds.first_quarter);
                self.high.substract(&bounds.first_quarter);
                self.queue.add_assign(1);
            } else {
                assert(enc_renorm(num_bits as nat, self@, fuel as nat) == self@);
                break;
            }
            self.low.push_bit(0);
            self.high.push_bit(1);
            fuel -= 1;
        }
    }
}

/// Codes `input`: the final-bit offset, the frequency table in ascending
/// byte order, and the packed bits.
pub fn encode(input: &[u8]) -> (r: (u8, Vec<(u8, usize)>, Vec<u8>))
    requires
        input@.len() <= usize::MAX / 512,
    ensures
        r.1@ == freq_pairs(byte_freqs(input@)),
        packs(r.2@, arith_bits(input@)),
        r.0 as nat == (arith_bits(input@).len() + 7) % 8,
{
    let ghost x = input@;
    let fs = count_bytes(input);
    let ghost f = fs@;
    let mut sorted_freq: Vec<(u8, usize)> = Vec::new();
    let mut copy_freq: Vec<(u8, usize)> = Vec::new();
    let mut i: usize = 0;
    while i < fs.len()
        invariant
            i <= fs@.len(),
            f == fs@,
            sorted_freq@ == freq_pairs(f.subrange(0, i as int)),
            copy_freq@ == freq_pairs(f.subrange(0, i as int)),
        decreases fs@.len() - i,
    {
        let fc = fs[i];
        sorted_freq.push((fc.0, fc.1));
        copy_freq.push((fc.0, fc.1));
        i += 1;
        assert(sorted_freq@ =~= freq_pairs(f.subrange(0, i as int)));
        assert(copy_freq@ =~= freq_pairs(f.subrange(0, i as int)));
    }
    proof {
        assert(f.subrange(0, i as int) =~= f);
        lemma_byte_freqs_total(x);
        lemma_counts_total(f);
        lemma_front_sum(counts_of(f));
        assert(copy_freq@.map_values(|p: (u8, usize)| p.1) =~= counts_of(f));
        assert(copy_freq@.map_values(|p: (u8, usize)| p.0) =~= syms_of(f));
    }
    let cum_freq = FenwickTree::new(copy_freq);
    let size = cum_freq.total_sum();
    let k = cum_freq.len();
    assert(size * k <= usize::MAX / 2) by (nonlinear_arith)
        requires
            size <= usize::MAX / 512,
            k <= 256,
    ;
    let num_bits = size * k;
    let ghost nb = num_bits as nat;
    let ghost counts = counts_of(f);
    let ghost syms = syms_of(f);
    let bounds = Bounds::new(num_bits);
    let mut st = EncoderState {
        low: BigNum::new(),
        high: bounds.top.copy(),
        queue: BitQueue::new(),
        buffer: CompressedBuffer::new(),
    };
    assert(x.subrange(0, x.len() as int) =~= x);
    let mut j: usize = 0;
    while j < input.len()
        invariant
            x == input@,
            j <= x.len(),
            bounds.ok(nb),
            num_bits as nat == nb,
            nb == precision(counts),
            size as nat == cum(counts, counts.len() as int),
            size as nat == x.len(),
            cum_freq.wf(),
            cum_freq.freqs() == counts,
            cum_freq.symbols() == syms,
            counts == counts_of(byte_freqs(x)),
            syms == syms_of(byte_freqs(x)),
            num_bits <= usize::MAX / 2,
            st.buffer.wf(),
            enc_symbols(nb, syms, counts, (0, top_value(nb), 0, Seq::empty()), x) == enc_symbols(
                nb,
                syms,
                counts,
                st@,
                x.subrange(j as int, x.len() as int),
            ),
        decreases x.len() - j,
    {
        let c = input[j];
        let ghost rest = x.subrange(j as int, x.len() as int);
        proof {
            assert(rest[0] == c);
            assert(rest.drop_first() =~= x.subrange(j + 1, x.len() as int));
            lemma_occurrences_pos(x, j as int);
            lemma_byte_freqs_has(x, 0, c);
            let t = choose|t: int| 0 <= t < byte_freqs(x).len() && #[trigger] byte_freqs(x)[t].0 == c;
            assert(syms[t] == c);
        }
        let (symbol_low, symbol_high) = cum_freq.get_bounds(c);
        let mut range = st.high.copy();
        range.add(&BigNum::from_usize(1));
        let range = saturating_sub(&range, &st.low);
        let high_end = scale_point(&st.low, &range, symbol_high, size);
        let new_high = saturating_sub(&high_end, &BigNum::from_usize(1));
        let new_low = scale_point(&st.low, &range, symbol_low, size);
        st.low = new_low;
        st.high = new_high;
        st.renormalize(&bounds, num_bits, num_bits + 2);
        j += 1;
    }
    if st.queue.pending_count() < usize::MAX {
        st.queue.add_assign(1);
    }
    let bit = st.bounds_gt(&bounds);
    emit(&mut st.queue, &mut st.buffer, bit);
    proof {
        assert(x.subrange(j as int, x.len() as int) =~= Seq::<u8>::empty());
    }
    (st.buffer.get_current_bit_index(), sorted_freq, st.buffer.get_buffer())
}

impl EncoderState {
    /// Whether `low` lies above the first quarter.
    fn bounds_gt(&self, bounds: &Bounds) -> (r: bool)
        ensures
            r == (self.low@ > bounds.first_quarter@),
    {
        bounds.first_quarter.lt(&self.low)
    }
}

/// Bit `i` of a stream of `nbits` bits packed in `packed`, zero past its end.
pub open spec fn stream_bit(packed: Seq<u8>, nbits: nat, i: nat) -> u8 {
    if i < nbits && i < 8 * packed.len() && get_bit(packed, i as int) {
        1
    } else {
        0
    }
}

/// Decoder renormalization, at most `fuel` rounds, on (low, high, value,
/// next bit); `None` when the value falls outside the interval.
pub open spec fn dec_renorm(
    nb: nat,
    packed: Seq<u8>,
    nbits: nat,
    st: (nat, nat, nat, nat),
    fuel: nat,
) -> Option<(nat, nat, nat, nat)>
    decreases fuel,
{
    let (low, high, value, pos) = st;
    if fuel == 0 {
        Some(st)
    } else if pos >= usize::MAX {
        None
    } else if high < half_value(nb) {
        dec_renorm(nb, packed, nbits, (2 * low, 2 * high + 1, 2 * value + stream_bit(packed, nbits, pos) as nat, pos + 1), (fuel - 1) as nat)
    } else if low >= half_value(nb) {
        if value < half_value(nb) {
            None
        } else {
            dec_renorm(
                nb,
                packed,
                nbits,
                (
                    2 * sat_sub(low, half_value(nb)),
                    2 * sat_sub(high, half_value(nb)) + 1,
                    2 * sat_sub(value, half_value(nb)) + stream_bit(packed, nbits, pos) as nat,
                    pos + 1,
                ),
                (fuel - 1) as nat,
            )
        }
    } else if low >= first_quarter(nb) && high < third_quarter(nb) {
        if value < first_quarter(nb) {
            None
        } else {
            dec_renorm(
                nb,
                packed,
                nbits,
                (
                    2 * sat_sub(low, first_quarter(nb)),
                    2 * sat_sub(high, first_quarter(nb)) + 1,
                    2 * sat_sub(value, first_quarter(nb)) + stream_bit(packed, nbits, pos) as nat,
                    pos + 1,
                ),
                (fuel - 1) as nat,
            )
        }
    } else {
        Some(st)
    }
}

/// The symbol index that the value selects, scaled to the counts.
pub open spec fn scaled_value(low: nat, high: nat, value: nat, total: nat) -> nat {
    sat_sub((sat_sub(value, low) + 1) * total, 1) / sat_sub(high + 1, low)
}

/// Decodes one symbol: its index and the next state.
pub open spec fn dec_step(
    nb: nat,
    counts: Seq<usize>,
    packed: Seq<u8>,
    nbits: nat,
    st: (nat, nat, nat, nat),
) -> Option<(int, (nat, nat, nat, nat))> {
    let (low, high, value, pos) = st;
    let t = cum(counts, counts.len() as int);
    if value < low || sat_sub(high + 1, low) == 0 {
        None
    } else {
        match find_index_from(counts, scaled_value(low, high, value, t), 0) {
            None => None,
            Some(i) => {
                let (lo, hi) = narrow(low, high, counts, i as int);
                match dec_renorm(nb, packed, nbits, (lo, hi, value, pos), nb + 2) {
                    None => None,
                    Some(st2) => Some((i as int, st2)),
                }
            },
        }
    }
}

/// Decodes `m` symbols.
pub open spec fn dec_symbols(
    nb: nat,
    syms: Seq<u8>,
    counts: Seq<usize>,
    packed: Seq<u8>,
    nbits: nat,
    st: (nat, nat, nat, nat),
    m: nat,
) -> Option<Seq<u8>>
    decreases m,
{
    if m == 0 {
        Some(Seq::empty())
    } else {
        match dec_step(nb, counts, packed, nbits, st) {
            None => None,
            Some((i, st2)) => match dec_symbols(nb, syms, counts, packed, nbits, st2, (m - 1) as nat) {
                Some(rest) => Some(seq![syms[i]] + rest),
                None => None,
            },
        }
    }
}

/// Number of usable bits given the packed bytes and the final-bit offset.
pub open spec fn stream_len(packed: Seq<u8>, offset: u8) -> nat {
    if packed.len() == 0 {
        0
    } else if 8 * (packed.len() - 1) + offset + 1 > usize::MAX {
        usize::MAX as nat
    } else {
        (8 * (packed.len() - 1) + offset + 1) as nat
    }
}

/// What decoding the table `freq` and the packed bits gives; `None` when the
/// table is unusable or the stream impossible.
pub open spec fn freq_syms(freq: Seq<(u8, usize)>) -> Seq<u8> {
    freq.map_values(|p: (u8, usize)| p.0)
}

pub open spec fn freq_counts(freq: Seq<(u8, usize)>) -> Seq<usize> {
    freq.map_values(|p: (u8, usize)| p.1)
}

pub open spec fn arith_decode_spec(offset: u8, freq: Seq<(u8, usize)>, packed: Seq<u8>) -> Option<Seq<u8>> {
    let syms = freq_syms(freq);
    let counts = freq_counts(freq);
    let t = cum(counts, counts.len() as int);
    let nb = t * counts.len();
    if offset > 7 || t > usize::MAX || nb > usize::MAX / 2 {
        None
    } else {
        let nbits = stream_len(packed, offset);
        let value = binary_value(Seq::new(nb, |i: int| stream_bit(packed, nbits, i as nat)));
        dec_symbols(nb, syms, counts, packed, nbits, (0, top_value(nb), value, nb), t)
    }
}

/// The decoder's interval, value and read position.
struct DecoderState {
    low: BigNum,
    high: BigNum,
    value: BigNum,
    pos: usize,
}

impl DecoderState {
    spec fn view(&self) -> (nat, nat, nat, nat) {
        (self.low@, self.high@, self.value@, self.pos as nat)
    }

    fn next_bit(&self, packed: &[u8], nbits: usize) -> (r: u8)
        ensures
            r == stream_bit(packed@, nbits as nat, self.pos as nat),
    {
        let i = self.pos;
        if i < nbits && i / 8 < packed.len() {
            let byte = packed[i / 8];
            if ((byte >> ((7 - i % 8) as u8)) & 1u8) == 1u8 {
                1
            } else {
                0
            }
        } else {
            0
        }
    }

    fn shift_in(&mut self, packed: &[u8], nbits: usize)
        requires
            old(self).pos < usize::MAX,
        ensures
            final(self)@ == (2 * old(self).low@, 2 * old(self).high@ + 1, 2 * old(self).value@ + stream_bit(packed@, nbits as nat, old(self).pos as nat) as nat, (old(self).pos + 1) as nat),
    {
        let b = self.next_bit(packed, nbits);
        self.low.push_bit(0);
        self.high.push_bit(1);
        self.value.push_bit(b);
        self.pos = self.pos + 1;
    }

    /// Decodes one symbol, or `None` when the stream is impossible.
    fn step(&mut self, bounds: &Bounds, cum_freq: &FenwickTree, total: usize, num_bits: usize, packed: &[u8], nbits: usize) -> (r: Option<u8>)
        requires
            bounds.ok(num_bits as nat),
            num_bits <= usize::MAX / 2,
            cum_freq.wf(),
            total as nat == cum(cum_freq.freqs(), cum_freq.freqs().len() as int),
            total > 0,
        ensures
            match r {
                Some(c) => dec_step(num_bits as nat, cum_freq.freqs(), packed@, nbits as nat, old(self)@) matches Some((i, st2))
                    && 0 <= i < cum_freq.symbols().len() && c == cum_freq.symbols()[i] && final(self)@ == st2,
                None => dec_step(num_bits as nat, cum_freq.freqs(), packed@, nbits as nat, old(self)@) is None,
            },
    {
        let ghost pre = self@;
        let ghost t = cum(cum_freq.freqs(), cum_freq.freqs().len() as int);
        if self.value.lt(&self.low) {
            assert(dec_step(num_bits as nat, cum_freq.freqs(), packed@, nbits as nat, pre) is None);
            return None;
        }
        let mut range = self.high.copy();
        range.add(&BigNum::from_usize(1));
        let range = saturating_sub(&range, &self.low);
        if range.lt(&BigNum::from_usize(1)) {
            assert(dec_step(num_bits as nat, cum_freq.freqs(), packed@, nbits as nat, pre) is None);
            return None;
        }
        // ((value - low + 1) * total - 1) / range
        let mut scaled = saturating_sub(&self.value, &self.low);
        scaled.add(&BigNum::from_usize(1));
        scaled.multiply(&BigNum::from_usize(total));
        let mut scaled = saturating_sub(&scaled, &BigNum::from_usize(1));
        scaled.divide(&range);
        assert(scaled@ == scaled_value(pre.0, pre.1, pre.2, t));
        let index = match scaled.to_usize() {
            Some(v) => match cum_freq.find_index(v) {
                Some(ix) => ix,
                None => {
                    assert(dec_step(num_bits as nat, cum_freq.freqs(), packed@, nbits as nat, pre) is None);
                    return None;
                },
            },
            None => {
                proof {
                    lemma_find_above(cum_freq.freqs(), scaled@);
                    assert(dec_step(num_bits as nat, cum_freq.freqs(), packed@, nbits as nat, pre) is None);
                }
                return None;
            },
        };
        proof {
            lemma_find_index_bound(cum_freq.freqs(), scaled@, 0);
            cum_freq.lemma_wf();
        }
        let symbol = cum_freq.symbol_at(index);
        let (symbol_low, symbol_high) = cum_freq.get_bounds_at(index);
        let high_end = scale_point(&self.low, &range, symbol_high, total);
        let new_high = saturating_sub(&high_end, &BigNum::from_usize(1));
        let new_low = scale_point(&self.low, &range, symbol_low, total);
        self.low = new_low;
        self.high = new_high;
        let ghost mid = self@;
        assert(mid == (narrow(pre.0, pre.1, cum_freq.freqs(), index as int).0, narrow(pre.0, pre.1, cum_freq.freqs(), index as int).1, pre.2, pre.3));
        if !self.renormalize(bounds, num_bits, packed, nbits, num_bits + 2) {
            assert(dec_step(num_bits as nat, cum_freq.freqs(), packed@, nbits as nat, pre) is None);
            return None;
        }
        assert(dec_step(num_bits as nat, cum_freq.freqs(), packed@, nbits as nat, pre) == Some((index as int, self@)));
        Some(symbol)
    }

    fn renormalize(&mut self, bounds: &Bounds, num_bits: usize, packed: &[u8], nbits: usize, fuel0: usize) -> (ok: bool)
        requires
            bounds.ok(num_bits as nat),
        ensures
            ok ==> dec_renorm(num_bits as nat, packed@, nbits as nat, old(self)@, fuel0 as nat) == Some(final(self)@),
            !ok ==> dec_renorm(num_bits as nat, packed@, nbits as nat, old(self)@, fuel0 as nat) is None,
    {
        let mut fuel = fuel0;
        loop
            invariant
                bounds.ok(num_bits as nat),
                dec_renorm(num_bits as nat, packed@, nbits as nat, old(self)@, fuel0 as nat) == dec_renorm(
                    num_bits as nat,
                    packed@,
                    nbits as nat,
                    self@,
                    fuel as nat,
                ),
            decreases fuel,
        {
            if fuel == 0 {
                return true;
            }
            if self.pos == usize::MAX {
                return false;
            }
            if self.high.lt(&bounds.half) {
            } else if !self.low.lt(&bounds.half) {
                if self.value.lt(&bounds.half) {
                    return false;
                }
                self.low.substract(&bounds.half);
                self.high.substract(&bounds.half);
                self.value.substract(&bounds.half);
            } else if !self.low.lt(&bounds.first_quarter) && self.high.lt(&bounds.third_quarter) {
                if self.value.lt(&bounds.first_quarter) {
                    return false;
                }
                self.low.substract(&bounds.first_quarter);
                self.high.substract(&bounds.first_quarter);
                self.value.substract(&bounds.first_quarter);
            } else {
                return true;
            }
            self.shift_in(packed, nbits);
            fuel -= 1;
        }
    }
}

/// Decodes `packed` against the frequency table; `last_byte_offset` is the
/// position of the last bit in the last byte.
pub fn decode(last_byte_offset: u8, frequency: Vec<(u8, usize)>, encoded: &[u8]) -> (r: Result<Vec<u8>, CodecError>)
    ensures
        match r {
            Ok(v) => arith_decode_spec(last_byte_offset, frequency@, encoded@) == Some(v@),
            Err(e) => e == CodecError::InvalidArithmeticRange && arith_decode_spec(last_byte_offset, frequency@, encoded@) is None,
        },
{
    let ghost freq = frequency@;
    let ghost syms = freq_syms(freq);
    let ghost counts = freq_counts(freq);
    if last_byte_offset > 7 {
        return Err(CodecError::InvalidArithmeticRange);
    }
    // the total count, checked against overflow
    let mut total: usize = 0;
    let mut i: usize = 0;
    while i < frequency.len()
        invariant
            i <= freq.len(),
            freq == frequency@,
            counts == freq_counts(freq),
            total as nat == range_sum(counts, 0, i as int),
        decreases freq.len() - i,
    {
        let c = frequency[i].1;
        if total > usize::MAX - c {
            proof {
                crate::fenwick::lemma_range_sum_split(counts, 0, i + 1, counts.len() as int);
            }
            return Err(CodecError::InvalidArithmeticRange);
        }
        total = total + c;
        i += 1;
    }
    let k = frequency.len();
    if k > 0 && total > usize::MAX / 2 / k {
        proof {
            assert(total * k > usize::MAX / 2) by (nonlinear_arith)
                requires
                    k > 0,
                    total > usize::MAX / 2 / k,
            ;
        }
        return Err(CodecError::InvalidArithmeticRange);
    }
    assert(total * k <= usize::MAX / 2) by (nonlinear_arith)
        requires
            k == 0 || total <= usize::MAX / 2 / k,
    ;
    let num_bits = total * k;
    let nbits: usize = if encoded.len() == 0 {
        0
    } else {
        let base = encoded.len() - 1;
        let off = last_byte_offset as usize;
        if base > (usize::MAX - 1 - off) / 8 {
            assert(8 * base + off + 1 > usize::MAX) by (nonlinear_arith)
                requires
                    base > (usize::MAX - 1 - off) / 8,
                    off <= 7,
            ;
            usize::MAX
        } else {
            assert(8 * base + off + 1 <= usize::MAX) by (nonlinear_arith)
                requires
                    base <= (usize::MAX - 1 - off) / 8,
                    off <= 7,
            ;
            8 * base + off + 1
        }
    };
    let ghost nb = num_bits as nat;
    proof {
        assert(nbits as nat == stream_len(encoded@, last_byte_offset));
        assert(frequency@.map_values(|p: (u8, usize)| p.1) =~= counts);
        assert(frequency@.map_values(|p: (u8, usize)| p.0) =~= syms);
    }
    let mut table: Vec<(u8, usize)> = Vec::new();
    let mut i: usize = 0;
    while i < frequency.len()
        invariant
            i <= freq.len(),
            freq == frequency@,
            table@ == freq.subrange(0, i as int),
        decreases freq.len() - i,
    {
        table.push(frequency[i]);
        i += 1;
        assert(table@ =~= freq.subrange(0, i as int));
    }
    assert(freq.subrange(0, i as int) =~= freq);
    let cum_freq = FenwickTree::new(table);
    let bounds = Bounds::new(num_bits);
    // the first num_bits bits of the stream
    let mut digits: Vec<u8> = Vec::new();
    let mut st = DecoderState { low: BigNum::new(), high: bounds.top.copy(), value: BigNum::new(), pos: 0 };
    while st.pos < num_bits
        invariant
            st.pos <= num_bits,
            bounds.ok(nb),
            nb == num_bits as nat,
            st.low@ == 0,
            st.high@ == top_value(nb),
            digits@ == Seq::new(st.pos as nat, |j: int| stream_bit(encoded@, nbits as nat, j as nat)),
            forall|j: int| 0 <= j < digits@.len() ==> digits@[j] <= 1,
        decreases num_bits - st.pos,
    {
        let b = st.next_bit(encoded, nbits);
        digits.push(b);
        st.pos = st.pos + 1;
        assert(digits@ =~= Seq::new(st.pos as nat, |j: int| stream_bit(encoded@, nbits as nat, j as nat)));
    }
    st.value = BigNum::from_bits(&digits);
    let mut decoded: Vec<u8> = Vec::new();
    let mut m: usize = 0;
    let ghost start = st@;
    proof {
        assert(counts.len() == freq.len());
        assert(cum(counts, counts.len() as int) == total as nat);
        assert(nb == total as nat * counts.len());
        assert(start.0 == 0);
        assert(start.1 == top_value(nb));
        assert(start.3 == nb);
        assert(digits@ =~= Seq::new(nb, |j: int| stream_bit(encoded@, nbits as nat, j as nat)));
        assert(start.2 == binary_value(Seq::new(nb, |j: int| stream_bit(encoded@, nbits as nat, j as nat))));
        assert(arith_decode_spec(last_byte_offset, freq, encoded@) == dec_symbols(
            nb,
            syms,
            counts,
            encoded@,
            nbits as nat,
            start,
            total as nat,
        ));
    }
    while m < total
        invariant
            arith_decode_spec(last_byte_offset, freq, encoded@) == dec_symbols(
                nb,
                syms,
                counts,
                encoded@,
                nbits as nat,
                start,
                total as nat,
            ),
            freq == frequency@,
            bounds.ok(nb),
            nb == num_bits as nat,
            num_bits <= usize::MAX / 2,
            cum_freq.wf(),
            cum_freq.freqs() == counts,
            cum_freq.symbols() == syms,
            total as nat == cum(counts, counts.len() as int),
            m <= total,
            dec_symbols(nb, syms, counts, encoded@, nbits as nat, start, total as nat) == match dec_symbols(
                nb,
                syms,
                counts,
                encoded@,
                nbits as nat,
                st@,
                (total - m) as nat,
            ) {
                Some(rest) => Some(decoded@ + rest),
                None => None,
            },
        decreases total - m,
    {
        let ghost pre = st@;
        let ghost before = decoded@;
        assert(arith_decode_spec(last_byte_offset, freq, encoded@) == match dec_symbols(
            nb,
            syms,
            counts,
            encoded@,
            nbits as nat,
            pre,
            (total - m) as nat,
        ) {
            Some(rest) => Some(before + rest),
            None => None,
        });
        assert(dec_symbols(nb, syms, counts, encoded@, nbits as nat, pre, (total - m) as nat) == match dec_step(
            nb,
            counts,
            encoded@,
            nbits as nat,
            pre,
        ) {
            None => None,
            Some((i, st2)) => match dec_symbols(nb, syms, counts, encoded@, nbits as nat, st2, (total - m - 1) as nat) {
                Some(rest) => Some(seq![syms[i]] + rest),
                None => None,
            },
        });
        let symbol = match st.step(&bounds, &cum_freq, total, num_bits, encoded, nbits) {
            Some(c) => c,
            None => {
                assert(dec_symbols(nb, syms, counts, encoded@, nbits as nat, pre, (total - m) as nat) is None);
                assert(arith_decode_spec(last_byte_offset, freq, encoded@) is None);
                return Err(CodecError::InvalidArithmeticRange);
            },
        };
        decoded.push(symbol);
        proof {
            match dec_symbols(nb, syms, counts, encoded@, nbits as nat, st@, (total - m - 1) as nat) {
                Some(rest) => {
                    assert(before + (seq![symbol] + rest) =~= decoded@ + rest);
                },
                None => {},
            }
        }
        m += 1;
    }
    proof {
        assert(decoded@ + Seq::<u8>::empty() =~= decoded@);
    }
    Ok(decoded)
}

proof fn lemma_find_index_bound(v: Seq<usize>, x: nat, i: nat)
    ensures
        find_index_from(v, x, i) matches Some(j) ==> i <= j < v.len(),
    decreases v.len() - i,
{
    if i < v.len() {
        lemma_find_index_bound(v, x, i + 1);
    }
}

proof fn lemma_find_above(v: Seq<usize>, x: nat)
    requires
        x > usize::MAX,
        range_sum(v, 0, v.len() as int) <= usize::MAX,
    ensures
        find_index_from(v, x, 0) is None,
{
    lemma_find_above_from(v, x, 0);
}

proof fn lemma_find_above_from(v: Seq<usize>, x: nat, i: nat)
    requires
        x > usize::MAX,
        range_sum(v, 0, v.len() as int) <= usize::MAX,
    ensures
        find_index_from(v, x, i) is None,
    decreases v.len() - i,
{
    if i < v.len() {
        crate::fenwick::lemma_range_sum_split(v, 0, (i + 1) as int, v.len() as int);
        lemma_find_above_from(v, x, i + 1);
    }
}

/// The frequency block of a frame: each byte and its varsize count.
pub open spec fn freq_block(fr: Seq<(u8, usize)>) -> Seq<u8> {
    rle_frame(run_views(fr))
}

/// `f` is the arithmetic frame of `x`: the final-bit offset, the varsize
/// length of the frequency block, the block, then the packed bits.
pub open spec fn arith_frame_ok(x: Seq<u8>, f: Seq<u8>) -> bool {
    let bits = arith_bits(x);
    let block = freq_block(freq_pairs(byte_freqs(x)));
    let h = seq![((bits.len() + 7) % 8) as u8] + varsize_of(block.len()) + block;
    &&& f.len() >= h.len()
    &&& f.subrange(0, h.len() as int) == h
    &&& packs(f.subrange(h.len() as int, f.len() as int), bits)
}

pub open spec fn usize_pairs(p: Seq<(u8, nat)>) -> Seq<(u8, usize)> {
    p.map_values(|q: (u8, nat)| (q.0, q.1 as usize))
}

/// What decoding the arithmetic frame `s` gives; `None` for a malformed
/// frame.
pub open spec fn arith_frame_decode_spec(s: Seq<u8>) -> Option<Seq<u8>> {
    if s.len() == 0 {
        None
    } else {
        let rest = s.drop_first();
        match parse_varsize(rest) {
            Some((m, k)) => if k + m > rest.len() {
                None
            } else {
                match rle_parse(rest.subrange(k as int, (k + m) as int)) {
                    Some(pairs) => arith_decode_spec(s[0], usize_pairs(pairs), rest.subrange((k + m) as int, rest.len() as int)),
                    None => None,
                }
            },
            None => None,
        }
    }
}

/// The arithmetic frame of `input`.
pub fn encode_with_metadatas(input: &[u8]) -> (r: Vec<u8>)
    requires
        input@.len() <= usize::MAX / 512,
    ensures
        arith_frame_ok(input@, r@),
{
    let (bits_offset, frequency, encoded) = encode(input);
    let mut compressed_frequency: Vec<u8> = Vec::new();
    let mut i: usize = 0;
    while i < frequency.len()
        invariant
            i <= frequency@.len(),
            compressed_frequency@ == freq_block(frequency@.subrange(0, i as int)),
        decreases frequency@.len() - i,
    {
        let (c, num) = frequency[i];
        proof {
            let a = run_views(frequency@.subrange(0, i as int));
            assert(run_views(frequency@.subrange(0, i + 1)) =~= a.push((c, num as nat)));
            assert(crate::rle::frame_pieces(a.push((c, num as nat))) =~= crate::rle::frame_pieces(a).push(
                crate::rle::run_frame((c, num as nat)),
            ));
            crate::rle::frame_pieces(a).lemma_flatten_push(crate::rle::run_frame((c, num as nat)));
        }
        compressed_frequency.push(c);
        push_varsize(&mut compressed_frequency, num);
        i += 1;
        assert(compressed_frequency@ =~= freq_block(frequency@.subrange(0, i as int)));
    }
    assert(frequency@.subrange(0, i as int) =~= frequency@);
    let mut out: Vec<u8> = Vec::new();
    out.push(bits_offset);
    push_varsize(&mut out, compressed_frequency.len());
    extend_bytes(&mut out, compressed_frequency.as_slice());
    let ghost h = out@;
    extend_bytes(&mut out, encoded.as_slice());
    proof {
        assert(out@.subrange(0, h.len() as int) =~= h);
        assert(out@.subrange(h.len() as int, out@.len() as int) =~= encoded@);
    }
    out
}

/// Decodes an arithmetic frame.
pub fn decode_with_metadatas(input: &[u8]) -> (r: Result<Vec<u8>, CodecError>)
    ensures
        match r {
            Ok(v) => arith_frame_decode_spec(input@) == Some(v@),
            Err(_) => arith_frame_decode_spec(input@) is None,
        },
{
    if input.len() == 0 {
        return Err(CodecError::InvalidArithmeticRange);
    }
    let last_byte_offset = input[0];
    let ghost rest = input@.drop_first();
    assert(input@.subrange(1, input@.len() as int) =~= rest);
    let (freq_size, k) = match decode_varsize_at(input, 1) {
        Ok(p) => p,
        Err(e) => {
            return Err(e);
        },
    };
    proof {
        lemma_parse_consumes(rest);
    }
    if freq_size > input.len() - 1 - k {
        return Err(CodecError::MalformedVarsize);
    }
    let block = slice_between(input, 1 + k, 1 + k + freq_size);
    assert(block@ =~= rest.subrange(k as int, (k + freq_size) as int));
    let pairs = match parse_runs(block.as_slice()) {
        Ok(p) => p,
        Err(e) => {
            return Err(e);
        },
    };
    assert(pairs@ =~= usize_pairs(run_views(pairs@)));
    let encoded = slice_between(input, 1 + k + freq_size, input.len());
    assert(encoded@ =~= rest.subrange((k + freq_size) as int, rest.len() as int));
    decode(last_byte_offset, pairs, encoded.as_slice())
}

} // verus!
