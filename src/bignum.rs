//! Arbitrary-precision natural numbers, held as little-endian 32-bit limbs;
//! the arithmetic itself is num-bigint's.
use vstd::prelude::*;
use num_bigint::BigUint;
use vstd::arithmetic::power2::pow2;

verus! {

/// The value of little-endian base-2^32 limbs.
pub open spec fn limbs_value(d: Seq<u32>) -> nat
    decreases d.len(),
{
    if d.len() == 0 {
        0
    } else {
        (d[0] + 4294967296 * limbs_value(d.drop_first())) as nat
    }
}

/// The value of binary digits (0 or 1), most significant first.
pub open spec fn binary_value(s: Seq<u8>) -> nat
    decreases s.len(),
{
    if s.len() == 0 {
        0
    } else {
        (2 * binary_value(s.drop_last()) + s.last()) as nat
    }
}

/// The binary digits of `n`, most significant first, without leading
/// zeros; `[0]` for zero.
pub open spec fn binary_digits(n: nat) -> Seq<u8>
    decreases n,
{
    if n < 2 {
        seq![n as u8]
    } else {
        binary_digits(n / 2).push((n % 2) as u8)
    }
}

/// Relies on `BigUint` addition.
#[verifier::external_body]
fn big_add(a: &Vec<u32>, b: &Vec<u32>) -> (r: Vec<u32>)
    ensures
        limbs_value(r@) == limbs_value(a@) + limbs_value(b@),
{
    (BigUint::new(a.clone()) + BigUint::new(b.clone())).to_u32_digits()
}

/// Relies on `BigUint` subtraction, which panics when `b` exceeds `a`.
#[verifier::external_body]
fn big_sub(a: &Vec<u32>, b: &Vec<u32>) -> (r: Vec<u32>)
    requires
        limbs_value(a@) >= limbs_value(b@),
    ensures
        limbs_value(r@) == limbs_value(a@) - limbs_value(b@),
{
    (BigUint::new(a.clone()) - BigUint::new(b.clone())).to_u32_digits()
}

/// Relies on `BigUint` multiplication.
#[verifier::external_body]
fn big_mul(a: &Vec<u32>, b: &Vec<u32>) -> (r: Vec<u32>)
    ensures
        limbs_value(r@) == limbs_value(a@) * limbs_value(b@),
{
    (BigUint::new(a.clone()) * BigUint::new(b.clone())).to_u32_digits()
}

/// Relies on `BigUint` division, which truncates and panics on a zero
/// divisor.
#[verifier::external_body]
fn big_div(a: &Vec<u32>, b: &Vec<u32>) -> (r: Vec<u32>)
    requires
        limbs_value(b@) > 0,
    ensures
        limbs_value(r@) == limbs_value(a@) / limbs_value(b@),
{
    (BigUint::new(a.clone()) / BigUint::new(b.clone())).to_u32_digits()
}

/// Relies on the order of `BigUint`.
#[verifier::external_body]
fn big_lt(a: &Vec<u32>, b: &Vec<u32>) -> (r: bool)
    ensures
        r == (limbs_value(a@) < limbs_value(b@)),
{
    BigUint::new(a.clone()) < BigUint::new(b.clone())
}

/// Relies on `BigUint` left shift: one shifted left by `n` bits.
#[verifier::external_body]
fn big_pow2(n: usize) -> (r: Vec<u32>)
    ensures
        limbs_value(r@) == pow2(n as nat),
{
    (BigUint::from(1u32) << n).to_u32_digits()
}

/// Relies on `BigUint::from_radix_be` in base 2, which fails only on a
/// digit above 1.
#[verifier::external_body]
fn big_from_binary(digits: &Vec<u8>) -> (r: Option<Vec<u32>>)
    ensures
        r is Some <== forall|i: int| 0 <= i < digits@.len() ==> digits@[i] <= 1,
        r matches Some(v) ==> limbs_value(v@) == binary_value(digits@),
{
    BigUint::from_radix_be(digits.as_slice(), 2).map(|v| v.to_u32_digits())
}

/// Relies on `BigUint::to_radix_be` in base 2.
#[verifier::external_body]
fn big_to_binary(a: &Vec<u32>) -> (r: Vec<u8>)
    ensures
        r@ == binary_digits(limbs_value(a@)),
{
    BigUint::new(a.clone()).to_radix_be(2)
}

/// A natural number of any size.
pub struct BigNum {
    digits: Vec<u32>,
}

impl BigNum {
    /// The number.
    pub closed spec fn view(&self) -> nat {
        limbs_value(self.digits@)
    }

    /// Zero.
    pub fn new() -> (r: BigNum)
        ensures
            r@ == 0,
    {
        BigNum { digits: Vec::new() }
    }

    /// The number `n`.
    pub fn from_usize(n: usize) -> (r: BigNum)
        ensures
            r@ == n as nat,
    {
        let mut digits: Vec<u32> = Vec::new();
        let mut m: u64 = n as u64;
        let ghost mut scale: nat = 1;
        let ghost mut done: nat = 0;
        while m > 0
            invariant
                n as nat == done + scale * (m as nat),
                limbs_value(digits@) == done,
                digits@.len() == 0 ==> scale == 1,
                scale == pow_limb(digits@.len()),
            decreases m,
        {
            let d = (m % 4294967296u64) as u32;
            proof {
                lemma_limbs_push(digits@, d);
                assert(scale * (m as nat) == scale * (m % 4294967296) as nat + scale * 4294967296 * ((m / 4294967296) as nat)) by (nonlinear_arith);
            }
            digits.push(d);
            proof {
                done = done + scale * (d as nat);
                scale = scale * 4294967296;
            }
            m = m / 4294967296u64;
        }
        BigNum { digits }
    }

    /// The number whose binary digits, most significant first, are `bits`
    /// (each 0 or 1).
    pub fn from_bits(bits: &Vec<u8>) -> (r: BigNum)
        requires
            forall|i: int| 0 <= i < bits@.len() ==> bits@[i] <= 1,
        ensures
            r@ == binary_value(bits@),
    {
        match big_from_binary(bits) {
            Some(d) => BigNum { digits: d },
            None => BigNum::new(),
        }
    }

    /// The binary digits, most significant first; `[0]` for zero.
    pub fn to_bits(&self) -> (r: Vec<u8>)
        ensures
            r@ == binary_digits(self@),
    {
        big_to_binary(&self.digits)
    }

    /// A copy of the number.
    pub fn copy(&self) -> (r: BigNum)
        ensures
            r@ == self@,
    {
        let mut d: Vec<u32> = Vec::new();
        let mut i: usize = 0;
        while i < self.digits.len()
            invariant
                i <= self.digits@.len(),
                d@ == self.digits@.subrange(0, i as int),
            decreases self.digits@.len() - i,
        {
            d.push(self.digits[i]);
            i += 1;
            assert(d@ =~= self.digits@.subrange(0, i as int));
        }
        assert(self.digits@.subrange(0, i as int) =~= self.digits@);
        BigNum { digits: d }
    }

    /// Appends a binary digit: the number becomes `2 * n + bit`.
    pub fn push_bit(&mut self, bit: u8)
        requires
            bit <= 1,
        ensures
            final(self)@ == 2 * old(self)@ + bit,
    {
        let two = BigNum::from_usize(2);
        let b = BigNum::from_usize(bit as usize);
        let ghost v = self@;
        let doubled = big_mul(&self.digits, &two.digits);
        assert(limbs_value(doubled@) == 2 * v) by (nonlinear_arith)
            requires
                limbs_value(doubled@) == v * 2,
        ;
        self.digits = big_add(&doubled, &b.digits);
    }

    /// Adds `other`.
    pub fn add(&mut self, other: &Self)
        ensures
            final(self)@ == old(self)@ + other@,
    {
        self.digits = big_add(&self.digits, &other.digits);
    }

    /// Subtracts `other`, which must not exceed the number.
    pub fn substract(&mut self, other: &Self)
        requires
            old(self)@ >= other@,
        ensures
            final(self)@ == old(self)@ - other@,
    {
        self.digits = big_sub(&self.digits, &other.digits);
    }

    /// Multiplies by `other`.
    pub fn multiply(&mut self, other: &Self)
        ensures
            final(self)@ == old(self)@ * other@,
    {
        self.digits = big_mul(&self.digits, &other.digits);
    }

    /// Divides by `other`, which must not be zero, rounding down.
    pub fn divide(&mut self, other: &Self)
        requires
            other@ > 0,
        ensures
            final(self)@ == old(self)@ / other@,
    {
        self.digits = big_div(&self.digits, &other.digits);
    }

    /// Whether the number is below `other`.
    pub fn lt(&self, other: &Self) -> (r: bool)
        ensures
            r == (self@ < other@),
    {
        big_lt(&self.digits, &other.digits)
    }

    /// Two to the power `n`.
    pub fn pow2(n: usize) -> (r: BigNum)
        ensures
            r@ == pow2(n as nat),
    {
        BigNum { digits: big_pow2(n) }
    }

    /// The number as a `usize`, when it fits.
    pub fn to_usize(&self) -> (r: Option<usize>)
        ensures
            match r {
                Some(v) => v as nat == self@,
                None => self@ > usize::MAX,
            },
    {
        let n = self.digits.len();
        let ghost d = self.digits@;
        let mut k: usize = n;
        let mut acc: u64 = 0;
        assert(d.subrange(0, n as int) =~= d);
        while k > 0
            invariant
                k <= n == d.len(),
                d == self.digits@,
                limbs_value(d) == limbs_value(d.subrange(0, k as int)) + pow_limb(k as nat) * (acc as nat),
            decreases k,
        {
            let x = self.digits[k - 1];
            let dv = x as u64;
            let ghost pre = d.subrange(0, k - 1);
            proof {
                assert(d.subrange(0, k as int) =~= pre.push(x));
                lemma_limbs_push(pre, x);
                lemma_pow_limb_succ((k - 1) as nat);
                assert(limbs_value(d) == limbs_value(pre) + pow_limb((k - 1) as nat) * (dv + 4294967296 * acc)) by (nonlinear_arith)
                    requires
                        limbs_value(d) == limbs_value(pre.push(x)) + pow_limb(k as nat) * (acc as nat),
                        limbs_value(pre.push(x)) == limbs_value(pre) + pow_limb((k - 1) as nat) * x,
                        pow_limb(k as nat) == pow_limb((k - 1) as nat) * 4294967296,
                        dv == x,
                ;
            }
            if acc > (u64::MAX - dv) / 4294967296u64 {
                proof {
                    assert(acc * 4294967296 + dv > u64::MAX) by (nonlinear_arith)
                        requires
                            acc > (u64::MAX - dv) / 4294967296,
                            dv <= u64::MAX,
                    ;
                    lemma_pow_limb_pos((k - 1) as nat);
                    assert(pow_limb((k - 1) as nat) * (dv + 4294967296 * acc) >= dv + 4294967296 * acc) by (nonlinear_arith)
                        requires
                            pow_limb((k - 1) as nat) >= 1,
                    ;
                }
                return None;
            }
            proof {
                assert(acc * 4294967296 + dv <= u64::MAX) by (nonlinear_arith)
                    requires
                        acc <= (u64::MAX - dv) / 4294967296,
                        dv <= u64::MAX,
                ;
            }
            acc = acc * 4294967296u64 + dv;
            k -= 1;
        }
        proof {
            assert(d.subrange(0, 0) =~= Seq::<u32>::empty());
            assert(limbs_value(Seq::<u32>::empty()) == 0);
            assert(pow_limb(0) == 1);
            assert(limbs_value(d) == 0 + 1 * (acc as nat));
            assert(self@ == acc as nat);
        }
        if acc > usize::MAX as u64 {
            return None;
        }
        Some(acc as usize)
    }
}

pub open spec fn pow_limb(k: nat) -> nat
    decreases k,
{
    if k == 0 {
        1
    } else {
        4294967296 * pow_limb((k - 1) as nat)
    }
}

proof fn lemma_pow_limb_succ(k: nat)
    ensures
        pow_limb(k + 1) == pow_limb(k) * 4294967296,
{
    assert(pow_limb(k + 1) == 4294967296 * pow_limb(k));
}

proof fn lemma_pow_limb_pos(k: nat)
    ensures
        pow_limb(k) >= 1,
    decreases k,
{
    if k > 0 {
        lemma_pow_limb_pos((k - 1) as nat);
    }
}

/// The value of `d` is that of its first `k` limbs plus the rest scaled.
proof fn lemma_limbs_split(d: Seq<u32>, k: nat)
    requires
        k <= d.len(),
    ensures
        limbs_value(d) == limbs_value(d.subrange(0, k as int)) + pow_limb(k) * limbs_value(
            d.subrange(k as int, d.len() as int),
        ),
    decreases k,
{
    if k == 0 {
        assert(d.subrange(0, 0) =~= Seq::<u32>::empty());
        assert(limbs_value(Seq::<u32>::empty()) == 0);
        assert(d.subrange(0, d.len() as int) =~= d);
        assert(pow_limb(0) == 1);
    } else {
        let t = d.drop_first();
        lemma_limbs_split(t, (k - 1) as nat);
        assert(t.subrange(0, k - 1) =~= d.subrange(0, k as int).drop_first());
        assert(t.subrange(k - 1, t.len() as int) =~= d.subrange(k as int, d.len() as int));
        let a = limbs_value(t.subrange(0, k - 1));
        let b = limbs_value(d.subrange(k as int, d.len() as int));
        let p = pow_limb((k - 1) as nat);
        assert(d.subrange(0, k as int)[0] == d[0]);
        assert(limbs_value(d.subrange(0, k as int)) == d[0] + 4294967296 * a);
        assert(limbs_value(t) == a + p * b);
        assert(limbs_value(d) == d[0] + 4294967296 * limbs_value(t));
        assert(pow_limb(k) == 4294967296 * p);
        assert(d[0] + 4294967296 * (a + p * b) == (d[0] + 4294967296 * a) + (4294967296 * p) * b) by (nonlinear_arith);
    }
}

proof fn lemma_limbs_push(d: Seq<u32>, x: u32)
    ensures
        limbs_value(d.push(x)) == limbs_value(d) + pow_limb(d.len()) * x,
{
    lemma_limbs_split(d.push(x), d.len());
    assert(d.push(x).subrange(0, d.len() as int) =~= d);
    let t = d.push(x).subrange(d.len() as int, (d.len() + 1) as int);
    assert(t =~= seq![x]);
    assert(t.drop_first() =~= Seq::<u32>::empty());
    assert(limbs_value(Seq::<u32>::empty()) == 0);
    assert(limbs_value(t) == x);
}

/// The value of decimal digits, most significant first.
pub open spec fn decimal_value(d: Seq<u8>) -> nat
    decreases d.len(),
{
    if d.len() == 0 {
        0
    } else {
        (10 * decimal_value(d.drop_last()) + d.last()) as nat
    }
}

pub open spec fn decimal_digits(d: Seq<u8>) -> bool {
    forall|i: int| 0 <= i < d.len() ==> d[i] < 10
}

pub open spec fn pow10(k: nat) -> nat
    decreases k,
{
    if k == 0 {
        1
    } else {
        10 * pow10((k - 1) as nat)
    }
}

proof fn lemma_decimal_concat(a: Seq<u8>, b: Seq<u8>)
    ensures
        decimal_value(a + b) == decimal_value(a) * pow10(b.len()) + decimal_value(b),
    decreases b.len(),
{
    if b.len() == 0 {
        assert(a + b =~= a);
        assert(pow10(0) == 1);
    } else {
        lemma_decimal_concat(a, b.drop_last());
        assert((a + b).drop_last() =~= a + b.drop_last());
        assert((a + b).last() == b.last());
        let va = decimal_value(a);
        let p = pow10((b.len() - 1) as nat);
        let vb = decimal_value(b.drop_last());
        assert(pow10(b.len()) == 10 * p);
        assert(10 * (va * p + vb) + b.last() == va * (10 * p) + (10 * vb + b.last())) by (nonlinear_arith);
    }
}

proof fn lemma_decimal_split(d: Seq<u8>, i: int)
    requires
        0 <= i <= d.len(),
    ensures
        decimal_value(d) == decimal_value(d.subrange(0, i)) * pow10((d.len() - i) as nat) + decimal_value(d.subrange(i, d.len() as int)),
{
    assert(d.subrange(0, i) + d.subrange(i, d.len() as int) =~= d);
    lemma_decimal_concat(d.subrange(0, i), d.subrange(i, d.len() as int));
}

/// A number written in decimal digits, most significant first.
pub struct DecimalNum {
    pub digits: Vec<u8>,
}

impl DecimalNum {
    /// No digits yet.
    pub fn new() -> (r: DecimalNum)
        ensures
            r.digits@ == Seq::<u8>::empty(),
    {
        DecimalNum { digits: Vec::new() }
    }

    /// No digits yet, with room for `capacity`.
    pub fn with_capacity(capacity: usize) -> (r: DecimalNum)
        ensures
            r.digits@ == Seq::<u8>::empty(),
    {
        DecimalNum { digits: Vec::with_capacity(capacity) }
    }

    /// Doubles the number, keeping a leading digit of at most 1.
    fn multiply_by_two(&mut self)
        requires
            decimal_digits(old(self).digits@),
        ensures
            decimal_digits(final(self).digits@),
            decimal_value(final(self).digits@) == 2 * decimal_value(old(self).digits@),
            final(self).digits@.len() >= 1,
            final(self).digits@[0] <= 1,
    {
        if self.digits.len() == 0 || self.digits[0] != 0 {
            let ghost before = self.digits@;
            self.digits.insert(0, 0);
            proof {
                assert(self.digits@ =~= seq![0u8] + before);
                lemma_decimal_concat(seq![0u8], before);
                assert(decimal_value(seq![0u8]) == 0) by {
                    assert(seq![0u8].drop_last() =~= Seq::<u8>::empty());
                    assert(decimal_value(Seq::<u8>::empty()) == 0);
                }
                lemma_pow10_pos(before.len());
                assert(0 * pow10(before.len()) == 0);
            }
        }
        assert(decimal_value(self.digits@) == decimal_value(old(self).digits@));
        let ghost o = self.digits@;
        let n = self.digits.len();
        let mut carry: u8 = 0;
        let mut i: usize = n;
        proof {
            assert(o.subrange(n as int, n as int) =~= Seq::<u8>::empty());
            assert(o.subrange(0, n as int) =~= o);
            assert(pow10(0) == 1);
            assert(decimal_value(Seq::<u8>::empty()) == 0);
            assert(self.digits@.subrange(n as int, n as int) =~= Seq::<u8>::empty());
            assert((2 * decimal_value(o) + 0) * 1 + 0 == 2 * decimal_value(o));
        }
        while i > 0
            invariant
                n == o.len() == self.digits@.len(),
                n >= 1,
                o[0] == 0,
                decimal_digits(o),
                i <= n,
                carry <= 1,
                forall|j: int| 0 <= j < i ==> self.digits@[j] == o[j],
                decimal_digits(self.digits@),
                i == 0 ==> carry == 0 && self.digits@[0] <= 1,
                2 * decimal_value(o) == (2 * decimal_value(o.subrange(0, i as int)) + carry) * pow10((n - i) as nat)
                    + decimal_value(self.digits@.subrange(i as int, n as int)),
            decreases i,
        {
            let ghost prev = self.digits@;
            let t = self.digits[i - 1] * 2 + carry;
            self.digits.set(i - 1, t % 10);
            proof {
                let a = o.subrange(0, i - 1);
                assert(o.subrange(0, i as int) =~= a.push(o[i - 1]));
                assert(decimal_value(a.push(o[i - 1])) == 10 * decimal_value(a) + o[i - 1]) by {
                    assert(a.push(o[i - 1]).drop_last() =~= a);
                }
                let tail = prev.subrange(i as int, n as int);
                assert(self.digits@.subrange(i - 1, n as int) =~= seq![(t % 10) as u8] + tail);
                lemma_decimal_concat(seq![(t % 10) as u8], tail);
                assert(decimal_value(seq![(t % 10) as u8]) == t % 10) by {
                    assert(seq![(t % 10) as u8].drop_last() =~= Seq::<u8>::empty());
                    assert(decimal_value(Seq::<u8>::empty()) == 0);
                }
                let k = (n - i) as nat;
                assert(pow10(k + 1) == 10 * pow10(k));
                let va = decimal_value(a);
                assert((2 * (10 * va + o[i - 1]) + carry) * pow10(k) == (2 * va + t / 10) * pow10(k + 1) + (t % 10) * pow10(k)) by (nonlinear_arith)
                    requires
                        t == o[i - 1] * 2 + carry,
                        pow10(k + 1) == 10 * pow10(k),
                ;
            }
            carry = t / 10;
            i -= 1;
        }
        proof {
            assert(self.digits@.subrange(0, n as int) =~= self.digits@);
            assert(o.subrange(0, 0) =~= Seq::<u8>::empty());
            assert(decimal_value(Seq::<u8>::empty()) == 0);
            assert((2 * 0 + 0) * pow10(n as nat) == 0) by (nonlinear_arith);
        }
    }
}

impl DecimalNum {
    /// Adds a bit to the number, whose leading digit is at most 1.
    fn add_bit(&mut self, bit: u8)
        requires
            bit <= 1,
            decimal_digits(old(self).digits@),
            old(self).digits@.len() >= 1,
            old(self).digits@[0] <= 1,
        ensures
            decimal_digits(final(self).digits@),
            decimal_value(final(self).digits@) == decimal_value(old(self).digits@) + bit,
            final(self).digits@.len() == old(self).digits@.len(),
    {
        let ghost o = self.digits@;
        let n = self.digits.len();
        let mut carry: u8 = bit;
        let mut i: usize = n;
        proof {
            assert(o.subrange(n as int, n as int) =~= Seq::<u8>::empty());
            assert(o.subrange(0, n as int) =~= o);
            assert(pow10(0) == 1);
            assert(decimal_value(Seq::<u8>::empty()) == 0);
            assert((decimal_value(o) + bit) * 1 + 0 == decimal_value(o) + bit);
        }
        while i > 0
            invariant
                n == o.len() == self.digits@.len(),
                n >= 1,
                o[0] <= 1,
                decimal_digits(o),
                i <= n,
                carry <= 1,
                forall|j: int| 0 <= j < i ==> self.digits@[j] == o[j],
                decimal_digits(self.digits@),
                i == 0 ==> carry == 0,
                decimal_value(o) + bit == (decimal_value(o.subrange(0, i as int)) + carry) * pow10((n - i) as nat)
                    + decimal_value(self.digits@.subrange(i as int, n as int)),
            ensures
                carry == 0,
                i <= n == self.digits@.len(),
                forall|j: int| 0 <= j < i ==> self.digits@[j] == o[j],
                decimal_digits(self.digits@),
                decimal_value(o) + bit == (decimal_value(o.subrange(0, i as int)) + carry) * pow10((n - i) as nat)
                    + decimal_value(self.digits@.subrange(i as int, n as int)),
            decreases i,
        {
            if carry == 0 {
                break;
            }
            let ghost prev = self.digits@;
            let t = self.digits[i - 1] + carry;
            self.digits.set(i - 1, t % 10);
            proof {
                let a = o.subrange(0, i - 1);
                assert(o.subrange(0, i as int) =~= a.push(o[i - 1]));
                assert(decimal_value(a.push(o[i - 1])) == 10 * decimal_value(a) + o[i - 1]) by {
                    assert(a.push(o[i - 1]).drop_last() =~= a);
                }
                let tail = prev.subrange(i as int, n as int);
                assert(self.digits@.subrange(i - 1, n as int) =~= seq![(t % 10) as u8] + tail);
                lemma_decimal_concat(seq![(t % 10) as u8], tail);
                assert(decimal_value(seq![(t % 10) as u8]) == t % 10) by {
                    assert(seq![(t % 10) as u8].drop_last() =~= Seq::<u8>::empty());
                    assert(decimal_value(Seq::<u8>::empty()) == 0);
                }
                let k = (n - i) as nat;
                assert(pow10(k + 1) == 10 * pow10(k));
                let va = decimal_value(a);
                assert(((10 * va + o[i - 1]) + carry) * pow10(k) == (va + t / 10) * pow10(k + 1) + (t % 10) * pow10(k)) by (nonlinear_arith)
                    requires
                        t == o[i - 1] + carry,
                        pow10(k + 1) == 10 * pow10(k),
                ;
            }
            carry = t / 10;
            i -= 1;
        }
        proof {
            assert(carry == 0);
            lemma_decimal_split(self.digits@, i as int);
            assert(self.digits@.subrange(0, i as int) =~= o.subrange(0, i as int));
            assert((decimal_value(o.subrange(0, i as int)) + 0) * pow10((n - i) as nat) == decimal_value(o.subrange(0, i as int)) * pow10((n - i) as nat));
            assert(decimal_value(self.digits@) == decimal_value(o) + bit);
        }
    }

    /// The decimal digits, most significant first, of the number whose
    /// binary digits are `bits`; no digits for no bits.
    pub fn from_bits(bits: &Vec<u8>) -> (r: DecimalNum)
        requires
            forall|i: int| 0 <= i < bits@.len() ==> bits@[i] <= 1,
        ensures
            decimal_digits(r.digits@),
            decimal_value(r.digits@) == binary_value(bits@),
            bits@.len() == 0 ==> r.digits@.len() == 0,
            bits@.len() > 0 ==> r.digits@.len() >= 1 && (r.digits@.len() == 1 || r.digits@[0] != 0),
    {
        let bin_length = bits.len();
        let num_digit = (bin_length / 2) + (bin_length % 2);
        let mut decimal_num = DecimalNum::with_capacity(num_digit);
        let mut i: usize = 0;
        proof {
            assert(bits@.subrange(0, 0) =~= Seq::<u8>::empty());
            assert(decimal_value(Seq::<u8>::empty()) == 0);
        }
        while i < bits.len()
            invariant
                i <= bits@.len(),
                forall|j: int| 0 <= j < bits@.len() ==> bits@[j] <= 1,
                decimal_digits(decimal_num.digits@),
                decimal_value(decimal_num.digits@) == binary_value(bits@.subrange(0, i as int)),
                i == 0 ==> decimal_num.digits@.len() == 0,
                i > 0 ==> decimal_num.digits@.len() >= 1,
            decreases bits@.len() - i,
        {
            let bit = bits[i];
            decimal_num.multiply_by_two();
            decimal_num.add_bit(bit);
            i += 1;
            proof {
                assert(bits@.subrange(0, i as int).drop_last() =~= bits@.subrange(0, i - 1));
            }
        }
        assert(bits@.subrange(0, i as int) =~= bits@);
        while decimal_num.digits.len() > 1 && decimal_num.digits[0] == 0
            invariant
                decimal_digits(decimal_num.digits@),
                decimal_value(decimal_num.digits@) == binary_value(bits@),
                bits@.len() == 0 ==> decimal_num.digits@.len() == 0,
                bits@.len() > 0 ==> decimal_num.digits@.len() >= 1,
            decreases decimal_num.digits@.len(),
        {
            let ghost before = decimal_num.digits@;
            decimal_num.digits.remove(0);
            proof {
                assert(before =~= seq![0u8] + decimal_num.digits@);
                lemma_decimal_concat(seq![0u8], decimal_num.digits@);
                assert(decimal_value(seq![0u8]) == 0) by {
                    assert(seq![0u8].drop_last() =~= Seq::<u8>::empty());
                    assert(decimal_value(Seq::<u8>::empty()) == 0);
                }
                assert(0 * pow10(decimal_num.digits@.len()) == 0);
            }
        }
        decimal_num
    }
}

proof fn lemma_pow10_pos(k: nat)
    ensures
        pow10(k) >= 1,
    decreases k,
{
    if k > 0 {
        lemma_pow10_pos((k - 1) as nat);
    }
}

} // verus!
