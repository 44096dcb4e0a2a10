//! Bit-level primitives: a buffer that packs bits MSB-first into bytes, and
//! the deferred-output bit queue of the arithmetic coder.
use vstd::prelude::*;

verus! {

/// One bit.
#[derive(Debug, Clone, Copy, PartialEq, Eq, Structural)]
pub enum Bit {
    ZERO,
    ONE,
}

impl Bit {
    pub open spec fn is_one(self) -> bool {
        self == Bit::ONE
    }
}

/// Whether bit `pos` (0 = least significant) of `b` is set.
pub open spec fn bit_at(b: u8, pos: u8) -> bool {
    (b >> pos) & 1u8 == 1u8
}

/// Bit `i` of the MSB-first bit string packed in `bytes`.
pub open spec fn get_bit(bytes: Seq<u8>, i: int) -> bool {
    bit_at(bytes[i / 8], (7 - i % 8) as u8)
}

/// `bytes` is `bits` packed MSB-first, with as few bytes as possible and the
/// padding bits of the last byte zero.
pub open spec fn packs(bytes: Seq<u8>, bits: Seq<bool>) -> bool {
    &&& bytes.len() == (bits.len() + 7) / 8
    &&& forall|i: int| 0 <= i < bits.len() ==> get_bit(bytes, i) == bits[i]
    &&& forall|i: int| bits.len() <= i < 8 * bytes.len() ==> !get_bit(bytes, i)
}

/// The first `n` bits packed in `bytes`.
pub open spec fn bits_of(bytes: Seq<u8>, n: nat) -> Seq<bool> {
    Seq::new(n, |i: int| get_bit(bytes, i))
}

proof fn lemma_set_bit(b: u8, k: u8, j: u8)
    requires
        k < 8,
        j < 8,
    ensures
        bit_at(b | (1u8 << k), j) == (j == k || bit_at(b, j)),
{
    assert(((b | (1u8 << k)) >> j) & 1u8 == 1u8 <==> (j == k || (b >> j) & 1u8 == 1u8))
        by (bit_vector)
        requires
            k < 8u8,
            j < 8u8,
    ;
}

proof fn lemma_zero_byte(j: u8)
    requires
        j < 8,
    ensures
        !bit_at(0u8, j),
{
    assert((0u8 >> j) & 1u8 == 0u8) by (bit_vector);
}

/// An append-only sequence of bits packed MSB-first into bytes.
pub struct CompressedBuffer {
    /// The packed bytes.
    pub buffer: Vec<u8>,
    /// Position (7 = most significant) of the next bit in the last byte; 7
    /// when the last byte is full.
    current_bit_index: u8,
}

impl CompressedBuffer {
    pub closed spec fn bit_count(&self) -> nat {
        if self.current_bit_index == 7 {
            8 * self.buffer@.len()
        } else {
            (8 * self.buffer@.len() - 1 - self.current_bit_index) as nat
        }
    }

    /// The bits written so far.
    pub closed spec fn view(&self) -> Seq<bool> {
        bits_of(self.buffer@, self.bit_count())
    }

    pub closed spec fn wf(&self) -> bool {
        &&& self.current_bit_index <= 7
        &&& self.buffer@.len() == 0 ==> self.current_bit_index == 7
        &&& forall|i: int|
            self.bit_count() <= i < 8 * self.buffer@.len() ==> !get_bit(self.buffer@, i)
    }

    pub fn new() -> (r: Self)
        ensures
            r.wf(),
            r@ == Seq::<bool>::empty(),
    {
        let r = CompressedBuffer { buffer: Vec::new(), current_bit_index: 7 };
        assert(r@ =~= Seq::<bool>::empty());
        r
    }

    /// Appends one bit.
    pub fn push_bit(&mut self, bit: Bit)
        requires
            old(self).wf(),
        ensures
            final(self).wf(),
            final(self)@ == old(self)@.push(bit.is_one()),
    {
        let ghost old_bytes = self.buffer@;
        let ghost n = self.bit_count();
        if self.current_bit_index == 7 {
            self.buffer.push(0);
            proof {
                assert forall|i: int| 8 * old_bytes.len() <= i < 8 * self.buffer@.len() implies !get_bit(
                    self.buffer@,
                    i,
                ) by {
                    assert(i / 8 == old_bytes.len());
                    lemma_zero_byte((7 - i % 8) as u8);
                }
            }
        }
        let ghost mid = self.buffer@;
        let last = self.buffer.len() - 1;
        let k = self.current_bit_index;
        proof {
            assert(n == 8 * (mid.len() - 1) + (7 - k));
            assert forall|i: int| 0 <= i < n implies get_bit(mid, i) == get_bit(old_bytes, i) by {
                assert(i / 8 < old_bytes.len());
                assert(mid[i / 8] == old_bytes[i / 8]);
            }
            assert forall|i: int| n <= i < 8 * mid.len() implies !get_bit(mid, i) by {
                if i < 8 * old_bytes.len() {
                    assert(mid[i / 8] == old_bytes[i / 8]);
                }
            }
        }
        let one = match bit {
            Bit::ONE => true,
            Bit::ZERO => false,
        };
        assert(one == bit.is_one());
        if one {
            let b = self.buffer[last];
            self.buffer.set(last, b | (1u8 << k));
        }
        proof {
            assert forall|i: int| 0 <= i < 8 * mid.len() implies get_bit(self.buffer@, i) == (
            get_bit(mid, i) || (i == n && one)) by {
                if one && i / 8 == last {
                    lemma_set_bit(mid[last as int], k, (7 - i % 8) as u8);
                } else {
                    assert(self.buffer@[i / 8] == mid[i / 8]);
                }
            }
        }
        self.current_bit_index = if self.current_bit_index == 0 {
            7
        } else {
            self.current_bit_index - 1
        };
        proof {
            assert(self.bit_count() == n + 1);
            assert(self.buffer@.len() == mid.len());
            assert(!get_bit(mid, n as int));
            assert forall|i: int| n + 1 <= i < 8 * self.buffer@.len() implies !get_bit(
                self.buffer@,
                i,
            ) by {
                assert(get_bit(self.buffer@, i) == get_bit(mid, i));
            }
            assert forall|i: int| 0 <= i < n + 1 implies self@[i] == old(self)@.push(one)[i] by {
                assert(self@[i] == get_bit(self.buffer@, i));
                if i < n {
                    assert(old(self)@[i] == get_bit(old_bytes, i));
                }
            }
            assert(self@ =~= old(self)@.push(bit.is_one()));
        }
    }

    /// The packed bytes.
    pub fn get_buffer(&self) -> (r: Vec<u8>)
        requires
            self.wf(),
        ensures
            packs(r@, self@),
    {
        self.buffer.clone()
    }

    /// Position, counted from the most significant side, of the last written
    /// bit inside the last byte.
    pub fn get_current_bit_index(&self) -> (r: u8)
        requires
            self.wf(),
        ensures
            r as nat == (self@.len() + 7) % 8,
    {
        if self.current_bit_index == 7 {
            7
        } else {
            6 - self.current_bit_index
        }
    }
}

/// Counter of the opposite bits that the arithmetic coder still owes.
pub struct BitQueue {
    bits_to_follow: usize,
}

impl BitQueue {
    pub closed spec fn pending(&self) -> nat {
        self.bits_to_follow as nat
    }

    pub fn new() -> (r: Self)
        ensures
            r.pending() == 0,
    {
        BitQueue { bits_to_follow: 0 }
    }

    /// Number of opposite bits owed.
    pub fn pending_count(&self) -> (r: usize)
        ensures
            r as nat == self.pending(),
    {
        self.bits_to_follow
    }

    /// Owes `rhs` more opposite bits.
    pub fn add_assign(&mut self, rhs: usize)
        requires
            old(self).pending() + rhs <= usize::MAX,
        ensures
            final(self).pending() == old(self).pending() + rhs,
    {
        self.bits_to_follow += rhs;
    }

    /// Returns `bit` followed by the owed opposite bits, and clears the debt.
    pub fn bit_followed_by_inverted(&mut self, bit: u8) -> (r: Vec<u8>)
        requires
            bit <= 1,
        ensures
            r@ == seq![bit] + Seq::new(old(self).pending(), |i: int| (1 - bit) as u8),
            final(self).pending() == 0,
    {
        let mut bits: Vec<u8> = Vec::new();
        bits.push(bit);
        let inverted: u8 = 1 - bit;
        let mut i: usize = 0;
        while i < self.bits_to_follow
            invariant
                i <= self.bits_to_follow,
                bits@ == seq![bit] + Seq::new(i as nat, |j: int| (1 - bit) as u8),
                inverted == 1 - bit,
            decreases self.bits_to_follow - i,
        {
            bits.push(inverted);
            i += 1;
            assert(bits@ =~= seq![bit] + Seq::new(i as nat, |j: int| (1 - bit) as u8));
        }
        self.bits_to_follow = 0;
        bits
    }
}

} // verus!
