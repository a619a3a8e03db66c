//! A bounded FIFO of bits: whole bytes go in at the tail, bits come out at
//! the head, least significant first.

use crate::bits::{bytes_value, lemma_div_pow2_bound, lemma_pow2_120, lemma_pow2_le, pow2_u128};
use vstd::arithmetic::div_mod::*;
use vstd::arithmetic::mul::*;
use vstd::arithmetic::power2::*;
use vstd::prelude::*;

verus! {

/// Capacity of the buffer in bits: fifteen bytes.
pub const BUFFER_CAPACITY_BITS: usize = 120;

/// Bit `i` of the buffer is bit `i` of `buffer`; the bits from
/// `buffer_end_bit` up are zero.
pub struct DeserializationBuffer {
    buffer: u128,
    buffer_end_bit: usize,
}

impl DeserializationBuffer {
    /// The bits held, as a number: the head bit is bit 0.
    pub closed spec fn value(&self) -> nat {
        self.buffer as nat
    }

    /// The number of bits held.
    pub closed spec fn len(&self) -> nat {
        self.buffer_end_bit as nat
    }

    pub open spec fn wf(&self) -> bool {
        &&& self.len() <= BUFFER_CAPACITY_BITS
        &&& self.value() < pow2(self.len())
    }

    pub fn new() -> (r: Self)
        ensures
            r.wf(),
            r.len() == 0,
            r.value() == 0,
    {
        proof {
            lemma2_to64();
        }
        DeserializationBuffer { buffer: 0, buffer_end_bit: 0 }
    }

    pub fn bit_length(&self) -> (r: usize)
        ensures
            r as nat == self.len(),
    {
        self.buffer_end_bit
    }

    /// Removes the `bit_length` bits at the head and returns them right-aligned.
    pub fn pop_bits(&mut self, bit_length: usize) -> (r: u64)
        requires
            old(self).wf(),
            bit_length <= 64,
            bit_length as nat <= old(self).len(),
        ensures
            final(self).wf(),
            r as nat == old(self).value() % pow2(bit_length as nat),
            final(self).value() == old(self).value() / pow2(bit_length as nat),
            final(self).len() == old(self).len() - bit_length,
    {
        let p = pow2_u128(bit_length);
        proof {
            lemma_pow2_le(bit_length as nat, 64);
            lemma_pow2_120();
            lemma_pow2_pos(bit_length as nat);
            lemma_mod_bound(self.buffer as int, p as int);
            lemma_div_pow2_bound(
                self.buffer as nat,
                (self.buffer_end_bit - bit_length) as nat,
                bit_length as nat,
            );
        }
        let bits = (self.buffer % p) as u64;
        self.buffer = self.buffer / p;
        self.buffer_end_bit = self.buffer_end_bit - bit_length;
        bits
    }

    /// Appends the `bit_length` bits of `bits` at the tail.
    pub fn append_bits(&mut self, bits: u64, bit_length: usize)
        requires
            old(self).wf(),
            old(self).len() + bit_length <= BUFFER_CAPACITY_BITS,
            (bits as nat) < pow2(bit_length as nat),
        ensures
            final(self).wf(),
            final(self).len() == old(self).len() + bit_length,
            final(self).value() == old(self).value() + (bits as nat) * pow2(old(self).len()),
    {
        let p = pow2_u128(self.buffer_end_bit);
        proof {
            let e = self.buffer_end_bit as nat;
            let n = bit_length as nat;
            lemma_pow2_adds(n, e);
            lemma_pow2_le(e + n, 120);
            lemma_pow2_120();
            let v = self.buffer as int;
            let b = bits as int;
            assert(v + b * p < pow2(n) * p) by (nonlinear_arith)
                requires
                    0 <= v < p,
                    0 <= b < pow2(n),
            ;
        }
        self.buffer = self.buffer + (bits as u128) * p;
        self.buffer_end_bit = self.buffer_end_bit + bit_length;
    }

    /// Appends one byte at the tail.
    pub fn push_byte(&mut self, byte: u8)
        requires
            old(self).wf(),
            old(self).len() + 8 <= BUFFER_CAPACITY_BITS,
        ensures
            final(self).wf(),
            final(self).len() == old(self).len() + 8,
            final(self).value() == old(self).value() + (byte as nat) * pow2(old(self).len()),
    {
        let p = pow2_u128(self.buffer_end_bit);
        proof {
            let e = self.buffer_end_bit as nat;
            lemma_pow2_adds(8, e);
            lemma2_to64();
            lemma_pow2_le(e + 8, 120);
            lemma_pow2_120();
            lemma_mul_inequality(byte as int, 255, p as int);
            lemma_mul_is_commutative(byte as int, p as int);
        }
        self.buffer = self.buffer + (byte as u128) * p;
        self.buffer_end_bit = self.buffer_end_bit + 8;
    }

    /// Appends whole bytes at the tail.
    pub fn push(&mut self, tail: &[u8])
        requires
            old(self).wf(),
            old(self).len() + 8 * tail@.len() <= BUFFER_CAPACITY_BITS,
        ensures
            final(self).wf(),
            final(self).len() == old(self).len() + 8 * tail@.len(),
            final(self).value() == old(self).value() + bytes_value(tail@) * pow2(old(self).len()),
    {
        let ghost v0 = self.value();
        let ghost l0 = self.len();
        let mut i: usize = 0;
        proof {
            assert(tail@.take(0) =~= Seq::<u8>::empty());
            assert(bytes_value(tail@.take(0)) == 0);
        }
        while i < tail.len()
            invariant
                i <= tail@.len(),
                self.wf(),
                l0 + 8 * tail@.len() <= BUFFER_CAPACITY_BITS,
                self.len() == l0 + 8 * i,
                self.value() == v0 + bytes_value(tail@.take(i as int)) * pow2(l0),
            decreases tail@.len() - i,
        {
            let byte = tail[i];
            proof {
                let t = tail@.take(i + 1);
                assert(t.drop_last() =~= tail@.take(i as int));
                assert(bytes_value(t) == bytes_value(tail@.take(i as int)) + (byte as nat) * pow2(
                    (8 * i) as nat,
                ));
                lemma_pow2_adds((8 * i) as nat, l0);
                assert((8 * i) as nat + l0 == self.len());
                lemma_mul_is_associative(byte as int, pow2((8 * i) as nat) as int, pow2(l0) as int);
                lemma_mul_is_distributive_add_other_way(
                    pow2(l0) as int,
                    bytes_value(tail@.take(i as int)) as int,
                    (byte as nat * pow2((8 * i) as nat)) as int,
                );
            }
            self.push_byte(byte);
            i = i + 1;
        }
        proof {
            assert(tail@.take(i as int) =~= tail@);
        }
    }
}

} // verus!
