//! Decoding of one primitive field, resumable at any bit of it.

use crate::bits::{bit_range, lemma_div_pow2_twice, lemma_pow2_le, pow2_u128};
use crate::buffer::DeserializationBuffer;
use vstd::arithmetic::div_mod::*;
use vstd::arithmetic::mul::*;
use vstd::arithmetic::power2::*;
use vstd::prelude::*;

verus! {

/// How far a field got: `Finished` with the bits taken, or
/// `BufferInsufficient` with the bits taken before the buffer ran dry.
/// `LengthOverflow` ends the transfer.
#[derive(Debug, Clone, Copy, PartialEq, Eq, Structural)]
pub enum DeserializationResult {
    Finished(usize),
    BufferInsufficient(usize),
    /// A dynamic array's length field holds more than its capacity.
    LengthOverflow,
}

/// A field that takes its bits from the head of a buffer, from bit
/// `start_bit` of the field on. A field is taken whole or not at all.
pub trait Deserialize {
    /// The width of the field in bits.
    spec fn bit_len(&self) -> nat;

    /// The field's bits as a number.
    spec fn bits_value(&self) -> nat;

    fn deserialize(&mut self, start_bit: usize, buffer: &mut DeserializationBuffer) -> (r:
        DeserializationResult)
        requires
            old(buffer).wf(),
            start_bit < old(self).bit_len(),
            old(self).bit_len() <= 64,
        ensures
            final(buffer).wf(),
            final(self).bit_len() == old(self).bit_len(),
            old(buffer).len() + start_bit < old(self).bit_len() ==> {
                &&& r == DeserializationResult::BufferInsufficient(0)
                &&& *final(buffer) == *old(buffer)
                &&& final(self).bits_value() == old(self).bits_value()
            },
            old(buffer).len() + start_bit >= old(self).bit_len() ==> {
                let taken = (old(self).bit_len() - start_bit) as nat;
                &&& r == DeserializationResult::Finished(taken as usize)
                &&& final(buffer).len() == old(buffer).len() - taken
                &&& final(buffer).value() == old(buffer).value() / pow2(taken)
                &&& final(self).bits_value() == old(self).bits_value() % pow2(start_bit as nat)
                    + (old(buffer).value() % pow2(taken)) * pow2(start_bit as nat)
            },
    ;
}

/// An unsigned field of `bit_length` bits, held right-aligned in `bits`.
#[derive(Debug, Clone, Copy, PartialEq, Eq, Structural)]
pub struct PrimitiveField {
    pub bit_length: u8,
    pub bits: u64,
}

impl PrimitiveField {
    /// The field read as a two's-complement integer of `bit_length` bits,
    /// sign-extended.
    pub fn as_signed(&self) -> (r: i64)
        requires
            1 <= self.bit_length <= 64,
            (self.bits as nat) < pow2(self.bit_length as nat),
        ensures
            r == if (self.bits as nat) < pow2((self.bit_length - 1) as nat) {
                self.bits as int
            } else {
                self.bits as int - pow2(self.bit_length as nat)
            },
    {
        let w = self.bit_length as usize;
        let half = pow2_u128(w - 1);
        let full = pow2_u128(w);
        proof {
            lemma_pow2_unfold(w as nat);
            lemma_pow2_le((w - 1) as nat, 63);
            lemma2_to64();
            lemma2_to64_rest();
        }
        if (self.bits as u128) < half {
            self.bits as i64
        } else {
            let magnitude_less_one = (full - self.bits as u128 - 1) as i64;
            -magnitude_less_one - 1
        }
    }
}

impl Deserialize for PrimitiveField {
    open spec fn bit_len(&self) -> nat {
        self.bit_length as nat
    }

    open spec fn bits_value(&self) -> nat {
        self.bits as nat
    }

    fn deserialize(&mut self, start_bit: usize, buffer: &mut DeserializationBuffer) -> (r:
        DeserializationResult) {
        let len = self.bit_length as usize;
        if buffer.bit_length() + start_bit < len {
            DeserializationResult::BufferInsufficient(0)
        } else {
            let taken = len - start_bit;
            let popped = buffer.pop_bits(taken);
            let p = pow2_u128(start_bit);
            proof {
                lemma_pow2_strictly_increases(start_bit as nat, 64);
                lemma_pow2_le(len as nat, 64);
                lemma2_to64();
                lemma_pow2_adds(taken as nat, start_bit as nat);
                lemma_pow2_pos(start_bit as nat);
                lemma_pow2_pos(taken as nat);
                let low = self.bits as int % p as int;
                assert(low + (popped as int) * (p as int) < pow2(len as nat)) by (nonlinear_arith)
                    requires
                        0 <= low < p,
                        0 <= popped < pow2(taken as nat),
                        pow2(len as nat) == pow2(taken as nat) * p,
                ;
            }
            let q = p as u64;
            assert(q == p);
            self.bits = self.bits % q + popped * q;
            DeserializationResult::Finished(taken)
        }
    }
}

/// The length field of a dynamic array: `bit_length` bits, low bit first.
#[derive(Debug, Clone, Copy, PartialEq, Eq, Structural)]
pub struct DynamicArrayLength {
    pub bit_length: u8,
    pub current_length: u64,
}

impl Deserialize for DynamicArrayLength {
    open spec fn bit_len(&self) -> nat {
        self.bit_length as nat
    }

    open spec fn bits_value(&self) -> nat {
        self.current_length as nat
    }

    fn deserialize(&mut self, start_bit: usize, buffer: &mut DeserializationBuffer) -> (r:
        DeserializationResult) {
        let mut field = PrimitiveField { bit_length: self.bit_length, bits: self.current_length };
        let r = field.deserialize(start_bit, buffer);
        self.current_length = field.bits;
        r
    }
}

/// The bits that a result says were taken.
pub open spec fn taken(r: DeserializationResult) -> int {
    match r {
        DeserializationResult::Finished(c) => c as int,
        DeserializationResult::BufferInsufficient(c) => c as int,
        DeserializationResult::LengthOverflow => 0,
    }
}

/// An array of up to `elements.len()` elements of `element_bit_length` bits
/// each, of which the first `length.current_length` are valid. On the wire: the
/// length field, then the valid elements in order.
pub struct DynamicArray {
    pub length: DynamicArrayLength,
    pub element_bit_length: u8,
    pub elements: Vec<PrimitiveField>,
}

impl DynamicArray {
    pub open spec fn wf(&self) -> bool {
        &&& 1 <= self.length.bit_length <= 64
        &&& 1 <= self.element_bit_length <= 64
        &&& forall|i: int|
            0 <= i < self.elements@.len() ==> (#[trigger] self.elements@[i]).bit_length
                == self.element_bit_length
    }

    /// The bit length of the array on the wire.
    pub open spec fn wire_bits(&self) -> nat {
        self.length.bit_length as nat + (self.length.current_length as nat)
            * self.element_bit_length as nat
    }

    /// Where element `i` starts on the wire.
    pub open spec fn element_start(&self, i: int) -> int {
        self.length.bit_length as int + i * self.element_bit_length as int
    }

    /// The least bit length of the array on the wire: its length field, when
    /// no element is valid.
    pub fn bit_length_min(&self) -> (r: usize)
        ensures
            r == self.length.bit_length,
    {
        self.length.bit_length as usize
    }

    /// The first element that a call from `start_bit` takes.
    pub open spec fn first_element(&self, start_bit: int) -> int {
        if start_bit < self.length.bit_length {
            0
        } else {
            (start_bit - self.length.bit_length) / (self.element_bit_length as int)
        }
    }

    /// One past the last element that a call from `start_bit` took, when it
    /// took `taken` bits.
    pub open spec fn end_element(&self, start_bit: int, taken: int) -> int {
        (start_bit + taken - self.length.bit_length) / (self.element_bit_length as int)
    }

    /// Takes the array's bits from the head of `buffer`, resuming at bit
    /// `start_bit` of its encoding: first the length field, then the valid
    /// elements, each whole or not at all. Since the length field and every
    /// element are taken whole, a call only ever pauses at bit 0 or at the
    /// start of an element, so those are the points it resumes from.
    pub fn deserialize(&mut self, start_bit: usize, buffer: &mut DeserializationBuffer) -> (r:
        DeserializationResult)
        requires
            old(self).wf(),
            old(buffer).wf(),
            old(self).length.current_length <= old(self).elements@.len(),
            start_bit == 0 || (old(self).length.bit_length <= start_bit <= old(self).wire_bits()
                && (start_bit - old(self).length.bit_length) % (old(
                self,
            ).element_bit_length as int) == 0),
        ensures
            final(self).wf(),
            final(buffer).wf(),
            final(self).length.bit_length == old(self).length.bit_length,
            final(self).element_bit_length == old(self).element_bit_length,
            final(self).elements@.len() == old(self).elements@.len(),
            r is LengthOverflow <==> (start_bit < old(self).length.bit_length && old(buffer).len()
                >= old(self).length.bit_length - start_bit && final(self).length.current_length
                > old(self).elements@.len()),
            start_bit < old(self).length.bit_length && old(buffer).len() >= old(
                self,
            ).length.bit_length - start_bit ==> final(self).length.current_length as nat
                == bit_range(old(buffer).value(), 0, old(self).length.bit_length as nat),
            start_bit < old(self).length.bit_length && old(buffer).len() < old(
                self,
            ).length.bit_length - start_bit ==> r == DeserializationResult::BufferInsufficient(0),
            start_bit >= old(self).length.bit_length ==> final(self).length == old(self).length,
            r matches DeserializationResult::Finished(c) ==> {
                &&& start_bit + c == final(self).wire_bits()
                &&& final(buffer).len() == old(buffer).len() - c
                &&& final(buffer).value() == old(buffer).value() / pow2(c as nat)
            },
            r matches DeserializationResult::BufferInsufficient(c) ==> {
                &&& start_bit + c < final(self).wire_bits()
                &&& final(buffer).len() == old(buffer).len() - c
                &&& final(buffer).value() == old(buffer).value() / pow2(c as nat)
                &&& (start_bit + c == 0 && old(buffer).len() < old(self).length.bit_length
                    - start_bit) || (start_bit + c >= old(self).length.bit_length
                    && final(buffer).len() < final(self).element_bit_length)
            },
            !(r is LengthOverflow) && start_bit + taken(r) >= old(self).length.bit_length ==> (
            start_bit + taken(r) - old(self).length.bit_length) % (old(self).element_bit_length as int)
                == 0,
            !(r is LengthOverflow) ==> forall|i: int|
                0 <= i < final(self).elements@.len() ==> if old(self).first_element(start_bit as int) <= i
                    < final(self).end_element(start_bit as int, taken(r)) {
                    final(self).elements@[i].bits as nat == bit_range(
                        old(buffer).value(),
                        (final(self).element_start(i) - start_bit) as nat,
                        final(self).element_bit_length as nat,
                    )
                } else {
                    #[trigger] final(self).elements@[i] == old(self).elements@[i]
                },
    {
        let ghost v0 = buffer.value();
        let length_bits = self.length.bit_length as usize;
        let element_bits = self.element_bit_length as usize;
        let mut done: usize = 0;
        if start_bit < length_bits {
            match self.length.deserialize(start_bit, buffer) {
                DeserializationResult::Finished(bits) => {
                    done = bits;
                },
                _ => {
                    proof {
                        let l = length_bits as int;
                        let ee = element_bits as int;
                        assert((0 - l) / ee < 0) by (nonlinear_arith)
                            requires
                                l >= 1,
                                ee >= 1,
                        ;
                        assert(self.length == old(self).length);
                        lemma2_to64();
                        assert(v0 / 1 == v0);
                    }
                    return DeserializationResult::BufferInsufficient(0);
                },
            }
            proof {
                lemma2_to64();
                assert(start_bit == 0);
            }
            if self.length.current_length > self.elements.len() as u64 {
                return DeserializationResult::LengthOverflow;
            }
        }
        let capacity = self.elements.len();
        assert(self.length.current_length <= capacity);
        let n = self.length.current_length as usize;
        let mut e: usize = (start_bit + done - length_bits) / element_bits;
        let ghost elements0 = self.elements@;
        let ghost e0 = e as int;
        proof {
            lemma2_to64();
            let x = (start_bit + done - length_bits) as int;
            let ee = element_bits as int;
            lemma_fundamental_div_mod(x, ee);
            assert(e * ee == x) by (nonlinear_arith)
                requires
                    x == ee * (x / ee) + x % ee,
                    x % ee == 0,
                    e == x / ee,
            ;
            if start_bit >= length_bits {
                assert(e <= n) by (nonlinear_arith)
                    requires
                        e * ee == x,
                        x <= n * ee,
                        ee >= 1,
                ;
            }
        }
        while e < n
            invariant
                self.wf(),
                buffer.wf(),
                old(buffer).wf(),
                v0 == old(buffer).value(),
                length_bits == old(self).length.bit_length,
                element_bits == old(self).element_bit_length,
                elements0 == old(self).elements@,
                start_bit >= length_bits ==> self.length == old(self).length,
                start_bit < length_bits ==> start_bit == 0 && old(buffer).len() >= length_bits
                    && self.length.current_length as nat == bit_range(v0, 0, length_bits as nat),
                self.length.bit_length == length_bits,
                self.element_bit_length == element_bits,
                self.elements@.len() == elements0.len(),
                n == self.length.current_length,
                n <= self.elements@.len(),
                e0 == old(self).first_element(start_bit as int),
                e0 <= e <= n,
                start_bit + done == length_bits + e * element_bits,
                buffer.len() == old(buffer).len() - done,
                buffer.value() == v0 / pow2(done as nat),
                forall|i: int|
                    0 <= i < self.elements@.len() ==> if e0 <= i < e {
                        self.elements@[i].bits as nat == bit_range(
                            v0,
                            (self.element_start(i) - start_bit) as nat,
                            element_bits as nat,
                        )
                    } else {
                        #[trigger] self.elements@[i] == elements0[i]
                    },
            decreases n - e,
        {
            let mut f = self.elements[e];
            let ghost d0 = done as nat;
            let ghost fb = f.bits as int;
            let ghost bv = buffer.value() as int;
            assert(f.bit_length == self.elements@[e as int].bit_length);
            assert(f.bit_length == element_bits);
            match f.deserialize(0, buffer) {
                DeserializationResult::Finished(bits) => {
                    proof {
                        lemma_div_pow2_twice(v0, d0, element_bits as nat);
                        lemma2_to64();
                        assert((e + 1) * element_bits == e * element_bits + element_bits) by (
                        nonlinear_arith);
                        assert(self.element_start(e as int) - start_bit == d0);
                        let m = (bv as nat) % pow2(element_bits as nat);
                        assert((fb as nat) % 1 == 0 && m * 1 == m) by (nonlinear_arith);
                    }
                    done = done + bits;
                },
                _ => {
                    proof {
                        assert(e * element_bits < n * element_bits) by (nonlinear_arith)
                            requires
                                e < n,
                                element_bits >= 1,
                        ;
                        lemma_div_multiples_vanish(e as int, element_bits as int);
                        assert(e * element_bits == element_bits * e) by (nonlinear_arith);
                        lemma_mod_multiples_basic(e as int, element_bits as int);
                        lemma2_to64();
                    }
                    return DeserializationResult::BufferInsufficient(done);
                },
            }
            self.elements.set(e, f);
            proof {
                assert(self.elements@[e as int].bits as nat == bit_range(
                    v0,
                    (self.element_start(e as int) - start_bit) as nat,
                    element_bits as nat,
                ));
            }
            e = e + 1;
        }
        proof {
            lemma_div_multiples_vanish(e as int, element_bits as int);
            assert(e * element_bits == element_bits * e) by (nonlinear_arith);
            lemma_mod_multiples_basic(e as int, element_bits as int);
        }
        DeserializationResult::Finished(done)
    }

    /// Takes the array as the last field of a transfer, where its length
    /// field is left out: every whole element in the rest of the transfer,
    /// which `buffer` holds, is valid.
    pub fn deserialize_tail(&mut self, buffer: &mut DeserializationBuffer) -> (r:
        DeserializationResult)
        requires
            old(self).wf(),
            old(buffer).wf(),
        ensures
            final(self).wf(),
            final(buffer).wf(),
            ({
                let e = old(self).element_bit_length as nat;
                let n = old(buffer).len() / e;
                if n > old(self).elements@.len() {
                    &&& r == DeserializationResult::LengthOverflow
                    &&& *final(buffer) == *old(buffer)
                } else {
                    &&& r == DeserializationResult::Finished((n * e) as usize)
                    &&& final(self).length.current_length == n
                    &&& final(self).length.bit_length == old(self).length.bit_length
                    &&& final(self).element_bit_length == old(self).element_bit_length
                    &&& final(self).elements@.len() == old(self).elements@.len()
                    &&& final(buffer).len() == old(buffer).len() - n * e
                    &&& final(buffer).value() == old(buffer).value() / pow2(n * e)
                    &&& forall|i: int|
                        0 <= i < final(self).elements@.len() ==> if i < n {
                            final(self).elements@[i].bits as nat == bit_range(
                                old(buffer).value(),
                                (i * e) as nat,
                                e,
                            )
                        } else {
                            #[trigger] final(self).elements@[i] == old(self).elements@[i]
                        }
                }
            }),
    {
        let element_bits = self.element_bit_length as usize;
        let n = buffer.bit_length() / element_bits;
        if n > self.elements.len() {
            return DeserializationResult::LengthOverflow;
        }
        self.length.current_length = n as u64;
        let length_bits = self.length.bit_length as usize;
        let ghost l = length_bits as int;
        let ghost ee = element_bits as int;
        let ghost bl = buffer.len() as int;
        proof {
            lemma_fundamental_div_mod(bl, ee);
            assert(n * ee <= bl) by (nonlinear_arith)
                requires
                    bl == ee * (bl / ee) + bl % ee,
                    bl % ee >= 0,
                    n == bl / ee,
            ;
            lemma_mod_multiples_basic(0, ee);
        }
        let r = self.deserialize(length_bits, buffer);
        proof {
            match r {
                DeserializationResult::BufferInsufficient(c) => {
                    let k = (c as int) / ee;
                    lemma_fundamental_div_mod(c as int, ee);
                    assert(false) by (nonlinear_arith)
                        requires
                            c == ee * k + (c as int) % ee,
                            (c as int) % ee == 0,
                            c < n * ee,
                            n * ee <= bl,
                            bl < ee * n + ee,
                            bl - c < ee,
                            ee >= 1,
                    ;
                },
                _ => {},
            }
            lemma_div_multiples_vanish(n as int, ee);
            assert(ee * n == n * ee) by (nonlinear_arith);
            assert forall|i: int| 0 <= i < self.elements@.len() implies (self.element_start(i)
                - l) == i * ee by {
            }
        }
        r
    }
}

} // verus!
