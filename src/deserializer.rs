//! Resumable decoding of a flattened structure from a little-endian bit
//! stream that arrives in pieces.

use crate::bits::{bit_range, bytes_value, lemma_bit_range_add_high, lemma_div_add_high, lemma_div_pow2_twice};
use crate::buffer::DeserializationBuffer;
use vstd::arithmetic::power2::*;
use vstd::prelude::*;

verus! {

/// A protocol error that ends the transfer.
#[derive(Debug, Clone, Copy, PartialEq, Eq, Structural)]
pub enum DeserializerError {
    /// A whole byte arrived after the structure was complete.
    StructureExhausted,
    /// The structure was asked for before all of its fields arrived.
    NotFinished,
    /// The transfer holds more elements of the tail array than it can take.
    LengthOverflow,
}

/// `raw` read as a two's-complement integer of `w` bits.
pub open spec fn sign_extend(raw: nat, w: nat) -> int {
    if raw < pow2((w - 1) as nat) {
        raw as int
    } else {
        raw - pow2(w)
    }
}

/// Fields `p..p + m` all `e` bits wide end `m * e` bits after field `p`.
pub proof fn lemma_offset_uniform(w: Seq<u8>, p: int, m: int, e: u8)
    requires
        0 <= p,
        0 <= m,
        p + m <= w.len(),
        forall|i: int| p <= i < p + m ==> w[i] == e,
    ensures
        offset(w, p + m) == offset(w, p) + m * (e as int),
    decreases m,
{
    let ee = e as int;
    if m > 0 {
        lemma_offset_uniform(w, p, m - 1, e);
        assert(w[p + m - 1] == e);
        assert(offset(w, p + m) == offset(w, p + m - 1) + ee);
        assert((m - 1) * ee + ee == m * ee) by (nonlinear_arith);
    } else {
        assert(m * ee == 0) by (nonlinear_arith)
            requires
                m == 0,
        ;
    }
}

proof fn lemma_div_between(x: int, e: int, m: int)
    requires
        e > 0,
        m * e <= x < (m + 1) * e,
    ensures
        x / e == m,
{
    vstd::arithmetic::div_mod::lemma_fundamental_div_mod(x, e);
    let q = x / e;
    assert(q == m) by (nonlinear_arith)
        requires
            x == e * q + x % e,
            0 <= x % e < e,
            m * e <= x < (m + 1) * e,
            e > 0,
    ;
}

/// Where field `i` of a structure with field widths `w` starts in the stream.
pub open spec fn offset(w: Seq<u8>, i: int) -> nat
    decreases i,
{
    if i <= 0 || i > w.len() {
        0
    } else {
        offset(w, i - 1) + w[i - 1] as nat
    }
}

/// The bit length of a whole structure.
pub open spec fn total_bits(w: Seq<u8>) -> nat {
    offset(w, w.len() as int)
}

/// Every flattened field is 1 to 64 bits wide.
pub open spec fn valid_layout(w: Seq<u8>) -> bool {
    forall|i: int| 0 <= i < w.len() ==> 1 <= #[trigger] w[i] <= 64
}

/// Field `j` as it stands in the stream `s`.
pub open spec fn field_in(w: Seq<u8>, s: Seq<u8>, j: int) -> nat {
    bit_range(bytes_value(s), offset(w, j), w[j] as nat)
}

pub proof fn lemma_offset_mono(w: Seq<u8>, a: int, b: int)
    requires
        0 <= a <= b <= w.len(),
    ensures
        offset(w, a) <= offset(w, b),
        valid_layout(w) && a < b ==> offset(w, a) < offset(w, b),
    decreases b - a,
{
    if a < b {
        lemma_offset_mono(w, a, b - 1);
    }
}

/// The bit length of a structure whose fields have the widths
/// `bit_lengths`: with each dynamic array listed as its length field, the
/// least that the structure takes on the wire.
pub fn bit_length_min(bit_lengths: &Vec<u8>) -> (r: u64)
    requires
        bit_lengths@.len() <= 0x100_0000_0000_0000,
    ensures
        r as nat == total_bits(bit_lengths@),
{
    let mut sum: u64 = 0;
    let mut i: usize = 0;
    while i < bit_lengths.len()
        invariant
            i <= bit_lengths@.len(),
            bit_lengths@.len() <= 0x100_0000_0000_0000,
            sum as nat == offset(bit_lengths@, i as int),
            sum <= 256 * i,
        decreases bit_lengths@.len() - i,
    {
        proof {
            assert(offset(bit_lengths@, i + 1) == offset(bit_lengths@, i as int)
                + bit_lengths@[i as int] as nat);
        }
        sum = sum + bit_lengths[i] as u64;
        i = i + 1;
    }
    sum
}

/// Two decoders of one layout that were fed the same bytes, in pieces of any
/// size and in any number of calls, have decoded the same fields to the same
/// values: feeding a stream in two parts is feeding it at once, and feeding
/// nothing changes nothing.
pub proof fn lemma_state_determined(a: &Deserializer, b: &Deserializer)
    requires
        a.wf(),
        b.wf(),
        a.layout() == b.layout(),
        a.received() == b.received(),
    ensures
        a.field_index() == b.field_index(),
        a.values() == b.values(),
{
    let w = a.layout();
    let ka = a.field_index() as int;
    let kb = b.field_index() as int;
    if ka < kb {
        lemma_offset_mono(w, ka + 1, kb);
    } else if kb < ka {
        lemma_offset_mono(w, kb + 1, ka);
    }
    assert(a.values() =~= b.values());
}

/// A decoder for a structure whose flattened fields have the widths
/// `bit_lengths`, fed with the bytes of one transfer.
pub struct Deserializer {
    bit_lengths: Vec<u8>,
    values: Vec<u64>,
    current_field_index: usize,
    buffer: DeserializationBuffer,
    received: Ghost<Seq<u8>>,
}

impl Deserializer {
    /// The field widths.
    pub closed spec fn layout(&self) -> Seq<u8> {
        self.bit_lengths@
    }

    /// Every byte fed so far.
    pub closed spec fn received(&self) -> Seq<u8> {
        self.received@
    }

    /// The number of fields decoded.
    pub closed spec fn field_index(&self) -> nat {
        self.current_field_index as nat
    }

    /// The field values, zero where not decoded yet.
    pub closed spec fn values(&self) -> Seq<u64> {
        self.values@
    }

    pub closed spec fn buffer_inv(&self) -> bool {
        &&& self.buffer.wf()
        &&& self.buffer.len() == 8 * self.received@.len() - offset(
            self.bit_lengths@,
            self.current_field_index as int,
        )
        &&& self.buffer.value() == bytes_value(self.received@) / pow2(
            offset(self.bit_lengths@, self.current_field_index as int),
        )
    }

    /// The state is the one that the bytes received determine: each field
    /// that lies wholly in them is decoded, and no other.
    pub open spec fn wf(&self) -> bool {
        let w = self.layout();
        let k = self.field_index() as int;
        let n = 8 * self.received().len();
        &&& valid_layout(w)
        &&& self.values().len() == w.len()
        &&& k <= w.len()
        &&& offset(w, k) <= n
        &&& k < w.len() ==> n < offset(w, k + 1)
        &&& k == w.len() ==> n < total_bits(w) + 8
        &&& forall|j: int| 0 <= j < k ==> self.values()[j] as nat == field_in(w, self.received(), j)
        &&& forall|j: int| k <= j < w.len() ==> self.values()[j] == 0
        &&& self.buffer_inv()
    }

    /// A decoder with every field zero and nothing received.
    pub fn new(bit_lengths: Vec<u8>) -> (r: Self)
        requires
            valid_layout(bit_lengths@),
        ensures
            r.wf(),
            r.layout() == bit_lengths@,
            r.received() == Seq::<u8>::empty(),
    {
        let mut values: Vec<u64> = Vec::new();
        let mut i: usize = 0;
        while i < bit_lengths.len()
            invariant
                i <= bit_lengths@.len(),
                values@.len() == i,
                forall|j: int| 0 <= j < i ==> values@[j] == 0,
            decreases bit_lengths@.len() - i,
        {
            values.push(0);
            i = i + 1;
        }
        let r = Deserializer {
            bit_lengths,
            values,
            current_field_index: 0,
            buffer: DeserializationBuffer::new(),
            received: Ghost(Seq::empty()),
        };
        proof {
            lemma_pow2_pos(0);
            assert(bytes_value(Seq::<u8>::empty()) == 0);
            assert(offset(r.bit_lengths@, 0) == 0);
            if r.bit_lengths@.len() > 0 {
                assert(offset(r.bit_lengths@, 1) == r.bit_lengths@[0] as nat);
            }
        }
        r
    }

    /// Feeds the next bytes of the transfer. Fails once a whole byte stands
    /// beyond the end of the structure.
    pub fn deserialize(self, input: &[u8]) -> (r: Result<Deserializer, DeserializerError>)
        requires
            self.wf(),
        ensures
            r is Err <==> 8 * (self.received().len() + input@.len()) >= total_bits(self.layout())
                + 8,
            r is Err ==> r == Err::<Deserializer, DeserializerError>(
                DeserializerError::StructureExhausted,
            ),
            r matches Ok(d) ==> d.wf() && d.layout() == self.layout() && d.received()
                == self.received() + input@,
            input@.len() == 0 ==> (r matches Ok(d) && d.field_index() == self.field_index()
                && d.values() == self.values()),
    {
        let ghost r0 = self.received();
        let mut d = self;
        let mut i: usize = 0;
        let n_fields = d.bit_lengths.len();
        while i < input.len()
            invariant
                d.wf(),
                d.layout() == self.layout(),
                n_fields == d.layout().len(),
                i <= input@.len(),
                d.received() == r0 + input@.take(i as int),
                r0 == self.received(),
            decreases input@.len() - i,
        {
            let byte = input[i];
            proof {
                d.lemma_buffer_room();
            }
            d.push_received(byte);
            proof {
                assert(r0 + input@.take(i + 1) =~= (r0 + input@.take(i as int)).push(byte));
            }
            while d.current_field_index < n_fields && (d.bit_lengths[d.current_field_index]
                as usize) <= d.buffer.bit_length()
                invariant
                    d.wf_except_pending(),
                    d.layout() == self.layout(),
                    n_fields == d.layout().len(),
                    d.received() == r0 + input@.take(i + 1),
                    r0 == self.received(),
                    i < input@.len(),
                decreases n_fields - d.current_field_index,
            {
                d.pop_field();
            }
            if d.current_field_index == n_fields && d.buffer.bit_length() >= 8 {
                proof {
                    assert(input@.take(i + 1).len() == i + 1);
                    assert(d.received().len() == r0.len() + i + 1);
                    assert(d.buffer.len() == 8 * d.received().len() - total_bits(d.layout()));
                    assert(8 * d.received().len() >= total_bits(d.layout()) + 8);
                    assert(r0 == self.received());
                }
                return Err(DeserializerError::StructureExhausted);
            }
            proof {
                let k = d.field_index() as int;
                if k < n_fields {
                    assert(offset(d.layout(), k + 1) == offset(d.layout(), k) + d.layout()[k] as nat);
                }
            }
            i = i + 1;
        }
        proof {
            assert(input@.take(i as int) =~= input@);
            if input@.len() == 0 {
                assert(d.received() =~= self.received());
                lemma_state_determined(&d, &self);
            }
            let k = d.field_index() as int;
            if k < n_fields {
                lemma_offset_mono(d.layout(), k + 1, n_fields as int);
            }
        }
        Ok(d)
    }

    /// `wf` but for the fields that the bytes received complete and that are
    /// not decoded yet.
    pub closed spec fn wf_except_pending(&self) -> bool {
        let w = self.layout();
        let k = self.field_index() as int;
        let n = 8 * self.received().len();
        &&& valid_layout(w)
        &&& self.values().len() == w.len()
        &&& k <= w.len()
        &&& offset(w, k) <= n
        &&& k == w.len() ==> n < total_bits(w) + 16
        &&& k < w.len() ==> n < offset(w, k + 1) + 8
        &&& forall|j: int| 0 <= j < k ==> self.values()[j] as nat == field_in(w, self.received(), j)
        &&& forall|j: int| k <= j < w.len() ==> self.values()[j] == 0
        &&& self.buffer_inv()
    }

    proof fn lemma_buffer_room(&self)
        requires
            self.wf(),
        ensures
            self.buffer.len() + 8 <= crate::buffer::BUFFER_CAPACITY_BITS,
    {
        let w = self.layout();
        let k = self.field_index() as int;
        if k < w.len() {
            assert(offset(w, k + 1) == offset(w, k) + w[k] as nat);
        }
    }

    /// Takes in one byte.
    fn push_received(&mut self, byte: u8)
        requires
            old(self).wf(),
            old(self).buffer.len() + 8 <= crate::buffer::BUFFER_CAPACITY_BITS,
        ensures
            final(self).wf_except_pending(),
            final(self).layout() == old(self).layout(),
            final(self).received() == old(self).received().push(byte),
    {
        let ghost old_r = self.received@;
        let ghost w = self.bit_lengths@;
        let ghost k = self.current_field_index as int;
        let ghost l = 8 * old_r.len();
        self.buffer.push_byte(byte);
        self.received = Ghost(old_r.push(byte));
        proof {
            let new_r = old_r.push(byte);
            assert(new_r.drop_last() =~= old_r);
            assert(bytes_value(new_r) == bytes_value(old_r) + (byte as nat) * pow2(l as nat));
            lemma_div_add_high(bytes_value(old_r), byte as nat, offset(w, k), l as nat);
            assert forall|j: int| 0 <= j < k implies self.values@[j] as nat == field_in(
                w,
                new_r,
                j,
            ) by {
                lemma_offset_mono(w, j + 1, k);
                assert(offset(w, j + 1) == offset(w, j) + w[j] as nat);
                lemma_bit_range_add_high(
                    bytes_value(old_r),
                    byte as nat,
                    offset(w, j),
                    w[j] as nat,
                    l as nat,
                );
            }
        }
    }

    /// Decodes the next field, whose bits the buffer holds.
    fn pop_field(&mut self)
        requires
            old(self).wf_except_pending(),
            old(self).field_index() < old(self).layout().len(),
            old(self).layout()[old(self).field_index() as int] <= old(self).buffer.len(),
        ensures
            final(self).wf_except_pending(),
            final(self).layout() == old(self).layout(),
            final(self).received() == old(self).received(),
            final(self).field_index() == old(self).field_index() + 1,
    {
        let ghost w = self.bit_lengths@;
        let ghost k = self.current_field_index as int;
        let ghost s = bytes_value(self.received@);
        let n = self.bit_lengths.len();
        let width = self.bit_lengths[self.current_field_index];
        let v = self.buffer.pop_bits(width as usize);
        self.values.set(self.current_field_index, v);
        self.current_field_index = self.current_field_index + 1;
        proof {
            assert(offset(w, k + 1) == offset(w, k) + w[k] as nat);
            lemma_div_pow2_twice(s, offset(w, k), w[k] as nat);
            assert(self.values@[k] as nat == field_in(w, self.received@, k));
            if k + 1 < w.len() {
                assert(offset(w, k + 2) == offset(w, k + 1) + w[k + 1] as nat);
            }
        }
    }

    /// The decoded field values, once every field has arrived.
    pub fn into_structure(self) -> (r: Result<Vec<u64>, DeserializerError>)
        requires
            self.wf(),
        ensures
            r is Ok <==> self.field_index() == self.layout().len(),
            r is Err ==> r == Err::<Vec<u64>, DeserializerError>(DeserializerError::NotFinished),
            r matches Ok(v) ==> v@.len() == self.layout().len() && forall|j: int|
                0 <= j < v@.len() ==> v@[j] as nat == field_in(self.layout(), self.received(), j),
    {
        if self.current_field_index == self.bit_lengths.len() {
            Ok(self.values)
        } else {
            Err(DeserializerError::NotFinished)
        }
    }

    /// The decoded field values, once every field has arrived, with the
    /// fields that `signed` marks read as two's-complement integers.
    pub fn into_signed_structure(self, signed: &Vec<bool>) -> (r: Result<Vec<i128>, DeserializerError>)
        requires
            self.wf(),
            signed@.len() == self.layout().len(),
        ensures
            r is Ok <==> self.field_index() == self.layout().len(),
            r is Err ==> r == Err::<Vec<i128>, DeserializerError>(DeserializerError::NotFinished),
            r matches Ok(v) ==> v@.len() == self.layout().len() && forall|j: int|
                0 <= j < v@.len() ==> v@[j] as int == if signed@[j] {
                    sign_extend(
                        field_in(self.layout(), self.received(), j),
                        self.layout()[j] as nat,
                    )
                } else {
                    field_in(self.layout(), self.received(), j) as int
                },
    {
        if self.current_field_index != self.bit_lengths.len() {
            return Err(DeserializerError::NotFinished);
        }
        let mut out: Vec<i128> = Vec::new();
        let mut j: usize = 0;
        while j < self.values.len()
            invariant
                self.wf(),
                self.current_field_index == self.bit_lengths@.len(),
                signed@.len() == self.layout().len(),
                j <= self.values@.len(),
                out@.len() == j,
                forall|i: int|
                    0 <= i < j ==> out@[i] as int == if signed@[i] {
                        sign_extend(
                            field_in(self.layout(), self.received(), i),
                            self.layout()[i] as nat,
                        )
                    } else {
                        field_in(self.layout(), self.received(), i) as int
                    },
            decreases self.values@.len() - j,
        {
            let raw = self.values[j];
            if signed[j] {
                let w = self.bit_lengths[j];
                proof {
                    lemma_pow2_pos(w as nat);
                    vstd::arithmetic::div_mod::lemma_mod_bound(
                        (bytes_value(self.received@) / pow2(offset(self.bit_lengths@, j as int)))
                            as int,
                        pow2(w as nat) as int,
                    );
                }
                let field = crate::primitive::PrimitiveField { bit_length: w, bits: raw };
                out.push(field.as_signed() as i128);
            } else {
                out.push(raw as i128);
            }
            j = j + 1;
        }
        Ok(out)
    }

    /// The decoded fields of a structure that ends in a dynamic array whose
    /// length field is left out: fields `fixed_fields..` of the layout are
    /// the slots of its elements, all equally wide, and the array holds
    /// every whole element in what the transfer carries after the fields
    /// before it. Returns the field values and the array's length.
    pub fn into_structure_with_tail(self, fixed_fields: usize) -> (r: Result<
        (Vec<u64>, usize),
        DeserializerError,
    >)
        requires
            self.wf(),
            fixed_fields < self.layout().len(),
            forall|i: int|
                fixed_fields <= i < self.layout().len() ==> self.layout()[i] == self.layout()[fixed_fields as int],
        ensures
            ({
                let w = self.layout();
                let e = w[fixed_fields as int] as int;
                let capacity = w.len() - fixed_fields;
                let rest = 8 * self.received().len() - offset(w, fixed_fields as int);
                &&& r == Err::<(Vec<u64>, usize), DeserializerError>(DeserializerError::NotFinished)
                    <==> self.field_index() < fixed_fields
                &&& self.field_index() >= fixed_fields ==> (r == Err::<
                    (Vec<u64>, usize),
                    DeserializerError,
                >(DeserializerError::LengthOverflow) <==> rest / e > capacity)
                &&& r matches Ok((v, n)) ==> {
                    &&& n == rest / e
                    &&& v@.len() == w.len()
                    &&& forall|j: int|
                        0 <= j < fixed_fields ==> v@[j] as nat == field_in(w, self.received(), j)
                    &&& forall|i: int|
                        0 <= i < n ==> #[trigger] v@[fixed_fields + i] as nat == bit_range(
                            bytes_value(self.received()),
                            (offset(w, fixed_fields as int) + i * e) as nat,
                            e as nat,
                        )
                    &&& forall|i: int| n <= i < capacity ==> #[trigger] v@[fixed_fields + i] == 0
                }
            }),
    {
        let ghost w = self.bit_lengths@;
        let ghost p = fixed_fields as int;
        let ghost k = self.current_field_index as int;
        let ghost e = w[p] as int;
        let ghost rest = 8 * self.received@.len() - offset(w, p);
        let n_fields = self.bit_lengths.len();
        if self.current_field_index < fixed_fields {
            return Err(DeserializerError::NotFinished);
        }
        let element_bits = self.bit_lengths[fixed_fields] as usize;
        let length = self.current_field_index - fixed_fields;
        proof {
            lemma_offset_uniform(w, p, k - p, w[p]);
            if k < n_fields {
                lemma_offset_uniform(w, p, k - p + 1, w[p]);
                assert(offset(w, k + 1) == offset(w, k) + w[k] as nat);
                lemma_div_between(rest, e, k - p);
            }
        }
        if self.current_field_index == n_fields && self.buffer.bit_length() >= element_bits {
            proof {
                let b = self.buffer.len() as int;
                vstd::arithmetic::div_mod::lemma_fundamental_div_mod(rest, e);
                assert(rest / e > (n_fields - p)) by (nonlinear_arith)
                    requires
                        rest == (n_fields - p) * e + b,
                        b >= e,
                        e > 0,
                        rest == e * (rest / e) + rest % e,
                        0 <= rest % e < e,
                ;
            }
            return Err(DeserializerError::LengthOverflow);
        }
        proof {
            if k == n_fields {
                assert(self.buffer.len() < e);
                assert(self.buffer.len() == 8 * self.received@.len() - offset(w, k));
                assert(offset(w, k) == offset(w, p) + (k - p) * e);
                assert((k - p) * e + e == (k - p + 1) * e) by (nonlinear_arith);
                lemma_div_between(rest, e, k - p);
            }
            assert forall|i: int| 0 <= i < length implies #[trigger] self.values@[p + i] as nat == bit_range(
                bytes_value(self.received@),
                (offset(w, p) + i * e) as nat,
                e as nat,
            ) by {
                lemma_offset_uniform(w, p, i, w[p]);
            }
        }
        Ok((self.values, length))
    }
}
} // verus!
