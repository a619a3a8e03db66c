//! Packing of a flattened structure into a little-endian bit stream.

use crate::bits::{bit_range, bytes_value, lemma_bit_range_add_high, lemma_div_pow2_twice, lemma_pow2_120, lemma_pow2_le, pow2_u128};
use crate::buffer::{DeserializationBuffer, BUFFER_CAPACITY_BITS};
use crate::deserializer::{lemma_offset_mono, offset, total_bits, valid_layout, Deserializer};
use vstd::arithmetic::div_mod::*;
use vstd::arithmetic::mul::*;
use vstd::arithmetic::power2::*;
use vstd::prelude::*;

verus! {

/// The stream of the first `n` fields: field `i` sits at bit `offset(w, i)`.
pub open spec fn stream_value(w: Seq<u8>, v: Seq<u64>, n: int) -> nat
    decreases n,
{
    if n <= 0 || n > w.len() || n > v.len() {
        0
    } else {
        stream_value(w, v, n - 1) + (v[n - 1] as nat) * pow2(offset(w, n - 1))
    }
}

/// Every value fits in the width of its field.
pub open spec fn values_fit(w: Seq<u8>, v: Seq<u64>) -> bool {
    &&& v.len() == w.len()
    &&& forall|i: int| 0 <= i < w.len() ==> (#[trigger] v[i] as nat) < pow2(w[i] as nat)
}

proof fn lemma_stream_bound(w: Seq<u8>, v: Seq<u64>, n: int)
    requires
        values_fit(w, v),
        0 <= n <= w.len(),
    ensures
        stream_value(w, v, n) < pow2(offset(w, n)),
    decreases n,
{
    lemma_pow2_pos(offset(w, n));
    if n > 0 {
        lemma_stream_bound(w, v, n - 1);
        let o = offset(w, n - 1);
        let b = w[n - 1] as nat;
        assert(offset(w, n) == o + b);
        lemma_pow2_adds(b, o);
        let s = stream_value(w, v, n - 1) as int;
        let x = v[n - 1] as int;
        assert(s + x * pow2(o) < pow2(b) * pow2(o)) by (nonlinear_arith)
            requires
                0 <= s < pow2(o),
                0 <= x < pow2(b),
        ;
    }
}

proof fn lemma_stream_fields(w: Seq<u8>, v: Seq<u64>, n: int, j: int)
    requires
        values_fit(w, v),
        0 <= j < n <= w.len(),
    ensures
        bit_range(stream_value(w, v, n), offset(w, j), w[j] as nat) == v[j] as nat,
    decreases n,
{
    let o = offset(w, n - 1);
    let s = stream_value(w, v, n - 1);
    if j < n - 1 {
        lemma_stream_fields(w, v, n - 1, j);
        lemma_offset_mono(w, j + 1, n - 1);
        assert(offset(w, j + 1) == offset(w, j) + w[j] as nat);
        lemma_bit_range_add_high(s, v[n - 1] as nat, offset(w, j), w[j] as nat, o);
    } else {
        lemma_stream_bound(w, v, n - 1);
        lemma_pow2_pos(o);
        lemma_hoist_over_denominator(s as int, v[j] as int, pow2(o));
        lemma_basic_div(s as int, pow2(o) as int);
        lemma_small_mod(v[j] as nat, pow2(w[j] as nat));
    }
}

/// The bytes of a structure: its fields packed low bit first, the last byte
/// padded with zero bits. `bit_lengths` lists the fields as they go on the
/// wire: a dynamic array as its length field and its valid elements, and a
/// dynamic array that ends the structure as its valid elements alone.
pub fn serialize(bit_lengths: &Vec<u8>, values: &Vec<u64>) -> (r: Vec<u8>)
    requires
        valid_layout(bit_lengths@),
        values_fit(bit_lengths@, values@),
    ensures
        bytes_value(r@) == stream_value(bit_lengths@, values@, bit_lengths@.len() as int),
        total_bits(bit_lengths@) <= 8 * r@.len() < total_bits(bit_lengths@) + 8,
{
    let ghost w = bit_lengths@;
    let ghost v = values@;
    let mut out: Vec<u8> = Vec::new();
    let mut pending: u128 = 0;
    let mut pending_bits: usize = 0;
    let mut i: usize = 0;
    proof {
        lemma2_to64();
        assert(bytes_value(out@) == 0);
    }
    while i < bit_lengths.len()
        invariant
            w == bit_lengths@,
            v == values@,
            valid_layout(w),
            values_fit(w, v),
            i <= w.len(),
            pending_bits < 8,
            (pending as nat) < pow2(pending_bits as nat),
            8 * out@.len() + pending_bits == offset(w, i as int),
            bytes_value(out@) + (pending as nat) * pow2(8 * out@.len()) == stream_value(w, v, i as int),
        decreases w.len() - i,
    {
        let width = bit_lengths[i] as usize;
        let value = values[i];
        let p = pow2_u128(pending_bits);
        proof {
            let e = pending_bits as nat;
            let b = width as nat;
            lemma_pow2_adds(b, e);
            lemma_pow2_le(e + b, 120);
            lemma_pow2_120();
            assert(offset(w, i + 1) == offset(w, i as int) + b);
            let pv = pending as int;
            let x = value as int;
            assert(pv + x * p < pow2(b) * p) by (nonlinear_arith)
                requires
                    0 <= pv < p,
                    0 <= x < pow2(b),
            ;
            lemma_pow2_adds(e, (8 * out@.len()) as nat);
            lemma_mul_is_associative(x, p as int, pow2((8 * out@.len()) as nat) as int);
            lemma_mul_is_distributive_add_other_way(
                pow2((8 * out@.len()) as nat) as int,
                pv,
                x * p,
            );
            lemma_mul_is_commutative(pow2(e) as int, pow2((8 * out@.len()) as nat) as int);
        }
        pending = pending + (value as u128) * p;
        pending_bits = pending_bits + width;
        while pending_bits >= 8
            invariant
                w == bit_lengths@,
                v == values@,
                i < w.len(),
                pending_bits <= 72,
                (pending as nat) < pow2(pending_bits as nat),
                8 * out@.len() + pending_bits == offset(w, i + 1),
                bytes_value(out@) + (pending as nat) * pow2(8 * out@.len()) == stream_value(
                    w,
                    v,
                    i + 1,
                ),
            decreases pending_bits,
        {
            let byte = (pending % 256) as u8;
            let ghost old_out = out@;
            let ghost old_pending = pending as int;
            out.push(byte);
            pending = pending / 256;
            pending_bits = pending_bits - 8;
            proof {
                lemma2_to64();
                let l = (8 * old_out.len()) as nat;
                assert(out@.drop_last() =~= old_out);
                assert(bytes_value(out@) == bytes_value(old_out) + (byte as nat) * pow2(l));
                lemma_fundamental_div_mod(old_pending, 256);
                lemma_pow2_adds(8, l);
                assert(8 * out@.len() == 8 + l);
                let q = pending as int;
                assert(old_pending == 256 * q + byte as int);
                lemma_mul_is_distributive_add_other_way(pow2(l) as int, 256 * q, byte as int);
                lemma_mul_is_associative(q, 256, pow2(l) as int);
                lemma_mul_is_commutative(q, 256);
                lemma_div_pow2_bound_byte(old_pending as nat, pending_bits as nat);
            }
        }
        i = i + 1;
    }
    if pending_bits > 0 {
        let ghost old_out = out@;
        out.push(pending as u8);
        proof {
            lemma2_to64();
            lemma_pow2_le(pending_bits as nat, 8);
            assert(out@.drop_last() =~= old_out);
        }
    }
    out
}

proof fn lemma_div_pow2_bound_byte(x: nat, k: nat)
    requires
        x < pow2(k + 8),
    ensures
        x / 256 < pow2(k),
{
    lemma2_to64();
    crate::bits::lemma_div_pow2_bound(x, k, 8);
}

/// Decoding the bytes of a structure gives the structure back: a decoder
/// fed exactly the bytes that `serialize` makes of fitting `values` has
/// decoded every field, and each to its value.
pub proof fn lemma_round_trip(d: &Deserializer, values: Seq<u64>)
    requires
        d.wf(),
        values_fit(d.layout(), values),
        bytes_value(d.received()) == stream_value(d.layout(), values, d.layout().len() as int),
        total_bits(d.layout()) <= 8 * d.received().len(),
    ensures
        d.field_index() == d.layout().len(),
        d.values() == values,
{
    let w = d.layout();
    let k = d.field_index() as int;
    if k < w.len() {
        lemma_offset_mono(w, k + 1, w.len() as int);
    }
    assert forall|j: int| 0 <= j < w.len() implies d.values()[j] == values[j] by {
        lemma_stream_fields(w, values, w.len() as int, j);
    }
    assert(d.values() =~= values);
}

/// How far a structure got: `Finished` with the bits written, or
/// `BufferFull` with the bits written before the buffer filled.
#[derive(Debug, Clone, Copy, PartialEq, Eq, Structural)]
pub enum SerializationResult {
    Finished(usize),
    BufferFull(usize),
}

/// Bits `j..j + k` of field `i` are bits `offset + j..` of the stream.
proof fn lemma_stream_slice(w: Seq<u8>, v: Seq<u64>, i: int, j: nat, k: nat)
    requires
        values_fit(w, v),
        0 <= i < w.len(),
        j + k <= w[i],
    ensures
        bit_range(stream_value(w, v, w.len() as int), offset(w, i) + j, k) == bit_range(
            v[i] as nat,
            j,
            k,
        ),
{
    let s = stream_value(w, v, w.len() as int);
    let o = offset(w, i);
    let b = w[i] as nat;
    let x = s / pow2(o);
    lemma_stream_fields(w, v, w.len() as int, i);
    lemma_pow2_pos(b);
    lemma_fundamental_div_mod(x as int, pow2(b) as int);
    let q = x / pow2(b);
    assert(x % pow2(b) == v[i] as nat);
    let pb = pow2(b) as int;
    let vi = v[i] as int;
    assert(x as int == pb * (q as int) + (x as int) % pb);
    assert((x as int) % pb == vi);
    assert(x as int == vi + (q as int) * pb) by (nonlinear_arith)
        requires
            x as int == pb * (q as int) + (x as int) % pb,
            (x as int) % pb == vi,
    ;
    lemma_bit_range_add_high(v[i] as nat, q, j, k, b);
    lemma_div_pow2_twice(s, o, j);
    assert(bit_range(s, o + j, k) == bit_range(x, j, k));
    assert(q * pow2(b) == (q as int) * pb) by (nonlinear_arith)
        requires
            pb == pow2(b) as int,
    ;
    assert(x == v[i] as nat + q * pow2(b));
}

/// Two adjacent ranges of bits make one.
proof fn lemma_bit_range_join(s: nat, p: nat, a: nat, k: nat)
    ensures
        bit_range(s, p, a) + bit_range(s, p + a, k) * pow2(a) == bit_range(s, p, a + k),
{
    lemma_pow2_pos(p);
    let y = s / pow2(p);
    lemma_pow2_pos(a);
    lemma_pow2_pos(k);
    assert(0 <= y as int && 0 < pow2(a) as int && 0 < pow2(k) as int);
    lemma_pow2_adds(a, k);
    lemma_mod_breakdown(y as int, pow2(a) as int, pow2(k) as int);
    lemma_div_pow2_twice(s, p, a);
    lemma_mul_is_commutative(pow2(a) as int, ((y / pow2(a)) % pow2(k)) as int);
}

/// An encoder of a structure into a bounded buffer that the caller empties
/// between calls.
pub struct Serializer {
    bit_lengths: Vec<u8>,
    values: Vec<u64>,
    current_field_index: usize,
    current_bit: usize,
}

impl Serializer {
    pub closed spec fn layout(&self) -> Seq<u8> {
        self.bit_lengths@
    }

    pub closed spec fn field_values(&self) -> Seq<u64> {
        self.values@
    }

    /// The number of stream bits written so far.
    pub closed spec fn position(&self) -> nat {
        offset(self.bit_lengths@, self.current_field_index as int) + self.current_bit as nat
    }

    /// The whole stream of the structure.
    pub open spec fn stream(&self) -> nat {
        stream_value(self.layout(), self.field_values(), self.layout().len() as int)
    }

    pub closed spec fn wf(&self) -> bool {
        let w = self.bit_lengths@;
        let i = self.current_field_index as int;
        &&& valid_layout(w)
        &&& values_fit(w, self.values@)
        &&& i <= w.len()
        &&& i < w.len() ==> self.current_bit < w[i]
        &&& i == w.len() ==> self.current_bit == 0
    }

    /// An encoder at the start of the structure.
    pub fn new(bit_lengths: Vec<u8>, values: Vec<u64>) -> (r: Self)
        requires
            valid_layout(bit_lengths@),
            values_fit(bit_lengths@, values@),
        ensures
            r.wf(),
            r.layout() == bit_lengths@,
            r.field_values() == values@,
            r.position() == 0,
    {
        let r = Serializer { bit_lengths, values, current_field_index: 0, current_bit: 0 };
        proof {
            assert(offset(r.bit_lengths@, 0) == 0);
        }
        r
    }

    /// Appends the next bits of the stream to `buffer` until the structure
    /// ends or the buffer is full.
    pub fn serialize(&mut self, buffer: &mut DeserializationBuffer) -> (r: SerializationResult)
        requires
            old(self).wf(),
            old(buffer).wf(),
        ensures
            final(self).wf(),
            final(buffer).wf(),
            final(self).layout() == old(self).layout(),
            final(self).field_values() == old(self).field_values(),
            ({
                let a = final(self).position() - old(self).position();
                &&& a >= 0
                &&& final(buffer).len() == old(buffer).len() + a
                &&& final(buffer).value() == old(buffer).value() + bit_range(
                    old(self).stream(),
                    old(self).position(),
                    a as nat,
                ) * pow2(old(buffer).len())
                &&& match r {
                    SerializationResult::Finished(c) => c == a && final(self).position()
                        == total_bits(old(self).layout()),
                    SerializationResult::BufferFull(c) => c == a && final(buffer).len()
                        == BUFFER_CAPACITY_BITS && final(self).position() < total_bits(
                        old(self).layout(),
                    ),
                }
            }),
    {
        let ghost w = self.bit_lengths@;
        let ghost v = self.values@;
        let ghost s = stream_value(w, v, w.len() as int);
        let ghost p0 = self.position();
        let ghost l0 = buffer.len();
        let ghost v0 = buffer.value();
        let n = self.bit_lengths.len();
        let mut written: usize = 0;
        proof {
            lemma2_to64();
            assert(bit_range(s, p0, 0) == 0);
        }
        while self.current_field_index < n
            invariant
                self.wf(),
                buffer.wf(),
                self.bit_lengths@ == w,
                self.values@ == v,
                s == stream_value(w, v, w.len() as int),
                n == w.len(),
                w == old(self).bit_lengths@,
                v == old(self).values@,
                p0 == old(self).position(),
                l0 == old(buffer).len(),
                v0 == old(buffer).value(),
                self.position() == p0 + written,
                buffer.len() == l0 + written,
                buffer.value() == v0 + bit_range(s, p0, written as nat) * pow2(l0),
            decreases total_bits(w) - self.position(),
        {
            let i = self.current_field_index;
            let width = self.bit_lengths[i] as usize;
            let room = BUFFER_CAPACITY_BITS - buffer.bit_length();
            proof {
                lemma_offset_mono(w, i + 1, n as int);
                assert(offset(w, i + 1) == offset(w, i as int) + w[i as int] as nat);
            }
            if room == 0 {
                return SerializationResult::BufferFull(written);
            }
            let rest = width - self.current_bit;
            let k = if rest < room {
                rest
            } else {
                room
            };
            let j = self.current_bit;
            let below = pow2_u128(j);
            let above = pow2_u128(k);
            proof {
                lemma_pow2_pos(j as nat);
                lemma_pow2_pos(k as nat);
                lemma_pow2_le(k as nat, 64);
                lemma2_to64();
            }
            let chunk = ((self.values[i] as u128 / below) % above) as u64;
            proof {
                assert(chunk as nat == bit_range(v[i as int] as nat, j as nat, k as nat));
                lemma_stream_slice(w, v, i as int, j as nat, k as nat);
                lemma_pow2_pos(k as nat);
                lemma_pow2_le(k as nat, 64);
                lemma_bit_range_join(s, p0, written as nat, k as nat);
                lemma_pow2_adds(written as nat, l0);
                let r1 = bit_range(s, p0, written as nat) as int;
                let c = chunk as int;
                assert(r1 * pow2(l0) + c * pow2(l0 + written as nat) == (r1 + c * pow2(written as nat))
                    * pow2(l0)) by (nonlinear_arith)
                    requires
                        pow2(l0 + written as nat) == pow2(written as nat) * pow2(l0),
                ;
                assert(l0 + written == buffer.len());
            }
            buffer.append_bits(chunk, k);
            written = written + k;
            if k == rest {
                self.current_field_index = i + 1;
                self.current_bit = 0;
            } else {
                self.current_bit = j + k;
            }
        }
        SerializationResult::Finished(written)
    }
}

} // verus!
