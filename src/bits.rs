//! Arithmetic model of little-endian bit streams.

use vstd::arithmetic::div_mod::*;
use vstd::arithmetic::mul::*;
use vstd::arithmetic::power2::*;
use vstd::prelude::*;

verus! {

/// The value of a byte stream read little-endian, byte 0 lowest.
pub open spec fn bytes_value(b: Seq<u8>) -> nat
    decreases b.len(),
{
    if b.len() == 0 {
        0
    } else {
        bytes_value(b.drop_last()) + (b.last() as nat) * pow2((8 * (b.len() - 1)) as nat)
    }
}

/// The `w` bits of `s` that start at bit `o`, right-aligned.
pub open spec fn bit_range(s: nat, o: nat, w: nat) -> nat {
    (s / pow2(o)) % pow2(w)
}

pub proof fn lemma_pow2_120()
    ensures
        pow2(120) < u128::MAX,
        pow2(64) == 0x1_0000_0000_0000_0000,
{
    lemma2_to64();
    lemma2_to64_rest();
    lemma_pow2_adds(64, 56);
    assert(pow2(120) == pow2(64) * pow2(56));
}

pub proof fn lemma_pow2_le(a: nat, b: nat)
    requires
        a <= b,
    ensures
        pow2(a) <= pow2(b),
{
    if a < b {
        lemma_pow2_strictly_increases(a, b);
    }
}

/// A value below `2^(a + b)` shifted down by `b` bits is below `2^a`.
pub proof fn lemma_div_pow2_bound(s: nat, a: nat, b: nat)
    requires
        s < pow2(a + b),
    ensures
        s / pow2(b) < pow2(a),
{
    lemma_pow2_adds(a, b);
    lemma_pow2_pos(b);
    lemma_pow2_pos(a);
    lemma_div_is_ordered(s as int, (pow2(a) * pow2(b) - 1) as int, pow2(b) as int);
    lemma_mul_is_commutative(pow2(a) as int, pow2(b) as int);
    assert((pow2(a) * pow2(b) - 1) / (pow2(b) as int) < pow2(a)) by {
        lemma_fundamental_div_mod((pow2(a) * pow2(b) - 1) as int, pow2(b) as int);
        lemma_mod_bound((pow2(a) * pow2(b) - 1) as int, pow2(b) as int);
        let q = (pow2(a) * pow2(b) - 1) / (pow2(b) as int);
        if q >= pow2(a) {
            lemma_mul_inequality(pow2(a) as int, q, pow2(b) as int);
            lemma_mul_is_commutative(q, pow2(b) as int);
        }
    }
}

/// Shifting down by `o + w` bits is shifting by `o`, then by `w`.
pub proof fn lemma_div_pow2_twice(s: nat, o: nat, w: nat)
    ensures
        s / pow2(o) / pow2(w) == s / pow2(o + w),
{
    lemma_pow2_pos(o);
    lemma_pow2_pos(w);
    lemma_pow2_adds(o, w);
    lemma_div_denominator(s as int, pow2(o) as int, pow2(w) as int);
}

/// Adding bits at or above position `l` leaves the bits below `l`, read from
/// position `o`, where they were, and adds the new ones above them.
pub proof fn lemma_div_add_high(s: nat, c: nat, o: nat, l: nat)
    requires
        o <= l,
    ensures
        (s + c * pow2(l)) / pow2(o) == s / pow2(o) + c * pow2((l - o) as nat),
{
    let k = (l - o) as nat;
    lemma_pow2_adds(k, o);
    assert(k + o == l);
    lemma_pow2_pos(o);
    lemma_mul_is_associative(c as int, pow2(k) as int, pow2(o) as int);
    lemma_hoist_over_denominator(s as int, (c * pow2(k)) as int, pow2(o));
}

/// A range of bits that ends at or below `l` does not see what is added at `l`.
pub proof fn lemma_bit_range_add_high(s: nat, c: nat, o: nat, w: nat, l: nat)
    requires
        o + w <= l,
    ensures
        bit_range(s + c * pow2(l), o, w) == bit_range(s, o, w),
{
    let k = (l - o - w) as nat;
    lemma_pow2_adds(k, w);
    lemma_pow2_adds(k + w, o);
    assert(k + w + o == l);
    lemma_pow2_pos(o);
    lemma_pow2_pos(w);
    let p = pow2(o) as int;
    let m = pow2(w) as int;
    let t = c as int * pow2(k) as int;
    assert(c as int * pow2(l) as int == (t * m) * p) by (nonlinear_arith)
        requires
            pow2(l) as int == (pow2(k) as int * m) * p,
            t == c as int * pow2(k) as int,
    ;
    lemma_hoist_over_denominator(s as int, t * m, pow2(o));
    lemma_mod_multiples_vanish(t, s as int / p, m);
    assert(m * t == t * m) by (nonlinear_arith);
}

/// `2^n` as a machine word.
pub fn pow2_u128(n: usize) -> (r: u128)
    requires
        n <= 120,
    ensures
        r as nat == pow2(n as nat),
{
    let mut r: u128 = 1;
    let mut i: usize = 0;
    proof {
        lemma2_to64();
    }
    while i < n
        invariant
            i <= n,
            n <= 120,
            r as nat == pow2(i as nat),
        decreases n - i,
    {
        proof {
            lemma_pow2_unfold((i + 1) as nat);
            lemma_pow2_le((i + 1) as nat, 120);
            lemma_pow2_120();
        }
        r = r * 2;
        i = i + 1;
    }
    r
}

} // verus!
