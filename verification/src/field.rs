//! A concrete prime field supplying the primitive interface the circuit core
//! consumes: additive and multiplicative identities, negation, addition,
//! multiplication, inversion, exponentiation and canonical bit decomposition.
//! Elements are canonical residues modulo the Mersenne prime `2^31 - 1`.

use vstd::prelude::*;

verus! {

use vstd::arithmetic::div_mod::{
    lemma_mul_mod_noop_general, lemma_mod_multiples_vanish, lemma_small_mod,
};
use vstd::arithmetic::power2::pow2;

/// The order of the field: the Mersenne prime `2^31 - 1`.
pub const FIELD_ORDER: u64 = 2147483647;

/// Number of bits in the canonical representation of a field element.
pub const FIELD_BITS: usize = 31;

/// A canonical residue: a field element is well formed when its
/// representative lies in `[0, FIELD_ORDER)`.
pub open spec fn fwf(a: int) -> bool {
    0 <= a < FIELD_ORDER as int
}

/// Field addition on canonical representatives.
pub open spec fn fadd(a: int, b: int) -> int {
    (a + b) % (FIELD_ORDER as int)
}

/// Field negation on canonical representatives.
pub open spec fn fneg(a: int) -> int {
    (FIELD_ORDER as int - a) % (FIELD_ORDER as int)
}

/// Field subtraction, defined as addition of the negation.
pub open spec fn fsub(a: int, b: int) -> int {
    fadd(a, fneg(b))
}

/// Field multiplication on canonical representatives.
pub open spec fn fmul(a: int, b: int) -> int {
    (a * b) % (FIELD_ORDER as int)
}

/// Field exponentiation by a natural number.
pub open spec fn fpow(a: int, e: nat) -> int
    decreases e,
{
    if e == 0 {
        1
    } else {
        fmul(a, fpow(a, (e - 1) as nat))
    }
}

/// Bit `i` of the canonical little-endian binary decomposition of `v`.
pub open spec fn bit_of(v: int, i: nat) -> int {
    (v / pow2(i) as int) % 2
}

/// An element of the prime field, held as its canonical representative.
#[derive(Copy, Clone, PartialEq, Eq, Hash, Debug, Structural)]
pub struct Field {
    pub value: u64,
}

impl Field {
    /// The canonical representative as a mathematical integer.
    pub open spec fn as_int(self) -> int {
        self.value as int
    }

    /// Whether the representative is canonical (reduced modulo the order).
    pub open spec fn wf(self) -> bool {
        fwf(self.as_int())
    }

    /// The additive identity.
    pub fn zero() -> (r: Field)
        ensures
            r.wf(),
            r.as_int() == 0,
    {
        Field { value: 0 }
    }

    /// The multiplicative identity.
    pub fn one() -> (r: Field)
        ensures
            r.wf(),
            r.as_int() == 1,
    {
        Field { value: 1 }
    }

    /// The negation of the multiplicative identity.
    pub fn neg_one() -> (r: Field)
        ensures
            r.wf(),
            r.as_int() == FIELD_ORDER as int - 1,
            r.as_int() == fneg(1),
    {
        proof {
            lemma_small_mod((FIELD_ORDER - 1) as nat, FIELD_ORDER as nat);
        }
        Field { value: FIELD_ORDER - 1 }
    }

    /// Reduce an arbitrary machine integer into the field.
    pub fn from_canonical_u64(v: u64) -> (r: Field)
        ensures
            r.wf(),
            r.as_int() == v as int % (FIELD_ORDER as int),
    {
        Field { value: v % FIELD_ORDER }
    }

    /// Reduce a 32-bit integer into the field.
    pub fn from_canonical_u32(v: u32) -> (r: Field)
        ensures
            r.wf(),
            r.as_int() == v as int % (FIELD_ORDER as int),
    {
        Field::from_canonical_u64(v as u64)
    }

    /// Reduce a machine-sized integer into the field.
    pub fn from_canonical_usize(v: usize) -> (r: Field)
        ensures
            r.wf(),
            r.as_int() == v as int % (FIELD_ORDER as int),
    {
        Field::from_canonical_u64(v as u64)
    }

    /// Embed a boolean as `0` or `1`.
    pub fn from_canonical_bool(b: bool) -> (r: Field)
        ensures
            r.wf(),
            r.as_int() == if b { 1int } else { 0int },
    {
        Field { value: if b { 1 } else { 0 } }
    }

    /// The canonical representative as a machine integer.
    pub fn to_u64(&self) -> (r: u64)
        ensures
            r as int == self.as_int(),
    {
        self.value
    }

    /// Whether this element is the additive identity.
    pub fn is_zero(&self) -> (r: bool)
        ensures
            r == (self.as_int() == 0),
    {
        self.value == 0
    }

    /// Field addition.
    pub fn add(self, rhs: Field) -> (r: Field)
        requires
            self.wf(),
            rhs.wf(),
        ensures
            r.wf(),
            r.as_int() == fadd(self.as_int(), rhs.as_int()),
    {
        Field { value: (self.value + rhs.value) % FIELD_ORDER }
    }

    /// Field negation.
    pub fn neg(self) -> (r: Field)
        requires
            self.wf(),
        ensures
            r.wf(),
            r.as_int() == fneg(self.as_int()),
    {
        Field { value: (FIELD_ORDER - self.value) % FIELD_ORDER }
    }

    /// Field subtraction.
    pub fn sub(self, rhs: Field) -> (r: Field)
        requires
            self.wf(),
            rhs.wf(),
        ensures
            r.wf(),
            r.as_int() == fsub(self.as_int(), rhs.as_int()),
    {
        self.add(rhs.neg())
    }

    /// Field multiplication.
    pub fn mul(self, rhs: Field) -> (r: Field)
        requires
            self.wf(),
            rhs.wf(),
        ensures
            r.wf(),
            r.as_int() == fmul(self.as_int(), rhs.as_int()),
    {
        proof {
            assert((self.value as int) * (rhs.value as int) < 0x4000000000000000)
                by (nonlinear_arith)
                requires
                    self.value < 0x80000000,
                    rhs.value < 0x80000000,
            ;
        }
        Field { value: (self.value * rhs.value) % FIELD_ORDER }
    }

    /// Field exponentiation by square and multiply.
    pub fn exp(self, e: u64) -> (r: Field)
        requires
            self.wf(),
        ensures
            r.wf(),
            r.as_int() == fpow(self.as_int(), e as nat),
    {
        let mut result = Field::one();
        let mut base = self;
        let mut k: u64 = e;
        proof {
            lemma_fpow_wf(self.as_int(), e as nat);
        }
        while k > 0
            invariant
                result.wf(),
                base.wf(),
                fmul(result.as_int(), fpow(base.as_int(), k as nat))
                    == fpow(self.as_int(), e as nat),
            decreases k,
        {
            let ghost r0: int = result.as_int();
            let ghost b0: int = base.as_int();
            let ghost k0: nat = k as nat;
            if k % 2 == 1 {
                result = result.mul(base);
                proof {
                    lemma_fpow_odd(r0, b0, k0);
                }
            } else {
                proof {
                    lemma_fpow_even(r0, b0, k0);
                }
            }
            base = base.mul(base);
            k = k / 2;
        }
        proof {
            lemma_fmul_one_right(result.as_int());
        }
        result
    }

    /// The multiplicative inverse, computed by exponentiation and then
    /// checked: `Some` is returned only when the product with `self` is the
    /// multiplicative identity, so the additive identity always yields `None`.
    pub fn multiplicative_inverse(self) -> (r: Option<Field>)
        requires
            self.wf(),
        ensures
            r is Some ==> r.unwrap().wf() && fmul(self.as_int(), r.unwrap().as_int()) == 1,
            self.as_int() == 0 ==> r is None,
    {
        let candidate = self.exp(FIELD_ORDER - 2);
        let product = self.mul(candidate);
        proof {
            lemma_fmul_zero(candidate.as_int());
        }
        if product.value == 1 {
            Some(candidate)
        } else {
            None
        }
    }

    /// Bit `i` of the canonical little-endian binary decomposition.
    pub fn canonical_bit(&self, i: usize) -> (b: bool)
        requires
            self.wf(),
            i < 64,
        ensures
            b == (bit_of(self.as_int(), i as nat) == 1),
    {
        let mut v: u64 = self.value;
        let mut j: usize = 0;
        proof {
            vstd::arithmetic::power2::lemma2_to64();
        }
        while j < i
            invariant
                j <= i,
                v as int == self.as_int() / pow2(j as nat) as int,
                pow2(j as nat) > 0,
            decreases i - j,
        {
            proof {
                vstd::arithmetic::power2::lemma_pow2_adds(j as nat, 1);
                vstd::arithmetic::power2::lemma2_to64();
                vstd::arithmetic::div_mod::lemma_div_denominator(
                    self.as_int(),
                    pow2(j as nat) as int,
                    2,
                );
            }
            v = v / 2;
            j = j + 1;
        }
        v % 2 == 1
    }

    /// Number of significant bits: the least `n` with `value < 2^n`.
    pub fn num_bits(&self) -> (r: usize)
        requires
            self.wf(),
        ensures
            r <= 64,
            self.as_int() < pow2(r as nat) as int,
            r > 0 ==> pow2((r - 1) as nat) as int <= self.as_int(),
    {
        let mut v: u64 = self.value;
        let mut n: usize = 0;
        proof {
            vstd::arithmetic::power2::lemma2_to64();
        }
        while v > 0
            invariant
                self.wf(),
                n <= 31,
                v as int == self.as_int() / pow2(n as nat) as int,
                pow2(n as nat) > 0,
                n > 0 ==> pow2((n - 1) as nat) as int <= self.as_int(),
            decreases v,
        {
            proof {
                vstd::arithmetic::power2::lemma2_to64();
                let p2: int = pow2(n as nat) as int;
                vstd::arithmetic::div_mod::lemma_fundamental_div_mod(self.as_int(), p2);
                vstd::arithmetic::div_mod::lemma_mod_bound(self.as_int(), p2);
                assert(p2 <= p2 * (v as int)) by (nonlinear_arith)
                    requires
                        v >= 1,
                        p2 > 0,
                ;
                assert(p2 <= self.as_int());
                assert(n < 31);
                vstd::arithmetic::power2::lemma_pow2_adds(n as nat, 1);
                vstd::arithmetic::div_mod::lemma_div_denominator(
                    self.as_int(),
                    p2,
                    2,
                );
            }
            v = v / 2;
            n = n + 1;
        }
        proof {
            vstd::arithmetic::power2::lemma_pow2_pos(n as nat);
            vstd::arithmetic::div_mod::lemma_fundamental_div_mod(
                self.as_int(),
                pow2(n as nat) as int,
            );
            vstd::arithmetic::div_mod::lemma_mod_bound(
                self.as_int(),
                pow2(n as nat) as int,
            );
            assert(pow2(n as nat) as int * 0 == 0)
                by (nonlinear_arith);
        }
        n
    }
}

/// A product of canonical representatives is canonical.
pub proof fn lemma_fmul_wf(a: int, b: int)
    ensures
        fwf(fmul(a, b)),
{
}

/// A power of a canonical representative is canonical.
pub proof fn lemma_fpow_wf(a: int, e: nat)
    ensures
        e > 0 ==> fwf(fpow(a, e)),
        fpow(a, 0) == 1,
    decreases e,
{
    if e > 0 {
        lemma_fmul_wf(a, fpow(a, (e - 1) as nat));
    }
}

/// The multiplicative identity is neutral on the left.
pub proof fn lemma_fmul_one_left(a: int)
    requires
        fwf(a),
    ensures
        fmul(1, a) == a,
{
    lemma_small_mod(a as nat, FIELD_ORDER as nat);
}

/// The multiplicative identity is neutral on the right.
pub proof fn lemma_fmul_one_right(a: int)
    requires
        fwf(a),
    ensures
        fmul(a, 1) == a,
{
    lemma_small_mod(a as nat, FIELD_ORDER as nat);
}

/// The additive identity is neutral.
pub proof fn lemma_fadd_zero(a: int)
    requires
        fwf(a),
    ensures
        fadd(a, 0) == a,
        fadd(0, a) == a,
{
    lemma_small_mod(a as nat, FIELD_ORDER as nat);
}

/// Multiplication by the additive identity annihilates.
pub proof fn lemma_fmul_zero(a: int)
    ensures
        fmul(a, 0) == 0,
        fmul(0, a) == 0,
{
}

/// Field multiplication is commutative.
pub proof fn lemma_fmul_comm(a: int, b: int)
    ensures
        fmul(a, b) == fmul(b, a),
{
}

/// Field multiplication is associative.
pub proof fn lemma_fmul_assoc(a: int, b: int, c: int)
    ensures
        fmul(fmul(a, b), c) == fmul(a, fmul(b, c)),
{
    let p = FIELD_ORDER as int;
    lemma_mul_mod_noop_general(a * b, c, p);
    lemma_mul_mod_noop_general(a, b * c, p);
    assert((a * b) * c == a * (b * c)) by {
        vstd::arithmetic::mul::lemma_mul_is_associative(a, b, c);
    }
}

/// Multiplying by the negation of the identity negates.
pub proof fn lemma_fmul_neg_one(a: int)
    requires
        fwf(a),
    ensures
        fmul(a, FIELD_ORDER as int - 1) == fneg(a),
        fmul(FIELD_ORDER as int - 1, a) == fneg(a),
{
    let p = FIELD_ORDER as int;
    assert(a * (p - 1) == p * a + (-a)) by {
        vstd::arithmetic::mul::lemma_mul_is_distributive_sub(a, p, 1);
        vstd::arithmetic::mul::lemma_mul_is_commutative(a, p);
    }
    lemma_mod_multiples_vanish(a, -a, p);
    assert((-a) % p == (p - a) % p) by {
        lemma_mod_multiples_vanish(1, -a, p);
    }
    lemma_fmul_comm(a, p - 1);
}

/// Splitting off a square: an even exponent factors through the square
/// of the base.
pub proof fn lemma_fpow_even(r: int, b: int, k: nat)
    requires
        k % 2 == 0,
    ensures
        fmul(r, fpow(b, k)) == fmul(r, fpow(fmul(b, b), k / 2)),
    decreases k,
{
    if k >= 2 {
        let kk = (k - 2) as nat;
        assert(fpow(b, (k - 1) as nat) == fmul(b, fpow(b, kk)));
        assert(fpow(b, k) == fmul(b, fmul(b, fpow(b, kk))));
        lemma_fmul_assoc(b, b, fpow(b, kk));
        assert(fmul(fmul(b, b), fpow(b, kk)) == fmul(fpow(b, kk), fmul(b, b))) by {
            lemma_fmul_comm(fmul(b, b), fpow(b, kk));
        }
        lemma_fpow_even(fpow(b, kk), b, 0);
        lemma_fpow_even(r, b, kk);
        // fpow(bb, k/2) unfolds to fmul(bb, fpow(bb, kk/2))
        assert(fpow(fmul(b, b), k / 2) == fmul(fmul(b, b), fpow(fmul(b, b), kk / 2)));
        assert(fmul(r, fpow(b, k)) == fmul(r, fmul(fmul(b, b), fpow(b, kk)))) by {
            assert(fpow(b, k) == fmul(fmul(b, b), fpow(b, kk))) by {
                lemma_fmul_assoc(b, b, fpow(b, kk));
            }
        }
        assert(fmul(r, fmul(fmul(b, b), fpow(b, kk)))
            == fmul(fmul(r, fmul(b, b)), fpow(b, kk))) by {
            lemma_fmul_assoc(r, fmul(b, b), fpow(b, kk));
        }
        lemma_fpow_even(fmul(r, fmul(b, b)), b, kk);
        assert(fmul(fmul(r, fmul(b, b)), fpow(fmul(b, b), kk / 2))
            == fmul(r, fmul(fmul(b, b), fpow(fmul(b, b), kk / 2)))) by {
            lemma_fmul_assoc(r, fmul(b, b), fpow(fmul(b, b), kk / 2));
        }
    }
}

/// Splitting off a square with one leftover factor, for odd exponents.
pub proof fn lemma_fpow_odd(r: int, b: int, k: nat)
    requires
        k % 2 == 1,
    ensures
        fmul(r, fpow(b, k)) == fmul(fmul(r, b), fpow(fmul(b, b), k / 2)),
{
    let kk = (k - 1) as nat;
    assert(fpow(b, k) == fmul(b, fpow(b, kk)));
    assert(fmul(r, fmul(b, fpow(b, kk))) == fmul(fmul(r, b), fpow(b, kk))) by {
        lemma_fmul_assoc(r, b, fpow(b, kk));
    }
    lemma_fpow_even(fmul(r, b), b, kk);
    assert(kk / 2 == k / 2);
}


/// Exponents add: a power of a sum of exponents is the product of the
/// powers.
pub proof fn lemma_fpow_adds(a: int, m: nat, n: nat)
    ensures
        fpow(a, m + n) == fmul(fpow(a, m), fpow(a, n)),
    decreases m,
{
    if m == 0 {
        lemma_fpow_wf(a, n);
        if n == 0 {
            assert(fmul(1, 1) == 1);
        } else {
            lemma_fmul_one_left(fpow(a, n));
        }
    } else {
        lemma_fpow_adds(a, (m - 1) as nat, n);
        assert(fpow(a, m + n) == fmul(a, fpow(a, (m + n - 1) as nat)));
        assert(fpow(a, (m - 1) as nat + n) == fmul(fpow(a, (m - 1) as nat), fpow(a, n)));
        lemma_fmul_assoc(a, fpow(a, (m - 1) as nat), fpow(a, n));
    }
}

} // verus!
