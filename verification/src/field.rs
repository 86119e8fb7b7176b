//! The Mersenne-31 prime field, the base field of every circuit in this crate.
use vstd::prelude::*;

verus! {

/// The field characteristic, `2^31 - 1`.
pub const MERSENNE31_ORDER: u32 = 0x7fff_ffff;

/// Number of bits of the characteristic.
pub const CHAR_BITS: usize = 31;

/// The residue of `v` modulo the field characteristic.
pub open spec fn residue(v: int) -> int {
    v % 0x7fff_ffff
}

/// An element of the field, kept as its canonical residue.
#[derive(Clone, Copy, PartialEq, Eq, Structural, Debug, Hash)]
pub struct Mersenne31Field {
    value: u32,
}

impl View for Mersenne31Field {
    type V = int;

    closed spec fn view(&self) -> int {
        self.value as int
    }
}

impl Mersenne31Field {
    #[verifier::type_invariant]
    closed spec fn is_reduced(self) -> bool {
        self.value < MERSENNE31_ORDER
    }

    /// The element with canonical residue `value`.
    pub fn new(value: u32) -> (r: Self)
        requires
            value < MERSENNE31_ORDER,
        ensures
            r@ == value,
    {
        Mersenne31Field { value }
    }

    /// The additive identity.
    pub fn zero() -> (r: Self)
        ensures
            r@ == 0,
    {
        Mersenne31Field { value: 0 }
    }

    /// The multiplicative identity.
    pub fn one() -> (r: Self)
        ensures
            r@ == 1,
    {
        Mersenne31Field { value: 1 }
    }

    /// The residue class of an arbitrary 32-bit word.
    pub fn from_nonreduced_u32(value: u32) -> (r: Self)
        ensures
            r@ == residue(value as int),
    {
        Mersenne31Field { value: value % MERSENNE31_ORDER }
    }

    /// The element with canonical residue `value`, given as a 64-bit word.
    pub fn from_u64_unchecked(value: u64) -> (r: Self)
        requires
            value < MERSENNE31_ORDER,
        ensures
            r@ == value,
    {
        Mersenne31Field { value: value as u32 }
    }

    /// The canonical residue.
    pub fn to_reduced_u32(&self) -> (r: u32)
        ensures
            r == self@,
            r < MERSENNE31_ORDER,
    {
        proof {
            use_type_invariant(self);
        }
        self.value
    }

    /// The canonical residue, as a 64-bit word.
    pub fn as_u64_reduced(&self) -> (r: u64)
        ensures
            r == self@,
            r < MERSENNE31_ORDER,
    {
        proof {
            use_type_invariant(self);
        }
        self.value as u64
    }

    pub fn add_assign(&mut self, other: &Self)
        ensures
            final(self)@ == residue(old(self)@ + other@),
    {
        proof {
            use_type_invariant(&*self);
            use_type_invariant(other);
        }
        let sum: u64 = self.value as u64 + other.value as u64;
        *self = Mersenne31Field { value: (sum % 0x7fff_ffff) as u32 };
    }

    pub fn sub_assign(&mut self, other: &Self)
        ensures
            final(self)@ == residue(old(self)@ - other@),
    {
        proof {
            use_type_invariant(&*self);
            use_type_invariant(other);
            let d = self@ - other@;
            assert((d + 0x7fff_ffff) % 0x7fff_ffff == d % 0x7fff_ffff);
        }
        let difference: u64 = self.value as u64 + 0x7fff_ffff - other.value as u64;
        *self = Mersenne31Field { value: (difference % 0x7fff_ffff) as u32 };
    }

    pub fn mul_assign(&mut self, other: &Self)
        ensures
            final(self)@ == residue(old(self)@ * other@),
    {
        proof {
            use_type_invariant(&*self);
            use_type_invariant(other);
            let (a, b) = (self.value as int, other.value as int);
            assert(0 <= a * b <= 0x7fff_fffe * 0x7fff_fffe) by (nonlinear_arith)
                requires
                    0 <= a <= 0x7fff_fffe,
                    0 <= b <= 0x7fff_fffe,
            ;
        }
        let product: u64 = self.value as u64 * other.value as u64;
        *self = Mersenne31Field { value: (product % 0x7fff_ffff) as u32 };
    }

    /// The inverse of `2^exponent`, namely `2^(31 - exponent)`, since `2^31` is one in the field.
    pub fn inverse_of_power_of_two(exponent: u32) -> (r: Self)
        requires
            0 < exponent < 31,
        ensures
            r@ == (1u32 << ((31 - exponent) as u32)) as int,
            residue(r@ * (1u32 << exponent)) == 1,
    {
        let rest: u32 = 31 - exponent;
        proof {
            assert((1u32 << rest) < 0x7fff_ffff && (1u32 << rest) * (1u32 << exponent)
                == 0x8000_0000) by (bit_vector)
                requires
                    0 < exponent < 31,
                    rest == 31 - exponent,
            ;
        }
        Mersenne31Field { value: 1u32 << rest }
    }
}

/// Reducing an operand does not change the residue of a sum or of a product.
pub proof fn lemma_residue_absorb(a: int, b: int)
    ensures
        residue(residue(a) + b) == residue(a + b),
        residue(a + residue(b)) == residue(a + b),
        residue(residue(a) + residue(b)) == residue(a + b),
        residue(residue(a) * b) == residue(a * b),
        residue(a * residue(b)) == residue(a * b),
        residue(residue(a) * residue(b)) == residue(a * b),
        residue(residue(a)) == residue(a),
{
    vstd::arithmetic::div_mod::lemma_add_mod_noop(a, b, 0x7fff_ffff);
    vstd::arithmetic::div_mod::lemma_mul_mod_noop(a, b, 0x7fff_ffff);
    vstd::arithmetic::div_mod::lemma_mul_mod_noop(residue(a), b, 0x7fff_ffff);
    vstd::arithmetic::div_mod::lemma_mul_mod_noop(a, residue(b), 0x7fff_ffff);
}

/// Integers that lie in the canonical range are their own residues.
pub proof fn lemma_residue_small(a: int)
    requires
        0 <= a < 0x7fff_ffff,
    ensures
        residue(a) == a,
{
}

/// A residue lies below `2^31 - 1` and differs from its number by a multiple of that; no other
/// number does.
pub proof fn law_residues(v: int, r: int)
    ensures
        residue(v) == r <==> 0 <= r < 0x7fff_ffff && (v - r) % 0x7fff_ffff == 0,
{
    assert(v - v % 0x7fff_ffff == 0x7fff_ffff * (v / 0x7fff_ffff));
    if 0 <= r < 0x7fff_ffff && (v - r) % 0x7fff_ffff == 0 {
        let n = (v - r) / 0x7fff_ffff;
        assert(v == 0x7fff_ffff * n + r);
    }
}

/// The field has `2^31 - 1` elements.
pub proof fn law_size_of_the_field()
    ensures
        MERSENNE31_ORDER == vstd::arithmetic::power2::pow2(CHAR_BITS as nat) - 1,
        CHAR_BITS == 31,
{
    vstd::arithmetic::power2::lemma2_to64();
}

} // verus!
