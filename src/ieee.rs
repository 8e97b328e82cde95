//! IEEE-754 binary floating-point values, read from their bit patterns.
//!
//! A finite value is measured in units of the smallest positive subnormal of
//! its format (`2^-149` for single, `2^-1074` for double precision): every
//! finite magnitude is a whole number of such units, so values and the
//! correctly rounded results of arithmetic on them can be stated over natural
//! numbers.
use vstd::prelude::*;
use vstd::arithmetic::power2::{pow2, lemma2_to64, lemma2_to64_rest, lemma_pow2_adds, lemma_pow2_strictly_increases};
use crate::bignat::BigNat;

verus! {

/// The two binary interchange formats.
#[derive(Clone, Copy, Debug, PartialEq, Eq, Structural)]
pub enum Precision {
    Single,
    Double,
}

/// What a bit pattern encodes, apart from its sign.
#[derive(Clone, Copy, Debug, PartialEq, Eq, Structural)]
pub enum FloatClass {
    Nan,
    Infinite,
    Finite,
}

/// `2^fraction_bits`: one more than the largest fraction field.
pub open spec fn frac_scale(p: Precision) -> nat {
    match p {
        Precision::Single => 0x80_0000,
        Precision::Double => 0x10_0000_0000_0000,
    }
}

/// The number of explicit fraction bits.
pub open spec fn frac_bits(p: Precision) -> nat {
    match p {
        Precision::Single => 23,
        Precision::Double => 52,
    }
}

/// `2^exponent_bits`: one more than the largest exponent field.
pub open spec fn exp_count(p: Precision) -> nat {
    match p {
        Precision::Single => 0x100,
        Precision::Double => 0x800,
    }
}

/// The weight of the sign bit.
pub open spec fn sign_scale(p: Precision) -> nat {
    match p {
        Precision::Single => 0x8000_0000,
        Precision::Double => 0x8000_0000_0000_0000,
    }
}

/// `bias - 1`: the smallest normal value is `2^-(bias - 1)`.
pub open spec fn normal_shift(p: Precision) -> nat {
    match p {
        Precision::Single => 126,
        Precision::Double => 1022,
    }
}

/// The smallest subnormal value is `2^-unit_shift`.
pub open spec fn unit_shift(p: Precision) -> nat {
    match p {
        Precision::Single => 149,
        Precision::Double => 1074,
    }
}

/// Whether `bits` is a bit pattern of the format.
pub open spec fn fits(p: Precision, bits: nat) -> bool {
    bits < 2 * sign_scale(p)
}

pub open spec fn exp_field(p: Precision, bits: nat) -> nat {
    (bits / frac_scale(p)) % exp_count(p)
}

pub open spec fn frac_field(p: Precision, bits: nat) -> nat {
    bits % frac_scale(p)
}

pub open spec fn is_negative(p: Precision, bits: nat) -> bool {
    bits >= sign_scale(p)
}

pub open spec fn class(p: Precision, bits: nat) -> FloatClass {
    if exp_field(p, bits) + 1 == exp_count(p) {
        if frac_field(p, bits) == 0 {
            FloatClass::Infinite
        } else {
            FloatClass::Nan
        }
    } else {
        FloatClass::Finite
    }
}

/// The absolute value of a finite pattern, in units of the smallest subnormal.
pub open spec fn magnitude(p: Precision, bits: nat) -> nat {
    let e = exp_field(p, bits);
    let f = frac_field(p, bits);
    if e == 0 {
        f
    } else {
        (frac_scale(p) + f) * pow2((e - 1) as nat)
    }
}

/// The smallest positive normal value, in units.
pub open spec fn min_normal(p: Precision) -> nat {
    frac_scale(p)
}

/// The largest finite value, in units.
pub open spec fn max_magnitude(p: Precision) -> nat {
    ((2 * frac_scale(p) - 1) * pow2((exp_count(p) - 3) as nat)) as nat
}

/// A value of one of the formats, given by its bit pattern.
pub trait IeeeFloat: Sized {
    spec fn spec_precision() -> Precision;

    spec fn raw(&self) -> nat;

    /// The format of this type.
    fn precision() -> (r: Precision)
        ensures
            r == Self::spec_precision(),
    ;

    /// The bit pattern, widened to 64 bits.
    fn to_raw(&self) -> (r: u64)
        ensures
            r == self.raw(),
            fits(Self::spec_precision(), r as nat),
    ;
}

/// Types with a smallest positive normal value.
pub trait FloatMinPositive: IeeeFloat {
    /// Returns the smallest positive, normalized value that this type can represent.
    fn min_positive_value() -> (r: Self)
        ensures
            class(Self::spec_precision(), r.raw()) == FloatClass::Finite,
            !is_negative(Self::spec_precision(), r.raw()),
            magnitude(Self::spec_precision(), r.raw()) == min_normal(Self::spec_precision()),
    ;
}

/// A single-precision (32-bit) value, by its bit pattern.
#[derive(Clone, Copy, Debug, PartialEq, Eq, Structural)]
pub struct Binary32 {
    pub bits: u32,
}

/// A double-precision (64-bit) value, by its bit pattern.
#[derive(Clone, Copy, Debug, PartialEq, Eq, Structural)]
pub struct Binary64 {
    pub bits: u64,
}

impl Binary32 {
    pub fn from_bits(bits: u32) -> (r: Binary32)
        ensures
            r.bits == bits,
    {
        Binary32 { bits }
    }
}

impl Binary64 {
    pub fn from_bits(bits: u64) -> (r: Binary64)
        ensures
            r.bits == bits,
    {
        Binary64 { bits }
    }
}

impl IeeeFloat for Binary32 {
    open spec fn spec_precision() -> Precision {
        Precision::Single
    }

    open spec fn raw(&self) -> nat {
        self.bits as nat
    }

    fn precision() -> (r: Precision) {
        Precision::Single
    }

    fn to_raw(&self) -> (r: u64) {
        self.bits as u64
    }
}

impl IeeeFloat for Binary64 {
    open spec fn spec_precision() -> Precision {
        Precision::Double
    }

    open spec fn raw(&self) -> nat {
        self.bits as nat
    }

    fn precision() -> (r: Precision) {
        Precision::Double
    }

    fn to_raw(&self) -> (r: u64) {
        self.bits
    }
}

impl FloatMinPositive for Binary32 {
    fn min_positive_value() -> (r: Self) {
        proof {
            lemma2_to64();
            assert(exp_field(Precision::Single, 0x80_0000) == 1);
            assert(frac_field(Precision::Single, 0x80_0000) == 0);
            assert(pow2(0) == 1);
            assert(magnitude(Precision::Single, 0x80_0000) == (0x80_0000 + 0) * pow2(0));
        }
        Binary32 { bits: 0x80_0000 }
    }
}

impl FloatMinPositive for Binary64 {
    fn min_positive_value() -> (r: Self) {
        proof {
            lemma2_to64();
            assert(exp_field(Precision::Double, 0x10_0000_0000_0000) == 1);
            assert(frac_field(Precision::Double, 0x10_0000_0000_0000) == 0);
            assert(pow2(0) == 1);
            assert(magnitude(Precision::Double, 0x10_0000_0000_0000) == (0x10_0000_0000_0000 + 0) * pow2(0));
        }
        Binary64 { bits: 0x10_0000_0000_0000 }
    }
}

pub fn frac_scale_of(p: Precision) -> (r: u64)
    ensures
        r == frac_scale(p),
{
    match p {
        Precision::Single => 0x80_0000,
        Precision::Double => 0x10_0000_0000_0000,
    }
}

pub fn exp_count_of(p: Precision) -> (r: u64)
    ensures
        r == exp_count(p),
{
    match p {
        Precision::Single => 0x100,
        Precision::Double => 0x800,
    }
}

/// Whether the pattern has its sign bit set.
pub fn sign_of(p: Precision, bits: u64) -> (r: bool)
    requires
        fits(p, bits as nat),
    ensures
        r == is_negative(p, bits as nat),
{
    match p {
        Precision::Single => bits >= 0x8000_0000,
        Precision::Double => bits >= 0x8000_0000_0000_0000,
    }
}

/// What the pattern encodes.
pub fn class_of(p: Precision, bits: u64) -> (r: FloatClass)
    ensures
        r == class(p, bits as nat),
{
    let fs = frac_scale_of(p);
    let ec = exp_count_of(p);
    let e = (bits / fs) % ec;
    let f = bits % fs;
    if e + 1 == ec {
        if f == 0 {
            FloatClass::Infinite
        } else {
            FloatClass::Nan
        }
    } else {
        FloatClass::Finite
    }
}

/// The significand and the power of two that give the magnitude of the pattern.
pub fn significand_of(p: Precision, bits: u64) -> (r: (u64, u32))
    ensures
        magnitude(p, bits as nat) == r.0 * pow2(r.1 as nat),
        r.0 < 2 * frac_scale(p),
{
    let fs = frac_scale_of(p);
    let ec = exp_count_of(p);
    let e = (bits / fs) % ec;
    let f = bits % fs;
    proof {
        lemma2_to64();
    }
    if e == 0 {
        assert(f * pow2(0) == f);
        (f, 0)
    } else {
        (fs + f, (e - 1) as u32)
    }
}

pub fn frac_bits_of(p: Precision) -> (r: u32)
    ensures
        r == frac_bits(p),
{
    match p {
        Precision::Single => 23,
        Precision::Double => 52,
    }
}

pub proof fn lemma_frac_scale(p: Precision)
    ensures
        frac_scale(p) == pow2(frac_bits(p)),
        2 * frac_scale(p) == pow2(frac_bits(p) + 1),
        frac_bits(p) <= 52,
{
    lemma2_to64();
    lemma2_to64_rest();
}

/// Every finite magnitude stays below `2^2100` units.
pub proof fn lemma_magnitude_bound(p: Precision, bits: nat)
    requires
        class(p, bits) == FloatClass::Finite,
    ensures
        magnitude(p, bits) < pow2(2100),
{
    lemma_frac_scale(p);
    lemma_pow2_strictly_increases(53, 2100);
    let e = exp_field(p, bits);
    let f = frac_field(p, bits);
    if e == 0 {
        lemma_pow2_strictly_increases(frac_bits(p), 2100);
    } else {
        let k = pow2((e - 1) as nat);
        vstd::arithmetic::power2::lemma_pow2_pos((e - 1) as nat);
        if e - 1 < 2045 {
            lemma_pow2_strictly_increases((e - 1) as nat, 2045);
        }
        if frac_bits(p) < 52 {
            lemma_pow2_strictly_increases(frac_bits(p) + 1, 53);
        }
        lemma_pow2_adds(53, 2045);
        lemma_pow2_strictly_increases(2098, 2100);
        let a = frac_scale(p) + f;
        assert(a * k < pow2(53) * pow2(2045)) by (nonlinear_arith)
            requires
                a < pow2(53),
                k <= pow2(2045),
                k > 0,
        ;
    }
}

/// The largest finite value, in units.
pub fn max_magnitude_of(p: Precision) -> (r: BigNat)
    ensures
        r@ == max_magnitude(p),
{
    let fs = frac_scale_of(p);
    let ec = exp_count_of(p);
    BigNat::from_u64(2 * fs - 1).shl((ec - 3) as u32)
}

} // verus!
