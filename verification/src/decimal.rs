//! The numeric value type of the calculator.
//!
//! A `Dec` holds the constituent parts of a `rust_decimal::Decimal` as plain
//! integers: a signed 96-bit mantissa and a scale (the power of ten the
//! mantissa is divided by), so the rest of the library can reason about
//! values directly.  The arithmetic itself is done by `rust_decimal`, behind
//! the trusted wrappers below; each operation's result is given a name by an
//! uninterpreted spec function, since its rounding behaviour is the outside
//! crate's own.

use rust_decimal::MathematicalOps;
use vstd::prelude::*;

verus! {

/// Largest mantissa magnitude a `rust_decimal::Decimal` can carry: 2^96 - 1.
pub const MAX_MANTISSA: i128 = 79228162514264337593543950335;

/// Largest scale a `rust_decimal::Decimal` can carry.
pub const MAX_SCALE: u32 = 28;

/// A decimal value: `mantissa / 10^scale`.
#[derive(Debug, Clone, Copy, PartialEq, Eq, Structural)]
pub struct Dec {
    pub mantissa: i128,
    pub scale: u32,
}

impl Dec {
    /// The parts lie within the ranges `rust_decimal::Decimal` supports.
    pub open spec fn valid(self) -> bool {
        &&& -MAX_MANTISSA <= self.mantissa <= MAX_MANTISSA
        &&& self.scale <= MAX_SCALE
    }

    /// The value denoted is exactly zero.
    pub open spec fn is_zero(self) -> bool {
        self.mantissa == 0
    }
}

/// What `Decimal::checked_add` returns on these operands.
pub uninterp spec fn add_of(a: Dec, b: Dec) -> Option<Dec>;

/// What `Decimal::checked_sub` returns on these operands.
pub uninterp spec fn sub_of(a: Dec, b: Dec) -> Option<Dec>;

/// What `Decimal::checked_mul` returns on these operands.
pub uninterp spec fn mul_of(a: Dec, b: Dec) -> Option<Dec>;

/// What `Decimal::checked_div` returns on these operands (divisor non-zero).
pub uninterp spec fn div_of(a: Dec, b: Dec) -> Option<Dec>;

/// What `Decimal::checked_powd` returns on base `a` and exponent `b`.
pub uninterp spec fn powd_of(a: Dec, b: Dec) -> Option<Dec>;

/// What `Decimal::checked_sin` returns on this operand.
pub uninterp spec fn sin_of(a: Dec) -> Option<Dec>;

/// What `Decimal::checked_cos` returns on this operand.
pub uninterp spec fn cos_of(a: Dec) -> Option<Dec>;

/// What `Decimal::checked_tan` returns on this operand.
pub uninterp spec fn tan_of(a: Dec) -> Option<Dec>;

/// What `Decimal::checked_ln` returns on this operand.
pub uninterp spec fn ln_of(a: Dec) -> Option<Dec>;

/// What `Decimal::checked_log10` returns on this operand.
pub uninterp spec fn log10_of(a: Dec) -> Option<Dec>;

/// What `Decimal::checked_exp` returns on this operand.
pub uninterp spec fn exp_of(a: Dec) -> Option<Dec>;

/// What `Decimal::sqrt` returns on this operand.
pub uninterp spec fn sqrt_of(a: Dec) -> Option<Dec>;

/// Relies on `Decimal::checked_add` (addition, `None` on overflow), with
/// `Decimal::from_i128_with_scale`, `mantissa` and `scale` converting at the
/// boundary.
#[verifier::external_body]
pub(crate) fn dec_add(a: Dec, b: Dec) -> (r: Option<Dec>)
    requires
        a.valid(),
        b.valid(),
    ensures
        r == add_of(a, b),
        r matches Some(c) ==> c.valid(),
{
    let x = rust_decimal::Decimal::from_i128_with_scale(a.mantissa, a.scale);
    let y = rust_decimal::Decimal::from_i128_with_scale(b.mantissa, b.scale);
    x.checked_add(y).map(|d| Dec { mantissa: d.mantissa(), scale: d.scale() })
}

/// Relies on `Decimal::checked_sub` (subtraction, `None` on overflow).
#[verifier::external_body]
pub(crate) fn dec_sub(a: Dec, b: Dec) -> (r: Option<Dec>)
    requires
        a.valid(),
        b.valid(),
    ensures
        r == sub_of(a, b),
        r matches Some(c) ==> c.valid(),
{
    let x = rust_decimal::Decimal::from_i128_with_scale(a.mantissa, a.scale);
    let y = rust_decimal::Decimal::from_i128_with_scale(b.mantissa, b.scale);
    x.checked_sub(y).map(|d| Dec { mantissa: d.mantissa(), scale: d.scale() })
}

/// Relies on `Decimal::checked_mul` (multiplication, `None` on overflow).
#[verifier::external_body]
pub(crate) fn dec_mul(a: Dec, b: Dec) -> (r: Option<Dec>)
    requires
        a.valid(),
        b.valid(),
    ensures
        r == mul_of(a, b),
        r matches Some(c) ==> c.valid(),
{
    let x = rust_decimal::Decimal::from_i128_with_scale(a.mantissa, a.scale);
    let y = rust_decimal::Decimal::from_i128_with_scale(b.mantissa, b.scale);
    x.checked_mul(y).map(|d| Dec { mantissa: d.mantissa(), scale: d.scale() })
}

/// Relies on `Decimal::checked_div` (division, `None` on overflow).  The
/// zero divisor, on which its `None` would instead mean division by zero,
/// is excluded here and handled by the caller.
#[verifier::external_body]
pub(crate) fn dec_div(a: Dec, b: Dec) -> (r: Option<Dec>)
    requires
        a.valid(),
        b.valid(),
        !b.is_zero(),
    ensures
        r == div_of(a, b),
        r matches Some(c) ==> c.valid(),
{
    let x = rust_decimal::Decimal::from_i128_with_scale(a.mantissa, a.scale);
    let y = rust_decimal::Decimal::from_i128_with_scale(b.mantissa, b.scale);
    x.checked_div(y).map(|d| Dec { mantissa: d.mantissa(), scale: d.scale() })
}

/// Relies on `Decimal::checked_powd` of the `MathematicalOps` trait
/// (decimal exponentiation, `None` on overflow).
#[verifier::external_body]
pub(crate) fn dec_powd(a: Dec, b: Dec) -> (r: Option<Dec>)
    requires
        a.valid(),
        b.valid(),
    ensures
        r == powd_of(a, b),
        r matches Some(c) ==> c.valid(),
{
    let x = rust_decimal::Decimal::from_i128_with_scale(a.mantissa, a.scale);
    let y = rust_decimal::Decimal::from_i128_with_scale(b.mantissa, b.scale);
    x.checked_powd(y).map(|d| Dec { mantissa: d.mantissa(), scale: d.scale() })
}

/// Relies on `Decimal::checked_sin` of the `MathematicalOps` trait.
#[verifier::external_body]
pub(crate) fn dec_sin(a: Dec) -> (r: Option<Dec>)
    requires
        a.valid(),
    ensures
        r == sin_of(a),
        r matches Some(c) ==> c.valid(),
{
    let x = rust_decimal::Decimal::from_i128_with_scale(a.mantissa, a.scale);
    x.checked_sin().map(|d| Dec { mantissa: d.mantissa(), scale: d.scale() })
}

/// Relies on `Decimal::checked_cos` of the `MathematicalOps` trait.
#[verifier::external_body]
pub(crate) fn dec_cos(a: Dec) -> (r: Option<Dec>)
    requires
        a.valid(),
    ensures
        r == cos_of(a),
        r matches Some(c) ==> c.valid(),
{
    let x = rust_decimal::Decimal::from_i128_with_scale(a.mantissa, a.scale);
    x.checked_cos().map(|d| Dec { mantissa: d.mantissa(), scale: d.scale() })
}

/// Relies on `Decimal::checked_tan` of the `MathematicalOps` trait.
#[verifier::external_body]
pub(crate) fn dec_tan(a: Dec) -> (r: Option<Dec>)
    requires
        a.valid(),
    ensures
        r == tan_of(a),
        r matches Some(c) ==> c.valid(),
{
    let x = rust_decimal::Decimal::from_i128_with_scale(a.mantissa, a.scale);
    x.checked_tan().map(|d| Dec { mantissa: d.mantissa(), scale: d.scale() })
}

/// Relies on `Decimal::checked_ln` of the `MathematicalOps` trait.
#[verifier::external_body]
pub(crate) fn dec_ln(a: Dec) -> (r: Option<Dec>)
    requires
        a.valid(),
    ensures
        r == ln_of(a),
        r matches Some(c) ==> c.valid(),
{
    let x = rust_decimal::Decimal::from_i128_with_scale(a.mantissa, a.scale);
    x.checked_ln().map(|d| Dec { mantissa: d.mantissa(), scale: d.scale() })
}

/// Relies on `Decimal::checked_log10` of the `MathematicalOps` trait; its
/// source returns `None` outright for zero and negative operands.
#[verifier::external_body]
pub(crate) fn dec_log10(a: Dec) -> (r: Option<Dec>)
    requires
        a.valid(),
    ensures
        r == log10_of(a),
        r matches Some(c) ==> c.valid(),
        a.mantissa <= 0 ==> r is None,
{
    let x = rust_decimal::Decimal::from_i128_with_scale(a.mantissa, a.scale);
    x.checked_log10().map(|d| Dec { mantissa: d.mantissa(), scale: d.scale() })
}

/// Relies on `Decimal::checked_exp` of the `MathematicalOps` trait.
#[verifier::external_body]
pub(crate) fn dec_exp(a: Dec) -> (r: Option<Dec>)
    requires
        a.valid(),
    ensures
        r == exp_of(a),
        r matches Some(c) ==> c.valid(),
{
    let x = rust_decimal::Decimal::from_i128_with_scale(a.mantissa, a.scale);
    x.checked_exp().map(|d| Dec { mantissa: d.mantissa(), scale: d.scale() })
}

/// Relies on `Decimal::sqrt` of the `MathematicalOps` trait; its source
/// returns `None` exactly for negative operands.
#[verifier::external_body]
pub(crate) fn dec_sqrt(a: Dec) -> (r: Option<Dec>)
    requires
        a.valid(),
    ensures
        r == sqrt_of(a),
        r matches Some(c) ==> c.valid(),
        r is Some <==> a.mantissa >= 0,
{
    let x = rust_decimal::Decimal::from_i128_with_scale(a.mantissa, a.scale);
    x.sqrt().map(|d| Dec { mantissa: d.mantissa(), scale: d.scale() })
}

/// The value of `Decimal::PI`: 3.1415926535897932384626433833.
pub open spec fn pi_dec() -> Dec {
    Dec { mantissa: 31415926535897932384626433833i128, scale: 28u32 }
}

/// The value of `Decimal::E`: 2.7182818284590452353602874714.
pub open spec fn e_dec() -> Dec {
    Dec { mantissa: 27182818284590452353602874714i128, scale: 28u32 }
}

/// Relies on the constant `Decimal::PI`, documented as
/// 3.1415926535897932384626433833.
#[verifier::external_body]
pub(crate) fn dec_pi() -> (r: Dec)
    ensures
        r == pi_dec(),
{
    let d = rust_decimal::Decimal::PI;
    Dec { mantissa: d.mantissa(), scale: d.scale() }
}

/// Relies on the constant `Decimal::E`, documented as
/// 2.7182818284590452353602874714.
#[verifier::external_body]
pub(crate) fn dec_e() -> (r: Dec)
    ensures
        r == e_dec(),
{
    let d = rust_decimal::Decimal::E;
    Dec { mantissa: d.mantissa(), scale: d.scale() }
}

} // verus!
