//! The numeric tower: integers with checked arithmetic, and doubles whose
//! arithmetic is named and left to the caller.

use vstd::prelude::*;
use crate::errors::{agrees, Fault, SyaError};
use crate::text::{decimal, decimal_text};

verus! {

/// The sign bit of a double.
pub const SIGN_BIT: u64 = 0x8000_0000_0000_0000;

/// A number: an integer, or a double held as its IEEE 754 bit pattern.
#[derive(Debug, PartialEq, Eq, Clone, Copy, Structural)]
pub enum Number {
    Integer(i64),
    Float(u64),
}

/// One step of double-precision arithmetic, left to the caller. An `Integer`
/// operand stands for the double nearest to it. `Add`, `Sub`, `Mul` and `Div`
/// take their operands in the order written; `Powi` raises the double with
/// the given bits to the given power. The answer is the bit pattern of the
/// resulting double.
#[derive(Debug, PartialEq, Eq, Clone, Copy, Structural)]
pub enum FloatOp {
    Add(Number, Number),
    Sub(Number, Number),
    Mul(Number, Number),
    Div(Number, Number),
    Powi(u64, u32),
}

/// What an operation of the tower comes to: a value, or the floating-point
/// step whose result is the value.
#[derive(Debug, PartialEq, Eq, Clone, Copy, Structural)]
pub enum Outcome {
    Value(Number),
    Deferred(FloatOp),
}

/// Whether `n` is the value of an `i64`.
pub open spec fn fits(n: int) -> bool {
    i64::MIN <= n <= i64::MAX
}

/// The integer `n` where an `i64` holds it, else the overflow that names it.
pub open spec fn checked(n: int) -> Result<Outcome, Fault> {
    if fits(n) {
        Ok(Outcome::Value(Number::Integer(n as i64)))
    } else {
        Err(Fault::NumberOverflow(decimal(n)))
    }
}

/// `base` raised to `exp`; anything raised to 0 is 1.
pub open spec fn int_pow(base: int, exp: nat) -> int
    decreases exp,
{
    if exp == 0 {
        1
    } else {
        int_pow(base, (exp - 1) as nat) * base
    }
}

/// The text of the overflow that a double in place of an exponent gives.
pub open spec fn float_exponent() -> Seq<char> {
    "float"@
}

impl Number {
    /// Whether the number compares equal to zero. Both zeros of the doubles do.
    pub open spec fn is_zero(self) -> bool {
        match self {
            Number::Integer(i) => i == 0,
            Number::Float(bits) => bits == 0 || bits == SIGN_BIT,
        }
    }

    /// The number with its sign flipped: for a double, with its sign bit flipped.
    pub open spec fn negated(self) -> Number {
        match self {
            Number::Integer(i) => Number::Integer((-i) as i64),
            Number::Float(bits) => Number::Float(
                if bits >= SIGN_BIT {
                    (bits - SIGN_BIT) as u64
                } else {
                    (bits + SIGN_BIT) as u64
                },
            ),
        }
    }

    /// The negation, or the overflow where the number is the least integer.
    pub open spec fn negation(self) -> Result<Number, Fault> {
        match self {
            Number::Integer(i) if !fits(-i) => Err(Fault::NumberOverflow(decimal(-i))),
            _ => Ok(self.negated()),
        }
    }

    /// Two integers give their checked sum; with a double among them the sum
    /// is one of doubles.
    pub open spec fn sum(self, other: Number) -> Result<Outcome, Fault> {
        match (self, other) {
            (Number::Integer(a), Number::Integer(b)) => checked(a + b),
            _ => Ok(Outcome::Deferred(FloatOp::Add(self, other))),
        }
    }

    /// Two integers give their checked difference; with a double among them
    /// the difference is one of doubles.
    pub open spec fn difference(self, other: Number) -> Result<Outcome, Fault> {
        match (self, other) {
            (Number::Integer(a), Number::Integer(b)) => checked(a - b),
            _ => Ok(Outcome::Deferred(FloatOp::Sub(self, other))),
        }
    }

    /// Two integers give their checked product; with a double among them the
    /// product is one of doubles.
    pub open spec fn product(self, other: Number) -> Result<Outcome, Fault> {
        match (self, other) {
            (Number::Integer(a), Number::Integer(b)) => checked(a * b),
            _ => Ok(Outcome::Deferred(FloatOp::Mul(self, other))),
        }
    }

    /// Division fails on a zero divisor, integer or double. Two integers give
    /// their checked quotient where the division leaves no remainder; every
    /// other pair is divided as doubles.
    pub open spec fn quotient(self, other: Number) -> Result<Outcome, Fault> {
        if other.is_zero() {
            Err(Fault::DivisionByZero)
        } else {
            match (self, other) {
                (Number::Integer(a), Number::Integer(b)) if a % b == 0 => checked(a / b),
                _ => Ok(Outcome::Deferred(FloatOp::Div(self, other))),
            }
        }
    }

    /// An integer gives its power where an `i64` holds it, else the overflow
    /// that names the exponent; a double is raised as a double.
    pub open spec fn power(self, exp: u32) -> Result<Outcome, Fault> {
        match self {
            Number::Integer(a) => if fits(int_pow(a as int, exp as nat)) {
                Ok(Outcome::Value(Number::Integer(int_pow(a as int, exp as nat) as i64)))
            } else {
                Err(Fault::NumberOverflow(decimal(exp as int)))
            },
            Number::Float(bits) => Ok(Outcome::Deferred(FloatOp::Powi(bits, exp))),
        }
    }

    /// The number as an exponent: an integer from 0 to `u32::MAX`.
    pub open spec fn exponent(self) -> Result<u32, Fault> {
        match self {
            Number::Integer(i) => if 0 <= i <= u32::MAX {
                Ok(i as u32)
            } else {
                Err(Fault::NumberOverflow(decimal(i as int)))
            },
            Number::Float(_) => Err(Fault::NumberOverflow(float_exponent())),
        }
    }

    /// The number as an exponent. It fails with a `NumberOverflow` on a
    /// negative integer, on one beyond `u32::MAX`, and on any double.
    pub fn as_u32(self) -> (r: Result<u32, SyaError>)
        ensures
            agrees(r, self.exponent()),
    {
        match self {
            Number::Integer(i) => {
                if 0 <= i && i <= 0xffff_ffff {
                    Ok(i as u32)
                } else {
                    Err(SyaError::NumberOverflow(decimal_text(i as i128)))
                }
            },
            Number::Float(_) => Err(SyaError::NumberOverflow(String::from_str("float"))),
        }
    }

    /// Flips the sign and keeps the kind. The least integer has no negation
    /// among the integers: `checked_neg` reports it.
    pub fn negate(self) -> (r: Number)
        requires
            self != Number::Integer(i64::MIN),
        ensures
            r == self.negated(),
    {
        match self {
            Number::Integer(i) => Number::Integer(-i),
            Number::Float(bits) => Number::Float(
                if bits >= SIGN_BIT {
                    bits - SIGN_BIT
                } else {
                    bits + SIGN_BIT
                },
            ),
        }
    }

    /// Flips the sign, or fails with a `NumberOverflow` on the least integer.
    pub fn checked_neg(self) -> (r: Result<Number, SyaError>)
        ensures
            agrees(r, self.negation()),
    {
        match self {
            Number::Integer(i) if i == i64::MIN => Err(
                SyaError::NumberOverflow(decimal_text(-(i as i128))),
            ),
            _ => Ok(self.negate()),
        }
    }

    /// Adds. Two integers give an integer, or a `NumberOverflow` that names
    /// the sum; any other pair gives the addition to carry out on doubles.
    pub fn checked_add(self, other: Number) -> (r: Result<Outcome, SyaError>)
        ensures
            agrees(r, self.sum(other)),
    {
        match (self, other) {
            (Number::Integer(a), Number::Integer(b)) => match a.checked_add(b) {
                Some(c) => Ok(Outcome::Value(Number::Integer(c))),
                None => Err(SyaError::NumberOverflow(decimal_text(a as i128 + b as i128))),
            },
            _ => Ok(Outcome::Deferred(FloatOp::Add(self, other))),
        }
    }

    /// Subtracts `other`. Two integers give an integer, or a `NumberOverflow`
    /// that names the difference; any other pair gives the subtraction to
    /// carry out on doubles.
    pub fn checked_sub(self, other: Number) -> (r: Result<Outcome, SyaError>)
        ensures
            agrees(r, self.difference(other)),
    {
        match (self, other) {
            (Number::Integer(a), Number::Integer(b)) => match a.checked_sub(b) {
                Some(c) => Ok(Outcome::Value(Number::Integer(c))),
                None => Err(SyaError::NumberOverflow(decimal_text(a as i128 - b as i128))),
            },
            _ => Ok(Outcome::Deferred(FloatOp::Sub(self, other))),
        }
    }

    /// Multiplies. Two integers give an integer, or a `NumberOverflow` that
    /// names the product; any other pair gives the multiplication to carry
    /// out on doubles.
    pub fn checked_mul(self, other: Number) -> (r: Result<Outcome, SyaError>)
        ensures
            agrees(r, self.product(other)),
    {
        match (self, other) {
            (Number::Integer(a), Number::Integer(b)) => match a.checked_mul(b) {
                Some(c) => Ok(Outcome::Value(Number::Integer(c))),
                None => {
                    proof {
                        lemma_product_bound(a as int, b as int);
                    }
                    Err(SyaError::NumberOverflow(decimal_text(a as i128 * b as i128)))
                },
            },
            _ => Ok(Outcome::Deferred(FloatOp::Mul(self, other))),
        }
    }

    /// Divides by `other`. A zero divisor gives `DivisionByZero`. Two
    /// integers whose division leaves no remainder give the quotient as an
    /// integer, or a `NumberOverflow` where the least integer is divided by
    /// -1; any other pair gives the division to carry out on doubles.
    pub fn checked_div(self, other: Number) -> (r: Result<Outcome, SyaError>)
        ensures
            agrees(r, self.quotient(other)),
    {
        match (self, other) {
            (Number::Integer(a), Number::Integer(b)) => {
                if b == 0 {
                    return Err(SyaError::DivisionByZero);
                }
                if b == -1 {
                    // the quotient by -1 is the negation, which may overflow
                    assert(a % b == 0 && a / b == 0 - a) by (nonlinear_arith)
                        requires
                            b == -1,
                    ;
                    return Number::Integer(0).checked_sub(self);
                }
                proof {
                    lemma_quotient_fits(a as int, b as int);
                }
                match (a.checked_rem_euclid(b), a.checked_div_euclid(b)) {
                    (Some(0), Some(q)) => Ok(Outcome::Value(Number::Integer(q))),
                    _ => Ok(Outcome::Deferred(FloatOp::Div(self, other))),
                }
            },
            (_, Number::Float(bits)) => {
                if bits == 0 || bits == SIGN_BIT {
                    Err(SyaError::DivisionByZero)
                } else {
                    Ok(Outcome::Deferred(FloatOp::Div(self, other)))
                }
            },
            (_, Number::Integer(b)) => {
                if b == 0 {
                    Err(SyaError::DivisionByZero)
                } else {
                    Ok(Outcome::Deferred(FloatOp::Div(self, other)))
                }
            },
        }
    }

    /// Raises to the power `exp`. An integer gives an integer, or a
    /// `NumberOverflow` that names the exponent; a double gives the power to
    /// carry out on doubles.
    pub fn checked_pow(self, exp: u32) -> (r: Result<Outcome, SyaError>)
        ensures
            agrees(r, self.power(exp)),
    {
        match self {
            Number::Integer(a) => {
                if a == 0 || a == 1 || a == -1 {
                    proof {
                        lemma_pow_unit(a as int, exp as nat);
                    }
                    let p: i64 = if exp == 0 || a == 1 {
                        1
                    } else if a == 0 {
                        0
                    } else if exp % 2 == 0 {
                        1
                    } else {
                        -1
                    };
                    return Ok(Outcome::Value(Number::Integer(p)));
                }
                let mut acc: i64 = 1;
                let mut k: u32 = 0;
                while k < exp
                    invariant
                        k <= exp,
                        self == Number::Integer(a),
                        a >= 2 || a <= -2,
                        acc == int_pow(a as int, k as nat),
                    decreases exp - k,
                {
                    match acc.checked_mul(a) {
                        Some(next) => {
                            acc = next;
                            k = k + 1;
                        },
                        None => {
                            proof {
                                assert(int_pow(a as int, (k + 1) as nat) == acc * a);
                                lemma_pow_grows(a as int, (k + 1) as nat, exp as nat);
                            }
                            return Err(SyaError::NumberOverflow(decimal_text(exp as i128)));
                        },
                    }
                }
                Ok(Outcome::Value(Number::Integer(acc)))
            },
            Number::Float(bits) => Ok(Outcome::Deferred(FloatOp::Powi(bits, exp))),
        }
    }
}

/// Whether an outcome is an integer or an error.
pub open spec fn stays_integer(r: Result<Outcome, Fault>) -> bool {
    match r {
        Ok(Outcome::Value(Number::Integer(_))) => true,
        Ok(_) => false,
        Err(_) => true,
    }
}

/// The kinds of the tower. Arithmetic on two integers stays with the
/// integers, but for a division that leaves a remainder. Arithmetic with a
/// double is arithmetic on doubles, and the only error it can give is a
/// division by zero. Negation keeps the kind.
pub proof fn lemma_tower_kinds(a: Number, b: Number, exp: u32)
    ensures
        a is Integer && b is Integer ==> stays_integer(a.sum(b)),
        a is Integer && b is Integer ==> stays_integer(a.difference(b)),
        a is Integer && b is Integer ==> stays_integer(a.product(b)),
        a is Integer && b is Integer ==> stays_integer(a.quotient(b)) || (a.quotient(b)
            == Ok::<Outcome, Fault>(Outcome::Deferred(FloatOp::Div(a, b))) && a->Integer_0
            % b->Integer_0 != 0),
        a is Integer ==> stays_integer(a.power(exp)),
        a is Float || b is Float ==> a.sum(b) == Ok::<Outcome, Fault>(
            Outcome::Deferred(FloatOp::Add(a, b)),
        ),
        a is Float || b is Float ==> a.difference(b) == Ok::<Outcome, Fault>(
            Outcome::Deferred(FloatOp::Sub(a, b)),
        ),
        a is Float || b is Float ==> a.product(b) == Ok::<Outcome, Fault>(
            Outcome::Deferred(FloatOp::Mul(a, b)),
        ),
        a is Float || b is Float ==> a.quotient(b) == if b.is_zero() {
            Err::<Outcome, Fault>(Fault::DivisionByZero)
        } else {
            Ok(Outcome::Deferred(FloatOp::Div(a, b)))
        },
        a is Float ==> a.power(exp) == Ok::<Outcome, Fault>(
            Outcome::Deferred(FloatOp::Powi(a->Float_0, exp)),
        ),
        a.negated() is Integer <==> a is Integer,
{
}

/// The powers of 0, 1 and -1.
proof fn lemma_pow_unit(base: int, exp: nat)
    requires
        -1 <= base <= 1,
    ensures
        int_pow(base, exp) == if exp == 0 || base == 1 {
            1int
        } else if base == 0 {
            0
        } else if exp % 2 == 0 {
            1
        } else {
            -1
        },
    decreases exp,
{
    if exp > 0 {
        lemma_pow_unit(base, (exp - 1) as nat);
        let below = int_pow(base, (exp - 1) as nat);
        assert(int_pow(base, exp) == below * base);
        if base == 1 {
            assert(below * 1 == below);
        } else if base == 0 {
            assert(below * 0 == 0);
        } else {
            assert(below * (-1) == -below);
        }
    }
}

/// A quotient of two `i64` values is one too, unless the divisor is -1.
proof fn lemma_quotient_fits(a: int, b: int)
    requires
        fits(a),
        fits(b),
        b != 0,
        b != -1,
    ensures
        fits(a / b),
        fits(a % b),
{
    assert(-0x8000_0000_0000_0000 <= a / b <= 0x7fff_ffff_ffff_ffff && -0x8000_0000_0000_0000
        <= a % b <= 0x7fff_ffff_ffff_ffff) by (nonlinear_arith)
        requires
            -0x8000_0000_0000_0000 <= a <= 0x7fff_ffff_ffff_ffff,
            -0x8000_0000_0000_0000 <= b <= 0x7fff_ffff_ffff_ffff,
            b != 0,
            b != -1,
    ;
}

/// From a base of magnitude two or more, a later power has a magnitude no
/// smaller than an earlier one, so a power that overflows is not followed by
/// one that fits.
proof fn lemma_pow_grows(base: int, from: nat, to: nat)
    requires
        base >= 2 || base <= -2,
        from <= to,
        !fits(int_pow(base, from)),
    ensures
        !fits(int_pow(base, to)),
    decreases to - from,
{
    if from < to {
        let p = int_pow(base, from);
        assert(int_pow(base, from + 1) == p * base);
        assert(!fits(p * base)) by (nonlinear_arith)
            requires
                base >= 2 || base <= -2,
                p > 0x7fff_ffff_ffff_ffff || p < -0x8000_0000_0000_0000,
        ;
        lemma_pow_grows(base, from + 1, to);
    }
}

/// The product of two `i64` values is the value of an `i128`.
proof fn lemma_product_bound(a: int, b: int)
    requires
        fits(a),
        fits(b),
    ensures
        i128::MIN <= -0x4000_0000_0000_0000_0000_0000_0000_0000 <= a * b
            <= 0x4000_0000_0000_0000_0000_0000_0000_0000 <= i128::MAX,
{
    assert(-0x4000_0000_0000_0000_0000_0000_0000_0000 <= a * b
        <= 0x4000_0000_0000_0000_0000_0000_0000_0000) by (nonlinear_arith)
        requires
            -0x8000_0000_0000_0000 <= a <= 0x8000_0000_0000_0000,
            -0x8000_0000_0000_0000 <= b <= 0x8000_0000_0000_0000,
    ;
}

} // verus!
