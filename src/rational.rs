//! Exact rational numbers, as signed fractions of machine integers.
//!
//! The arithmetic itself is done by the `fraction` crate through its checked
//! operations; this module states what those operations compute.
use fraction::{CheckedAdd, CheckedDiv, CheckedMul, CheckedSub, Fraction, GenericFraction, Sign};
use vstd::prelude::*;

verus! {

/// Magnitude below which one arithmetic step on two values cannot overflow.
pub const SMALL_LIMIT: u64 = 0x8000_0000;

/// A rational number `(-1)^neg * num / den`. Different triples may stand for
/// the same value; `same` is equality of values.
#[derive(Clone, Copy, Debug)]
pub struct Rational {
    pub neg: bool,
    pub num: u64,
    pub den: u64,
}

/// How a node of the possibility tree was produced from its parent.
#[derive(Clone, Copy, Debug, PartialEq, Eq, Structural)]
pub enum OpType {
    Plus,
    Minus,
    Multiply,
    Divide,
    NoOp,
}

impl Rational {
    /// A denominator of zero stands for no number.
    pub open spec fn wf(self) -> bool {
        self.den > 0
    }

    /// The signed numerator.
    pub open spec fn num_int(self) -> int {
        if self.neg {
            -(self.num as int)
        } else {
            self.num as int
        }
    }

    /// `self` stands for the fraction `n / d`.
    pub open spec fn is_value(self, n: int, d: int) -> bool {
        self.num_int() * d == n * self.den
    }

    /// Both stand for the same number.
    pub open spec fn same(self, other: Rational) -> bool {
        self.is_value(other.num_int(), other.den as int)
    }

    pub open spec fn is_zero(self) -> bool {
        self.num == 0
    }

    /// Small enough that one step of `+ - * /` with another small value
    /// stays within `u64`.
    pub open spec fn small(self) -> bool {
        self.num <= SMALL_LIMIT && self.den <= SMALL_LIMIT
    }

    /// The value is a whole number.
    pub open spec fn is_integer(self) -> bool {
        (self.num as int) % (self.den as int) == 0
    }

    pub fn from_int(v: i64) -> (r: Rational)
        ensures
            r.wf(),
            r.num_int() == v as int,
            r.den == 1,
    {
        if v < 0 {
            let m: u64 = if v == i64::MIN {
                0x8000_0000_0000_0000u64
            } else {
                (-v) as u64
            };
            Rational { neg: true, num: m, den: 1 }
        } else {
            Rational { neg: false, num: v as u64, den: 1 }
        }
    }

    pub fn is_zero_value(&self) -> (r: bool)
        ensures
            r == self.is_zero(),
    {
        self.num == 0
    }

    /// Whether two rationals stand for the same number.
    pub fn same_value(&self, other: &Rational) -> (r: bool)
        requires
            self.wf(),
            other.wf(),
        ensures
            r == self.same(*other),
    {
        proof {
            let (x, y, p, q) = (self.num as int, other.num as int, self.den as int, other.den as int);
            assert(x * q <= u128::MAX && y * p <= u128::MAX) by (nonlinear_arith)
                requires 0 <= x <= u64::MAX, 0 <= y <= u64::MAX, 0 <= p <= u64::MAX, 0 <= q <= u64::MAX;
        }
        let a: u128 = (self.num as u128) * (other.den as u128);
        let b: u128 = (other.num as u128) * (self.den as u128);
        proof {
            let x = self.num as int;
            let y = other.num as int;
            let p = self.den as int;
            let q = other.den as int;
            assert(a == x * q && b == y * p);
            assert(x * q == 0 <==> x == 0) by (nonlinear_arith)
                requires q > 0, x >= 0;
            assert(y * p == 0 <==> y == 0) by (nonlinear_arith)
                requires p > 0, y >= 0;
            assert((-x) * q == -(x * q)) by (nonlinear_arith);
            assert((-y) * p == -(y * p)) by (nonlinear_arith);
        }
        if a == 0 && b == 0 {
            true
        } else {
            a == b && self.neg == other.neg
        }
    }
}

/// What applying `op` to `a` and `b` gives, when `r` is the result.
pub open spec fn op_result(op: OpType, a: Rational, b: Rational, r: Rational) -> bool {
    let (an, ad, bn, bd) = (a.num_int(), a.den as int, b.num_int(), b.den as int);
    r.wf() && match op {
        OpType::Plus => r.is_value(an * bd + bn * ad, ad * bd),
        OpType::Minus => r.is_value(an * bd - bn * ad, ad * bd),
        OpType::Multiply => r.is_value(an * bn, ad * bd),
        OpType::Divide => !b.is_zero() && r.is_value(an * bd, ad * bn),
        OpType::NoOp => false,
    }
}

/// Relies on `CheckedAdd` for `fraction::Fraction`: the exact sum, or `None`
/// when a `u64` step of it overflows (never for two small values).
#[verifier::external_body]
fn checked_sum(a: Rational, b: Rational) -> (r: Option<Rational>)
    requires
        a.wf(),
        b.wf(),
    ensures
        r matches Some(x) ==> op_result(OpType::Plus, a, b, x),
        a.small() && b.small() ==> r.is_some(),
{
    let x = Fraction::new_raw_signed(if a.neg { Sign::Minus } else { Sign::Plus }, a.num, a.den);
    let y = Fraction::new_raw_signed(if b.neg { Sign::Minus } else { Sign::Plus }, b.num, b.den);
    match x.checked_add(&y) {
        Some(GenericFraction::Rational(Sign::Minus, q)) => Some(Rational { neg: true, num: *q.numer(), den: *q.denom() }),
        Some(GenericFraction::Rational(Sign::Plus, q)) => Some(Rational { neg: false, num: *q.numer(), den: *q.denom() }),
        _ => None,
    }
}

/// Relies on `CheckedSub` for `fraction::Fraction`: the exact difference, or
/// `None` when a `u64` step of it overflows (never for two small values).
#[verifier::external_body]
fn checked_difference(a: Rational, b: Rational) -> (r: Option<Rational>)
    requires
        a.wf(),
        b.wf(),
    ensures
        r matches Some(x) ==> op_result(OpType::Minus, a, b, x),
        a.small() && b.small() ==> r.is_some(),
{
    let x = Fraction::new_raw_signed(if a.neg { Sign::Minus } else { Sign::Plus }, a.num, a.den);
    let y = Fraction::new_raw_signed(if b.neg { Sign::Minus } else { Sign::Plus }, b.num, b.den);
    match x.checked_sub(&y) {
        Some(GenericFraction::Rational(Sign::Minus, q)) => Some(Rational { neg: true, num: *q.numer(), den: *q.denom() }),
        Some(GenericFraction::Rational(Sign::Plus, q)) => Some(Rational { neg: false, num: *q.numer(), den: *q.denom() }),
        _ => None,
    }
}

/// Relies on `CheckedMul` for `fraction::Fraction`: the exact product, or
/// `None` when a `u64` step of it overflows (never for two small values).
#[verifier::external_body]
fn checked_product(a: Rational, b: Rational) -> (r: Option<Rational>)
    requires
        a.wf(),
        b.wf(),
    ensures
        r matches Some(x) ==> op_result(OpType::Multiply, a, b, x),
        a.small() && b.small() ==> r.is_some(),
{
    let x = Fraction::new_raw_signed(if a.neg { Sign::Minus } else { Sign::Plus }, a.num, a.den);
    let y = Fraction::new_raw_signed(if b.neg { Sign::Minus } else { Sign::Plus }, b.num, b.den);
    match x.checked_mul(&y) {
        Some(GenericFraction::Rational(Sign::Minus, q)) => Some(Rational { neg: true, num: *q.numer(), den: *q.denom() }),
        Some(GenericFraction::Rational(Sign::Plus, q)) => Some(Rational { neg: false, num: *q.numer(), den: *q.denom() }),
        _ => None,
    }
}

/// Relies on `CheckedDiv` for `fraction::Fraction`: the exact quotient; a
/// zero divisor gives infinity or NaN there, which is `None` here, as is a
/// `u64` overflow (never for two small values).
#[verifier::external_body]
fn checked_quotient(a: Rational, b: Rational) -> (r: Option<Rational>)
    requires
        a.wf(),
        b.wf(),
    ensures
        r matches Some(x) ==> op_result(OpType::Divide, a, b, x),
        a.small() && b.small() && !b.is_zero() ==> r.is_some(),
{
    let x = Fraction::new_raw_signed(if a.neg { Sign::Minus } else { Sign::Plus }, a.num, a.den);
    let y = Fraction::new_raw_signed(if b.neg { Sign::Minus } else { Sign::Plus }, b.num, b.den);
    match x.checked_div(&y) {
        Some(GenericFraction::Rational(Sign::Minus, q)) => Some(Rational { neg: true, num: *q.numer(), den: *q.denom() }),
        Some(GenericFraction::Rational(Sign::Plus, q)) => Some(Rational { neg: false, num: *q.numer(), den: *q.denom() }),
        _ => None,
    }
}

/// Applies one of the four operations; `None` for a zero divisor, for
/// `OpType::NoOp`, and when the exact result does not fit.
pub fn apply_op(op: OpType, a: Rational, b: Rational) -> (r: Option<Rational>)
    requires
        a.wf(),
        b.wf(),
    ensures
        r matches Some(x) ==> op_result(op, a, b, x),
        op != OpType::NoOp && a.small() && b.small() && !(op == OpType::Divide && b.is_zero())
            ==> r.is_some(),
        op == OpType::NoOp ==> r.is_none(),
{
    match op {
        OpType::Plus => checked_sum(a, b),
        OpType::Minus => checked_difference(a, b),
        OpType::Multiply => checked_product(a, b),
        OpType::Divide => {
            if b.is_zero_value() {
                None
            } else {
                checked_quotient(a, b)
            }
        },
        OpType::NoOp => None,
    }
}

/// Whether the value is a whole number.
pub fn value_is_integer(val: Rational) -> (r: bool)
    requires
        val.wf(),
    ensures
        r == val.is_integer(),
{
    let rem = val.num % val.den;
    proof {
        let n = val.num as int;
        let d = val.den as int;
        assert(rem == n % d);
    }
    rem == 0
}

/// Whether the value is a whole number that is not negative.
pub fn value_is_positive_integer(val: Rational) -> (r: bool)
    requires
        val.wf(),
    ensures
        r == (val.is_integer() && val.num_int() >= 0),
{
    value_is_integer(val) && (!val.neg || val.num == 0)
}

} // verus!
