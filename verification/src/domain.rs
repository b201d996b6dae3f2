//! Abstract domains for the constant and interval analyses: integer
//! constants, extended integers and intervals, with their joins, widening and
//! abstract arithmetic and comparison.
use vstd::prelude::*;
use crate::interval_sound::{concrete_fits, interval_arith_sound};
use crate::lir::{ArithOp, RelaOp};
use crate::semantics::AbstractSemantics;

verus! {

/// The two numeric abstract domains.
#[derive(Debug, Clone, Copy, PartialEq, Eq, Structural)]
pub enum DomainType {
    Constant,
    Interval,
}

/// The constant domain: no value, any value, or exactly one value.
#[derive(Debug, Clone, Copy, PartialEq, Eq, Structural)]
pub enum Constant {
    Bottom,
    Top,
    CInt(i32),
}

/// An integer extended with negative and positive infinity.
#[derive(Debug, Clone, Copy, PartialEq, Eq, Structural, PartialOrd, Ord, Hash)]
pub enum Number {
    NInfinity,
    Integer(i32),
    Infinity,
}

/// The interval domain: the empty interval, all integers, or a range whose
/// bounds are extended integers.
#[derive(Debug, Clone, Copy, PartialEq, Eq, Structural)]
pub enum Interval {
    Bottom,
    Top,
    Range(Number, Number),
}

/// The interval `[1, 1]`: a comparison that holds.
pub open spec fn true_interval() -> Interval {
    Interval::Range(Number::Integer(1), Number::Integer(1))
}

/// The interval `[0, 0]`: a comparison that fails.
pub open spec fn false_interval() -> Interval {
    Interval::Range(Number::Integer(0), Number::Integer(0))
}

/// The interval `[0, 1]`: a comparison that may hold or fail.
pub open spec fn undecided_interval() -> Interval {
    Interval::Range(Number::Integer(0), Number::Integer(1))
}

// ------------------------------------------------------------------
// Extended integers
// ------------------------------------------------------------------

/// The order of extended integers: negative infinity, then the integers, then positive infinity.
pub open spec fn num_le(a: Number, b: Number) -> bool {
    match (a, b) {
        (Number::NInfinity, _) => true,
        (_, Number::Infinity) => true,
        (Number::Integer(x), Number::Integer(y)) => x <= y,
        _ => false,
    }
}

pub open spec fn num_lt(a: Number, b: Number) -> bool {
    num_le(a, b) && a != b
}

/// Decides `a <= b` for extended integers.
pub fn number_le(a: Number, b: Number) -> (r: bool)
    ensures
        r == num_le(a, b),
{
    match (a, b) {
        (Number::NInfinity, _) => true,
        (_, Number::Infinity) => true,
        (Number::Integer(x), Number::Integer(y)) => x <= y,
        _ => false,
    }
}

/// Decides `a < b` for extended integers.
pub fn number_lt(a: Number, b: Number) -> (r: bool)
    ensures
        r == num_lt(a, b),
{
    number_le(a, b) && a != b
}

/// Whether the sum of two extended integers is defined (it is not for opposite infinities).
pub open spec fn add_defined(a: Number, b: Number) -> bool {
    !((a is Infinity && b is NInfinity) || (a is NInfinity && b is Infinity))
}

/// Whether a bound computed from two bounds stays in 32 bits: `v` is the
/// exact value of the operation on two integer bounds.
pub open spec fn fits(v: int) -> bool {
    i32::MIN <= v <= i32::MAX
}

/// The sum of two integer bounds does not leave 32 bits (infinities always fit).
pub open spec fn add_fits(a: Number, b: Number) -> bool {
    match (a, b) {
        (Number::Integer(x), Number::Integer(y)) => fits(x + y),
        _ => true,
    }
}

/// The difference of two integer bounds does not leave 32 bits.
pub open spec fn sub_fits(a: Number, b: Number) -> bool {
    match (a, b) {
        (Number::Integer(x), Number::Integer(y)) => fits(x - y),
        _ => true,
    }
}

/// The product of two integer bounds does not leave 32 bits.
pub open spec fn mul_fits(a: Number, b: Number) -> bool {
    match (a, b) {
        (Number::Integer(x), Number::Integer(y)) => fits(x * y),
        _ => true,
    }
}

/// The sum of two extended integers; integer sums wrap around in 32 bits.
pub open spec fn num_add(a: Number, b: Number) -> Number {
    match (a, b) {
        (Number::Integer(x), Number::Integer(y)) => Number::Integer(x.wrapping_add(y)),
        (Number::Infinity, _) => Number::Infinity,
        (_, Number::Infinity) => Number::Infinity,
        _ => Number::NInfinity,
    }
}

/// Whether the difference of two extended integers is defined (it is not for equal infinities).
pub open spec fn sub_defined(a: Number, b: Number) -> bool {
    !((a is Infinity && b is Infinity) || (a is NInfinity && b is NInfinity))
}

/// The difference of two extended integers; integer differences wrap around in 32 bits.
pub open spec fn num_sub(a: Number, b: Number) -> Number {
    match (a, b) {
        (Number::Integer(x), Number::Integer(y)) => Number::Integer(x.wrapping_sub(y)),
        (Number::Infinity, _) => Number::Infinity,
        (_, Number::NInfinity) => Number::Infinity,
        _ => Number::NInfinity,
    }
}

/// The product of two extended integers: zero absorbs infinities, signs
/// multiply, integer products wrap around in 32 bits.
pub open spec fn num_mul(a: Number, b: Number) -> Number {
    match (a, b) {
        (_, Number::Integer(0)) => Number::Integer(0),
        (Number::Integer(0), _) => Number::Integer(0),
        (Number::Integer(x), Number::Integer(y)) => Number::Integer(x.wrapping_mul(y)),
        (Number::Infinity, Number::Integer(x)) => if x >= 0 {
            Number::Infinity
        } else {
            Number::NInfinity
        },
        (Number::Integer(x), Number::Infinity) => if x >= 0 {
            Number::Infinity
        } else {
            Number::NInfinity
        },
        (Number::NInfinity, Number::Integer(x)) => if x >= 0 {
            Number::NInfinity
        } else {
            Number::Infinity
        },
        (Number::Integer(x), Number::NInfinity) => if x >= 0 {
            Number::NInfinity
        } else {
            Number::Infinity
        },
        (Number::Infinity, Number::Infinity) => Number::Infinity,
        (Number::NInfinity, Number::NInfinity) => Number::Infinity,
        _ => Number::NInfinity,
    }
}

/// Whether the quotient of two extended integers is defined: not for two
/// infinities, and not for the one integer quotient that overflows.
pub open spec fn div_defined(a: Number, b: Number) -> bool {
    match (a, b) {
        (Number::Integer(x), Number::Integer(y)) => !(x == i32::MIN && y == -1),
        (Number::Integer(_), _) => true,
        (_, Number::Integer(_)) => true,
        _ => false,
    }
}

/// The quotient of two extended integers: an integer divided by zero is the
/// infinity of its sign (positive for zero), an infinity divided by an integer
/// keeps or flips its sign, an integer divided by an infinity is zero, and
/// integer quotients are truncated towards zero.
pub open spec fn num_div(a: Number, b: Number) -> Number {
    match (a, b) {
        (Number::Integer(x), Number::Integer(0)) => if x >= 0 {
            Number::Infinity
        } else {
            Number::NInfinity
        },
        (Number::Infinity, Number::Integer(x)) => if x >= 0 {
            Number::Infinity
        } else {
            Number::NInfinity
        },
        (Number::NInfinity, Number::Integer(x)) => if x >= 0 {
            Number::NInfinity
        } else {
            Number::Infinity
        },
        (Number::Integer(_), Number::Infinity) => Number::Integer(0),
        (Number::Integer(_), Number::NInfinity) => Number::Integer(0),
        (Number::Integer(x), Number::Integer(y)) => Number::Integer(x.checked_div(y).unwrap()),
        _ => Number::Integer(0),
    }
}

/// Truncating integer division is defined except by zero and for the one overflowing case.
pub proof fn lemma_checked_div_some(x: i32, y: i32)
    requires
        y != 0,
        !(x == i32::MIN && y == -1),
    ensures
        x.checked_div(y) is Some,
{
    let a = x as int;
    let d = y as int;
    if a > 0 && d > 0 {
        assert(0 <= a / d <= a) by (nonlinear_arith)
            requires
                a > 0,
                d > 0,
        ;
    } else if a < 0 && d < 0 {
        if d == -1 {
            assert((a * -1) / (d * -1) == a * -1) by (nonlinear_arith)
                requires
                    d == -1,
            ;
        } else {
            assert(0 <= (a * -1) / (d * -1) <= (a * -1) / 2) by (nonlinear_arith)
                requires
                    a < 0,
                    d <= -2,
            ;
        }
    } else if a < 0 {
        assert(0 <= (a * -1) / d <= a * -1) by (nonlinear_arith)
            requires
                a < 0,
                d > 0,
        ;
    } else if a > 0 {
        assert(0 <= a / (d * -1) <= a) by (nonlinear_arith)
            requires
                a > 0,
                d < 0,
        ;
    }
}

impl Number {
    /// Sum of extended integers.
    pub fn add(self, other: Number) -> (r: Number)
        requires
            add_defined(self, other),
        ensures
            r == num_add(self, other),
    {
        match (self, other) {
            (Number::Integer(x), Number::Integer(y)) => Number::Integer(x.wrapping_add(y)),
            (Number::Infinity, _) => Number::Infinity,
            (_, Number::Infinity) => Number::Infinity,
            _ => Number::NInfinity,
        }
    }

    /// Difference of extended integers.
    pub fn sub(self, other: Number) -> (r: Number)
        requires
            sub_defined(self, other),
        ensures
            r == num_sub(self, other),
    {
        match (self, other) {
            (Number::Integer(x), Number::Integer(y)) => Number::Integer(x.wrapping_sub(y)),
            (Number::Infinity, _) => Number::Infinity,
            (_, Number::NInfinity) => Number::Infinity,
            _ => Number::NInfinity,
        }
    }

    /// Product of extended integers.
    pub fn mul(self, other: Number) -> (r: Number)
        ensures
            r == num_mul(self, other),
    {
        match (self, other) {
            (_, Number::Integer(0)) => Number::Integer(0),
            (Number::Integer(0), _) => Number::Integer(0),
            (Number::Integer(x), Number::Integer(y)) => Number::Integer(x.wrapping_mul(y)),
            (Number::Infinity, Number::Integer(x)) => if x >= 0 {
                Number::Infinity
            } else {
                Number::NInfinity
            },
            (Number::Integer(x), Number::Infinity) => if x >= 0 {
                Number::Infinity
            } else {
                Number::NInfinity
            },
            (Number::NInfinity, Number::Integer(x)) => if x >= 0 {
                Number::NInfinity
            } else {
                Number::Infinity
            },
            (Number::Integer(x), Number::NInfinity) => if x >= 0 {
                Number::NInfinity
            } else {
                Number::Infinity
            },
            (Number::Infinity, Number::Infinity) => Number::Infinity,
            (Number::NInfinity, Number::NInfinity) => Number::Infinity,
            _ => Number::NInfinity,
        }
    }

    /// Quotient of extended integers.
    pub fn div(self, other: Number) -> (r: Number)
        requires
            div_defined(self, other),
        ensures
            r == num_div(self, other),
    {
        match (self, other) {
            (Number::Integer(x), Number::Integer(0)) => if x >= 0 {
                Number::Infinity
            } else {
                Number::NInfinity
            },
            (Number::Infinity, Number::Integer(x)) => if x >= 0 {
                Number::Infinity
            } else {
                Number::NInfinity
            },
            (Number::NInfinity, Number::Integer(x)) => if x >= 0 {
                Number::NInfinity
            } else {
                Number::Infinity
            },
            (Number::Integer(_), Number::Infinity) => Number::Integer(0),
            (Number::Integer(_), Number::NInfinity) => Number::Integer(0),
            (Number::Integer(x), Number::Integer(y)) => match {
                proof {
                    lemma_checked_div_some(x, y);
                }
                x.checked_div(y)
            } {
                Some(q) => Number::Integer(q),
                None => Number::Integer(0),
            },
            _ => Number::Integer(0),
        }
    }
}


// ------------------------------------------------------------------
// The constant domain
// ------------------------------------------------------------------

/// The concrete result of an arithmetic operator on two integers: sums,
/// differences and products wrap around in 32 bits; a quotient is truncated
/// towards zero and does not exist for a zero divisor or when it overflows.
pub open spec fn concrete_arith(op: ArithOp, x: i32, y: i32) -> Option<i32> {
    match op {
        ArithOp::Add => Some(x.wrapping_add(y)),
        ArithOp::Subtract => Some(x.wrapping_sub(y)),
        ArithOp::Multiply => Some(x.wrapping_mul(y)),
        ArithOp::Divide => x.checked_div(y),
    }
}

/// The concrete truth of a comparison between two integers.
pub open spec fn concrete_rela(op: RelaOp, x: i32, y: i32) -> bool {
    match op {
        RelaOp::Eq => x == y,
        RelaOp::Neq => x != y,
        RelaOp::Less => x < y,
        RelaOp::LessEq => x <= y,
        RelaOp::Greater => x > y,
        RelaOp::GreaterEq => x >= y,
    }
}

/// The comparison result as an integer: 1 for true, 0 for false.
pub open spec fn bool_int(b: bool) -> i32 {
    if b {
        1
    } else {
        0
    }
}

/// The integers that a constant stands for.
pub open spec fn constant_contains(c: Constant, x: i32) -> bool {
    match c {
        Constant::Bottom => false,
        Constant::Top => true,
        Constant::CInt(v) => v == x,
    }
}

/// The order of the constant domain: bottom below everything, everything below top.
pub open spec fn constant_le(a: Constant, b: Constant) -> bool {
    a is Bottom || b is Top || a == b
}

/// The join of the constant domain.
pub open spec fn constant_join(a: Constant, b: Constant) -> Constant {
    match (a, b) {
        (Constant::Bottom, _) => b,
        (_, Constant::Bottom) => a,
        (Constant::CInt(x), Constant::CInt(y)) => if x == y {
            a
        } else {
            Constant::Top
        },
        _ => Constant::Top,
    }
}

/// Whether the abstract arithmetic on constants is defined: it is not for the
/// one integer quotient that overflows.
pub open spec fn constant_arith_defined(a: Constant, b: Constant, op: ArithOp) -> bool {
    match (a, b) {
        (Constant::CInt(x), Constant::CInt(y)) => !(op == ArithOp::Divide && x == i32::MIN && y == -1),
        _ => true,
    }
}

/// The abstract arithmetic of the constant domain.
pub open spec fn constant_arith(a: Constant, b: Constant, op: ArithOp) -> Constant {
    match (a, b) {
        (Constant::Bottom, _) => Constant::Bottom,
        (_, Constant::Bottom) => Constant::Bottom,
        (Constant::Top, Constant::Top) => Constant::Top,
        (Constant::CInt(_), Constant::Top) => Constant::Top,
        (Constant::Top, Constant::CInt(c)) => if op == ArithOp::Divide && c == 0 {
            Constant::Bottom
        } else {
            Constant::Top
        },
        (Constant::CInt(x), Constant::CInt(y)) => match op {
            ArithOp::Add => Constant::CInt(x.wrapping_add(y)),
            ArithOp::Subtract => Constant::CInt(x.wrapping_sub(y)),
            ArithOp::Multiply => Constant::CInt(x.wrapping_mul(y)),
            ArithOp::Divide => if y == 0 {
                Constant::Bottom
            } else {
                Constant::CInt(x.checked_div(y).unwrap())
            },
        },
    }
}

/// The abstract comparison of the constant domain.
pub open spec fn constant_cmp(a: Constant, b: Constant, op: RelaOp) -> Constant {
    match (a, b) {
        (Constant::Bottom, _) => Constant::Bottom,
        (_, Constant::Bottom) => Constant::Bottom,
        (Constant::CInt(x), Constant::CInt(y)) => Constant::CInt(bool_int(concrete_rela(op, x, y))),
        _ => Constant::Top,
    }
}

/// Decides a comparison between two integers.
pub fn eval_rela(op: RelaOp, x: i32, y: i32) -> (r: bool)
    ensures
        r == concrete_rela(op, x, y),
{
    match op {
        RelaOp::Eq => x == y,
        RelaOp::Neq => x != y,
        RelaOp::Less => x < y,
        RelaOp::LessEq => x <= y,
        RelaOp::Greater => x > y,
        RelaOp::GreaterEq => x >= y,
    }
}

impl View for Constant {
    type V = Constant;

    open spec fn view(&self) -> Constant {
        *self
    }
}

impl AbstractSemantics for Constant {
    open spec fn bottom_spec(v: Constant) -> bool {
        v is Bottom
    }

    open spec fn top_spec(v: Constant) -> bool {
        v is Top
    }

    open spec fn join_spec(a: Constant, b: Constant) -> Constant {
        constant_join(a, b)
    }

    open spec fn arith_ok(a: Constant, b: Constant, op: ArithOp) -> bool {
        constant_arith_defined(a, b, op)
    }

    open spec fn arith_spec(a: Constant, b: Constant, op: ArithOp) -> Constant {
        constant_arith(a, b, op)
    }

    open spec fn cmp_ok(a: Constant, b: Constant, op: RelaOp) -> bool {
        true
    }

    open spec fn cmp_spec(a: Constant, b: Constant, op: RelaOp) -> Constant {
        constant_cmp(a, b, op)
    }

    /// Decides whether the abstract arithmetic is defined: it is not for the
    /// one integer quotient that overflows.
    fn arith_defined(&self, other: &Self, op: &ArithOp) -> (r: bool) {
        match (self, other) {
            (Constant::CInt(x), Constant::CInt(y)) => !(*op == ArithOp::Divide && *x == i32::MIN && *y == -1),
            _ => true,
        }
    }

    fn is_bottom(&self) -> (r: bool) {
        match self {
            Constant::Bottom => true,
            _ => false,
        }
    }

    fn is_top(&self) -> (r: bool) {
        match self {
            Constant::Top => true,
            _ => false,
        }
    }

    fn join(&self, other: &Self) -> (r: Self) {
        match (self, other) {
            (Constant::Bottom, _) => *other,
            (_, Constant::Bottom) => *self,
            (Constant::CInt(c1), Constant::CInt(c2)) => if *c1 == *c2 {
                *self
            } else {
                Constant::Top
            },
            _ => Constant::Top,
        }
    }

    fn join_in_place(&mut self, other: &Self) {
        *self = self.join(other);
    }

    fn eq_value(&self, other: &Self) -> (r: bool) {
        *self == *other
    }

    fn clone_value(&self) -> (r: Self) {
        *self
    }

    /// Abstract arithmetic: bottom if either side is bottom; the exact value for
    /// two constants (bottom for a division by zero); bottom for top divided by
    /// zero; top for any other operation with top.
    fn arith(&self, other: &Self, op: &ArithOp) -> (r: Self)
        ensures
            r == constant_arith(*self, *other, *op),
    {
        match (self, other) {
            (Constant::Bottom, _) => Constant::Bottom,
            (_, Constant::Bottom) => Constant::Bottom,
            (Constant::Top, Constant::Top) => Constant::Top,
            (Constant::CInt(_), Constant::Top) => Constant::Top,
            (Constant::Top, Constant::CInt(c)) => match op {
                ArithOp::Divide => if *c == 0 {
                    Constant::Bottom
                } else {
                    Constant::Top
                },
                _ => Constant::Top,
            },
            (Constant::CInt(c1), Constant::CInt(c2)) => {
                let c = match op {
                    ArithOp::Add => c1.wrapping_add(*c2),
                    ArithOp::Subtract => c1.wrapping_sub(*c2),
                    ArithOp::Multiply => c1.wrapping_mul(*c2),
                    ArithOp::Divide => {
                        if *c2 == 0 {
                            return Constant::Bottom;
                        }
                        proof {
                            lemma_checked_div_some(*c1, *c2);
                        }
                        match c1.checked_div(*c2) {
                            Some(q) => q,
                            None => 0,
                        }
                    },
                };
                Constant::CInt(c)
            },
        }
    }

    /// Abstract comparison: bottom if either side is bottom; the truth (1 or 0)
    /// for two constants; top otherwise.
    fn cmp(&self, other: &Self, op: &RelaOp) -> (r: Self)
        ensures
            r == constant_cmp(*self, *other, *op),
    {
        match (self, other) {
            (Constant::Bottom, _) => Constant::Bottom,
            (_, Constant::Bottom) => Constant::Bottom,
            (Constant::Top, Constant::Top) => Constant::Top,
            (Constant::Top, Constant::CInt(_)) => Constant::Top,
            (Constant::CInt(_), Constant::Top) => Constant::Top,
            (Constant::CInt(c1), Constant::CInt(c2)) => {
                let c = eval_rela(*op, *c1, *c2);
                Constant::CInt(if c { 1 } else { 0 })
            },
        }
    }
}


/// Bottom is the identity of the join, and the join is idempotent and commutative.
pub proof fn constant_join_laws(a: Constant, b: Constant)
    ensures
        constant_join(Constant::Bottom, a) == a,
        constant_join(a, Constant::Bottom) == a,
        constant_join(a, a) == a,
        constant_join(a, b) == constant_join(b, a),
        constant_join(Constant::Top, a) == Constant::Top || a is Bottom,
{
}

/// The join is associative.
pub proof fn constant_join_assoc(a: Constant, b: Constant, c: Constant)
    ensures
        constant_join(constant_join(a, b), c) == constant_join(a, constant_join(b, c)),
{
}

/// The join is the least upper bound of the constant order.
pub proof fn constant_join_least_upper_bound(a: Constant, b: Constant, c: Constant)
    ensures
        constant_le(a, constant_join(a, b)),
        constant_le(b, constant_join(a, b)),
        constant_le(a, c) && constant_le(b, c) ==> constant_le(constant_join(a, b), c),
{
}

/// The join stands for every integer that either side stands for.
pub proof fn constant_join_sound(a: Constant, b: Constant, x: i32)
    ensures
        constant_contains(a, x) || constant_contains(b, x) ==> constant_contains(constant_join(a, b), x),
{
}

/// Abstract arithmetic on constants over-approximates the concrete operator:
/// whenever the operands stand for `x` and `y` and `x op y` exists, the result
/// stands for it.
pub proof fn constant_arith_sound(a: Constant, b: Constant, op: ArithOp, x: i32, y: i32)
    requires
        constant_contains(a, x),
        constant_contains(b, y),
        concrete_arith(op, x, y) is Some,
    ensures
        constant_contains(constant_arith(a, b, op), concrete_arith(op, x, y).unwrap()),
{
}

/// Abstract comparison on constants over-approximates the concrete comparison.
pub proof fn constant_cmp_sound(a: Constant, b: Constant, op: RelaOp, x: i32, y: i32)
    requires
        constant_contains(a, x),
        constant_contains(b, y),
    ensures
        constant_contains(constant_cmp(a, b, op), bool_int(concrete_rela(op, x, y))),
{
}


// ------------------------------------------------------------------
// The interval domain
// ------------------------------------------------------------------

pub open spec fn num_min(a: Number, b: Number) -> Number {
    if num_le(a, b) {
        a
    } else {
        b
    }
}

pub open spec fn num_max(a: Number, b: Number) -> Number {
    if num_le(b, a) {
        a
    } else {
        b
    }
}

/// Whether a corner quotient of the interval division is defined: every pair
/// but the one integer quotient that overflows.
pub open spec fn quot_defined(a: Number, b: Number) -> bool {
    match (a, b) {
        (Number::Integer(x), Number::Integer(y)) => !(x == i32::MIN && y == -1),
        _ => true,
    }
}

/// A corner quotient of the interval division: [`num_div`], and for two
/// infinities the infinity of the product of their signs (so that the hull
/// of the corners covers every quotient of large values).
pub open spec fn num_quot(a: Number, b: Number) -> Number {
    match (a, b) {
        (Number::Integer(_), _) => num_div(a, b),
        (_, Number::Integer(_)) => num_div(a, b),
        _ => if a == b {
            Number::Infinity
        } else {
            Number::NInfinity
        },
    }
}

fn number_quot(a: Number, b: Number) -> (r: Number)
    requires
        quot_defined(a, b),
    ensures
        r == num_quot(a, b),
{
    match (a, b) {
        (Number::Integer(_), _) => a.div(b),
        (_, Number::Integer(_)) => a.div(b),
        _ => if a == b {
            Number::Infinity
        } else {
            Number::NInfinity
        },
    }
}

/// The least interval holding four extended integers.
pub open spec fn hull4(a: Number, b: Number, c: Number, d: Number) -> Interval {
    Interval::Range(num_min(num_min(num_min(a, b), c), d), num_max(num_max(num_max(a, b), c), d))
}

fn number_min(a: Number, b: Number) -> (r: Number)
    ensures
        r == num_min(a, b),
{
    if number_le(a, b) {
        a
    } else {
        b
    }
}

fn number_max(a: Number, b: Number) -> (r: Number)
    ensures
        r == num_max(a, b),
{
    if number_le(b, a) {
        a
    } else {
        b
    }
}

fn hull_of(a: Number, b: Number, c: Number, d: Number) -> (r: Interval)
    ensures
        r == hull4(a, b, c, d),
{
    Interval::Range(
        number_min(number_min(number_min(a, b), c), d),
        number_max(number_max(number_max(a, b), c), d),
    )
}

/// The integers that an interval stands for.
pub open spec fn interval_contains(i: Interval, x: i32) -> bool {
    match i {
        Interval::Bottom => false,
        Interval::Top => true,
        Interval::Range(l, u) => num_le(l, Number::Integer(x)) && num_le(Number::Integer(x), u),
    }
}

/// The join of the interval domain.
pub open spec fn interval_join(a: Interval, b: Interval) -> Interval {
    match (a, b) {
        (Interval::Bottom, _) => b,
        (_, Interval::Bottom) => a,
        (Interval::Range(l1, u1), Interval::Range(l2, u2)) => Interval::Range(num_min(l1, l2), num_max(u1, u2)),
        _ => Interval::Top,
    }
}

/// The widening of the interval domain: a bound that moves outwards jumps to infinity.
pub open spec fn interval_widen(a: Interval, b: Interval) -> Interval {
    match (a, b) {
        (Interval::Bottom, _) => b,
        (_, Interval::Bottom) => a,
        (Interval::Range(l1, u1), Interval::Range(l2, u2)) => Interval::Range(
            if num_le(l1, l2) {
                l1
            } else {
                Number::NInfinity
            },
            if num_le(u2, u1) {
                u1
            } else {
                Number::Infinity
            },
        ),
        _ => Interval::Top,
    }
}

/// Whether two intervals share a bound-delimited point, as the interval comparison tests it.
pub open spec fn interval_overlap(a: Interval, b: Interval) -> bool {
    match (a, b) {
        (Interval::Bottom, _) => false,
        (_, Interval::Bottom) => false,
        (Interval::Range(l1, u1), Interval::Range(l2, u2)) => (num_le(l1, l2) && num_le(l2, u1)) || (num_le(l1, u2)
            && num_le(u2, u1)) || (num_le(l2, l1) && num_le(l1, u2)) || (num_le(l2, u1) && num_le(u1, u2)),
        _ => true,
    }
}

/// Whether the abstract arithmetic on intervals is defined: every bound
/// operation that it performs must be, and no bound it computes from two
/// integer bounds may leave 32 bits.
pub open spec fn interval_arith_defined(a: Interval, b: Interval, op: ArithOp) -> bool {
    let zero = Number::Integer(0i32);
    let m1 = Number::Integer(-1i32);
    match (a, b) {
        (Interval::Range(l1, u1), Interval::Range(l2, u2)) => match op {
            ArithOp::Add => add_defined(l1, l2) && add_defined(u1, u2) && add_fits(l1, l2) && add_fits(u1, u2),
            ArithOp::Subtract => sub_defined(l1, u2) && sub_defined(u1, l2) && sub_fits(l1, u2) && sub_fits(u1, l2),
            ArithOp::Multiply => mul_fits(l1, l2) && mul_fits(l1, u2) && mul_fits(u1, l2) && mul_fits(u1, u2),
            ArithOp::Divide => if l2 == zero && u2 == zero {
                true
            } else if l2 == zero {
                quot_defined(l1, u2) && quot_defined(u1, u2)
            } else if u2 == zero {
                quot_defined(l1, l2) && quot_defined(l1, m1) && quot_defined(u1, l2) && quot_defined(u1, m1)
            } else if num_lt(l2, zero) && num_lt(zero, u2) {
                quot_defined(l1, m1) && quot_defined(u1, m1)
            } else {
                quot_defined(l1, l2) && quot_defined(l1, u2) && quot_defined(u1, l2) && quot_defined(u1, u2)
            },
        },
        _ => true,
    }
}

/// The abstract arithmetic of the interval domain: bottom with bottom; top
/// with top, except that top divided by `[0, 0]` is bottom; bounds for sums
/// and differences of two ranges, and the hull of the four corner values
/// ([`num_quot`] for quotients) for their products and quotients, with a
/// divisor interval that holds zero narrowed as described for each case.
pub open spec fn interval_arith(a: Interval, b: Interval, op: ArithOp) -> Interval {
    let zero = Number::Integer(0i32);
    let m1 = Number::Integer(-1i32);
    match (a, b) {
        (Interval::Bottom, _) => Interval::Bottom,
        (_, Interval::Bottom) => Interval::Bottom,
        (Interval::Top, Interval::Top) => Interval::Top,
        (Interval::Top, Interval::Range(l, u)) => if op == ArithOp::Divide && l == zero && u == zero {
            Interval::Bottom
        } else {
            Interval::Top
        },
        (Interval::Range(_, _), Interval::Top) => Interval::Top,
        (Interval::Range(l1, u1), Interval::Range(l2, u2)) => match op {
            ArithOp::Add => Interval::Range(num_add(l1, l2), num_add(u1, u2)),
            ArithOp::Subtract => Interval::Range(num_sub(l1, u2), num_sub(u1, l2)),
            ArithOp::Multiply => hull4(num_mul(l1, l2), num_mul(l1, u2), num_mul(u1, l2), num_mul(u1, u2)),
            ArithOp::Divide => if l2 == zero && u2 == zero {
                Interval::Bottom
            } else if l2 == zero {
                hull4(l1, num_quot(l1, u2), u1, num_quot(u1, u2))
            } else if u2 == zero {
                hull4(num_quot(l1, l2), num_quot(l1, m1), num_quot(u1, l2), num_quot(u1, m1))
            } else if num_lt(l2, zero) && num_lt(zero, u2) {
                hull4(num_quot(l1, m1), l1, num_quot(u1, m1), u1)
            } else {
                hull4(num_quot(l1, l2), num_quot(l1, u2), num_quot(u1, l2), num_quot(u1, u2))
            },
        },
    }
}

/// The abstract comparison of the interval domain: `[1, 1]` when the
/// comparison holds for all members, `[0, 0]` when it fails for all, `[0, 1]`
/// otherwise, and bottom when either side is empty.
pub open spec fn interval_cmp(a: Interval, b: Interval, op: RelaOp) -> Interval {
    match (a, b) {
        (Interval::Bottom, _) => Interval::Bottom,
        (_, Interval::Bottom) => Interval::Bottom,
        (Interval::Range(l1, u1), Interval::Range(l2, u2)) => match op {
            RelaOp::Eq => if l1 == l2 && u1 == u2 && l1 == u1 {
                true_interval()
            } else if interval_overlap(a, b) {
                undecided_interval()
            } else {
                false_interval()
            },
            RelaOp::Neq => if l1 == l2 && u1 == u2 && l1 == u1 {
                false_interval()
            } else if interval_overlap(a, b) {
                undecided_interval()
            } else {
                true_interval()
            },
            RelaOp::Less => if num_lt(u1, l2) {
                true_interval()
            } else if num_le(u2, l1) {
                false_interval()
            } else {
                undecided_interval()
            },
            RelaOp::LessEq => if num_le(u1, l2) {
                true_interval()
            } else if num_lt(u2, l1) {
                false_interval()
            } else {
                undecided_interval()
            },
            RelaOp::Greater => if num_lt(u2, l1) {
                true_interval()
            } else if num_le(u1, l2) {
                false_interval()
            } else {
                undecided_interval()
            },
            RelaOp::GreaterEq => if num_le(u2, l1) {
                true_interval()
            } else if num_lt(u1, l2) {
                false_interval()
            } else {
                undecided_interval()
            },
        },
        _ => undecided_interval(),
    }
}

impl View for Interval {
    type V = Interval;

    open spec fn view(&self) -> Interval {
        *self
    }
}

impl AbstractSemantics for Interval {
    open spec fn bottom_spec(v: Interval) -> bool {
        v is Bottom
    }

    open spec fn top_spec(v: Interval) -> bool {
        v is Top
    }

    open spec fn join_spec(a: Interval, b: Interval) -> Interval {
        interval_join(a, b)
    }

    open spec fn arith_ok(a: Interval, b: Interval, op: ArithOp) -> bool {
        interval_arith_defined(a, b, op)
    }

    open spec fn arith_spec(a: Interval, b: Interval, op: ArithOp) -> Interval {
        interval_arith(a, b, op)
    }

    open spec fn cmp_ok(a: Interval, b: Interval, op: RelaOp) -> bool {
        true
    }

    open spec fn cmp_spec(a: Interval, b: Interval, op: RelaOp) -> Interval {
        interval_cmp(a, b, op)
    }

    fn is_bottom(&self) -> (r: bool) {
        match self {
            Interval::Bottom => true,
            _ => false,
        }
    }

    fn is_top(&self) -> (r: bool) {
        match self {
            Interval::Top => true,
            _ => false,
        }
    }

    fn join(&self, other: &Self) -> (r: Self) {
        match (self, other) {
            (Interval::Bottom, _) => *other,
            (_, Interval::Bottom) => *self,
            (Interval::Range(l1, u1), Interval::Range(l2, u2)) => {
                let l = if number_le(*l1, *l2) {
                    *l1
                } else {
                    *l2
                };
                let u = if number_le(*u2, *u1) {
                    *u1
                } else {
                    *u2
                };
                Interval::Range(l, u)
            },
            _ => Interval::Top,
        }
    }

    fn join_in_place(&mut self, other: &Self) {
        *self = self.join(other);
    }

    fn eq_value(&self, other: &Self) -> (r: bool) {
        *self == *other
    }

    fn clone_value(&self) -> (r: Self) {
        *self
    }

    /// Decides whether [`Interval::arith`] is defined on these arguments.
    fn arith_defined(&self, other: &Self, op: &ArithOp) -> (r: bool)
        ensures
            r == interval_arith_defined(*self, *other, *op),
    {
        let zero = Number::Integer(0i32);
        let m1 = Number::Integer(-1i32);
        match (self, other) {
            (Interval::Range(l1, u1), Interval::Range(l2, u2)) => match op {
                ArithOp::Add => number_add_defined(*l1, *l2) && number_add_defined(*u1, *u2) && number_add_fits(*l1, *l2)
                    && number_add_fits(*u1, *u2),
                ArithOp::Subtract => number_sub_defined(*l1, *u2) && number_sub_defined(*u1, *l2) && number_sub_fits(
                    *l1,
                    *u2,
                ) && number_sub_fits(*u1, *l2),
                ArithOp::Multiply => number_mul_fits(*l1, *l2) && number_mul_fits(*l1, *u2) && number_mul_fits(*u1, *l2)
                    && number_mul_fits(*u1, *u2),
                ArithOp::Divide => if *l2 == zero && *u2 == zero {
                    true
                } else if *l2 == zero {
                    number_quot_defined(*l1, *u2) && number_quot_defined(*u1, *u2)
                } else if *u2 == zero {
                    number_quot_defined(*l1, *l2) && number_quot_defined(*l1, m1) && number_quot_defined(*u1, *l2)
                        && number_quot_defined(*u1, m1)
                } else if number_lt(*l2, zero) && number_lt(zero, *u2) {
                    number_quot_defined(*l1, m1) && number_quot_defined(*u1, m1)
                } else {
                    number_quot_defined(*l1, *l2) && number_quot_defined(*l1, *u2) && number_quot_defined(*u1, *l2)
                        && number_quot_defined(*u1, *u2)
                },
            },
            _ => true,
        }
    }

    /// Abstract arithmetic on intervals. It over-approximates the concrete
    /// operation: for operands in the two intervals whose concrete result
    /// fits in 32 bits, that result lies in the interval returned.
    fn arith(&self, other: &Self, op: &ArithOp) -> (r: Self)
        ensures
            r == interval_arith(*self, *other, *op),
            forall|x: i32, y: i32|
                interval_contains(*self, x) && interval_contains(*other, y) && concrete_fits(*op, x, y)
                    ==> #[trigger] interval_contains(r, concrete_arith(*op, x, y).unwrap()),
    {
        let r = interval_arith_exec(self, other, op);
        proof {
            assert forall|x: i32, y: i32|
                interval_contains(*self, x) && interval_contains(*other, y) && concrete_fits(*op, x, y) implies #[trigger] interval_contains(
                r,
                concrete_arith(*op, x, y).unwrap(),
            ) by {
                interval_arith_sound(*self, *other, *op, x, y);
            }
        }
        r
    }

    /// Abstract comparison on intervals.
    fn cmp(&self, other: &Self, op: &RelaOp) -> (r: Self)
        ensures
            r == interval_cmp(*self, *other, *op),
    {
        let t = Interval::Range(Number::Integer(1), Number::Integer(1));
        let f = Interval::Range(Number::Integer(0), Number::Integer(0));
        let u = Interval::Range(Number::Integer(0), Number::Integer(1));
        match (self, other) {
            (Interval::Bottom, _) => Interval::Bottom,
            (_, Interval::Bottom) => Interval::Bottom,
            (Interval::Top, Interval::Top) => u,
            (Interval::Top, Interval::Range(_, _)) => u,
            (Interval::Range(_, _), Interval::Top) => u,
            (Interval::Range(l1, u1), Interval::Range(l2, u2)) => match op {
                RelaOp::Eq => if *l1 == *l2 && *u1 == *u2 && *l1 == *u1 {
                    t
                } else if self.has_overlap(other) {
                    u
                } else {
                    f
                },
                RelaOp::Neq => if *l1 == *l2 && *u1 == *u2 && *l1 == *u1 {
                    f
                } else if self.has_overlap(other) {
                    u
                } else {
                    t
                },
                RelaOp::Less => if number_lt(*u1, *l2) {
                    t
                } else if number_le(*u2, *l1) {
                    f
                } else {
                    u
                },
                RelaOp::LessEq => if number_le(*u1, *l2) {
                    t
                } else if number_lt(*u2, *l1) {
                    f
                } else {
                    u
                },
                RelaOp::Greater => if number_lt(*u2, *l1) {
                    t
                } else if number_le(*u1, *l2) {
                    f
                } else {
                    u
                },
                RelaOp::GreaterEq => if number_le(*u2, *l1) {
                    t
                } else if number_lt(*u1, *l2) {
                    f
                } else {
                    u
                },
            },
        }
    }
}

impl Interval {
    /// The lower bound: negative infinity for top, none for bottom.
    pub fn get_lower(&self) -> (r: Option<Number>)
        ensures
            r == match *self {
                Interval::Top => Some(Number::NInfinity),
                Interval::Bottom => None,
                Interval::Range(l, _) => Some(l),
            },
    {
        match self {
            Interval::Top => Some(Number::NInfinity),
            Interval::Bottom => None,
            Interval::Range(l, _) => Some(*l),
        }
    }

    /// The upper bound: positive infinity for top, none for bottom.
    pub fn get_upper(&self) -> (r: Option<Number>)
        ensures
            r == match *self {
                Interval::Top => Some(Number::Infinity),
                Interval::Bottom => None,
                Interval::Range(_, u) => Some(u),
            },
    {
        match self {
            Interval::Top => Some(Number::Infinity),
            Interval::Bottom => None,
            Interval::Range(_, u) => Some(*u),
        }
    }

    /// Widening: the widening of bottom with `X` is `X`; otherwise a lower bound
    /// that decreases becomes negative infinity and an upper bound that
    /// increases becomes positive infinity.
    pub fn widen(&self, other: &Self) -> (r: Self)
        ensures
            r == interval_widen(*self, *other),
    {
        match (self, other) {
            (Interval::Bottom, _) => *other,
            (_, Interval::Bottom) => *self,
            (Interval::Top, Interval::Top) => Interval::Top,
            (Interval::Top, Interval::Range(_, _)) => Interval::Top,
            (Interval::Range(_, _), Interval::Top) => Interval::Top,
            (Interval::Range(l1, u1), Interval::Range(l2, u2)) => {
                let l = if number_le(*l1, *l2) {
                    *l1
                } else {
                    Number::NInfinity
                };
                let u = if number_le(*u2, *u1) {
                    *u1
                } else {
                    Number::Infinity
                };
                Interval::Range(l, u)
            },
        }
    }

    /// Whether the two intervals overlap (bottom overlaps nothing, top everything).
    pub fn has_overlap(&self, other: &Self) -> (r: bool)
        ensures
            r == interval_overlap(*self, *other),
    {
        match (self, other) {
            (Interval::Bottom, _) => false,
            (_, Interval::Bottom) => false,
            (Interval::Top, _) => true,
            (_, Interval::Top) => true,
            (Interval::Range(l1, u1), Interval::Range(l2, u2)) => {
                if number_le(*l1, *l2) && number_le(*l2, *u1) {
                    true
                } else if number_le(*l1, *u2) && number_le(*u2, *u1) {
                    true
                } else if number_le(*l2, *l1) && number_le(*l1, *u2) {
                    true
                } else if number_le(*l2, *u1) && number_le(*u1, *u2) {
                    true
                } else {
                    false
                }
            },
        }
    }

}

/// Bottom is the identity of the interval join, and the join is idempotent and commutative.
pub proof fn interval_join_laws(a: Interval, b: Interval)
    ensures
        interval_join(Interval::Bottom, a) == a,
        interval_join(a, Interval::Bottom) == a,
        interval_join(a, a) == a,
        interval_join(a, b) == interval_join(b, a),
{
}

/// The interval join stands for every integer that either side stands for.
pub proof fn interval_join_sound(a: Interval, b: Interval, x: i32)
    ensures
        interval_contains(a, x) || interval_contains(b, x) ==> interval_contains(interval_join(a, b), x),
{
}

/// Widening stands for everything that the join stands for.
pub proof fn interval_widen_covers_join(a: Interval, b: Interval, x: i32)
    ensures
        interval_contains(interval_join(a, b), x) ==> interval_contains(interval_widen(a, b), x),
{
}

/// Widening keeps what does not grow: widening an interval by itself, by
/// bottom, or widening top, gives the interval back; widening bottom gives
/// the second interval.
pub proof fn interval_widen_stable(a: Interval, b: Interval)
    ensures
        interval_widen(a, a) == a,
        a is Top ==> interval_widen(a, b) == a,
        b is Bottom ==> interval_widen(a, b) == a,
        a is Bottom ==> interval_widen(a, b) == b,
{
}

/// Widening two ranges: a range whose bounds lie within the first one's
/// gives the first range back; otherwise each bound of the result is the
/// first range's bound, or, where the second range's bound lies beyond it,
/// the infinity on that side.
pub proof fn interval_widen_ranges(l1: Number, u1: Number, l2: Number, u2: Number)
    ensures
        num_le(l1, l2) && num_le(u2, u1) ==> interval_widen(Interval::Range(l1, u1), Interval::Range(l2, u2))
            == Interval::Range(l1, u1),
        interval_widen(Interval::Range(l1, u1), Interval::Range(l2, u2)) is Range,
        interval_widen(Interval::Range(l1, u1), Interval::Range(l2, u2))->Range_0 == l1 || (num_lt(l2, l1)
            && interval_widen(Interval::Range(l1, u1), Interval::Range(l2, u2))->Range_0 == Number::NInfinity),
        interval_widen(Interval::Range(l1, u1), Interval::Range(l2, u2))->Range_1 == u1 || (num_lt(u1, u2)
            && interval_widen(Interval::Range(l1, u1), Interval::Range(l2, u2))->Range_1 == Number::Infinity),
{
}

/// An interval comparison yields bottom or an interval within `[0, 1]`.
pub proof fn interval_cmp_boolean(a: Interval, b: Interval, op: RelaOp, x: i32)
    ensures
        interval_contains(interval_cmp(a, b, op), x) ==> x == 0 || x == 1,
{
}

/// Abstract comparison on intervals over-approximates the concrete comparison.
pub proof fn interval_cmp_sound(a: Interval, b: Interval, op: RelaOp, x: i32, y: i32)
    requires
        interval_contains(a, x),
        interval_contains(b, y),
    ensures
        interval_contains(interval_cmp(a, b, op), bool_int(concrete_rela(op, x, y))),
{
}

/// The sum or difference of two integer bounds does not leave the 32-bit range.
pub open spec fn bound_in_range(a: Number, b: Number, add: bool) -> bool {
    match (a, b) {
        (Number::Integer(x), Number::Integer(y)) => if add {
            i32::MIN <= x + y <= i32::MAX
        } else {
            i32::MIN <= x - y <= i32::MAX
        },
        _ => true,
    }
}

/// Away from 32-bit overflow, interval addition and subtraction over-approximate
/// the concrete operators.
pub proof fn interval_add_sub_sound(a: Interval, b: Interval, op: ArithOp, x: i32, y: i32)
    requires
        op == ArithOp::Add || op == ArithOp::Subtract,
        interval_contains(a, x),
        interval_contains(b, y),
        interval_arith_defined(a, b, op),
        op == ArithOp::Add ==> i32::MIN <= x + y <= i32::MAX,
        op == ArithOp::Subtract ==> i32::MIN <= x - y <= i32::MAX,
        a matches Interval::Range(l1, u1) ==> (b matches Interval::Range(l2, u2) ==> (
            op == ArithOp::Add ==> bound_in_range(l1, l2, true) && bound_in_range(u1, u2, true)) && (
            op == ArithOp::Subtract ==> bound_in_range(l1, u2, false) && bound_in_range(u1, l2, false))),
    ensures
        interval_contains(interval_arith(a, b, op), concrete_arith(op, x, y).unwrap()),
{
}

/// A product that fits in 32 bits does not wrap.
pub(crate) proof fn lemma_mul_fits(a: i32, b: i32)
    requires
        i32::MIN <= a * b <= i32::MAX,
    ensures
        a.wrapping_mul(b) == a * b,
{
    let p = a * b;
    let r: int = 0x1_0000_0000;
    if p >= 0 {
        assert(p % r == p);
    } else {
        assert(p % r == p + r);
    }
}

/// The quotient of two integers rounded towards zero, as `checked_div` computes it.
pub open spec fn tdiv(x: int, d: int) -> int {
    if x == 0 {
        0
    } else if x > 0 && d > 0 {
        x / d
    } else if x < 0 && d < 0 {
        (x * -1) / (d * -1)
    } else if x < 0 {
        ((x * -1) / d) * -1
    } else {
        (x / (d * -1)) * -1
    }
}

pub(crate) proof fn lemma_tdiv_checked(x: i32, y: i32)
    requires
        y != 0,
        !(x == i32::MIN && y == -1),
    ensures
        x.checked_div(y) == Some(tdiv(x as int, y as int) as i32),
        i32::MIN <= tdiv(x as int, y as int) <= i32::MAX,
{
    lemma_checked_div_some(x, y);
}

/// Rounding towards zero: the quotient by a negative divisor is the negated
/// quotient by its opposite.
pub(crate) proof fn lemma_tdiv_neg(x: int, d: int)
    requires
        d < 0,
    ensures
        tdiv(x, d) == -tdiv(x, -d),
{
    assert(d * -1 == -d);
    assert(x * -1 == -x);
}

/// For a positive divisor the quotient grows with the dividend.
pub(crate) proof fn lemma_tdiv_mono(x1: int, x2: int, d: int)
    requires
        x1 <= x2,
        d > 0,
    ensures
        tdiv(x1, d) <= tdiv(x2, d),
{
    broadcast use vstd::arithmetic::div_mod::lemma_div_is_ordered, vstd::arithmetic::div_mod::lemma_div_pos_is_pos;
    assert(x1 * -1 == -x1 && x2 * -1 == -x2);
    if x1 < 0 && x2 < 0 {
        assert((-x2) / d <= (-x1) / d);
    } else if x1 < 0 {
        assert((-x1) / d >= 0);
        if x2 > 0 {
            assert(x2 / d >= 0);
        }
    } else if x1 > 0 {
        assert(x1 / d <= x2 / d);
    } else {
        if x2 > 0 {
            assert(x2 / d >= 0);
        }
    }
}

/// For a fixed dividend and positive divisors, the quotient moves towards
/// zero as the divisor grows.
pub(crate) proof fn lemma_tdiv_denominator(x: int, d1: int, d2: int)
    requires
        1 <= d1 <= d2,
    ensures
        x >= 0 ==> tdiv(x, d2) <= tdiv(x, d1),
        x < 0 ==> tdiv(x, d1) <= tdiv(x, d2),
{
    broadcast use vstd::arithmetic::div_mod::lemma_div_is_ordered_by_denominator;
    assert(x * -1 == -x);
    if x > 0 {
        assert(x / d1 >= x / d2);
    } else if x < 0 {
        assert((-x) / d1 >= (-x) / d2);
    }
}

/// A corner quotient by one is the dividend.
pub proof fn lemma_quot_one(a: Number)
    ensures
        quot_defined(a, Number::Integer(1i32)),
        num_quot(a, Number::Integer(1i32)) == a,
{
    match a {
        Number::Integer(x) => {
            lemma_checked_div_some(x, 1);
            assert(x.checked_div(1i32) == Some(x));
        },
        _ => {},
    }
}

/// The divisor interval that interval division narrows a divisor to:
/// `[-1, 1]` for one that holds zero inside, `[1, u]` for `[0, u]`,
/// `[l, -1]` for `[l, 0]`, and the divisor itself otherwise.
pub open spec fn narrowed_divisor(l: Number, u: Number) -> (Number, Number) {
    let zero = Number::Integer(0i32);
    if num_lt(l, zero) && num_lt(zero, u) {
        (Number::Integer(-1i32), Number::Integer(1i32))
    } else if l == zero {
        (Number::Integer(1i32), u)
    } else if u == zero {
        (l, Number::Integer(-1i32))
    } else {
        (l, u)
    }
}

/// Interval division by a range other than `[0, 0]` is division by the
/// narrowed divisor `[a, b]`, and that is the hull of the four corner
/// quotients `l1/a`, `l1/b`, `u1/a`, `u1/b`.
pub proof fn interval_div_narrowing(l1: Number, u1: Number, l2: Number, u2: Number)
    requires
        num_le(l2, u2),
        !(l2 == Number::Integer(0i32) && u2 == Number::Integer(0i32)),
        interval_arith_defined(Interval::Range(l1, u1), Interval::Range(l2, u2), ArithOp::Divide),
    ensures
        ({
            let (a, b) = narrowed_divisor(l2, u2);
            &&& interval_arith_defined(Interval::Range(l1, u1), Interval::Range(a, b), ArithOp::Divide)
            &&& interval_arith(Interval::Range(l1, u1), Interval::Range(l2, u2), ArithOp::Divide) == interval_arith(
                Interval::Range(l1, u1),
                Interval::Range(a, b),
                ArithOp::Divide,
            )
            &&& interval_arith(Interval::Range(l1, u1), Interval::Range(a, b), ArithOp::Divide) == hull4(
                num_quot(l1, a),
                num_quot(l1, b),
                num_quot(u1, a),
                num_quot(u1, b),
            )
        }),
{
    lemma_quot_one(l1);
    lemma_quot_one(u1);
}

/// Computes [`interval_arith`].
fn interval_arith_exec(a: &Interval, b: &Interval, op: &ArithOp) -> (r: Interval)
    requires
        interval_arith_defined(*a, *b, *op),
    ensures
        r == interval_arith(*a, *b, *op),
{
    let zero = Number::Integer(0i32);
    let m1 = Number::Integer(-1i32);
    match (a, b) {
        (Interval::Bottom, _) => Interval::Bottom,
        (_, Interval::Bottom) => Interval::Bottom,
        (Interval::Top, Interval::Top) => Interval::Top,
        (Interval::Top, Interval::Range(l, u)) => match op {
            ArithOp::Divide => if *l == zero && *u == zero {
                Interval::Bottom
            } else {
                Interval::Top
            },
            _ => Interval::Top,
        },
        (Interval::Range(_, _), Interval::Top) => Interval::Top,
        (Interval::Range(l1, u1), Interval::Range(l2, u2)) => match op {
            ArithOp::Add => Interval::Range(l1.add(*l2), u1.add(*u2)),
            ArithOp::Subtract => Interval::Range(l1.sub(*u2), u1.sub(*l2)),
            ArithOp::Multiply => hull_of(l1.mul(*l2), l1.mul(*u2), u1.mul(*l2), u1.mul(*u2)),
            ArithOp::Divide => if *l2 == zero && *u2 == zero {
                Interval::Bottom
            } else if *l2 == zero {
                hull_of(*l1, number_quot(*l1, *u2), *u1, number_quot(*u1, *u2))
            } else if *u2 == zero {
                hull_of(number_quot(*l1, *l2), number_quot(*l1, m1), number_quot(*u1, *l2), number_quot(*u1, m1))
            } else if number_lt(*l2, zero) && number_lt(zero, *u2) {
                hull_of(number_quot(*l1, m1), *l1, number_quot(*u1, m1), *u1)
            } else {
                hull_of(number_quot(*l1, *l2), number_quot(*l1, *u2), number_quot(*u1, *l2), number_quot(*u1, *u2))
            },
        },
    }
}

fn number_add_defined(a: Number, b: Number) -> (r: bool)
    ensures
        r == add_defined(a, b),
{
    !((a == Number::Infinity && b == Number::NInfinity) || (a == Number::NInfinity && b == Number::Infinity))
}

fn number_sub_defined(a: Number, b: Number) -> (r: bool)
    ensures
        r == sub_defined(a, b),
{
    !((a == Number::Infinity && b == Number::Infinity) || (a == Number::NInfinity && b == Number::NInfinity))
}

fn number_add_fits(a: Number, b: Number) -> (r: bool)
    ensures
        r == add_fits(a, b),
{
    match (a, b) {
        (Number::Integer(x), Number::Integer(y)) => x.checked_add(y).is_some(),
        _ => true,
    }
}

fn number_sub_fits(a: Number, b: Number) -> (r: bool)
    ensures
        r == sub_fits(a, b),
{
    match (a, b) {
        (Number::Integer(x), Number::Integer(y)) => x.checked_sub(y).is_some(),
        _ => true,
    }
}

fn number_mul_fits(a: Number, b: Number) -> (r: bool)
    ensures
        r == mul_fits(a, b),
{
    match (a, b) {
        (Number::Integer(x), Number::Integer(y)) => x.checked_mul(y).is_some(),
        _ => true,
    }
}

fn number_quot_defined(a: Number, b: Number) -> (r: bool)
    ensures
        r == quot_defined(a, b),
{
    match (a, b) {
        (Number::Integer(x), Number::Integer(y)) => !(x == i32::MIN && y == -1),
        _ => true,
    }
}

} // verus!
