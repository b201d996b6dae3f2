//! Soundness of the interval arithmetic: whenever the operands lie in two
//! intervals and the concrete result fits in 32 bits, the result lies in the
//! interval that the abstract operation computes. The proofs run over
//! extended integers without a width, where the bounds the arithmetic
//! computes are exact.
use vstd::prelude::*;
use crate::domain::{
    concrete_arith, fits, hull4, interval_add_sub_sound, interval_arith, interval_arith_defined, interval_contains,
    lemma_mul_fits, lemma_tdiv_checked, lemma_tdiv_denominator, lemma_tdiv_mono, lemma_tdiv_neg, mul_fits, num_le,
    num_mul, num_quot, quot_defined, tdiv, Interval, Number,
};
use crate::lir::ArithOp;

verus! {

/// An integer, or one of the two infinities.
pub enum Ext {
    NegInf,
    Fin(int),
    PosInf,
}

/// A bound as an extended integer.
pub open spec fn ext(a: Number) -> Ext {
    match a {
        Number::NInfinity => Ext::NegInf,
        Number::Integer(x) => Ext::Fin(x as int),
        Number::Infinity => Ext::PosInf,
    }
}

/// The order of extended integers.
pub open spec fn ext_le(a: Ext, b: Ext) -> bool {
    match (a, b) {
        (Ext::NegInf, _) => true,
        (_, Ext::PosInf) => true,
        (Ext::Fin(x), Ext::Fin(y)) => x <= y,
        _ => false,
    }
}

/// The sign of an extended integer: -1, 0 or 1.
pub open spec fn ext_sign(a: Ext) -> int {
    match a {
        Ext::NegInf => -1,
        Ext::PosInf => 1,
        Ext::Fin(x) => if x > 0 {
            1
        } else if x < 0 {
            -1
        } else {
            0
        },
    }
}

/// The opposite of an extended integer.
pub open spec fn ext_neg(a: Ext) -> Ext {
    match a {
        Ext::NegInf => Ext::PosInf,
        Ext::PosInf => Ext::NegInf,
        Ext::Fin(x) => Ext::Fin(-x),
    }
}

/// The infinity or zero of a sign.
pub open spec fn signed(s: int) -> Ext {
    if s > 0 {
        Ext::PosInf
    } else if s < 0 {
        Ext::NegInf
    } else {
        Ext::Fin(0)
    }
}

/// The exact product of extended integers; zero times an infinity is zero.
pub open spec fn ext_mul(a: Ext, b: Ext) -> Ext {
    match (a, b) {
        (Ext::Fin(x), Ext::Fin(y)) => Ext::Fin(x * y),
        _ => signed(ext_sign(a) * ext_sign(b)),
    }
}

/// The exact quotient of extended integers, rounded towards zero: an
/// integer divided by an infinity is zero, and an infinity divided by a
/// nonzero value is the infinity of the product of the signs.
pub open spec fn ext_quot(a: Ext, b: Ext) -> Ext {
    match (a, b) {
        (Ext::Fin(x), Ext::Fin(y)) => Ext::Fin(tdiv(x, y)),
        (Ext::Fin(_), _) => Ext::Fin(0),
        _ => signed(ext_sign(a) * ext_sign(b)),
    }
}

/// Extended integers are totally ordered.
pub proof fn lemma_ext_order(a: Ext, b: Ext, c: Ext)
    ensures
        ext_le(a, a),
        ext_le(a, b) || ext_le(b, a),
        ext_le(a, b) && ext_le(b, c) ==> ext_le(a, c),
        ext_le(a, b) && ext_le(b, a) ==> a == b,
        ext_le(a, b) ==> ext_le(ext_neg(b), ext_neg(a)),
        ext_neg(ext_neg(a)) == a,
{
}

/// The order of bounds is the order of their extended integers.
pub proof fn lemma_ext_le(a: Number, b: Number)
    ensures
        num_le(a, b) == ext_le(ext(a), ext(b)),
{
}

/// Products of bounds that fit in 32 bits are exact.
pub proof fn lemma_ext_mul(a: Number, b: Number)
    requires
        mul_fits(a, b),
    ensures
        ext(num_mul(a, b)) == ext_mul(ext(a), ext(b)),
{
    match (a, b) {
        (Number::Integer(x), Number::Integer(y)) => {
            lemma_mul_fits(x, y);
            if x == 0 || y == 0 {
                assert(x * y == 0) by (nonlinear_arith)
                    requires
                        x == 0 || y == 0,
                ;
            }
        },
        _ => {},
    }
}

/// The product is commutative.
pub proof fn lemma_ext_mul_comm(a: Ext, b: Ext)
    ensures
        ext_mul(a, b) == ext_mul(b, a),
{
    match (a, b) {
        (Ext::Fin(x), Ext::Fin(y)) => {
            assert(x * y == y * x) by (nonlinear_arith);
        },
        _ => {
            assert(ext_sign(a) * ext_sign(b) == ext_sign(b) * ext_sign(a)) by (nonlinear_arith);
        },
    }
}

/// Multiplying by a value of sign at least zero keeps the order, by one of
/// sign at most zero reverses it.
pub proof fn lemma_ext_mul_mono(a1: Ext, a2: Ext, c: Ext)
    requires
        ext_le(a1, a2),
    ensures
        ext_sign(c) >= 0 ==> ext_le(ext_mul(a1, c), ext_mul(a2, c)),
        ext_sign(c) <= 0 ==> ext_le(ext_mul(a2, c), ext_mul(a1, c)),
{
    match (a1, a2, c) {
        (Ext::Fin(x1), Ext::Fin(x2), Ext::Fin(z)) => {
            if z >= 0 {
                assert(x1 * z <= x2 * z) by (nonlinear_arith)
                    requires
                        x1 <= x2,
                        z >= 0,
                ;
            }
            if z <= 0 {
                assert(x2 * z <= x1 * z) by (nonlinear_arith)
                    requires
                        x1 <= x2,
                        z <= 0,
                ;
            }
        },
        (Ext::Fin(x1), _, Ext::Fin(z)) => {
            assert(a2 == Ext::PosInf);
            let sz = ext_sign(c);
            assert(1 * sz == sz);
            if z == 0 {
                assert(x1 * z == 0) by (nonlinear_arith)
                    requires
                        z == 0,
                ;
            }
        },
        (_, Ext::Fin(x2), Ext::Fin(z)) => {
            assert(a1 == Ext::NegInf);
            let sz = ext_sign(c);
            assert(-1 * sz == -sz);
            if z == 0 {
                assert(x2 * z == 0) by (nonlinear_arith)
                    requires
                        z == 0,
                ;
            }
        },
        _ => {
            let s1 = ext_sign(a1);
            let s2 = ext_sign(a2);
            let sc = ext_sign(c);
            assert(s1 <= s2);
            assert(-1 <= s1 <= 1 && -1 <= s2 <= 1 && -1 <= sc <= 1);
            if sc >= 0 {
                assert(s1 * sc <= s2 * sc) by (nonlinear_arith)
                    requires
                        s1 <= s2,
                        sc >= 0,
                ;
            }
            if sc <= 0 {
                assert(s2 * sc <= s1 * sc) by (nonlinear_arith)
                    requires
                        s1 <= s2,
                        sc <= 0,
                ;
            }
        },
    }
}

/// Quotients of bounds are exact where they are defined.
pub proof fn lemma_ext_quot(a: Number, b: Number)
    requires
        quot_defined(a, b),
        b != Number::Integer(0i32),
    ensures
        ext(num_quot(a, b)) == ext_quot(ext(a), ext(b)),
{
    match (a, b) {
        (Number::Integer(x), Number::Integer(y)) => {
            lemma_tdiv_checked(x, y);
        },
        _ => {},
    }
}

/// Dividing by the opposite divisor gives the opposite quotient.
pub proof fn lemma_ext_quot_neg_den(a: Ext, d: Ext)
    requires
        d != Ext::Fin(0),
    ensures
        ext_quot(a, d) == ext_neg(ext_quot(a, ext_neg(d))),
{
    match (a, d) {
        (Ext::Fin(x), Ext::Fin(y)) => {
            if y < 0 {
                lemma_tdiv_neg(x, y);
            } else {
                lemma_tdiv_neg(x, -y);
            }
        },
        (Ext::Fin(_), _) => {},
        _ => {
            let sa = ext_sign(a);
            let sd = ext_sign(d);
            assert(ext_sign(ext_neg(d)) == -sd);
            assert(sa * sd == -(sa * (-sd))) by (nonlinear_arith);
        },
    }
}

/// Dividing by one keeps a value, by minus one negates it.
pub proof fn lemma_ext_quot_unit(a: Ext)
    ensures
        ext_quot(a, Ext::Fin(1)) == a,
        ext_quot(a, Ext::Fin(-1)) == ext_neg(a),
{
    match a {
        Ext::Fin(x) => {
            assert(x * -1 == -x);
            assert(x / 1 == x);
            assert((-x) / 1 == -x);
        },
        _ => {},
    }
}

/// For a positive divisor the quotient grows with the dividend.
pub proof fn lemma_ext_quot_mono_num(a1: Ext, a2: Ext, d: Ext)
    requires
        ext_le(a1, a2),
        ext_sign(d) > 0,
    ensures
        ext_le(ext_quot(a1, d), ext_quot(a2, d)),
{
    match (a1, a2, d) {
        (Ext::Fin(x1), Ext::Fin(x2), Ext::Fin(y)) => {
            lemma_tdiv_mono(x1, x2, y);
        },
        _ => {},
    }
}

/// The quotient of a dividend and a divisor, both at least zero, is at least
/// zero; by a divisor of at least one, it is at most the dividend.
proof fn lemma_tdiv_nonneg(x: int, y: int)
    requires
        x >= 0,
        y >= 1,
    ensures
        0 <= tdiv(x, y) <= x,
{
    broadcast use vstd::arithmetic::div_mod::lemma_div_pos_is_pos, vstd::arithmetic::div_mod::lemma_div_is_ordered_by_denominator;
    if x > 0 {
        assert(x / 1 >= x / y);
    }
}

/// For positive divisors, growing the divisor moves the quotient towards zero.
pub proof fn lemma_ext_quot_mono_den(a: Ext, d1: Ext, d2: Ext)
    requires
        ext_le(Ext::Fin(1), d1),
        ext_le(d1, d2),
    ensures
        ext_sign(a) >= 0 ==> ext_le(ext_quot(a, d2), ext_quot(a, d1)),
        ext_sign(a) <= 0 ==> ext_le(ext_quot(a, d1), ext_quot(a, d2)),
{
    match (a, d1, d2) {
        (Ext::Fin(x), Ext::Fin(y1), Ext::Fin(y2)) => {
            lemma_tdiv_denominator(x, y1, y2);
        },
        (Ext::Fin(x), Ext::Fin(y1), _) => {
            if x >= 0 {
                lemma_tdiv_nonneg(x, y1);
            } else {
                lemma_tdiv_nonneg(-x, y1);
                assert(x * -1 == -x);
            }
        },
        _ => {},
    }
}

/// A quotient rounded towards zero is no farther from zero than the dividend.
pub proof fn lemma_tdiv_abs(x: int, y: int)
    requires
        y != 0,
    ensures
        x >= 0 ==> -x <= tdiv(x, y) <= x,
        x < 0 ==> x <= tdiv(x, y) <= -x,
{
    assert(x * -1 == -x);
    assert(y * -1 == -y);
    if x > 0 && y > 0 {
        lemma_tdiv_nonneg(x, y);
    } else if x < 0 && y < 0 {
        lemma_tdiv_nonneg(-x, -y);
    } else if x < 0 && y > 0 {
        lemma_tdiv_nonneg(-x, y);
    } else if x > 0 && y < 0 {
        lemma_tdiv_nonneg(x, -y);
    }
}

/// Some corner product lies below the product of two values between the
/// bounds, and some corner product above it.
pub proof fn lemma_mul_corners(l1: Ext, u1: Ext, l2: Ext, u2: Ext, x: int, y: int)
    requires
        ext_le(l1, Ext::Fin(x)),
        ext_le(Ext::Fin(x), u1),
        ext_le(l2, Ext::Fin(y)),
        ext_le(Ext::Fin(y), u2),
    ensures
        ext_le(ext_mul(l1, l2), Ext::Fin(x * y)) || ext_le(ext_mul(l1, u2), Ext::Fin(x * y)) || ext_le(
            ext_mul(u1, l2),
            Ext::Fin(x * y),
        ) || ext_le(ext_mul(u1, u2), Ext::Fin(x * y)),
        ext_le(Ext::Fin(x * y), ext_mul(l1, l2)) || ext_le(Ext::Fin(x * y), ext_mul(l1, u2)) || ext_le(
            Ext::Fin(x * y),
            ext_mul(u1, l2),
        ) || ext_le(Ext::Fin(x * y), ext_mul(u1, u2)),
{
    let fx = Ext::Fin(x);
    let fy = Ext::Fin(y);
    lemma_ext_mul_mono(l1, fx, fy);
    lemma_ext_mul_mono(fx, u1, fy);
    lemma_ext_mul_mono(l2, fy, l1);
    lemma_ext_mul_mono(fy, u2, l1);
    lemma_ext_mul_mono(l2, fy, u1);
    lemma_ext_mul_mono(fy, u2, u1);
    lemma_ext_mul_comm(l1, fy);
    lemma_ext_mul_comm(u1, fy);
    lemma_ext_mul_comm(l1, l2);
    lemma_ext_mul_comm(l1, u2);
    lemma_ext_mul_comm(u1, l2);
    lemma_ext_mul_comm(u1, u2);
    let f = Ext::Fin(x * y);
    let a = ext_mul(l1, fy);
    let b = ext_mul(u1, fy);
    lemma_ext_order(a, f, b);
    lemma_ext_order(b, f, a);
    lemma_ext_order(ext_mul(l1, l2), a, f);
    lemma_ext_order(ext_mul(l1, u2), a, f);
    lemma_ext_order(ext_mul(u1, l2), b, f);
    lemma_ext_order(ext_mul(u1, u2), b, f);
    lemma_ext_order(f, a, ext_mul(l1, l2));
    lemma_ext_order(f, a, ext_mul(l1, u2));
    lemma_ext_order(f, b, ext_mul(u1, l2));
    lemma_ext_order(f, b, ext_mul(u1, u2));
}

/// For divisors of at least one, some corner quotient lies below the
/// quotient of two values between the bounds, and some corner quotient above it.
pub proof fn lemma_quot_corners_pos(l1: Ext, u1: Ext, l2: Ext, u2: Ext, x: int, y: int)
    requires
        ext_le(l1, Ext::Fin(x)),
        ext_le(Ext::Fin(x), u1),
        ext_le(Ext::Fin(1), l2),
        ext_le(l2, Ext::Fin(y)),
        ext_le(Ext::Fin(y), u2),
    ensures
        ext_le(ext_quot(l1, l2), Ext::Fin(tdiv(x, y))) || ext_le(ext_quot(l1, u2), Ext::Fin(tdiv(x, y))),
        ext_le(Ext::Fin(tdiv(x, y)), ext_quot(u1, l2)) || ext_le(Ext::Fin(tdiv(x, y)), ext_quot(u1, u2)),
{
    let fx = Ext::Fin(x);
    let fy = Ext::Fin(y);
    let f = Ext::Fin(tdiv(x, y));
    lemma_ext_quot_mono_num(l1, fx, fy);
    lemma_ext_quot_mono_num(fx, u1, fy);
    lemma_ext_order(Ext::Fin(1), l2, fy);
    lemma_ext_quot_mono_den(l1, l2, fy);
    lemma_ext_quot_mono_den(l1, fy, u2);
    lemma_ext_quot_mono_den(u1, l2, fy);
    lemma_ext_quot_mono_den(u1, fy, u2);
    let a = ext_quot(l1, fy);
    let b = ext_quot(u1, fy);
    lemma_ext_order(ext_quot(l1, l2), a, f);
    lemma_ext_order(ext_quot(l1, u2), a, f);
    lemma_ext_order(f, b, ext_quot(u1, l2));
    lemma_ext_order(f, b, ext_quot(u1, u2));
}

/// For divisors of at most minus one, some corner quotient lies below the
/// quotient of two values between the bounds, and some corner quotient above it.
pub proof fn lemma_quot_corners_neg(l1: Ext, u1: Ext, l2: Ext, u2: Ext, x: int, y: int)
    requires
        ext_le(l1, Ext::Fin(x)),
        ext_le(Ext::Fin(x), u1),
        ext_le(l2, Ext::Fin(y)),
        ext_le(Ext::Fin(y), u2),
        ext_le(u2, Ext::Fin(-1)),
    ensures
        ext_le(ext_quot(u1, l2), Ext::Fin(tdiv(x, y))) || ext_le(ext_quot(u1, u2), Ext::Fin(tdiv(x, y))),
        ext_le(Ext::Fin(tdiv(x, y)), ext_quot(l1, l2)) || ext_le(Ext::Fin(tdiv(x, y)), ext_quot(l1, u2)),
{
    let nl2 = ext_neg(u2);
    let nu2 = ext_neg(l2);
    lemma_ext_order(u2, Ext::Fin(-1), Ext::Fin(-1));
    lemma_ext_order(Ext::Fin(y), u2, Ext::Fin(-1));
    lemma_ext_order(l2, Ext::Fin(y), Ext::Fin(-1));
    lemma_quot_corners_pos(l1, u1, nl2, nu2, x, -y);
    lemma_tdiv_neg(x, y);
    lemma_ext_quot_neg_den(l1, l2);
    lemma_ext_quot_neg_den(l1, u2);
    lemma_ext_quot_neg_den(u1, l2);
    lemma_ext_quot_neg_den(u1, u2);
    lemma_ext_order(l2, l2, l2);
    lemma_ext_order(u2, u2, u2);
    let f = Ext::Fin(tdiv(x, -y));
    lemma_ext_order(ext_quot(l1, nl2), f, f);
    lemma_ext_order(ext_quot(l1, nu2), f, f);
    lemma_ext_order(f, ext_quot(u1, nl2), f);
    lemma_ext_order(f, ext_quot(u1, nu2), f);
}

/// Whether the concrete operation on two integers gives a 32-bit result:
/// no overflow, no division by zero.
pub open spec fn concrete_fits(op: ArithOp, x: i32, y: i32) -> bool {
    match op {
        ArithOp::Add => fits(x + y),
        ArithOp::Subtract => fits(x - y),
        ArithOp::Multiply => fits(x * y),
        ArithOp::Divide => y != 0 && !(x == i32::MIN && y == -1),
    }
}

/// The hull of four bounds holds a value that one of them does not exceed
/// and one of them is not below.
pub proof fn lemma_hull_contains(a: Number, b: Number, c: Number, d: Number, v: i32)
    requires
        ext_le(ext(a), Ext::Fin(v as int)) || ext_le(ext(b), Ext::Fin(v as int)) || ext_le(ext(c), Ext::Fin(v as int))
            || ext_le(ext(d), Ext::Fin(v as int)),
        ext_le(Ext::Fin(v as int), ext(a)) || ext_le(Ext::Fin(v as int), ext(b)) || ext_le(Ext::Fin(v as int), ext(c))
            || ext_le(Ext::Fin(v as int), ext(d)),
    ensures
        interval_contains(hull4(a, b, c, d), v),
{
}

/// Every interval operation over-approximates the concrete one: when the
/// operands lie in the two intervals and the concrete result fits in 32
/// bits, the result lies in the computed interval.
pub proof fn interval_arith_sound(a: Interval, b: Interval, op: ArithOp, x: i32, y: i32)
    requires
        interval_arith_defined(a, b, op),
        interval_contains(a, x),
        interval_contains(b, y),
        concrete_fits(op, x, y),
    ensures
        interval_contains(interval_arith(a, b, op), concrete_arith(op, x, y).unwrap()),
{
    match (a, b) {
        (Interval::Range(l1, u1), Interval::Range(l2, u2)) => {
            let zero = Number::Integer(0i32);
            let m1 = Number::Integer(-1i32);
            let p1 = Number::Integer(1i32);
            lemma_ext_le(l1, Number::Integer(x));
            lemma_ext_le(Number::Integer(x), u1);
            lemma_ext_le(l2, Number::Integer(y));
            lemma_ext_le(Number::Integer(y), u2);
            let el1 = ext(l1);
            let eu1 = ext(u1);
            let el2 = ext(l2);
            let eu2 = ext(u2);
            match op {
                ArithOp::Add => {
                    interval_add_sub_sound(a, b, op, x, y);
                },
                ArithOp::Subtract => {
                    interval_add_sub_sound(a, b, op, x, y);
                },
                ArithOp::Multiply => {
                    lemma_mul_fits(x, y);
                    lemma_ext_mul(l1, l2);
                    lemma_ext_mul(l1, u2);
                    lemma_ext_mul(u1, l2);
                    lemma_ext_mul(u1, u2);
                    lemma_mul_corners(el1, eu1, el2, eu2, x as int, y as int);
                    lemma_hull_contains(num_mul(l1, l2), num_mul(l1, u2), num_mul(u1, l2), num_mul(u1, u2), x.wrapping_mul(y));
                },
                ArithOp::Divide => {
                    lemma_tdiv_checked(x, y);
                    let q = tdiv(x as int, y as int);
                    let f = Ext::Fin(q);
                    lemma_ext_quot_unit(el1);
                    lemma_ext_quot_unit(eu1);
                    if l2 == zero && u2 == zero {
                    } else if l2 == zero {
                        lemma_ext_quot(l1, u2);
                        lemma_ext_quot(u1, u2);
                        lemma_quot_corners_pos(el1, eu1, Ext::Fin(1), eu2, x as int, y as int);
                        lemma_hull_contains(l1, num_quot(l1, u2), u1, num_quot(u1, u2), x.checked_div(y).unwrap());
                    } else if u2 == zero {
                        lemma_ext_quot(l1, l2);
                        lemma_ext_quot(l1, m1);
                        lemma_ext_quot(u1, l2);
                        lemma_ext_quot(u1, m1);
                        lemma_quot_corners_neg(el1, eu1, el2, Ext::Fin(-1), x as int, y as int);
                        lemma_hull_contains(
                            num_quot(l1, l2),
                            num_quot(l1, m1),
                            num_quot(u1, l2),
                            num_quot(u1, m1),
                            x.checked_div(y).unwrap(),
                        );
                    } else if num_lt_zero_lt(l2, u2) {
                        lemma_ext_quot(l1, m1);
                        lemma_ext_quot(u1, m1);
                        lemma_tdiv_abs(x as int, y as int);
                        lemma_ext_order(el1, Ext::Fin(x as int), eu1);
                        lemma_ext_order(Ext::Fin(x as int), eu1, eu1);
                        lemma_hull_contains(num_quot(l1, m1), l1, num_quot(u1, m1), u1, x.checked_div(y).unwrap());
                    } else {
                        lemma_ext_quot(l1, l2);
                        lemma_ext_quot(l1, u2);
                        lemma_ext_quot(u1, l2);
                        lemma_ext_quot(u1, u2);
                        if ext_le(Ext::Fin(1), el2) {
                            lemma_quot_corners_pos(el1, eu1, el2, eu2, x as int, y as int);
                        } else {
                            lemma_quot_corners_neg(el1, eu1, el2, eu2, x as int, y as int);
                        }
                        lemma_hull_contains(
                            num_quot(l1, l2),
                            num_quot(l1, u2),
                            num_quot(u1, l2),
                            num_quot(u1, u2),
                            x.checked_div(y).unwrap(),
                        );
                    }
                },
            }
        },
        _ => {},
    }
}

/// Whether a divisor range holds zero strictly inside.
pub open spec fn num_lt_zero_lt(l: Number, u: Number) -> bool {
    crate::domain::num_lt(l, Number::Integer(0i32)) && crate::domain::num_lt(Number::Integer(0i32), u)
}

} // verus!
