use cs260::defs::{ControlDependence, ProgramPoint as PointSet};
use cs260::domain::{Constant, Interval, Number};
use cs260::lir::{ArithOp, Location, ProgramPoint, Variable};
use cs260::semantics::AbstractSemantics;
use cs260::store::Store;

fn pp(block: &str, i: usize) -> ProgramPoint {
    ProgramPoint { block: block.to_string(), location: Location::Instruction(i), instr: None, term: None }
}

#[test]
fn constant_join_is_commutative_with_bottom_identity() {
    let values = [Constant::Bottom, Constant::Top, Constant::CInt(1), Constant::CInt(2)];
    for a in values {
        assert_eq!(Constant::Bottom.join(&a), a);
        assert_eq!(a.join(&a), a);
        for b in values {
            assert_eq!(a.join(&b), b.join(&a));
        }
    }
    assert_eq!(Constant::CInt(1).join(&Constant::CInt(2)), Constant::Top);
}

#[test]
fn interval_join_and_widen() {
    let a = Interval::Range(Number::Integer(0), Number::Integer(5));
    let b = Interval::Range(Number::Integer(3), Number::Integer(9));
    assert_eq!(a.join(&b), Interval::Range(Number::Integer(0), Number::Integer(9)));
    assert_eq!(a.join(&b), b.join(&a));
    assert_eq!(a.widen(&b), Interval::Range(Number::Integer(0), Number::Infinity));
    assert_eq!(Interval::Bottom.join(&a), a);
}

#[test]
fn point_sets_join_by_union() {
    let a = PointSet::ProgramPointSet(vec![pp("bb1", 0)]);
    let b = PointSet::ProgramPointSet(vec![pp("bb1", 1), pp("bb1", 0)]);
    assert_eq!(a.join(&b).to_string(), "{bb1.0, bb1.1}");
    assert_eq!(b.join(&a).to_string(), "{bb1.0, bb1.1}");
    assert!(PointSet::Top.join(&a).is_top());
    assert_eq!(PointSet::Bottom.join(&a).to_string(), "{bb1.0}");
}

#[test]
fn dependence_sets_join_by_intersection() {
    let a = ControlDependence::BlockSet(vec!["bb1".to_string(), "bb2".to_string()]);
    let b = ControlDependence::BlockSet(vec!["bb2".to_string(), "bb3".to_string()]);
    assert_eq!(a.join(&b).to_string(), "[\"bb2\"]");
    assert_eq!(b.join(&a).to_string(), "[\"bb2\"]");
    assert!(ControlDependence::Bottom.join(&a).eq_value(&a));
}

#[test]
fn stores_join_variable_by_variable() {
    let mut s1 = Store::<Constant>::new();
    s1.set(Variable::new("x"), Constant::CInt(1));
    s1.set(Variable::new("y"), Constant::CInt(2));
    let mut s2 = Store::<Constant>::new();
    s2.set(Variable::new("x"), Constant::CInt(1));
    s2.set(Variable::new("z"), Constant::Top);
    s2.set(Variable::new("y"), Constant::CInt(3));
    let j = s1.join(&s2);
    assert_eq!(j.len(), 3);
    assert_eq!(j.get(&Variable::new("x")), Some(&Constant::CInt(1)));
    assert_eq!(j.get(&Variable::new("y")), Some(&Constant::Top));
    assert_eq!(j.get(&Variable::new("z")), Some(&Constant::Top));
    assert!(j.equals(&s2.join(&s1)));
    assert!(s1.join(&Store::new()).equals(&s1));
}

#[test]
fn constant_arithmetic_with_top() {
    let zero = Constant::CInt(0);
    for op in [ArithOp::Add, ArithOp::Subtract, ArithOp::Multiply, ArithOp::Divide] {
        assert_eq!(zero.arith(&Constant::Top, &op), Constant::Top);
        assert_eq!(Constant::CInt(3).arith(&Constant::Top, &op), Constant::Top);
        assert_eq!(Constant::Top.arith(&Constant::CInt(3), &op), Constant::Top);
    }
    assert_eq!(Constant::Top.arith(&zero, &ArithOp::Multiply), Constant::Top);
    assert_eq!(Constant::Top.arith(&zero, &ArithOp::Divide), Constant::Bottom);
    assert_eq!(Constant::CInt(7).arith(&zero, &ArithOp::Divide), Constant::Bottom);
    assert_eq!(Constant::CInt(7).arith(&Constant::CInt(2), &ArithOp::Divide), Constant::CInt(3));
}

#[test]
fn interval_arithmetic_with_top_and_infinite_quotients() {
    let zero = Interval::Range(Number::Integer(0), Number::Integer(0));
    let r = Interval::Range(Number::Integer(1), Number::Integer(2));
    assert_eq!(Interval::Top.arith(&zero, &ArithOp::Multiply), Interval::Top);
    assert_eq!(zero.arith(&Interval::Top, &ArithOp::Multiply), Interval::Top);
    assert_eq!(r.arith(&Interval::Top, &ArithOp::Divide), Interval::Top);
    assert_eq!(Interval::Top.arith(&zero, &ArithOp::Divide), Interval::Bottom);
    let a = Interval::Range(Number::Integer(1), Number::Infinity);
    let b = Interval::Range(Number::Integer(2), Number::Infinity);
    assert!(a.arith_defined(&b, &ArithOp::Divide));
    assert_eq!(a.arith(&b, &ArithOp::Divide), Interval::Range(Number::Integer(0), Number::Infinity));
    let c = Interval::Range(Number::NInfinity, Number::Integer(-1));
    assert_eq!(c.arith(&b, &ArithOp::Divide), Interval::Range(Number::NInfinity, Number::Integer(0)));
    let m = Interval::Range(Number::Integer(-2), Number::Integer(3));
    let d = Interval::Range(Number::Integer(-1), Number::Integer(1));
    assert_eq!(m.arith(&d, &ArithOp::Multiply), Interval::Range(Number::Integer(-3), Number::Integer(3)));
    let e = Interval::Range(Number::Integer(0), Number::Integer(4));
    assert_eq!(
        Interval::Range(Number::Integer(8), Number::Integer(8)).arith(&e, &ArithOp::Divide),
        Interval::Range(Number::Integer(2), Number::Integer(8))
    );
}

#[test]
fn interval_bounds_that_overflow_are_refused() {
    let big = Interval::Range(Number::Integer(0), Number::Integer(1 << 20));
    assert!(!big.arith_defined(&big, &ArithOp::Multiply));
    let top = Interval::Range(Number::Integer(0), Number::Integer(i32::MAX));
    let one = Interval::Range(Number::Integer(1), Number::Integer(1));
    assert!(!top.arith_defined(&one, &ArithOp::Add));
    assert!(top.arith_defined(&one, &ArithOp::Subtract));
    assert_eq!(top.arith(&one, &ArithOp::Subtract), Interval::Range(Number::Integer(-1), Number::Integer(i32::MAX - 1)));
    let small = Interval::Range(Number::Integer(-3), Number::Integer(1 << 10));
    assert!(small.arith_defined(&small, &ArithOp::Multiply));
    assert_eq!(
        small.arith(&small, &ArithOp::Multiply),
        Interval::Range(Number::Integer(-3 * 1024), Number::Integer(1 << 20))
    );
    let wide = Interval::Range(Number::NInfinity, Number::Integer(5));
    assert_eq!(wide.arith(&one, &ArithOp::Add), Interval::Range(Number::NInfinity, Number::Integer(6)));
}
