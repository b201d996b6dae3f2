//! The interface that every abstract domain offers to the analyzers.
use vstd::prelude::*;
use crate::lir::{ArithOp, RelaOp};

verus! {

/// An abstract domain: a lattice with a least element (no information yet),
/// a greatest element (any value) and a join.
pub trait AbstractSemantics: Sized + View {
    /// Whether a value is the least element.
    spec fn bottom_spec(v: Self::V) -> bool;

    /// Whether a value is the greatest element.
    spec fn top_spec(v: Self::V) -> bool;

    /// The join of two values.
    spec fn join_spec(a: Self::V, b: Self::V) -> Self::V;

    /// Whether the abstract arithmetic is defined on two values.
    spec fn arith_ok(a: Self::V, b: Self::V, op: ArithOp) -> bool;

    /// The abstract arithmetic on two values.
    spec fn arith_spec(a: Self::V, b: Self::V, op: ArithOp) -> Self::V;

    /// Whether the abstract comparison is defined on two values.
    spec fn cmp_ok(a: Self::V, b: Self::V, op: RelaOp) -> bool;

    /// The abstract comparison of two values.
    spec fn cmp_spec(a: Self::V, b: Self::V, op: RelaOp) -> Self::V;

    fn is_bottom(&self) -> (r: bool)
        ensures
            r == Self::bottom_spec(self@),
    ;

    fn is_top(&self) -> (r: bool)
        ensures
            r == Self::top_spec(self@),
    ;

    fn join(&self, other: &Self) -> (r: Self)
        ensures
            r@ == Self::join_spec(self@, other@),
    ;

    fn join_in_place(&mut self, other: &Self)
        ensures
            final(self)@ == Self::join_spec(old(self)@, other@),
    ;

    /// Whether two values have the same view.
    fn eq_value(&self, other: &Self) -> (r: bool)
        ensures
            r == (self@ == other@),
    ;

    /// Decides whether the abstract arithmetic is defined on these values.
    fn arith_defined(&self, other: &Self, op: &ArithOp) -> (r: bool)
        ensures
            r == Self::arith_ok(self@, other@, *op),
    ;

    /// The abstract result of an arithmetic operator.
    fn arith(&self, other: &Self, op: &ArithOp) -> (r: Self)
        requires
            Self::arith_ok(self@, other@, *op),
        ensures
            r@ == Self::arith_spec(self@, other@, *op),
    ;

    /// The abstract result of a comparison.
    fn cmp(&self, other: &Self, op: &RelaOp) -> (r: Self)
        requires
            Self::cmp_ok(self@, other@, *op),
        ensures
            r@ == Self::cmp_spec(self@, other@, *op),
    ;

    /// A copy with the same view.
    fn clone_value(&self) -> (r: Self)
        ensures
            r@ == self@,
    ;
}

} // verus!
