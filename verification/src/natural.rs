//! The natural order of texts, in which runs of digits compare by value.
use vstd::prelude::*;

verus! {

/// The outcome of comparing two texts.
#[derive(Debug, Clone, Copy, PartialEq, Eq, Structural)]
pub enum TextOrder {
    Less,
    Equal,
    Greater,
}

/// The natural order of two texts, as `natord::compare` decides it.
pub uninterp spec fn natural_order(a: Seq<char>, b: Seq<char>) -> TextOrder;

/// Compares two texts with `natord::compare`, which skips whitespace,
/// compares runs of decimal digits by value and other characters by code
/// point. The contract names the result as a function of the two texts and
/// claims nothing more of it.
#[verifier::external_body]
pub(crate) fn natural_compare(a: &str, b: &str) -> (r: TextOrder)
    ensures
        r == natural_order(a@, b@),
{
    match natord::compare(a, b) {
        std::cmp::Ordering::Less => TextOrder::Less,
        std::cmp::Ordering::Equal => TextOrder::Equal,
        std::cmp::Ordering::Greater => TextOrder::Greater,
    }
}

} // verus!
