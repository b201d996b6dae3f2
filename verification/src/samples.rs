//! Small sample types: the type of a function's result, a student record
//! with an optional score, and a guarded sum.
use vstd::prelude::*;

verus! {

/// The type of a function's result: an integer or a named struct.
#[derive(Debug)]
pub enum FunctionType {
    Int,
    Struct(String),
}

impl FunctionType {
    /// The integer type.
    pub fn new() -> (r: FunctionType)
        ensures
            r is Int,
    {
        FunctionType::Int
    }
}

/// A student with an optional name and an optional score.
#[derive(Debug, PartialEq)]
pub struct Student {
    pub name: Option<String>,
    pub score: Option<i32>,
}

impl Student {
    /// Adds ten to the score, which must be present.
    pub fn add_score_with_10(&mut self)
        requires
            old(self).score is Some,
            old(self).score->Some_0 + 10 <= i32::MAX,
        ensures
            final(self).score == Some((old(self).score->Some_0 + 10) as i32),
            final(self).name == old(self).name,
    {
        let s = match self.score {
            Some(v) => v,
            None => 0,
        };
        self.score = Some(s + 10);
    }
}

/// One hundred when `a` exceeds ten, else the sum of `a` and `b`.
pub fn add_func(a: &i32, b: &i32) -> (r: i32)
    requires
        *a > 10 || (i32::MIN <= *a + *b <= i32::MAX),
    ensures
        r == if *a > 10 {
            100
        } else {
            *a + *b
        },
{
    if *a > 10 {
        return 100;
    }
    *a + *b
}

} // verus!
