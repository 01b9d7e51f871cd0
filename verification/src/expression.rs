//! A unified expression form for pattern units, kept alongside the parser's
//! own sub-pattern type.  Conversions between the variants are not defined:
//! `to_paren` answers `None` for every variant.

use vstd::prelude::*;

verus! {

/// One pattern unit together with its repeat count, as a single closed sum
/// over the unit shapes.
#[derive(Debug, PartialEq)]
pub enum Pattern {
    Composite { value: String, repetitions: usize },
    Bracket { value: String, repetitions: usize },
    Literal { value: String, repetitions: usize },
    Paren { value: String, repetitions: usize },
}

impl Pattern {
    /// The parenthesized form of this expression; no variant defines one.
    pub fn to_paren(&self) -> (r: Option<Pattern>)
        ensures
            r is None,
    {
        match self {
            Pattern::Literal { value: _, repetitions: _ } => None,
            Pattern::Paren { value: _, repetitions: _ } => None,
            Pattern::Bracket { value: _, repetitions: _ } => None,
            Pattern::Composite { value: _, repetitions: _ } => None,
        }
    }
}

} // verus!
