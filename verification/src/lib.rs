//! Random-data generation library built around a small, non-backtracking
//! pattern grammar.
//!
//! A pattern is a concatenation of literal runs, `[...]` character classes
//! (with the range shorthands `A-Z`, `a-z`, `0-9`) and `(...|...)`
//! alternations, each group optionally followed by a `{N}` repeat count.
//! [`pattern::Pattern::parse`] turns pattern text into sub-patterns,
//! [`pattern::Pattern::to_string_sampler`] compiles them into candidate
//! sets, and [`sample::StringSampler::sample`] draws output strings from
//! them.  [`sample`] also offers bounded integer draws and a single-slot
//! reservoir that selects one line uniformly from a stream of unknown
//! length.
//!
//! The grammar's escaping discipline lives in [`lexical`], together with the
//! proofs that unescaping removes exactly the escaping backslashes and that
//! range expansion leaves strings without shorthands untouched.

pub mod expression;
pub mod lexical;
pub mod pattern;
pub mod sample;
