//! The retired spellings and their messages, written down once.
//!
//! Each is a form the grammar declares absent; the parser recognises it on
//! purpose so the message can name what replaces it.

use vstd::prelude::*;

verus! {

/// There is no prefix declaration, and `prefix` is an ordinary identifier.
pub const PREFIX_DECL: &'static str = "`prefix` declares a vocabulary, and there is no vocabulary left to declare: the CURIE is gone from every position it held. Write a full IRI inside a string — `\"http://xmlns.com/foaf/0.1/name\"` — and a bare name everywhere else.";

/// There is no prefixed name: a `:` that is not a mapping header or a ternary
/// is an error.
pub const CURIE: &'static str = "a `:` here is neither a mapping header nor a ternary, so `prefix:Local` is not a name fossil has. A shape is one of the names a `type { … } := …` binding introduced, and a property is the last segment of the predicate IRI the shape declares — both bare.";

/// There is no absolute IRI token, so `<` has one reading.
pub const ABSOLUTE_IRI: &'static str = "an absolute IRI in `<…>` is not a form fossil has: `<` is the comparison operator and nothing else. A constant IRI is a string — `\"http://xmlns.com/foaf/0.1/name\"` — and the shape decides that it denotes rather than reads.";

/// There is no field reference: a leading `.` is an error.
pub const LEADING_DOT: &'static str = "a leading `.` names a column of a row with no name, and the row has a name now. Every reference is qualified: write `User.name`, naming the row this mapping draws `from`.";

/// There is no template literal: `${`, a backtick and `\$` are not tokens.
pub const BACKTICK: &'static str = "a backtick opens nothing: it was a second spelling of the quoted string, differing only in the delimiter and in `${` for the hole. Write `\"…{expr}…\"` — one spelling, and the hole is an ordinary expression.";

/// There is no pipeline: `|>` is not a token.
pub const PIPELINE: &'static str = "`|>` was a second spelling of the member call and ruling 7 of 2026-08-11 retired it: with members resolved by the type of the receiver, the pipeline had nothing left that the dot could not do. Write `a.f(…)` — the receiver goes to the left of the dot, where every other member call already puts it.";

} // verus!
