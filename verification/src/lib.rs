//! Cheap comparison of symbolic expressions by their shape.
//!
//! Before a solver is asked whether two expressions are the same, a cheaper question
//! can be: do they have the same shape, ignoring variable names, the order of operands
//! where order does not matter, and whether a comparison was written `a < b` or
//! `b > a`? [`canonical::canonical_hash`] answers that, and
//! [`rewrite::canonicalize`] rewrites an expression so that two matching ones print
//! the same.
//!
//! Two details decide which expressions match:
//!
//! * Renaming numbers each *use* of a variable rather than each variable, so `x + x`
//!   becomes `var_0 + var_1`, the same as `x + y`.
//! * The operator reaches the hash only through paths down to variables, so `1 + 2` and
//!   `1 * 2` hash the same.
//!
//! Hash values are keys within a single run and are not meant to be stored: only which
//! expressions share a hash matters.
//!
//! What holds of all of this together is stated and proved under [`laws`].
pub mod ast;
pub mod bags;
pub mod cache_key;
pub mod canonical;
pub mod error;
pub mod laws;
pub mod make_like;
pub mod ops;
pub mod paths;
pub mod rewrite;
pub mod sort;
pub mod text;
pub mod uses;
pub mod words;
