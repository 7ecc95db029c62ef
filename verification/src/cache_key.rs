//! Keys under which expressions are stored.
use crate::ast::{AstRef, AstView};
use vstd::prelude::*;

verus! {

/// Hashable handle for an expression, from which the expression can be read back.
pub struct ASTCacheKey {
    inner: AstRef,
    hash: u64,
}

impl ASTCacheKey {
    /// The expression that the key was made for.
    pub closed spec fn expr(&self) -> AstView {
        self.inner@
    }

    /// The context's hash of that expression.
    pub closed spec fn id(&self) -> u64 {
        self.hash
    }

    /// Whether two keys count as the same.
    pub open spec fn equals(&self, other: ASTCacheKey) -> bool {
        self.id() == other.id()
    }

    /// The number that the key hashes to: the context's hash, as far as it fits.
    pub open spec fn number(&self) -> usize {
        self.id() as usize
    }

    /// How a key prints, given how its expression does.
    pub open spec fn printed(expression: Seq<char>) -> Seq<char> {
        "<Key "@ + expression + ">"@
    }

    /// Makes a key for an expression, given the context's hash of it.
    pub fn new(inner: AstRef, hash: u64) -> (key: ASTCacheKey)
        ensures
            key.expr() == inner@,
            key.id() == hash,
    {
        ASTCacheKey { inner, hash }
    }

    /// The expression.
    pub fn ast(&self) -> (ast: AstRef)
        ensures
            ast@ == self.expr(),
    {
        self.inner.clone()
    }

    /// The number that the key hashes to.
    pub fn __hash__(&self) -> (hash: usize)
        ensures
            hash == self.number(),
    {
        self.hash as usize
    }

    /// Whether another object, where it is a key, stands for the same expression.
    ///
    /// Equal hashes mean equal expressions, so comparing the hashes is exact.
    pub fn __eq__(&self, other: Option<&ASTCacheKey>) -> (same: bool)
        ensures
            same == (other matches Some(key) && self.equals(*key)),
    {
        match other {
            Some(key) => key.hash == self.hash,
            None => false,
        }
    }

    /// How the key prints, given how its expression does.
    pub fn __repr__(&self, expression: &str) -> (text: String)
        ensures
            text@ == Self::printed(expression@),
    {
        let mut text = "<Key ".to_owned();
        text.append(expression);
        text.append(">");
        text
    }
}

} // verus!
