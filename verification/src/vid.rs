//! The capability traits that a graph's type parameters must offer: vertex
//! identifiers can be copied freely and compared for equality, and edge
//! labels can be duplicated so one label may serve both directions of an
//! undirected edge.

use vstd::prelude::*;

verus! {

/// A vertex identifier: a value that can be copied freely and compared for
/// equality. Each identifier carries a mathematical key, and two identifiers
/// name the same vertex exactly when their keys are equal.
pub trait VertexId: Sized + Copy {
    /// The mathematical identity of an identifier.
    type Key;

    /// The key this identifier carries.
    spec fn key(self) -> Self::Key;

    /// Decide whether two identifiers name the same vertex.
    fn same(&self, other: &Self) -> (r: bool)
        ensures
            r == (self.key() == other.key()),
    ;
}

impl VertexId for u64 {
    type Key = u64;

    open spec fn key(self) -> u64 {
        self
    }

    fn same(&self, other: &Self) -> (r: bool) {
        *self == *other
    }
}

impl VertexId for usize {
    type Key = usize;

    open spec fn key(self) -> usize {
        self
    }

    fn same(&self, other: &Self) -> (r: bool) {
        *self == *other
    }
}

impl VertexId for char {
    type Key = char;

    open spec fn key(self) -> char {
        self
    }

    fn same(&self, other: &Self) -> (r: bool) {
        *self == *other
    }
}

/// Relies on `str`'s `==` (its `PartialEq` implementation): two string
/// slices compare equal exactly when they hold the same characters.
#[verifier::external_body]
fn str_eq(a: &str, b: &str) -> (r: bool)
    ensures
        r == (a@ == b@),
{
    a == b
}

impl VertexId for &'static str {
    type Key = Seq<char>;

    open spec fn key(self) -> Seq<char> {
        self@
    }

    fn same(&self, other: &Self) -> (r: bool) {
        str_eq(*self, *other)
    }
}

/// An edge label: a value that can be duplicated without loss of meaning.
pub trait EdgeLabel: Sized {
    /// Duplicate the label; the copy equals the original.
    fn dup(&self) -> (r: Self)
        ensures
            r == *self,
    ;
}

impl EdgeLabel for () {
    fn dup(&self) -> (r: Self) {
        ()
    }
}

impl EdgeLabel for u64 {
    fn dup(&self) -> (r: Self) {
        *self
    }
}

impl EdgeLabel for usize {
    fn dup(&self) -> (r: Self) {
        *self
    }
}

impl EdgeLabel for &'static str {
    fn dup(&self) -> (r: Self) {
        *self
    }
}

impl EdgeLabel for String {
    fn dup(&self) -> (r: Self) {
        self.clone()
    }
}

} // verus!
