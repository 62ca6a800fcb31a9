//! A generic library for lossless syntax trees.
//!
//! A parsed document is kept as an immutable, structurally shared *green*
//! tree that stores every byte of the input (including whitespace and
//! comments), so the exact source text can be reconstructed by concatenating
//! the leaf tokens in document order.  A lazily built, position-aware *red*
//! layer ([`syntax::SyntaxNode`], [`syntax::SyntaxToken`]) offers navigation
//! (parent, children, siblings), absolute offsets, and offset lookup on top
//! of the green data.

use vstd::prelude::*;

pub mod algo;
pub mod green;
pub mod syntax;

pub use crate::algo::Preorder;
pub use crate::algo::SyntaxElementChildren;
pub use crate::algo::SyntaxNodeChildren;
pub use crate::algo::TokenAtOffset;
pub use crate::algo::WalkEvent;
pub use crate::green::GreenElement;
pub use crate::green::GreenId;
pub use crate::green::GreenNode;
pub use crate::green::GreenNodeBuilder;
pub use crate::green::GreenToken;
pub use crate::green::GreenTree;
pub use crate::syntax::SyntaxElement;
pub use crate::syntax::SyntaxNode;
pub use crate::syntax::SyntaxToken;

verus! {

/// SyntaxKind is a type tag for each token or node.
///
/// The tag is opaque to this library: it has no built-in meaning, only
/// equality and an optional external name lookup through [`SyntaxResolver`].
#[derive(Debug, Clone, Copy, PartialEq, Eq, Hash, Structural)]
pub struct SyntaxKind(pub u16);

/// Optional trait that enables a pretty name for a [`SyntaxKind`].
///
/// The resolver is an external collaborator, specified only at its
/// interface: `name_spec` is its lookup table at the specification level,
/// and `name` must return exactly that.  Absence of a name is a valid,
/// recoverable outcome at this layer.
pub trait SyntaxResolver {
    /// The resolver's lookup table, as a pure function of the kind.
    spec fn name_spec(kind: SyntaxKind) -> Option<&'static str>;

    /// Returns the name for the kind, if the resolver defines one.
    fn name(kind: SyntaxKind) -> (r: Option<&'static str>)
        ensures
            r == Self::name_spec(kind),
    ;
}

impl SyntaxKind {
    /// Uses the [`SyntaxResolver`] trait to look up the name for this
    /// kind, which the resolver must cover: calling it for a kind without
    /// a name is a caller error, excluded by the precondition.  Callers
    /// that have not verified coverage use [`SyntaxResolver::name`], where
    /// absence is recoverable.
    pub fn name<T: SyntaxResolver>(self) -> (r: &'static str)
        requires
            T::name_spec(self) is Some,
        ensures
            Some(r) == T::name_spec(self),
    {
        match T::name(self) {
            Some(n) => n,
            None => {
                proof {
                    assert(false);
                }
                ""
            },
        }
    }
}

/// A half-open byte range `[start, end)` within a document.
#[derive(Debug, Clone, Copy, PartialEq, Eq, Hash, Structural)]
pub struct TextRange {
    /// Inclusive start offset.
    pub start: usize,
    /// Exclusive end offset.
    pub end: usize,
}

impl TextRange {
    /// The number of bytes the range covers.
    pub fn len(&self) -> (r: usize)
        requires
            self.start <= self.end,
        ensures
            r == self.end - self.start,
    {
        self.end - self.start
    }

    /// Whether `offset` lies strictly inside the half-open range.
    pub fn contains(&self, offset: usize) -> (r: bool)
        ensures
            r == (self.start <= offset && offset < self.end),
    {
        self.start <= offset && offset < self.end
    }
}

} // verus!
