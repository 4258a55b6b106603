use vstd::prelude::*;

verus! {

/// Errors raised while building a tree.
#[derive(Debug, Clone, Copy, PartialEq, Eq, Structural)]
pub enum Error {
    /// Raised by [`TreeBuilder::close`][crate::TreeBuilder::close] if there
    /// currently is no node being built.
    CloseError,
    /// Raised by [`TreeBuilder::build`][crate::TreeBuilder::build] if the tree
    /// isn't correctly balanced.
    BuildError,
    /// Raised by [`TreeBuilder::close_at`][crate::TreeBuilder::close_at] if
    /// we're not trying to close at a sibling node.
    CloseAtError,
    /// Numerical overflow: the tree holds as many nodes as its pointer width
    /// allows, or a span does not fit its index type.
    Overflow,
    /// The node of the given id is missing.
    MissingNode(usize),
}

impl Error {
    /// A human readable description of the error. For
    /// [`Error::MissingNode`] the id of the node goes after it.
    pub fn message(&self) -> (r: &'static str)
        ensures
            r@ == match self {
                Error::CloseError => "no node being built"@,
                Error::BuildError => "tree is currently being built"@,
                Error::CloseAtError => "trying to close a node which is not a sibling of the checkpoint being closed"@,
                Error::Overflow => "numerical overflow"@,
                Error::MissingNode(_) => "missing node with id"@,
            },
    {
        match self {
            Error::CloseError => "no node being built",
            Error::BuildError => "tree is currently being built",
            Error::CloseAtError => "trying to close a node which is not a sibling of the checkpoint being closed",
            Error::Overflow => "numerical overflow",
            Error::MissingNode(_) => "missing node with id",
        }
    }
}

} // verus!
