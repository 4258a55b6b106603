//! Filtering tokens out of an iterator.

use vstd::prelude::*;

use crate::index::Index;
use crate::node::traverse::{next_back_with_children, next_with_children, with_children, DoubleEndedNodeIterator, NodeIterator};
use crate::pointer::Width;
use crate::tree::Node;

verus! {

/// Wrapped around an iterator it excludes tokens: nodes without children.
///
/// See [`Children::skip_tokens`][crate::node::Children::skip_tokens] or
/// [`Walk::skip_tokens`][crate::node::Walk::skip_tokens].
pub struct SkipTokens<U> {
    iter: U,
}

impl<U> SkipTokens<U> {
    /// The wrapped iterator.
    pub closed spec fn inner(&self) -> U {
        self.iter
    }

    /// Wrap an iterator.
    pub(crate) fn new(iter: U) -> (r: Self)
        ensures
            r.inner() == iter,
    {
        SkipTokens { iter }
    }
}

impl<'a, T, I: Index, W: Width, U: NodeIterator<'a, T, I, W>> NodeIterator<'a, T, I, W> for SkipTokens<U> {
    closed spec fn remaining(&self) -> Seq<Node<'a, T, I, W>> {
        with_children(self.iter.remaining())
    }

    fn next(&mut self) -> (r: Option<Node<'a, T, I, W>>) {
        next_with_children(&mut self.iter)
    }
}

impl<'a, T, I: Index, W: Width, U: DoubleEndedNodeIterator<'a, T, I, W>> DoubleEndedNodeIterator<'a, T, I, W> for SkipTokens<U> {
    fn next_back(&mut self) -> (r: Option<Node<'a, T, I, W>>) {
        next_back_with_children(&mut self.iter)
    }
}

/// What remains of a filtered iterator: the nodes with children that remain
/// of the wrapped one.
pub proof fn lemma_skip_tokens<'a, T, I: Index, W: Width, U: NodeIterator<'a, T, I, W>>(s: SkipTokens<U>)
    ensures
        s.remaining() == with_children(s.inner().remaining()),
{
}

} // verus!
