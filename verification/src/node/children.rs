//! Iterating over a run of sibling nodes, from both ends.

use vstd::prelude::*;

use crate::index::Index;
use crate::node::skip_tokens::SkipTokens;
use crate::node::walk_rev::{mirror, WalkRev};
use crate::node::traverse::{
    next_back_with_children, next_with_children, with_children, DoubleEndedNodeIterator, NodeIterator,
};
use crate::pointer::Width;
use crate::shape::{
    level_seq, lemma_bwd, lemma_fwd, lemma_level_back, lemma_level_skip, lemma_level_skip_back, next_of,
    prev_of, sib_range, valid_depths,
};
use crate::span::Span;
use crate::tree::Node;

verus! {

/// Taking the first sibling off a run of siblings leaves the run from its
/// next sibling.
pub proof fn lemma_run_front(ds: Seq<nat>, a: int, b: int)
    requires
        valid_depths(ds),
        sib_range(ds, a, b),
        a < b,
    ensures
        next_of(ds, a) matches Some(j) && sib_range(ds, j, b) && level_seq(ds, a, b, ds[a]) == seq![a]
            + level_seq(ds, j, b, ds[a]),
{
    let d = ds[a];
    crate::shape::lemma_sub_end(ds, a);
    let j = crate::shape::sub_end(ds, a);
    assert(j <= b) by {
        if j > b {
            assert(ds[b] > d);
        }
    }
    assert(ds[j] >= d);
    assert(next_of(ds, a) == Some(j));
    assert forall|m: int| a + 1 <= m < j implies #[trigger] ds[m] != d by {
    }
    lemma_level_skip(ds, a + 1, j, b, d);
    assert forall|m: int| j <= m <= b implies #[trigger] ds[m] >= ds[j] by {
        assert(ds[m] >= ds[a]);
    }
}

/// Taking the last sibling off a run of siblings leaves the run up to its
/// previous sibling.
pub proof fn lemma_run_back(ds: Seq<nat>, a: int, b: int)
    requires
        valid_depths(ds),
        sib_range(ds, a, b),
        a < b,
    ensures
        prev_of(ds, b) matches Some(j) && sib_range(ds, a, j) && level_seq(ds, a, b, ds[a]) == level_seq(
            ds,
            a,
            j,
            ds[a],
        ).push(b),
{
    let d = ds[a];
    lemma_bwd(ds, b - 1, d);
    let j = crate::shape::bwd(ds, b - 1, d);
    assert(j >= a) by {
        if j < a {
            assert(ds[a] > d);
        }
    }
    assert(ds[j] >= d);
    assert(prev_of(ds, b) == Some(j));
    lemma_level_back(ds, a, b, d);
    assert forall|m: int| j < m <= b - 1 implies #[trigger] ds[m] != d by {
    }
    lemma_level_skip_back(ds, a, j, b - 1, d);
    assert(level_seq(ds, a, j, d) + seq![b] =~= level_seq(ds, a, j, d).push(b));
}

/// An iterator over a run of sibling nodes, such as the children of a node
/// or the roots of a tree, from both ends.
///
/// See [`Tree::children`][crate::Tree::children] or
/// [`Node::children`][crate::Node::children].
pub struct Children<'a, T, I: Index, W: Width> {
    first: Option<Node<'a, T, I, W>>,
    last: Option<Node<'a, T, I, W>>,
}

/// The nodes of a run of siblings from `a` to `b`.
pub open spec fn run_nodes<'a, T, I: Index, W: Width>(a: Node<'a, T, I, W>, b: Node<'a, T, I, W>) -> Seq<
    Node<'a, T, I, W>,
> {
    level_seq(a.tree().depths(), a.pos(), b.pos(), a.tree().depths()[a.pos()]).map_values(|k: int| a.at(k))
}

impl<'a, T, I: Index, W: Width> Children<'a, T, I, W> {
    /// The ends of the run still to produce are siblings of one tree.
    #[verifier::type_invariant]
    closed spec fn inv(&self) -> bool {
        match (self.first, self.last) {
            (Some(a), Some(b)) => a.tree() == b.tree() && sib_range(a.tree().depths(), a.pos(), b.pos()),
            _ => true,
        }
    }

    /// Iterate over the siblings from `first` to `last`, or over nothing.
    pub(crate) fn new(first: Option<Node<'a, T, I, W>>, last: Option<Node<'a, T, I, W>>) -> (r: Self)
        requires
            first is Some <==> last is Some,
            first matches Some(a) ==> last matches Some(b) && a.tree() == b.tree() && sib_range(
                a.tree().depths(),
                a.pos(),
                b.pos(),
            ),
        ensures
            r.remaining() == match (first, last) {
                (Some(a), Some(b)) => run_nodes(a, b),
                _ => Seq::empty(),
            },
    {
        Children { first, last }
    }

    /// Construct a [`SkipTokens`] iterator from the remainder of this
    /// iterator, which filters out tokens (nodes without children).
    pub fn skip_tokens(self) -> (r: SkipTokens<Self>)
        ensures
            r.remaining() == with_children(self.remaining()),
    {
        let r = SkipTokens::new(self);
        proof {
            crate::node::skip_tokens::lemma_skip_tokens(r);
        }
        r
    }

    /// Get the next node with children, skipping tokens.
    pub fn next_node(&mut self) -> (r: Option<Node<'a, T, I, W>>)
        ensures
            with_children(old(self).remaining()).len() == 0 ==> r is None && with_children(final(self).remaining()).len()
                == 0,
            with_children(old(self).remaining()).len() > 0 ==> r == Some(with_children(old(self).remaining())[0])
                && with_children(final(self).remaining()) == with_children(old(self).remaining()).drop_first(),
    {
        next_with_children(self)
    }

    /// Get the last node with children, skipping tokens.
    pub fn next_back_node(&mut self) -> (r: Option<Node<'a, T, I, W>>)
        ensures
            with_children(old(self).remaining()).len() == 0 ==> r is None && with_children(final(self).remaining()).len()
                == 0,
            with_children(old(self).remaining()).len() > 0 ==> r == Some(with_children(old(self).remaining()).last())
                && with_children(final(self).remaining()) == with_children(old(self).remaining()).drop_last(),
    {
        next_back_with_children(self)
    }

    /// The node the iterator is at from the back: the last remaining node,
    /// if any remains.
    pub closed spec fn back(&self) -> Option<Node<'a, T, I, W>> {
        self.last
    }

    /// Walk the tree backwards from the node at the back: each node before
    /// the nodes inside it, the children of a node from the last one, and
    /// then the earlier siblings the same way.
    pub fn walk_rev(&self) -> (r: WalkRev<'a, T, I, W>)
        ensures
            r.remaining() == match self.back() {
                Some(n) => mirror(n.tree().depths(), n.pos()).map_values(|k: int| n.at(k)),
                None => Seq::empty(),
            },
            self.remaining().len() > 0 ==> self.back() == Some(self.remaining().last()),
    {
        proof {
            use_type_invariant(self);
            if let (Some(a), Some(b)) = (self.first, self.last) {
                use_type_invariant(&a);
                use_type_invariant(&b);
                a.lemma_inv();
                b.lemma_inv();
                Node::lemma_same_tree(a, b);
                let ds = a.tree().depths();
                crate::shape::lemma_level_back(ds, a.pos(), b.pos(), ds[a.pos()]);
            }
        }
        WalkRev::new(self.last)
    }

    /// The span covered by the remaining nodes: from the start of the first
    /// to the end of the last, or `None` if none remains.
    pub fn span(self) -> (r: Option<Span<I>>)
        ensures
            self.remaining().len() == 0 ==> r is None,
            self.remaining().len() == 1 ==> r == Some(self.remaining()[0].tree().spans()[self.remaining()[0].pos()]),
            self.remaining().len() > 1 ==> r == Some(
                self.remaining()[0].tree().spans()[self.remaining()[0].pos()].spec_join(
                    self.remaining().last().tree().spans()[self.remaining().last().pos()],
                ),
            ),
    {
        let mut it = self;
        let first = it.next();
        let last = it.next_back();
        match (first, last) {
            (Some(first), Some(last)) => Some(first.span().join(&last.span())),
            (Some(first), None) => Some(first.span()),
            (None, Some(last)) => Some(last.span()),
            (None, None) => None,
        }
    }
}

impl<'a, T, I: Index, W: Width> NodeIterator<'a, T, I, W> for Children<'a, T, I, W> {
    closed spec fn remaining(&self) -> Seq<Node<'a, T, I, W>> {
        match (self.first, self.last) {
            (Some(a), Some(b)) => run_nodes(a, b),
            _ => Seq::empty(),
        }
    }

    fn next(&mut self) -> (r: Option<Node<'a, T, I, W>>) {
        proof {
            use_type_invariant(&*self);
        }
        let first = match self.first {
            Some(first) => first,
            None => {
                return None;
            },
        };
        self.first = None;
        let last = match self.last {
            Some(last) => last,
            None => {
                return None;
            },
        };
        proof {
            use_type_invariant(&first);
            use_type_invariant(&last);
            first.lemma_inv();
            last.lemma_inv();
            first.tree().lemma_inv();
        }
        let ghost ds = first.tree().depths();
        let ghost a = first.pos();
        let ghost b = last.pos();
        if !first.same_as(&last) {
            let next = first.next();
            proof {
                lemma_run_front(ds, a, b);
                let j = next_of(ds, a).unwrap();
                let nf = first.at(j);
                assert(next == Some(nf));
                assert(nf.pos() == j);
                assert(run_nodes(first, last) =~= seq![first] + run_nodes(nf, last)) by {
                    assert forall|i: int| 0 <= i < level_seq(ds, j, b, ds[a]).len() implies #[trigger] nf.at(
                        level_seq(ds, j, b, ds[a])[i],
                    ) == first.at(level_seq(ds, j, b, ds[a])[i]) by {
                    }
                }
            }
            self.first = next;
        } else {
            proof {
                assert(level_seq(ds, a + 1, b, ds[a]) =~= Seq::<int>::empty());
                assert(level_seq(ds, a, b, ds[a]) =~= seq![a]);
            }
        }
        Some(first)
    }
}

impl<'a, T, I: Index, W: Width> DoubleEndedNodeIterator<'a, T, I, W> for Children<'a, T, I, W> {
    fn next_back(&mut self) -> (r: Option<Node<'a, T, I, W>>) {
        proof {
            use_type_invariant(&*self);
        }
        let last = match self.last {
            Some(last) => last,
            None => {
                return None;
            },
        };
        self.last = None;
        let first = match self.first {
            Some(first) => first,
            None => {
                return None;
            },
        };
        proof {
            use_type_invariant(&first);
            use_type_invariant(&last);
            first.lemma_inv();
            last.lemma_inv();
            first.tree().lemma_inv();
        }
        let ghost ds = first.tree().depths();
        let ghost a = first.pos();
        let ghost b = last.pos();
        proof {
            Node::lemma_same_tree(first, last);
            assert(last == first.at(b));
        }
        if !last.same_as(&first) {
            let prev = last.prev();
            proof {
                lemma_run_back(ds, a, b);
                let j = prev_of(ds, b).unwrap();
                let nl = last.at(j);
                Node::lemma_same_tree(first, last);
                assert(nl == first.at(j));
                assert(prev == Some(nl));
                assert(run_nodes(first, last) =~= run_nodes(first, nl).push(last));
            }
            self.last = prev;
        } else {
            proof {
                assert(level_seq(ds, a + 1, b, ds[a]) =~= Seq::<int>::empty());
                assert(level_seq(ds, a, b, ds[a]) =~= seq![a]);
            }
        }
        Some(last)
    }
}

} // verus!
