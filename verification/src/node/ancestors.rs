//! Iterating over a node and its ancestors.

use vstd::prelude::*;

use crate::index::Index;
use crate::node::skip_tokens::SkipTokens;
use crate::node::traverse::{next_with_children, with_children, NodeIterator};
use crate::pointer::Width;
use crate::shape::{lemma_bwd, parent_of};
use crate::tree::Node;

verus! {

/// The positions from `k` up through its ancestors to a root.
pub open spec fn ancestor_seq(ds: Seq<nat>, k: int) -> Seq<int>
    decreases k + 1,
{
    if k < 0 || k >= ds.len() {
        Seq::empty()
    } else {
        match parent_of(ds, k) {
            None => seq![k],
            Some(p) => {
                proof {
                    lemma_bwd(ds, k - 1, (ds[k] - 1) as nat);
                }
                seq![k] + ancestor_seq(ds, p)
            },
        }
    }
}

/// The positions from a node up to a root climb one parent at a time: they
/// start at `k`, each one after the first is the parent of the one before,
/// the last is a root, and there are `ds[k] + 1` of them, one per level.
pub proof fn lemma_ancestor_seq(ds: Seq<nat>, k: int)
    requires
        crate::shape::valid_depths(ds),
        0 <= k < ds.len(),
    ensures
        ancestor_seq(ds, k).len() == ds[k] + 1,
        ancestor_seq(ds, k)[0] == k,
        forall|i: int|
            0 <= i < ancestor_seq(ds, k).len() ==> 0 <= #[trigger] ancestor_seq(ds, k)[i] < ds.len() && ds[ancestor_seq(
                ds,
                k,
            )[i]] + i == ds[k],
        forall|i: int|
            0 <= i < ancestor_seq(ds, k).len() - 1 ==> #[trigger] parent_of(ds, ancestor_seq(ds, k)[i]) == Some(
                ancestor_seq(ds, k)[i + 1],
            ),
        parent_of(ds, ancestor_seq(ds, k)[ancestor_seq(ds, k).len() - 1]) is None,
    decreases k,
{
    let s = ancestor_seq(ds, k);
    if ds[k] > 0 {
        crate::shape::lemma_parent(ds, k);
        let p = parent_of(ds, k).unwrap();
        lemma_ancestor_seq(ds, p);
        let t = ancestor_seq(ds, p);
        assert(s == seq![k] + t);
        assert forall|i: int| 0 <= i < s.len() - 1 implies #[trigger] parent_of(ds, s[i]) == Some(s[i + 1]) by {
            if i > 0 {
                assert(s[i] == t[i - 1]);
                assert(parent_of(ds, t[i - 1]) == Some(t[i - 1 + 1]));
            }
        }
        assert forall|i: int| 0 <= i < s.len() implies 0 <= #[trigger] s[i] < ds.len() && ds[s[i]] + i == ds[k] by {
            if i > 0 {
                assert(s[i] == t[i - 1]);
            }
        }
    }
}

/// What [`Node::ancestors`][crate::Node::ancestors] produces: the node
/// itself, then the parent of each node produced before, up to a root: as
/// many nodes as the depth of the node plus one.
pub proof fn lemma_ancestors_climb<'a, T, I: Index, W: Width>(n: Node<'a, T, I, W>)
    requires
        n.inv(),
    ensures
        ({
            let s = ancestor_nodes(n);
            let ds = n.tree().depths();
            &&& s.len() == ds[n.pos()] + 1
            &&& s[0] == n
            &&& forall|i: int| 0 <= i < s.len() ==> (#[trigger] s[i]).tree() == n.tree()
            &&& forall|i: int|
                0 <= i < s.len() - 1 ==> #[trigger] parent_of(ds, s[i].pos()) == Some(s[i + 1].pos())
            &&& parent_of(ds, s[s.len() - 1].pos()) is None
        }),
{
    let ds = n.tree().depths();
    let k = n.pos();
    n.lemma_inv();
    n.tree().lemma_inv();
    lemma_ancestor_seq(ds, k);
    let q = ancestor_seq(ds, k);
    let s = ancestor_nodes(n);
    assert forall|i: int| 0 <= i < s.len() implies (#[trigger] s[i]).tree() == n.tree() && s[i].pos() == q[i] by {
        assert(0 <= q[i] < ds.len());
    }
    assert forall|i: int| 0 <= i < s.len() - 1 implies #[trigger] parent_of(ds, s[i].pos()) == Some(s[i + 1].pos()) by {
        assert(s[i].pos() == q[i]);
        assert(s[i + 1].pos() == q[i + 1]);
        assert(parent_of(ds, q[i]) == Some(q[i + 1]));
    }
    assert(s[s.len() - 1].pos() == q[q.len() - 1]);
}

/// An iterator over a node and its ancestors, up to a root.
///
/// See [`Node::ancestors`][crate::Node::ancestors].
pub struct Ancestors<'a, T, I: Index, W: Width> {
    node: Option<Node<'a, T, I, W>>,
}

/// The nodes from `n` up to a root.
pub open spec fn ancestor_nodes<'a, T, I: Index, W: Width>(n: Node<'a, T, I, W>) -> Seq<Node<'a, T, I, W>> {
    ancestor_seq(n.tree().depths(), n.pos()).map_values(|k: int| n.at(k))
}

impl<'a, T, I: Index, W: Width> Ancestors<'a, T, I, W> {
    /// Iterate over `node` and its ancestors.
    pub(crate) fn new(node: Node<'a, T, I, W>) -> (r: Self)
        ensures
            r.remaining() == ancestor_nodes(node),
    {
        Ancestors { node: Some(node) }
    }

    /// Construct a [`SkipTokens`] iterator from the remainder of this
    /// iterator, which filters out tokens (nodes without children).
    pub fn skip_tokens(self) -> (r: SkipTokens<Self>)
        ensures
            r.remaining() == with_children(self.remaining()),
    {
        let r = SkipTokens::new(self);
        proof {
            crate::node::skip_tokens::lemma_skip_tokens(r);
        }
        r
    }

    /// Get the next node with children, skipping tokens.
    pub fn next_node(&mut self) -> (r: Option<Node<'a, T, I, W>>)
        ensures
            with_children(old(self).remaining()).len() == 0 ==> r is None && with_children(final(self).remaining()).len()
                == 0,
            with_children(old(self).remaining()).len() > 0 ==> r == Some(with_children(old(self).remaining())[0])
                && with_children(final(self).remaining()) == with_children(old(self).remaining()).drop_first(),
    {
        next_with_children(self)
    }
}

impl<'a, T, I: Index, W: Width> NodeIterator<'a, T, I, W> for Ancestors<'a, T, I, W> {
    closed spec fn remaining(&self) -> Seq<Node<'a, T, I, W>> {
        match self.node {
            Some(n) => ancestor_nodes(n),
            None => Seq::empty(),
        }
    }

    fn next(&mut self) -> (r: Option<Node<'a, T, I, W>>) {
        let node = match self.node {
            Some(node) => node,
            None => {
                return None;
            },
        };
        proof {
            use_type_invariant(&node);
            node.lemma_inv();
            node.tree().lemma_inv();
        }
        let ghost ds = node.tree().depths();
        let ghost k = node.pos();
        let parent = node.parent();
        proof {
            match parent_of(ds, k) {
                Some(p) => {
                    crate::shape::lemma_parent(ds, k);
                    let pn = node.at(p);
                    assert(pn.pos() == p);
                    assert(ancestor_nodes(node) =~= seq![node] + ancestor_nodes(pn)) by {
                        assert forall|i: int| 0 <= i < ancestor_seq(ds, p).len() implies #[trigger] pn.at(
                            ancestor_seq(ds, p)[i],
                        ) == node.at(ancestor_seq(ds, p)[i]) by {
                        }
                    }
                },
                None => {
                    assert(ancestor_nodes(node) =~= seq![node]);
                },
            }
        }
        self.node = parent;
        Some(node)
    }
}

} // verus!
