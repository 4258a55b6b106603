//! Iterating over a node and its following siblings.

use vstd::prelude::*;

use crate::index::Index;
use crate::node::skip_tokens::SkipTokens;
use crate::node::traverse::{next_with_children, with_children, NodeIterator};
use crate::pointer::Width;
use crate::shape::{final_sibling, level_seq, lemma_siblings, next_of};
use crate::tree::Node;

verus! {

/// An iterator over a node and its following siblings.
///
/// See [`Node::siblings`][crate::Node::siblings].
pub struct Siblings<'a, T, I: Index, W: Width> {
    node: Option<Node<'a, T, I, W>>,
}

/// The nodes from `n` to its last sibling.
pub open spec fn sibling_nodes<'a, T, I: Index, W: Width>(n: Node<'a, T, I, W>) -> Seq<Node<'a, T, I, W>> {
    let ds = n.tree().depths();
    level_seq(ds, n.pos(), final_sibling(ds, n.pos()), ds[n.pos()]).map_values(|k: int| n.at(k))
}

/// The positions from a node to its last sibling go one next sibling at a
/// time: they start at `k`, each one after the first is the next sibling of
/// the one before, all are at the depth of `k`, and the last one has no next
/// sibling.
pub proof fn lemma_sibling_seq(ds: Seq<nat>, k: int)
    requires
        crate::shape::valid_depths(ds),
        0 <= k < ds.len(),
    ensures
        ({
            let s = level_seq(ds, k, final_sibling(ds, k), ds[k]);
            &&& s.len() >= 1
            &&& s[0] == k
            &&& forall|i: int| 0 <= i < s.len() ==> 0 <= #[trigger] s[i] < ds.len() && ds[s[i]] == ds[k]
            &&& forall|i: int| 0 <= i < s.len() - 1 ==> #[trigger] next_of(ds, s[i]) == Some(s[i + 1])
            &&& next_of(ds, s[s.len() - 1]) is None
        }),
    decreases final_sibling(ds, k) - k,
{
    lemma_siblings(ds, k);
    let f = final_sibling(ds, k);
    let s = level_seq(ds, k, f, ds[k]);
    assert(s == seq![k] + level_seq(ds, k + 1, f, ds[k]));
    match next_of(ds, k) {
        Some(j) => {
            lemma_sibling_seq(ds, j);
            let t = level_seq(ds, j, f, ds[k]);
            assert(s == seq![k] + t);
            assert(ds[j] == ds[k]);
            assert forall|i: int| 0 <= i < s.len() - 1 implies #[trigger] next_of(ds, s[i]) == Some(s[i + 1]) by {
                if i > 0 {
                    assert(s[i] == t[i - 1]);
                    assert(next_of(ds, t[i - 1]) == Some(t[i - 1 + 1]));
                }
            }
            assert forall|i: int| 0 <= i < s.len() implies 0 <= #[trigger] s[i] < ds.len() && ds[s[i]] == ds[k] by {
                if i > 0 {
                    assert(s[i] == t[i - 1]);
                }
            }
        },
        None => {
            assert(s =~= seq![k]);
        },
    }
}

/// What [`Node::siblings`][crate::Node::siblings] produces: the node itself,
/// then the next sibling of each node produced before, at any depth, up to
/// one that has no next sibling.
pub proof fn lemma_siblings_follow<'a, T, I: Index, W: Width>(n: Node<'a, T, I, W>)
    requires
        n.inv(),
    ensures
        ({
            let s = sibling_nodes(n);
            let ds = n.tree().depths();
            &&& s.len() >= 1
            &&& s[0] == n
            &&& forall|i: int| 0 <= i < s.len() ==> (#[trigger] s[i]).tree() == n.tree()
            &&& forall|i: int| 0 <= i < s.len() - 1 ==> #[trigger] next_of(ds, s[i].pos()) == Some(s[i + 1].pos())
            &&& next_of(ds, s[s.len() - 1].pos()) is None
        }),
{
    let ds = n.tree().depths();
    let k = n.pos();
    n.lemma_inv();
    n.tree().lemma_inv();
    lemma_sibling_seq(ds, k);
    let q = level_seq(ds, k, final_sibling(ds, k), ds[k]);
    let s = sibling_nodes(n);
    assert forall|i: int| 0 <= i < s.len() implies (#[trigger] s[i]).tree() == n.tree() && s[i].pos() == q[i] by {
        assert(0 <= q[i] < ds.len());
    }
    assert forall|i: int| 0 <= i < s.len() - 1 implies #[trigger] next_of(ds, s[i].pos()) == Some(s[i + 1].pos()) by {
        assert(s[i].pos() == q[i]);
        assert(s[i + 1].pos() == q[i + 1]);
        assert(next_of(ds, q[i]) == Some(q[i + 1]));
    }
    assert(s[s.len() - 1].pos() == q[q.len() - 1]);
}

impl<'a, T, I: Index, W: Width> Siblings<'a, T, I, W> {
    /// Iterate over `node` and its following siblings.
    pub(crate) fn new(node: Node<'a, T, I, W>) -> (r: Self)
        ensures
            r.remaining() == sibling_nodes(node),
    {
        Siblings { node: Some(node) }
    }

    /// Construct a [`SkipTokens`] iterator from the remainder of this
    /// iterator, which filters out tokens (nodes without children).
    pub fn skip_tokens(self) -> (r: SkipTokens<Self>)
        ensures
            r.remaining() == with_children(self.remaining()),
    {
        let r = SkipTokens::new(self);
        proof {
            crate::node::skip_tokens::lemma_skip_tokens(r);
        }
        r
    }

    /// Get the next node with children, skipping tokens.
    pub fn next_node(&mut self) -> (r: Option<Node<'a, T, I, W>>)
        ensures
            with_children(old(self).remaining()).len() == 0 ==> r is None && with_children(final(self).remaining()).len()
                == 0,
            with_children(old(self).remaining()).len() > 0 ==> r == Some(with_children(old(self).remaining())[0])
                && with_children(final(self).remaining()) == with_children(old(self).remaining()).drop_first(),
    {
        next_with_children(self)
    }
}

impl<'a, T, I: Index, W: Width> NodeIterator<'a, T, I, W> for Siblings<'a, T, I, W> {
    closed spec fn remaining(&self) -> Seq<Node<'a, T, I, W>> {
        match self.node {
            Some(n) => sibling_nodes(n),
            None => Seq::empty(),
        }
    }

    fn next(&mut self) -> (r: Option<Node<'a, T, I, W>>) {
        let node = match self.node {
            Some(node) => node,
            None => {
                return None;
            },
        };
        proof {
            use_type_invariant(&node);
            node.lemma_inv();
            node.tree().lemma_inv();
        }
        let ghost ds = node.tree().depths();
        let ghost k = node.pos();
        let next = node.next();
        proof {
            lemma_siblings(ds, k);
            let f = final_sibling(ds, k);
            assert(level_seq(ds, k, f, ds[k]) == seq![k] + level_seq(ds, k + 1, f, ds[k]));
            match next_of(ds, k) {
                Some(j) => {
                    let nn = node.at(j);
                    assert(nn.pos() == j);
                    assert(sibling_nodes(node) =~= seq![node] + sibling_nodes(nn)) by {
                        assert forall|i: int| 0 <= i < level_seq(ds, j, f, ds[k]).len() implies #[trigger] nn.at(
                            level_seq(ds, j, f, ds[k])[i],
                        ) == node.at(level_seq(ds, j, f, ds[k])[i]) by {
                        }
                    }
                },
                None => {
                    assert(sibling_nodes(node) =~= seq![node]);
                },
            }
        }
        self.node = next;
        Some(node)
    }
}

} // verus!
