//! Walking every node of a tree once, in preorder.

use vstd::prelude::*;

use crate::index::Index;
use crate::node::skip_tokens::SkipTokens;
use crate::node::traverse::{with_children, NodeIterator};
use crate::node::walk_events::Event;
use crate::pointer::Width;
use crate::shape::{first_of, fwd, lemma_fwd, lemma_fwd_unique, next_of, parent_of, range_seq, sub_end, valid_depths};
use crate::tree::Node;

verus! {

/// The preorder position of the next node that a walk produces, when it is
/// at the node at `k` reached with `e`: `k` itself, or for [`Event::Up`]
/// the first position after the subtree of `k`.
pub open spec fn entry_of(ds: Seq<nat>, k: int, e: Event) -> int {
    if e == Event::Up {
        sub_end(ds, k)
    } else {
        k
    }
}

/// Where a walk goes after the node at `k` reached with `e`: down to the
/// first child, on to the next sibling, or up to the parent.
pub open spec fn walk_step(ds: Seq<nat>, k: int, e: Event) -> Option<(int, Event)> {
    let up = match parent_of(ds, k) {
        Some(p) => Some((p, Event::Up)),
        None => None,
    };
    if e == Event::Up {
        match next_of(ds, k) {
            Some(j) => Some((j, Event::Next)),
            None => up,
        }
    } else {
        match first_of(ds, k) {
            Some(c) => Some((c, Event::Down)),
            None => match next_of(ds, k) {
                Some(j) => Some((j, Event::Next)),
                None => up,
            },
        }
    }
}

/// A walk step produces nodes in preorder: after producing the node at `k`
/// it is at the next position, and going up it stays at the same one.
pub proof fn lemma_walk_step(ds: Seq<nat>, k: int, e: Event)
    requires
        valid_depths(ds),
        0 <= k < ds.len(),
    ensures
        k <= entry_of(ds, k, e) <= ds.len(),
        entry_of(ds, k, e) < ds.len() ==> ds[entry_of(ds, k, e)] <= ds[k],
        ({
            let after = if e == Event::Up {
                entry_of(ds, k, e)
            } else {
                k + 1
            };
            match walk_step(ds, k, e) {
                Some((j, e2)) => {
                    &&& 0 <= j < ds.len()
                    &&& entry_of(ds, j, e2) == after
                    &&& e2 == Event::Down ==> ds[j] == ds[k] + 1
                    &&& e2 == Event::Next ==> ds[j] == ds[k]
                    &&& e2 == Event::Up ==> ds[j] + 1 == ds[k]
                },
                None => after == ds.len(),
            }
        }),
{
    crate::shape::lemma_sub_end(ds, k);
    if ds[k] > 0 {
        crate::shape::lemma_parent(ds, k);
    }
    if first_of(ds, k) is None {
        crate::shape::lemma_leaf_sub_end(ds, k);
    }
    match next_of(ds, k) {
        Some(j) => {
            crate::shape::lemma_next_sub_end(ds, k);
        },
        None => {
            if ds[k] > 0 {
                crate::shape::lemma_no_next_parent_sub_end(ds, k);
                let p = parent_of(ds, k).unwrap();
                crate::shape::lemma_sub_end(ds, p);
            } else {
                let e_ = sub_end(ds, k);
                if e_ < ds.len() {
                    assert(ds[e_] <= 0);
                }
            }
        },
    }
}

/// An iterator that walks over the entire tree from a node, visiting every
/// node exactly once, in preorder.
///
/// A walk from a node does not stop at the end of the node: it goes on
/// through the rest of the tree. See [`Walk::inside`] for a walk that does.
///
/// See [`Tree::walk`][crate::Tree::walk] or [`Node::walk`][crate::Node::walk].
pub struct Walk<'a, T, I: Index, W: Width> {
    /// The current node and the event it is reached with.
    node: Option<(Node<'a, T, I, W>, Event)>,
    /// The depth of the current node, relative to the depth `base`.
    depth: isize,
    /// The depth the walk counts from.
    base: Ghost<int>,
}

/// The nodes a walk from the node `n`, reached with `e`, has yet to produce:
/// everything from the entry position on, in preorder.
pub open spec fn walk_nodes<'a, T, I: Index, W: Width>(n: Node<'a, T, I, W>, e: Event) -> Seq<Node<'a, T, I, W>> {
    let ds = n.tree().depths();
    range_seq(entry_of(ds, n.pos(), e), ds.len() as int).map_values(|k: int| n.at(k))
}

/// The nodes a walk inside the nodes deeper than `base` has yet to produce,
/// from the node `n` reached with `e`: the first node, then every following
/// node up to the first one that is not deeper than `base`.
pub open spec fn inside_nodes<'a, T, I: Index, W: Width>(n: Node<'a, T, I, W>, e: Event, base: int) -> Seq<
    Node<'a, T, I, W>,
> {
    let ds = n.tree().depths();
    let k = n.pos();
    let b = if base >= 0 {
        base as nat
    } else {
        0
    };
    let q = entry_of(ds, k, e);
    if e == Event::Up {
        range_seq(q, fwd(ds, q, b)).map_values(|j: int| n.at(j))
    } else {
        range_seq(k, fwd(ds, k + 1, b)).map_values(|j: int| n.at(j))
    }
}

impl<'a, T, I: Index, W: Width> Walk<'a, T, I, W> {
    /// The depth is the depth of the current node relative to the base.
    #[verifier::type_invariant]
    closed spec fn inv(&self) -> bool {
        self.node matches Some((n, e)) ==> {
            &&& 0 <= self.base@ <= n.tree().spec_len()
            &&& self.depth == n.tree().depths()[n.pos()] - self.base@
        }
    }

    /// The node the walk is at and the event it is reached with.
    pub closed spec fn state(&self) -> Option<(Node<'a, T, I, W>, Event)> {
        self.node
    }

    /// The depth that depths of the walk are relative to.
    pub closed spec fn base(&self) -> int {
        self.base@
    }

    /// Walk from `node`, reached with `e`, with depths relative to the depth
    /// of `node`.
    pub(crate) fn new(node: Option<Node<'a, T, I, W>>, e: Event) -> (r: Self)
        ensures
            r.remaining() == match node {
                Some(n) => walk_nodes(n, e),
                None => Seq::empty(),
            },
            node matches Some(n) ==> r.base() == n.tree().depths()[n.pos()],
            node is None ==> r.base() == 0,
            r.state() == match node {
                Some(n) => Some((n, e)),
                None => None::<(Node<'a, T, I, W>, Event)>,
            },
    {
        match node {
            Some(n) => {
                proof {
                    use_type_invariant(&n);
                    n.lemma_inv();
                    n.tree().lemma_inv();
                }
                Walk { node: Some((n, e)), depth: 0, base: Ghost(n.tree().depths()[n.pos()] as int) }
            },
            None => Walk { node: None, depth: 0, base: Ghost(0) },
        }
    }

    /// How far the walk is from producing its next node: going up it first
    /// climbs out of the levels below.
    closed spec fn up_rank(&self) -> nat {
        match self.node {
            Some((n, Event::Up)) => n.tree().depths()[n.pos()] + 1,
            _ => 0,
        }
    }

    /// Take one step: produce the current node and the event it was reached
    /// with, and move on as [`walk_step`] says.
    fn advance(&mut self) -> (r: Option<(Event, Node<'a, T, I, W>)>)
        ensures
            final(self).base() == old(self).base(),
            old(self).node is None ==> r is None && final(self).node is None,
            old(self).node matches Some((n, e)) ==> {
                &&& r == Some((e, n))
                &&& old(self).depth == n.tree().depths()[n.pos()] - old(self).base()
                &&& 0 <= old(self).base() <= n.tree().spec_len()
                &&& final(self).node == match walk_step(n.tree().depths(), n.pos(), e) {
                    Some((j, e2)) => Some((n.at(j), e2)),
                    None => None,
                }
            },
    {
        proof {
            use_type_invariant(&*self);
        }
        let (node, event) = match self.node {
            Some(x) => x,
            None => {
                return None;
            },
        };
        proof {
            use_type_invariant(&node);
            node.lemma_inv();
            node.tree().lemma_inv();
            lemma_walk_step(node.tree().depths(), node.pos(), event);
        }
        let ghost ds = node.tree().depths();
        let ghost k = node.pos();
        if event != Event::Up {
            match node.first() {
                Some(first) => {
                    *self = Walk { node: Some((first, Event::Down)), depth: self.depth + 1, base: self.base };
                    return Some((event, node));
                },
                None => {},
            }
        }
        match node.next() {
            Some(next) => {
                self.node = Some((next, Event::Next));
                return Some((event, node));
            },
            None => {},
        }
        match node.parent() {
            Some(parent) => {
                *self = Walk { node: Some((parent, Event::Up)), depth: self.depth - 1, base: self.base };
            },
            None => {
                self.node = None;
            },
        }
        Some((event, node))
    }

    /// Convert this iterator into one that limits the walk to inside the
    /// current node, visiting every node exactly once.
    pub fn inside(self) -> (r: Inside<'a, T, I, W>)
        ensures
            r.remaining() == match self.state() {
                Some((n, e)) => inside_nodes(n, e, self.base()),
                None => Seq::empty(),
            },
    {
        Inside { walk: self }
    }

    /// Convert this iterator into one which includes depths.
    pub fn with_depths(self) -> (r: WithDepths<'a, T, I, W>)
        ensures
            r.remaining() == self.remaining().map_values(
                |n: Node<'a, T, I, W>| ((n.tree().depths()[n.pos()] - self.base()) as isize, n),
            ),
    {
        WithDepths { walk: self }
    }

    /// Construct a [`SkipTokens`] iterator from the remainder of this
    /// iterator, which filters out tokens (nodes without children).
    pub fn skip_tokens(self) -> (r: SkipTokens<Self>)
        ensures
            r.remaining() == with_children(self.remaining()),
    {
        let r = SkipTokens::new(self);
        proof {
            crate::node::skip_tokens::lemma_skip_tokens(r);
        }
        r
    }

    /// Get the next node with a corresponding depth: the depth of the node
    /// relative to the depth the walk started at.
    pub fn next_with_depth(&mut self) -> (r: Option<(isize, Node<'a, T, I, W>)>)
        ensures
            final(self).base() == old(self).base(),
            old(self).remaining().len() == 0 ==> r is None && final(self).remaining().len() == 0,
            old(self).remaining().len() > 0 ==> {
                let n = old(self).remaining()[0];
                &&& r == Some(((n.tree().depths()[n.pos()] - old(self).base()) as isize, n))
                &&& final(self).remaining() == old(self).remaining().drop_first()
            },
    {
        loop
            invariant
                self.remaining() == old(self).remaining(),
                self.base() == old(self).base(),
            decreases self.remaining().len(), self.up_rank(),
        {
            proof {
                use_type_invariant(&*self);
            }
            let depth = self.depth;
            let ghost before = *self;
            match self.advance() {
                None => {
                    return None;
                },
                Some((event, node)) => {
                    proof {
                        use_type_invariant(&node);
                        self.lemma_advanced(before, event, node);
                    }
                    if event != Event::Up {
                        return Some((depth, node));
                    }
                },
            }
        }
    }

    /// What one step does to the nodes that remain.
    proof fn lemma_advanced(&self, before: Self, event: Event, node: Node<'a, T, I, W>)
        requires
            before.node == Some((node, event)),
            self.base() == before.base(),
            before.depth == node.tree().depths()[node.pos()] - before.base(),
            node.inv(),
            self.node == match walk_step(node.tree().depths(), node.pos(), event) {
                Some((j, e2)) => Some((node.at(j), e2)),
                None => None,
            },
        ensures
            event != Event::Up ==> before.remaining().len() > 0 && before.remaining()[0] == node
                && self.remaining() == before.remaining().drop_first(),
            event == Event::Up ==> self.remaining() == before.remaining() && self.up_rank() < before.up_rank(),
    {
        let ds = node.tree().depths();
        let k = node.pos();
        node.lemma_inv();
        node.tree().lemma_inv();
        lemma_walk_step(ds, k, event);
        let n = ds.len() as int;
        let old_rest = range_seq(entry_of(ds, k, event), n);
        let new_rest = match walk_step(ds, k, event) {
            Some((j, e2)) => range_seq(entry_of(ds, j, e2), n),
            None => Seq::<int>::empty(),
        };
        match walk_step(ds, k, event) {
            Some((j, e2)) => {
                let m = node.at(j);
                assert(m.pos() == j);
                assert(walk_nodes(m, e2) =~= new_rest.map_values(|x: int| node.at(x))) by {
                    assert forall|i: int| 0 <= i < new_rest.len() implies #[trigger] m.at(new_rest[i]) == node.at(
                        new_rest[i],
                    ) by {
                    }
                }
            },
            None => {},
        }
        if event != Event::Up {
            assert(old_rest[0] == k);
            assert(new_rest =~= old_rest.drop_first());
        } else {
            assert(new_rest =~= old_rest);
        }
    }
}

impl<'a, T, I: Index, W: Width> NodeIterator<'a, T, I, W> for Walk<'a, T, I, W> {
    closed spec fn remaining(&self) -> Seq<Node<'a, T, I, W>> {
        match self.node {
            Some((n, e)) => walk_nodes(n, e),
            None => Seq::empty(),
        }
    }

    fn next(&mut self) -> (r: Option<Node<'a, T, I, W>>)
        ensures
            final(self).base() == old(self).base(),
    {
        loop
            invariant
                self.remaining() == old(self).remaining(),
                self.base() == old(self).base(),
            decreases self.remaining().len(), self.up_rank(),
        {
            let ghost before = *self;
            match self.advance() {
                None => {
                    return None;
                },
                Some((event, node)) => {
                    proof {
                        use_type_invariant(&node);
                        self.lemma_advanced(before, event, node);
                    }
                    if event != Event::Up {
                        return Some(node);
                    }
                },
            }
        }
    }
}

/// An iterator that walks over the entire tree, visiting every node exactly
/// once, with the depth of each node relative to where the walk started.
/// This is constructed with [`Walk::with_depths`].
pub struct WithDepths<'a, T, I: Index, W: Width> {
    walk: Walk<'a, T, I, W>,
}

impl<'a, T, I: Index, W: Width> WithDepths<'a, T, I, W> {
    /// The depths and nodes the iterator has yet to produce, in order.
    pub closed spec fn remaining(&self) -> Seq<(isize, Node<'a, T, I, W>)> {
        self.walk.remaining().map_values(
            |n: Node<'a, T, I, W>| ((n.tree().depths()[n.pos()] - self.walk.base()) as isize, n),
        )
    }

    /// Produce the next node and its depth, if any remains.
    pub fn next(&mut self) -> (r: Option<(isize, Node<'a, T, I, W>)>)
        ensures
            old(self).remaining().len() == 0 ==> r is None && final(self).remaining().len() == 0,
            old(self).remaining().len() > 0 ==> r == Some(old(self).remaining()[0])
                && final(self).remaining() == old(self).remaining().drop_first(),
    {
        let r = self.walk.next_with_depth();
        proof {
            assert(self.remaining() =~= old(self).remaining().drop_first() || old(self).remaining().len() == 0);
        }
        r
    }
}

/// An iterator that limits the walk to inside the current node, visiting
/// every node exactly once. This is constructed with [`Walk::inside`].
pub struct Inside<'a, T, I: Index, W: Width> {
    walk: Walk<'a, T, I, W>,
}

impl<'a, T, I: Index, W: Width> NodeIterator<'a, T, I, W> for Inside<'a, T, I, W> {
    closed spec fn remaining(&self) -> Seq<Node<'a, T, I, W>> {
        match self.walk.node {
            Some((n, e)) => inside_nodes(n, e, self.walk.base()),
            None => Seq::empty(),
        }
    }

    fn next(&mut self) -> (r: Option<Node<'a, T, I, W>>) {
        loop
            invariant
                self.remaining() == old(self).remaining(),
            decreases self.walk.remaining().len(), self.walk.up_rank(),
        {
            let ghost before = self.walk;
            match self.walk.advance() {
                None => {
                    return None;
                },
                Some((event, node)) => {
                    proof {
                        use_type_invariant(&node);
                        use_type_invariant(&self.walk);
                        self.walk.lemma_advanced(before, event, node);
                        lemma_inside_step(node, event, before.base());
                        node.lemma_inv();
                        node.tree().lemma_inv();
                        lemma_walk_step(node.tree().depths(), node.pos(), event);
                        match walk_step(node.tree().depths(), node.pos(), event) {
                            Some((j, e2)) => {
                                assert(node.at(j).pos() == j);
                                assert(node.at(j).tree() == node.tree());
                            },
                            None => {},
                        }
                    }
                    if self.walk.depth <= 0 {
                        self.walk.node = None;
                    }
                    if event != Event::Up {
                        return Some(node);
                    }
                },
            }
        }
    }
}

/// What one step does to the nodes that remain of a walk inside the nodes
/// deeper than `base`.
proof fn lemma_inside_step<'a, T, I: Index, W: Width>(node: Node<'a, T, I, W>, event: Event, base: int)
    requires
        node.inv(),
        0 <= base <= node.tree().spec_len(),
    ensures
        ({
            let ds = node.tree().depths();
            let k = node.pos();
            let old_rest = inside_nodes(node, event, base);
            let next = walk_step(ds, k, event);
            let new_rest = match next {
                Some((j, e2)) => if ds[j] - base <= 0 {
                    Seq::empty()
                } else {
                    inside_nodes(node.at(j), e2, base)
                },
                None => Seq::empty(),
            };
            &&& event != Event::Up ==> old_rest.len() > 0 && old_rest[0] == node && new_rest == old_rest.drop_first()
            &&& event == Event::Up ==> new_rest == old_rest
        }),
{
    let ds = node.tree().depths();
    let k = node.pos();
    let n = ds.len() as int;
    node.lemma_inv();
    node.tree().lemma_inv();
    lemma_walk_step(ds, k, event);
    let b = base as nat;
    let q = entry_of(ds, k, event);
    let after = if event == Event::Up {
        q
    } else {
        k + 1
    };
    lemma_fwd(ds, after, b);
    let old_pos = range_seq(if event == Event::Up { q } else { k }, fwd(ds, after, b));
    let new_pos = match walk_step(ds, k, event) {
        Some((j, e2)) => if ds[j] - base <= 0 {
            Seq::<int>::empty()
        } else {
            let q2 = entry_of(ds, j, e2);
            if e2 == Event::Up {
                range_seq(q2, fwd(ds, q2, b))
            } else {
                range_seq(j, fwd(ds, j + 1, b))
            }
        },
        None => Seq::<int>::empty(),
    };
    match walk_step(ds, k, event) {
        Some((j, e2)) => {
            let m = node.at(j);
            assert(m.pos() == j);
            lemma_walk_step(ds, j, e2);
            if ds[j] - base <= 0 {
                // The walk leaves: nothing deeper than `base` comes before
                // the node it goes to.
                if after < n {
                    assert(ds[after] <= b);
                }
                lemma_fwd_unique(ds, after, b, after);
            } else if e2 != Event::Up {
                assert(j == after);
                lemma_fwd(ds, after + 1, b);
                lemma_fwd_unique(ds, after, b, fwd(ds, after + 1, b));
            }
            if ds[j] - base > 0 {
                assert(inside_nodes(m, e2, base) =~= new_pos.map_values(|x: int| node.at(x))) by {
                    assert forall|i: int| 0 <= i < new_pos.len() implies #[trigger] m.at(new_pos[i]) == node.at(
                        new_pos[i],
                    ) by {
                    }
                }
            }
        },
        None => {
            lemma_fwd_unique(ds, after, b, after);
        },
    }
    if event != Event::Up {
        assert(new_pos =~= old_pos.drop_first());
    } else {
        assert(new_pos =~= old_pos);
    }
}


/// A walk from a node visits the node and everything inside it (what
/// [`Walk::inside`] visits), then the rest of the tree (what a walk from
/// after the node visits).
pub proof fn lemma_walk_parts<'a, T, I: Index, W: Width>(n: Node<'a, T, I, W>)
    requires
        n.inv(),
    ensures
        inside_nodes(n, Event::Next, n.tree().depths()[n.pos()] as int) == n.nodes_at(
            range_seq(n.pos(), sub_end(n.tree().depths(), n.pos())),
        ),
        walk_nodes(n, Event::Up) == n.nodes_at(
            range_seq(sub_end(n.tree().depths(), n.pos()), n.tree().spec_len() as int),
        ),
        walk_nodes(n, Event::Next) == inside_nodes(n, Event::Next, n.tree().depths()[n.pos()] as int) + walk_nodes(
            n,
            Event::Up,
        ),
{
    let ds = n.tree().depths();
    let k = n.pos();
    n.lemma_inv();
    n.tree().lemma_inv();
    crate::shape::lemma_sub_end(ds, k);
    let e = sub_end(ds, k);
    let len = ds.len() as int;
    assert(range_seq(k, len) =~= range_seq(k, e) + range_seq(e, len));
    assert(walk_nodes(n, Event::Next) =~= inside_nodes(n, Event::Next, ds[k] as int) + walk_nodes(n, Event::Up));
}


/// A walk of events over a whole tree goes exactly where a walk goes, and
/// its depth is the depth of the node it is at: from a node at preorder
/// position `k` reached with `e` and counted at its depth, the next node and
/// event are those of [`walk_step`], counted at their depth.
pub proof fn lemma_tree_events(ds: Seq<nat>, k: int, e: Event)
    requires
        valid_depths(ds),
        0 <= k < ds.len(),
    ensures
        crate::node::walk_events::event_step(ds, k, e, ds[k]) == match walk_step(ds, k, e) {
            Some((j, e2)) => Some((j, e2, ds[j])),
            None => None,
        },
{
    lemma_walk_step(ds, k, e);
    if ds[k] > 0 {
        crate::shape::lemma_parent(ds, k);
    }
}

} // verus!
