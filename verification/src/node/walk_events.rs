//! Walking a tree while reporting how it is navigated.

use vstd::prelude::*;

use crate::index::Index;
use crate::pointer::Width;
use crate::shape::{first_of, next_of, parent_of};
use crate::tree::Node;

verus! {

/// An event indicating how a tree is being walked with [`WalkEvents`].
#[derive(Debug, Clone, Copy, PartialEq, Eq, Structural, Hash)]
pub enum Event {
    /// Walk the next sibling node. This is also the initial event being
    /// emitted when entering the iterator.
    Next,
    /// Walk down the first child of a sub tree.
    Down,
    /// Walk up a single step from a sub tree.
    Up,
}

/// The state after the node at `k` was produced with event `e`: where the
/// walk goes next and with which event, at depth `d` (the number of levels
/// below the level it started at), or `None` where a walk of events ends:
/// when it would go up from the level it started at.
pub open spec fn event_step(ds: Seq<nat>, k: int, e: Event, d: nat) -> Option<(int, Event, nat)> {
    let up = if d == 0 {
        None
    } else {
        match parent_of(ds, k) {
            Some(p) => Some((p, Event::Up, (d - 1) as nat)),
            None => None,
        }
    };
    if e == Event::Up {
        match next_of(ds, k) {
            Some(j) => Some((j, Event::Next, d)),
            None => up,
        }
    } else {
        match first_of(ds, k) {
            Some(c) => Some((c, Event::Down, d + 1)),
            None => match next_of(ds, k) {
                Some(j) => Some((j, Event::Next, d)),
                None => up,
            },
        }
    }
}

/// A low-level iterator which walks the tree while emitting [`Event`]s that
/// indicate *how* the structure is being navigated.
///
/// A walk of events stays below the level it starts at: it ends where it
/// would go up from it.
///
/// See [`Tree::walk_events`][crate::Tree::walk_events] or
/// [`Node::walk_events`][crate::Node::walk_events].
pub struct WalkEvents<'a, T, I: Index, W: Width> {
    /// The current node and the event it is reached with.
    node: Option<(Node<'a, T, I, W>, Event)>,
    /// Current depth being walked.
    depth: usize,
}

impl<'a, T, I: Index, W: Width> WalkEvents<'a, T, I, W> {
    /// The depth never exceeds the depth of the current node in its tree, so
    /// going down never overflows.
    #[verifier::type_invariant]
    closed spec fn inv(&self) -> bool {
        self.node matches Some((n, e)) ==> self.depth <= n.tree().depths()[n.pos()]
    }

    /// The node the walk is at and the event it is reached with.
    pub closed spec fn state(&self) -> Option<(Node<'a, T, I, W>, Event)> {
        self.node
    }

    /// The number of levels the walk is below the level it started at.
    pub closed spec fn spec_depth(&self) -> nat {
        self.depth as nat
    }

    /// Walk the events from `node`, reached with [`Event::Next`].
    pub(crate) fn new(node: Option<Node<'a, T, I, W>>) -> (r: Self)
        ensures
            r.state() == match node {
                Some(n) => Some((n, Event::Next)),
                None => None::<(Node<'a, T, I, W>, Event)>,
            },
            r.spec_depth() == 0,
    {
        match node {
            Some(n) => WalkEvents { node: Some((n, Event::Next)), depth: 0 },
            None => WalkEvents { node: None, depth: 0 },
        }
    }

    /// Get the current depth: the number of levels the walk is below the
    /// level it started at.
    pub fn depth(&self) -> (r: usize)
        ensures
            r == self.spec_depth(),
    {
        self.depth
    }

    /// Produce the current node and the event it was reached with, and move
    /// on as [`event_step`] says.
    pub fn next(&mut self) -> (r: Option<(Event, Node<'a, T, I, W>)>)
        ensures
            old(self).state() is None ==> r is None && final(self).state() is None && final(self).spec_depth()
                == old(self).spec_depth(),
            old(self).state() matches Some((n, e)) ==> {
                let ds = n.tree().depths();
                &&& r == Some((e, n))
                &&& match event_step(ds, n.pos(), e, old(self).spec_depth()) {
                    Some((j, e2, d2)) => final(self).state() == Some((n.at(j), e2)) && final(self).spec_depth() == d2,
                    None => final(self).state() is None && final(self).spec_depth() == 0,
                }
            },
    {
        proof {
            use_type_invariant(&*self);
        }
        let (node, event) = match self.node {
            Some(x) => x,
            None => {
                return None;
            },
        };
        proof {
            use_type_invariant(&node);
            node.lemma_inv();
            node.tree().lemma_inv();
        }
        let ghost ds = node.tree().depths();
        let ghost k = node.pos();
        if event != Event::Up {
            match node.first() {
                Some(first) => {
                    proof {
                        crate::grow::lemma_last_range_pub(ds, k);
                    }
                    *self = WalkEvents { node: Some((first, Event::Down)), depth: self.depth + 1 };
                    return Some((event, node));
                },
                None => {},
            }
        }
        match node.next() {
            Some(next) => {
                proof {
                    crate::shape::lemma_next_sub_end(ds, k);
                }
                self.node = Some((next, Event::Next));
                return Some((event, node));
            },
            None => {},
        }
        if self.depth == 0 {
            self.node = None;
            return Some((event, node));
        }
        proof {
            crate::shape::lemma_parent(ds, k);
        }
        match node.parent() {
            Some(parent) => {
                *self = WalkEvents { node: Some((parent, Event::Up)), depth: self.depth - 1 };
            },
            None => {
                *self = WalkEvents { node: None, depth: self.depth - 1 };
            },
        }
        Some((event, node))
    }
}


/// A walk of events from a node visits everything inside the node once, in
/// preorder. From a node `j` inside `k`, counted `d` levels below the
/// children of `k` and reached with `e`, let `after` be the position the
/// walk has reached: `j + 1` once `j` itself is produced, or the end of the
/// subtree of `j` when `j` is only passed going up. The next state is inside
/// `k`, counted at its level below the children of `k`, and the next node it
/// produces is at `after`: the state is at `after` itself (going down to a
/// first child or on to a next sibling, one level deeper or at the same
/// level), or going up to a node whose subtree ends at `after`. The walk ends
/// exactly when `after` is the end of the subtree of `k`.
pub proof fn lemma_events_preorder(ds: Seq<nat>, k: int, j: int, e: Event, d: nat)
    requires
        crate::shape::valid_depths(ds),
        0 <= k < j < crate::shape::sub_end(ds, k),
        ds[j] == ds[k] + 1 + d,
    ensures
        ({
            let after = if e == Event::Up {
                crate::shape::sub_end(ds, j)
            } else {
                j + 1
            };
            match event_step(ds, j, e, d) {
                Some((j2, e2, d2)) => {
                    &&& k < j2 < crate::shape::sub_end(ds, k)
                    &&& ds[j2] == ds[k] + 1 + d2
                    &&& e2 == Event::Up ==> crate::shape::sub_end(ds, j2) == after && ds[j2] + 1 == ds[j]
                    &&& e2 != Event::Up ==> j2 == after
                    &&& e2 == Event::Down ==> ds[j2] == ds[j] + 1
                    &&& e2 == Event::Next ==> ds[j2] == ds[j]
                },
                None => after == crate::shape::sub_end(ds, k),
            }
        }),
{
    let ek = crate::shape::sub_end(ds, k);
    crate::shape::lemma_sub_end(ds, k);
    lemma_events_inside(ds, k, j, e, d);
    crate::node::walk::lemma_walk_step(ds, j, e);
    crate::shape::lemma_subtree_nested(ds, k, j);
    crate::shape::lemma_sub_end(ds, j);
    if first_of(ds, j) is None {
        crate::shape::lemma_leaf_sub_end(ds, j);
    }
    if ds[j] > 0 {
        crate::shape::lemma_parent(ds, j);
    }
    if next_of(ds, j) is None && d == 0 && (e == Event::Up || first_of(ds, j) is None) {
        // Going up from the children of `k` ends the walk: the parent is `k`.
        crate::shape::lemma_bwd_unique(ds, j - 1, ds[k], k);
        assert(parent_of(ds, j) == Some(k));
        crate::shape::lemma_no_next_parent_sub_end(ds, j);
    }
}

/// A walk of events from a node stays inside the node: from a node `j` in the
/// subtree of `k`, counted `d` levels below the children of `k`, the next
/// node is again in the subtree of `k` and counted at its level below the
/// children of `k`.
pub proof fn lemma_events_inside(ds: Seq<nat>, k: int, j: int, e: Event, d: nat)
    requires
        crate::shape::valid_depths(ds),
        0 <= k < j < crate::shape::sub_end(ds, k),
        ds[j] == ds[k] + 1 + d,
    ensures
        event_step(ds, j, e, d) matches Some((j2, e2, d2)) ==> k < j2 < crate::shape::sub_end(ds, k) && ds[j2] == ds[k]
            + 1 + d2,
{
    let ek = crate::shape::sub_end(ds, k);
    crate::shape::lemma_sub_end(ds, k);
    crate::shape::lemma_sub_end(ds, j);
    let ej = crate::shape::sub_end(ds, j);
    // The subtree of `j` lies inside the subtree of `k`.
    assert(ej <= ek) by {
        if ej > ek {
            assert(ds[ek] > ds[j]);
            assert(ds[ek] <= ds[k]);
        }
    }
    if first_of(ds, j) is Some {
        assert(j + 1 < ej);
    }
    if let Some(n) = next_of(ds, j) {
        crate::shape::lemma_next_sub_end(ds, j);
        assert(n != ek) by {
            if n == ek {
                assert(ds[ek] <= ds[k]);
            }
        }
    }
    if d > 0 {
        crate::shape::lemma_parent(ds, j);
        let p = parent_of(ds, j).unwrap();
        crate::shape::lemma_bwd(ds, j - 1, (ds[j] - 1) as nat);
        assert(p >= k);
        assert(p != k);
    }
}

} // verus!
