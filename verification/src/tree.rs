//! The syntax tree produced by a builder, and the nodes it hands out.

use vstd::prelude::*;

use crate::index::Index;
use crate::pointer::{Pointer, Width};
use crate::raw::{
    data_seq, end_seq, from_ptr, id_of, indexes_wf, is_indexed, link, opt_int, pos_ok, shape_wf, spans_wf,
    start_seq, start_ok, end_ok, Links, TreeIndex,
};
use crate::shape::{first_of, first_root, last_of, last_root, next_of, parent_of, prev_of, valid_depths};
use crate::node::{
    ancestor_nodes, sibling_nodes, walk_nodes, Ancestors, Children, Event, NodeIterator, Siblings, Walk, WalkEvents,
    WithDepths,
};
use crate::shape::{fwd, level_seq, range_seq, sub_end};
use crate::span::Span;

verus! {

/// The first position at or after `j` whose value in `s` is above `x`, or
/// the length of `s` if there is none.
pub open spec fn first_above(s: Seq<nat>, x: nat, j: int) -> int
    decreases s.len() - j,
{
    if j >= s.len() {
        s.len() as int
    } else if s[j] > x {
        j
    } else {
        first_above(s, x, j + 1)
    }
}

/// A position with the properties of `first_above` is the one it computes.
pub proof fn lemma_first_above_unique(s: Seq<nat>, x: nat, j: int, r: int)
    requires
        0 <= j <= r <= s.len(),
        forall|m: int| j <= m < r ==> s[m] <= x,
        r < s.len() ==> s[r] > x,
    ensures
        first_above(s, x, j) == r,
    decreases s.len() - j,
{
    if j < r {
        lemma_first_above_unique(s, x, j + 1, r);
    }
}

/// What `first_above` computes: every value before it is at most `x`, and
/// the value at it (if any) is above `x`.
pub proof fn lemma_first_above(s: Seq<nat>, x: nat, j: int)
    requires
        0 <= j <= s.len(),
    ensures
        j <= first_above(s, x, j) <= s.len(),
        forall|m: int| j <= m < first_above(s, x, j) ==> s[m] <= x,
        first_above(s, x, j) < s.len() ==> s[first_above(s, x, j)] > x,
    decreases s.len() - j,
{
    if j < s.len() && s[j] <= x {
        lemma_first_above(s, x, j + 1);
    }
}

/// Where a climb ends: at the node itself or an ancestor of it, which ends
/// at or after `end` unless it is a root.
pub proof fn lemma_climb(ds: Seq<nat>, ends: Seq<nat>, k: int, end: nat)
    requires
        valid_depths(ds),
        0 <= k < ds.len(),
    ensures
        ({
            let n = climb(ds, ends, k, end);
            &&& 0 <= n <= k < sub_end(ds, n)
            &&& ends[n] >= end || parent_of(ds, n) is None
        }),
    decreases k,
{
    crate::shape::lemma_sub_end(ds, k);
    if ds[k] > 0 {
        crate::shape::lemma_in_parent(ds, k);
        let p = parent_of(ds, k).unwrap();
        if ends[p] < end {
            lemma_climb(ds, ends, p, end);
            let n = climb(ds, ends, p, end);
            crate::shape::lemma_subtree_nested(ds, n, p);
        }
    }
}

/// A climb goes up through ancestors: it leaves the node at `k` unless that
/// is a root, and every ancestor it passes on the way, strictly between the
/// node it ends at and `k`, ends before `end`.
pub proof fn lemma_climb_path(ds: Seq<nat>, ends: Seq<nat>, k: int, end: nat)
    requires
        valid_depths(ds),
        0 <= k < ds.len(),
    ensures
        climb(ds, ends, k, end) == k ==> parent_of(ds, k) is None,
        forall|a: int|
            climb(ds, ends, k, end) < a < k && k < #[trigger] sub_end(ds, a) ==> ends[a] < end,
    decreases k,
{
    lemma_climb(ds, ends, k, end);
    if ds[k] > 0 {
        crate::shape::lemma_in_parent(ds, k);
        let p = parent_of(ds, k).unwrap();
        crate::shape::lemma_sub_end(ds, p);
        if ends[p] < end {
            lemma_climb_path(ds, ends, p, end);
            lemma_climb(ds, ends, p, end);
        }
        let n = climb(ds, ends, k, end);
        assert forall|a: int| n < a < k && k < #[trigger] sub_end(ds, a) implies ends[a] < end by {
            crate::shape::lemma_sub_end(ds, a);
            if p < a {
                assert(ds[a] > ds[p]);
                assert(ds[k] > ds[a]);
            }
        }
    }
}

/// Climbing from the node at `k` to the first ancestor that ends at or
/// after `end`, or to the root if none does. The node itself is where the
/// climb starts, not a candidate: the climb takes at least one step up if
/// there is a parent.
pub open spec fn climb(ds: Seq<nat>, ends: Seq<nat>, k: int, end: nat) -> int
    decreases k + 1,
{
    if k < 0 || k >= ds.len() {
        k
    } else {
        match parent_of(ds, k) {
            None => k,
            Some(p) => {
                proof {
                    crate::shape::lemma_bwd(ds, k - 1, (ds[k] - 1) as nat);
                }
                if ends[p] >= end {
                    p
                } else {
                    climb(ds, ends, p, end)
                }
            },
        }
    }
}

/// The node that a query for the span `start..end` finds in the tree with
/// depths `ds`, start positions `starts` and end positions `ends`: starting
/// from the first token (a leaf that covers input) that ends after `start`,
/// the first ancestor that ends at or after `end`.
pub open spec fn span_query(ds: Seq<nat>, starts: Seq<nat>, ends: Seq<nat>, start: nat, end: nat) -> Option<int> {
    let tokens = crate::nesting::covering_leaves(ds, starts, ends, ds.len() as int);
    let i = first_above(tokens.map_values(|k: int| ends[k]), start, 0);
    if i < tokens.len() {
        Some(climb(ds, ends, tokens[i], end))
    } else {
        None
    }
}

/// A syntax tree.
///
/// A tree is constructed through a [`TreeBuilder`][crate::TreeBuilder].
///
/// The three type parameters of the tree determine:
/// * `T`: the data stored in the tree.
/// * `I`: the numerical bounds of spans stored in the tree, through the
///   [`Index`] trait. With [`Empty`][crate::Empty] the tree stores no spans.
/// * `W`: the bounds of pointers in the tree, through the [`Width`] trait,
///   which decides how many nodes the tree can hold.
///
/// In its specifications a tree is a forest listed in preorder: the depth of
/// each node ([`Tree::depths`]), its data ([`Tree::values`]) and its span
/// ([`Tree::spans`]).
pub struct Tree<T, I: Index, W: Width> {
    /// Links in the tree.
    pub(crate) nodes: Vec<Links<T, I, W::Pointer>>,
    /// The span of the whole tree.
    pub(crate) span: Span<I>,
    /// Token indexes for range searches: the position where each token that
    /// covers input ends, in increasing order.
    pub(crate) indexes: Vec<TreeIndex<I, W::Pointer>>,
    /// The first root.
    pub(crate) first: Option<usize>,
    /// The last root.
    pub(crate) last: Option<usize>,
    /// Preorder position to arena slot.
    pub(crate) order: Ghost<Seq<int>>,
    /// Arena slot to preorder position.
    pub(crate) posn: Ghost<Seq<int>>,
    /// Depth of each node in preorder.
    pub(crate) depths: Ghost<Seq<nat>>,
    /// Preorder positions of the indexed tokens.
    pub(crate) toks: Ghost<Seq<int>>,
}

/// A node in the tree.
///
/// In specifications a node is its tree ([`Node::tree`]) and its preorder
/// position in that tree ([`Node::pos`]).
pub struct Node<'a, T, I: Index, W: Width> {
    tree: &'a Tree<T, I, W>,
    id: usize,
}

impl<T, I: Index, W: Width> Tree<T, I, W> {
    /// The tree is consistent: its arena holds a forest whose links, spans
    /// and token indexes agree with its preorder depth sequence, and every
    /// node is closed.
    #[verifier::type_invariant]
    pub closed spec fn inv(&self) -> bool {
        &&& shape_wf(self.nodes@, self.first, self.last, self.order@, self.posn@, self.depths@)
        &&& spans_wf(self.nodes@, self.order@, self.depths@, 0, self.span.end.spec_pos())
        &&& self.span.start.spec_pos() == 0
        &&& indexes_wf(self.nodes@, self.order@, self.depths@, self.indexes@, self.toks@, self.span.end.spec_pos())
    }

    /// The number of nodes.
    pub closed spec fn spec_len(&self) -> nat {
        self.nodes@.len()
    }

    /// The depth of each node, in preorder.
    pub closed spec fn depths(&self) -> Seq<nat> {
        self.depths@
    }

    /// The data of each node, in preorder.
    pub closed spec fn values(&self) -> Seq<T> {
        data_seq(self.nodes@, self.order@)
    }

    /// The span of each node, in preorder.
    pub closed spec fn spans(&self) -> Seq<Span<I>> {
        Seq::new(self.order@.len(), |k: int| self.nodes@[self.order@[k]].span)
    }

    /// The start position of each node, in preorder.
    pub closed spec fn starts(&self) -> Seq<nat> {
        start_seq(self.nodes@, self.order@)
    }

    /// The end position of each node, in preorder.
    pub closed spec fn ends(&self) -> Seq<nat> {
        end_seq(self.nodes@, self.order@)
    }

    /// The preorder positions of the tokens that cover some input, in
    /// increasing order.
    pub closed spec fn tokens(&self) -> Seq<int> {
        self.toks@
    }

    /// The span of the whole tree.
    pub closed spec fn spec_span(&self) -> Span<I> {
        self.span
    }

    /// The node at preorder position `k`.
    pub closed spec fn spec_node<'a>(&'a self, k: int) -> Node<'a, T, I, W> {
        Node { tree: self, id: self.order@[k] as usize }
    }

    /// The node at a preorder position of a tree is at that position of it.
    pub proof fn lemma_spec_node(&self, k: int)
        requires
            self.inv(),
            0 <= k < self.spec_len(),
        ensures
            self.spec_node(k).inv(),
            self.spec_node(k).pos() == k,
            self.spec_node(k).tree() == *self,
    {
        assert(0 <= self.order@[k] < self.nodes@.len());
    }

    /// The node at an optional preorder position.
    pub open spec fn spec_opt_node<'a>(&'a self, k: Option<int>) -> Option<Node<'a, T, I, W>> {
        match k {
            Some(k) => Some(self.spec_node(k)),
            None => None,
        }
    }

    /// Assemble a tree from the parts of a builder with no open node.
    pub(crate) fn from_parts(
        nodes: Vec<Links<T, I, W::Pointer>>,
        span: Span<I>,
        indexes: Vec<TreeIndex<I, W::Pointer>>,
        first: Option<usize>,
        last: Option<usize>,
        order: Ghost<Seq<int>>,
        posn: Ghost<Seq<int>>,
        depths: Ghost<Seq<nat>>,
        toks: Ghost<Seq<int>>,
    ) -> (r: Self)
        requires
            shape_wf(nodes@, first, last, order@, posn@, depths@),
            spans_wf(nodes@, order@, depths@, 0, span.end.spec_pos()),
            span.start.spec_pos() == 0,
            indexes_wf(nodes@, order@, depths@, indexes@, toks@, span.end.spec_pos()),
        ensures
            r.spec_len() == nodes@.len(),
            r.depths() == depths@,
            r.values() == data_seq(nodes@, order@),
            r.starts() == start_seq(nodes@, order@),
            r.ends() == end_seq(nodes@, order@),
            r.spec_span() == span,
    {
        Tree { nodes, span, indexes, first, last, order, posn, depths, toks }
    }

    /// What holds of every tree.
    pub proof fn lemma_inv(&self)
        requires
            self.inv(),
        ensures
            valid_depths(self.depths()),
            self.depths().len() == self.spec_len(),
            self.values().len() == self.spec_len(),
            self.spans().len() == self.spec_len(),
            self.starts().len() == self.spec_len(),
            self.ends().len() == self.spec_len(),
            self.spec_len() + 2 < isize::MAX,
            forall|k: int| 0 <= k < self.spec_len() ==> #[trigger] self.starts()[k] == self.spans()[k].start.spec_pos(),
            forall|k: int| 0 <= k < self.spec_len() ==> #[trigger] self.ends()[k] == self.spans()[k].end.spec_pos(),
            self.spec_span().start.spec_pos() == 0,
            forall|k: int| 0 <= k < self.spec_len() ==> #[trigger] self.depths()[k] <= k,
            crate::nesting::token_list(self.depths(), self.starts(), self.ends(), self.tokens()),
            self.tokens() == crate::nesting::covering_leaves(
                self.depths(),
                self.starts(),
                self.ends(),
                self.spec_len() as int,
            ),
    {
        crate::shape::lemma_depth_bound(self.depths@);
        self.lemma_tokens();
        crate::nesting::lemma_token_list_leaves(self.depths(), self.starts(), self.ends(), self.tokens());
    }

    /// The token indexes of a tree list the tokens that cover input.
    proof fn lemma_tokens(&self)
        requires
            self.inv(),
        ensures
            crate::nesting::token_list(self.depths(), self.starts(), self.ends(), self.tokens()),
    {
        let ds = self.depths@;
        let st = self.starts();
        let en = self.ends();
        let toks = self.toks@;
        assert forall|i: int| 0 <= i < toks.len() implies 0 <= #[trigger] toks[i] < ds.len() && first_of(
            ds,
            toks[i],
        ) is None && st[toks[i]] < en[toks[i]] by {
            assert(is_indexed(self.nodes@, self.order@, ds, toks[i]));
        }
        assert forall|k: int| 0 <= k < ds.len() && first_of(ds, k) is None && #[trigger] st[k] < en[k] implies exists|
            i: int,
        | 0 <= i < toks.len() && toks[i] == k by {
            assert(is_indexed(self.nodes@, self.order@, ds, k));
        }
    }

    /// The spans of a tree follow the rules that link them.
    proof fn lemma_linked(&self)
        requires
            self.inv(),
        ensures
            crate::nesting::linked_spans(self.depths(), self.starts(), self.ends()),
            self.spec_len() > 0 ==> self.ends()[self.spec_len() - 1] == self.span.end.spec_pos(),
    {
        let ds = self.depths@;
        let n = self.nodes@.len() as int;
        assert forall|k: int| 0 <= k < n - 1 implies #[trigger] self.starts()[k + 1] == if first_of(ds, k) is Some {
            self.starts()[k]
        } else {
            self.ends()[k]
        } by {
            assert(start_ok(self.nodes@, self.order@, ds, k));
        }
        assert forall|k: int| 0 <= k < n implies match #[trigger] last_of(ds, k) {
            None => self.starts()[k] <= self.ends()[k],
            Some(c) => self.ends()[k] == self.ends()[c],
        } by {
            assert(end_ok(self.nodes@, self.order@, ds, 0, k));
            if let Some(c) = last_of(ds, k) {
                crate::grow::lemma_last_range_pub(ds, k);
            }
        }
    }

    /// The span of a node covers the span of every node below it: for a node
    /// at preorder position `k` and a node `j` in its subtree, `j` starts no
    /// earlier and ends no later than `k`, and does not end before it starts.
    pub proof fn lemma_spans_nest(&self, k: int, j: int)
        requires
            self.inv(),
            0 <= k <= j < sub_end(self.depths(), k),
        ensures
            self.starts()[k] <= self.starts()[j],
            self.starts()[j] <= self.ends()[j],
            self.ends()[j] <= self.ends()[k],
    {
        self.lemma_linked();
        crate::nesting::lemma_nested(self.depths(), self.starts(), self.ends(), k, j);
    }

    /// The span of the tree covers every node: each node starts no earlier
    /// than the tree and ends no later than the tree, and nodes start in
    /// preorder.
    pub proof fn lemma_span_covers(&self, k: int, j: int)
        requires
            self.inv(),
            0 <= k <= j < self.spec_len(),
        ensures
            self.spec_span().start.spec_pos() <= self.starts()[k],
            self.starts()[k] <= self.starts()[j],
            self.starts()[k] <= self.ends()[k],
            self.ends()[k] <= self.spec_span().end.spec_pos(),
    {
        self.lemma_linked();
        crate::nesting::lemma_ordered(self.depths(), self.starts(), self.ends(), k, j);
        crate::nesting::lemma_ends_within(self.depths(), self.starts(), self.ends(), k);
    }

    /// The span of the whole tree: from the start of the input to the end of
    /// the last token.
    ///
    /// # Examples
    ///
    /// A tree with the tokens of length 5, 3 and 5 spans `0..13`.
    pub fn span(&self) -> (r: &Span<I>)
        ensures
            *r == self.spec_span(),
    {
        &self.span
    }

    /// The total number of nodes in the tree.
    pub fn len(&self) -> (r: usize)
        ensures
            r == self.spec_len(),
    {
        self.nodes.len()
    }

    /// Check if the tree is empty: it has no nodes.
    pub fn is_empty(&self) -> (r: bool)
        ensures
            r == (self.spec_len() == 0),
    {
        self.nodes.len() == 0
    }

    /// Get the capacity of the tree: how many nodes it can hold without
    /// allocating. It is at least the number of nodes, and the nodes it
    /// makes room for take at most `isize::MAX` bytes; beyond that it
    /// depends on how the storage of the tree grew.
    pub fn capacity(&self) -> (r: usize)
        ensures
            r >= self.spec_len(),
            vstd::layout::size_of::<Links<T, I, W::Pointer>>() > 0 ==> r * vstd::layout::size_of::<
                Links<T, I, W::Pointer>,
            >() <= isize::MAX,
    {
        vec_capacity(&self.nodes)
    }

    /// The span of the whole tree as a range.
    pub fn range(&self) -> (r: core::ops::Range<usize>)
        ensures
            r.start == self.spec_span().start.spec_pos(),
            r.end == self.spec_span().end.spec_pos(),
    {
        self.span.range()
    }

    /// Get the first root of the tree.
    pub fn first(&self) -> (r: Option<Node<'_, T, I, W>>)
        ensures
            r == self.spec_opt_node(first_root(self.depths())),
    {
        proof {
            use_type_invariant(self);
        }
        match self.first {
            Some(id) => {
                proof {
                    assert(self.posn@[self.order@[0]] == 0);
                }
                Some(Node { tree: self, id })
            },
            None => None,
        }
    }

    /// Get the last root of the tree.
    pub fn last(&self) -> (r: Option<Node<'_, T, I, W>>)
        ensures
            r == self.spec_opt_node(last_root(self.depths())),
    {
        proof {
            use_type_invariant(self);
            if self.nodes@.len() > 0 {
                crate::shape::lemma_bwd(self.depths@, self.nodes@.len() - 1, 0);
            }
        }
        match self.last {
            Some(id) => Some(Node { tree: self, id }),
            None => None,
        }
    }
}

impl<T, I: Index, W: Width> Tree<T, I, W> {
    /// The nodes at the given preorder positions.
    pub open spec fn nodes_at<'a>(&'a self, s: Seq<int>) -> Seq<Node<'a, T, I, W>> {
        s.map_values(|k: int| self.spec_node(k))
    }

    /// Every node of a tree starts its walks and runs at its own tree.
    proof fn lemma_nodes_of<'a>(&'a self, n: Node<'a, T, I, W>, s: Seq<int>)
        requires
            n.tree == self,
        ensures
            s.map_values(|k: int| n.at(k)) == self.nodes_at(s),
    {
        assert(s.map_values(|k: int| n.at(k)) =~= self.nodes_at(s));
    }

    /// Get all root nodes in the tree, in order.
    pub fn children(&self) -> (r: Children<'_, T, I, W>)
        ensures
            r.remaining() == self.nodes_at(level_seq(self.depths(), 0, self.spec_len() - 1, 0)),
    {
        proof {
            use_type_invariant(self);
            self.lemma_inv();
        }
        let first = self.first();
        let last = self.last();
        proof {
            let ds = self.depths@;
            let n = self.nodes@.len() as int;
            if n > 0 {
                let l = last_root(ds).unwrap();
                crate::shape::lemma_bwd(ds, n - 1, 0);
                crate::shape::lemma_level_skip_back(ds, 0, l, n - 1, 0);
                self.lemma_nodes_of(first.unwrap(), level_seq(ds, 0, l, 0));
                assert(self.spec_node(0).pos() == 0) by {
                    assert(self.posn@[self.order@[0]] == 0);
                }
                assert(self.spec_node(l).pos() == l) by {
                    assert(self.posn@[self.order@[l]] == l);
                }
            } else {
                assert(level_seq(ds, 0, -1, 0) =~= Seq::<int>::empty());
            }
        }
        Children::new(first, last)
    }

    /// The roots of a tree, as [`Tree::children`] produces them, are exactly
    /// the nodes without a parent.
    pub proof fn lemma_roots(&self, j: int)
        requires
            self.inv(),
            0 <= j < self.spec_len(),
        ensures
            level_seq(self.depths(), 0, self.spec_len() - 1, 0).contains(j) <==> parent_of(self.depths(), j) is None,
    {
        self.lemma_inv();
        crate::shape::lemma_level_elems(self.depths(), 0, self.spec_len() - 1, 0);
        let s = level_seq(self.depths(), 0, self.spec_len() - 1, 0);
        if s.contains(j) {
            let i = choose|i: int| 0 <= i < s.len() && s[i] == j;
            assert(s[i] == j);
        }
    }

    /// A reverse walk from the last root visits every node of the tree
    /// exactly once.
    pub proof fn lemma_walk_rev_covers(&self)
        requires
            self.inv(),
            self.spec_len() > 0,
        ensures
            crate::node::covers(
                crate::node::mirror(self.depths(), last_root(self.depths()).unwrap()),
                0,
                self.spec_len() as int,
            ),
    {
        let ds = self.depths@;
        let n = self.nodes@.len() as int;
        self.lemma_inv();
        let l = last_root(ds).unwrap();
        crate::shape::lemma_bwd(ds, n - 1, 0);
        crate::node::lemma_mirror_covers(ds, l);
        crate::shape::lemma_fwd_unique(ds, l + 1, 0, n);
    }

    /// A span query finds a node exactly when the span starts inside the
    /// tree. The node it finds starts at or before the start of the span and
    /// ends after it, and ends at or after the end of the span unless it is a
    /// root: then it covers the whole span.
    ///
    /// The node found is reached from the token that holds the start of the
    /// span by going up: it is a proper ancestor of that token unless the
    /// token is a root, and every ancestor passed on the way (strictly
    /// between the token and the node found) ends before the end of the span.
    pub proof fn lemma_span_query(&self, start: nat, end: nat)
        requires
            self.inv(),
        ensures
            span_query(self.depths(), self.starts(), self.ends(), start, end) is Some <==> start
                < self.spec_span().end.spec_pos(),
            span_query(self.depths(), self.starts(), self.ends(), start, end) matches Some(n) ==> {
                &&& 0 <= n < self.spec_len()
                &&& self.starts()[n] <= start < self.ends()[n]
                &&& end <= self.ends()[n] || parent_of(self.depths(), n) is None
            },
            span_query(self.depths(), self.starts(), self.ends(), start, end) matches Some(n) ==> exists|t: int|
                {
                    &&& 0 <= t < self.spec_len()
                    &&& #[trigger] first_of(self.depths(), t) is None
                    &&& self.starts()[t] <= start < self.ends()[t]
                    &&& n <= t < sub_end(self.depths(), n)
                    &&& n == t ==> parent_of(self.depths(), t) is None
                    &&& forall|a: int|
                        n < a < t && t < #[trigger] sub_end(self.depths(), a) ==> self.ends()[a] < end
                },
    {
        let ds = self.depths@;
        let n = self.nodes@.len() as int;
        let st = self.starts();
        let en = self.ends();
        let toks = self.toks@;
        self.lemma_inv();
        self.lemma_linked();
        let te = toks.map_values(|k: int| en[k]);
        assert forall|j: int| 0 <= j < toks.len() implies #[trigger] self.indexes@[j].index.spec_pos() == te[j] by {
            assert(0 <= toks[j] < n);
        }
        assert(crate::nesting::token_list(ds, st, en, toks));
        let i = first_above(te, start, 0);
        lemma_first_above(te, start, 0);
        // The tree ends where its last token does.
        let cursor = self.span.end.spec_pos();
        if n > 0 {
            crate::nesting::lemma_last_token(ds, st, en, toks);
        }
        if toks.len() > 0 {
            let l = toks.len() - 1;
            assert(te[l] == cursor);
            if i == toks.len() {
                assert(te[l] <= start);
            } else {
                assert(te[i] > start);
                if i < l {
                    assert(self.indexes@[i].index.spec_pos() < self.indexes@[l].index.spec_pos());
                }
            }
        } else if n > 0 {
            assert(cursor == 0);
        }
        if i < toks.len() {
            let t = toks[i];
            assert(0 <= t < n);
            lemma_climb(ds, en, t, end);
            lemma_climb_path(ds, en, t, end);
            let m = climb(ds, en, t, end);
            crate::nesting::lemma_nested(ds, st, en, m, t);
            crate::nesting::lemma_token_starts(ds, st, en, toks, i);
            if i > 0 {
                assert(te[i - 1] <= start);
            }
            assert(te =~= self.tokens().map_values(|k: int| self.ends()[k]));
        } else {
            assert(te =~= self.tokens().map_values(|k: int| self.ends()[k]));
        }
    }

    /// Walk the tree forwards in a depth-first fashion, visiting every node
    /// once, in preorder.
    pub fn walk(&self) -> (r: Walk<'_, T, I, W>)
        ensures
            r.remaining() == self.nodes_at(range_seq(0, self.spec_len() as int)),
            r.base() == 0,
            r.state() == match first_root(self.depths()) {
                Some(k) => Some((self.spec_node(k), Event::Next)),
                None => None::<(Node<'_, T, I, W>, Event)>,
            },
    {
        proof {
            use_type_invariant(self);
            self.lemma_inv();
        }
        let first = self.first();
        proof {
            if self.nodes@.len() > 0 {
                assert(self.posn@[self.order@[0]] == 0);
                self.lemma_nodes_of(first.unwrap(), range_seq(0, self.spec_len() as int));
            } else {
                assert(range_seq(0, 0) =~= Seq::<int>::empty());
            }
        }
        Walk::new(first, Event::Next)
    }

    /// Walk the tree forwards in a depth-first fashion, visiting every node
    /// once, in preorder, with the depth of each node.
    pub fn walk_with_depths(&self) -> (r: WithDepths<'_, T, I, W>)
        ensures
            r.remaining() == self.nodes_at(range_seq(0, self.spec_len() as int)).map_values(
                |n: Node<'_, T, I, W>| (n.tree().depths()[n.pos()] as isize, n),
            ),
    {
        let w = self.walk();
        let r = w.with_depths();
        proof {
            assert(r.remaining() =~= self.nodes_at(range_seq(0, self.spec_len() as int)).map_values(
                |n: Node<'_, T, I, W>| (n.tree().depths()[n.pos()] as isize, n),
            ));
        }
        r
    }

    /// Walk the tree forwards in a depth-first fashion emitting events
    /// indicating how the tree is being traversed, from the first root.
    pub fn walk_events(&self) -> (r: WalkEvents<'_, T, I, W>)
        ensures
            r.state() == match first_root(self.depths()) {
                Some(k) => Some((self.spec_node(k), Event::Next)),
                None => None::<(Node<'_, T, I, W>, Event)>,
            },
            r.spec_depth() == 0,
    {
        WalkEvents::new(self.first())
    }

    /// Query the tree for the first node which encapsulates the whole `span`:
    /// starting from the first token that ends after the start of the span,
    /// the first ancestor that ends at or after its end.
    pub fn node_with_span(&self, span: Span<I>) -> (r: Option<Node<'_, T, I, W>>)
        ensures
            r == self.spec_opt_node(
                span_query(self.depths(), self.starts(), self.ends(), span.start.spec_pos(), span.end.spec_pos()),
            ),
    {
        self.node_with_span_internal(span.start, span.end)
    }

    /// Query the tree for the first node which encapsulates the whole range,
    /// or `None` if the range does not fit the index type.
    pub fn node_with_range(&self, span: core::ops::Range<usize>) -> (r: Option<Node<'_, T, I, W>>)
        ensures
            match (I::spec_from_usize(span.start), I::spec_from_usize(span.end)) {
                (Some(s), Some(e)) => r == self.spec_opt_node(
                    span_query(self.depths(), self.starts(), self.ends(), s.spec_pos(), e.spec_pos()),
                ),
                _ => r is None,
            },
    {
        let start = match I::from_usize(span.start) {
            Some(start) => start,
            None => {
                return None;
            },
        };
        let end = match I::from_usize(span.end) {
            Some(end) => end,
            None => {
                return None;
            },
        };
        self.node_with_span_internal(start, end)
    }

    /// Find the first token that ends after `start`, then climb to the first
    /// ancestor that ends at or after `end`.
    fn node_with_span_internal(&self, start: I, end: I) -> (r: Option<Node<'_, T, I, W>>)
        ensures
            r == self.spec_opt_node(
                span_query(self.depths(), self.starts(), self.ends(), start.spec_pos(), end.spec_pos()),
            ),
    {
        proof {
            use_type_invariant(self);
            self.lemma_inv();
        }
        let ghost te = self.toks@.map_values(|k: int| self.ends()[k]);
        let ghost x = start.spec_pos();
        proof {
            assert forall|j: int| 0 <= j < self.indexes@.len() implies #[trigger] self.indexes@[j].index.spec_pos()
                == te[j] by {
                assert(0 <= self.toks@[j] < self.nodes@.len());
            }
        }
        let mut lo: usize = 0;
        let mut hi: usize = self.indexes.len();
        while lo < hi
            invariant
                self.inv(),
                0 <= lo <= hi <= self.indexes@.len(),
                x == start.spec_pos(),
                te.len() == self.indexes@.len(),
                forall|j: int| 0 <= j < self.indexes@.len() ==> #[trigger] self.indexes@[j].index.spec_pos() == te[j],
                forall|j: int| 0 <= j < lo ==> te[j] <= x,
                forall|j: int| hi <= j < te.len() ==> te[j] > x,
            decreases hi - lo,
        {
            let mid = lo + (hi - lo) / 2;
            proof {
                assert(self.indexes@[mid as int].index.spec_pos() == te[mid as int]);
                // The index positions increase.
                assert forall|j: int| 0 <= j < mid implies te[j] <= te[mid as int] by {
                    assert(self.indexes@[j].index.spec_pos() < self.indexes@[mid as int].index.spec_pos());
                }
                assert forall|j: int| mid < j < te.len() implies te[j] >= te[mid as int] by {
                    assert(self.indexes@[mid as int].index.spec_pos() < self.indexes@[j].index.spec_pos());
                }
            }
            if self.indexes[mid].index.le(&start) {
                proof {
                    assert(te[mid as int] <= x);
                    assert forall|j: int| 0 <= j < mid + 1 implies te[j] <= x by {
                        if j < mid {
                            assert(te[j] <= te[mid as int]);
                        }
                    }
                }
                lo = mid + 1;
            } else {
                proof {
                    assert(te[mid as int] > x);
                    assert forall|j: int| mid <= j < te.len() implies te[j] > x by {
                        if j > mid {
                            assert(te[j] >= te[mid as int]);
                        }
                    }
                }
                hi = mid;
            }
        }
        proof {
            lemma_first_above_unique(te, x, 0, lo as int);
            assert(te =~= self.tokens().map_values(|k: int| self.ends()[k]));
        }
        if lo >= self.indexes.len() {
            return None;
        }
        let ghost t = self.toks@[lo as int];
        let id = self.indexes[lo].id.get();
        proof {
            assert(0 <= t < self.nodes@.len());
            assert(self.posn@[self.order@[t]] == t);
        }
        let mut node = Node { tree: self, id };
        proof {
            assert(node == self.spec_node(t));
            assert(span_query(self.depths(), self.starts(), self.ends(), start.spec_pos(), end.spec_pos()) == Some(
                climb(self.depths(), self.ends(), t, end.spec_pos()),
            ));
        }
        loop
            invariant
                self.inv(),
                node.tree == self,
                node.inv(),
                span_query(self.depths(), self.starts(), self.ends(), start.spec_pos(), end.spec_pos()) == Some(
                    climb(self.depths(), self.ends(), t, end.spec_pos()),
                ),
                climb(self.depths(), self.ends(), node.pos(), end.spec_pos()) == climb(
                    self.depths(),
                    self.ends(),
                    t,
                    end.spec_pos(),
                ),
            decreases node.pos(),
        {
            proof {
                node.lemma_inv();
                node.lemma_links();
                if self.depths@[node.pos()] > 0 {
                    crate::shape::lemma_parent(self.depths@, node.pos());
                }
            }
            let ghost k = node.pos();
            let ghost ds = self.depths@;
            let ghost ends = self.ends();
            match node.parent() {
                None => {
                    proof {
                        assert(parent_of(ds, k) is None);
                        assert(climb(ds, ends, k, end.spec_pos()) == k);
                        assert(node == self.spec_node(node.pos()));
                    }
                    return Some(node);
                },
                Some(parent) => {
                    proof {
                        use_type_invariant(&parent);
                        parent.lemma_inv();
                        let pp = parent_of(ds, k).unwrap();
                        assert(parent == node.at(pp));
                        assert(parent.pos() == pp);
                        assert(self.ends()[parent.pos()] == self.spans()[parent.pos()].end.spec_pos());
                    }
                    node = parent;
                    if end.le(&parent.span().end) {
                        proof {
                            assert(climb(ds, ends, k, end.spec_pos()) == parent.pos());
                            assert(node == self.spec_node(node.pos()));
                        }
                        return Some(node);
                    }
                    proof {
                        assert(climb(ds, ends, k, end.spec_pos()) == climb(ds, ends, parent.pos(), end.spec_pos()));
                    }
                },
            }
        }
    }
}

impl<'a, T, I: Index, W: Width> Node<'a, T, I, W> {
    /// The nodes at the given preorder positions of the same tree.
    pub open spec fn nodes_at(&self, s: Seq<int>) -> Seq<Node<'a, T, I, W>> {
        s.map_values(|k: int| self.at(k))
    }

    /// Get an iterator over the children of this node, in order.
    pub fn children(&self) -> (r: Children<'a, T, I, W>)
        ensures
            r.remaining() == self.nodes_at(
                level_seq(
                    self.tree().depths(),
                    self.pos() + 1,
                    sub_end(self.tree().depths(), self.pos()) - 1,
                    self.tree().depths()[self.pos()] + 1,
                ),
            ),
    {
        proof {
            use_type_invariant(self);
            self.lemma_inv();
            self.lemma_links();
            self.tree().lemma_inv();
        }
        let first = self.first();
        let last = self.last();
        proof {
            let ds = self.tree.depths@;
            let k = self.pos();
            let d = ds[k] + 1;
            crate::shape::lemma_sub_end(ds, k);
            let e = sub_end(ds, k);
            if first_of(ds, k) is Some {
                crate::grow::lemma_last_range_pub(ds, k);
                let l = last_of(ds, k).unwrap();
                crate::shape::lemma_bwd(ds, e - 1, d);
                crate::shape::lemma_level_skip_back(ds, k + 1, l, e - 1, d);
                assert(crate::shape::sib_range(ds, k + 1, l));
                assert(level_seq(ds, k + 1, l, d).map_values(|j: int| self.at(k + 1).at(j)) =~= self.nodes_at(
                    level_seq(ds, k + 1, l, d),
                ));
            } else {
                crate::shape::lemma_leaf_sub_end(ds, k);
                assert(level_seq(ds, k + 1, k, d) =~= Seq::<int>::empty());
            }
        }
        Children::new(first, last)
    }

    /// The children of a node, as [`Node::children`] produces them, are
    /// exactly the nodes whose parent it is.
    pub proof fn lemma_children_of(&self, j: int)
        requires
            self.inv(),
            0 <= j < self.tree().spec_len(),
        ensures
            level_seq(
                self.tree().depths(),
                self.pos() + 1,
                sub_end(self.tree().depths(), self.pos()) - 1,
                self.tree().depths()[self.pos()] + 1,
            ).contains(j) <==> parent_of(self.tree().depths(), j) == Some(self.pos()),
    {
        let ds = self.tree().depths();
        let k = self.pos();
        let d = ds[k];
        self.lemma_inv();
        self.tree().lemma_inv();
        crate::shape::lemma_sub_end(ds, k);
        let e = sub_end(ds, k);
        let s = level_seq(ds, k + 1, e - 1, d + 1);
        crate::shape::lemma_level_elems(ds, k + 1, e - 1, d + 1);
        if s.contains(j) {
            let i = choose|i: int| 0 <= i < s.len() && s[i] == j;
            assert(s[i] == j);
            crate::shape::lemma_bwd_unique(ds, j - 1, d, k);
        }
        if parent_of(ds, j) == Some(k) {
            crate::shape::lemma_parent(ds, j);
            assert(j < e) by {
                if j >= e {
                    assert(ds[e] <= d);
                    assert(e < j);
                    assert(ds[e] >= ds[j]);
                }
            }
        }
    }

    /// Get an iterator over this node and its following siblings.
    pub fn siblings(&self) -> (r: Siblings<'a, T, I, W>)
        ensures
            r.remaining() == sibling_nodes(*self),
    {
        Siblings::new(*self)
    }

    /// Get an iterator over this node and its ancestors, up to a root.
    pub fn ancestors(&self) -> (r: Ancestors<'a, T, I, W>)
        ensures
            r.remaining() == ancestor_nodes(*self),
    {
        Ancestors::new(*self)
    }

    /// Walk the tree in preorder, starting with this node and going on
    /// through the rest of the tree, with depths relative to this node.
    pub fn walk(&self) -> (r: Walk<'a, T, I, W>)
        ensures
            r.remaining() == walk_nodes(*self, Event::Next),
            r.base() == self.tree().depths()[self.pos()],
            r.state() == Some((*self, Event::Next)),
    {
        Walk::new(Some(*self), Event::Next)
    }

    /// Walk the tree in preorder, starting after this node and everything
    /// in it, with depths relative to this node.
    pub fn walk_from(&self) -> (r: Walk<'a, T, I, W>)
        ensures
            r.remaining() == walk_nodes(*self, Event::Up),
            r.base() == self.tree().depths()[self.pos()],
            r.state() == Some((*self, Event::Up)),
    {
        Walk::new(Some(*self), Event::Up)
    }

    /// Walk the inside of this node emitting events indicating how it is
    /// being traversed, from its first child.
    pub fn walk_events(&self) -> (r: WalkEvents<'a, T, I, W>)
        ensures
            r.state() == match first_of(self.tree().depths(), self.pos()) {
                Some(k) => Some((self.at(k), Event::Next)),
                None => None::<(Node<'a, T, I, W>, Event)>,
            },
            r.spec_depth() == 0,
    {
        WalkEvents::new(self.first())
    }
}

impl<T: Copy, I: Index, W: Width> Clone for Tree<T, I, W> {
    /// A copy of the tree: the same nodes with the same data and spans.
    fn clone(&self) -> (r: Self)
        ensures
            r.spec_len() == self.spec_len(),
            r.depths() == self.depths(),
            r.values() == self.values(),
            r.spans() == self.spans(),
            r.starts() == self.starts(),
            r.ends() == self.ends(),
            r.tokens() == self.tokens(),
            r.spec_span() == self.spec_span(),
    {
        proof {
            use_type_invariant(self);
        }
        let mut nodes: Vec<Links<T, I, W::Pointer>> = Vec::new();
        let mut i: usize = 0;
        while i < self.nodes.len()
            invariant
                i <= self.nodes@.len(),
                nodes@ == self.nodes@.take(i as int),
            decreases self.nodes@.len() - i,
        {
            nodes.push(self.nodes[i]);
            i = i + 1;
            proof {
                assert(nodes@ =~= self.nodes@.take(i as int));
            }
        }
        let mut indexes: Vec<TreeIndex<I, W::Pointer>> = Vec::new();
        let mut j: usize = 0;
        while j < self.indexes.len()
            invariant
                j <= self.indexes@.len(),
                indexes@ == self.indexes@.take(j as int),
            decreases self.indexes@.len() - j,
        {
            indexes.push(self.indexes[j]);
            j = j + 1;
            proof {
                assert(indexes@ =~= self.indexes@.take(j as int));
            }
        }
        proof {
            assert(nodes@ =~= self.nodes@);
            assert(indexes@ =~= self.indexes@);
        }
        Tree {
            nodes,
            span: self.span,
            indexes,
            first: self.first,
            last: self.last,
            order: Ghost(self.order@),
            posn: Ghost(self.posn@),
            depths: Ghost(self.depths@),
            toks: Ghost(self.toks@),
        }
    }
}

impl<T, I: Index, W: Width> Default for Tree<T, I, W> {
    /// An empty tree.
    fn default() -> (r: Self)
        ensures
            r.spec_len() == 0,
            r.spec_span().start.spec_pos() == 0,
            r.spec_span().end.spec_pos() == 0,
    {
        Tree {
            nodes: Vec::new(),
            span: Span::point(I::empty()),
            indexes: Vec::new(),
            first: None,
            last: None,
            order: Ghost(Seq::empty()),
            posn: Ghost(Seq::empty()),
            depths: Ghost(Seq::empty()),
            toks: Ghost(Seq::empty()),
        }
    }
}

impl<'a, T, I: Index, W: Width> Clone for Node<'a, T, I, W> {
    fn clone(&self) -> (r: Self)
        ensures
            r == *self,
    {
        *self
    }
}

impl<'a, T, I: Index, W: Width> Copy for Node<'a, T, I, W> {

}

/// The capacity of a vector: how many elements it can hold without
/// reallocating. `Vec::capacity` is documented to be at least the length,
/// and a vector never holds more than `isize::MAX` bytes, so for elements
/// that take room the capacity times their size is at most that. The rest
/// (how much room the allocator gave, and whether a vector that never held
/// an element has any) depends on the history of the vector, not on its
/// elements, and is left unsaid.
#[verifier::external_body]
fn vec_capacity<A>(v: &Vec<A>) -> (r: usize)
    ensures
        r >= v@.len(),
        vstd::layout::size_of::<A>() > 0 ==> r * vstd::layout::size_of::<A>() <= isize::MAX,
{
    v.capacity()
}

impl<'a, T, I: Index, W: Width> Node<'a, T, I, W> {
    /// The node is in a consistent tree.
    #[verifier::type_invariant]
    pub closed spec fn inv(&self) -> bool {
        &&& self.tree.inv()
        &&& self.id < self.tree.nodes@.len()
    }

    /// The tree the node belongs to.
    pub closed spec fn tree(&self) -> Tree<T, I, W> {
        *self.tree
    }

    /// The preorder position of the node in its tree.
    pub closed spec fn pos(&self) -> int {
        self.tree.posn@[self.id as int]
    }

    /// The node at preorder position `k` of the same tree.
    pub closed spec fn at(&self, k: int) -> Node<'a, T, I, W> {
        self.tree.spec_node(k)
    }

    /// The node at an optional preorder position of the same tree.
    pub open spec fn opt_at(&self, k: Option<int>) -> Option<Node<'a, T, I, W>> {
        match k {
            Some(k) => Some(self.at(k)),
            None => None,
        }
    }

    /// Whether the node has children, in its tree.
    pub open spec fn spec_has_children(&self) -> bool {
        first_of(self.tree().depths(), self.pos()) is Some
    }

    /// What holds of every node.
    pub proof fn lemma_inv(&self)
        requires
            self.inv(),
        ensures
            self.tree().inv(),
            0 <= self.pos() < self.tree().spec_len(),
            *self == self.at(self.pos()),
            forall|k: int| 0 <= k < self.tree().spec_len() ==> (#[trigger] self.at(k)).inv() && self.at(k).pos() == k
                && self.at(k).tree() == self.tree() && self.at(k).at(k) == self.at(k),
            forall|k: int, j: int| #[trigger] self.at(k).at(j) == self.at(j),
    {
        let t = self.tree;
        assert forall|k: int| 0 <= k < t.nodes@.len() implies (#[trigger] self.at(k)).inv() && self.at(k).pos() == k
            && self.at(k).tree() == self.tree() && self.at(k).at(k) == self.at(k) by {
            assert(0 <= t.order@[k] < t.nodes@.len());
        }
    }

    /// Nodes of the same tree agree on the nodes at each position.
    pub proof fn lemma_same_tree(a: Self, b: Self)
        requires
            a.tree() == b.tree(),
        ensures
            forall|k: int| #[trigger] a.at(k) == b.at(k),
    {
    }

    /// Whether two nodes of the same tree are the same node.
    pub(crate) fn same_as(&self, other: &Self) -> (r: bool)
        requires
            self.tree() == other.tree(),
        ensures
            r == (self.pos() == other.pos()),
    {
        proof {
            use_type_invariant(self);
            use_type_invariant(other);
        }
        self.id == other.id
    }

    /// Get the data of the node.
    pub fn value(&self) -> (r: T)
        where T: Copy,
        ensures
            r == self.tree().values()[self.pos()],
    {
        proof {
            use_type_invariant(self);
            self.lemma_inv();
        }
        self.tree.nodes[self.id].data
    }

    /// Get the span of the node. The span of a node covers the spans of all
    /// its children.
    pub fn span(&self) -> (r: Span<I>)
        ensures
            r == self.tree().spans()[self.pos()],
    {
        proof {
            use_type_invariant(self);
            self.lemma_inv();
        }
        self.tree.nodes[self.id].span
    }

    /// The span of the node as a range.
    pub fn range(&self) -> (r: core::ops::Range<usize>)
        ensures
            r.start == self.tree().starts()[self.pos()],
            r.end == self.tree().ends()[self.pos()],
    {
        proof {
            use_type_invariant(self);
            self.lemma_inv();
        }
        self.tree.nodes[self.id].span.range()
    }

    /// Check if the node has children: a node without children is a token.
    pub fn has_children(&self) -> (r: bool)
        ensures
            r == self.spec_has_children(),
    {
        proof {
            use_type_invariant(self);
            self.lemma_inv();
            assert(pos_ok(self.tree.nodes@, self.tree.order@, self.tree.depths@, self.pos()));
        }
        !self.tree.nodes[self.id].first.is_none()
    }

    /// The node behind a link of this node.
    fn follow(&self, p: W::Pointer) -> (r: Option<Node<'a, T, I, W>>)
        requires
            self.inv(),
            link(p) matches Some(i) ==> exists|k: int| 0 <= k < self.tree().spec_len() && i == self.tree.order@[k],
        ensures
            link(p) matches Some(i) ==> r matches Some(n) && n.id == i && n.tree == self.tree,
            link(p) is None ==> r is None,
    {
        if p.is_none() {
            None
        } else {
            let id = p.get();
            proof {
                let k = choose|k: int| 0 <= k < self.tree().spec_len() && id == self.tree.order@[k];
                assert(0 <= self.tree.order@[k] < self.tree.nodes@.len());
            }
            Some(Node { tree: self.tree, id })
        }
    }

    /// The links of the node, as preorder positions.
    proof fn lemma_links(&self)
        requires
            self.inv(),
        ensures
            pos_ok(self.tree.nodes@, self.tree.order@, self.tree.depths@, self.pos()),
            parent_of(self.tree.depths@, self.pos()) matches Some(k) ==> 0 <= k < self.tree().spec_len(),
            prev_of(self.tree.depths@, self.pos()) matches Some(k) ==> 0 <= k < self.tree().spec_len(),
            next_of(self.tree.depths@, self.pos()) matches Some(k) ==> 0 <= k < self.tree().spec_len(),
            first_of(self.tree.depths@, self.pos()) matches Some(k) ==> 0 <= k < self.tree().spec_len(),
            last_of(self.tree.depths@, self.pos()) matches Some(k) ==> 0 <= k < self.tree().spec_len(),
    {
        let ds = self.tree.depths@;
        let k = self.pos();
        self.lemma_inv();
        if ds[k] > 0 {
            crate::shape::lemma_parent(ds, k);
        }
        crate::shape::lemma_bwd(ds, k - 1, ds[k]);
        crate::shape::lemma_sub_end(ds, k);
        if first_of(ds, k) is Some {
            crate::grow::lemma_last_range_pub(ds, k);
        }
    }

    /// Get the parent of the node, `None` for a root.
    pub fn parent(&self) -> (r: Option<Node<'a, T, I, W>>)
        ensures
            r == self.opt_at(parent_of(self.tree().depths(), self.pos())),
    {
        proof {
            use_type_invariant(self);
            self.lemma_links();
        }
        self.follow(self.tree.nodes[self.id].parent)
    }

    /// Get the previous sibling of the node.
    pub fn prev(&self) -> (r: Option<Node<'a, T, I, W>>)
        ensures
            r == self.opt_at(prev_of(self.tree().depths(), self.pos())),
    {
        proof {
            use_type_invariant(self);
            self.lemma_links();
        }
        self.follow(self.tree.nodes[self.id].prev)
    }

    /// Get the next sibling of the node.
    pub fn next(&self) -> (r: Option<Node<'a, T, I, W>>)
        ensures
            r == self.opt_at(next_of(self.tree().depths(), self.pos())),
    {
        proof {
            use_type_invariant(self);
            self.lemma_links();
        }
        self.follow(self.tree.nodes[self.id].next)
    }

    /// Get the first child of the node.
    pub fn first(&self) -> (r: Option<Node<'a, T, I, W>>)
        ensures
            r == self.opt_at(first_of(self.tree().depths(), self.pos())),
    {
        proof {
            use_type_invariant(self);
            self.lemma_links();
        }
        self.follow(self.tree.nodes[self.id].first)
    }

    /// Get the last child of the node.
    pub fn last(&self) -> (r: Option<Node<'a, T, I, W>>)
        ensures
            r == self.opt_at(last_of(self.tree().depths(), self.pos())),
    {
        proof {
            use_type_invariant(self);
            self.lemma_links();
        }
        self.follow(self.tree.nodes[self.id].last)
    }
}

} // verus!
