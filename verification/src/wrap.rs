//! Wrapping the last siblings of the innermost open node into a new node,
//! as closing at a checkpoint does, keeps the arena well formed.
//!
//! In preorder the new node takes the position `p` of the first wrapped
//! sibling, and that sibling and everything after it moves one position
//! later and one level deeper.

use vstd::prelude::*;

use crate::grow::{same_links, top_of, lemma_open_at_pub};
use crate::index::Index;
use crate::pointer::Pointer;
use crate::raw::{
    end_at, end_ok, id_of, indexes_wf, is_indexed, is_open, link, links_wf, open_at, opt_int, order_wf,
    pos_ok, shape_wf, spans_wf, stack_ok, start_at, start_ok, Links, TreeIndex,
};
use crate::shape::{
    bwd, first_of, first_root, fwd, last_of, last_root, lemma_bwd, lemma_bwd_exact, lemma_bwd_unique,
    lemma_fwd, lemma_fwd_unique, lemma_parent, lemma_sub_end, next_of, parent_of, prev_of, step_ok,
    sub_end, valid_depths,
};

verus! {

/// The depths after wrapping everything from position `p` on into a new
/// node at depth `s`.
pub open spec fn wrap_depths(ds: Seq<nat>, p: int, s: nat) -> Seq<nat> {
    ds.take(p).push(s) + ds.skip(p).map_values(|d: nat| d + 1)
}

/// The arena slots in preorder after inserting slot `n` at position `p`.
pub open spec fn wrap_order(order: Seq<int>, p: int, n: int) -> Seq<int> {
    order.take(p).push(n) + order.skip(p)
}

/// Where an old position ends up.
pub open spec fn shift(q: int, p: int) -> int {
    if q >= p {
        q + 1
    } else {
        q
    }
}

/// The positions of the arena slots after inserting a slot at position `p`.
pub open spec fn wrap_posn(posn: Seq<int>, p: int) -> Seq<int> {
    posn.map_values(|q: int| shift(q, p)).push(p)
}

/// The positions of the indexed tokens after inserting at position `p`.
pub open spec fn wrap_toks(toks: Seq<int>, p: int) -> Seq<int> {
    toks.map_values(|q: int| shift(q, p))
}

/// The elements of the wrapped sequences.
pub proof fn lemma_wrap_index(ds: Seq<nat>, order: Seq<int>, p: int, s: nat, n: int)
    requires
        0 <= p <= ds.len(),
        order.len() == ds.len(),
    ensures
        wrap_depths(ds, p, s).len() == ds.len() + 1,
        wrap_order(order, p, n).len() == ds.len() + 1,
        forall|q: int| 0 <= q < p ==> #[trigger] wrap_depths(ds, p, s)[q] == ds[q],
        forall|q: int| 0 <= q < p ==> #[trigger] wrap_order(order, p, n)[q] == order[q],
        wrap_depths(ds, p, s)[p] == s,
        wrap_order(order, p, n)[p] == n,
        forall|q: int| p <= q < ds.len() ==> #[trigger] wrap_depths(ds, p, s)[q + 1] == ds[q] + 1,
        forall|q: int| p <= q < ds.len() ==> #[trigger] wrap_order(order, p, n)[q + 1] == order[q],
{
    let ds2 = wrap_depths(ds, p, s);
    let o2 = wrap_order(order, p, n);
    assert forall|q: int| 0 <= q < p implies #[trigger] ds2[q] == ds[q] && o2[q] == order[q] by {
        assert(ds.take(p).push(s)[q] == ds[q]);
        assert(order.take(p).push(n)[q] == order[q]);
    }
    assert(ds.take(p).push(s)[p] == s);
    assert(order.take(p).push(n)[p] == n);
    assert forall|q: int| p <= q < ds.len() implies #[trigger] ds2[q + 1] == ds[q] + 1 && #[trigger] o2[q + 1] == order[q] by {
        assert(ds.skip(p).map_values(|d: nat| d + 1)[q - p] == ds[q] + 1);
        assert(order.skip(p)[q - p] == order[q]);
    }
}

/// Looking backwards from before the inserted node sees the old sequence.
pub proof fn lemma_wrap_bwd_before(ds: Seq<nat>, p: int, s: nat, j: int, d: nat)
    requires
        0 <= p <= ds.len(),
        -1 <= j < p,
    ensures
        bwd(wrap_depths(ds, p, s), j, d) == bwd(ds, j, d),
    decreases j + 1,
{
    if j >= 0 {
        lemma_wrap_index(ds, ds.map_values(|x: nat| 0int), p, s, 0);
        assert(wrap_depths(ds, p, s)[j] == ds[j]);
        lemma_wrap_bwd_before(ds, p, s, j - 1, d);
    }
}

/// Looking backwards from the inserted node.
pub proof fn lemma_wrap_bwd_at(ds: Seq<nat>, p: int, s: nat, d: nat)
    requires
        0 <= p <= ds.len(),
    ensures
        bwd(wrap_depths(ds, p, s), p, d) == if s <= d {
            p
        } else {
            bwd(ds, p - 1, d)
        },
{
    lemma_wrap_index(ds, ds.map_values(|x: nat| 0int), p, s, 0);
    lemma_wrap_bwd_before(ds, p, s, p - 1, d);
}

/// Looking backwards from a moved node: it finds a moved node if the old
/// sequence finds one at or after `p`, else it continues from the inserted
/// node.
pub proof fn lemma_wrap_bwd_after(ds: Seq<nat>, p: int, s: nat, j: int, d: nat)
    requires
        0 <= p <= j < ds.len(),
    ensures
        bwd(wrap_depths(ds, p, s), j + 1, d) == if d > 0 && bwd(ds, j, (d - 1) as nat) >= p {
            bwd(ds, j, (d - 1) as nat) + 1
        } else {
            bwd(wrap_depths(ds, p, s), p, d)
        },
    decreases j - p,
{
    let ds2 = wrap_depths(ds, p, s);
    lemma_wrap_index(ds, ds.map_values(|x: nat| 0int), p, s, 0);
    assert(ds2[j + 1] == ds[j] + 1);
    if d > 0 && ds[j] <= (d - 1) as nat {
    } else if j > p {
        lemma_wrap_bwd_after(ds, p, s, j - 1, d);
    } else {
        if d > 0 {
            assert(bwd(ds, j - 1, (d - 1) as nat) < p) by {
                lemma_bwd(ds, j - 1, (d - 1) as nat);
            }
        }
    }
}

/// Looking forwards from a moved node (or the end) only sees moved nodes,
/// which are all below depth zero.
pub proof fn lemma_wrap_fwd_after(ds: Seq<nat>, p: int, s: nat, i: int, d: nat)
    requires
        0 <= p <= i <= ds.len(),
    ensures
        fwd(wrap_depths(ds, p, s), i + 1, d) == if d > 0 && fwd(ds, i, (d - 1) as nat) < ds.len() {
            fwd(ds, i, (d - 1) as nat) + 1
        } else {
            ds.len() + 1int
        },
    decreases ds.len() - i,
{
    let ds2 = wrap_depths(ds, p, s);
    lemma_wrap_index(ds, ds.map_values(|x: nat| 0int), p, s, 0);
    if i < ds.len() {
        assert(ds2[i + 1] == ds[i] + 1);
        lemma_wrap_fwd_after(ds, p, s, i + 1, d);
    }
}

/// Looking forwards from before the inserted node.
pub proof fn lemma_wrap_fwd_before(ds: Seq<nat>, p: int, s: nat, i: int, d: nat)
    requires
        0 <= i <= p <= ds.len(),
    ensures
        fwd(wrap_depths(ds, p, s), i, d) == if fwd(ds, i, d) < p {
            fwd(ds, i, d)
        } else if s <= d {
            p
        } else {
            fwd(wrap_depths(ds, p, s), p + 1, d)
        },
    decreases p - i,
{
    let ds2 = wrap_depths(ds, p, s);
    lemma_wrap_index(ds, ds.map_values(|x: nat| 0int), p, s, 0);
    lemma_fwd(ds, i, d);
    if i < p {
        assert(ds2[i] == ds[i]);
        lemma_wrap_fwd_before(ds, p, s, i + 1, d);
    } else {
        assert(ds2[p] == s);
    }
}

/// The position `p` holds a child of the innermost of `s` open nodes (a root
/// if none is open), so every node from `p` on is at depth `s` or deeper.
pub open spec fn wrappable(ds: Seq<nat>, s: nat, p: int) -> bool {
    &&& 0 <= p < ds.len()
    &&& ds[p] == s
    &&& parent_of(ds, p) == top_of(ds, s)
}

/// The last sibling of the node at `p`, which the new node wraps up to.
pub open spec fn last_sibling(ds: Seq<nat>, s: nat) -> int {
    bwd(ds, ds.len() - 1, s)
}

/// The arena after wrapping the nodes from `p` on into a new node, as the
/// builder links it.
pub(crate) open spec fn wrapped<T, I, P: Pointer>(
    nodes: Seq<Links<T, I, P>>,
    first: Option<usize>,
    last: Option<usize>,
    order: Seq<int>,
    posn: Seq<int>,
    ds: Seq<nat>,
    s: nat,
    p: int,
    nodes2: Seq<Links<T, I, P>>,
    first2: Option<usize>,
    last2: Option<usize>,
) -> bool {
    let n = nodes.len() as int;
    let c = order[p];
    let top = id_of(order, top_of(ds, s));
    let pv = id_of(order, prev_of(ds, p));
    &&& nodes2.len() == n + 1
    &&& link(nodes2[n].parent) == top
    &&& link(nodes2[n].prev) == pv
    &&& link(nodes2[n].next) is None
    &&& link(nodes2[n].first) == Some(c)
    &&& link(nodes2[n].last) == Some(order[last_sibling(ds, s)])
    &&& link(nodes2[c].parent) == Some(n)
    &&& link(nodes2[c].prev) is None
    &&& link(nodes2[c].next) == link(nodes[c].next)
    &&& link(nodes2[c].first) == link(nodes[c].first)
    &&& link(nodes2[c].last) == link(nodes[c].last)
    &&& forall|i: int|
        0 <= i < n && i != c && posn[i] > p && ds[posn[i]] == s ==> {
            &&& link(#[trigger] nodes2[i].parent) == Some(n)
            &&& link(nodes2[i].prev) == link(nodes[i].prev)
            &&& link(nodes2[i].next) == link(nodes[i].next)
            &&& link(nodes2[i].first) == link(nodes[i].first)
            &&& link(nodes2[i].last) == link(nodes[i].last)
        }
    &&& top matches Some(t) ==> {
        &&& link(nodes2[t].parent) == link(nodes[t].parent)
        &&& link(nodes2[t].prev) == link(nodes[t].prev)
        &&& link(nodes2[t].next) == link(nodes[t].next)
        &&& link(nodes2[t].first) == if link(nodes[t].first) == Some(c) {
            Some(n)
        } else {
            link(nodes[t].first)
        }
        &&& link(nodes2[t].last) == Some(n)
    }
    &&& pv matches Some(b) ==> {
        &&& link(nodes2[b].parent) == link(nodes[b].parent)
        &&& link(nodes2[b].prev) == link(nodes[b].prev)
        &&& link(nodes2[b].next) == Some(n)
        &&& link(nodes2[b].first) == link(nodes[b].first)
        &&& link(nodes2[b].last) == link(nodes[b].last)
    }
    &&& forall|i: int|
        0 <= i < n && i != c && !(posn[i] > p && ds[posn[i]] == s) && Some(i) != top && Some(i)
            != pv ==> same_links(#[trigger] nodes2[i], nodes[i])
    &&& s == 0 ==> opt_int(first2) == if opt_int(first) == Some(c) {
        Some(n)
    } else {
        opt_int(first)
    }
    &&& s == 0 ==> opt_int(last2) == Some(n)
    &&& s > 0 ==> first2 == first && last2 == last
}

/// Facts about the nodes from `p` on.
pub proof fn lemma_wrappable(ds: Seq<nat>, s: nat, p: int)
    requires
        valid_depths(ds),
        stack_ok(ds, s),
        wrappable(ds, s, p),
    ensures
        forall|q: int| p <= q < ds.len() ==> ds[q] >= s,
        p <= last_sibling(ds, s) < ds.len(),
        ds[last_sibling(ds, s)] == s,
        forall|q: int| last_sibling(ds, s) < q < ds.len() ==> ds[q] > s,
        s > 0 ==> top_of(ds, s) == Some(open_at(ds, (s - 1) as nat)),
        s > 0 ==> open_at(ds, (s - 1) as nat) < p,
{
    let n = ds.len() as int;
    if s > 0 {
        lemma_open_at_pub(ds, s, (s - 1) as nat);
        lemma_parent(ds, p);
    }
    lemma_bwd(ds, n - 1, s);
    assert(ds[n - 1] >= s);
    lemma_bwd_exact(ds, n - 1, s);
}

/// The links of a node before the wrapped ones.
#[verifier::rlimit(40)]
proof fn lemma_wrap_pos_before<T, I, P: Pointer>(
    nodes: Seq<Links<T, I, P>>,
    first: Option<usize>,
    last: Option<usize>,
    order: Seq<int>,
    posn: Seq<int>,
    ds: Seq<nat>,
    s: nat,
    p: int,
    nodes2: Seq<Links<T, I, P>>,
    first2: Option<usize>,
    last2: Option<usize>,
    k: int,
)
    requires
        shape_wf(nodes, first, last, order, posn, ds),
        stack_ok(ds, s),
        wrappable(ds, s, p),
        wrapped(nodes, first, last, order, posn, ds, s, p, nodes2, first2, last2),
        0 <= k < p,
    ensures
        pos_ok(nodes2, wrap_order(order, p, nodes.len() as int), wrap_depths(ds, p, s), k),
{
    let n = nodes.len() as int;
    let ds2 = wrap_depths(ds, p, s);
    let order2 = wrap_order(order, p, n);
    let c = order[p];
    let top = top_of(ds, s);
    let pv = prev_of(ds, p);
    lemma_wrap_index(ds, order, p, s, n);
    lemma_wrappable(ds, s, p);
    assert(pos_ok(nodes, order, ds, k));
    assert(pos_ok(nodes, order, ds, p));
    // parent and previous sibling look backwards only
    if ds[k] > 0 {
        lemma_parent(ds, k);
        lemma_wrap_bwd_before(ds, p, s, k - 1, (ds[k] - 1) as nat);
    }
    lemma_bwd(ds, k - 1, ds[k]);
    lemma_wrap_bwd_before(ds, p, s, k - 1, ds[k]);
    // next sibling
    lemma_sub_end(ds, k);
    let e = sub_end(ds, k);
    lemma_wrap_fwd_before(ds, p, s, k + 1, ds[k]);
    if e >= p {
        if s <= ds[k] {
            assert(e == p);
        } else {
            lemma_fwd_unique(ds, k + 1, ds[k], n);
            lemma_wrap_fwd_after(ds, p, s, p, ds[k]);
            if ds[k] > 0 {
                lemma_fwd_unique(ds, p, (ds[k] - 1) as nat, n);
            }
        }
    }
    // which node is the previous sibling of the wrapped one
    if e == p && s == ds[k] {
        lemma_bwd_unique(ds, p - 1, s, k);
        assert(pv == Some(k));
    }
    if pv == Some(k) {
        lemma_bwd(ds, p - 1, s);
        lemma_fwd_unique(ds, k + 1, ds[k], p);
    }
    // first child
    if k + 1 == p && ds[p] == ds[k] + 1 {
        lemma_parent(ds, p);
        lemma_bwd_unique(ds, p - 1, ds[k], k);
        assert(top == Some(k));
    }
    // last child
    if first_of(ds, k) is Some {
        if e < p {
            lemma_bwd(ds, e - 1, ds[k] + 1);
            lemma_wrap_bwd_before(ds, p, s, e - 1, ds[k] + 1);
        } else if s <= ds[k] {
            lemma_bwd(ds, p - 1, ds[k] + 1);
            lemma_wrap_bwd_before(ds, p, s, p - 1, ds[k] + 1);
        } else {
            lemma_wrap_bwd_after(ds, p, s, n - 1, ds[k] + 1);
            lemma_bwd(ds, n - 1, ds[k]);
            lemma_wrap_bwd_at(ds, p, s, ds[k] + 1);
            if s > ds[k] + 1 {
                lemma_bwd(ds, n - 1, ds[k] + 1);
                lemma_bwd(ds, p - 1, ds[k] + 1);
                lemma_bwd_unique(ds, n - 1, ds[k] + 1, bwd(ds, p - 1, ds[k] + 1));
            } else {
                lemma_bwd_unique(ds, n - 1, ds[k], k);
                assert(top == Some(k));
            }
        }
    }
    if Some(k) == top {
        assert(s > 0);
        lemma_open_at_pub(ds, s, (s - 1) as nat);
        lemma_fwd_unique(ds, k + 1, ds[k], n);
        if k + 1 < n {
            assert(step_ok(ds, k));
        }
        lemma_wrap_bwd_after(ds, p, s, n - 1, ds[k] + 1);
        lemma_bwd(ds, n - 1, ds[k]);
        lemma_wrap_bwd_at(ds, p, s, ds[k] + 1);
        lemma_wrap_fwd_before(ds, p, s, k + 1, ds[k]);
        lemma_wrap_fwd_after(ds, p, s, p, ds[k]);
        if ds[k] > 0 {
            lemma_fwd_unique(ds, p, (ds[k] - 1) as nat, n);
        }
    }
    let i = order[k];
    assert(posn[order[k]] == k);
    lemma_bwd(ds, p - 1, s);
    if let Some(b) = pv {
        assert(posn[order[b]] == b);
    }
    if let Some(t) = top {
        lemma_open_at_pub(ds, s, (s - 1) as nat);
        assert(posn[order[t]] == t);
    }
    if posn[i] > p {
        assert(false);
    }
    if Some(k) != top && Some(k) != pv {
        assert(i != c);
        assert(Some(i) != id_of(order, top));
        assert(Some(i) != id_of(order, pv));
        assert(same_links(nodes2[i], nodes[i]));
    }
}

/// The links of the new node.
proof fn lemma_wrap_pos_at<T, I, P: Pointer>(
    nodes: Seq<Links<T, I, P>>,
    first: Option<usize>,
    last: Option<usize>,
    order: Seq<int>,
    posn: Seq<int>,
    ds: Seq<nat>,
    s: nat,
    p: int,
    nodes2: Seq<Links<T, I, P>>,
    first2: Option<usize>,
    last2: Option<usize>,
)
    requires
        shape_wf(nodes, first, last, order, posn, ds),
        stack_ok(ds, s),
        wrappable(ds, s, p),
        wrapped(nodes, first, last, order, posn, ds, s, p, nodes2, first2, last2),
    ensures
        pos_ok(nodes2, wrap_order(order, p, nodes.len() as int), wrap_depths(ds, p, s), p),
{
    let n = nodes.len() as int;
    let ds2 = wrap_depths(ds, p, s);
    let order2 = wrap_order(order, p, n);
    lemma_wrap_index(ds, order, p, s, n);
    lemma_wrappable(ds, s, p);
    if s > 0 {
        lemma_parent(ds, p);
        lemma_wrap_bwd_before(ds, p, s, p - 1, (s - 1) as nat);
    }
    lemma_bwd(ds, p - 1, s);
    lemma_wrap_bwd_before(ds, p, s, p - 1, s);
    // nothing after the new node is at its depth or above
    lemma_wrap_fwd_after(ds, p, s, p, s);
    if s > 0 {
        lemma_fwd_unique(ds, p, (s - 1) as nat, n);
    }
    // its last child is the last wrapped sibling
    lemma_wrap_bwd_after(ds, p, s, n - 1, s + 1);
    lemma_bwd_unique(ds, n - 1, s, last_sibling(ds, s));
}

/// The links of a wrapped node, or of a node inside a wrapped node.
proof fn lemma_wrap_pos_after<T, I, P: Pointer>(
    nodes: Seq<Links<T, I, P>>,
    first: Option<usize>,
    last: Option<usize>,
    order: Seq<int>,
    posn: Seq<int>,
    ds: Seq<nat>,
    s: nat,
    p: int,
    nodes2: Seq<Links<T, I, P>>,
    first2: Option<usize>,
    last2: Option<usize>,
    q: int,
)
    requires
        shape_wf(nodes, first, last, order, posn, ds),
        stack_ok(ds, s),
        wrappable(ds, s, p),
        wrapped(nodes, first, last, order, posn, ds, s, p, nodes2, first2, last2),
        p <= q < nodes.len(),
    ensures
        pos_ok(nodes2, wrap_order(order, p, nodes.len() as int), wrap_depths(ds, p, s), q + 1),
{
    let n = nodes.len() as int;
    let ds2 = wrap_depths(ds, p, s);
    let order2 = wrap_order(order, p, n);
    let c = order[p];
    let top = top_of(ds, s);
    let pv = prev_of(ds, p);
    let i = order[q];
    let l = nodes[i];
    let l2 = nodes2[i];
    lemma_wrap_index(ds, order, p, s, n);
    lemma_wrappable(ds, s, p);
    assert(pos_ok(nodes, order, ds, q));
    assert(order2[q + 1] == order[q]);
    assert(ds2[q + 1] == ds[q] + 1);
    let sib = ds[q] == s && q > p;
    assert(link(l2.next) == link(l.next) && link(l2.first) == link(l.first) && link(l2.last) == link(l.last)
        && (q != p ==> link(l2.prev) == link(l.prev)) && (q != p && !sib ==> link(l2.parent) == link(l.parent))) by {
        assert(posn[order[q]] == q);
        lemma_bwd(ds, p - 1, s);
        if let Some(b) = pv {
            assert(posn[order[b]] == b);
        }
        if let Some(t) = top {
            lemma_open_at_pub(ds, s, (s - 1) as nat);
            assert(posn[order[t]] == t);
        }
        assert(posn[order[p]] == p);
        if q != p && !sib {
            assert(i != c);
            assert(Some(i) != id_of(order, top));
            assert(Some(i) != id_of(order, pv));
            assert(same_links(nodes2[i], nodes[i]));
        } else if q != p {
            assert(i != c);
        }
    }
    assert(link(l2.parent) == id_of(order2, parent_of(ds2, q + 1))) by {
        if q == p {
            lemma_wrap_bwd_at(ds, p, s, s);
        } else {
            lemma_wrap_bwd_after(ds, p, s, q - 1, ds[q]);
            lemma_wrap_bwd_at(ds, p, s, ds[q]);
            if !sib {
                assert(ds[q] > s);
                lemma_parent(ds, q);
                lemma_bwd(ds, q - 1, (ds[q] - 1) as nat);
                assert(bwd(ds, q - 1, (ds[q] - 1) as nat) >= p) by {
                    if bwd(ds, q - 1, (ds[q] - 1) as nat) < p {
                        assert(ds[p] <= (ds[q] - 1) as nat);
                    }
                }
            } else if ds[q] > 0 {
                lemma_bwd(ds, q - 1, (ds[q] - 1) as nat);
            }
        }
    }
    assert(link(l2.prev) == id_of(order2, prev_of(ds2, q + 1))) by {
        if q == p {
            lemma_wrap_bwd_at(ds, p, s, s + 1);
        } else {
            lemma_wrap_bwd_after(ds, p, s, q - 1, ds[q] + 1);
            lemma_bwd(ds, q - 1, ds[q]);
            assert(bwd(ds, q - 1, ds[q]) >= p) by {
                if bwd(ds, q - 1, ds[q]) < p {
                    assert(ds[p] <= ds[q]);
                }
            }
        }
    }
    assert(link(l2.next) == id_of(order2, next_of(ds2, q + 1))) by {
        lemma_sub_end(ds, q);
        lemma_wrap_fwd_after(ds, p, s, q + 1, ds[q] + 1);
    }
    assert(link(l2.first) == id_of(order2, first_of(ds2, q + 1))) by {
        if q + 1 < n {
            assert(ds2[q + 2] == ds[q + 1] + 1);
        }
    }
    assert(link(l2.last) == id_of(order2, last_of(ds2, q + 1))) by {
        lemma_sub_end(ds, q);
        lemma_wrap_fwd_after(ds, p, s, q + 1, ds[q] + 1);
        if q + 1 < n {
            assert(ds2[q + 2] == ds[q + 1] + 1);
        }
        if first_of(ds, q) is Some {
            let e = sub_end(ds, q);
            lemma_bwd(ds, e - 1, ds[q] + 1);
            lemma_bwd_exact(ds, e - 1, ds[q] + 1);
            lemma_wrap_bwd_after(ds, p, s, e - 1, ds[q] + 2);
        }
    }
}

/// The shape after wrapping the nodes from `p` on into a new node.
pub(crate) proof fn lemma_wrap_shape<T, I, P: Pointer>(
    nodes: Seq<Links<T, I, P>>,
    first: Option<usize>,
    last: Option<usize>,
    order: Seq<int>,
    posn: Seq<int>,
    ds: Seq<nat>,
    s: nat,
    p: int,
    nodes2: Seq<Links<T, I, P>>,
    first2: Option<usize>,
    last2: Option<usize>,
)
    requires
        shape_wf(nodes, first, last, order, posn, ds),
        stack_ok(ds, s),
        wrappable(ds, s, p),
        wrapped(nodes, first, last, order, posn, ds, s, p, nodes2, first2, last2),
        P::spec_fits(nodes.len() as nat),
        nodes.len() + 3 < isize::MAX,
    ensures
        shape_wf(
            nodes2,
            first2,
            last2,
            wrap_order(order, p, nodes.len() as int),
            wrap_posn(posn, p),
            wrap_depths(ds, p, s),
        ),
{
    let n = nodes.len() as int;
    let ds2 = wrap_depths(ds, p, s);
    let order2 = wrap_order(order, p, n);
    let posn2 = wrap_posn(posn, p);
    lemma_wrap_index(ds, order, p, s, n);
    lemma_wrappable(ds, s, p);
    assert(order_wf(n + 1, order2, posn2)) by {
        assert forall|k: int| 0 <= k < n + 1 implies 0 <= #[trigger] order2[k] < n + 1 && posn2[order2[k]] == k by {
            if k < p {
                assert(posn[order[k]] == k);
            } else if k > p {
                assert(order2[(k - 1) + 1] == order[k - 1]);
                assert(posn[order[k - 1]] == k - 1);
            }
        }
        assert forall|i: int| 0 <= i < n + 1 implies 0 <= #[trigger] posn2[i] < n + 1 && order2[posn2[i]] == i by {
            if i < n {
                assert(posn2[i] == shift(posn[i], p));
                let q = posn[i];
                if q >= p {
                    assert(order2[q + 1] == order[q]);
                }
            }
        }
    }
    assert(valid_depths(ds2)) by {
        assert forall|k: int| 0 <= k < ds2.len() - 1 implies #[trigger] step_ok(ds2, k) by {
            if k < p - 1 {
                assert(step_ok(ds, k));
            } else if k == p - 1 {
                assert(step_ok(ds, k));
            } else if k > p {
                assert(step_ok(ds, k - 1));
                assert(ds2[(k - 1) + 1] == ds[k - 1] + 1);
                assert(ds2[k + 1] == ds[k] + 1);
            }
        }
        if p == 0 {
            assert(s == 0);
        }
    }
    assert forall|k: int| 0 <= k < n + 1 implies #[trigger] pos_ok(nodes2, order2, ds2, k) by {
        if k < p {
            lemma_wrap_pos_before(nodes, first, last, order, posn, ds, s, p, nodes2, first2, last2, k);
        } else if k == p {
            lemma_wrap_pos_at(nodes, first, last, order, posn, ds, s, p, nodes2, first2, last2);
        } else {
            lemma_wrap_pos_after(nodes, first, last, order, posn, ds, s, p, nodes2, first2, last2, k - 1);
        }
    }
    assert(opt_int(first2) == id_of(order2, first_root(ds2))) by {
        assert(posn[order[0]] == 0);
        assert(posn[order[p]] == p);
    }
    assert(opt_int(last2) == id_of(order2, last_root(ds2))) by {
        lemma_wrap_bwd_after(ds, p, s, n - 1, 0);
        lemma_wrap_bwd_at(ds, p, s, 0);
        if s > 0 {
            lemma_bwd(ds, p - 1, 0);
            lemma_bwd_exact(ds, p - 1, 0);
            lemma_bwd(ds, n - 1, 0);
            lemma_bwd_unique(ds, n - 1, 0, bwd(ds, p - 1, 0));
        }
    }
}

/// The last child of a node before the wrapped ones: the new node for the
/// innermost open node, and unchanged (and before the wrapped ones) for the
/// others.
proof fn lemma_wrap_last_before(ds: Seq<nat>, s: nat, p: int, k: int)
    requires
        valid_depths(ds),
        stack_ok(ds, s),
        wrappable(ds, s, p),
        0 <= k < p,
    ensures
        last_of(wrap_depths(ds, p, s), k) == if Some(k) == top_of(ds, s) {
            Some(p)
        } else {
            last_of(ds, k)
        },
        Some(k) != top_of(ds, s) && last_of(ds, k) is Some ==> last_of(ds, k).unwrap() < p,
{
    let n = ds.len() as int;
    let ds2 = wrap_depths(ds, p, s);
    let top = top_of(ds, s);
    lemma_wrap_index(ds, ds.map_values(|x: nat| 0int), p, s, 0);
    lemma_wrappable(ds, s, p);
    lemma_sub_end(ds, k);
    let e = sub_end(ds, k);
    lemma_wrap_fwd_before(ds, p, s, k + 1, ds[k]);
    if e >= p && s > ds[k] {
        lemma_fwd_unique(ds, k + 1, ds[k], n);
        lemma_wrap_fwd_after(ds, p, s, p, ds[k]);
        if ds[k] > 0 {
            lemma_fwd_unique(ds, p, (ds[k] - 1) as nat, n);
        }
    }
    if k + 1 == p && ds[p] == ds[k] + 1 {
        lemma_parent(ds, p);
        lemma_bwd_unique(ds, p - 1, ds[k], k);
    }
    if Some(k) == top {
        lemma_open_at_pub(ds, s, (s - 1) as nat);
        lemma_fwd_unique(ds, k + 1, ds[k], n);
        if k + 1 < n {
            assert(step_ok(ds, k));
        }
        lemma_wrap_bwd_after(ds, p, s, n - 1, ds[k] + 1);
        lemma_bwd(ds, n - 1, ds[k]);
        lemma_wrap_bwd_at(ds, p, s, ds[k] + 1);
        lemma_wrap_fwd_after(ds, p, s, p, ds[k]);
        if ds[k] > 0 {
            lemma_fwd_unique(ds, p, (ds[k] - 1) as nat, n);
        }
    } else if first_of(ds, k) is Some {
        if e < p {
            lemma_bwd(ds, e - 1, ds[k] + 1);
            lemma_wrap_bwd_before(ds, p, s, e - 1, ds[k] + 1);
        } else if s <= ds[k] {
            assert(e == p);
            lemma_bwd(ds, p - 1, ds[k] + 1);
            lemma_wrap_bwd_before(ds, p, s, p - 1, ds[k] + 1);
        } else {
            lemma_wrap_bwd_after(ds, p, s, n - 1, ds[k] + 1);
            lemma_bwd(ds, n - 1, ds[k]);
            lemma_wrap_bwd_at(ds, p, s, ds[k] + 1);
            if s > ds[k] + 1 {
                lemma_bwd(ds, n - 1, ds[k] + 1);
                lemma_bwd(ds, p - 1, ds[k] + 1);
                lemma_bwd_unique(ds, n - 1, ds[k] + 1, bwd(ds, p - 1, ds[k] + 1));
            } else {
                lemma_bwd_unique(ds, n - 1, ds[k], k);
                assert(top == Some(k));
            }
        }
    }
}

/// Which nodes are open after wrapping: the same ones, all before the
/// wrapped nodes.
proof fn lemma_wrap_open(ds: Seq<nat>, s: nat, p: int, i: nat)
    requires
        valid_depths(ds),
        stack_ok(ds, s),
        wrappable(ds, s, p),
        i < s,
    ensures
        open_at(wrap_depths(ds, p, s), i) == open_at(ds, i),
        open_at(ds, i) < p,
{
    let n = ds.len() as int;
    lemma_wrappable(ds, s, p);
    lemma_open_at_pub(ds, s, i);
    lemma_wrap_index(ds, ds.map_values(|x: nat| 0int), p, s, 0);
    lemma_wrap_bwd_after(ds, p, s, n - 1, i);
    if i > 0 {
        lemma_bwd(ds, n - 1, (i - 1) as nat);
    }
    lemma_wrap_bwd_at(ds, p, s, i);
    lemma_bwd(ds, p - 1, i);
    lemma_bwd_unique(ds, n - 1, i, bwd(ds, p - 1, i));
}

/// The spans after wrapping: the new node spans from the start of the first
/// wrapped node to the end of the last one, and no other span changes.
pub(crate) proof fn lemma_wrap_spans<T, I: Index, P: Pointer>(
    nodes: Seq<Links<T, I, P>>,
    first: Option<usize>,
    last: Option<usize>,
    order: Seq<int>,
    posn: Seq<int>,
    ds: Seq<nat>,
    s: nat,
    p: int,
    nodes2: Seq<Links<T, I, P>>,
    first2: Option<usize>,
    last2: Option<usize>,
    cursor: nat,
)
    requires
        shape_wf(nodes, first, last, order, posn, ds),
        stack_ok(ds, s),
        wrappable(ds, s, p),
        wrapped(nodes, first, last, order, posn, ds, s, p, nodes2, first2, last2),
        spans_wf(nodes, order, ds, s, cursor),
        forall|i: int| 0 <= i < nodes.len() ==> #[trigger] nodes2[i].span == nodes[i].span,
        nodes2[nodes.len() as int].span.start == nodes[order[p]].span.start,
        nodes2[nodes.len() as int].span.end == nodes[order[last_sibling(ds, s)]].span.end,
    ensures
        spans_wf(nodes2, wrap_order(order, p, nodes.len() as int), wrap_depths(ds, p, s), s, cursor),
{
    let n = nodes.len() as int;
    let ds2 = wrap_depths(ds, p, s);
    let order2 = wrap_order(order, p, n);
    let top = top_of(ds, s);
    let lsib = last_sibling(ds, s);
    lemma_wrap_index(ds, order, p, s, n);
    lemma_wrappable(ds, s, p);
    assert forall|k: int| 0 <= k < n + 1 - 1 implies #[trigger] start_ok(nodes2, order2, ds2, k) by {
        if k < p - 1 {
            assert(start_ok(nodes, order, ds, k));
        } else if k == p - 1 {
            assert(start_ok(nodes, order, ds, k));
        } else if k == p {
            assert(order2[p + 1] == order[p]);
        } else {
            assert(start_ok(nodes, order, ds, k - 1));
            assert(order2[(k - 1) + 1] == order[k - 1]);
            assert(order2[k + 1] == order[k]);
            if k < n {
                assert(ds2[k + 1] == ds[k] + 1);
            }
        }
    }
    assert forall|k: int| 0 <= k < n + 1 implies #[trigger] end_ok(nodes2, order2, ds2, s, k) by {
        if k < p {
            assert(end_ok(nodes, order, ds, s, k));
            lemma_wrap_last_before(ds, s, p, k);
            if Some(k) == top {
                lemma_bwd_unique(ds, n - 1, s, lsib);
                assert(last_of(ds, k) == Some(lsib)) by {
                    lemma_open_at_pub(ds, s, (s - 1) as nat);
                    lemma_fwd_unique(ds, k + 1, ds[k], n);
                    if k + 1 < n {
                        assert(step_ok(ds, k));
                    }
                }
                assert(!is_open(ds, s, lsib));
                assert(!is_open(ds2, s, p));
                assert(order2[p] == n);
                assert(end_ok(nodes2, order2, ds2, s, k));
            } else if let Some(c) = last_of(ds, k) {
                crate::grow::lemma_last_range_pub(ds, k);
                assert(c < p);
                assert(ds2[c] == ds[c]);
                assert(order2[c] == order[c]);
                if ds[c] < s {
                    lemma_wrap_open(ds, s, p, ds[c]);
                }
                assert(is_open(ds2, s, c) == is_open(ds, s, c));
                assert(end_ok(nodes2, order2, ds2, s, k));
            } else {
                if ds[k] < s {
                    lemma_wrap_open(ds, s, p, ds[k]);
                }
                assert(is_open(ds2, s, k) == is_open(ds, s, k));
                assert(end_ok(nodes2, order2, ds2, s, k));
            }
        } else if k == p {
            assert(last_of(ds2, p) == Some(lsib + 1)) by {
                lemma_wrap_pos_at_last(ds, s, p);
            }
            assert(order2[lsib + 1] == order[lsib]);
            assert(order2[p] == n);
            assert(ds2[lsib + 1] == ds[lsib] + 1);
            assert(end_ok(nodes2, order2, ds2, s, k));
        } else {
            let q = k - 1;
            assert(end_ok(nodes, order, ds, s, q));
            assert(order2[q + 1] == order[q]);
            lemma_wrap_last_after(ds, s, p, q);
            if let Some(c) = last_of(ds, q) {
                crate::grow::lemma_last_range_pub(ds, q);
                assert(order2[c + 1] == order[c]);
                assert(ds2[c + 1] == ds[c] + 1);
                assert(ds[c] >= s);
            }
            assert(ds2[q + 1] == ds[q] + 1);
            assert(end_ok(nodes2, order2, ds2, s, k));
        }
    }
    assert(order2[(n - 1) + 1] == order[n - 1]);
}

/// The last child of the new node is the last wrapped sibling.
proof fn lemma_wrap_pos_at_last(ds: Seq<nat>, s: nat, p: int)
    requires
        valid_depths(ds),
        stack_ok(ds, s),
        wrappable(ds, s, p),
    ensures
        last_of(wrap_depths(ds, p, s), p) == Some(last_sibling(ds, s) + 1),
{
    let n = ds.len() as int;
    lemma_wrap_index(ds, ds.map_values(|x: nat| 0int), p, s, 0);
    lemma_wrappable(ds, s, p);
    lemma_wrap_fwd_after(ds, p, s, p, s);
    if s > 0 {
        lemma_fwd_unique(ds, p, (s - 1) as nat, n);
    }
    lemma_wrap_bwd_after(ds, p, s, n - 1, s + 1);
    lemma_bwd_unique(ds, n - 1, s, last_sibling(ds, s));
}

/// The last child of a moved node is the moved last child.
proof fn lemma_wrap_last_after(ds: Seq<nat>, s: nat, p: int, q: int)
    requires
        valid_depths(ds),
        stack_ok(ds, s),
        wrappable(ds, s, p),
        p <= q < ds.len(),
    ensures
        last_of(wrap_depths(ds, p, s), q + 1) == match last_of(ds, q) {
            Some(c) => Some(c + 1),
            None => None,
        },
{
    let n = ds.len() as int;
    let ds2 = wrap_depths(ds, p, s);
    lemma_wrap_index(ds, ds.map_values(|x: nat| 0int), p, s, 0);
    lemma_wrappable(ds, s, p);
    lemma_sub_end(ds, q);
    lemma_wrap_fwd_after(ds, p, s, q + 1, ds[q] + 1);
    if q + 1 < n {
        assert(ds2[q + 2] == ds[q + 1] + 1);
    }
    if first_of(ds, q) is Some {
        let e = sub_end(ds, q);
        lemma_bwd(ds, e - 1, ds[q] + 1);
        lemma_bwd_exact(ds, e - 1, ds[q] + 1);
        lemma_wrap_bwd_after(ds, p, s, e - 1, ds[q] + 2);
    }
}

/// The token indexes after wrapping: the same tokens at their new positions.
pub(crate) proof fn lemma_wrap_indexes<T, I: Index, P: Pointer>(
    nodes: Seq<Links<T, I, P>>,
    first: Option<usize>,
    last: Option<usize>,
    order: Seq<int>,
    posn: Seq<int>,
    ds: Seq<nat>,
    s: nat,
    p: int,
    nodes2: Seq<Links<T, I, P>>,
    first2: Option<usize>,
    last2: Option<usize>,
    indexes: Seq<TreeIndex<I, P>>,
    toks: Seq<int>,
    cursor: nat,
)
    requires
        shape_wf(nodes, first, last, order, posn, ds),
        stack_ok(ds, s),
        wrappable(ds, s, p),
        wrapped(nodes, first, last, order, posn, ds, s, p, nodes2, first2, last2),
        indexes_wf(nodes, order, ds, indexes, toks, cursor),
        forall|i: int| 0 <= i < nodes.len() ==> #[trigger] nodes2[i].span == nodes[i].span,
    ensures
        indexes_wf(nodes2, wrap_order(order, p, nodes.len() as int), wrap_depths(ds, p, s), indexes, wrap_toks(toks, p), cursor),
{
    let n = nodes.len() as int;
    let ds2 = wrap_depths(ds, p, s);
    let order2 = wrap_order(order, p, n);
    let toks2 = wrap_toks(toks, p);
    lemma_wrap_index(ds, order, p, s, n);
    lemma_wrappable(ds, s, p);
    // whether a node is an indexed token does not change as it moves
    assert forall|q: int| 0 <= q < n implies #[trigger] is_indexed(nodes, order, ds, q) == is_indexed(nodes2, order2, ds2, shift(q, p)) by {
        if q < p {
            assert(order2[q] == order[q]);
            if q + 1 < p {
                assert(ds2[q + 1] == ds[q + 1]);
            }
        } else {
            assert(order2[q + 1] == order[q]);
            assert(ds2[q + 1] == ds[q] + 1);
            if q + 1 < n {
                assert(ds2[q + 2] == ds[q + 1] + 1);
            }
        }
    }
    assert forall|i: int| 0 <= i < toks2.len() implies {
        &&& 0 <= #[trigger] toks2[i] < n + 1
        &&& is_indexed(nodes2, order2, ds2, toks2[i])
        &&& indexes[i].index == nodes2[order2[toks2[i]]].span.end
        &&& link(indexes[i].id) == Some(order2[toks2[i]])
        &&& indexes[i].index.spec_pos() <= cursor
    } by {
        let q = toks[i];
        assert(0 <= toks[i] < n);
        assert(is_indexed(nodes, order, ds, q));
        if q >= p {
            assert(order2[q + 1] == order[q]);
        } else {
            assert(order2[q] == order[q]);
        }
    }
    assert forall|i: int, j: int| 0 <= i < j < toks2.len() implies #[trigger] toks2[i] < #[trigger] toks2[j] by {
        assert(toks[i] < toks[j]);
    }
    assert forall|k: int| 0 <= k < n + 1 && #[trigger] is_indexed(nodes2, order2, ds2, k) implies exists|i: int|
        0 <= i < toks2.len() && toks2[i] == k by {
        if k == p {
            assert(first_of(ds2, p) is Some);
        } else {
            let q = if k < p { k } else { k - 1 };
            assert(shift(q, p) == k);
            assert(is_indexed(nodes, order, ds, q));
            let i = choose|i: int| 0 <= i < toks.len() && toks[i] == q;
            assert(toks2[i] == k);
        }
    }
}

/// After wrapping, the new node is the last child of the innermost open
/// node, and the open nodes are where they were.
pub proof fn lemma_wrap_stack(ds: Seq<nat>, s: nat, p: int)
    requires
        valid_depths(ds),
        stack_ok(ds, s),
        wrappable(ds, s, p),
    ensures
        crate::raw::sibling_of(wrap_depths(ds, p, s), s) == Some(p),
        stack_ok(wrap_depths(ds, p, s), s),
        forall|i: nat| i < s ==> #[trigger] open_at(wrap_depths(ds, p, s), i) == open_at(ds, i) && open_at(ds, i) < p,
        last_sibling(ds, s) == p <==> next_of(ds, p) is None,
{
    let n = ds.len() as int;
    lemma_wrap_index(ds, ds.map_values(|x: nat| 0int), p, s, 0);
    lemma_wrappable(ds, s, p);
    lemma_wrap_bwd_after(ds, p, s, n - 1, s);
    if s > 0 {
        lemma_bwd(ds, n - 1, (s - 1) as nat);
    }
    lemma_wrap_bwd_at(ds, p, s, s);
    assert forall|i: nat| i < s implies #[trigger] open_at(wrap_depths(ds, p, s), i) == open_at(ds, i) && open_at(ds, i) < p by {
        lemma_wrap_open(ds, s, p, i);
    }
    lemma_sub_end(ds, p);
    if next_of(ds, p) is None {
        lemma_bwd_unique(ds, n - 1, s, p);
    } else {
        crate::shape::lemma_next_sub_end(ds, p);
    }
}

/// The wrapped preorder sequences with one element inserted at `p`.
pub proof fn lemma_wrap_insert<A>(a: Seq<A>, order: Seq<int>, p: int, x: A, f: spec_fn(int) -> A, g: spec_fn(int) -> A)
    requires
        0 <= p <= order.len(),
        a.len() == order.len(),
        forall|k: int| 0 <= k < order.len() ==> 0 <= #[trigger] order[k] < order.len(),
        forall|k: int| 0 <= k < order.len() ==> #[trigger] a[k] == f(order[k]),
        g(order.len() as int) == x,
        forall|i: int| 0 <= i < order.len() ==> #[trigger] g(i) == f(i),
    ensures
        Seq::new(order.len() + 1, |k: int| g(wrap_order(order, p, order.len() as int)[k])) == a.insert(p, x),
{
    let n = order.len() as int;
    let o2 = wrap_order(order, p, n);
    lemma_wrap_index(order.map_values(|x: int| 0nat), order, p, 0, n);
    let b = Seq::new(order.len() + 1, |k: int| g(o2[k]));
    assert forall|k: int| 0 <= k < n + 1 implies b[k] == a.insert(p, x)[k] by {
        if k < p {
            assert(o2[k] == order[k]);
            assert(g(order[k]) == f(order[k]));
        } else if k > p {
            assert(o2[(k - 1) + 1] == order[k - 1]);
            assert(g(order[k - 1]) == f(order[k - 1]));
        }
    }
    assert(b =~= a.insert(p, x));
}

} // verus!
