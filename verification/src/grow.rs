//! Appending a node at the end of the preorder keeps the arena well formed.

use vstd::prelude::*;

use crate::index::Index;
use crate::pointer::Pointer;
use crate::raw::{
    end_ok, id_of, is_open, link, links_wf, open_at, opt_int, order_wf, pos_ok, shape_wf, sibling_of,
    spans_wf, stack_ok, start_ok, Links,
};
use crate::shape::{
    bwd, first_of, fwd, last_of, last_root, parent_of, lemma_bwd, lemma_parent, lemma_sub_end, lemma_bwd_exact, lemma_bwd_push, lemma_bwd_unique, lemma_fwd,
    lemma_fwd_push, lemma_fwd_unique, step_ok, sub_end, valid_depths,
};

verus! {

/// Two links agree on every pointer.
pub(crate) open spec fn same_links<T, I, P: Pointer>(a: Links<T, I, P>, b: Links<T, I, P>) -> bool {
    &&& link(a.parent) == link(b.parent)
    &&& link(a.prev) == link(b.prev)
    &&& link(a.next) == link(b.next)
    &&& link(a.first) == link(b.first)
    &&& link(a.last) == link(b.last)
}

/// The innermost open node of a stack of `s` open nodes.
pub open spec fn top_of(ds: Seq<nat>, s: nat) -> Option<int> {
    if s > 0 {
        Some(open_at(ds, (s - 1) as nat))
    } else {
        None
    }
}

/// The arena after appending a node at depth `s` (as the last child of the
/// innermost of `s` open nodes), as the builder links it.
pub(crate) open spec fn appended<T, I, P: Pointer>(
    nodes: Seq<Links<T, I, P>>,
    first: Option<usize>,
    last: Option<usize>,
    order: Seq<int>,
    ds: Seq<nat>,
    s: nat,
    nodes2: Seq<Links<T, I, P>>,
    first2: Option<usize>,
    last2: Option<usize>,
) -> bool {
    let n = nodes.len() as int;
    let top = id_of(order, top_of(ds, s));
    let sib = id_of(order, sibling_of(ds, s));
    &&& nodes2.len() == n + 1
    &&& link(nodes2[n].parent) == top
    &&& link(nodes2[n].prev) == sib
    &&& link(nodes2[n].next) is None
    &&& link(nodes2[n].first) is None
    &&& link(nodes2[n].last) is None
    &&& forall|i: int|
        0 <= i < n && Some(i) != top && Some(i) != sib ==> same_links(
            #[trigger] nodes2[i],
            nodes[i],
        )
    &&& top matches Some(t) ==> {
        &&& link(nodes2[t].parent) == link(nodes[t].parent)
        &&& link(nodes2[t].prev) == link(nodes[t].prev)
        &&& link(nodes2[t].next) == link(nodes[t].next)
        &&& link(nodes2[t].first) == if link(nodes[t].first) is None {
            Some(n)
        } else {
            link(nodes[t].first)
        }
        &&& link(nodes2[t].last) == Some(n)
    }
    &&& sib matches Some(b) ==> {
        &&& link(nodes2[b].parent) == link(nodes[b].parent)
        &&& link(nodes2[b].prev) == link(nodes[b].prev)
        &&& link(nodes2[b].next) == Some(n)
        &&& link(nodes2[b].first) == link(nodes[b].first)
        &&& link(nodes2[b].last) == link(nodes[b].last)
    }
    &&& s == 0 ==> opt_int(first2) == if first is None {
        Some(n)
    } else {
        opt_int(first)
    }
    &&& s == 0 ==> opt_int(last2) == Some(n)
    &&& s > 0 ==> first2 == first && last2 == last
}

/// The stack levels are the last nodes at each depth.
proof fn lemma_open_at(ds: Seq<nat>, s: nat, i: nat)
    requires
        valid_depths(ds),
        stack_ok(ds, s),
        i < s,
    ensures
        0 <= open_at(ds, i) < ds.len(),
        ds[open_at(ds, i)] == i,
        forall|m: int| open_at(ds, i) < m < ds.len() ==> ds[m] > i,
{
    lemma_bwd_exact(ds, ds.len() - 1, i);
    lemma_bwd(ds, ds.len() - 1, i);
}

/// One node's links after appending a node at depth `s`.
proof fn lemma_append_pos<T, I, P: Pointer>(
    nodes: Seq<Links<T, I, P>>,
    first: Option<usize>,
    last: Option<usize>,
    order: Seq<int>,
    posn: Seq<int>,
    ds: Seq<nat>,
    s: nat,
    nodes2: Seq<Links<T, I, P>>,
    first2: Option<usize>,
    last2: Option<usize>,
    k: int,
)
    requires
        shape_wf(nodes, first, last, order, posn, ds),
        stack_ok(ds, s),
        appended(nodes, first, last, order, ds, s, nodes2, first2, last2),
        0 <= k <= nodes.len(),
    ensures
        pos_ok(nodes2, order.push(nodes.len() as int), ds.push(s), k),
{
    let n = nodes.len() as int;
    let order2 = order.push(n);
    let ds2 = ds.push(s);
    let top = top_of(ds, s);
    let sib = sibling_of(ds, s);
    if s > 0 {
        lemma_open_at(ds, s, (s - 1) as nat);
    }
    lemma_bwd(ds, n - 1, s);
        if k == n {
            if s > 0 {
                lemma_bwd_push(ds, s, n - 1, (s - 1) as nat);
            }
            lemma_bwd_push(ds, s, n - 1, s);
            assert(fwd(ds2, n + 1, s) == n + 1);
        } else {
            assert(pos_ok(nodes, order, ds, k));
            assert(order2[k] == order[k]);
            assert(ds2[k] == ds[k]);
            if ds[k] > 0 {
                lemma_bwd_push(ds, s, k - 1, (ds[k] - 1) as nat);
                lemma_parent(ds, k);
            }
            lemma_bwd_push(ds, s, k - 1, ds[k]);
            lemma_bwd(ds, k - 1, ds[k]);
            lemma_fwd_push(ds, s, k + 1, ds[k]);
            lemma_fwd(ds, k + 1, ds[k]);
            let e = sub_end(ds, k);
            lemma_bwd(ds, e - 1, ds[k] + 1);
            if e < n {
                lemma_bwd_push(ds, s, e - 1, ds[k] + 1);
            } else {
                lemma_bwd_push(ds, s, n - 1, ds[k] + 1);
                assert(ds2[n] == s);
                if s == ds[k] {
                    lemma_bwd_unique(ds, n - 1, s, k);
                }
                if s == ds[k] + 1 {
                    lemma_bwd_unique(ds, n - 1, ds[k], k);
                }
            }
            if k == n - 1 && s == ds[k] + 1 {
                lemma_bwd_unique(ds, n - 1, ds[k], k);
            }
            if Some(k) == top {
                assert(ds[k] + 1 == s);
                if k + 1 < n {
                    assert(step_ok(ds, k));
                }
                lemma_fwd_unique(ds, k + 1, ds[k], n);
            }
            if Some(k) == sib {
                lemma_fwd_unique(ds, k + 1, ds[k], n);
            }
            if Some(k) != top && Some(k) != sib {
                assert(Some(order[k]) != id_of(order, top));
                assert(Some(order[k]) != id_of(order, sib));
                assert(same_links(nodes2[order[k]], nodes[order[k]]));
            } else if Some(k) == top {
                assert(id_of(order, top) == Some(order[k]));
            } else {
                assert(id_of(order, sib) == Some(order[k]));
            }
        }
    }

/// The stack levels are the last nodes at each depth.
pub proof fn lemma_open_at_pub(ds: Seq<nat>, s: nat, i: nat)
    requires
        valid_depths(ds),
        stack_ok(ds, s),
        i < s,
    ensures
        0 <= open_at(ds, i) < ds.len(),
        ds[open_at(ds, i)] == i,
        forall|m: int| open_at(ds, i) < m < ds.len() ==> ds[m] > i,
{
    lemma_open_at(ds, s, i);
}

/// The last child of a node comes after it, one level deeper.
pub proof fn lemma_last_range_pub(ds: Seq<nat>, k: int)
    requires
        valid_depths(ds),
        0 <= k < ds.len(),
        last_of(ds, k) is Some,
    ensures
        k < last_of(ds, k).unwrap() < ds.len(),
        ds[last_of(ds, k).unwrap()] == ds[k] + 1,
{
    lemma_last_range(ds, k);
}

/// The parent of the last child of a node is that node.
pub proof fn lemma_last_parent(ds: Seq<nat>, k: int)
    requires
        valid_depths(ds),
        0 <= k < ds.len(),
        last_of(ds, k) is Some,
    ensures
        parent_of(ds, last_of(ds, k).unwrap()) == Some(k),
{
    lemma_last_range(ds, k);
    let c = last_of(ds, k).unwrap();
    lemma_sub_end(ds, k);
    lemma_bwd(ds, sub_end(ds, k) - 1, ds[k] + 1);
    lemma_bwd_unique(ds, c - 1, ds[k], k);
}

/// The parent of an open node at level `i > 0` is the open node at level
/// `i - 1`.
pub proof fn lemma_parent_of_open(ds: Seq<nat>, s: nat, i: nat)
    requires
        valid_depths(ds),
        stack_ok(ds, s),
        0 < i < s,
    ensures
        parent_of(ds, open_at(ds, i)) == Some(open_at(ds, (i - 1) as nat)),
{
    lemma_open_at(ds, s, i);
    lemma_open_at(ds, s, (i - 1) as nat);
    let x = open_at(ds, i);
    let y = open_at(ds, (i - 1) as nat);
    lemma_bwd_unique(ds, x - 1, (i - 1) as nat, y);
}

/// The shape after appending a node at depth `s`.
pub(crate) proof fn lemma_append_shape<T, I, P: Pointer>(
    nodes: Seq<Links<T, I, P>>,
    first: Option<usize>,
    last: Option<usize>,
    order: Seq<int>,
    posn: Seq<int>,
    ds: Seq<nat>,
    s: nat,
    nodes2: Seq<Links<T, I, P>>,
    first2: Option<usize>,
    last2: Option<usize>,
)
    requires
        shape_wf(nodes, first, last, order, posn, ds),
        stack_ok(ds, s),
        P::spec_fits(nodes.len() as nat),
        nodes.len() + 3 < isize::MAX,
        appended(nodes, first, last, order, ds, s, nodes2, first2, last2),
    ensures
        shape_wf(
            nodes2,
            first2,
            last2,
            order.push(nodes.len() as int),
            posn.push(nodes.len() as int),
            ds.push(s),
        ),
{
    let n = nodes.len() as int;
    let order2 = order.push(n);
    let posn2 = posn.push(n);
    let ds2 = ds.push(s);
    let top = top_of(ds, s);
    let sib = sibling_of(ds, s);
    if s > 0 {
        lemma_open_at(ds, s, (s - 1) as nat);
    }
    lemma_bwd(ds, n - 1, s);
    assert(order_wf(n + 1, order2, posn2)) by {
        assert forall|k: int| 0 <= k < n + 1 implies 0 <= #[trigger] order2[k] < n + 1
            && posn2[order2[k]] == k by {
            if k < n {
                assert(order2[k] == order[k]);
            }
        }
        assert forall|i: int| 0 <= i < n + 1 implies 0 <= #[trigger] posn2[i] < n + 1
            && order2[posn2[i]] == i by {
            if i < n {
                assert(posn2[i] == posn[i]);
            }
        }
    }
    assert(valid_depths(ds2)) by {
        assert forall|k: int| 0 <= k < ds2.len() - 1 implies #[trigger] step_ok(ds2, k) by {
            if k < n - 1 {
                assert(step_ok(ds, k));
            }
        }
    }
    assert forall|k: int| 0 <= k < n + 1 implies #[trigger] pos_ok(nodes2, order2, ds2, k) by {
        lemma_append_pos(nodes, first, last, order, posn, ds, s, nodes2, first2, last2, k);
    }
    assert(opt_int(last2) == id_of(order2, last_root(ds2))) by {
        if s > 0 {
            assert(n > 0);
            assert(bwd(ds2, n, 0) == bwd(ds2, n - 1, 0));
            lemma_bwd_push(ds, s, n - 1, 0);
            lemma_bwd(ds, n - 1, 0);
            lemma_bwd_exact(ds, n - 1, 0);
        } else {
            assert(bwd(ds2, n, 0) == n);
        }
    }
    if n > 0 {
        assert(P::spec_fits(n as nat));
    }
}

/// Which nodes are open is unchanged by appending a node, but for the
/// appended node itself when it is opened.
proof fn lemma_append_open(ds: Seq<nat>, s: nat, s2: nat, c: int)
    requires
        valid_depths(ds),
        stack_ok(ds, s),
        s2 == s || s2 == s + 1,
        0 <= c < ds.len(),
    ensures
        is_open(ds.push(s), s2, c) == is_open(ds, s, c),
{
    let n = ds.len() as int;
    let ds2 = ds.push(s);
    if ds[c] < s {
        assert(bwd(ds2, n, ds[c]) == bwd(ds2, n - 1, ds[c]));
        lemma_bwd_push(ds, s, n - 1, ds[c]);
    } else if ds[c] == s && s2 == s + 1 {
        assert(bwd(ds2, n, s) == n);
    }
}

/// The spans after appending a node at depth `s`, which is opened when `s2`
/// is `s + 1`: the new node starts at the cursor and the innermost open node
/// now ends where the new node does.
pub(crate) proof fn lemma_append_spans<T, I: Index, P: Pointer>(
    nodes: Seq<Links<T, I, P>>,
    first: Option<usize>,
    last: Option<usize>,
    order: Seq<int>,
    posn: Seq<int>,
    ds: Seq<nat>,
    s: nat,
    cursor: nat,
    nodes2: Seq<Links<T, I, P>>,
    first2: Option<usize>,
    last2: Option<usize>,
    s2: nat,
)
    requires
        shape_wf(nodes, first, last, order, posn, ds),
        stack_ok(ds, s),
        spans_wf(nodes, order, ds, s, cursor),
        P::spec_fits(nodes.len() as nat),
        nodes.len() + 3 < isize::MAX,
        appended(nodes, first, last, order, ds, s, nodes2, first2, last2),
        s2 == s || s2 == s + 1,
        nodes2[nodes.len() as int].span.start.spec_pos() == cursor,
        nodes2[nodes.len() as int].span.start.spec_pos() <= nodes2[nodes.len() as int].span.end.spec_pos(),
        s2 == s + 1 ==> nodes2[nodes.len() as int].span.start.spec_pos() == nodes2[nodes.len() as int].span.end.spec_pos(),
        forall|i: int|
            0 <= i < nodes.len() && Some(i) != id_of(order, top_of(ds, s)) ==> #[trigger] nodes2[i].span == nodes[i].span,
        top_of(ds, s) matches Some(t) ==> {
            &&& nodes2[order[t]].span.start == nodes[order[t]].span.start
            &&& nodes2[order[t]].span.end.spec_pos() == nodes2[nodes.len() as int].span.end.spec_pos()
        },
    ensures
        spans_wf(
            nodes2,
            order.push(nodes.len() as int),
            ds.push(s),
            s2,
            nodes2[nodes.len() as int].span.end.spec_pos(),
        ),
{
    let n = nodes.len() as int;
    let order2 = order.push(n);
    let ds2 = ds.push(s);
    let top = top_of(ds, s);
    lemma_append_shape(nodes, first, last, order, posn, ds, s, nodes2, first2, last2);
    if s > 0 {
        lemma_open_at(ds, s, (s - 1) as nat);
    }
    assert forall|k: int| 0 <= k < n + 1 - 1 implies #[trigger] start_ok(nodes2, order2, ds2, k) by {
        assert(order2[k] == order[k]);
        assert(order2[k + 1] == order[k + 1] || k + 1 == n);
        if k + 1 < n {
            assert(start_ok(nodes, order, ds, k));
            assert(step_ok(ds, k));
            assert(first_of(ds2, k) == first_of(ds, k));
            if Some(k) == top {
                assert(first_of(ds, k) is Some) by {
                    lemma_open_at(ds, s, (s - 1) as nat);
                }
            }
        } else {
            assert(k == n - 1);
            if Some(k) == top {
                assert(end_ok(nodes, order, ds, s, k));
                assert(first_of(ds, k) is None);
                assert(is_open(ds, s, k));
            }
        }
    }
    assert forall|k: int| 0 <= k < n + 1 implies #[trigger] end_ok(nodes2, order2, ds2, s2, k) by {
        if k < n {
            assert(order2[k] == order[k]);
            assert(end_ok(nodes, order, ds, s, k));
            assert(pos_ok(nodes, order, ds, k));
            assert(pos_ok(nodes2, order2, ds2, k));
            lemma_append_open(ds, s, s2, k);
            if Some(k) == top {
                lemma_fwd_push(ds, s, k + 1, ds[k]);
                lemma_fwd_unique(ds, k + 1, ds[k], n);
                if k + 1 < n {
                    assert(step_ok(ds, k));
                }
                assert(bwd(ds2, n, s) == n);
                assert(last_of(ds2, k) == Some(n));
                assert(is_open(ds2, s2, n) == (s2 == s + 1)) by {
                    if s2 == s + 1 {
                        assert(bwd(ds2, n, s) == n);
                    }
                }
            } else {
                assert(last_of(ds2, k) == last_of(ds, k)) by {
                    lemma_last_unchanged(nodes, first, last, order, posn, ds, s, nodes2, first2, last2, k);
                }
                if let Some(c) = last_of(ds, k) {
                    lemma_last_range(ds, k);
                    lemma_append_open(ds, s, s2, c);
                    assert(order2[c] == order[c]);
                    if Some(c) == top {
                        lemma_bwd_unique(ds, n - 1, (s - 1) as nat, c);
                        assert(is_open(ds, s, c));
                    }
                }
            }
        } else {
            assert(last_of(ds2, n) is None);
            if is_open(ds2, s2, n) {
                assert(s2 == s + 1);
            }
        }
    }
}

/// The last child of a node other than the innermost open one is unchanged
/// by appending.
proof fn lemma_last_unchanged<T, I, P: Pointer>(
    nodes: Seq<Links<T, I, P>>,
    first: Option<usize>,
    last: Option<usize>,
    order: Seq<int>,
    posn: Seq<int>,
    ds: Seq<nat>,
    s: nat,
    nodes2: Seq<Links<T, I, P>>,
    first2: Option<usize>,
    last2: Option<usize>,
    k: int,
)
    requires
        shape_wf(nodes, first, last, order, posn, ds),
        stack_ok(ds, s),
        appended(nodes, first, last, order, ds, s, nodes2, first2, last2),
        0 <= k < nodes.len(),
        Some(k) != top_of(ds, s),
    ensures
        last_of(ds.push(s), k) == last_of(ds, k),
{
    let n = nodes.len() as int;
    let ds2 = ds.push(s);
    lemma_fwd_push(ds, s, k + 1, ds[k]);
    lemma_fwd(ds, k + 1, ds[k]);
    let e = sub_end(ds, k);
    if k + 1 < n {
        assert(step_ok(ds, k));
    }
    if e < n {
        lemma_bwd(ds, e - 1, ds[k] + 1);
        lemma_bwd_push(ds, s, e - 1, ds[k] + 1);
    } else {
        lemma_bwd_push(ds, s, n - 1, ds[k] + 1);
        if s == ds[k] + 1 {
            lemma_bwd_unique(ds, n - 1, ds[k], k);
            assert(s > 0);
            assert(top_of(ds, s) == Some(k));
        }
        if s > ds[k] + 1 {
            assert(bwd(ds2, n, ds[k] + 1) == bwd(ds2, n - 1, ds[k] + 1));
        }
    }
}

/// The last child of a node comes after it, one level deeper.
proof fn lemma_last_range(ds: Seq<nat>, k: int)
    requires
        valid_depths(ds),
        0 <= k < ds.len(),
        last_of(ds, k) is Some,
    ensures
        k < last_of(ds, k).unwrap() < ds.len(),
        ds[last_of(ds, k).unwrap()] == ds[k] + 1,
{
    lemma_sub_end(ds, k);
    let e = sub_end(ds, k);
    lemma_bwd_exact(ds, e - 1, ds[k] + 1);
    lemma_bwd(ds, e - 1, ds[k] + 1);
    assert(ds[k + 1] == ds[k] + 1);
}

} // verus!
