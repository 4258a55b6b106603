//! The node arena shared by the builder and the tree, and the invariants that
//! tie its links to the preorder depth sequence of the forest it holds.

use vstd::prelude::*;

use crate::index::Index;
use crate::pointer::Pointer;
use crate::shape::{bwd, first_of, first_root, last_of, last_root, next_of, parent_of, prev_of, valid_depths};
use crate::span::Span;

verus! {

/// Central struct to keep track of all internal linking of a tree.
///
/// Absent links are stored as the reserved pointer value, so a link takes no
/// more room than a pointer.
#[derive(Debug, Clone, Copy)]
pub struct Links<T, I, P> {
    /// The data in the node.
    pub(crate) data: T,
    /// Span of the node.
    pub(crate) span: Span<I>,
    /// Parent node.
    pub(crate) parent: P,
    /// The previous sibling.
    pub(crate) prev: P,
    /// The next sibling.
    pub(crate) next: P,
    /// The first child.
    pub(crate) first: P,
    /// The last child.
    pub(crate) last: P,
}

/// A token index for range searches: the cursor after a token and the token.
#[derive(Debug, Clone, Copy)]
pub struct TreeIndex<I, P> {
    pub(crate) index: I,
    pub(crate) id: P,
}

/// The node a link refers to, `None` for the reserved value.
pub open spec fn link<P: Pointer>(p: P) -> Option<int> {
    if p.spec_is_none() {
        None
    } else {
        Some(p.spec_get() as int)
    }
}

/// A preorder position mapped to the arena slot holding it.
pub open spec fn id_of(order: Seq<int>, o: Option<int>) -> Option<int> {
    match o {
        Some(k) => Some(order[k]),
        None => None,
    }
}

/// `order` maps preorder positions to arena slots and `posn` is its inverse.
pub open spec fn order_wf(n: int, order: Seq<int>, posn: Seq<int>) -> bool {
    &&& order.len() == n
    &&& posn.len() == n
    &&& forall|k: int| 0 <= k < n ==> 0 <= #[trigger] order[k] < n && posn[order[k]] == k
    &&& forall|i: int| 0 <= i < n ==> 0 <= #[trigger] posn[i] < n && order[posn[i]] == i
}

/// The links of the node at preorder position `k` match the depth sequence.
pub(crate) open spec fn pos_ok<T, I, P: Pointer>(
    nodes: Seq<Links<T, I, P>>,
    order: Seq<int>,
    ds: Seq<nat>,
    k: int,
) -> bool {
    let l = nodes[order[k]];
    &&& link(l.parent) == id_of(order, parent_of(ds, k))
    &&& link(l.prev) == id_of(order, prev_of(ds, k))
    &&& link(l.next) == id_of(order, next_of(ds, k))
    &&& link(l.first) == id_of(order, first_of(ds, k))
    &&& link(l.last) == id_of(order, last_of(ds, k))
}

/// Every node is linked according to the depth sequence.
pub(crate) open spec fn links_wf<T, I, P: Pointer>(
    nodes: Seq<Links<T, I, P>>,
    order: Seq<int>,
    ds: Seq<nat>,
) -> bool {
    forall|k: int| 0 <= k < nodes.len() ==> #[trigger] pos_ok(nodes, order, ds, k)
}

/// The shape of the arena: ordering, depths, links and the roots.
pub(crate) open spec fn shape_wf<T, I, P: Pointer>(
    nodes: Seq<Links<T, I, P>>,
    first: Option<usize>,
    last: Option<usize>,
    order: Seq<int>,
    posn: Seq<int>,
    ds: Seq<nat>,
) -> bool {
    &&& order_wf(nodes.len() as int, order, posn)
    &&& ds.len() == nodes.len()
    &&& valid_depths(ds)
    &&& links_wf(nodes, order, ds)
    &&& opt_int(first) == id_of(order, first_root(ds))
    &&& opt_int(last) == id_of(order, last_root(ds))
    &&& nodes.len() > 0 ==> P::spec_fits((nodes.len() - 1) as nat)
    &&& nodes.len() + 2 < isize::MAX
}

/// An optional node index as an optional integer.
pub open spec fn opt_int(o: Option<usize>) -> Option<int> {
    match o {
        Some(v) => Some(v as int),
        None => None,
    }
}

/// The open node at level `i` of a stack: the last node at depth `i`.
pub open spec fn open_at(ds: Seq<nat>, i: nat) -> int {
    bwd(ds, ds.len() - 1, i)
}

/// The last node at depth `s`, if it comes after every shallower node: the
/// last child of the innermost open node when `s` nodes are open.
pub open spec fn sibling_of(ds: Seq<nat>, s: nat) -> Option<int> {
    let b = bwd(ds, ds.len() - 1, s);
    if b >= 0 && ds[b] == s {
        Some(b)
    } else {
        None
    }
}

/// Whether the node at `k` is one of the `s` open nodes.
pub open spec fn is_open(ds: Seq<nat>, s: nat, k: int) -> bool {
    ds[k] < s && k == open_at(ds, ds[k])
}

/// A stack of `s` open nodes is possible: it is at most as deep as the last
/// node allows.
pub open spec fn stack_ok(ds: Seq<nat>, s: nat) -> bool {
    &&& ds.len() == 0 ==> s == 0
    &&& ds.len() > 0 ==> s <= ds[ds.len() - 1] + 1
}

/// The start position of the node at preorder position `k`.
pub(crate) open spec fn start_at<T, I: Index, P>(nodes: Seq<Links<T, I, P>>, order: Seq<int>, k: int) -> nat {
    nodes[order[k]].span.start.spec_pos()
}

/// The end position of the node at preorder position `k`.
pub(crate) open spec fn end_at<T, I: Index, P>(nodes: Seq<Links<T, I, P>>, order: Seq<int>, k: int) -> nat {
    nodes[order[k]].span.end.spec_pos()
}

/// A node starts where the input consumed before it ends: right where its
/// predecessor in preorder starts, if that is its parent, else where that
/// predecessor ends.
pub(crate) open spec fn start_ok<T, I: Index, P>(
    nodes: Seq<Links<T, I, P>>,
    order: Seq<int>,
    ds: Seq<nat>,
    k: int,
) -> bool {
    start_at(nodes, order, k + 1) == if first_of(ds, k) is Some {
        start_at(nodes, order, k)
    } else {
        end_at(nodes, order, k)
    }
}

/// A node without children does not end before it starts (and ends where
/// it starts while it is open), and one with children ends where its last
/// child ends, or where that child starts if it is still open.
pub(crate) open spec fn end_ok<T, I: Index, P>(
    nodes: Seq<Links<T, I, P>>,
    order: Seq<int>,
    ds: Seq<nat>,
    s: nat,
    k: int,
) -> bool {
    match last_of(ds, k) {
        None => start_at(nodes, order, k) <= end_at(nodes, order, k) && (is_open(ds, s, k)
            ==> start_at(nodes, order, k) == end_at(nodes, order, k)),
        Some(c) => end_at(nodes, order, k) == if is_open(ds, s, c) {
            start_at(nodes, order, c)
        } else {
            end_at(nodes, order, c)
        },
    }
}

/// The spans of the arena, with `s` open nodes and the given cursor.
pub(crate) open spec fn spans_wf<T, I: Index, P>(
    nodes: Seq<Links<T, I, P>>,
    order: Seq<int>,
    ds: Seq<nat>,
    s: nat,
    cursor: nat,
) -> bool {
    &&& nodes.len() > 0 ==> start_at(nodes, order, 0) == 0
    &&& forall|k: int| 0 <= k < nodes.len() - 1 ==> #[trigger] start_ok(nodes, order, ds, k)
    &&& forall|k: int| 0 <= k < nodes.len() ==> #[trigger] end_ok(nodes, order, ds, s, k)
    &&& cursor == if nodes.len() == 0 {
        0
    } else {
        end_at(nodes, order, nodes.len() - 1)
    }
}

/// A token that covers some input: a node without children which does not
/// end where it starts.
pub(crate) open spec fn is_indexed<T, I: Index, P>(
    nodes: Seq<Links<T, I, P>>,
    order: Seq<int>,
    ds: Seq<nat>,
    k: int,
) -> bool {
    first_of(ds, k) is None && start_at(nodes, order, k) < end_at(nodes, order, k)
}

/// The index entries are the tokens covering input, in preorder, each with
/// the position where the token ends.
pub(crate) open spec fn indexes_wf<T, I: Index, P: Pointer>(
    nodes: Seq<Links<T, I, P>>,
    order: Seq<int>,
    ds: Seq<nat>,
    indexes: Seq<TreeIndex<I, P>>,
    toks: Seq<int>,
    cursor: nat,
) -> bool {
    &&& indexes.len() == toks.len()
    &&& forall|i: int|
        0 <= i < toks.len() ==> {
            &&& 0 <= #[trigger] toks[i] < nodes.len()
            &&& is_indexed(nodes, order, ds, toks[i])
            &&& indexes[i].index == nodes[order[toks[i]]].span.end
            &&& link(indexes[i].id) == Some(order[toks[i]])
            &&& indexes[i].index.spec_pos() <= cursor
        }
    &&& forall|i: int, j: int| 0 <= i < j < toks.len() ==> #[trigger] toks[i] < #[trigger] toks[j]
    &&& forall|i: int, j: int|
        0 <= i < j < toks.len() ==> #[trigger] indexes[i].index.spec_pos()
            < #[trigger] indexes[j].index.spec_pos()
    &&& forall|k: int|
        0 <= k < nodes.len() && #[trigger] is_indexed(nodes, order, ds, k) ==> exists|i: int|
            0 <= i < toks.len() && toks[i] == k
}

/// The data of the nodes, in preorder.
pub(crate) open spec fn data_seq<T, I, P>(nodes: Seq<Links<T, I, P>>, order: Seq<int>) -> Seq<T> {
    Seq::new(order.len(), |k: int| nodes[order[k]].data)
}

/// The start positions of the nodes, in preorder.
pub(crate) open spec fn start_seq<T, I: Index, P>(nodes: Seq<Links<T, I, P>>, order: Seq<int>) -> Seq<nat> {
    Seq::new(order.len(), |k: int| start_at(nodes, order, k))
}

/// The end positions of the nodes, in preorder.
pub(crate) open spec fn end_seq<T, I: Index, P>(nodes: Seq<Links<T, I, P>>, order: Seq<int>) -> Seq<nat> {
    Seq::new(order.len(), |k: int| end_at(nodes, order, k))
}

/// A link to the given node, or the reserved value for none.
pub(crate) fn to_ptr<P: Pointer>(o: Option<usize>) -> (r: P)
    requires
        o matches Some(i) ==> P::spec_fits(i as nat),
    ensures
        link(r) == opt_int(o),
{
    match o {
        Some(i) => match P::new(i) {
            Some(p) => p,
            None => P::none(),
        },
        None => P::none(),
    }
}

/// The node a link refers to.
pub(crate) fn from_ptr<P: Pointer>(p: P) -> (r: Option<usize>)
    ensures
        opt_int(r) == link(p),
{
    if p.is_none() {
        None
    } else {
        Some(p.get())
    }
}

} // verus!
