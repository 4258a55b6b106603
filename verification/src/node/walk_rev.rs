//! Walking a run of siblings backwards: each node before what is inside it,
//! and the children of a node from the last.

use vstd::prelude::*;

use crate::index::Index;
use crate::node::traverse::NodeIterator;
use crate::pointer::Width;
use crate::shape::{
    last_of, lemma_bwd, lemma_last_child, lemma_parent, lemma_prev, lemma_sub_end, parent_of, prev_of, sib_start,
    sub_end, valid_depths,
};
use crate::tree::Node;

verus! {

/// The positions a reverse walk visits from the node at `k`: `k`, then its
/// children from the last one (each walked the same way), then the earlier
/// siblings of `k` (each walked the same way).
pub open spec fn mirror(ds: Seq<nat>, k: int) -> Seq<int>
    decreases sub_end(ds, k) - sib_start(ds, k),
{
    if !(valid_depths(ds) && 0 <= k < ds.len()) {
        Seq::empty()
    } else {
        let down = match last_of(ds, k) {
            Some(c) => {
                proof {
                    lemma_last_child(ds, k);
                    if ds[k] > 0 {
                        lemma_parent(ds, k);
                    }
                }
                mirror(ds, c)
            },
            None => Seq::empty(),
        };
        let back = match prev_of(ds, k) {
            Some(j) => {
                proof {
                    lemma_prev(ds, k);
                    lemma_sub_end(ds, k);
                    if ds[k] > 0 {
                        lemma_parent(ds, k);
                    }
                }
                mirror(ds, j)
            },
            None => Seq::empty(),
        };
        seq![k] + down + back
    }
}

/// One step of the definition of [`mirror`].
proof fn lemma_mirror_unfold(ds: Seq<nat>, k: int)
    requires
        valid_depths(ds),
        0 <= k < ds.len(),
    ensures
        mirror(ds, k) == seq![k] + match last_of(ds, k) {
            Some(c) => mirror(ds, c),
            None => Seq::<int>::empty(),
        } + match prev_of(ds, k) {
            Some(j) => mirror(ds, j),
            None => Seq::<int>::empty(),
        },
{
}

/// What a reverse walk visits after it is done with the node at `k` and
/// everything inside it: the earlier siblings of `k`, then what comes after
/// its parent, as long as the walk is below the level `base` it started at.
pub open spec fn rev_rest(ds: Seq<nat>, k: int, base: nat) -> Seq<int>
    decreases k + 1, 1int,
{
    let back = match prev_of(ds, k) {
        Some(j) => mirror(ds, j),
        None => Seq::empty(),
    };
    back + rev_climb(ds, k, base)
}

/// What a reverse walk visits after the node at `k` and its earlier
/// siblings: what comes after the parent of `k`, if `k` is below the level
/// `base`.
pub open spec fn rev_climb(ds: Seq<nat>, k: int, base: nat) -> Seq<int>
    decreases k + 1, 0int,
{
    if 0 <= k < ds.len() && ds[k] > base {
        match parent_of(ds, k) {
            Some(p) => {
                proof {
                    lemma_bwd(ds, k - 1, (ds[k] - 1) as nat);
                }
                rev_rest(ds, p, base)
            },
            None => Seq::empty(),
        }
    } else {
        Seq::empty()
    }
}

/// An iterator that walks a run of siblings backwards, from the last one:
/// each node comes before the nodes inside it, and the children of a node
/// are walked from the last one.
///
/// See [`Children::walk_rev`][crate::node::Children::walk_rev].
pub struct WalkRev<'a, T, I: Index, W: Width> {
    /// The current node, and whether it is yet to be produced (else what is
    /// inside it is done).
    node: Option<(Node<'a, T, I, W>, bool)>,
    /// The number of levels the current node is below the level the walk
    /// started at.
    depth: usize,
    /// The depth of the level the walk started at.
    base: Ghost<nat>,
}

impl<'a, T, I: Index, W: Width> WalkRev<'a, T, I, W> {
    /// The depth counts the levels below the starting level.
    #[verifier::type_invariant]
    closed spec fn inv(&self) -> bool {
        self.node matches Some((n, down)) ==> {
            &&& n.tree().depths()[n.pos()] >= self.base@
            &&& self.depth == n.tree().depths()[n.pos()] - self.base@
        }
    }

    /// Walk backwards from `node`, at its level.
    pub(crate) fn new(node: Option<Node<'a, T, I, W>>) -> (r: Self)
        ensures
            r.remaining() == match node {
                Some(n) => mirror(n.tree().depths(), n.pos()).map_values(|k: int| n.at(k)),
                None => Seq::empty(),
            },
    {
        match node {
            Some(n) => {
                proof {
                    use_type_invariant(&n);
                    n.lemma_inv();
                    n.tree().lemma_inv();
                    let ds = n.tree().depths();
                    assert(rev_climb(ds, n.pos(), ds[n.pos()]) == Seq::<int>::empty());
                    assert(mirror(ds, n.pos()) + Seq::<int>::empty() =~= mirror(ds, n.pos()));
                }
                WalkRev { node: Some((n, true)), depth: 0, base: Ghost(n.tree().depths()[n.pos()]) }
            },
            None => WalkRev { node: None, depth: 0, base: Ghost(0) },
        }
    }

    /// How far the walk is from producing its next node: when done with a
    /// node it climbs out of the levels below.
    closed spec fn climb_rank(&self) -> nat {
        match self.node {
            Some((n, false)) => n.tree().depths()[n.pos()] + 1,
            _ => 0,
        }
    }

    /// The positions the walk has yet to visit.
    closed spec fn rest_positions(&self) -> Seq<int> {
        match self.node {
            Some((n, down)) => {
                let ds = n.tree().depths();
                if down {
                    mirror(ds, n.pos()) + rev_climb(ds, n.pos(), self.base@)
                } else {
                    rev_rest(ds, n.pos(), self.base@)
                }
            },
            None => Seq::empty(),
        }
    }
}

impl<'a, T, I: Index, W: Width> NodeIterator<'a, T, I, W> for WalkRev<'a, T, I, W> {
    closed spec fn remaining(&self) -> Seq<Node<'a, T, I, W>> {
        match self.node {
            Some((n, down)) => self.rest_positions().map_values(|k: int| n.at(k)),
            None => Seq::empty(),
        }
    }

    fn next(&mut self) -> (r: Option<Node<'a, T, I, W>>) {
        loop
            invariant
                self.remaining() == old(self).remaining(),
            decreases self.remaining().len(), self.climb_rank(),
        {
            proof {
                use_type_invariant(&*self);
            }
            let (x, down) = match self.node {
                Some(s) => s,
                None => {
                    return None;
                },
            };
            proof {
                use_type_invariant(&x);
                x.lemma_inv();
                x.tree().lemma_inv();
            }
            let ghost ds = x.tree().depths();
            let ghost k = x.pos();
            let ghost base = self.base@;
            let ghost before = self.rest_positions();
            if down {
                match x.last() {
                    Some(c) => {
                        proof {
                            lemma_last_child(ds, k);
                            let cp = last_of(ds, k).unwrap();
                            assert(valid_depths(ds));
                            assert(0 <= k < ds.len());
                            lemma_mirror_unfold(ds, k);
                            assert(c.pos() == cp);
                            assert(rev_climb(ds, cp, base) == rev_rest(ds, k, base));
                            assert(mirror(ds, k) == seq![k] + mirror(ds, cp) + match prev_of(ds, k) {
                                Some(j) => mirror(ds, j),
                                None => Seq::<int>::empty(),
                            });
                        }
                        *self = WalkRev { node: Some((c, true)), depth: self.depth + 1, base: self.base };
                        proof {
                            let cp = last_of(ds, k).unwrap();
                            assert(before =~= seq![k] + self.rest_positions());
                            assert(self.remaining() =~= old(self).remaining().drop_first()) by {
                                assert forall|i: int| 0 <= i < self.rest_positions().len() implies #[trigger] c.at(
                                    self.rest_positions()[i],
                                ) == x.at(self.rest_positions()[i]) by {
                                }
                            }
                        }
                    },
                    None => {
                        self.node = Some((x, false));
                        proof {
                            lemma_mirror_unfold(ds, k);
                            assert(mirror(ds, k) == seq![k] + Seq::<int>::empty() + match prev_of(ds, k) {
                                Some(j) => mirror(ds, j),
                                None => Seq::<int>::empty(),
                            });
                            assert(before =~= seq![k] + self.rest_positions());
                            assert(self.remaining() =~= old(self).remaining().drop_first());
                        }
                    },
                }
                return Some(x);
            }
            match x.prev() {
                Some(y) => {
                    proof {
                        lemma_prev(ds, k);
                        let yp = prev_of(ds, k).unwrap();
                        assert(y.pos() == yp);
                        assert(rev_climb(ds, yp, base) == rev_climb(ds, k, base));
                    }
                    self.node = Some((y, true));
                    proof {
                        assert(self.rest_positions() =~= before);
                        assert(self.remaining() =~= old(self).remaining()) by {
                            assert forall|i: int| 0 <= i < before.len() implies #[trigger] y.at(before[i]) == x.at(
                                before[i],
                            ) by {
                            }
                        }
                    }
                },
                None => {
                    if self.depth > 0 {
                        proof {
                            lemma_parent(ds, k);
                        }
                        match x.parent() {
                            Some(p) => {
                                proof {
                                    let pp = parent_of(ds, k).unwrap();
                                    assert(p.pos() == pp);
                                    assert(rev_climb(ds, k, base) == rev_rest(ds, pp, base));
                                }
                                *self = WalkRev { node: Some((p, false)), depth: self.depth - 1, base: self.base };
                                proof {
                                    assert(self.rest_positions() =~= before);
                                    assert(self.remaining() =~= old(self).remaining()) by {
                                        assert forall|i: int| 0 <= i < before.len() implies #[trigger] p.at(before[i])
                                            == x.at(before[i]) by {
                                        }
                                    }
                                }
                            },
                            None => {
                                self.node = None;
                            },
                        }
                    } else {
                        self.node = None;
                        proof {
                            assert(before =~= Seq::<int>::empty());
                        }
                    }
                },
            }
        }
    }
}


/// Without a previous sibling, a node starts its run of siblings.
proof fn lemma_first_of_run(ds: Seq<nat>, k: int)
    requires
        valid_depths(ds),
        0 <= k < ds.len(),
        prev_of(ds, k) is None,
    ensures
        sib_start(ds, k) == k,
{
    let d = ds[k];
    lemma_bwd(ds, k - 1, d);
    if d == 0 {
        if k > 0 {
            assert(ds[k - 1] >= 0);
        }
    } else {
        lemma_parent(ds, k);
        let p = parent_of(ds, k).unwrap();
        if k > p + 1 {
            assert(crate::shape::step_ok(ds, p));
            assert(ds[p + 1] >= d);
            assert(ds[p + 1] == d);
        }
    }
}

/// A sequence of distinct positions covering `a..b` exactly.
pub open spec fn covers(s: Seq<int>, a: int, b: int) -> bool {
    &&& s.no_duplicates()
    &&& forall|j: int| #[trigger] s.contains(j) <==> a <= j < b
}

/// Joining sequences that cover adjacent ranges covers their union.
proof fn lemma_covers_join(s: Seq<int>, t: Seq<int>, a: int, m: int, b: int)
    requires
        a <= m <= b,
        covers(s, a, m),
        covers(t, m, b),
    ensures
        covers(s + t, a, b),
{
    let u = s + t;
    assert forall|j: int| #[trigger] u.contains(j) implies a <= j < b by {
        let i = choose|i: int| 0 <= i < u.len() && u[i] == j;
        if i < s.len() {
            assert(u[i] == s[i]);
            assert(s.contains(s[i]));
        } else {
            assert(u[i] == t[i - s.len()]);
            assert(t.contains(t[i - s.len()]));
        }
    }
    assert forall|j: int| a <= j < b implies #[trigger] u.contains(j) by {
        if j < m {
            assert(s.contains(j));
            let i = choose|i: int| 0 <= i < s.len() && s[i] == j;
            assert(u[i] == s[i]);
        } else {
            assert(t.contains(j));
            let i = choose|i: int| 0 <= i < t.len() && t[i] == j;
            assert(u[s.len() + i] == t[i]);
        }
    }
    assert forall|i: int, k: int| 0 <= i < u.len() && 0 <= k < u.len() && i != k implies u[i] != u[k] by {
        if i < s.len() && k < s.len() {
            assert(u[i] == s[i] && u[k] == s[k]);
        } else if i >= s.len() && k >= s.len() {
            assert(u[i] == t[i - s.len()]);
            assert(u[k] == t[k - s.len()]);
        } else if i < s.len() {
            assert(u[i] == s[i] && u[k] == t[k - s.len()]);
            assert(s.contains(s[i]));
            assert(t.contains(t[k - s.len()]));
        } else {
            assert(u[k] == s[k] && u[i] == t[i - s.len()]);
            assert(s.contains(s[k]));
            assert(t.contains(t[i - s.len()]));
        }
    }
}

/// Covering does not depend on the order of two parts.
proof fn lemma_covers_swap(s: Seq<int>, t: Seq<int>, a: int, b: int)
    requires
        covers(s + t, a, b),
    ensures
        covers(t + s, a, b),
{
    let u = s + t;
    let v = t + s;
    assert forall|j: int| #[trigger] v.contains(j) implies u.contains(j) by {
        let i = choose|i: int| 0 <= i < v.len() && v[i] == j;
        if i < t.len() {
            assert(v[i] == t[i]);
            assert(u[s.len() + i] == t[i]);
        } else {
            assert(v[i] == s[i - t.len()]);
            assert(u[i - t.len()] == s[i - t.len()]);
        }
    }
    assert forall|j: int| #[trigger] u.contains(j) implies v.contains(j) by {
        let i = choose|i: int| 0 <= i < u.len() && u[i] == j;
        if i < s.len() {
            assert(u[i] == s[i]);
            assert(v[t.len() + i] == s[i]);
        } else {
            assert(u[i] == t[i - s.len()]);
            assert(v[i - s.len()] == t[i - s.len()]);
        }
    }
    assert forall|j: int| #[trigger] v.contains(j) <==> a <= j < b by {
        assert(u.contains(j) <==> a <= j < b);
        if v.contains(j) {
            assert(u.contains(j));
        }
        if u.contains(j) {
            assert(v.contains(j));
        }
    }
    assert forall|i: int, m: int| 0 <= i < v.len() && 0 <= m < v.len() && i != m implies v[i] != v[m] by {
        let ui = if i < t.len() { s.len() + i } else { i - t.len() };
        let um = if m < t.len() { s.len() + m } else { m - t.len() };
        if i < t.len() {
            assert(v[i] == t[i] && u[ui] == t[i]);
        } else {
            assert(v[i] == s[i - t.len()] && u[ui] == s[i - t.len()]);
        }
        if m < t.len() {
            assert(v[m] == t[m] && u[um] == t[m]);
        } else {
            assert(v[m] == s[m - t.len()] && u[um] == s[m - t.len()]);
        }
        assert(u[ui] != u[um]);
    }
}

/// A reverse walk from a node visits every node of its run of siblings up
/// to and including it, and everything inside them, each exactly once.
pub proof fn lemma_mirror_covers(ds: Seq<nat>, k: int)
    requires
        valid_depths(ds),
        0 <= k < ds.len(),
    ensures
        covers(mirror(ds, k), sib_start(ds, k), sub_end(ds, k)),
    decreases sub_end(ds, k) - sib_start(ds, k),
{
    lemma_mirror_unfold(ds, k);
    lemma_sub_end(ds, k);
    if ds[k] > 0 {
        lemma_parent(ds, k);
    }
    let down = match last_of(ds, k) {
        Some(c) => mirror(ds, c),
        None => Seq::<int>::empty(),
    };
    let back = match prev_of(ds, k) {
        Some(j) => mirror(ds, j),
        None => Seq::<int>::empty(),
    };
    match last_of(ds, k) {
        Some(c) => {
            lemma_last_child(ds, k);
            lemma_mirror_covers(ds, c);
        },
        None => {
            crate::shape::lemma_leaf_sub_end(ds, k);
            assert(covers(down, k + 1, sub_end(ds, k)));
        },
    }
    match prev_of(ds, k) {
        Some(j) => {
            lemma_prev(ds, k);
            lemma_mirror_covers(ds, j);
        },
        None => {
            lemma_first_of_run(ds, k);
            assert(covers(back, sib_start(ds, k), k));
        },
    }
    assert(covers(seq![k], k, k + 1)) by {
        assert forall|j: int| #[trigger] seq![k].contains(j) <==> k <= j < k + 1 by {
            if j == k {
                assert(seq![k][0] == k);
            }
        }
    }
    lemma_covers_join(seq![k], down, k, k + 1, sub_end(ds, k));
    lemma_covers_join(back, seq![k] + down, sib_start(ds, k), k, sub_end(ds, k));
    lemma_covers_swap(back, seq![k] + down, sib_start(ds, k), sub_end(ds, k));
}

} // verus!
