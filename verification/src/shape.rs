//! The shape of a forest, given by the depths of its nodes in preorder.
//!
//! A forest listed in preorder is determined by the depth of each node: the
//! first node has depth zero and each node is at most one level deeper than
//! the node before it. Every link of a node (parent, siblings, children) is a
//! function of this sequence, which is what the tree's invariants are stated
//! over.

use vstd::prelude::*;

verus! {

/// Node `k + 1` is at most one level deeper than node `k`.
pub open spec fn step_ok(ds: Seq<nat>, k: int) -> bool {
    ds[k + 1] <= ds[k] + 1
}

/// A valid depth sequence of a forest in preorder.
pub open spec fn valid_depths(ds: Seq<nat>) -> bool {
    &&& ds.len() > 0 ==> ds[0] == 0
    &&& forall|k: int| 0 <= k < ds.len() - 1 ==> #[trigger] step_ok(ds, k)
}

/// The first position at or after `j` whose depth is at most `d`, or the
/// length of the sequence if there is none.
pub open spec fn fwd(ds: Seq<nat>, j: int, d: nat) -> int
    decreases ds.len() - j,
{
    if j >= ds.len() {
        ds.len() as int
    } else if ds[j] <= d {
        j
    } else {
        fwd(ds, j + 1, d)
    }
}

/// The last position at or before `j` whose depth is at most `d`, or `-1` if
/// there is none.
pub open spec fn bwd(ds: Seq<nat>, j: int, d: nat) -> int
    decreases j + 1,
{
    if j < 0 {
        -1
    } else if ds[j] <= d {
        j
    } else {
        bwd(ds, j - 1, d)
    }
}

/// One past the last position in the subtree rooted at `k`.
pub open spec fn sub_end(ds: Seq<nat>, k: int) -> int {
    fwd(ds, k + 1, ds[k])
}

/// The next sibling of `k`.
pub open spec fn next_of(ds: Seq<nat>, k: int) -> Option<int> {
    let e = sub_end(ds, k);
    if e < ds.len() && ds[e] == ds[k] {
        Some(e)
    } else {
        None
    }
}

/// The previous sibling of `k`.
pub open spec fn prev_of(ds: Seq<nat>, k: int) -> Option<int> {
    let b = bwd(ds, k - 1, ds[k]);
    if b >= 0 && ds[b] == ds[k] {
        Some(b)
    } else {
        None
    }
}

/// The parent of `k`.
pub open spec fn parent_of(ds: Seq<nat>, k: int) -> Option<int> {
    if ds[k] == 0 {
        None
    } else {
        Some(bwd(ds, k - 1, (ds[k] - 1) as nat))
    }
}

/// The first child of `k`.
pub open spec fn first_of(ds: Seq<nat>, k: int) -> Option<int> {
    if k + 1 < ds.len() && ds[k + 1] == ds[k] + 1 {
        Some(k + 1)
    } else {
        None
    }
}

/// The last child of `k`.
pub open spec fn last_of(ds: Seq<nat>, k: int) -> Option<int> {
    if first_of(ds, k) is Some {
        Some(bwd(ds, sub_end(ds, k) - 1, ds[k] + 1))
    } else {
        None
    }
}

/// The first root of the forest.
pub open spec fn first_root(ds: Seq<nat>) -> Option<int> {
    if ds.len() > 0 {
        Some(0)
    } else {
        None
    }
}

/// The last root of the forest.
pub open spec fn last_root(ds: Seq<nat>) -> Option<int> {
    if ds.len() > 0 {
        Some(bwd(ds, ds.len() - 1, 0))
    } else {
        None
    }
}

/// The positions of the forest in order, from `a` up to but excluding `b`.
pub open spec fn range_seq(a: int, b: int) -> Seq<int> {
    Seq::new(if b >= a { (b - a) as nat } else { 0 }, |i: int| a + i)
}

/// The positions from `a` to `b` inclusive whose depth is `d`.
pub open spec fn level_seq(ds: Seq<nat>, a: int, b: int, d: nat) -> Seq<int>
    decreases b - a + 1,
{
    if a > b {
        Seq::empty()
    } else if ds[a] == d {
        seq![a].add(level_seq(ds, a + 1, b, d))
    } else {
        level_seq(ds, a + 1, b, d)
    }
}

/// What `fwd` computes: the first position at or after `j` with depth at most
/// `d`.
pub proof fn lemma_fwd(ds: Seq<nat>, j: int, d: nat)
    requires
        0 <= j <= ds.len(),
    ensures
        j <= fwd(ds, j, d) <= ds.len(),
        forall|m: int| j <= m < fwd(ds, j, d) ==> ds[m] > d,
        fwd(ds, j, d) < ds.len() ==> ds[fwd(ds, j, d)] <= d,
    decreases ds.len() - j,
{
    if j < ds.len() && ds[j] > d {
        lemma_fwd(ds, j + 1, d);
    }
}

/// A position with the properties of `fwd` is the one it computes.
pub proof fn lemma_fwd_unique(ds: Seq<nat>, j: int, d: nat, r: int)
    requires
        0 <= j <= r <= ds.len(),
        forall|m: int| j <= m < r ==> ds[m] > d,
        r < ds.len() ==> ds[r] <= d,
    ensures
        fwd(ds, j, d) == r,
    decreases ds.len() - j,
{
    if j < r {
        lemma_fwd_unique(ds, j + 1, d, r);
    }
}

/// What `bwd` computes: the last position at or before `j` with depth at most
/// `d`.
pub proof fn lemma_bwd(ds: Seq<nat>, j: int, d: nat)
    requires
        -1 <= j < ds.len(),
    ensures
        -1 <= bwd(ds, j, d) <= j,
        forall|m: int| bwd(ds, j, d) < m <= j ==> ds[m] > d,
        bwd(ds, j, d) >= 0 ==> ds[bwd(ds, j, d)] <= d,
    decreases j + 1,
{
    if j >= 0 && ds[j] > d {
        lemma_bwd(ds, j - 1, d);
    }
}

/// A position with the properties of `bwd` is the one it computes.
pub proof fn lemma_bwd_unique(ds: Seq<nat>, j: int, d: nat, r: int)
    requires
        -1 <= r <= j < ds.len(),
        forall|m: int| r < m <= j ==> ds[m] > d,
        r >= 0 ==> ds[r] <= d,
    ensures
        bwd(ds, j, d) == r,
    decreases j + 1,
{
    if r < j {
        lemma_bwd_unique(ds, j - 1, d, r);
    }
}

/// Going backwards in a valid depth sequence from a position at depth at
/// least `d`, the first position at depth at most `d` is exactly at depth
/// `d`.
pub proof fn lemma_bwd_exact(ds: Seq<nat>, j: int, d: nat)
    requires
        valid_depths(ds),
        0 <= j < ds.len(),
        d <= ds[j],
    ensures
        0 <= bwd(ds, j, d) <= j,
        ds[bwd(ds, j, d)] == d,
    decreases j,
{
    if ds[j] > d {
        assert(j > 0);
        assert(step_ok(ds, j - 1));
        lemma_bwd_exact(ds, j - 1, d);
    }
}

/// The parent of a node comes before it, one level up.
pub proof fn lemma_parent(ds: Seq<nat>, k: int)
    requires
        valid_depths(ds),
        0 <= k < ds.len(),
        ds[k] > 0,
    ensures
        parent_of(ds, k) matches Some(p) && 0 <= p < k && ds[p] + 1 == ds[k],
        forall|m: int| parent_of(ds, k).unwrap() < m < k ==> ds[m] >= ds[k],
{
    assert(k > 0);
    assert(step_ok(ds, k - 1));
    lemma_bwd_exact(ds, k - 1, (ds[k] - 1) as nat);
    lemma_bwd(ds, k - 1, (ds[k] - 1) as nat);
}

/// The subtree of `k` ends after `k`, and every node in it is deeper.
pub proof fn lemma_sub_end(ds: Seq<nat>, k: int)
    requires
        0 <= k < ds.len(),
    ensures
        k < sub_end(ds, k) <= ds.len(),
        forall|m: int| k < m < sub_end(ds, k) ==> ds[m] > ds[k],
        sub_end(ds, k) < ds.len() ==> ds[sub_end(ds, k)] <= ds[k],
{
    lemma_fwd(ds, k + 1, ds[k]);
}

/// A node without children ends its subtree right after itself.
pub proof fn lemma_leaf_sub_end(ds: Seq<nat>, k: int)
    requires
        valid_depths(ds),
        0 <= k < ds.len(),
        first_of(ds, k) is None,
    ensures
        sub_end(ds, k) == k + 1,
{
    if k + 1 < ds.len() {
        assert(step_ok(ds, k));
    }
    lemma_fwd_unique(ds, k + 1, ds[k], k + 1);
}

/// A node whose next sibling is `j` ends its subtree at `j`.
pub proof fn lemma_next_sub_end(ds: Seq<nat>, k: int)
    requires
        0 <= k < ds.len(),
        next_of(ds, k) is Some,
    ensures
        next_of(ds, k).unwrap() == sub_end(ds, k),
        k < sub_end(ds, k) < ds.len(),
        ds[sub_end(ds, k)] == ds[k],
{
    lemma_sub_end(ds, k);
}

/// The last child of a node ends the subtree of the node: if a node has no
/// next sibling, its subtree ends where the subtree of its parent does.
pub proof fn lemma_no_next_parent_sub_end(ds: Seq<nat>, k: int)
    requires
        valid_depths(ds),
        0 <= k < ds.len(),
        ds[k] > 0,
        next_of(ds, k) is None,
    ensures
        sub_end(ds, parent_of(ds, k).unwrap()) == sub_end(ds, k),
{
    let p = parent_of(ds, k).unwrap();
    lemma_parent(ds, k);
    lemma_sub_end(ds, k);
    let e = sub_end(ds, k);
    if e < ds.len() {
        assert(ds[e] < ds[k]);
        assert(ds[e] <= ds[p]);
    }
    assert forall|m: int| p + 1 <= m < e implies ds[m] > ds[p] by {
        if m < k {
        } else if m > k {
        }
    }
    lemma_fwd_unique(ds, p + 1, ds[p], e);
}

/// Looking backwards from a position inside a sequence is unaffected by what
/// is pushed at its end.
pub proof fn lemma_bwd_push(ds: Seq<nat>, x: nat, j: int, d: nat)
    requires
        -1 <= j < ds.len(),
    ensures
        bwd(ds.push(x), j, d) == bwd(ds, j, d),
    decreases j + 1,
{
    if j >= 0 {
        assert(ds.push(x)[j] == ds[j]);
        lemma_bwd_push(ds, x, j - 1, d);
    }
}

/// Looking forwards from a position inside a sequence finds the pushed
/// element only if nothing before it qualifies.
pub proof fn lemma_fwd_push(ds: Seq<nat>, x: nat, j: int, d: nat)
    requires
        0 <= j <= ds.len(),
    ensures
        fwd(ds.push(x), j, d) == if fwd(ds, j, d) < ds.len() {
            fwd(ds, j, d)
        } else if x <= d {
            ds.len() as int
        } else {
            ds.len() + 1int
        },
    decreases ds.len() - j,
{
    if j < ds.len() {
        assert(ds.push(x)[j] == ds[j]);
        lemma_fwd_push(ds, x, j + 1, d);
    } else {
        assert(ds.push(x)[j] == x);
        assert(fwd(ds.push(x), j + 1, d) == ds.len() + 1);
    }
}


/// One past the last sibling of `k`: the first later position that is
/// shallower than `k`, or the end of the sequence.
pub open spec fn sib_end(ds: Seq<nat>, k: int) -> int {
    if ds[k] == 0 {
        ds.len() as int
    } else {
        fwd(ds, k + 1, (ds[k] - 1) as nat)
    }
}

/// The last sibling of `k` (`k` itself if it has no next sibling).
pub open spec fn final_sibling(ds: Seq<nat>, k: int) -> int {
    bwd(ds, sib_end(ds, k) - 1, ds[k])
}

/// The positions `a..=b` are a run of siblings: both ends are at the same
/// depth and nothing between them is shallower.
pub open spec fn sib_range(ds: Seq<nat>, a: int, b: int) -> bool {
    &&& 0 <= a <= b < ds.len()
    &&& ds[a] == ds[b]
    &&& forall|m: int| a <= m <= b ==> #[trigger] ds[m] >= ds[a]
}

/// Positions at other depths can be skipped at the front.
pub proof fn lemma_level_skip(ds: Seq<nat>, a: int, c: int, b: int, d: nat)
    requires
        a <= c,
        forall|m: int| a <= m < c ==> #[trigger] ds[m] != d,
    ensures
        level_seq(ds, a, b, d) == level_seq(ds, c, b, d),
    decreases c - a,
{
    if a < c {
        lemma_level_skip(ds, a + 1, c, b, d);
    }
}

/// Taking a position off the back.
pub proof fn lemma_level_back(ds: Seq<nat>, a: int, b: int, d: nat)
    requires
        a <= b,
    ensures
        level_seq(ds, a, b, d) == level_seq(ds, a, b - 1, d) + if ds[b] == d {
            seq![b]
        } else {
            Seq::<int>::empty()
        },
    decreases b - a,
{
    if a < b {
        lemma_level_back(ds, a + 1, b, d);
        if ds[a] == d {
            assert(level_seq(ds, a, b, d) == seq![a] + level_seq(ds, a + 1, b, d));
            assert(level_seq(ds, a, b - 1, d) == seq![a] + level_seq(ds, a + 1, b - 1, d));
            assert((seq![a] + level_seq(ds, a + 1, b - 1, d)) + (if ds[b] == d {
                seq![b]
            } else {
                Seq::<int>::empty()
            }) =~= seq![a] + (level_seq(ds, a + 1, b - 1, d) + if ds[b] == d {
                seq![b]
            } else {
                Seq::<int>::empty()
            }));
        }
    } else {
        assert(level_seq(ds, a, b - 1, d) == Seq::<int>::empty());
        assert(level_seq(ds, a + 1, b, d) == Seq::<int>::empty());
        if ds[b] == d {
            assert(level_seq(ds, a, b, d) =~= seq![b]);
        } else {
            assert(level_seq(ds, a, b, d) =~= Seq::<int>::empty());
        }
    }
}

/// Positions at other depths can be skipped at the back.
pub proof fn lemma_level_skip_back(ds: Seq<nat>, a: int, c: int, b: int, d: nat)
    requires
        a - 1 <= c <= b,
        forall|m: int| c < m <= b ==> #[trigger] ds[m] != d,
    ensures
        level_seq(ds, a, b, d) == level_seq(ds, a, c, d),
    decreases b - c,
{
    if c < b {
        lemma_level_back(ds, a, b, d);
        assert(level_seq(ds, a, b - 1, d) + Seq::<int>::empty() =~= level_seq(ds, a, b - 1, d));
        lemma_level_skip_back(ds, a, c, b - 1, d);
    }
}

/// The elements of a level sequence: increasing positions in `a..=b`, all at
/// depth `d`, and every such position is one of them.
pub proof fn lemma_level_elems(ds: Seq<nat>, a: int, b: int, d: nat)
    ensures
        forall|i: int| 0 <= i < level_seq(ds, a, b, d).len() ==> a <= #[trigger] level_seq(ds, a, b, d)[i] <= b
            && ds[level_seq(ds, a, b, d)[i]] == d,
        forall|i: int, j: int| 0 <= i < j < level_seq(ds, a, b, d).len() ==> #[trigger] level_seq(ds, a, b, d)[i]
            < #[trigger] level_seq(ds, a, b, d)[j],
        forall|m: int| a <= m <= b && ds[m] == d ==> level_seq(ds, a, b, d).contains(m),
    decreases b - a + 1,
{
    if a <= b {
        lemma_level_elems(ds, a + 1, b, d);
        let r = level_seq(ds, a + 1, b, d);
        if ds[a] == d {
            let l = seq![a] + r;
            assert(level_seq(ds, a, b, d) == l);
            assert forall|i: int| 0 <= i < l.len() implies a <= #[trigger] l[i] <= b && ds[l[i]] == d by {
                if i > 0 {
                    assert(l[i] == r[i - 1]);
                }
            }
            assert forall|i: int, j: int| 0 <= i < j < l.len() implies #[trigger] l[i] < #[trigger] l[j] by {
                assert(l[j] == r[j - 1]);
                if i > 0 {
                    assert(l[i] == r[i - 1]);
                }
            }
            assert forall|m: int| a <= m <= b && ds[m] == d implies l.contains(m) by {
                if m == a {
                    assert(l[0] == a);
                } else {
                    let i = choose|i: int| 0 <= i < r.len() && r[i] == m;
                    assert(l[i + 1] == m);
                }
            }
        }
    }
}

/// The run of siblings from `k` on: it ends at the last sibling, and the
/// next sibling of `k` (if any) starts the rest of the run.
pub proof fn lemma_siblings(ds: Seq<nat>, k: int)
    requires
        valid_depths(ds),
        0 <= k < ds.len(),
    ensures
        k < sib_end(ds, k) <= ds.len(),
        forall|m: int| k <= m < sib_end(ds, k) ==> #[trigger] ds[m] >= ds[k],
        sib_range(ds, k, final_sibling(ds, k)),
        next_of(ds, k) is None <==> final_sibling(ds, k) == k,
        next_of(ds, k) matches Some(j) ==> k < j <= final_sibling(ds, k) && final_sibling(ds, j) == final_sibling(ds, k)
            && sib_end(ds, j) == sib_end(ds, k) && forall|m: int| k < m < j ==> #[trigger] ds[m] > ds[k],
        level_seq(ds, k + 1, final_sibling(ds, k), ds[k]) == match next_of(ds, k) {
            Some(j) => level_seq(ds, j, final_sibling(ds, k), ds[k]),
            None => Seq::<int>::empty(),
        },
{
    let d = ds[k];
    let n = ds.len() as int;
    let e_ = sib_end(ds, k);
    if d > 0 {
        lemma_fwd(ds, k + 1, (d - 1) as nat);
    }
    assert forall|m: int| k <= m < e_ implies #[trigger] ds[m] >= d by {
    }
    let f = final_sibling(ds, k);
    lemma_bwd(ds, e_ - 1, d);
    let se = sub_end(ds, k);
    lemma_sub_end(ds, k);
    // The subtree of `k` ends no later than its run of siblings.
    if se > e_ {
        assert(ds[e_] > d);
        assert(ds[e_] <= d - 1);
    }
    assert(se <= e_);
    if se < e_ {
        assert(ds[se] == d);
        assert(next_of(ds, k) == Some(se));
        lemma_bwd(ds, e_ - 1, d);
        assert(f >= se);
        // The rest of the run from the next sibling.
        if d > 0 {
            assert forall|m: int| se + 1 <= m < e_ implies ds[m] > (d - 1) as nat by {
            }
            lemma_fwd_unique(ds, se + 1, (d - 1) as nat, e_);
        }
        lemma_level_skip(ds, k + 1, se, f, d);
    } else {
        assert(next_of(ds, k) is None) by {
            if se < n {
                assert(ds[se] < d) by {
                    if d > 0 {
                        lemma_fwd(ds, k + 1, (d - 1) as nat);
                    }
                }
            }
        }
        lemma_bwd_unique(ds, e_ - 1, d, k);
        assert(level_seq(ds, k + 1, f, d) == Seq::<int>::empty());
    }
}


/// A node is no deeper than its position.
pub proof fn lemma_depth_bound(ds: Seq<nat>)
    requires
        valid_depths(ds),
    ensures
        forall|k: int| 0 <= k < ds.len() ==> #[trigger] ds[k] <= k,
{
    assert forall|k: int| 0 <= k < ds.len() implies #[trigger] ds[k] <= k by {
        lemma_depth_bound_at(ds, k);
    }
}

proof fn lemma_depth_bound_at(ds: Seq<nat>, k: int)
    requires
        valid_depths(ds),
        0 <= k < ds.len(),
    ensures
        ds[k] <= k,
    decreases k,
{
    if k > 0 {
        assert(step_ok(ds, k - 1));
        lemma_depth_bound_at(ds, k - 1);
    }
}


/// The first position of the run of siblings of `k`: right after its
/// parent, or the start of the sequence for a root.
pub open spec fn sib_start(ds: Seq<nat>, k: int) -> int {
    match parent_of(ds, k) {
        Some(p) => p + 1,
        None => 0,
    }
}

/// The previous sibling of a node ends its subtree right before the node and
/// has the same parent.
pub proof fn lemma_prev(ds: Seq<nat>, k: int)
    requires
        valid_depths(ds),
        0 <= k < ds.len(),
        prev_of(ds, k) is Some,
    ensures
        prev_of(ds, k) matches Some(j) && 0 <= j < k && ds[j] == ds[k] && sub_end(ds, j) == k && parent_of(ds, j)
            == parent_of(ds, k) && sib_start(ds, j) == sib_start(ds, k),
        forall|m: int| prev_of(ds, k).unwrap() < m < k ==> #[trigger] ds[m] > ds[k],
{
    let j = prev_of(ds, k).unwrap();
    lemma_bwd(ds, k - 1, ds[k]);
    lemma_fwd_unique(ds, j + 1, ds[j], k);
    if ds[k] > 0 {
        let d = (ds[k] - 1) as nat;
        lemma_bwd(ds, j - 1, d);
        lemma_bwd_unique(ds, k - 1, d, bwd(ds, j - 1, d));
    }
}

/// The last child of a node is a child of it, and its subtree ends where
/// the subtree of the node does.
pub proof fn lemma_last_child(ds: Seq<nat>, k: int)
    requires
        valid_depths(ds),
        0 <= k < ds.len(),
        last_of(ds, k) is Some,
    ensures
        last_of(ds, k) matches Some(c) && k < c < sub_end(ds, k) && ds[c] == ds[k] + 1 && parent_of(ds, c) == Some(k)
            && sib_start(ds, c) == k + 1 && sub_end(ds, c) == sub_end(ds, k),
{
    let c = last_of(ds, k).unwrap();
    let e = sub_end(ds, k);
    crate::grow::lemma_last_range_pub(ds, k);
    crate::grow::lemma_last_parent(ds, k);
    lemma_sub_end(ds, k);
    lemma_bwd(ds, e - 1, ds[k] + 1);
    assert forall|m: int| c + 1 <= m < e implies ds[m] > ds[c] by {
    }
    lemma_fwd_unique(ds, c + 1, ds[c], e);
}


/// Subtrees nest: the subtree of a node inside the subtree of `k` ends no
/// later than the subtree of `k`.
pub proof fn lemma_subtree_nested(ds: Seq<nat>, k: int, j: int)
    requires
        valid_depths(ds),
        0 <= k <= j < sub_end(ds, k),
    ensures
        sub_end(ds, j) <= sub_end(ds, k),
        ds[j] >= ds[k],
{
    lemma_sub_end(ds, k);
    lemma_sub_end(ds, j);
    let e = sub_end(ds, k);
    if j > k {
        assert(ds[j] > ds[k]);
    }
    if sub_end(ds, j) > e && e < ds.len() {
        assert(ds[e] > ds[j]);
    }
}

/// A node lies inside the subtree of its parent.
pub proof fn lemma_in_parent(ds: Seq<nat>, k: int)
    requires
        valid_depths(ds),
        0 <= k < ds.len(),
        ds[k] > 0,
    ensures
        parent_of(ds, k) matches Some(p) && 0 <= p < k < sub_end(ds, p) && ds[p] + 1 == ds[k],
{
    lemma_parent(ds, k);
    let p = parent_of(ds, k).unwrap();
    lemma_sub_end(ds, p);
    let e = sub_end(ds, p);
    if e <= k {
        assert(ds[e] <= ds[p]);
        if e < k {
            assert(ds[e] >= ds[k]);
        }
    }
}

} // verus!
