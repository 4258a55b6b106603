//! Spans of a finished tree nest: every node covers the nodes below it.
//!
//! A finished tree links its spans by two rules: a node starts where its
//! predecessor in preorder starts (if that is its parent) or ends (if not),
//! and a node with children ends where its last child ends. From these the
//! span of a node covers the span of every node in its subtree.

use vstd::prelude::*;

use crate::shape::{first_of, fwd, last_of, lemma_bwd, lemma_fwd_unique, lemma_sub_end, step_ok, sub_end, valid_depths};

verus! {

/// The span rules of a finished tree, over the start and end positions of
/// its nodes in preorder.
pub open spec fn linked_spans(ds: Seq<nat>, st: Seq<nat>, en: Seq<nat>) -> bool {
    &&& valid_depths(ds)
    &&& st.len() == ds.len()
    &&& en.len() == ds.len()
    &&& forall|k: int| 0 <= k < ds.len() - 1 ==> #[trigger] st[k + 1] == if first_of(ds, k) is Some {
        st[k]
    } else {
        en[k]
    }
    &&& forall|k: int| 0 <= k < ds.len() ==> match #[trigger] last_of(ds, k) {
        None => st[k] <= en[k],
        Some(c) => en[k] == en[c],
    }
}

/// The subtree of the last child of a node ends where the subtree of the
/// node does.
proof fn lemma_last_child_sub_end(ds: Seq<nat>, k: int)
    requires
        valid_depths(ds),
        0 <= k < ds.len(),
        last_of(ds, k) is Some,
    ensures
        sub_end(ds, last_of(ds, k).unwrap()) == sub_end(ds, k),
        k < last_of(ds, k).unwrap() < sub_end(ds, k),
{
    let c = last_of(ds, k).unwrap();
    let e = sub_end(ds, k);
    crate::grow::lemma_last_range_pub(ds, k);
    lemma_sub_end(ds, k);
    lemma_bwd(ds, e - 1, ds[k] + 1);
    assert forall|m: int| c + 1 <= m < e implies ds[m] > ds[c] by {
    }
    lemma_fwd_unique(ds, c + 1, ds[c], e);
}

/// Every node starts no later than it ends, and ends where the last node of
/// its subtree ends.
proof fn lemma_ends_from(ds: Seq<nat>, st: Seq<nat>, en: Seq<nat>, k: int)
    requires
        linked_spans(ds, st, en),
        0 <= k <= ds.len(),
    ensures
        forall|m: int| k <= m < ds.len() ==> #[trigger] st[m] <= en[m] && en[m] == en[sub_end(ds, m) - 1],
    decreases ds.len() - k,
{
    if k < ds.len() {
        lemma_ends_from(ds, st, en, k + 1);
        lemma_sub_end(ds, k);
        match last_of(ds, k) {
            None => {
                crate::shape::lemma_leaf_sub_end(ds, k);
            },
            Some(c) => {
                lemma_last_child_sub_end(ds, k);
                assert(st[c] <= en[c]);
                lemma_starts_rise(ds, st, en, k + 1, c);
                assert(first_of(ds, k) is Some);
                assert(st[k + 1] == st[k]);
            },
        }
    }
}

/// Starts do not decrease along the preorder, where nodes start no later
/// than they end.
proof fn lemma_starts_rise(ds: Seq<nat>, st: Seq<nat>, en: Seq<nat>, a: int, b: int)
    requires
        linked_spans(ds, st, en),
        0 <= a <= b < ds.len(),
        forall|m: int| a <= m < b ==> #[trigger] st[m] <= en[m],
    ensures
        st[a] <= st[b],
    decreases b - a,
{
    if a < b {
        assert(st[a] <= en[a]);
        assert(st[a + 1] == if first_of(ds, a) is Some {
            st[a]
        } else {
            en[a]
        });
        lemma_starts_rise(ds, st, en, a + 1, b);
    }
}

/// The last node of a subtree has no children.
proof fn lemma_last_is_leaf(ds: Seq<nat>, k: int)
    requires
        valid_depths(ds),
        0 <= k < ds.len(),
    ensures
        first_of(ds, sub_end(ds, k) - 1) is None,
        k <= sub_end(ds, k) - 1,
{
    lemma_sub_end(ds, k);
}

/// Ends of nodes without children do not decrease along the preorder.
proof fn lemma_leaf_ends_rise(ds: Seq<nat>, st: Seq<nat>, en: Seq<nat>, x: int, y: int)
    requires
        linked_spans(ds, st, en),
        0 <= x <= y < ds.len(),
        first_of(ds, x) is None,
        first_of(ds, y) is None,
    ensures
        en[x] <= en[y],
{
    lemma_ends_from(ds, st, en, 0);
    if x < y {
        assert(st[x + 1] == en[x]);
        lemma_starts_rise(ds, st, en, x + 1, y);
    }
}

/// The span of a node covers the span of every node in its subtree.
pub proof fn lemma_nested(ds: Seq<nat>, st: Seq<nat>, en: Seq<nat>, k: int, j: int)
    requires
        linked_spans(ds, st, en),
        0 <= k <= j < sub_end(ds, k),
    ensures
        st[k] <= st[j],
        st[j] <= en[j],
        en[j] <= en[k],
{
    lemma_sub_end(ds, k);
    lemma_sub_end(ds, j);
    lemma_ends_from(ds, st, en, 0);
    lemma_starts_rise(ds, st, en, k, j);
    // The subtree of `j` lies inside the subtree of `k`.
    assert(sub_end(ds, j) <= sub_end(ds, k)) by {
        let e = sub_end(ds, k);
        if e < ds.len() {
            if sub_end(ds, j) > e {
                assert(ds[e] > ds[j]);
                assert(ds[e] <= ds[k]);
                assert(ds[j] >= ds[k]) by {
                    if j > k {
                    }
                }
            }
        }
    }
    lemma_last_is_leaf(ds, j);
    lemma_last_is_leaf(ds, k);
    lemma_leaf_ends_rise(ds, st, en, sub_end(ds, j) - 1, sub_end(ds, k) - 1);
}

/// Nodes start no later than they end, and starts do not decrease along the
/// preorder.
pub proof fn lemma_ordered(ds: Seq<nat>, st: Seq<nat>, en: Seq<nat>, a: int, b: int)
    requires
        linked_spans(ds, st, en),
        0 <= a <= b < ds.len(),
    ensures
        st[a] <= en[a],
        st[a] <= st[b],
{
    lemma_ends_from(ds, st, en, 0);
    lemma_starts_rise(ds, st, en, a, b);
}


/// No node ends after the last node of the preorder.
pub proof fn lemma_ends_within(ds: Seq<nat>, st: Seq<nat>, en: Seq<nat>, k: int)
    requires
        linked_spans(ds, st, en),
        0 <= k < ds.len(),
    ensures
        en[k] <= en[ds.len() - 1],
{
    lemma_ends_from(ds, st, en, 0);
    lemma_sub_end(ds, k);
    lemma_last_is_leaf(ds, k);
    lemma_last_is_leaf(ds, ds.len() - 1);
    assert(sub_end(ds, ds.len() - 1) == ds.len());
    assert(st[k] <= en[k]);
    assert(en[k] == en[sub_end(ds, k) - 1]);
    lemma_leaf_ends_rise(ds, st, en, sub_end(ds, k) - 1, ds.len() - 1);
}


/// The tokens that cover input, in preorder: positions of nodes without
/// children that end after they start, each of them listed, in increasing
/// order.
pub open spec fn token_list(ds: Seq<nat>, st: Seq<nat>, en: Seq<nat>, toks: Seq<int>) -> bool {
    &&& forall|i: int| 0 <= i < toks.len() ==> 0 <= #[trigger] toks[i] < ds.len() && first_of(ds, toks[i]) is None
        && st[toks[i]] < en[toks[i]]
    &&& forall|i: int, j: int| 0 <= i < j < toks.len() ==> #[trigger] toks[i] < #[trigger] toks[j]
    &&& forall|k: int| 0 <= k < ds.len() && first_of(ds, k) is None && #[trigger] st[k] < en[k] ==> exists|i: int|
        0 <= i < toks.len() && toks[i] == k
}

/// The preorder positions below `n` of the leaves that cover input, in
/// increasing order.
pub open spec fn covering_leaves(ds: Seq<nat>, st: Seq<nat>, en: Seq<nat>, n: int) -> Seq<int>
    decreases n,
{
    if n <= 0 {
        Seq::empty()
    } else {
        let s = covering_leaves(ds, st, en, n - 1);
        if first_of(ds, n - 1) is None && st[n - 1] < en[n - 1] {
            s.push(n - 1)
        } else {
            s
        }
    }
}

/// What `covering_leaves` lists: leaves below `n` that cover input, in
/// increasing order, each of them.
proof fn lemma_covering_leaves(ds: Seq<nat>, st: Seq<nat>, en: Seq<nat>, n: int)
    requires
        0 <= n <= ds.len(),
    ensures
        ({
            let s = covering_leaves(ds, st, en, n);
            &&& forall|i: int| 0 <= i < s.len() ==> 0 <= #[trigger] s[i] < n && first_of(ds, s[i]) is None
                && st[s[i]] < en[s[i]]
            &&& forall|i: int, j: int| 0 <= i < j < s.len() ==> #[trigger] s[i] < #[trigger] s[j]
            &&& forall|k: int| 0 <= k < n && first_of(ds, k) is None && #[trigger] st[k] < en[k] ==> exists|i: int|
                0 <= i < s.len() && s[i] == k
        }),
    decreases n,
{
    if n > 0 {
        lemma_covering_leaves(ds, st, en, n - 1);
        let p = covering_leaves(ds, st, en, n - 1);
        let s = covering_leaves(ds, st, en, n);
        assert forall|k: int| 0 <= k < n && first_of(ds, k) is None && #[trigger] st[k] < en[k] implies exists|i: int|
            0 <= i < s.len() && s[i] == k by {
            if k < n - 1 {
                let i = choose|i: int| 0 <= i < p.len() && p[i] == k;
                assert(s[i] == k);
            } else {
                assert(s[p.len() as int] == k);
            }
        }
    }
}

/// Two lists of the tokens that agree on a prefix of `m` positions.
proof fn lemma_token_prefix(ds: Seq<nat>, st: Seq<nat>, en: Seq<nat>, a: Seq<int>, b: Seq<int>, m: int)
    requires
        token_list(ds, st, en, a),
        token_list(ds, st, en, b),
        0 <= m <= a.len(),
        m <= b.len(),
    ensures
        forall|i: int| 0 <= i < m ==> #[trigger] a[i] == b[i],
    decreases m,
{
    if m > 0 {
        lemma_token_prefix(ds, st, en, a, b, m - 1);
        let i = m - 1;
        assert(first_of(ds, a[i]) is None && st[a[i]] < en[a[i]]);
        let j = choose|j: int| 0 <= j < b.len() && b[j] == a[i];
        if j < i {
            assert(a[j] < a[i]);
        }
        if j > i {
            assert(b[i] < b[j]);
        }
        assert(first_of(ds, b[i]) is None && st[b[i]] < en[b[i]]);
        let j2 = choose|j: int| 0 <= j < a.len() && a[j] == b[i];
        if j2 < i {
            assert(b[j2] < b[i]);
        }
        if j2 > i {
            assert(a[i] < a[j2]);
        }
    }
}

/// A list of the tokens is unique.
pub proof fn lemma_token_list_unique(ds: Seq<nat>, st: Seq<nat>, en: Seq<nat>, a: Seq<int>, b: Seq<int>)
    requires
        token_list(ds, st, en, a),
        token_list(ds, st, en, b),
    ensures
        a == b,
{
    let m = if a.len() <= b.len() { a.len() as int } else { b.len() as int };
    lemma_token_prefix(ds, st, en, a, b, m);
    if a.len() > b.len() {
        assert(first_of(ds, a[m]) is None && st[a[m]] < en[a[m]]);
        let j = choose|j: int| 0 <= j < b.len() && b[j] == a[m];
        assert(a[j] < a[m]);
    }
    if b.len() > a.len() {
        assert(first_of(ds, b[m]) is None && st[b[m]] < en[b[m]]);
        let j = choose|j: int| 0 <= j < a.len() && a[j] == b[m];
        assert(b[j] < b[m]);
    }
    assert(a =~= b);
}

/// The tokens that cover input are the leaves that do, in preorder: a list
/// of the tokens is `covering_leaves` over the whole tree.
pub proof fn lemma_token_list_leaves(ds: Seq<nat>, st: Seq<nat>, en: Seq<nat>, toks: Seq<int>)
    requires
        token_list(ds, st, en, toks),
    ensures
        toks == covering_leaves(ds, st, en, ds.len() as int),
{
    lemma_covering_leaves(ds, st, en, ds.len() as int);
    lemma_token_list_unique(ds, st, en, toks, covering_leaves(ds, st, en, ds.len() as int));
}

/// Between two positions no token covers input, so starts do not move.
proof fn lemma_starts_flat(ds: Seq<nat>, st: Seq<nat>, en: Seq<nat>, a: int, b: int)
    requires
        linked_spans(ds, st, en),
        0 <= a <= b < ds.len(),
        forall|m: int| a <= m < b ==> !(first_of(ds, m) is None && #[trigger] st[m] < en[m]),
    ensures
        st[b] == st[a],
    decreases b - a,
{
    if a < b {
        lemma_ends_from(ds, st, en, 0);
        assert(st[a] <= en[a]);
        assert(st[a + 1] == if first_of(ds, a) is Some {
            st[a]
        } else {
            en[a]
        });
        lemma_starts_flat(ds, st, en, a + 1, b);
    }
}

/// Tokens are contiguous: each token starts where the previous one ends,
/// and the first one where the first node starts.
pub proof fn lemma_token_starts(ds: Seq<nat>, st: Seq<nat>, en: Seq<nat>, toks: Seq<int>, i: int)
    requires
        linked_spans(ds, st, en),
        token_list(ds, st, en, toks),
        0 <= i < toks.len(),
    ensures
        st[toks[i]] == if i == 0 {
            st[0]
        } else {
            en[toks[i - 1]]
        },
{
    let t = toks[i];
    let a = if i == 0 { 0 } else { toks[i - 1] + 1 };
    assert forall|m: int| a <= m < t implies !(first_of(ds, m) is None && #[trigger] st[m] < en[m]) by {
        if first_of(ds, m) is None && st[m] < en[m] {
            let j = choose|j: int| 0 <= j < toks.len() && toks[j] == m;
            if j < i {
                if i > 0 && j < i - 1 {
                    assert(toks[j] < toks[i - 1]);
                }
            } else if j > i {
                assert(toks[i] < toks[j]);
            }
        }
    }
    if i > 0 {
        assert(toks[i - 1] < t);
        let p = toks[i - 1];
        assert(st[p + 1] == en[p]);
    }
    lemma_starts_flat(ds, st, en, a, t);
}

/// The last node ends where the last token does, or at the start of the
/// first node if there is no token.
pub proof fn lemma_last_token(ds: Seq<nat>, st: Seq<nat>, en: Seq<nat>, toks: Seq<int>)
    requires
        linked_spans(ds, st, en),
        token_list(ds, st, en, toks),
        ds.len() > 0,
    ensures
        en[ds.len() - 1] == if toks.len() == 0 {
            st[0]
        } else {
            en[toks[toks.len() - 1]]
        },
{
    let n = ds.len() as int;
    lemma_ends_from(ds, st, en, 0);
    lemma_last_is_leaf(ds, n - 1);
    assert(sub_end(ds, n - 1) == n);
    assert(first_of(ds, n - 1) is None);
    let a = if toks.len() == 0 { 0 } else { toks[toks.len() - 1] + 1 };
    if toks.len() > 0 {
        let p = toks[toks.len() - 1];
        if p == n - 1 {
            return;
        }
        assert(p < n - 1);
        assert(st[p + 1] == en[p]);
    }
    assert forall|m: int| a <= m < n - 1 implies !(first_of(ds, m) is None && #[trigger] st[m] < en[m]) by {
        if first_of(ds, m) is None && st[m] < en[m] {
            let j = choose|j: int| 0 <= j < toks.len() && toks[j] == m;
            if j < toks.len() - 1 {
                assert(toks[j] < toks[toks.len() - 1]);
            }
        }
    }
    lemma_starts_flat(ds, st, en, a, n - 1);
    assert(st[n - 1] <= en[n - 1]);
    if !(st[n - 1] < en[n - 1]) {
        assert(st[n - 1] == en[n - 1]);
    } else {
        let j = choose|j: int| 0 <= j < toks.len() && toks[j] == n - 1;
        if j < toks.len() - 1 {
            assert(toks[j] < toks[toks.len() - 1]);
        }
    }
}

} // verus!
