use vstd::prelude::*;

use crate::error::Error;
use crate::grow::{appended, lemma_append_shape, lemma_append_spans, top_of};
use crate::index::{Index, Length};
use crate::pointer::{Pointer, Width};
use crate::raw::{
    data_seq, end_seq, from_ptr, id_of, indexes_wf, is_indexed, link, links_wf, open_at, opt_int, order_wf, pos_ok, shape_wf,
    sibling_of, spans_wf, stack_ok, start_seq, to_ptr, Links, TreeIndex, end_at, start_at,
};
use crate::shape::{bwd, first_of, lemma_bwd, lemma_bwd_exact, lemma_bwd_push, lemma_bwd_unique, next_of, parent_of, valid_depths};
use crate::wrap::{last_sibling, lemma_wrappable, wrappable, wrapped};
use crate::span::Span;
use crate::tree::Tree;

verus! {

/// The identifier of a node as returned by functions such as
/// [`TreeBuilder::open`] or [`TreeBuilder::token`].
#[derive(Debug, Clone, Copy, PartialEq, Eq, Structural)]
pub struct Id(usize);

impl Id {
    /// Construct an identifier for the node stored at `id`.
    pub(crate) fn new(id: usize) -> (r: Self)
        ensures
            r.index() == id,
    {
        Id(id)
    }

    /// The storage index of the identified node.
    pub closed spec fn index(self) -> nat {
        self.0 as nat
    }
}

/// A checkpoint handed out by [`TreeBuilder::checkpoint`], to be closed with
/// [`TreeBuilder::close_at`].
///
/// A checkpoint names an entry of the checkpoints its builder handed out, by
/// position; the builder holds what the checkpoint records. Copies of a
/// checkpoint name the same entry: closing at one of them moves all of them
/// to the node that was inserted. A checkpoint means something only to the
/// builder that handed it out: another builder reads its own entry at that
/// position, if it has one.
#[derive(Debug, Clone, Copy)]
pub struct Checkpoint(usize);

/// What a checkpoint records: the node that is wrapped when closing at it
/// and the parent of the context it was taken in.
#[derive(Debug, Clone, Copy)]
struct CheckpointData {
    node: usize,
    parent: Option<usize>,
}

/// Compare two optional node indexes.
fn opt_eq(a: Option<usize>, b: Option<usize>) -> (r: bool)
    ensures
        r == (a == b),
{
    match (a, b) {
        (Some(x), Some(y)) => x == y,
        (None, None) => true,
        _ => false,
    }
}

impl<T: Copy, I: Index, W: Width> Default for TreeBuilder<T, I, W> {
    /// An empty builder, as [`TreeBuilder::new`] makes.
    fn default() -> (r: Self)
        ensures
            r.wf(),
            r.spec_len() == 0,
            r.open_count() == 0,
            r.cursor() == 0,
            r.depths() == Seq::<nat>::empty(),
            r.values() == Seq::<T>::empty(),
            r.starts() == Seq::<nat>::empty(),
            r.ends() == Seq::<nat>::empty(),
    {
        Self::new()
    }
}

/// Re-parent the siblings from `next` on (the siblings following the wrapped
/// node at position `p`) to `parent`, and find the last of them and where it
/// ends.
fn restructure_close_at<T: Copy, I: Index, P: Pointer>(
    nodes: &mut Vec<Links<T, I, P>>,
    parent: P,
    next: usize,
    Ghost(order): Ghost<Seq<int>>,
    Ghost(posn): Ghost<Seq<int>>,
    Ghost(ds): Ghost<Seq<nat>>,
    Ghost(s): Ghost<nat>,
    Ghost(p): Ghost<int>,
) -> (r: (usize, I))
    requires
        order_wf(old(nodes)@.len() as int, order, posn),
        ds.len() == old(nodes)@.len(),
        valid_depths(ds),
        links_wf(old(nodes)@, order, ds),
        stack_ok(ds, s),
        wrappable(ds, s, p),
        next_of(ds, p) matches Some(q) && next == order[q],
    ensures
        final(nodes)@.len() == old(nodes)@.len(),
        r.0 == order[last_sibling(ds, s)],
        r.1 == old(nodes)@[r.0 as int].span.end,
        forall|i: int|
            0 <= i < old(nodes)@.len() ==> #[trigger] final(nodes)@[i] == if posn[i] > p && ds[posn[i]] == s {
                Links { parent, ..old(nodes)@[i] }
            } else {
                old(nodes)@[i]
            },
{
    let ghost n = nodes@.len() as int;
    let ghost start = nodes@;
    let mut cur = next;
    let ghost mut q = next_of(ds, p).unwrap();
    proof {
        lemma_wrappable(ds, s, p);
        crate::shape::lemma_next_sub_end(ds, p);
        crate::shape::lemma_sub_end(ds, p);
        assert forall|i: int| 0 <= i < n implies #[trigger] nodes@[i] == if posn[i] > p && posn[i] < q && ds[posn[i]] == s {
            Links { parent, ..start[i] }
        } else {
            start[i]
        } by {
            if p < posn[i] < q {
                assert(ds[posn[i]] > s);
            }
        }
    }
    loop
        invariant
            start == old(nodes)@,
            start.len() == n,
            order_wf(n, order, posn),
            ds.len() == n,
            valid_depths(ds),
            links_wf(start, order, ds),
            stack_ok(ds, s),
            wrappable(ds, s, p),
            forall|m: int| p <= m < n ==> ds[m] >= s,
            nodes@.len() == n,
            p < q < n,
            ds[q] == s,
            cur == order[q],
            forall|i: int|
                0 <= i < n ==> #[trigger] nodes@[i] == if posn[i] > p && posn[i] < q && ds[posn[i]] == s {
                    Links { parent, ..start[i] }
                } else {
                    start[i]
                },
        ensures
            nodes@.len() == n,
        decreases n - q,
    {
        assert(posn[order[q]] == q);
        let mut l = nodes[cur];
        assert(l == start[cur as int]);
        assert(pos_ok(start, order, ds, q));
        l.parent = parent;
        let end = l.span.end;
        let nx = l.next;
        nodes.set(cur, l);
        if nx.is_none() {
            proof {
                crate::shape::lemma_sub_end(ds, q);
                lemma_bwd_unique(ds, n - 1, s, q);
                assert forall|i: int| 0 <= i < n implies #[trigger] nodes@[i] == if posn[i] > p && ds[posn[i]] == s {
                    Links { parent, ..start[i] }
                } else {
                    start[i]
                } by {
                    if posn[i] > q {
                        assert(ds[posn[i]] > s);
                    }
                }
            }
            return (cur, end);
        }
        proof {
            crate::shape::lemma_next_sub_end(ds, q);
            crate::shape::lemma_sub_end(ds, q);
            let q2 = next_of(ds, q).unwrap();
            assert forall|i: int| 0 <= i < n implies #[trigger] nodes@[i] == if posn[i] > p && posn[i] < q2 && ds[posn[i]] == s {
                Links { parent, ..start[i] }
            } else {
                start[i]
            } by {
                if i == cur {
                    assert(posn[i] == q);
                } else if q < posn[i] < q2 {
                    assert(ds[posn[i]] > s);
                }
            }
            q = q2;
        }
        cur = nx.get();
    }
}

/// A builder for a [`Tree`][crate::Tree].
///
/// This maintains a stack of nodes being built which has to be balanced with
/// calls to [`TreeBuilder::open`] and [`TreeBuilder::close`].
pub struct TreeBuilder<T, I, W: Width> {
    /// The node arena.
    nodes: Vec<Links<T, I, W::Pointer>>,
    /// The span of the whole tree.
    span: Span<I>,
    /// Token indexes for range searches.
    indexes: Vec<TreeIndex<I, W::Pointer>>,
    /// The first root.
    first: Option<usize>,
    /// The last root.
    last: Option<usize>,
    /// The nodes being built, outermost first.
    parents: Vec<usize>,
    /// The checkpoints handed out.
    checkpoints: Vec<CheckpointData>,
    /// The last checkpoint handed out.
    checkpoint: Option<usize>,
    /// The last child of the innermost node being built.
    sibling: Option<usize>,
    /// The current cursor.
    cursor: I,
    /// Preorder position to arena slot.
    order: Ghost<Seq<int>>,
    /// Arena slot to preorder position.
    posn: Ghost<Seq<int>>,
    /// Depth of each node in preorder.
    depths: Ghost<Seq<nat>>,
    /// Preorder positions of the indexed tokens.
    toks: Ghost<Seq<int>>,
}

impl<T: Copy, I: Index, W: Width> TreeBuilder<T, I, W> {
    /// The builder is consistent: its arena holds a forest whose links,
    /// spans and token indexes agree with its preorder depth sequence, and
    /// its stack holds the last node of each depth up to the current one.
    pub closed spec fn wf(&self) -> bool {
        let n = self.nodes@.len();
        let s = self.parents@.len();
        &&& shape_wf(self.nodes@, self.first, self.last, self.order@, self.posn@, self.depths@)
        &&& stack_ok(self.depths@, s as nat)
        &&& forall|i: int| 0 <= i < s ==> #[trigger] self.parents@[i] == self.order@[open_at(self.depths@, i as nat)]
        &&& opt_int(self.sibling) == id_of(self.order@, sibling_of(self.depths@, s as nat))
        &&& spans_wf(self.nodes@, self.order@, self.depths@, s as nat, self.cursor.spec_pos())
        &&& self.span.start.spec_pos() == 0
        &&& self.span.end == self.cursor
        &&& indexes_wf(self.nodes@, self.order@, self.depths@, self.indexes@, self.toks@, self.cursor.spec_pos())
        &&& forall|i: int| 0 <= i < self.checkpoints@.len() ==> #[trigger] self.checkpoints@[i].node <= n
        &&& self.checkpoint matches Some(c) ==> c < self.checkpoints@.len()
    }

    /// The number of nodes.
    pub closed spec fn spec_len(&self) -> nat {
        self.nodes@.len()
    }

    /// The depth of each node, in preorder.
    pub closed spec fn depths(&self) -> Seq<nat> {
        self.depths@
    }

    /// The data of each node, in preorder.
    pub closed spec fn values(&self) -> Seq<T> {
        data_seq(self.nodes@, self.order@)
    }

    /// The start position of each node, in preorder.
    pub closed spec fn starts(&self) -> Seq<nat> {
        start_seq(self.nodes@, self.order@)
    }

    /// The end position of each node, in preorder.
    pub closed spec fn ends(&self) -> Seq<nat> {
        end_seq(self.nodes@, self.order@)
    }

    /// The number of nodes being built.
    pub closed spec fn open_count(&self) -> nat {
        self.parents@.len()
    }

    /// The index where the next token starts.
    pub closed spec fn cursor_index(&self) -> I {
        self.cursor
    }

    /// The position where the next token starts.
    pub open spec fn cursor(&self) -> nat {
        self.cursor_index().spec_pos()
    }

    /// Whether one more node fits in the tree.
    pub open spec fn can_insert(&self) -> bool {
        &&& W::Pointer::spec_fits(self.spec_len())
        &&& self.spec_len() + 3 < isize::MAX
    }

    /// The preorder position of the innermost node being built.
    pub open spec fn top(&self) -> Option<int> {
        top_of(self.depths(), self.open_count())
    }

    /// Construct a new tree builder.
    pub fn new() -> (r: Self)
        ensures
            r.wf(),
            r.spec_len() == 0,
            r.open_count() == 0,
            r.cursor() == 0,
            r.depths() == Seq::<nat>::empty(),
            r.values() == Seq::<T>::empty(),
            r.starts() == Seq::<nat>::empty(),
            r.ends() == Seq::<nat>::empty(),
            forall|c: Checkpoint| r.checkpoint_view(c) is None,
            r.last_checkpoint() is None,
    {
        let zero = I::empty();
        let r = TreeBuilder {
            nodes: Vec::new(),
            span: Span::point(zero),
            indexes: Vec::new(),
            first: None,
            last: None,
            parents: Vec::new(),
            checkpoints: Vec::new(),
            checkpoint: None,
            sibling: None,
            cursor: zero,
            order: Ghost(Seq::empty()),
            posn: Ghost(Seq::empty()),
            depths: Ghost(Seq::empty()),
            toks: Ghost(Seq::empty()),
        };
        proof {
            assert(r.values() =~= Seq::<T>::empty());
            assert(r.starts() =~= Seq::<nat>::empty());
            assert(r.ends() =~= Seq::<nat>::empty());
        }
        r
    }

    /// Insert a new node as the last child of the innermost node being
    /// built, or as the last root if there is none.
    fn insert(&mut self, data: T, span: Span<I>) -> (r: Result<usize, Error>)
        requires
            old(self).wf(),
            span.start.spec_pos() == old(self).cursor.spec_pos(),
            span.start.spec_pos() <= span.end.spec_pos(),
        ensures
            r is Ok <==> old(self).can_insert(),
            r is Err ==> r == Err::<usize, Error>(Error::Overflow) && *final(self) == *old(self),
            r matches Ok(id) ==> final(self).inserted(*old(self), id, data, span),
    {
        let n = self.nodes.len();
        if n >= (isize::MAX as usize) - 3 {
            return Err(Error::Overflow);
        }
        let new_ptr = match W::Pointer::new(n) {
            Some(p) => p,
            None => {
                return Err(Error::Overflow);
            },
        };
        let ghost old_self = *self;
        let ghost s = self.parents@.len() as nat;
        proof {
            if n > 0 {
                W::Pointer::lemma_fits_downward(n as nat, (n - 1) as nat);
            }
            if s > 0 {
                lemma_bwd_exact(self.depths@, n - 1, (s - 1) as nat);
                lemma_bwd(self.depths@, n - 1, (s - 1) as nat);
                assert(self.parents@[s - 1] == self.order@[open_at(self.depths@, (s - 1) as nat)]);
            }
            lemma_bwd(self.depths@, n - 1, s);
        }
        let prev = self.sibling.take();
        let parent = if self.parents.len() > 0 {
            Some(self.parents[self.parents.len() - 1])
        } else {
            None
        };
        proof {
            if let Some(p) = parent {
                W::Pointer::lemma_fits_downward(n as nat, p as nat);
            }
            if let Some(p) = prev {
                W::Pointer::lemma_fits_downward(n as nat, p as nat);
            }
        }
        let links = Links {
            data,
            span,
            parent: to_ptr(parent),
            prev: to_ptr(prev),
            next: W::Pointer::none(),
            first: W::Pointer::none(),
            last: W::Pointer::none(),
        };
        self.nodes.push(links);
        if let Some(id) = parent {
            let mut node = self.nodes[id];
            if node.first.is_none() {
                node.first = new_ptr;
            }
            node.last = new_ptr;
            node.span.end = span.end;
            self.nodes.set(id, node);
        } else {
            if self.first.is_none() {
                self.first = Some(n);
            }
            self.last = Some(n);
        }
        if let Some(id) = prev {
            let mut node = self.nodes[id];
            node.next = new_ptr;
            self.nodes.set(id, node);
        }
        self.order = Ghost(self.order@.push(n as int));
        self.posn = Ghost(self.posn@.push(n as int));
        self.depths = Ghost(self.depths@.push(s));
        proof {
            assert(appended(
                old_self.nodes@,
                old_self.first,
                old_self.last,
                old_self.order@,
                old_self.depths@,
                s,
                self.nodes@,
                self.first,
                self.last,
            ));
        }
        Ok(n)
    }

    /// Start a node with the given `data`: it becomes the last child of the
    /// innermost node being built (or the last root) and is itself the
    /// innermost node being built until it is closed.
    ///
    /// Fails with [`Error::Overflow`] if the tree cannot hold one more node.
    pub fn open(&mut self, data: T) -> (r: Result<Id, Error>)
        requires
            old(self).wf(),
        ensures
            final(self).wf(),
            r is Ok <==> old(self).can_insert(),
            r is Err ==> r == Err::<Id, Error>(Error::Overflow) && *final(self) == *old(self),
            r matches Ok(id) ==> {
                &&& id.index() == old(self).spec_len()
                &&& final(self).spec_len() == old(self).spec_len() + 1
                &&& final(self).depths() == old(self).depths().push(old(self).open_count())
                &&& final(self).values() == old(self).values().push(data)
                &&& final(self).starts() == old(self).starts().push(old(self).cursor())
                &&& final(self).ends() == match old(self).top() {
                    Some(t) => old(self).ends().update(t, old(self).cursor()),
                    None => old(self).ends(),
                }.push(old(self).cursor())
                &&& final(self).open_count() == old(self).open_count() + 1
                &&& final(self).cursor() == old(self).cursor()
                &&& forall|d: Checkpoint| #[trigger] final(self).checkpoint_view(d) == old(self).checkpoint_view(d)
                &&& final(self).last_checkpoint() == old(self).last_checkpoint()
                &&& forall|k: int| 0 <= k < old(self).spec_len() ==> #[trigger] final(self).id_at(k) == old(self).id_at(k)
                &&& final(self).id_at(old(self).spec_len() as int) == old(self).spec_len()
            },
    {
        let ghost old_self = *self;
        let cursor = self.cursor;
        let span = Span::point(cursor);
        let id = match self.insert(data, span) {
            Ok(id) => id,
            Err(e) => {
                return Err(e);
            },
        };
        proof {
            let entry: TreeIndex<I, W::Pointer> = vstd::pervasive::arbitrary();
            self.lemma_inserted(old_self, id, data, span, (old_self.parents@.len() + 1) as nat, entry);
        }
        self.parents.push(id);
        proof {
            let ds2 = self.depths@;
            let s = old_self.parents@.len() as nat;
            assert forall|i: int| 0 <= i < s + 1 implies #[trigger] self.parents@[i] == self.order@[open_at(ds2, i as nat)] by {
                if i < s {
                    assert(old_self.parents@[i] == self.order@[open_at(ds2, i as nat)]);
                }
            }
            let n = id as int;
            assert(bwd(ds2, n, s + 1) == n);
        }
        Ok(Id::new(id))
    }

    /// End a node being built: the innermost node being built is closed and
    /// its parent (if any) now ends where it ends.
    ///
    /// Fails with [`Error::CloseError`] if no node is being built.
    pub fn close(&mut self) -> (r: Result<(), Error>)
        requires
            old(self).wf(),
        ensures
            final(self).wf(),
            r is Ok <==> old(self).open_count() > 0,
            r is Err ==> r == Err::<(), Error>(Error::CloseError) && *final(self) == *old(self),
            r is Ok ==> {
                &&& final(self).spec_len() == old(self).spec_len()
                &&& final(self).depths() == old(self).depths()
                &&& final(self).values() == old(self).values()
                &&& final(self).starts() == old(self).starts()
                &&& final(self).ends() == if old(self).open_count() > 1 {
                    old(self).ends().update(
                        old(self).open_node((old(self).open_count() - 2) as nat),
                        old(self).ends()[old(self).open_node((old(self).open_count() - 1) as nat)],
                    )
                } else {
                    old(self).ends()
                }
                &&& final(self).open_count() == old(self).open_count() - 1
                &&& final(self).cursor() == old(self).cursor()
                &&& forall|d: Checkpoint| #[trigger] final(self).checkpoint_view(d) == old(self).checkpoint_view(d)
                &&& final(self).last_checkpoint() == old(self).last_checkpoint()
                &&& forall|k: int| #[trigger] final(self).id_at(k) == old(self).id_at(k)
            },
    {
        let ghost old_self = *self;
        let ghost n = self.nodes@.len() as int;
        let ghost s = self.parents@.len() as nat;
        let ghost ds = self.depths@;
        let ghost order = self.order@;
        if self.parents.len() == 0 {
            return Err(Error::CloseError);
        }
        proof {
            crate::grow::lemma_open_at_pub(ds, s, (s - 1) as nat);
            assert(self.parents@[s - 1] == order[open_at(ds, (s - 1) as nat)]);
            if s > 1 {
                crate::grow::lemma_open_at_pub(ds, s, (s - 2) as nat);
                assert(self.parents@[s - 2] == order[open_at(ds, (s - 2) as nat)]);
            }
        }
        let head = self.parents.pop().unwrap();
        self.sibling = Some(head);
        if self.parents.len() > 0 {
            let parent = self.parents[self.parents.len() - 1];
            let end = self.nodes[head].span.end;
            let mut node = self.nodes[parent];
            node.span.end = end;
            self.nodes.set(parent, node);
        }
        proof {
            self.lemma_closed(old_self);
        }
        Ok(())
    }

    /// Declare a token with the specified `value` and a corresponding `len`:
    /// a node without children that takes `len` of the input, starting at the
    /// cursor.
    ///
    /// Fails with [`Error::Overflow`] if the cursor cannot advance by `len` or
    /// the tree cannot hold one more node.
    pub fn token(&mut self, value: T, len: I::Length) -> (r: Result<Id, Error>)
        requires
            old(self).wf(),
        ensures
            final(self).wf(),
            r is Ok <==> old(self).cursor_index().spec_add_fits(len) && old(self).can_insert(),
            r is Err ==> r == Err::<Id, Error>(Error::Overflow) && *final(self) == *old(self),
            r matches Ok(id) ==> {
                let end = old(self).cursor() + len.spec_len();
                &&& id.index() == old(self).spec_len()
                &&& final(self).spec_len() == old(self).spec_len() + 1
                &&& final(self).depths() == old(self).depths().push(old(self).open_count())
                &&& final(self).values() == old(self).values().push(value)
                &&& final(self).starts() == old(self).starts().push(old(self).cursor())
                &&& final(self).ends() == match old(self).top() {
                    Some(t) => old(self).ends().update(t, end),
                    None => old(self).ends(),
                }.push(end)
                &&& final(self).open_count() == old(self).open_count()
                &&& final(self).cursor() == end
                &&& forall|d: Checkpoint| #[trigger] final(self).checkpoint_view(d) == old(self).checkpoint_view(d)
                &&& final(self).last_checkpoint() == old(self).last_checkpoint()
                &&& forall|k: int| 0 <= k < old(self).spec_len() ==> #[trigger] final(self).id_at(k) == old(self).id_at(k)
                &&& final(self).id_at(old(self).spec_len() as int) == old(self).spec_len()
            },
    {
        let ghost old_self = *self;
        let start = self.cursor;
        let end = match start.checked_add_len(len) {
            Some(end) => end,
            None => {
                return Err(Error::Overflow);
            },
        };
        let span = Span::new(start, end);
        let id = match self.insert(value, span) {
            Ok(id) => id,
            Err(e) => {
                return Err(e);
            },
        };
        let ptr = match W::Pointer::new(id) {
            Some(p) => p,
            None => W::Pointer::none(),
        };
        proof {
            self.lemma_inserted(old_self, id, value, span, old_self.parents@.len() as nat, TreeIndex { index: end, id: ptr });
        }
        self.sibling = Some(id);
        if !len.is_empty() {
            self.cursor = end;
            self.span.end = end;
            self.indexes.push(TreeIndex { index: end, id: ptr });
            self.toks = Ghost(self.toks@.push(id as int));
        }
        proof {
            let n = id as int;
            let s = old_self.parents@.len() as nat;
            assert(bwd(self.depths@, n, s) == n);
        }
        Ok(Id::new(id))
    }

    /// Build a [`Tree`] from the current state of the builder.
    ///
    /// Fails with [`Error::BuildError`] if a node is still being built.
    pub fn build(self) -> (r: Result<Tree<T, I, W>, Error>)
        requires
            self.wf(),
        ensures
            r is Ok <==> self.open_count() == 0,
            r is Err ==> r == Err::<Tree<T, I, W>, Error>(Error::BuildError),
            r matches Ok(t) ==> {
                &&& t.spec_len() == self.spec_len()
                &&& t.depths() == self.depths()
                &&& t.values() == self.values()
                &&& t.starts() == self.starts()
                &&& t.ends() == self.ends()
                &&& t.spec_span().start.spec_pos() == 0
                &&& t.spec_span().end == self.cursor_index()
            },
    {
        if self.parents.len() > 0 {
            return Err(Error::BuildError);
        }
        Ok(Tree::from_parts(
            self.nodes,
            self.span,
            self.indexes,
            self.first,
            self.last,
            self.order,
            self.posn,
            self.depths,
            self.toks,
        ))
    }

    /// Get a checkpoint corresponding to the current position in the tree:
    /// closing at it wraps every sibling added from here on.
    ///
    /// If the last checkpoint handed out records the same position (the same
    /// next node, inside the same node being built), it is returned again.
    ///
    /// Fails with [`Error::Overflow`] if the tree cannot hold one more node.
    pub fn checkpoint(&mut self) -> (r: Result<Checkpoint, Error>)
        requires
            old(self).wf(),
        ensures
            final(self).wf(),
            r is Ok <==> W::Pointer::spec_fits(old(self).spec_len()),
            r is Err ==> r == Err::<Checkpoint, Error>(Error::Overflow) && *final(self) == *old(self),
            r is Ok ==> {
                &&& final(self).spec_len() == old(self).spec_len()
                &&& final(self).depths() == old(self).depths()
                &&& final(self).values() == old(self).values()
                &&& final(self).starts() == old(self).starts()
                &&& final(self).ends() == old(self).ends()
                &&& final(self).open_count() == old(self).open_count()
                &&& final(self).cursor_index() == old(self).cursor_index()
                &&& final(self).top_id() == old(self).top_id()
                &&& forall|k: int| #[trigger] final(self).id_at(k) == old(self).id_at(k)
            },
            r matches Ok(c) ==> {
                &&& final(self).checkpoint_view(c) == Some((old(self).spec_len(), old(self).top_id()))
                &&& final(self).last_checkpoint() == Some(c)
                &&& old(self).last_checkpoint_here() ==> old(self).last_checkpoint() == Some(c)
                &&& !old(self).last_checkpoint_here() ==> old(self).checkpoint_view(c) is None
                &&& forall|d: Checkpoint| old(self).checkpoint_view(d) is Some ==> #[trigger] final(self).checkpoint_view(d) == old(self).checkpoint_view(d)
            },
    {
        let n = self.nodes.len();
        if W::Pointer::new(n).is_none() {
            return Err(Error::Overflow);
        }
        let parent = if self.parents.len() > 0 {
            Some(self.parents[self.parents.len() - 1])
        } else {
            None
        };
        if let Some(c) = self.checkpoint {
            let d = self.checkpoints[c];
            if d.node == n && opt_eq(d.parent, parent) {
                return Ok(Checkpoint(c));
            }
        }
        self.checkpoints.push(CheckpointData { node: n, parent });
        let c = self.checkpoints.len() - 1;
        self.checkpoint = Some(c);
        Ok(Checkpoint(c))
    }

    /// The node and parent that this builder's entry for a checkpoint
    /// records, as storage indexes, or `None` if this builder has no entry at
    /// the position the checkpoint names.
    pub closed spec fn checkpoint_view(&self, c: Checkpoint) -> Option<(nat, Option<nat>)> {
        if c.0 < self.checkpoints@.len() {
            let d = self.checkpoints@[c.0 as int];
            Some((
                d.node as nat,
                match d.parent {
                    Some(p) => Some(p as nat),
                    None => None,
                },
            ))
        } else {
            None
        }
    }

    /// The last checkpoint handed out, if any.
    pub closed spec fn last_checkpoint(&self) -> Option<Checkpoint> {
        match self.checkpoint {
            Some(c) => Some(Checkpoint(c)),
            None => None,
        }
    }

    /// Whether the last checkpoint handed out records the current position:
    /// the next node and the innermost node being built.
    pub open spec fn last_checkpoint_here(&self) -> bool {
        self.last_checkpoint() matches Some(d) && self.checkpoint_view(d) == Some((self.spec_len(), self.top_id()))
    }

    /// The storage index of the innermost node being built.
    pub closed spec fn top_id(&self) -> Option<nat> {
        if self.parents@.len() > 0 {
            Some(self.parents@.last() as nat)
        } else {
            None
        }
    }


    /// Insert a node that wraps every sibling from the given checkpoint on:
    /// the nodes added since the checkpoint at the current level (and all
    /// their descendants) become children of a new node with `data`, which
    /// takes their place. If nothing was added since the checkpoint, an empty
    /// node is added.
    ///
    /// The checkpoint moves to the new node, so closing at it again wraps the
    /// new node.
    ///
    /// Fails with [`Error::CloseAtError`] if the checkpoint was taken inside
    /// another node than the one being built now, or its node is no longer a
    /// child of that node; with [`Error::Overflow`] if the tree cannot hold
    /// one more node; and with [`Error::MissingNode`] if this builder has
    /// handed out no checkpoint at the position the checkpoint names.
    pub fn close_at(&mut self, c: &Checkpoint, data: T) -> (r: Result<Id, Error>)
        requires
            old(self).wf(),
        ensures
            final(self).wf(),
            r is Err ==> *final(self) == *old(self),
            old(self).checkpoint_view(*c) is None ==> r == Err::<Id, Error>(Error::MissingNode(old(self).spec_len() as usize)),
            old(self).checkpoint_view(*c) matches Some((node, parent)) ==> {
                let s = old(self).open_count();
                let ok = parent == old(self).top_id() && (node >= old(self).spec_len()
                    || old(self).parent_id(node) == old(self).top_id());
                &&& !ok ==> r == Err::<Id, Error>(Error::CloseAtError)
                &&& ok && !old(self).can_insert() ==> r == Err::<Id, Error>(Error::Overflow)
                &&& ok && old(self).can_insert() ==> (r matches Ok(id) && id.index() == old(self).spec_len())
                &&& r is Ok ==> final(self).checkpoint_view(*c) == Some((old(self).spec_len(), parent))
                &&& r is Ok ==> forall|d: Checkpoint| d != *c ==> #[trigger] final(self).checkpoint_view(d) == old(self).checkpoint_view(d)
                &&& r is Ok && node >= old(self).spec_len() ==> {
                    &&& forall|k: int| 0 <= k < old(self).spec_len() ==> #[trigger] final(self).id_at(k) == old(self).id_at(k)
                    &&& final(self).id_at(old(self).spec_len() as int) == old(self).spec_len()
                    &&& final(self).depths() == old(self).depths().push(s)
                    &&& final(self).values() == old(self).values().push(data)
                    &&& final(self).starts() == old(self).starts().push(old(self).cursor())
                    &&& final(self).ends() == match old(self).top() {
                        Some(t) => old(self).ends().update(t, old(self).cursor()),
                        None => old(self).ends(),
                    }.push(old(self).cursor())
                }
                &&& r is Ok && node < old(self).spec_len() ==> {
                    let p = old(self).position(node);
                    let l = crate::wrap::last_sibling(old(self).depths(), s);
                    &&& final(self).depths() == crate::wrap::wrap_depths(old(self).depths(), p, s)
                    &&& forall|k: int| 0 <= k <= old(self).spec_len() ==> #[trigger] final(self).id_at(k) == if k < p {
                        old(self).id_at(k)
                    } else if k == p {
                        old(self).spec_len()
                    } else {
                        old(self).id_at(k - 1)
                    }
                    &&& final(self).values() == old(self).values().insert(p, data)
                    &&& final(self).starts() == old(self).starts().insert(p, old(self).starts()[p])
                    &&& final(self).ends() == old(self).ends().insert(p, old(self).ends()[l])
                }
                &&& r is Ok ==> final(self).open_count() == s && final(self).cursor_index() == old(self).cursor_index()
                &&& r is Ok ==> final(self).spec_len() == old(self).spec_len() + 1
                &&& final(self).last_checkpoint() == old(self).last_checkpoint()
            },
    {
        let ghost old_self = *self;
        if c.0 >= self.checkpoints.len() {
            return Err(Error::MissingNode(self.nodes.len()));
        }
        let cp = self.checkpoints[c.0];
        let id = cp.node;
        let top = if self.parents.len() > 0 {
            Some(self.parents[self.parents.len() - 1])
        } else {
            None
        };
        if !opt_eq(cp.parent, top) {
            return Err(Error::CloseAtError);
        }
        let n = self.nodes.len();
        if id < n {
            let parent_of_node = from_ptr(self.nodes[id].parent);
            if !opt_eq(parent_of_node, top) {
                return Err(Error::CloseAtError);
            }
        }
        if n >= (isize::MAX as usize) - 3 {
            return Err(Error::Overflow);
        }
        let next_ptr = match W::Pointer::new(n) {
            Some(p) => p,
            None => {
                return Err(Error::Overflow);
            },
        };
        if id >= n {
            // Nothing was added since the checkpoint: add an empty node.
            let cursor = self.cursor;
            let span = Span::point(cursor);
            let new_id = match self.insert(data, span) {
                Ok(new_id) => new_id,
                Err(e) => {
                    return Err(e);
                },
            };
            proof {
                let entry: TreeIndex<I, W::Pointer> = vstd::pervasive::arbitrary();
                self.lemma_inserted(old_self, new_id, data, span, old_self.parents@.len() as nat, entry);
            }
            self.sibling = Some(new_id);
            self.checkpoints.set(c.0, CheckpointData { node: new_id, parent: top });
            proof {
                let s = old_self.parents@.len() as nat;
                assert(bwd(self.depths@, new_id as int, s) == new_id);
                self.lemma_checkpoints_moved(old_self, *c);
            }
            return Ok(Id::new(new_id));
        }
        self.wrap(id, next_ptr, data, top);
        self.checkpoints.set(c.0, CheckpointData { node: n, parent: top });
        proof {
            self.lemma_checkpoints_moved(old_self, *c);
            let p = old_self.posn@[id as int];
            assert(0 <= p < n) by {
                assert(crate::raw::order_wf(n as int, old_self.order@, old_self.posn@));
            }
            crate::wrap::lemma_wrap_index(old_self.depths@, old_self.order@, p, old_self.parents@.len() as nat, n as int);
            assert forall|k: int| 0 <= k <= n implies #[trigger] self.id_at(k) == if k < p {
                old_self.id_at(k)
            } else if k == p {
                n as nat
            } else {
                old_self.id_at(k - 1)
            } by {
                if k > p {
                    assert(crate::wrap::wrap_order(old_self.order@, p, n as int)[(k - 1) + 1] == old_self.order@[k - 1]);
                }
            }
        }
        Ok(Id::new(n))
    }

    /// Wrap the node stored at `id`, a child of the innermost node being
    /// built, and all its following siblings into a new node with `data`.
    fn wrap(&mut self, id: usize, next_ptr: W::Pointer, data: T, top: Option<usize>)
        requires
            old(self).wf(),
            old(self).can_insert(),
            id < old(self).nodes@.len(),
            link(next_ptr) == Some(old(self).nodes@.len() as int),
            opt_int(top) == link(old(self).nodes@[id as int].parent),
            top == (if old(self).parents@.len() > 0 {
                Some(old(self).parents@.last())
            } else {
                None
            }),
        ensures
            final(self).wf(),
            final(self).parents == old(self).parents,
            final(self).checkpoints == old(self).checkpoints,
            final(self).checkpoint == old(self).checkpoint,
            final(self).cursor == old(self).cursor,
            final(self).nodes@.len() == old(self).nodes@.len() + 1,
            final(self).order@ == crate::wrap::wrap_order(
                old(self).order@,
                old(self).posn@[id as int],
                old(self).nodes@.len() as int,
            ),
            ({
                let s = old(self).open_count();
                let p = old(self).position(id as nat);
                let l = crate::wrap::last_sibling(old(self).depths(), s);
                &&& final(self).depths() == crate::wrap::wrap_depths(old(self).depths(), p, s)
                &&& final(self).values() == old(self).values().insert(p, data)
                &&& final(self).starts() == old(self).starts().insert(p, old(self).starts()[p])
                &&& final(self).ends() == old(self).ends().insert(p, old(self).ends()[l])
            }),
    {
        let ghost old_self = *self;
        let len = self.nodes.len();
        let ghost n = len as int;
        let ghost s = self.parents@.len() as nat;
        let ghost ds = self.depths@;
        let ghost order = self.order@;
        let ghost posn = self.posn@;
        let ghost p = posn[id as int];
        let ghost nodes0 = self.nodes@;
        let ghost tp = top_of(ds, s);
        let ghost pvp = crate::shape::prev_of(ds, p);
        proof {
            // The wrapped node is a child of the innermost open node.
            assert(order[posn[id as int]] == id);
            assert(pos_ok(nodes0, order, ds, p));
            if s > 0 {
                crate::grow::lemma_open_at_pub(ds, s, (s - 1) as nat);
                assert(self.parents@[s - 1] == order[open_at(ds, (s - 1) as nat)]);
                if ds[p] > 0 {
                    crate::shape::lemma_parent(ds, p);
                }
                let t = open_at(ds, (s - 1) as nat);
                assert(posn[order[t]] == t);
                if ds[p] > 0 {
                    assert(posn[order[parent_of(ds, p).unwrap()]] == parent_of(ds, p).unwrap());
                }
            } else {
                if ds[p] > 0 {
                    crate::shape::lemma_parent(ds, p);
                }
            }
            assert(wrappable(ds, s, p));
            lemma_wrappable(ds, s, p);
            crate::wrap::lemma_wrap_stack(ds, s, p);
            lemma_bwd(ds, p - 1, s);
            W::Pointer::lemma_fits_downward(n as nat, id as nat);
            W::Pointer::lemma_fits_downward(n as nat, (n - 1) as nat);
        }
        let links = self.nodes[id];
        let parent = links.parent;
        let prev = links.prev;
        let (last, span) = if !links.next.is_none() {
            proof {
                crate::shape::lemma_next_sub_end(ds, p);
            }
            let (last, end) = restructure_close_at(
                &mut self.nodes,
                next_ptr,
                links.next.get(),
                Ghost(order),
                Ghost(posn),
                Ghost(ds),
                Ghost(s),
                Ghost(p),
            );
            (last, Span::new(links.span.start, end))
        } else {
            (id, links.span)
        };
        let ghost nodes1 = self.nodes@;
        proof {
            let lsib = last_sibling(ds, s);
            assert forall|i: int| 0 <= i < n implies #[trigger] nodes1[i] == if posn[i] > p && ds[posn[i]] == s {
                Links { parent: next_ptr, ..nodes0[i] }
            } else {
                nodes0[i]
            } by {
                if links.next.spec_is_none() && posn[i] > p && ds[posn[i]] == s {
                    assert(posn[i] > lsib);
                }
            }
            assert(last as int == order[lsib]);
            assert(posn[order[lsib]] == lsib);
            assert(0 <= last < n);
            W::Pointer::lemma_fits_downward(n as nat, last as nat);
            assert(span.start == nodes0[id as int].span.start);
            assert(span.end == nodes0[order[lsib]].span.end);
        }
        let mut l = self.nodes[id];
        l.parent = next_ptr;
        l.prev = W::Pointer::none();
        self.nodes.set(id, l);
        let ghost nodes2 = self.nodes@;
        if !parent.is_none() {
            let pid = parent.get();
            let mut pl = self.nodes[pid];
            if !pl.first.is_none() && pl.first.get() == id {
                pl.first = next_ptr;
            }
            // The new node wraps every sibling up to the last one, so it is the
            // last child now.
            pl.last = next_ptr;
            self.nodes.set(pid, pl);
        } else {
            if opt_eq(self.first, Some(id)) {
                self.first = Some(len);
            }
            self.last = Some(len);
        }
        let ghost nodes3 = self.nodes@;
        if !prev.is_none() {
            let pv = prev.get();
            let mut pl = self.nodes[pv];
            pl.next = next_ptr;
            self.nodes.set(pv, pl);
        }
        let ghost nodes4 = self.nodes@;
        let last_ptr = to_ptr(Some(last));
        let first_ptr = to_ptr(Some(id));
        let added = Links { data, span, prev, parent, next: W::Pointer::none(), first: first_ptr, last: last_ptr };
        self.nodes.push(added);
        self.sibling = Some(len);
        self.order = Ghost(crate::wrap::wrap_order(order, p, n));
        self.posn = Ghost(crate::wrap::wrap_posn(posn, p));
        self.depths = Ghost(crate::wrap::wrap_depths(ds, p, s));
        self.toks = Ghost(crate::wrap::wrap_toks(old_self.toks@, p));
        proof {
            let nodes5 = self.nodes@;
            let c = id as int;
            assert(posn[c] == p);
            assert(nodes5[n] == added);
            if let Some(t) = tp {
                assert(posn[order[t]] == t);
                assert(parent.spec_get() == order[t]);
            }
            if let Some(b) = pvp {
                assert(posn[order[b]] == b);
                assert(prev.spec_get() == order[b]);
                assert(ds[b] == s);
            }
            assert forall|i: int| 0 <= i < n implies #[trigger] nodes5[i].data == nodes0[i].data
                && nodes5[i].span == nodes0[i].span by {
            }
            assert(wrapped(nodes0, old_self.first, old_self.last, order, posn, ds, s, p, nodes5, self.first, self.last));
            self.lemma_wrapped(old_self, id, p, data);
        }
    }

    /// The builder is consistent after wrapping the siblings from preorder
    /// position `p` on into a new node.
    proof fn lemma_wrapped(&self, old: Self, id: usize, p: int, data: T)
        requires
            old.wf(),
            old.can_insert(),
            0 <= id < old.nodes@.len(),
            p == old.posn@[id as int],
            wrappable(old.depths@, old.parents@.len() as nat, p),
            wrapped(
                old.nodes@,
                old.first,
                old.last,
                old.order@,
                old.posn@,
                old.depths@,
                old.parents@.len() as nat,
                p,
                self.nodes@,
                self.first,
                self.last,
            ),
            forall|i: int| 0 <= i < old.nodes@.len() ==> #[trigger] self.nodes@[i].data == old.nodes@[i].data
                && self.nodes@[i].span == old.nodes@[i].span,
            self.nodes@[old.nodes@.len() as int].data == data,
            self.nodes@[old.nodes@.len() as int].span.start == old.nodes@[id as int].span.start,
            self.nodes@[old.nodes@.len() as int].span.end == old.nodes@[old.order@[last_sibling(
                old.depths@,
                old.parents@.len() as nat,
            )]].span.end,
            self.order@ == crate::wrap::wrap_order(old.order@, p, old.nodes@.len() as int),
            self.posn@ == crate::wrap::wrap_posn(old.posn@, p),
            self.depths@ == crate::wrap::wrap_depths(old.depths@, p, old.parents@.len() as nat),
            self.toks@ == crate::wrap::wrap_toks(old.toks@, p),
            self.parents == old.parents,
            self.sibling == Some(old.nodes@.len() as usize),
            self.cursor == old.cursor,
            self.span == old.span,
            self.indexes == old.indexes,
            self.checkpoints == old.checkpoints,
            self.checkpoint == old.checkpoint,
        ensures
            self.wf(),
            ({
                let s = old.open_count();
                let l = last_sibling(old.depths(), s);
                &&& self.depths() == crate::wrap::wrap_depths(old.depths(), p, s)
                &&& self.values() == old.values().insert(p, data)
                &&& self.starts() == old.starts().insert(p, old.starts()[p])
                &&& self.ends() == old.ends().insert(p, old.ends()[l])
            }),
    {
        let n = old.nodes@.len() as int;
        let s = old.parents@.len() as nat;
        let ds = old.depths@;
        let order = old.order@;
        let ds2 = self.depths@;
        let order2 = self.order@;
        let nodes = old.nodes@;
        let nodes2 = self.nodes@;
        let lsib = last_sibling(ds, s);
        assert(order[p] == id);
        lemma_wrappable(ds, s, p);
        crate::wrap::lemma_wrap_index(ds, order, p, s, n);
        assert forall|i: int| 0 <= i < n implies #[trigger] nodes2[i].span == nodes[i].span by {
            assert(nodes2[i].data == nodes[i].data);
        }
        crate::wrap::lemma_wrap_shape(
            nodes, old.first, old.last, order, old.posn@, ds, s, p, nodes2, self.first, self.last,
        );
        crate::wrap::lemma_wrap_spans(
            nodes, old.first, old.last, order, old.posn@, ds, s, p, nodes2, self.first, self.last,
            old.cursor.spec_pos(),
        );
        crate::wrap::lemma_wrap_indexes(
            nodes, old.first, old.last, order, old.posn@, ds, s, p, nodes2, self.first, self.last,
            old.indexes@, old.toks@, old.cursor.spec_pos(),
        );
        crate::wrap::lemma_wrap_stack(ds, s, p);
        assert forall|i: int| 0 <= i < s implies #[trigger] self.parents@[i] == order2[open_at(ds2, i as nat)] by {
            assert(old.parents@[i] == order[open_at(ds, i as nat)]);
            assert(open_at(ds2, i as nat) == open_at(ds, i as nat));
            crate::grow::lemma_open_at_pub(ds, s, i as nat);
            let q = open_at(ds, i as nat);
            assert(crate::wrap::wrap_order(order, p, n)[q] == order[q]);
        }
        crate::wrap::lemma_wrap_insert(
            old.values(), order, p, data,
            |i: int| nodes[i].data, |i: int| nodes2[i].data,
        );
        assert(self.values() =~= old.values().insert(p, data));
        crate::wrap::lemma_wrap_insert(
            old.starts(), order, p, old.starts()[p],
            |i: int| nodes[i].span.start.spec_pos(), |i: int| nodes2[i].span.start.spec_pos(),
        );
        assert(self.starts() =~= old.starts().insert(p, old.starts()[p]));
        crate::wrap::lemma_wrap_insert(
            old.ends(), order, p, old.ends()[lsib],
            |i: int| nodes[i].span.end.spec_pos(), |i: int| nodes2[i].span.end.spec_pos(),
        );
        assert(self.ends() =~= old.ends().insert(p, old.ends()[lsib]));
    }

    /// Closing at a checkpoint moved it and no other.
    proof fn lemma_checkpoints_moved(&self, old: Self, c: Checkpoint)
        requires
            c.0 < old.checkpoints@.len(),
            old.nodes@.len() + 3 < isize::MAX,
            self.checkpoints@ == old.checkpoints@.update(
                c.0 as int,
                CheckpointData { node: old.nodes@.len() as usize, parent: old.checkpoints@[c.0 as int].parent },
            ),
            self.checkpoint == old.checkpoint,
            self.nodes@.len() == old.nodes@.len() + 1,
            forall|i: int| 0 <= i < old.checkpoints@.len() ==> #[trigger] old.checkpoints@[i].node <= old.nodes@.len(),
            old.checkpoint matches Some(k) ==> k < old.checkpoints@.len(),
        ensures
            forall|i: int| 0 <= i < self.checkpoints@.len() ==> #[trigger] self.checkpoints@[i].node <= self.nodes@.len(),
            self.checkpoint matches Some(k) ==> k < self.checkpoints@.len(),
            self.checkpoint_view(c) == Some((old.nodes@.len(), match old.checkpoints@[c.0 as int].parent {
                Some(p) => Some(p as nat),
                None => None,
            })),
            forall|d: Checkpoint| d != c ==> #[trigger] self.checkpoint_view(d) == old.checkpoint_view(d),
    {
        assert forall|d: Checkpoint| d != c implies #[trigger] self.checkpoint_view(d) == old.checkpoint_view(d) by {
            assert(d.0 != c.0);
        }
    }

    /// The preorder position of the node stored at `id`.
    pub closed spec fn position(&self, id: nat) -> int {
        self.posn@[id as int]
    }

    /// The storage index of the node at preorder position `k`.
    pub closed spec fn id_at(&self, k: int) -> nat {
        self.order@[k] as nat
    }

    /// How storage indexes, preorder positions, the innermost open node and
    /// parents relate in a consistent builder.
    pub proof fn lemma_ids(&self)
        requires
            self.wf(),
        ensures
            self.depths().len() == self.spec_len(),
            forall|k: int| 0 <= k < self.spec_len() ==> #[trigger] self.id_at(k) < self.spec_len() && self.position(
                self.id_at(k),
            ) == k,
            forall|i: nat| i < self.spec_len() ==> 0 <= #[trigger] self.position(i) < self.spec_len() && self.id_at(
                self.position(i),
            ) == i,
            self.top_id() == match self.top() {
                Some(t) => Some(self.id_at(t)),
                None => None,
            },
            forall|i: nat| i < self.spec_len() ==> #[trigger] self.parent_id(i) == match parent_of(
                self.depths(),
                self.position(i),
            ) {
                Some(p) => Some(self.id_at(p)),
                None => None,
            },
    {
        let n = self.nodes@.len() as int;
        let s = self.parents@.len() as nat;
        assert forall|k: int| 0 <= k < n implies #[trigger] self.id_at(k) < n && self.position(self.id_at(k)) == k by {
            assert(0 <= self.order@[k] < n);
        }
        assert forall|i: nat| i < n implies 0 <= #[trigger] self.position(i) < n && self.id_at(self.position(i)) == i by {
            assert(0 <= self.posn@[i as int] < n);
        }
        if s > 0 {
            assert(self.parents@[s - 1] == self.order@[open_at(self.depths@, (s - 1) as nat)]);
            crate::grow::lemma_open_at_pub(self.depths@, s, (s - 1) as nat);
        }
        assert forall|i: nat| i < n implies #[trigger] self.parent_id(i) == match parent_of(
            self.depths(),
            self.position(i),
        ) {
            Some(p) => Some(self.id_at(p)),
            None => None,
        } by {
            let q = self.posn@[i as int];
            assert(0 <= q < n);
            assert(self.order@[q] == i);
            assert(pos_ok(self.nodes@, self.order@, self.depths@, q));
            if self.depths@[q] > 0 {
                crate::shape::lemma_parent(self.depths@, q);
                let p = parent_of(self.depths@, q).unwrap();
                assert(0 <= self.order@[p] < n);
            }
        }
    }

    /// The storage index of the parent of the node stored at `id`.
    pub closed spec fn parent_id(&self, id: nat) -> Option<nat> {
        match link(self.nodes@[id as int].parent) {
            Some(p) => Some(p as nat),
            None => None,
        }
    }

    /// The preorder position of the open node at level `i`: the last node
    /// whose depth is at most `i`.
    pub open spec fn open_node(&self, i: nat) -> int {
        crate::shape::bwd(self.depths(), self.depths().len() - 1, i)
    }

    /// The builder is consistent after closing its innermost open node.
    proof fn lemma_closed(&self, old: Self)
        requires
            old.wf(),
            old.parents@.len() > 0,
            self.parents@ == old.parents@.drop_last(),
            opt_int(self.sibling) == Some(old.parents@.last() as int),
            old.parents@.len() == 1 ==> self.nodes == old.nodes,
            old.parents@.len() > 1 ==> self.nodes@ == old.nodes@.update(
                old.parents@[old.parents@.len() - 2] as int,
                Links {
                    span: Span {
                        start: old.nodes@[old.parents@[old.parents@.len() - 2] as int].span.start,
                        end: old.nodes@[old.parents@.last() as int].span.end,
                    },
                    ..old.nodes@[old.parents@[old.parents@.len() - 2] as int]
                },
            ),
            self.span == old.span,
            self.indexes == old.indexes,
            self.first == old.first,
            self.last == old.last,
            self.checkpoints == old.checkpoints,
            self.checkpoint == old.checkpoint,
            self.cursor == old.cursor,
            self.order == old.order,
            self.posn == old.posn,
            self.depths == old.depths,
            self.toks == old.toks,
        ensures
            self.wf(),
            self.depths() == old.depths(),
            self.values() == old.values(),
            self.starts() == old.starts(),
            self.ends() == if old.open_count() > 1 {
                old.ends().update(
                    old.open_node((old.open_count() - 2) as nat),
                    old.ends()[old.open_node((old.open_count() - 1) as nat)],
                )
            } else {
                old.ends()
            },
    {
        let n = old.nodes@.len() as int;
        let s = old.parents@.len() as nat;
        let ds = old.depths@;
        let order = old.order@;
        let nodes = old.nodes@;
        let nodes2 = self.nodes@;
        crate::grow::lemma_open_at_pub(ds, s, (s - 1) as nat);
        let x = open_at(ds, (s - 1) as nat);
        assert(old.parents@[s - 1] == order[x]);
        let pp = if s > 1 { open_at(ds, (s - 2) as nat) } else { -1 };
        if s > 1 {
            crate::grow::lemma_open_at_pub(ds, s, (s - 2) as nat);
            assert(old.parents@[s - 2] == order[pp]);
        }
        // Only the span of the parent of the closed node changes.
        assert forall|i: int| 0 <= i < n && (s <= 1 || i != order[pp]) implies #[trigger] nodes2[i] == nodes[i] by {
        }
        assert forall|k: int| 0 <= k < n implies #[trigger] crate::raw::pos_ok(nodes2, order, ds, k) by {
            assert(crate::raw::pos_ok(nodes, order, ds, k));
        }
        assert(crate::raw::links_wf(nodes2, order, ds));
        // The last child of the parent is the closed node.
        if s > 1 {
            assert(crate::raw::pos_ok(nodes, order, ds, pp));
            crate::shape::lemma_sub_end(ds, pp);
            crate::shape::lemma_fwd_unique(ds, pp + 1, ds[pp], n);
            if pp + 1 < n {
                assert(crate::shape::step_ok(ds, pp));
            }
            lemma_bwd(ds, n - 1, (s - 1) as nat);
            assert(crate::shape::last_of(ds, pp) == Some(x));
        }
        assert(sibling_of(ds, (s - 1) as nat) == Some(x));
        let s1 = (s - 1) as nat;
        assert forall|k: int| 0 <= k < n - 1 implies #[trigger] crate::raw::start_ok(nodes2, order, ds, k) by {
            assert(crate::raw::start_ok(nodes, order, ds, k));
            if s > 1 {
                if k + 1 == pp {
                    assert(nodes2[order[pp]].span.start == nodes[order[pp]].span.start);
                }
                if k == pp {
                    assert(first_of(ds, pp) is Some);
                }
            }
        }
        assert forall|k: int| 0 <= k < n implies #[trigger] crate::raw::end_ok(nodes2, order, ds, s1, k) by {
            assert(crate::raw::end_ok(nodes, order, ds, s, k));
            match crate::shape::last_of(ds, k) {
                Some(c) => {
                    crate::grow::lemma_last_range_pub(ds, k);
                    if s > 1 && k == pp {
                    } else {
                        assert(crate::raw::is_open(ds, s1, c) == crate::raw::is_open(ds, s, c)) by {
                            if ds[c] == s1 && c == x {
                                crate::grow::lemma_last_parent(ds, k);
                                if s > 1 {
                                    crate::grow::lemma_parent_of_open(ds, s, (s - 1) as nat);
                                } else {
                                    assert(ds[x] == 0);
                                }
                            }
                        }
                        if s > 1 && c == pp {
                            assert(crate::raw::is_open(ds, s1, pp));
                        }
                    }
                },
                None => {
                },
            }
        }
        if n > 0 && s > 1 {
            assert(n - 1 != pp);
        }
        assert(self.values() =~= old.values());
        assert(self.starts() =~= old.starts());
        let ends2 = if s > 1 {
            old.ends().update(pp, old.ends()[x])
        } else {
            old.ends()
        };
        assert(self.ends() =~= ends2);
        assert forall|i: int| 0 <= i < old.toks@.len() implies #[trigger] old.toks@[i] >= 0 && (s <= 1 || old.toks@[i] != pp) by {
            assert(0 <= old.toks@[i]);
        }
        assert forall|k: int| 0 <= k < n && #[trigger] crate::raw::is_indexed(nodes2, order, ds, k) implies crate::raw::is_indexed(nodes, order, ds, k) by {
            if s > 1 && k == pp {
                assert(first_of(ds, pp) is Some);
            }
        }
    }

    /// The facts shared by every operation that appends a node: the shape and
    /// spans of the new arena, the stack levels below the new node and the
    /// token indexes that were already there.
    proof fn lemma_inserted(
        &self,
        old: Self,
        id: usize,
        data: T,
        span: Span<I>,
        s2: nat,
        entry: TreeIndex<I, W::Pointer>,
    )
        requires
            span.start.spec_pos() < span.end.spec_pos() ==> entry.index == span.end && link(entry.id) == Some(id as int),
            old.wf(),
            old.can_insert(),
            self.inserted(old, id, data, span),
            span.start.spec_pos() == old.cursor.spec_pos(),
            span.start.spec_pos() <= span.end.spec_pos(),
            s2 == old.parents@.len() || s2 == old.parents@.len() + 1,
            s2 == old.parents@.len() + 1 ==> span.start.spec_pos() == span.end.spec_pos(),
        ensures
            shape_wf(self.nodes@, self.first, self.last, self.order@, self.posn@, self.depths@),
            spans_wf(self.nodes@, self.order@, self.depths@, s2, span.end.spec_pos()),
            stack_ok(self.depths@, s2),
            forall|i: int|
                0 <= i < old.parents@.len() ==> #[trigger] old.parents@[i] == self.order@[open_at(
                    self.depths@,
                    i as nat,
                )],
            open_at(self.depths@, old.parents@.len() as nat) == id,
            self.order@[id as int] == id,
            self.depths@[id as int] == old.parents@.len(),
            span.start.spec_pos() == span.end.spec_pos() ==> indexes_wf(
                self.nodes@,
                self.order@,
                self.depths@,
                old.indexes@,
                old.toks@,
                old.cursor.spec_pos(),
            ),
            span.start.spec_pos() < span.end.spec_pos() ==> indexes_wf(
                self.nodes@,
                self.order@,
                self.depths@,
                old.indexes@.push(entry),
                old.toks@.push(id as int),
                span.end.spec_pos(),
            ),
            forall|i: int| 0 <= i < self.checkpoints@.len() ==> #[trigger] self.checkpoints@[i].node <= self.nodes@.len(),
            self.values() == old.values().push(data),
            self.starts() == old.starts().push(span.start.spec_pos()),
            self.ends() == match old.top() {
                Some(t) => old.ends().update(t, span.end.spec_pos()),
                None => old.ends(),
            }.push(span.end.spec_pos()),
    {
        let n = old.nodes@.len() as int;
        let s = old.parents@.len() as nat;
        let ds = old.depths@;
        let ds2 = self.depths@;
        let order = old.order@;
        let order2 = self.order@;
        let top = top_of(ds, s);
        lemma_append_shape(
            old.nodes@,
            old.first,
            old.last,
            order,
            old.posn@,
            ds,
            s,
            self.nodes@,
            self.first,
            self.last,
        );
        if s > 0 {
            lemma_bwd_exact(ds, n - 1, (s - 1) as nat);
            lemma_bwd(ds, n - 1, (s - 1) as nat);
        }
        assert forall|i: int| 0 <= i < n && Some(i) != id_of(order, top) implies #[trigger] self.nodes@[i].span == old.nodes@[i].span by {
        }
        lemma_append_spans(
            old.nodes@,
            old.first,
            old.last,
            order,
            old.posn@,
            ds,
            s,
            old.cursor.spec_pos(),
            self.nodes@,
            self.first,
            self.last,
            s2,
        );
        assert forall|i: int| 0 <= i < s implies #[trigger] old.parents@[i] == order2[open_at(ds2, i as nat)] by {
            assert(old.parents@[i] == order[open_at(ds, i as nat)]);
            lemma_bwd_exact(ds, n - 1, i as nat);
            lemma_bwd(ds, n - 1, i as nat);
            assert(bwd(ds2, n, i as nat) == bwd(ds2, n - 1, i as nat));
            lemma_bwd_push(ds, s, n - 1, i as nat);
        }
        assert(bwd(ds2, n, s) == n);
        // The innermost open node, if a leaf, was empty, so it was not indexed.
        if let Some(t) = top {
            assert(crate::raw::end_ok(old.nodes@, order, ds, s, t));
            assert(crate::raw::pos_ok(old.nodes@, order, ds, t));
        }
        self.lemma_inserted_indexes(old, id, data, span);
        if span.start.spec_pos() < span.end.spec_pos() {
            let toks2 = old.toks@.push(id as int);
            let idx2 = old.indexes@.push(entry);
            assert forall|k: int|
                0 <= k < self.nodes@.len() && #[trigger] is_indexed(self.nodes@, order2, ds2, k) implies exists|i: int|
                0 <= i < toks2.len() && toks2[i] == k by {
                if k < n {
                    let i = choose|i: int| 0 <= i < old.toks@.len() && old.toks@[i] == k;
                    assert(toks2[i] == k);
                } else {
                    assert(toks2[old.toks@.len() as int] == k);
                }
            }
            assert forall|i: int, j: int| 0 <= i < j < toks2.len() implies #[trigger] toks2[i] < #[trigger] toks2[j] by {
                assert(old.toks@[i] < n);
            }
            assert forall|i: int, j: int| 0 <= i < j < toks2.len() implies #[trigger] idx2[i].index.spec_pos() < #[trigger] idx2[j].index.spec_pos() by {
                assert(0 <= old.toks@[i]);
                assert(old.indexes@[i].index.spec_pos() <= old.cursor.spec_pos());
            }
            assert forall|i: int| 0 <= i < toks2.len() implies {
                &&& 0 <= #[trigger] toks2[i] < self.nodes@.len()
                &&& is_indexed(self.nodes@, order2, ds2, toks2[i])
                &&& idx2[i].index == self.nodes@[order2[toks2[i]]].span.end
                &&& link(idx2[i].id) == Some(order2[toks2[i]])
                &&& idx2[i].index.spec_pos() <= span.end.spec_pos()
            } by {
                if i < old.toks@.len() {
                    assert(0 <= old.toks@[i]);
                    assert(old.indexes@[i].index.spec_pos() <= old.cursor.spec_pos());
                }
            }
        }
        assert(self.values() =~= old.values().push(data));
        assert(self.starts() =~= old.starts().push(span.start.spec_pos()));
        let ends2 = match old.top() {
            Some(t) => old.ends().update(t, span.end.spec_pos()),
            None => old.ends(),
        }.push(span.end.spec_pos());
        assert(self.ends() =~= ends2) by {
            assert forall|k: int| 0 <= k < n + 1 implies self.ends()[k] == ends2[k] by {
                if k < n {
                    assert(order2[k] == order[k]);
                    if Some(k) == top {
                    } else {
                        assert(Some(order[k]) != id_of(order, top));
                    }
                }
            }
        }
    }

    /// The token indexes that were there are still valid after appending a
    /// node, which has not taken any input yet.
    proof fn lemma_inserted_indexes(&self, old: Self, id: usize, data: T, span: Span<I>)
        requires
            old.wf(),
            old.can_insert(),
            self.inserted(old, id, data, span),
            shape_wf(self.nodes@, self.first, self.last, self.order@, self.posn@, self.depths@),
            span.start.spec_pos() == old.cursor.spec_pos(),
            span.start.spec_pos() <= span.end.spec_pos(),
            top_of(old.depths@, old.parents@.len() as nat) matches Some(t) ==> first_of(old.depths@, t) is Some
                || start_at(old.nodes@, old.order@, t) == end_at(old.nodes@, old.order@, t),
        ensures
            forall|i: int|
                0 <= i < old.toks@.len() ==> {
                    &&& 0 <= #[trigger] old.toks@[i] < old.nodes@.len()
                    &&& is_indexed(self.nodes@, self.order@, self.depths@, old.toks@[i])
                    &&& old.indexes@[i].index == self.nodes@[self.order@[old.toks@[i]]].span.end
                    &&& link(old.indexes@[i].id) == Some(self.order@[old.toks@[i]])
                    &&& old.indexes@[i].index.spec_pos() <= old.cursor.spec_pos()
                },
            forall|k: int|
                0 <= k < old.nodes@.len() && #[trigger] is_indexed(self.nodes@, self.order@, self.depths@, k) ==> exists|i: int|
                    0 <= i < old.toks@.len() && old.toks@[i] == k,
            !is_indexed(self.nodes@, self.order@, self.depths@, id as int) <==> span.start.spec_pos() == span.end.spec_pos(),
    {
        let n = old.nodes@.len() as int;
        let s = old.parents@.len() as nat;
        let ds = old.depths@;
        let ds2 = self.depths@;
        let order = old.order@;
        let order2 = self.order@;
        let top = top_of(ds, s);
        let toks = old.toks@;
        if s > 0 {
            lemma_bwd_exact(ds, n - 1, (s - 1) as nat);
            lemma_bwd(ds, n - 1, (s - 1) as nat);
        }
        assert forall|k: int| 0 <= k < n implies first_of(ds2, k) is Some == (first_of(ds, k) is Some || Some(k) == top) by {
            if k + 1 < n {
                assert(crate::shape::step_ok(ds, k));
            }
            if k == n - 1 && s == ds[k] + 1 {
                crate::shape::lemma_bwd_unique(ds, n - 1, ds[k], k);
            }
        }
        assert forall|i: int| 0 <= i < toks.len() implies {
            &&& 0 <= #[trigger] toks[i] < n
            &&& is_indexed(self.nodes@, order2, ds2, toks[i])
            &&& old.indexes@[i].index == self.nodes@[order2[toks[i]]].span.end
            &&& link(old.indexes@[i].id) == Some(order2[toks[i]])
            &&& old.indexes@[i].index.spec_pos() <= old.cursor.spec_pos()
        } by {
            let t = toks[i];
            assert(is_indexed(old.nodes@, order, ds, t));
            assert(order2[t] == order[t]);
            if Some(t) == top {
                assert(false);
            }
            assert(Some(order[t]) != id_of(order, top));
        }
        assert forall|k: int| 0 <= k < n && #[trigger] is_indexed(self.nodes@, order2, ds2, k) implies exists|i: int|
            0 <= i < toks.len() && toks[i] == k by {
            assert(order2[k] == order[k]);
            if Some(k) != top {
                assert(Some(order[k]) != id_of(order, top));
                assert(is_indexed(old.nodes@, order, ds, k));
            }
        }
        assert(first_of(ds2, n) is None);
    }

    /// What `insert` does: append a node at the depth of the stack, linked
    /// as the last child of the innermost open node, which now ends where the
    /// new node ends.
    closed spec fn inserted(&self, old: Self, id: usize, data: T, span: Span<I>) -> bool {
        let n = old.nodes@.len();
        let s = old.parents@.len() as nat;
        let top = id_of(old.order@, top_of(old.depths@, s));
        &&& id == n
        &&& appended(
            old.nodes@,
            old.first,
            old.last,
            old.order@,
            old.depths@,
            s,
            self.nodes@,
            self.first,
            self.last,
        )
        &&& self.nodes@[n as int].data == data
        &&& self.nodes@[n as int].span == span
        &&& forall|i: int| 0 <= i < n ==> #[trigger] self.nodes@[i].data == old.nodes@[i].data
        &&& forall|i: int|
            0 <= i < n && Some(i) != top ==> #[trigger] self.nodes@[i].span == old.nodes@[i].span
        &&& top matches Some(t) ==> {
            &&& self.nodes@[t].span.start == old.nodes@[t].span.start
            &&& self.nodes@[t].span.end == span.end
        }
        &&& self.order@ == old.order@.push(n as int)
        &&& self.posn@ == old.posn@.push(n as int)
        &&& self.depths@ == old.depths@.push(s)
        &&& self.parents == old.parents
        &&& self.sibling is None
        &&& self.cursor == old.cursor
        &&& self.span == old.span
        &&& self.indexes == old.indexes
        &&& self.toks == old.toks
        &&& self.checkpoints == old.checkpoints
        &&& self.checkpoint == old.checkpoint
    }
}

} // verus!
