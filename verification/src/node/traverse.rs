//! Iterators over the nodes of a tree, specified by the nodes they have yet
//! to produce.

use vstd::prelude::*;

use crate::index::Index;
use crate::pointer::Width;
use crate::tree::Node;

verus! {

/// The nodes of a sequence that have children (that are not tokens), in
/// order.
pub open spec fn with_children<'a, T, I: Index, W: Width>(s: Seq<Node<'a, T, I, W>>) -> Seq<Node<'a, T, I, W>>
    decreases s.len(),
{
    if s.len() == 0 {
        s
    } else if s[0].spec_has_children() {
        seq![s[0]] + with_children(s.drop_first())
    } else {
        with_children(s.drop_first())
    }
}

/// Keeping the nodes with children commutes with taking the last node off.
pub proof fn lemma_with_children_back<'a, T, I: Index, W: Width>(s: Seq<Node<'a, T, I, W>>)
    requires
        s.len() > 0,
    ensures
        with_children(s) == with_children(s.drop_last()) + if s.last().spec_has_children() {
            seq![s.last()]
        } else {
            Seq::empty()
        },
    decreases s.len(),
{
    if s.len() > 1 {
        lemma_with_children_back(s.drop_first());
        assert(s.drop_first().drop_last() =~= s.drop_last().drop_first());
        assert(s.drop_first().last() == s.last());
        if s[0].spec_has_children() {
            assert(s.drop_last()[0] == s[0]);
            let tail = if s.last().spec_has_children() {
                seq![s.last()]
            } else {
                Seq::empty()
            };
            assert(seq![s[0]] + (with_children(s.drop_first().drop_last()) + tail) =~= (seq![s[0]]
                + with_children(s.drop_last().drop_first())) + tail);
        }
    } else {
        assert(s.drop_last() =~= Seq::<Node<'a, T, I, W>>::empty());
        assert(s.drop_first() =~= Seq::<Node<'a, T, I, W>>::empty());
        assert(with_children(s.drop_first()) =~= Seq::<Node<'a, T, I, W>>::empty());
        if s[0].spec_has_children() {
            assert(with_children(s) =~= seq![s[0]] + Seq::<Node<'a, T, I, W>>::empty());
        }
    }
}

/// An iterator over the nodes of a tree.
pub trait NodeIterator<'a, T, I: Index, W: Width>: Sized {
    /// The nodes the iterator has yet to produce, in order.
    spec fn remaining(&self) -> Seq<Node<'a, T, I, W>>;

    /// Produce the next node, if any remains.
    fn next(&mut self) -> (r: Option<Node<'a, T, I, W>>)
        ensures
            old(self).remaining().len() == 0 ==> r is None && final(self).remaining().len() == 0,
            old(self).remaining().len() > 0 ==> r == Some(old(self).remaining()[0])
                && final(self).remaining() == old(self).remaining().drop_first(),
    ;
}

/// An iterator over the nodes of a tree that can also produce nodes from the
/// back.
pub trait DoubleEndedNodeIterator<'a, T, I: Index, W: Width>: NodeIterator<'a, T, I, W> {
    /// Produce the last remaining node, if any.
    fn next_back(&mut self) -> (r: Option<Node<'a, T, I, W>>)
        ensures
            old(self).remaining().len() == 0 ==> r is None && final(self).remaining().len() == 0,
            old(self).remaining().len() > 0 ==> r == Some(old(self).remaining().last())
                && final(self).remaining() == old(self).remaining().drop_last(),
    ;
}

/// Produce the next node with children, skipping tokens.
pub(crate) fn next_with_children<'a, T, I: Index, W: Width, U: NodeIterator<'a, T, I, W>>(iter: &mut U) -> (r: Option<
    Node<'a, T, I, W>,
>)
    ensures
        with_children(old(iter).remaining()).len() == 0 ==> r is None && with_children(final(iter).remaining()).len()
            == 0,
        with_children(old(iter).remaining()).len() > 0 ==> r == Some(with_children(old(iter).remaining())[0])
            && with_children(final(iter).remaining()) == with_children(old(iter).remaining()).drop_first(),
{
    loop
        invariant
            with_children(iter.remaining()) == with_children(old(iter).remaining()),
        decreases iter.remaining().len(),
    {
        let ghost before = iter.remaining();
        match iter.next() {
            None => {
                return None;
            },
            Some(n) => {
                if n.has_children() {
                    return Some(n);
                }
            },
        }
    }
}

/// Produce the last node with children, skipping tokens.
pub(crate) fn next_back_with_children<'a, T, I: Index, W: Width, U: DoubleEndedNodeIterator<'a, T, I, W>>(
    iter: &mut U,
) -> (r: Option<Node<'a, T, I, W>>)
    ensures
        with_children(old(iter).remaining()).len() == 0 ==> r is None && with_children(final(iter).remaining()).len()
            == 0,
        with_children(old(iter).remaining()).len() > 0 ==> r == Some(with_children(old(iter).remaining()).last())
            && with_children(final(iter).remaining()) == with_children(old(iter).remaining()).drop_last(),
{
    loop
        invariant
            with_children(iter.remaining()) == with_children(old(iter).remaining()),
        decreases iter.remaining().len(),
    {
        let ghost before = iter.remaining();
        proof {
            if before.len() > 0 {
                lemma_with_children_back(before);
            }
        }
        match iter.next_back() {
            None => {
                return None;
            },
            Some(n) => {
                if n.has_children() {
                    proof {
                        assert(with_children(before).last() == n);
                        assert(with_children(before).drop_last() =~= with_children(before.drop_last()));
                    }
                    return Some(n);
                }
                proof {
                    assert(with_children(before) =~= with_children(before.drop_last()));
                }
            },
        }
    }
}

} // verus!
