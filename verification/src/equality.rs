//! Comparing trees: two trees are equal when they have the same shape and
//! their nodes hold equal data over the same spans.

use vstd::prelude::*;
use vstd::std_specs::cmp::{PartialEqSpec, PartialEqSpecImpl};

use crate::index::Index;
use crate::pointer::Width;
use crate::span::Span;
use crate::tree::{Node, Tree};

verus! {

/// Two spans cover the same positions.
fn same_span<I: Index>(a: Span<I>, b: Span<I>) -> (r: bool)
    ensures
        r == (a.start.spec_pos() == b.start.spec_pos() && a.end.spec_pos() == b.end.spec_pos()),
{
    a.start.le(&b.start) && b.start.le(&a.start) && a.end.le(&b.end) && b.end.le(&a.end)
}

/// The trees agree on their first `i` nodes in preorder.
pub open spec fn agree_upto<T: PartialEqSpec, I: Index, A: Width, B: Width>(
    x: Tree<T, I, B>,
    y: Tree<T, I, A>,
    i: int,
) -> bool {
    &&& forall|k: int| 0 <= k < i ==> #[trigger] x.depths()[k] == y.depths()[k]
    &&& forall|k: int| 0 <= k < i ==> #[trigger] x.starts()[k] == y.starts()[k]
    &&& forall|k: int| 0 <= k < i ==> #[trigger] x.ends()[k] == y.ends()[k]
    &&& T::obeys_eq_spec() ==> forall|k: int| 0 <= k < i ==> (#[trigger] x.values()[k]).eq_spec(&y.values()[k])
}

impl<T: Copy + PartialEq + PartialEqSpec, I: Index, A: Width, B: Width> PartialEq<Tree<T, I, A>> for Tree<T, I, B> {
    fn eq(&self, other: &Tree<T, I, A>) -> (r: bool) {
        proof {
            use_type_invariant(self);
            use_type_invariant(other);
            self.lemma_inv();
            other.lemma_inv();
        }
        let mut a = self.walk_with_depths();
        let mut b = other.walk_with_depths();
        let ghost all_a = a.remaining();
        let ghost all_b = b.remaining();
        let mut i: usize = 0;
        loop
            invariant
                self.inv(),
                other.inv(),
                all_a.len() == self.spec_len(),
                all_b.len() == other.spec_len(),
                all_a == self.nodes_at(crate::shape::range_seq(0, self.spec_len() as int)).map_values(
                    |n: Node<'_, T, I, B>| (n.tree().depths()[n.pos()] as isize, n),
                ),
                all_b == other.nodes_at(crate::shape::range_seq(0, other.spec_len() as int)).map_values(
                    |n: Node<'_, T, I, A>| (n.tree().depths()[n.pos()] as isize, n),
                ),
                i <= self.spec_len(),
                i <= other.spec_len(),
                a.remaining() == all_a.skip(i as int),
                b.remaining() == all_b.skip(i as int),
                agree_upto(*self, *other, i as int),
                self.depths().len() == self.spec_len(),
                other.depths().len() == other.spec_len(),
                self.starts().len() == self.spec_len(),
                other.starts().len() == other.spec_len(),
                self.ends().len() == self.spec_len(),
                other.ends().len() == other.spec_len(),
                self.values().len() == self.spec_len(),
                other.values().len() == other.spec_len(),
                self.spec_len() + 2 < isize::MAX,
                other.spec_len() + 2 < isize::MAX,
                forall|j: int| 0 <= j < self.spec_len() ==> #[trigger] self.depths()[j] <= j,
                forall|j: int| 0 <= j < other.spec_len() ==> #[trigger] other.depths()[j] <= j,
            decreases self.spec_len() - i,
        {
            let ghost k = i as int;
            let na = a.next();
            let nb = b.next();
            match (na, nb) {
                (None, None) => {
                    proof {
                        assert(all_a.skip(k).len() == 0);
                        assert(all_b.skip(k).len() == 0);
                        assert(self.depths() =~= other.depths());
                        assert(self.starts() =~= other.starts());
                        assert(self.ends() =~= other.ends());
                    }
                    return true;
                },
                (Some((da, x)), Some((db, y))) => {
                    proof {
                        assert(all_a.skip(k)[0] == all_a[k]);
                        assert(all_b.skip(k)[0] == all_b[k]);
                        self.lemma_spec_node(k);
                        other.lemma_spec_node(k);
                        assert(x == self.spec_node(k));
                        assert(y == other.spec_node(k));
                        assert(da == self.depths()[k]);
                        assert(db == other.depths()[k]);
                    }
                    let vx = x.value();
                    let vy = y.value();
                    let same_value = vx == vy;
                    let sx = x.span();
                    let sy = y.span();
                    let same_sp = same_span(sx, sy);
                    proof {
                        self.lemma_inv();
                        other.lemma_inv();
                        assert(vx == self.values()[k]);
                        assert(vy == other.values()[k]);
                        assert(sx.start.spec_pos() == self.starts()[k]);
                        assert(sy.start.spec_pos() == other.starts()[k]);
                        assert(sx.end.spec_pos() == self.ends()[k]);
                        assert(sy.end.spec_pos() == other.ends()[k]);
                    }
                    if !(da == db && same_value && same_sp) {
                        proof {
                            if self.depths() =~= other.depths() && self.starts() =~= other.starts() && self.ends()
                                =~= other.ends() && T::obeys_eq_spec() {
                                assert(self.depths()[k] == other.depths()[k]);
                                assert(self.starts()[k] == other.starts()[k]);
                                assert(self.ends()[k] == other.ends()[k]);
                                assert(!self.values()[k].eq_spec(&other.values()[k]));
                            }
                        }
                        return false;
                    }
                    i = i + 1;
                    proof {
                        assert(a.remaining() =~= all_a.skip(i as int));
                        assert(b.remaining() =~= all_b.skip(i as int));
                    }
                },
                (Some(_), None) => {
                    proof {
                        assert(all_b.skip(k).len() == 0);
                        assert(all_a.skip(k).len() > 0);
                        assert(self.depths().len() != other.depths().len());
                    }
                    return false;
                },
                (None, Some(_)) => {
                    proof {
                        assert(all_a.skip(k).len() == 0);
                        assert(all_b.skip(k).len() > 0);
                        assert(self.depths().len() != other.depths().len());
                    }
                    return false;
                },
            }
        }
    }
}

impl<T: Copy + PartialEq + PartialEqSpec, I: Index, A: Width, B: Width> PartialEqSpecImpl<Tree<T, I, A>> for Tree<T, I, B> {
    open spec fn obeys_eq_spec() -> bool {
        T::obeys_eq_spec()
    }

    open spec fn eq_spec(&self, other: &Tree<T, I, A>) -> bool {
        &&& self.depths() == other.depths()
        &&& self.starts() == other.starts()
        &&& self.ends() == other.ends()
        &&& forall|k: int| 0 <= k < self.depths().len() ==> (#[trigger] self.values()[k]).eq_spec(&other.values()[k])
    }
}

} // verus!
