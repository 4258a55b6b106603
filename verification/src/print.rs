//! What a pretty-printed tree shows: every node in preorder, indented by its
//! depth. Writing the lines out is left to the caller.

use vstd::prelude::*;

use crate::index::Index;
use crate::node::{NodeIterator, WithDepths};
use crate::pointer::Width;
use crate::shape::{first_of, range_seq};
use crate::span::Span;
use crate::tree::{Node, Tree};

verus! {

/// One line of a printed tree.
#[derive(Debug, Clone, Copy)]
pub struct Line<T, I> {
    /// The number of spaces the line is indented by: two per level of depth.
    pub indent: usize,
    /// The data of the node.
    pub value: T,
    /// The span of the node.
    pub span: Span<I>,
    /// Whether the node has children; a node without children is a token,
    /// printed together with the source it spans.
    pub has_children: bool,
}

/// The line that prints the node at preorder position `k` of `tree`.
pub open spec fn line_at<T, I: Index, W: Width>(tree: Tree<T, I, W>, k: int) -> Line<T, I> {
    Line {
        indent: (2 * tree.depths()[k]) as usize,
        value: tree.values()[k],
        span: tree.spans()[k],
        has_children: first_of(tree.depths(), k) is Some,
    }
}

/// The lines that pretty-print a tree: one per node, in preorder.
pub fn print_lines<T: Copy, I: Index, W: Width>(tree: &Tree<T, I, W>) -> (r: Vec<Line<T, I>>)
    ensures
        r@.len() == tree.spec_len(),
        forall|k: int| 0 <= k < tree.spec_len() ==> #[trigger] r@[k] == line_at(*tree, k),
{
    proof {
        use_type_invariant(tree);
        tree.lemma_inv();
    }
    let mut it = tree.walk_with_depths();
    let mut lines: Vec<Line<T, I>> = Vec::new();
    let ghost all = tree.nodes_at(range_seq(0, tree.spec_len() as int)).map_values(
        |n: Node<'_, T, I, W>| (n.tree().depths()[n.pos()] as isize, n),
    );
    loop
        invariant
            tree.inv(),
            tree.spec_len() + 2 < isize::MAX,
            all.len() == tree.spec_len(),
            forall|k: int| 0 <= k < tree.spec_len() ==> #[trigger] tree.depths()[k] <= k,
            lines@.len() <= tree.spec_len(),
            it.remaining() == all.skip(lines@.len() as int),
            all == tree.nodes_at(range_seq(0, tree.spec_len() as int)).map_values(
                |n: Node<'_, T, I, W>| (n.tree().depths()[n.pos()] as isize, n),
            ),
            forall|k: int| 0 <= k < lines@.len() ==> #[trigger] lines@[k] == line_at(*tree, k),
        decreases tree.spec_len() - lines@.len(),
    {
        let ghost i = lines@.len() as int;
        let next = it.next();
        match next {
            None => {
                proof {
                    assert(all.skip(i).len() == 0);
                }
                return lines;
            },
            Some((depth, node)) => {
                proof {
                    assert(all.skip(i)[0] == all[i]);
                    let n = tree.spec_node(i);
                    assert(tree.nodes_at(range_seq(0, tree.spec_len() as int))[i] == n);
                    use_type_invariant(&node);
                    node.lemma_inv();
                    assert(node == n);
                    tree.lemma_spec_node(i);
                    assert(node.tree() == *tree);
                    assert(node.pos() == i);
                    assert(depth == tree.depths()[i]);
                }
                let indent = (depth as usize) * 2;
                lines.push(Line { indent, value: node.value(), span: node.span(), has_children: node.has_children() });
                proof {
                    assert(it.remaining() =~= all.skip(i + 1));
                }
            },
        }
    }
}

} // verus!
