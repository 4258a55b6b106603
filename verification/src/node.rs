//! Types associated with nodes and in particular node walking.
//!
//! Every iterator here is specified by the nodes it has yet to produce (see
//! [`NodeIterator`]); walks are stated over the preorder positions of the
//! tree they walk.

mod ancestors;
mod children;
mod siblings;
mod skip_tokens;
mod traverse;
mod walk;
mod walk_events;
mod walk_rev;

pub use crate::node::ancestors::{ancestor_nodes, ancestor_seq, lemma_ancestor_seq, lemma_ancestors_climb, Ancestors};
pub use crate::node::children::{run_nodes, Children};
pub use crate::node::siblings::{lemma_sibling_seq, lemma_siblings_follow, sibling_nodes, Siblings};
pub use crate::node::skip_tokens::{lemma_skip_tokens, SkipTokens};
pub use crate::node::traverse::{with_children, DoubleEndedNodeIterator, NodeIterator};
pub use crate::node::walk::{
    entry_of, inside_nodes, lemma_tree_events, lemma_walk_parts, walk_nodes, walk_step, Inside, Walk, WithDepths,
};
pub use crate::node::walk_events::{event_step, lemma_events_inside, lemma_events_preorder, Event, WalkEvents};
pub use crate::node::walk_rev::{covers, lemma_mirror_covers, mirror, rev_climb, rev_rest, WalkRev};
pub use crate::tree::Node;
