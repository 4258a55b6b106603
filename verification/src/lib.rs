//! A memory efficient syntax tree.
//!
//! A tree is stored contiguously and is built through a [`TreeBuilder`]:
//! balanced [`TreeBuilder::open`] and [`TreeBuilder::close`] calls make
//! nodes, [`TreeBuilder::token`] adds a node without children that covers a
//! length of the input, and a [`Checkpoint`] lets a node be wrapped around
//! siblings that were built before it.
//!
//! The source text is not stored: each node only carries its [`Span`] in it.
//! The span of a node covers the spans of all its children.
//!
//! In specifications a tree is a forest listed in preorder, given by the
//! depth of each node ([`shape`]), its data and its span. Walks and the other
//! iterators of [`node`] are specified by the nodes they have yet to produce.

mod builder;
mod equality;
mod error;
mod grow;
mod index;
mod raw;
mod span;
mod tree;
mod wrap;

pub mod nesting;
pub mod node;
pub mod pointer;
pub mod print;
pub mod shape;

pub use crate::builder::{Checkpoint, Id, TreeBuilder};
pub use crate::error::Error;
pub use crate::index::{Empty, Index, Length, Sealed};
pub use crate::raw::{Links, TreeIndex};
pub use crate::span::Span;
pub use crate::tree::{Node, Tree};
