//! A doubly linked list whose nodes live in a bump arena.
//!
//! A [`LinkedList`] is a table of nodes in one [`Bump`]. A node is named by
//! its handle, the index at which it entered the table: the first node has
//! handle 0 and every later one the next number. Any node is an entry to
//! its chain, and every operation says at which node it starts.
//!
//! Nodes are never freed one by one. [`LinkedList::pop_end`] takes the
//! value out of the tail and unlinks it; the node itself stays in the
//! table, without a value, until the arena goes.
//!
//! Three things are worth knowing before reading the contracts:
//!
//! - [`LinkedList::append`] sets the backward link of the new node to the
//!   node it was called on, which is the tail only where the call was made
//!   on the tail. [`LinkedList::prepend`] does the same with the forward
//!   link. So the two directions of a chain need not mirror each other;
//!   [`node::appended`] and [`node::prepended`] say exactly what is linked.
//! - No operation tests at run time whether a link would close a circle
//!   or whether a node still holds a value. The `requires` of each
//!   operation rules those calls out; [`LinkedList::can_append`],
//!   [`LinkedList::can_prepend`], [`LinkedList::holds_value`] and
//!   [`LinkedList::is_readable_from`] test the same conditions at run time.
//! - The contracts speak of the table as a sequence of [`Node`]s. What
//!   they mean for the order of the values is proved in [`laws`].
pub use bumpalo::Bump;

pub mod arena;
pub mod iter;
pub mod laws;
pub mod links;
pub mod list;
pub mod node;

pub use iter::{Iter, IterMut};
pub use list::LinkedList;
pub use node::Node;
