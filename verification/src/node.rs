//! The nodes of a list and what a table of nodes means.
//!
//! A list is described by the sequence of its nodes, in the order of their
//! handles. The functions here say, for such a sequence, where the walks
//! along its links lead, which values they meet, and what each operation
//! of the list makes of it.
use crate::links::{acyclic, end_of, path, reaches};
use vstd::prelude::*;

verus! {

/// One node: its value and the handles of its two neighbours.
pub struct Node<T> {
    /// The value; `None` once it was popped off the list.
    pub value: Option<T>,
    /// The node after this one, if any.
    pub next: Option<usize>,
    /// The node before this one, if any.
    pub before: Option<usize>,
}

/// A node that holds `value` and has no neighbour.
pub open spec fn single<T>(value: T) -> Node<T> {
    Node { value: Some(value), next: None, before: None }
}

/// The forward links of all nodes.
pub open spec fn next_links<T>(s: Seq<Node<T>>) -> Seq<Option<usize>> {
    Seq::new(s.len(), |i: int| s[i].next)
}

/// The backward links of all nodes.
pub open spec fn before_links<T>(s: Seq<Node<T>>) -> Seq<Option<usize>> {
    Seq::new(s.len(), |i: int| s[i].before)
}

/// A node that comes after node `i` has some node before it.
pub open spec fn successor_looks_back<T>(s: Seq<Node<T>>, i: usize) -> bool {
    s[i as int].next matches Some(m) ==> s[m as int].before is Some
}

/// What holds of every list between two operations: the walks in both
/// directions stay in the table and come to an end, and a node that is
/// some node's successor has a backward link.
///
/// The backward link of a node need not lead to the node whose successor
/// it is: [`appended`] and [`prepended`] say why.
pub open spec fn well_formed<T>(s: Seq<Node<T>>) -> bool {
    &&& s.len() <= usize::MAX
    &&& acyclic(next_links(s))
    &&& acyclic(before_links(s))
    &&& forall|i: usize| i < s.len() ==> #[trigger] successor_looks_back(s, i)
}

/// The tail of the chain of `n`: the node at which the forward walk from
/// `n` ends, `n` itself where it has no successor.
pub open spec fn last_of<T>(s: Seq<Node<T>>, n: usize) -> usize {
    end_of(next_links(s), n)
}

/// The head of the chain of `n`: the node at which the backward walk from
/// `n` ends, `n` itself where it has no predecessor.
pub open spec fn first_of<T>(s: Seq<Node<T>>, n: usize) -> usize {
    end_of(before_links(s), n)
}

/// The handles that the forward walk from `n` visits, `n` first.
pub open spec fn forward_path<T>(s: Seq<Node<T>>, n: usize) -> Seq<usize> {
    path(next_links(s), n)
}

/// Every node on the forward walk from `n` holds a value.
pub open spec fn readable_from<T>(s: Seq<Node<T>>, n: usize) -> bool {
    forall|k: int|
        0 <= k < forward_path(s, n).len() ==> s[#[trigger] forward_path(s, n)[k] as int].value is Some
}

/// The values that the forward walk from `n` meets, in its order. It
/// speaks of the values only where [`readable_from`] holds.
pub open spec fn values_from<T>(s: Seq<Node<T>>, n: usize) -> Seq<T> {
    forward_path(s, n).map_values(|i: usize| s[i as int].value.unwrap())
}

/// The value that the forward walk from `at` meets after `n` steps, if it
/// is that long.
pub open spec fn nth_from<T>(s: Seq<Node<T>>, at: usize, n: int) -> Option<T> {
    if 0 <= n < values_from(s, at).len() {
        Some(values_from(s, at)[n])
    } else {
        None
    }
}

/// The table with the forward link of node `i` set to `v`.
pub open spec fn with_next<T>(s: Seq<Node<T>>, i: usize, v: Option<usize>) -> Seq<Node<T>> {
    s.update(i as int, Node { next: v, ..s[i as int] })
}

/// The table with the backward link of node `i` set to `v`.
pub open spec fn with_before<T>(s: Seq<Node<T>>, i: usize, v: Option<usize>) -> Seq<Node<T>> {
    s.update(i as int, Node { before: v, ..s[i as int] })
}

/// The table with the value of node `i` set to `v`.
pub open spec fn with_value<T>(s: Seq<Node<T>>, i: usize, v: Option<T>) -> Seq<Node<T>> {
    s.update(i as int, Node { value: v, ..s[i as int] })
}

/// The table after a node that holds `value`, without neighbours, joined
/// it. Its handle is the length of `s`.
pub open spec fn grown<T>(s: Seq<Node<T>>, value: T) -> Seq<Node<T>> {
    s.push(single(value))
}

/// Linking `other` behind the chain of `at` closes no circle: the chain
/// of `other` ends elsewhere than that of `at`, and the backward walk from
/// `at` does not visit `other`.
pub open spec fn may_append<T>(s: Seq<Node<T>>, at: usize, other: usize) -> bool {
    &&& at < s.len()
    &&& other < s.len()
    &&& last_of(s, other) != last_of(s, at)
    &&& !reaches(before_links(s), at, other)
}

/// The table after `other` was linked behind the chain of `at`.
///
/// The tail of `at` gets `other` as its successor. The backward link of
/// `other` is set to `at`, not to that tail: where `at` is not itself the
/// tail, going back from `other` skips the nodes between them.
pub open spec fn appended<T>(s: Seq<Node<T>>, at: usize, other: usize) -> Seq<Node<T>> {
    with_before(
        with_next(s, last_of(s, at), Some(other)),
        other,
        Some(at),
    )
}

/// Linking `other` before the chain of `at` closes no circle: the
/// backward walk from `other` ends elsewhere than that from `at`, and the
/// forward walk from `at` does not visit `other`.
pub open spec fn may_prepend<T>(s: Seq<Node<T>>, at: usize, other: usize) -> bool {
    &&& at < s.len()
    &&& other < s.len()
    &&& first_of(s, other) != first_of(s, at)
    &&& !reaches(next_links(s), at, other)
}

/// The table after `other` was linked before the chain of `at`.
///
/// The head of `at` gets `other` as its predecessor. The forward link of
/// `other` is set to `at`, not to that head: where `at` is not itself the
/// head, going forward from `other` skips the nodes between them.
pub open spec fn prepended<T>(s: Seq<Node<T>>, at: usize, other: usize) -> Seq<Node<T>> {
    with_next(
        with_before(s, first_of(s, at), Some(other)),
        other,
        Some(at),
    )
}

/// The table after a new node with `value` was appended to the chain of
/// `at`.
pub open spec fn pushed_to_end<T>(s: Seq<Node<T>>, at: usize, value: T) -> Seq<Node<T>> {
    appended(grown(s, value), at, s.len() as usize)
}

/// The table after a new node with `value` was prepended to the chain of
/// `at`.
pub open spec fn pushed_to_front<T>(s: Seq<Node<T>>, at: usize, value: T) -> Seq<Node<T>> {
    prepended(grown(s, value), at, s.len() as usize)
}

/// The node whose forward link a pop from `at` clears: the one that the
/// backward link of the tail names.
pub open spec fn pop_target<T>(s: Seq<Node<T>>, at: usize) -> usize {
    s[last_of(s, at) as int].before.unwrap()
}

/// The backward link of the tail of `at` names the node that comes just
/// before the tail on the walk from `at`.
pub open spec fn tail_looks_back<T>(s: Seq<Node<T>>, at: usize) -> bool {
    &&& reaches(next_links(s), at, pop_target(s, at))
    &&& s[pop_target(s, at) as int].next == Some(last_of(s, at))
}

/// The table after the tail was popped off the chain of `at`.
///
/// A node without a successor has nothing to pop and the table stays as
/// it is. Otherwise the node that the tail's backward link names loses its
/// successor and the tail loses its value. The tail stays in the table.
pub open spec fn popped<T>(s: Seq<Node<T>>, at: usize) -> Seq<Node<T>> {
    if s[at as int].next is None {
        s
    } else {
        with_value(with_next(s, pop_target(s, at), None), last_of(s, at), None)
    }
}

/// The value that a pop from `at` hands out.
pub open spec fn popped_value<T>(s: Seq<Node<T>>, at: usize) -> Option<T> {
    if s[at as int].next is None {
        None
    } else {
        s[last_of(s, at) as int].value
    }
}

} // verus!
