//! The list: a table of arena-allocated nodes and its operations.
use crate::arena::leak;
use crate::laws::{
    lemma_appended, lemma_appended_values, lemma_grown_well_formed, lemma_links_with_value,
    lemma_pop_target, lemma_popped, lemma_popped_values, lemma_prepended,
    lemma_prepended_values, lemma_pushed_to_end, lemma_pushed_to_front, lemma_single,
};
use crate::links::{height, lemma_height, lemma_path_step, lemma_walk, reaches};
use crate::node::{
    appended, before_links, first_of, forward_path, grown, last_of, may_append, may_prepend,
    next_links, nth_from, popped, popped_value, prepended, pushed_to_end, pushed_to_front,
    readable_from, single, tail_looks_back, values_from, well_formed, with_value, Node,
};
use bumpalo::Bump;
use vstd::prelude::*;

verus! {

/// A table of linked nodes in one arena.
///
/// A node is named by its handle: the first node of a list has handle 0,
/// and each later node gets the next number. Nodes never leave the table;
/// a list is any chain of them, entered at any of its nodes.
pub struct LinkedList<'bmp, T> {
    bump: &'bmp Bump,
    nodes: Vec<&'bmp mut Node<T>>,
}

impl<'bmp, T> View for LinkedList<'bmp, T> {
    type V = Seq<Node<T>>;

    /// The nodes, in the order of their handles.
    closed spec fn view(&self) -> Seq<Node<T>> {
        Seq::new(self.nodes@.len(), |k: int| *self.nodes@[k])
    }
}

impl<'bmp, T> LinkedList<'bmp, T> {
    /// The invariant of the list. Every operation asks for it and keeps
    /// it.
    pub open spec fn wf(&self) -> bool {
        well_formed(self@)
    }

    /// A list of one node, which holds `value` and lives in an arena of
    /// its own. That arena is never dropped: the list may live as long as
    /// the program.
    pub fn new_leaked(value: T) -> (list: Self)
        ensures
            list@ == seq![single(value)],
            list.wf(),
    {
        let bump = leak(Box::new(Bump::new()));
        Self::new_with_bump(value, bump)
    }

    /// A list of one node, which holds `value` and lives in `bump`. Its
    /// handle is 0.
    pub fn new_with_bump(value: T, bump: &'bmp Bump) -> (list: Self)
        ensures
            list@ == seq![single(value)],
            list.wf(),
    {
        let node = bump.alloc(Node { value: Some(value), next: None, before: None });
        let mut nodes: Vec<&'bmp mut Node<T>> = Vec::new();
        nodes.push(node);
        let list = LinkedList { bump, nodes };
        proof {
            assert(list@ =~= seq![single(value)]);
            lemma_single(value);
        }
        list
    }

    /// The number of nodes in the table, popped ones included. The
    /// handles are the numbers below it.
    pub fn len(&self) -> (n: usize)
        ensures
            n == self@.len(),
    {
        self.nodes.len()
    }

    /// Adds a node that holds `value` and has no neighbour, and returns
    /// its handle.
    pub fn allocate(&mut self, value: T) -> (id: usize)
        requires
            old(self).wf(),
        ensures
            id == old(self)@.len(),
            final(self)@ == grown(old(self)@, value),
            final(self)@.len() == old(self)@.len() + 1,
            final(self).wf(),
    {
        let id = self.nodes.len();
        let node = self.bump.alloc(Node { value: Some(value), next: None, before: None });
        self.nodes.push(node);
        proof {
            assert(self.nodes.len() == self.nodes@.len());
            assert(self@ =~= grown(old(self)@, value));
            lemma_grown_well_formed(old(self)@, value);
        }
        id
    }

    /// The tail of the chain of `at`, or `None` where `at` has no
    /// successor and so is the tail itself.
    pub fn get_last(&self, at: usize) -> (tail: Option<usize>)
        requires
            self.wf(),
            at < self@.len(),
        ensures
            tail == (if self@[at as int].next is None {
                None
            } else {
                Some(last_of(self@, at))
            }),
            tail matches Some(t) ==> t < self@.len() && t != at && self@[t as int].next is None,
            last_of(self@, at) == (match tail {
                Some(t) => t,
                None => at,
            }),
    {
        proof {
            lemma_height(next_links(self@), at);
            lemma_walk(next_links(self@), at);
        }
        match self.nodes[at].next {
            None => None,
            Some(first) => {
                let mut current = first;
                proof {
                    lemma_height(next_links(self@), current);
                }
                loop
                    invariant
                        self.wf(),
                        current < self@.len(),
                        height(next_links(self@), current) < height(next_links(self@), at),
                        last_of(self@, current) == last_of(self@, at),
                    ensures
                        self@[current as int].next is None,
                    decreases height(next_links(self@), current),
                {
                    proof {
                        lemma_height(next_links(self@), current);
                    }
                    match self.nodes[current].next {
                        None => break,
                        Some(next) => {
                            current = next;
                        },
                    }
                }
                Some(current)
            },
        }
    }

    /// The tail of the chain of `at`, as [`LinkedList::get_last`] finds it,
    /// for a caller that holds the list for writing. The list is left as
    /// it is.
    pub fn get_last_mut(&mut self, at: usize) -> (tail: Option<usize>)
        requires
            old(self).wf(),
            at < old(self)@.len(),
        ensures
            *final(self) == *old(self),
            tail == (if old(self)@[at as int].next is None {
                None
            } else {
                Some(last_of(old(self)@, at))
            }),
            tail matches Some(t) ==> t < old(self)@.len() && t != at && old(
                self,
            )@[t as int].next is None,
            last_of(old(self)@, at) == (match tail {
                Some(t) => t,
                None => at,
            }),
    {
        self.get_last(at)
    }

    /// The head of the chain of `at`, or `None` where `at` has no
    /// predecessor and so is the head itself.
    pub fn get_first(&self, at: usize) -> (head: Option<usize>)
        requires
            self.wf(),
            at < self@.len(),
        ensures
            head == (if self@[at as int].before is None {
                None
            } else {
                Some(first_of(self@, at))
            }),
            head matches Some(h) ==> h < self@.len() && h != at && self@[h as int].before is None,
            first_of(self@, at) == (match head {
                Some(h) => h,
                None => at,
            }),
    {
        proof {
            lemma_height(before_links(self@), at);
            lemma_walk(before_links(self@), at);
        }
        match self.nodes[at].before {
            None => None,
            Some(first) => {
                let mut current = first;
                proof {
                    lemma_height(before_links(self@), current);
                }
                loop
                    invariant
                        self.wf(),
                        current < self@.len(),
                        height(before_links(self@), current) < height(before_links(self@), at),
                        first_of(self@, current) == first_of(self@, at),
                    ensures
                        self@[current as int].before is None,
                    decreases height(before_links(self@), current),
                {
                    proof {
                        lemma_height(before_links(self@), current);
                    }
                    match self.nodes[current].before {
                        None => break,
                        Some(before) => {
                            current = before;
                        },
                    }
                }
                Some(current)
            },
        }
    }

    /// The head of the chain of `at`, as [`LinkedList::get_first`] finds
    /// it, for a caller that holds the list for writing. The list is left
    /// as it is.
    pub fn get_first_mut(&mut self, at: usize) -> (head: Option<usize>)
        requires
            old(self).wf(),
            at < old(self)@.len(),
        ensures
            *final(self) == *old(self),
            head == (if old(self)@[at as int].before is None {
                None
            } else {
                Some(first_of(old(self)@, at))
            }),
            head matches Some(h) ==> h < old(self)@.len() && h != at && old(
                self,
            )@[h as int].before is None,
            first_of(old(self)@, at) == (match head {
                Some(h) => h,
                None => at,
            }),
    {
        self.get_first(at)
    }

    /// Links `other` behind the chain of `at`: the tail of that chain gets
    /// `other` as its successor, and `other` gets `at` as its predecessor.
    pub fn append(&mut self, at: usize, other: usize)
        requires
            old(self).wf(),
            may_append(old(self)@, at, other),
        ensures
            final(self)@ == appended(old(self)@, at, other),
            final(self)@.len() == old(self)@.len(),
            final(self).wf(),
            final(self)@[last_of(old(self)@, at) as int].next == Some(other),
            final(self)@[other as int].before == Some(at),
            values_from(final(self)@, at) == values_from(old(self)@, at) + values_from(
                old(self)@,
                other,
            ),
    {
        let tail = match self.get_last(at) {
            Some(last) => last,
            None => at,
        };
        proof {
            lemma_height(next_links(self@), at);
        }
        self.nodes[tail].next = Some(other);
        self.nodes[other].before = Some(at);
        proof {
            assert(self@ =~= appended(old(self)@, at, other));
            lemma_appended(old(self)@, at, other, at);
            lemma_appended_values(old(self)@, at, other);
        }
    }

    /// Links `other` before the chain of `at`: the head of that chain gets
    /// `other` as its predecessor, and `other` gets `at` as its successor.
    pub fn prepend(&mut self, at: usize, other: usize)
        requires
            old(self).wf(),
            may_prepend(old(self)@, at, other),
        ensures
            final(self)@ == prepended(old(self)@, at, other),
            final(self)@.len() == old(self)@.len(),
            final(self).wf(),
            final(self)@[first_of(old(self)@, at) as int].before == Some(other),
            final(self)@[other as int].next == Some(at),
            values_from(final(self)@, other) == seq![old(self)@[other as int].value.unwrap()]
                + values_from(old(self)@, at),
    {
        let head = match self.get_first(at) {
            Some(first) => first,
            None => at,
        };
        proof {
            lemma_height(before_links(self@), at);
        }
        self.nodes[head].before = Some(other);
        self.nodes[other].next = Some(at);
        proof {
            assert(self@ =~= prepended(old(self)@, at, other));
            lemma_prepended(old(self)@, at, other, at);
            lemma_prepended_values(old(self)@, at, other);
        }
    }

    /// Adds a node that holds `value` behind the chain of `at` and returns
    /// its handle. A walk from `at` then meets `value` last.
    pub fn push_to_end(&mut self, at: usize, value: T) -> (id: usize)
        requires
            old(self).wf(),
            at < old(self)@.len(),
        ensures
            id == old(self)@.len(),
            final(self)@ == pushed_to_end(old(self)@, at, value),
            final(self)@.len() == old(self)@.len() + 1,
            final(self).wf(),
            last_of(final(self)@, at) == id,
            final(self)@[last_of(old(self)@, at) as int].next == Some(id),
            final(self)@[id as int] == (Node { value: Some(value), next: None, before: Some(at) }),
            values_from(final(self)@, at) == values_from(old(self)@, at).push(value),
            readable_from(old(self)@, at) ==> readable_from(final(self)@, at),
    {
        let next = self.allocate(value);
        proof {
            lemma_pushed_to_end(old(self)@, at, value);
        }
        self.append(at, next);
        next
    }

    /// Adds a node that holds `value` before the chain of `at` and returns
    /// its handle. The new node is the head of `at`, and a walk from it
    /// meets `value` first and then what a walk from `at` meets.
    pub fn push_to_front(&mut self, at: usize, value: T) -> (id: usize)
        requires
            old(self).wf(),
            at < old(self)@.len(),
        ensures
            id == old(self)@.len(),
            final(self)@ == pushed_to_front(old(self)@, at, value),
            final(self)@.len() == old(self)@.len() + 1,
            final(self).wf(),
            first_of(final(self)@, at) == id,
            final(self)@[first_of(old(self)@, at) as int].before == Some(id),
            final(self)@[id as int] == (Node { value: Some(value), next: Some(at), before: None }),
            values_from(final(self)@, id) == seq![value] + values_from(old(self)@, at),
            readable_from(old(self)@, at) ==> readable_from(final(self)@, id),
    {
        let before = self.allocate(value);
        proof {
            lemma_pushed_to_front(old(self)@, at, value);
        }
        self.prepend(at, before);
        before
    }

    /// Takes the tail off the chain of `at` and returns its value.
    ///
    /// Where `at` has no successor there is nothing to take: the result is
    /// `None` and the list is left as it is. Otherwise the node that the
    /// tail names as its predecessor loses its successor, and the value of
    /// the tail is handed out. The tail keeps its place in the table, now
    /// without a value.
    pub fn pop_end(&mut self, at: usize) -> (value: Option<T>)
        requires
            old(self).wf(),
            at < old(self)@.len(),
        ensures
            final(self)@ == popped(old(self)@, at),
            final(self)@.len() == old(self)@.len(),
            value == popped_value(old(self)@, at),
            final(self).wf(),
            old(self)@[at as int].next is Some && tail_looks_back(old(self)@, at) ==> values_from(
                final(self)@,
                at,
            ) == values_from(old(self)@, at).drop_last(),
    {
        proof {
            lemma_popped(old(self)@, at, at);
            lemma_popped_values(old(self)@, at);
        }
        match self.get_last(at) {
            None => None,
            Some(tail) => {
                proof {
                    lemma_pop_target(self@, at);
                }
                if let Some(before) = self.nodes[tail].before {
                    self.nodes[before].next = None;
                }
                let value = self.nodes[tail].value.take();
                proof {
                    assert(self@ =~= popped(old(self)@, at));
                }
                value
            },
        }
    }

    /// The successor of node `at`, if it has one.
    pub fn successor(&self, at: usize) -> (next: Option<usize>)
        requires
            at < self@.len(),
        ensures
            next == self@[at as int].next,
    {
        self.nodes[at].next
    }

    /// The node that `at` names as its predecessor, if it names one.
    pub fn predecessor(&self, at: usize) -> (before: Option<usize>)
        requires
            at < self@.len(),
        ensures
            before == self@[at as int].before,
    {
        self.nodes[at].before
    }

    /// Whether node `at` holds a value: whether it was not popped.
    pub fn holds_value(&self, at: usize) -> (held: bool)
        requires
            at < self@.len(),
        ensures
            held == (self@[at as int].value is Some),
    {
        self.nodes[at].value.is_some()
    }

    /// The value of node `at`.
    pub fn get(&self, at: usize) -> (value: &T)
        requires
            at < self@.len(),
            self@[at as int].value is Some,
        ensures
            *value == self@[at as int].value.unwrap(),
    {
        self.nodes[at].value.as_ref().unwrap()
    }

    /// The value of node `at`, for writing. Whatever is written, the links
    /// stay as they are.
    pub fn get_mut(&mut self, at: usize) -> (value: &mut T)
        requires
            at < old(self)@.len(),
            old(self)@[at as int].value is Some,
        ensures
            *value == old(self)@[at as int].value.unwrap(),
            final(self)@ == with_value(old(self)@, at, Some(*final(value))),
            old(self).wf() ==> final(self).wf(),
    {
        proof {
            assert forall|v: T| old(self).wf() implies #[trigger] well_formed(
                with_value(old(self)@, at, Some(v)),
            ) by {
                lemma_links_with_value(old(self)@, at, Some(v));
            }
        }
        self.nodes[at].value.as_mut().unwrap()
    }

    /// The node that a walk from `at` comes to after `n` steps, if it is
    /// that long.
    fn node_after(&self, at: usize, n: usize) -> (node: Option<usize>)
        requires
            self.wf(),
            at < self@.len(),
        ensures
            node == (if n < forward_path(self@, at).len() {
                Some(forward_path(self@, at)[n as int])
            } else {
                None
            }),
            node matches Some(i) ==> i < self@.len(),
    {
        let mut current = at;
        let mut steps: usize = 0;
        proof {
            lemma_walk(next_links(self@), at);
        }
        while steps < n
            invariant
                self.wf(),
                at < self@.len(),
                steps <= n,
                steps < forward_path(self@, at).len(),
                current == forward_path(self@, at)[steps as int],
            decreases n - steps,
        {
            proof {
                lemma_path_step(next_links(self@), at, steps as int);
            }
            match self.nodes[current].next {
                None => {
                    return None;
                },
                Some(next) => {
                    current = next;
                    steps = steps + 1;
                },
            }
        }
        proof {
            lemma_path_step(next_links(self@), at, steps as int);
        }
        Some(current)
    }

    /// The value that a walk from `at` meets after `n` steps, or `None`
    /// where the chain is shorter.
    pub fn get_n(&self, at: usize, n: usize) -> (value: Option<&T>)
        requires
            self.wf(),
            at < self@.len(),
            readable_from(self@, at),
        ensures
            match value {
                Some(v) => nth_from(self@, at, n as int) == Some(*v),
                None => nth_from(self@, at, n as int) is None,
            },
    {
        match self.node_after(at, n) {
            None => None,
            Some(node) => Some(self.get(node)),
        }
    }

    /// The value that a walk from `at` meets after `n` steps, for writing,
    /// or `None` where the chain is shorter.
    pub fn get_n_mut(&mut self, at: usize, n: usize) -> (value: Option<&mut T>)
        requires
            old(self).wf(),
            at < old(self)@.len(),
            readable_from(old(self)@, at),
        ensures
            match value {
                Some(v) => {
                    &&& nth_from(old(self)@, at, n as int) == Some(*v)
                    &&& final(self)@ == with_value(
                        old(self)@,
                        forward_path(old(self)@, at)[n as int],
                        Some(*final(v)),
                    )
                },
                None => nth_from(old(self)@, at, n as int) is None && final(self)@ == old(self)@,
            },
            final(self).wf(),
    {
        match self.node_after(at, n) {
            None => None,
            Some(node) => Some(self.get_mut(node)),
        }
    }

    /// Whether every node on the walk from `at` holds a value: whether
    /// the chain can be read from `at` to its tail.
    pub fn is_readable_from(&self, at: usize) -> (readable: bool)
        requires
            self.wf(),
            at < self@.len(),
        ensures
            readable == readable_from(self@, at),
    {
        let mut current = at;
        let ghost mut steps: int = 0;
        proof {
            lemma_walk(next_links(self@), at);
        }
        loop
            invariant
                self.wf(),
                at < self@.len(),
                0 <= steps < forward_path(self@, at).len(),
                current == forward_path(self@, at)[steps],
                forall|k: int|
                    0 <= k < steps ==> self@[#[trigger] forward_path(self@, at)[k] as int].value
                        is Some,
            decreases forward_path(self@, at).len() - steps,
        {
            proof {
                lemma_path_step(next_links(self@), at, steps);
            }
            if !self.nodes[current].value.is_some() {
                return false;
            }
            match self.nodes[current].next {
                None => {
                    return true;
                },
                Some(next) => {
                    current = next;
                    proof {
                        steps = steps + 1;
                    }
                },
            }
        }
    }

    /// Whether the forward walk from `from` visits `to`.
    fn walks_forward_to(&self, from: usize, to: usize) -> (visits: bool)
        requires
            self.wf(),
            from < self@.len(),
        ensures
            visits == reaches(next_links(self@), from, to),
    {
        let mut current = from;
        loop
            invariant
                self.wf(),
                current < self@.len(),
                reaches(next_links(self@), current, to) == reaches(next_links(self@), from, to),
            decreases height(next_links(self@), current),
        {
            proof {
                lemma_height(next_links(self@), current);
            }
            if current == to {
                return true;
            }
            match self.nodes[current].next {
                None => {
                    return false;
                },
                Some(next) => {
                    current = next;
                },
            }
        }
    }

    /// Whether the backward walk from `from` visits `to`.
    fn walks_backward_to(&self, from: usize, to: usize) -> (visits: bool)
        requires
            self.wf(),
            from < self@.len(),
        ensures
            visits == reaches(before_links(self@), from, to),
    {
        let mut current = from;
        loop
            invariant
                self.wf(),
                current < self@.len(),
                reaches(before_links(self@), current, to) == reaches(
                    before_links(self@),
                    from,
                    to,
                ),
            decreases height(before_links(self@), current),
        {
            proof {
                lemma_height(before_links(self@), current);
            }
            if current == to {
                return true;
            }
            match self.nodes[current].before {
                None => {
                    return false;
                },
                Some(before) => {
                    current = before;
                },
            }
        }
    }

    /// Whether [`LinkedList::append`] may be called with `at` and `other`:
    /// whether both are nodes of the list and the new links close no
    /// circle.
    pub fn can_append(&self, at: usize, other: usize) -> (allowed: bool)
        requires
            self.wf(),
        ensures
            allowed == may_append(self@, at, other),
    {
        if at >= self.nodes.len() || other >= self.nodes.len() {
            return false;
        }
        let tail = match self.get_last(at) {
            Some(last) => last,
            None => at,
        };
        let other_tail = match self.get_last(other) {
            Some(last) => last,
            None => other,
        };
        tail != other_tail && !self.walks_backward_to(at, other)
    }

    /// Whether [`LinkedList::prepend`] may be called with `at` and
    /// `other`: whether both are nodes of the list and the new links close
    /// no circle.
    pub fn can_prepend(&self, at: usize, other: usize) -> (allowed: bool)
        requires
            self.wf(),
        ensures
            allowed == may_prepend(self@, at, other),
    {
        if at >= self.nodes.len() || other >= self.nodes.len() {
            return false;
        }
        let head = match self.get_first(at) {
            Some(first) => first,
            None => at,
        };
        let other_head = match self.get_first(other) {
            Some(first) => first,
            None => other,
        };
        head != other_head && !self.walks_forward_to(at, other)
    }
}

} // verus!
