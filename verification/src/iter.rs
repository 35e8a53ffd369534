//! Walking a chain value by value.
//!
//! Both iterators start at a node and go forward to the tail of its
//! chain. They hold the list for as long as they live, so the chain
//! cannot change under them.
use crate::laws::{lemma_links_with_value, lemma_value_off_path, lemma_values_step};
use crate::links::lemma_no_return;
use crate::list::LinkedList;
use crate::node::{next_links, readable_from, values_from, well_formed, with_value};
use vstd::prelude::*;

verus! {

/// Reads the values of a chain, front to back.
pub struct Iter<'a, 'bmp, T> {
    list: &'a LinkedList<'bmp, T>,
    next: Option<usize>,
}

impl<'a, 'bmp, T> View for Iter<'a, 'bmp, T> {
    type V = Seq<T>;

    /// The values still to come, in the order in which they will come.
    closed spec fn view(&self) -> Seq<T> {
        match self.next {
            None => Seq::empty(),
            Some(at) => values_from(self.list@, at),
        }
    }
}

impl<'a, 'bmp, T> Iter<'a, 'bmp, T> {
    /// The invariant of the iterator: the list is well formed and every
    /// node still to come is in it and holds a value.
    pub closed spec fn wf(&self) -> bool {
        &&& self.list.wf()
        &&& self.next matches Some(at) ==> at < self.list@.len() && readable_from(self.list@, at)
    }

    /// The next value of the chain, or `None` once the tail is behind.
    pub fn next(&mut self) -> (value: Option<&'a T>)
        requires
            old(self).wf(),
        ensures
            final(self).wf(),
            match value {
                Some(v) => old(self)@.len() > 0 && *v == old(self)@[0] && final(self)@ == old(
                    self,
                )@.drop_first(),
                None => old(self)@.len() == 0 && final(self)@.len() == 0,
            },
    {
        match self.next {
            None => None,
            Some(at) => {
                proof {
                    lemma_values_step(self.list@, at);
                }
                let value = self.list.get(at);
                self.next = self.list.successor(at);
                Some(value)
            },
        }
    }
}

/// Hands out the values of a chain for writing, front to back, one at a
/// time.
pub struct IterMut<'a, 'bmp, T> {
    list: &'a mut LinkedList<'bmp, T>,
    next: Option<usize>,
}

impl<'a, 'bmp, T> View for IterMut<'a, 'bmp, T> {
    type V = Seq<T>;

    /// The values still to come, in the order in which they will come.
    open spec fn view(&self) -> Seq<T> {
        match self.cursor() {
            None => Seq::empty(),
            Some(at) => values_from(self.list()@, at),
        }
    }
}

impl<'a, 'bmp, T> IterMut<'a, 'bmp, T> {
    /// The list that the iterator holds. What it will be when the
    /// iterator is done with it is what the holder of the list gets back.
    pub closed spec fn list(&self) -> &'a mut LinkedList<'bmp, T> {
        self.list
    }

    /// The node whose value comes next, if any is left.
    pub closed spec fn cursor(&self) -> Option<usize> {
        self.next
    }

    /// The invariant of the iterator: the list is well formed and every
    /// node still to come is in it and holds a value.
    pub open spec fn wf(&self) -> bool {
        &&& self.list().wf()
        &&& self.cursor() matches Some(at) ==> at < self.list()@.len() && readable_from(
            self.list()@,
            at,
        )
    }

    /// Once the iterator is no longer used, the list is for good what the
    /// iterator holds then.
    pub proof fn lemma_done(self)
        requires
            has_resolved(self),
        ensures
            *final(self.list()) == *self.list(),
    {
    }

    /// The next value of the chain, for writing, or `None` once the tail
    /// is behind. Writing to it changes that value in the list and nothing
    /// else.
    pub fn next(&mut self) -> (value: Option<&mut T>)
        requires
            old(self).wf(),
        ensures
            final(self).wf(),
            *final(final(self).list()) == *final(old(self).list()),
            match value {
                Some(v) => {
                    &&& old(self)@.len() > 0
                    &&& *v == old(self)@[0]
                    &&& final(self)@ == old(self)@.drop_first()
                    &&& old(self).cursor() matches Some(at) && final(self).list()@ == with_value(
                        old(self).list()@,
                        at,
                        Some(*final(v)),
                    )
                },
                None => {
                    &&& old(self)@.len() == 0
                    &&& final(self)@.len() == 0
                    &&& final(self).list()@ == old(self).list()@
                },
            },
    {
        match self.next {
            None => None,
            Some(at) => {
                let next = self.list.successor(at);
                proof {
                    let s = self.list@;
                    lemma_values_step(s, at);
                    lemma_no_return(next_links(s), at);
                    assert forall|v: T| #[trigger] well_formed(with_value(s, at, Some(v))) by {
                        lemma_value_off_path(s, at, v, at);
                        lemma_links_with_value(s, at, Some(v));
                    }
                    if let Some(m) = next {
                        assert forall|v: T|
                            readable_from(#[trigger] with_value(s, at, Some(v)), m) && values_from(
                                with_value(s, at, Some(v)),
                                m,
                            ) == values_from(s, m) by {
                            lemma_value_off_path(s, at, v, m);
                        }
                    }
                }
                self.next = next;
                Some(self.list.get_mut(at))
            },
        }
    }
}

impl<'bmp, T> LinkedList<'bmp, T> {
    /// An iterator over the values of the chain, from `at` to its tail.
    pub fn iter(&self, at: usize) -> (it: Iter<'_, 'bmp, T>)
        requires
            self.wf(),
            at < self@.len(),
            readable_from(self@, at),
        ensures
            it.wf(),
            it@ == values_from(self@, at),
    {
        Iter { list: self, next: Some(at) }
    }

    /// An iterator that hands out the values of the chain for writing,
    /// from `at` to its tail. The list is the iterator's until it is
    /// dropped, and then is what the iterator made of it.
    pub fn iter_mut(&mut self, at: usize) -> (it: IterMut<'_, 'bmp, T>)
        requires
            old(self).wf(),
            at < old(self)@.len(),
            readable_from(old(self)@, at),
        ensures
            it.wf(),
            it@ == values_from(old(self)@, at),
            it.cursor() == Some(at),
            it.list()@ == old(self)@,
            *final(self) == *final(it.list()),
    {
        IterMut { list: self, next: Some(at) }
    }
}

} // verus!
