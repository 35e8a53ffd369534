//! What the operations of a list do to its walks and values.
//!
//! Each statement here is about a table of nodes as [`crate::node`]
//! describes it. The operations of [`crate::list::LinkedList`] say in their
//! contracts which table they leave; what follows for the order of the
//! values is proved here.
use crate::links::{
    ends_after, lemma_grown, lemma_height, lemma_no_return, lemma_path_split, lemma_path_step,
    lemma_reaches_end, lemma_reaches_is_on_path, lemma_relink_path, lemma_walk, may_link, path,
    path_until, reaches, relinked_path, terminates,
};
use crate::node::{
    appended, before_links, first_of, forward_path, grown, last_of, may_append, may_prepend,
    next_links, nth_from, pop_target, popped, popped_value, prepended, pushed_to_end,
    pushed_to_front, readable_from, single, successor_looks_back, tail_looks_back, values_from,
    well_formed,
    with_before, with_next, with_value, Node,
};
use vstd::prelude::*;

verus! {

/// A single node without neighbours is a well-formed table, and its chain
/// is the node alone.
pub proof fn lemma_single<T>(value: T)
    ensures
        well_formed(seq![single(value)]),
        forward_path(seq![single(value)], 0) == seq![0usize],
        values_from(seq![single(value)], 0) == seq![value],
        readable_from(seq![single(value)], 0),
{
    let s = seq![single(value)];
    assert(ends_after(next_links(s), 0, 0));
    assert(ends_after(before_links(s), 0, 0));
    assert forall|n: usize| n < s.len() implies #[trigger] terminates(next_links(s), n) by {
        assert(n == 0);
    }
    assert forall|n: usize| n < s.len() implies #[trigger] terminates(before_links(s), n) by {
        assert(n == 0);
    }
    assert(values_from(s, 0) =~= seq![value]);
}

/// Setting a forward link changes that link and nothing else.
pub proof fn lemma_links_with_next<T>(s: Seq<Node<T>>, i: usize, v: Option<usize>)
    requires
        i < s.len(),
    ensures
        next_links(with_next(s, i, v)) == next_links(s).update(i as int, v),
        before_links(with_next(s, i, v)) == before_links(s),
{
    assert(next_links(with_next(s, i, v)) =~= next_links(s).update(i as int, v));
    assert(before_links(with_next(s, i, v)) =~= before_links(s));
}

/// Setting a backward link changes that link and nothing else.
pub proof fn lemma_links_with_before<T>(s: Seq<Node<T>>, i: usize, v: Option<usize>)
    requires
        i < s.len(),
    ensures
        before_links(with_before(s, i, v)) == before_links(s).update(i as int, v),
        next_links(with_before(s, i, v)) == next_links(s),
{
    assert(before_links(with_before(s, i, v)) =~= before_links(s).update(i as int, v));
    assert(next_links(with_before(s, i, v)) =~= next_links(s));
}

/// Setting a value changes no link, so the table stays well formed and
/// every walk stays as it is.
pub proof fn lemma_links_with_value<T>(s: Seq<Node<T>>, i: usize, v: Option<T>)
    requires
        i < s.len(),
    ensures
        next_links(with_value(s, i, v)) == next_links(s),
        before_links(with_value(s, i, v)) == before_links(s),
        well_formed(s) ==> well_formed(with_value(s, i, v)),
{
    let t = with_value(s, i, v);
    assert(next_links(t) =~= next_links(s));
    assert(before_links(t) =~= before_links(s));
    if well_formed(s) {
        assert forall|k: usize| k < t.len() implies #[trigger] successor_looks_back(t, k) by {
            assert(successor_looks_back(s, k));
            lemma_links_in_table(s, k);
        }
    }
}

/// Every link of a well-formed table leads to a node of the table.
pub proof fn lemma_links_in_table<T>(s: Seq<Node<T>>, i: usize)
    requires
        well_formed(s),
        i < s.len(),
    ensures
        s[i as int].next matches Some(m) ==> m < s.len(),
        s[i as int].before matches Some(m) ==> m < s.len(),
{
    lemma_height(next_links(s), i);
    lemma_height(before_links(s), i);
}

/// A table that a new node joined is well formed, and the new node is a
/// chain of its own.
pub proof fn lemma_grown_well_formed<T>(s: Seq<Node<T>>, value: T)
    requires
        well_formed(s),
        s.len() < usize::MAX,
    ensures
        well_formed(grown(s, value)),
        forward_path(grown(s, value), s.len() as usize) == seq![s.len() as usize],
        last_of(grown(s, value), s.len() as usize) == s.len(),
        first_of(grown(s, value), s.len() as usize) == s.len(),
{
    let g = grown(s, value);
    let n = s.len() as usize;
    assert(next_links(g) =~= next_links(s).push(None));
    assert(before_links(g) =~= before_links(s).push(None));
    lemma_grown(next_links(s), n);
    lemma_grown(before_links(s), n);
    assert forall|i: usize| 0 <= i < g.len() implies #[trigger] successor_looks_back(g, i) by {
        if i < n {
            assert(successor_looks_back(s, i));
            lemma_links_in_table(s, i);
        }
    }
}

/// A new node changes nothing for the nodes that were there.
pub proof fn lemma_grown_keeps<T>(s: Seq<Node<T>>, value: T, x: usize)
    requires
        well_formed(s),
        x < s.len(),
    ensures
        forward_path(grown(s, value), x) == forward_path(s, x),
        last_of(grown(s, value), x) == last_of(s, x),
        first_of(grown(s, value), x) == first_of(s, x),
        values_from(grown(s, value), x) == values_from(s, x),
        readable_from(grown(s, value), x) == readable_from(s, x),
        !reaches(next_links(grown(s, value)), x, s.len() as usize),
        !reaches(before_links(grown(s, value)), x, s.len() as usize),
{
    let g = grown(s, value);
    assert(next_links(g) =~= next_links(s).push(None));
    assert(before_links(g) =~= before_links(s).push(None));
    lemma_grown(next_links(s), x);
    lemma_grown(before_links(s), x);
    lemma_walk(next_links(s), x);
    assert(values_from(g, x) =~= values_from(s, x));
    let p = forward_path(s, x);
    assert forall|k: int| 0 <= k < p.len() implies g[#[trigger] p[k] as int] == s[p[k] as int] by {}
}


/// Appending keeps the table well formed. The chains that ended at the
/// tail of `at` now run on through the chain of `other`; all other chains
/// are as they were.
pub proof fn lemma_appended<T>(s: Seq<Node<T>>, at: usize, other: usize, x: usize)
    requires
        well_formed(s),
        may_append(s, at, other),
        x < s.len(),
    ensures
        well_formed(appended(s, at, other)),
        appended(s, at, other).len() == s.len(),
        last_of(s, at) < s.len(),
        appended(s, at, other)[last_of(s, at) as int].next == Some(other),
        appended(s, at, other)[other as int].before == Some(at),
        forward_path(appended(s, at, other), x) == if last_of(s, x) == last_of(s, at) {
            forward_path(s, x) + forward_path(s, other)
        } else {
            forward_path(s, x)
        },
        last_of(appended(s, at, other), x) == if last_of(s, x) == last_of(s, at) {
            last_of(s, other)
        } else {
            last_of(s, x)
        },
{
    let next = next_links(s);
    let before = before_links(s);
    let t = last_of(s, at);
    lemma_walk(next, at);
    lemma_walk(next, other);
    lemma_walk(next, x);
    let s1 = with_next(s, t, Some(other));
    let s2 = appended(s, at, other);
    lemma_links_with_next(s, t, Some(other));
    lemma_links_with_before(s1, other, Some(at));
    lemma_reaches_end(next, other, t);
    lemma_reaches_end(next, x, t);
    assert(may_link(next, t, Some(other)));
    assert(may_link(before, other, Some(at)));
    lemma_relink_path(next, t, Some(other), x);
    lemma_relink_path(before, other, Some(at), x);
    assert forall|i: usize| 0 <= i < s2.len() implies #[trigger] successor_looks_back(s2, i) by {
        assert(successor_looks_back(s, i));
        lemma_links_in_table(s, i);
    }
    lemma_walk(next_links(s2), x);
}

/// Prepending keeps the table well formed. The forward walk from `other`
/// now runs through the chain of `at`, and the backward walks that ended
/// at the head of `at` now run on through those before `other`.
pub proof fn lemma_prepended<T>(s: Seq<Node<T>>, at: usize, other: usize, x: usize)
    requires
        well_formed(s),
        may_prepend(s, at, other),
        x < s.len(),
    ensures
        well_formed(prepended(s, at, other)),
        prepended(s, at, other).len() == s.len(),
        first_of(s, at) < s.len(),
        prepended(s, at, other)[first_of(s, at) as int].before == Some(other),
        prepended(s, at, other)[other as int].next == Some(at),
        forward_path(prepended(s, at, other), x) == relinked_path(
            next_links(s),
            other,
            Some(at),
            x,
        ),
        forward_path(prepended(s, at, other), other) == seq![other] + forward_path(s, at),
        first_of(prepended(s, at, other), x) == if first_of(s, x) == first_of(s, at) {
            first_of(s, other)
        } else {
            first_of(s, x)
        },
{
    let next = next_links(s);
    let before = before_links(s);
    let h = first_of(s, at);
    lemma_walk(before, at);
    lemma_walk(before, other);
    lemma_walk(before, x);
    lemma_walk(next, other);
    let s1 = with_before(s, h, Some(other));
    let s2 = prepended(s, at, other);
    lemma_links_with_before(s, h, Some(other));
    lemma_links_with_next(s1, other, Some(at));
    lemma_reaches_end(before, other, h);
    lemma_reaches_end(before, x, h);
    assert(may_link(before, h, Some(other)));
    assert(may_link(next, other, Some(at)));
    lemma_relink_path(before, h, Some(other), x);
    lemma_relink_path(next, other, Some(at), x);
    lemma_relink_path(next, other, Some(at), other);
    assert forall|i: usize| 0 <= i < s2.len() implies #[trigger] successor_looks_back(s2, i) by {
        assert(successor_looks_back(s, i));
        lemma_links_in_table(s, i);
        if i == other && at != h {
            lemma_height(before, at);
        }
    }
    lemma_walk(before_links(s2), x);
}

/// Where `at` has a successor, the tail of its chain has a backward link,
/// and that link names a node of the table other than the tail.
pub proof fn lemma_pop_target<T>(s: Seq<Node<T>>, at: usize)
    requires
        well_formed(s),
        at < s.len(),
        s[at as int].next is Some,
    ensures
        last_of(s, at) < s.len(),
        last_of(s, at) != at,
        s[last_of(s, at) as int].next is None,
        s[last_of(s, at) as int].before is Some,
        pop_target(s, at) < s.len(),
        pop_target(s, at) != last_of(s, at),
{
    let next = next_links(s);
    let before = before_links(s);
    let t = last_of(s, at);
    lemma_walk(next, at);
    lemma_height(next, at);
    let p = path(next, at);
    lemma_path_step(next, at, p.len() - 2);
    assert(successor_looks_back(s, p[p.len() - 2]));
    lemma_links_in_table(s, t);
    lemma_no_return(before, t);
    lemma_walk(before, t);
}

/// Popping keeps the table well formed. A forward walk that visited the
/// node whose link was cleared now ends there; all others are as they
/// were.
pub proof fn lemma_popped<T>(s: Seq<Node<T>>, at: usize, x: usize)
    requires
        well_formed(s),
        at < s.len(),
        x < s.len(),
    ensures
        well_formed(popped(s, at)),
        popped(s, at).len() == s.len(),
        forward_path(popped(s, at), x) == if s[at as int].next is Some && reaches(
            next_links(s),
            x,
            pop_target(s, at),
        ) {
            path_until(next_links(s), x, pop_target(s, at))
        } else {
            forward_path(s, x)
        },
{
    if s[at as int].next is Some {
        let next = next_links(s);
        let t = last_of(s, at);
        let p = pop_target(s, at);
        lemma_pop_target(s, at);
        let s1 = with_next(s, p, None);
        lemma_links_with_next(s, p, None);
        lemma_links_with_value(s1, t, None);
        lemma_relink_path(next, p, None, x);
        assert(relinked_path(next, p, None, x) =~= if reaches(next, x, p) {
            path_until(next, x, p)
        } else {
            path(next, x)
        });
        assert forall|i: usize| 0 <= i < s1.len() implies #[trigger] successor_looks_back(s1, i) by {
            assert(successor_looks_back(s, i));
            lemma_links_in_table(s, i);
        }
    }
}


/// Pushing a value to the end of the chain of `at` keeps the table well
/// formed and adds that value, and nothing else, behind the values that a
/// walk from `at` meets.
pub proof fn lemma_pushed_to_end<T>(s: Seq<Node<T>>, at: usize, value: T)
    requires
        well_formed(s),
        at < s.len(),
        s.len() < usize::MAX,
    ensures
        may_append(grown(s, value), at, s.len() as usize),
        well_formed(pushed_to_end(s, at, value)),
        pushed_to_end(s, at, value).len() == s.len() + 1,
        forward_path(pushed_to_end(s, at, value), at) == forward_path(s, at).push(
            s.len() as usize,
        ),
        last_of(pushed_to_end(s, at, value), at) == s.len(),
        last_of(s, at) < s.len(),
        pushed_to_end(s, at, value)[last_of(s, at) as int].next == Some(s.len() as usize),
        pushed_to_end(s, at, value)[s.len() as int] == (Node {
            value: Some(value),
            next: None,
            before: Some(at),
        }),
        values_from(pushed_to_end(s, at, value), at) == values_from(s, at).push(value),
        readable_from(s, at) ==> readable_from(pushed_to_end(s, at, value), at),
{
    let g = grown(s, value);
    let id = s.len() as usize;
    let a = pushed_to_end(s, at, value);
    lemma_grown_well_formed(s, value);
    lemma_grown_keeps(s, value, at);
    lemma_walk(next_links(s), at);
    lemma_appended(g, at, id, at);
    let old_path = forward_path(s, at);
    let new_path = forward_path(a, at);
    assert(new_path =~= old_path.push(id));
    assert forall|k: int| 0 <= k < old_path.len() implies a[#[trigger] old_path[k] as int].value
        == s[old_path[k] as int].value by {}
    assert(values_from(a, at) =~= values_from(s, at).push(value));
    if readable_from(s, at) {
        assert forall|k: int| 0 <= k < new_path.len() implies a[#[trigger] new_path[k] as int].value is Some by {
            if k < old_path.len() {
                assert(s[old_path[k] as int].value is Some);
            }
        }
    }
}

/// Pushing a value to the front of the chain of `at` keeps the table well
/// formed. The new node is the head of `at`, and a walk from it meets the
/// new value and then what a walk from `at` met.
pub proof fn lemma_pushed_to_front<T>(s: Seq<Node<T>>, at: usize, value: T)
    requires
        well_formed(s),
        at < s.len(),
        s.len() < usize::MAX,
    ensures
        may_prepend(grown(s, value), at, s.len() as usize),
        well_formed(pushed_to_front(s, at, value)),
        pushed_to_front(s, at, value).len() == s.len() + 1,
        forward_path(pushed_to_front(s, at, value), s.len() as usize) == seq![
            s.len() as usize,
        ] + forward_path(s, at),
        first_of(pushed_to_front(s, at, value), at) == s.len(),
        first_of(pushed_to_front(s, at, value), s.len() as usize) == s.len(),
        first_of(s, at) < s.len(),
        pushed_to_front(s, at, value)[first_of(s, at) as int].before == Some(s.len() as usize),
        pushed_to_front(s, at, value)[s.len() as int] == (Node {
            value: Some(value),
            next: Some(at),
            before: None,
        }),
        values_from(pushed_to_front(s, at, value), s.len() as usize) == seq![value] + values_from(
            s,
            at,
        ),
        readable_from(s, at) ==> readable_from(pushed_to_front(s, at, value), s.len() as usize),
{
    let g = grown(s, value);
    let id = s.len() as usize;
    let a = pushed_to_front(s, at, value);
    lemma_grown_well_formed(s, value);
    lemma_grown_keeps(s, value, at);
    lemma_walk(next_links(s), at);
    lemma_walk(before_links(s), at);
    lemma_prepended(g, at, id, at);
    lemma_prepended(g, at, id, id);
    let old_path = forward_path(s, at);
    let new_path = forward_path(a, id);
    assert(new_path =~= seq![id] + old_path);
    assert forall|k: int| 0 <= k < old_path.len() implies a[#[trigger] old_path[k] as int].value
        == s[old_path[k] as int].value by {}
    assert(values_from(a, id) =~= seq![value] + values_from(s, at));
    if readable_from(s, at) {
        assert forall|k: int| 0 <= k < new_path.len() implies a[#[trigger] new_path[k] as int].value is Some by {
            if k > 0 {
                assert(new_path[k] == old_path[k - 1]);
                assert(s[old_path[k - 1] as int].value is Some);
            }
        }
    }
}

/// A pop from a node without a successor takes nothing and changes
/// nothing. A pop from a node with a successor, where the tail looks back
/// at the node before it, takes the last of the values that a walk from
/// `at` meets and leaves the others, in their order.
pub proof fn lemma_popped_values<T>(s: Seq<Node<T>>, at: usize)
    requires
        well_formed(s),
        at < s.len(),
    ensures
        s[at as int].next is None ==> popped(s, at) == s && popped_value(s, at) is None,
        s[at as int].next is Some && tail_looks_back(s, at) ==> {
            &&& forward_path(popped(s, at), at) == forward_path(s, at).drop_last()
            &&& values_from(popped(s, at), at) == values_from(s, at).drop_last()
            &&& values_from(popped(s, at), at).len() == values_from(s, at).len() - 1
            &&& readable_from(s, at) ==> readable_from(popped(s, at), at) && popped_value(s, at)
                == Some(values_from(s, at).last())
        },
{
    if s[at as int].next is Some && tail_looks_back(s, at) {
        let next = next_links(s);
        let t = last_of(s, at);
        let p = pop_target(s, at);
        let after = popped(s, at);
        lemma_pop_target(s, at);
        lemma_popped(s, at, at);
        lemma_walk(next, at);
        lemma_path_split(next, at, p);
        lemma_height(next, p);
        lemma_height(next, t);
        let old_path = forward_path(s, at);
        let new_path = forward_path(after, at);
        assert(path(next, t) =~= seq![t]);
        assert(path(next, p) =~= seq![p, t]);
        assert(path(next, p).drop_first() =~= seq![t]);
        assert(new_path =~= old_path.drop_last());
        assert forall|k: int| 0 <= k < new_path.len() implies after[#[trigger] new_path[k] as int].value
            == s[old_path[k] as int].value by {
            lemma_path_step(next, at, k);
            lemma_walk(next, old_path[k]);
            assert(path(next, old_path[k]).len() >= 2);
            assert(old_path[k] != t);
        }
        assert(values_from(after, at) =~= values_from(s, at).drop_last());
        if readable_from(s, at) {
            assert forall|k: int| 0 <= k < new_path.len() implies after[#[trigger] new_path[k] as int].value is Some by {
                assert(s[old_path[k] as int].value is Some);
            }
            assert(s[old_path[old_path.len() - 1] as int].value is Some);
        }
    }
}


/// What a push to the end of the chain of `at` means for a walk from any
/// node `x` that was there before: where `x` had the tail of `at` as its
/// tail, the walk now runs on to the new node and meets the new value
/// last; elsewhere it is as it was.
pub proof fn lemma_pushed_to_end_seen_from<T>(s: Seq<Node<T>>, at: usize, value: T, x: usize)
    requires
        well_formed(s),
        at < s.len(),
        x < s.len(),
        s.len() < usize::MAX,
    ensures
        last_of(s, x) == last_of(s, at) ==> {
            &&& forward_path(pushed_to_end(s, at, value), x) == forward_path(s, x).push(
                s.len() as usize,
            )
            &&& values_from(pushed_to_end(s, at, value), x) == values_from(s, x).push(value)
            &&& last_of(pushed_to_end(s, at, value), x) == s.len()
        },
        last_of(s, x) != last_of(s, at) ==> {
            &&& forward_path(pushed_to_end(s, at, value), x) == forward_path(s, x)
            &&& values_from(pushed_to_end(s, at, value), x) == values_from(s, x)
            &&& last_of(pushed_to_end(s, at, value), x) == last_of(s, x)
        },
        first_of(pushed_to_end(s, at, value), x) == first_of(s, x),
{
    let g = grown(s, value);
    let id = s.len() as usize;
    let a = pushed_to_end(s, at, value);
    lemma_pushed_to_end(s, at, value);
    lemma_grown_well_formed(s, value);
    lemma_grown_keeps(s, value, at);
    lemma_grown_keeps(s, value, x);
    lemma_walk(next_links(s), at);
    lemma_walk(next_links(s), x);
    lemma_appended(g, at, id, x);
    let old_path = forward_path(s, x);
    let new_path = forward_path(a, x);
    if last_of(s, x) == last_of(s, at) {
        assert(new_path =~= old_path.push(id));
    }
    assert forall|k: int| 0 <= k < old_path.len() implies a[#[trigger] old_path[k] as int].value
        == s[old_path[k] as int].value by {}
    if last_of(s, x) == last_of(s, at) {
        assert(values_from(a, x) =~= values_from(s, x).push(value));
    } else {
        assert(values_from(a, x) =~= values_from(s, x));
    }
    lemma_links_with_next(g, last_of(g, at), Some(id));
    lemma_links_with_before(with_next(g, last_of(g, at), Some(id)), id, Some(at));
    lemma_relink_path(before_links(g), id, Some(at), x);
    lemma_walk(before_links(a), x);
    lemma_walk(before_links(g), x);
}

/// What a push to the front of the chain of `at` means for any node `x`
/// that was there before: a forward walk from `x` is as it was, and the
/// new node is the head of `x` where `x` had the head of `at` as its head.
pub proof fn lemma_pushed_to_front_seen_from<T>(s: Seq<Node<T>>, at: usize, value: T, x: usize)
    requires
        well_formed(s),
        at < s.len(),
        x < s.len(),
        s.len() < usize::MAX,
    ensures
        forward_path(pushed_to_front(s, at, value), x) == forward_path(s, x),
        values_from(pushed_to_front(s, at, value), x) == values_from(s, x),
        last_of(pushed_to_front(s, at, value), x) == last_of(s, x),
        first_of(pushed_to_front(s, at, value), x) == if first_of(s, x) == first_of(s, at) {
            s.len() as usize
        } else {
            first_of(s, x)
        },
{
    let g = grown(s, value);
    let id = s.len() as usize;
    let a = pushed_to_front(s, at, value);
    lemma_pushed_to_front(s, at, value);
    lemma_grown_well_formed(s, value);
    lemma_grown_keeps(s, value, at);
    lemma_grown_keeps(s, value, x);
    lemma_walk(next_links(s), x);
    lemma_walk(before_links(s), at);
    lemma_prepended(g, at, id, x);
    let old_path = forward_path(s, x);
    assert forall|k: int| 0 <= k < old_path.len() implies a[#[trigger] old_path[k] as int].value
        == s[old_path[k] as int].value by {}
    assert(values_from(a, x) =~= values_from(s, x));
    lemma_walk(next_links(a), x);
}

/// The values that a walk from `at` meets once `other` was appended: those
/// it met before, then those that a walk from `other` met.
pub proof fn lemma_appended_values<T>(s: Seq<Node<T>>, at: usize, other: usize)
    requires
        well_formed(s),
        may_append(s, at, other),
    ensures
        values_from(appended(s, at, other), at) == values_from(s, at) + values_from(s, other),
        readable_from(s, at) && readable_from(s, other) ==> readable_from(
            appended(s, at, other),
            at,
        ),
{
    let a = appended(s, at, other);
    lemma_appended(s, at, other, at);
    lemma_walk(next_links(s), at);
    lemma_walk(next_links(s), other);
    let first = forward_path(s, at);
    let second = forward_path(s, other);
    let joined = forward_path(a, at);
    assert forall|k: int| 0 <= k < joined.len() implies a[#[trigger] joined[k] as int].value == (
    if k < first.len() {
        s[first[k] as int].value
    } else {
        s[second[k - first.len()] as int].value
    }) by {
        if k < first.len() {
            assert(joined[k] == first[k]);
        } else {
            assert(joined[k] == second[k - first.len()]);
        }
    }
    assert(values_from(a, at) =~= values_from(s, at) + values_from(s, other));
    if readable_from(s, at) && readable_from(s, other) {
        assert forall|k: int| 0 <= k < joined.len() implies a[#[trigger] joined[k] as int].value is Some by {
            if k < first.len() {
                assert(s[first[k] as int].value is Some);
            } else {
                assert(s[second[k - first.len()] as int].value is Some);
            }
        }
    }
}

/// The values that a walk from `other` meets once it was prepended to
/// `at`: its own, then those that a walk from `at` met.
pub proof fn lemma_prepended_values<T>(s: Seq<Node<T>>, at: usize, other: usize)
    requires
        well_formed(s),
        may_prepend(s, at, other),
    ensures
        values_from(prepended(s, at, other), other) == seq![s[other as int].value.unwrap()]
            + values_from(s, at),
        s[other as int].value is Some && readable_from(s, at) ==> readable_from(
            prepended(s, at, other),
            other,
        ),
{
    let a = prepended(s, at, other);
    lemma_prepended(s, at, other, other);
    lemma_walk(next_links(s), at);
    lemma_walk(before_links(s), at);
    let rest = forward_path(s, at);
    let joined = forward_path(a, other);
    assert(joined =~= seq![other] + rest);
    assert forall|k: int| 0 <= k < joined.len() implies a[#[trigger] joined[k] as int].value == (
    if k == 0 {
        s[other as int].value
    } else {
        s[rest[k - 1] as int].value
    }) by {
        if k > 0 {
            assert(joined[k] == rest[k - 1]);
        } else {
            assert(joined[k] == other);
        }
    }
    assert(values_from(a, other) =~= seq![s[other as int].value.unwrap()] + values_from(s, at));
    if s[other as int].value is Some && readable_from(s, at) {
        assert forall|k: int| 0 <= k < joined.len() implies a[#[trigger] joined[k] as int].value is Some by {
            if k > 0 {
                assert(s[rest[k - 1] as int].value is Some);
            }
        }
    }
}


/// A walk meets the value of its first node and then what the walk from
/// the successor meets.
pub proof fn lemma_values_step<T>(s: Seq<Node<T>>, at: usize)
    requires
        well_formed(s),
        at < s.len(),
    ensures
        values_from(s, at).len() == forward_path(s, at).len(),
        values_from(s, at).len() >= 1,
        values_from(s, at)[0] == s[at as int].value.unwrap(),
        s[at as int].next is None ==> values_from(s, at) == seq![s[at as int].value.unwrap()],
        s[at as int].next matches Some(m) ==> {
            &&& m < s.len()
            &&& values_from(s, at).drop_first() == values_from(s, m)
            &&& readable_from(s, at) ==> readable_from(s, m)
        },
        readable_from(s, at) ==> s[at as int].value is Some,
{
    let next = next_links(s);
    lemma_walk(next, at);
    lemma_height(next, at);
    let p = forward_path(s, at);
    assert(p[0] == at);
    match s[at as int].next {
        None => {
            assert(values_from(s, at) =~= seq![s[at as int].value.unwrap()]);
        },
        Some(m) => {
            let rest = forward_path(s, m);
            assert(p =~= seq![at] + rest);
            assert(values_from(s, at).drop_first() =~= values_from(s, m));
            if readable_from(s, at) {
                assert forall|k: int| 0 <= k < rest.len() implies s[#[trigger] rest[k] as int].value is Some by {
                    assert(rest[k] == p[k + 1]);
                }
            }
        },
    }
}

/// A value that changes off the walk from `x` changes nothing that the
/// walk meets; one that is set anywhere leaves a readable walk readable.
pub proof fn lemma_value_off_path<T>(s: Seq<Node<T>>, i: usize, v: T, x: usize)
    requires
        well_formed(s),
        i < s.len(),
        x < s.len(),
    ensures
        forward_path(with_value(s, i, Some(v)), x) == forward_path(s, x),
        !reaches(next_links(s), x, i) ==> values_from(with_value(s, i, Some(v)), x)
            == values_from(s, x),
        readable_from(s, x) ==> readable_from(with_value(s, i, Some(v)), x),
{
    let t = with_value(s, i, Some(v));
    let next = next_links(s);
    lemma_links_with_value(s, i, Some(v));
    lemma_walk(next, x);
    let p = forward_path(s, x);
    if !reaches(next, x, i) {
        lemma_reaches_is_on_path(next, x, i);
        assert forall|k: int| 0 <= k < p.len() implies t[#[trigger] p[k] as int].value == s[p[k] as int].value by {
            assert(p.contains(p[k]));
        }
        assert(values_from(t, x) =~= values_from(s, x));
    }
    if readable_from(s, x) {
        assert forall|k: int| 0 <= k < p.len() implies t[#[trigger] p[k] as int].value is Some by {
            assert(s[p[k] as int].value is Some);
        }
    }
}


/// The tail that a walk from `n` ends at is a node of the table without a
/// successor, and the head that a backward walk ends at is one without a
/// predecessor. The walk from `n` visits its tail.
pub proof fn lemma_ends<T>(s: Seq<Node<T>>, n: usize)
    requires
        well_formed(s),
        n < s.len(),
    ensures
        last_of(s, n) < s.len(),
        s[last_of(s, n) as int].next is None,
        last_of(s, last_of(s, n)) == last_of(s, n),
        forward_path(s, n).last() == last_of(s, n),
        reaches(next_links(s), n, last_of(s, n)),
        first_of(s, n) < s.len(),
        s[first_of(s, n) as int].before is None,
        first_of(s, first_of(s, n)) == first_of(s, n),
        reaches(before_links(s), n, first_of(s, n)),
{
    lemma_walk(next_links(s), n);
    lemma_walk(before_links(s), n);
}

/// The table that comes of a single node with `first` when the values of
/// `rest` are pushed to its end one after the other, each push made at
/// the first node.
pub open spec fn built_to_end<T>(first: T, rest: Seq<T>) -> Seq<Node<T>>
    decreases rest.len(),
{
    if rest.len() == 0 {
        seq![single(first)]
    } else {
        pushed_to_end(built_to_end(first, rest.drop_last()), 0, rest.last())
    }
}

/// Pushing values to the end builds the chain in the order of the pushes:
/// a walk from the first node meets its value and then the pushed values,
/// each where it was pushed.
pub proof fn lemma_built_to_end<T>(first: T, rest: Seq<T>)
    requires
        rest.len() < usize::MAX,
    ensures
        well_formed(built_to_end(first, rest)),
        built_to_end(first, rest).len() == rest.len() + 1,
        readable_from(built_to_end(first, rest), 0),
        values_from(built_to_end(first, rest), 0) == seq![first] + rest,
        forall|i: int|
            0 <= i <= rest.len() ==> #[trigger] nth_from(built_to_end(first, rest), 0, i) == Some(
                (seq![first] + rest)[i],
            ),
        forall|i: int|
            i > rest.len() ==> #[trigger] nth_from(built_to_end(first, rest), 0, i) is None,
    decreases rest.len(),
{
    if rest.len() == 0 {
        lemma_single(first);
        assert(seq![first] + rest =~= seq![first]);
    } else {
        let shorter = rest.drop_last();
        lemma_built_to_end(first, shorter);
        lemma_pushed_to_end(built_to_end(first, shorter), 0, rest.last());
        assert((seq![first] + shorter).push(rest.last()) =~= seq![first] + rest);
    }
}

/// The table that comes of a single node with `first` when the values of
/// `rest` are pushed to the front one after the other, each push made at
/// the head that the push before it made. After `k` pushes that head is
/// node `k`.
pub open spec fn built_to_front<T>(first: T, rest: Seq<T>) -> Seq<Node<T>>
    decreases rest.len(),
{
    if rest.len() == 0 {
        seq![single(first)]
    } else {
        pushed_to_front(
            built_to_front(first, rest.drop_last()),
            (rest.len() - 1) as usize,
            rest.last(),
        )
    }
}

/// Pushing values to the front builds the chain against the order of the
/// pushes: a walk from the last head meets the pushed values, the latest
/// first, and then the value of the first node. That head is the head of
/// every node pushed before it.
pub proof fn lemma_built_to_front<T>(first: T, rest: Seq<T>)
    requires
        rest.len() < usize::MAX,
    ensures
        well_formed(built_to_front(first, rest)),
        built_to_front(first, rest).len() == rest.len() + 1,
        readable_from(built_to_front(first, rest), rest.len() as usize),
        values_from(built_to_front(first, rest), rest.len() as usize) == rest.reverse() + seq![
            first,
        ],
        first_of(built_to_front(first, rest), rest.len() as usize) == rest.len(),
    decreases rest.len(),
{
    if rest.len() == 0 {
        lemma_single(first);
        lemma_walk(before_links(seq![single(first)]), 0);
        assert(rest.reverse() + seq![first] =~= seq![first]);
    } else {
        let shorter = rest.drop_last();
        let head = (rest.len() - 1) as usize;
        lemma_built_to_front(first, shorter);
        lemma_pushed_to_front(built_to_front(first, shorter), head, rest.last());
        assert(seq![rest.last()] + (shorter.reverse() + seq![first]) =~= rest.reverse() + seq![
            first,
        ]);
    }
}

} // verus!
