//! Walks along one kind of link.
//!
//! A list holds two kinds of link, forward and backward. Each kind, taken
//! alone, is a sequence with one entry per node: the handle of the node
//! that the link leads to, if there is one. Everything here is stated for
//! such a sequence, so that it serves both directions.
use vstd::prelude::*;

verus! {

/// The walk that starts at node `n` comes to a node without a link after
/// exactly `k` steps, and never leaves the table on its way.
pub open spec fn ends_after(links: Seq<Option<usize>>, n: usize, k: nat) -> bool
    decreases k,
{
    &&& n < links.len()
    &&& match links[n as int] {
        None => k == 0,
        Some(m) => k > 0 && ends_after(links, m, (k - 1) as nat),
    }
}

/// The walk that starts at node `n` comes to an end.
pub open spec fn terminates(links: Seq<Option<usize>>, n: usize) -> bool {
    exists|k: nat| ends_after(links, n, k)
}

/// Every walk comes to an end: no link leaves the table and no walk runs
/// in a circle.
pub open spec fn acyclic(links: Seq<Option<usize>>) -> bool {
    forall|n: usize| n < links.len() ==> #[trigger] terminates(links, n)
}

/// The number of steps from node `n` to the end of its walk.
pub open spec fn height(links: Seq<Option<usize>>, n: usize) -> nat {
    choose|k: nat| ends_after(links, n, k)
}

/// A walk ends after one number of steps only.
pub proof fn lemma_ends_after_unique(links: Seq<Option<usize>>, n: usize, a: nat, b: nat)
    requires
        ends_after(links, n, a),
        ends_after(links, n, b),
    ensures
        a == b,
    decreases a,
{
    match links[n as int] {
        None => {},
        Some(m) => {
            lemma_ends_after_unique(links, m, (a - 1) as nat, (b - 1) as nat);
        },
    }
}

/// A walk that ends after `k` steps has height `k`.
pub proof fn lemma_height_is(links: Seq<Option<usize>>, n: usize, k: nat)
    requires
        ends_after(links, n, k),
    ensures
        height(links, n) == k,
        terminates(links, n),
{
    lemma_ends_after_unique(links, n, k, height(links, n));
}

/// The height of a node is zero at the end of a walk and one more than
/// the height of the next node elsewhere.
pub proof fn lemma_height(links: Seq<Option<usize>>, n: usize)
    requires
        acyclic(links),
        n < links.len(),
    ensures
        ends_after(links, n, height(links, n)),
        links[n as int] is None ==> height(links, n) == 0,
        links[n as int] matches Some(m) ==> m < links.len() && height(links, n) == height(
            links,
            m,
        ) + 1,
{
    assert(terminates(links, n));
    let k = height(links, n);
    match links[n as int] {
        None => {},
        Some(m) => {
            lemma_height_is(links, m, (k - 1) as nat);
        },
    }
}

/// The node at which the walk from `n` ends.
pub open spec fn end_of(links: Seq<Option<usize>>, n: usize) -> usize
    decreases height(links, n),
    when acyclic(links) && n < links.len()
    via end_of_decreases
{
    match links[n as int] {
        None => n,
        Some(m) => end_of(links, m),
    }
}

#[via_fn]
proof fn end_of_decreases(links: Seq<Option<usize>>, n: usize) {
    lemma_height(links, n);
}

/// The nodes that the walk from `n` visits, `n` first.
pub open spec fn path(links: Seq<Option<usize>>, n: usize) -> Seq<usize>
    decreases height(links, n),
    when acyclic(links) && n < links.len()
    via path_decreases
{
    match links[n as int] {
        None => seq![n],
        Some(m) => seq![n] + path(links, m),
    }
}

#[via_fn]
proof fn path_decreases(links: Seq<Option<usize>>, n: usize) {
    lemma_height(links, n);
}

/// The walk from `from` visits `to`.
pub open spec fn reaches(links: Seq<Option<usize>>, from: usize, to: usize) -> bool
    decreases height(links, from),
    when acyclic(links) && from < links.len()
    via reaches_decreases
{
    from == to || match links[from as int] {
        None => false,
        Some(m) => reaches(links, m, to),
    }
}

#[via_fn]
proof fn reaches_decreases(links: Seq<Option<usize>>, from: usize, to: usize) {
    lemma_height(links, from);
}

/// The nodes that the walk from `from` visits up to `to`, both included;
/// the whole walk where it does not visit `to`.
pub open spec fn path_until(links: Seq<Option<usize>>, from: usize, to: usize) -> Seq<usize>
    decreases height(links, from),
    when acyclic(links) && from < links.len()
    via path_until_decreases
{
    if from == to {
        seq![from]
    } else {
        match links[from as int] {
            None => seq![from],
            Some(m) => seq![from] + path_until(links, m, to),
        }
    }
}

#[via_fn]
proof fn path_until_decreases(links: Seq<Option<usize>>, from: usize, to: usize) {
    lemma_height(links, from);
}


/// What holds of the walk from any node: where it ends, how long it is
/// and that it stays inside the table.
pub proof fn lemma_walk(links: Seq<Option<usize>>, n: usize)
    requires
        acyclic(links),
        n < links.len(),
    ensures
        end_of(links, n) < links.len(),
        links[end_of(links, n) as int] is None,
        reaches(links, n, n),
        reaches(links, n, end_of(links, n)),
        path(links, n).len() == height(links, n) + 1,
        path(links, n)[0] == n,
        path(links, n).last() == end_of(links, n),
        forall|k: int|
            0 <= k < path(links, n).len() ==> #[trigger] path(links, n)[k] < links.len(),
    decreases height(links, n),
{
    lemma_height(links, n);
    match links[n as int] {
        None => {},
        Some(m) => {
            lemma_walk(links, m);
            let rest = path(links, m);
            assert forall|k: int| 0 <= k < path(links, n).len() implies #[trigger] path(links, n)[k] < links.len() by {
                if k > 0 {
                    assert(path(links, n)[k] == rest[k - 1]);
                }
            }
        },
    }
}

/// Each node on a walk, but the last, is linked to the one after it.
pub proof fn lemma_path_step(links: Seq<Option<usize>>, n: usize, k: int)
    requires
        acyclic(links),
        n < links.len(),
        0 <= k < path(links, n).len(),
    ensures
        path(links, n)[k] < links.len(),
        path(links, path(links, n)[k]) == path(links, n).skip(k),
        k + 1 < path(links, n).len() ==> links[path(links, n)[k] as int] == Some(path(links, n)[k + 1]),
        k + 1 == path(links, n).len() ==> links[path(links, n)[k] as int] is None,
    decreases k,
{
    lemma_walk(links, n);
    lemma_height(links, n);
    if k == 0 {
        assert(path(links, n).skip(0) =~= path(links, n));
        match links[n as int] {
            None => {},
            Some(m) => {
                lemma_walk(links, m);
            },
        }
    } else {
        match links[n as int] {
            None => {},
            Some(m) => {
                lemma_path_step(links, m, k - 1);
                let rest = path(links, m);
                assert(path(links, n).skip(k) =~= rest.skip(k - 1));
                assert(path(links, n)[k] == rest[k - 1]);
                if k + 1 < path(links, n).len() {
                    assert(path(links, n)[k + 1] == rest[k]);
                }
            },
        }
    }
}

/// A walk visits a node exactly if the node is on its path.
pub proof fn lemma_reaches_is_on_path(links: Seq<Option<usize>>, from: usize, to: usize)
    requires
        acyclic(links),
        from < links.len(),
    ensures
        reaches(links, from, to) == path(links, from).contains(to),
    decreases height(links, from),
{
    lemma_height(links, from);
    let p = path(links, from);
    assert(p[0] == from);
    match links[from as int] {
        None => {},
        Some(m) => {
            lemma_reaches_is_on_path(links, m, to);
            let rest = path(links, m);
            if rest.contains(to) {
                let k = choose|k: int| 0 <= k < rest.len() && rest[k] == to;
                assert(p[k + 1] == to);
            }
            if p.contains(to) && from != to {
                let k = choose|k: int| 0 <= k < p.len() && p[k] == to;
                assert(rest[k - 1] == to);
            }
        },
    }
}

/// A walk never climbs: a node that it visits is no higher than its start.
pub proof fn lemma_reaches_lower(links: Seq<Option<usize>>, from: usize, to: usize)
    requires
        acyclic(links),
        from < links.len(),
        reaches(links, from, to),
    ensures
        to < links.len(),
        height(links, to) <= height(links, from),
    decreases height(links, from),
{
    lemma_height(links, from);
    if from != to {
        match links[from as int] {
            None => {},
            Some(m) => {
                lemma_reaches_lower(links, m, to);
            },
        }
    }
}

/// The walk from the node after `n` does not come back to `n`.
pub proof fn lemma_no_return(links: Seq<Option<usize>>, n: usize)
    requires
        acyclic(links),
        n < links.len(),
    ensures
        links[n as int] matches Some(m) ==> !reaches(links, m, n),
{
    lemma_height(links, n);
    match links[n as int] {
        None => {},
        Some(m) => {
            if reaches(links, m, n) {
                lemma_reaches_lower(links, m, n);
            }
        },
    }
}

/// A walk visits a node without a link exactly if it ends there.
pub proof fn lemma_reaches_end(links: Seq<Option<usize>>, from: usize, end: usize)
    requires
        acyclic(links),
        from < links.len(),
        end < links.len(),
        links[end as int] is None,
    ensures
        reaches(links, from, end) == (end_of(links, from) == end),
        reaches(links, from, end) ==> path_until(links, from, end) == path(links, from),
    decreases height(links, from),
{
    lemma_height(links, from);
    if from != end {
        match links[from as int] {
            None => {},
            Some(m) => {
                lemma_reaches_end(links, m, end);
            },
        }
    }
}

/// A walk that visits `to` is its path up to `to` followed by the walk
/// from `to`; one that does not is its own path up to `to`.
pub proof fn lemma_path_split(links: Seq<Option<usize>>, from: usize, to: usize)
    requires
        acyclic(links),
        from < links.len(),
    ensures
        reaches(links, from, to) ==> path(links, from) == path_until(links, from, to) + path(
            links,
            to,
        ).drop_first(),
        reaches(links, from, to) ==> path_until(links, from, to).last() == to,
        !reaches(links, from, to) ==> path_until(links, from, to) == path(links, from),
        path_until(links, from, to).len() >= 1,
        path_until(links, from, to)[0] == from,
    decreases height(links, from),
{
    lemma_height(links, from);
    lemma_walk(links, from);
    if from == to {
        assert(path(links, from) =~= seq![from] + path(links, from).drop_first());
    } else {
        match links[from as int] {
            None => {},
            Some(m) => {
                lemma_path_split(links, m, to);
                if reaches(links, m, to) {
                    lemma_reaches_lower(links, m, to);
                    assert(path(links, from) =~= path_until(links, from, to) + path(
                        links,
                        to,
                    ).drop_first());
                }
            },
        }
    }
}


/// The link of node `i` may be set to `v` without closing a circle: the
/// walk from the new target does not visit `i`.
pub open spec fn may_link(links: Seq<Option<usize>>, i: usize, v: Option<usize>) -> bool {
    &&& i < links.len()
    &&& v matches Some(j) ==> j < links.len() && !reaches(links, j, i)
}

/// The path from `x` once the link of node `i` is `v`: a walk that
/// visited `i` turns there, any other stays as it was.
pub open spec fn relinked_path(
    links: Seq<Option<usize>>,
    i: usize,
    v: Option<usize>,
    x: usize,
) -> Seq<usize> {
    if reaches(links, x, i) {
        path_until(links, x, i) + match v {
            None => Seq::empty(),
            Some(j) => path(links, j),
        }
    } else {
        path(links, x)
    }
}

proof fn lemma_relink_keeps_walk(links: Seq<Option<usize>>, i: usize, v: Option<usize>, x: usize)
    requires
        acyclic(links),
        i < links.len(),
        x < links.len(),
        !reaches(links, x, i),
    ensures
        ends_after(links.update(i as int, v), x, height(links, x)),
    decreases height(links, x),
{
    lemma_height(links, x);
    match links[x as int] {
        None => {},
        Some(m) => {
            lemma_relink_keeps_walk(links, i, v, m);
        },
    }
}

proof fn lemma_relink_turns_walk(links: Seq<Option<usize>>, i: usize, v: Option<usize>, x: usize)
    requires
        acyclic(links),
        may_link(links, i, v),
        x < links.len(),
        reaches(links, x, i),
    ensures
        terminates(links.update(i as int, v), x),
    decreases height(links, x),
{
    lemma_height(links, x);
    let new = links.update(i as int, v);
    if x == i {
        match v {
            None => {
                assert(ends_after(new, x, 0));
            },
            Some(j) => {
                lemma_relink_keeps_walk(links, i, v, j);
                assert(ends_after(new, x, height(links, j) + 1));
            },
        }
    } else {
        match links[x as int] {
            None => {},
            Some(m) => {
                lemma_relink_turns_walk(links, i, v, m);
                let k = choose|k: nat| ends_after(new, m, k);
                assert(ends_after(new, x, k + 1));
            },
        }
    }
}

/// Setting one link, to a target whose walk does not come back, leaves
/// every walk finite.
pub proof fn lemma_relink_acyclic(links: Seq<Option<usize>>, i: usize, v: Option<usize>)
    requires
        acyclic(links),
        may_link(links, i, v),
    ensures
        acyclic(links.update(i as int, v)),
{
    let new = links.update(i as int, v);
    assert forall|x: usize| x < new.len() implies #[trigger] terminates(new, x) by {
        if reaches(links, x, i) {
            lemma_relink_turns_walk(links, i, v, x);
        } else {
            lemma_relink_keeps_walk(links, i, v, x);
        }
    }
}

proof fn lemma_relink_keeps_path(links: Seq<Option<usize>>, i: usize, v: Option<usize>, x: usize)
    requires
        acyclic(links),
        acyclic(links.update(i as int, v)),
        i < links.len(),
        x < links.len(),
        !reaches(links, x, i),
    ensures
        path(links.update(i as int, v), x) == path(links, x),
    decreases height(links, x),
{
    lemma_height(links, x);
    match links[x as int] {
        None => {},
        Some(m) => {
            lemma_relink_keeps_path(links, i, v, m);
        },
    }
}

/// The paths after one link was set.
pub proof fn lemma_relink_path(links: Seq<Option<usize>>, i: usize, v: Option<usize>, x: usize)
    requires
        acyclic(links),
        may_link(links, i, v),
        x < links.len(),
    ensures
        acyclic(links.update(i as int, v)),
        path(links.update(i as int, v), x) == relinked_path(links, i, v, x),
    decreases height(links, x),
{
    lemma_relink_acyclic(links, i, v);
    lemma_height(links, x);
    let new = links.update(i as int, v);
    if !reaches(links, x, i) {
        lemma_relink_keeps_path(links, i, v, x);
    } else if x == i {
        match v {
            None => {
                assert(path(new, x) =~= relinked_path(links, i, v, x));
            },
            Some(j) => {
                lemma_relink_keeps_path(links, i, v, j);
            },
        }
    } else {
        match links[x as int] {
            None => {},
            Some(m) => {
                lemma_relink_path(links, i, v, m);
                assert(path(new, x) =~= relinked_path(links, i, v, x));
            },
        }
    }
}

/// The walks after a node without a link joined the table: the old ones
/// are unchanged and the new node is a walk of its own.
pub proof fn lemma_grown(links: Seq<Option<usize>>, x: usize)
    requires
        acyclic(links),
        links.len() <= usize::MAX,
        x <= links.len(),
    ensures
        acyclic(links.push(None)),
        x < links.len() ==> path(links.push(None), x) == path(links, x),
        x < links.len() ==> end_of(links.push(None), x) == end_of(links, x),
        x < links.len() ==> !reaches(links.push(None), x, links.len() as usize),
        x == links.len() ==> path(links.push(None), x) == seq![x],
        x == links.len() ==> end_of(links.push(None), x) == x,
{
    let new = links.push(None);
    assert forall|y: usize| y < new.len() implies #[trigger] terminates(new, y) by {
        if y < links.len() {
            lemma_grown_keeps_walk(links, y);
        } else {
            assert(ends_after(new, y, 0));
        }
    }
    if x < links.len() {
        lemma_grown_keeps_path(links, x);
    }
}

proof fn lemma_grown_keeps_walk(links: Seq<Option<usize>>, x: usize)
    requires
        acyclic(links),
        x < links.len(),
    ensures
        ends_after(links.push(None), x, height(links, x)),
    decreases height(links, x),
{
    lemma_height(links, x);
    match links[x as int] {
        None => {},
        Some(m) => {
            lemma_grown_keeps_walk(links, m);
        },
    }
}

proof fn lemma_grown_keeps_path(links: Seq<Option<usize>>, x: usize)
    requires
        links.len() <= usize::MAX,
        acyclic(links),
        acyclic(links.push(None)),
        x < links.len(),
    ensures
        path(links.push(None), x) == path(links, x),
        end_of(links.push(None), x) == end_of(links, x),
        !reaches(links.push(None), x, links.len() as usize),
    decreases height(links, x),
{
    lemma_height(links, x);
    match links[x as int] {
        None => {},
        Some(m) => {
            lemma_grown_keeps_path(links, m);
        },
    }
}

} // verus!
