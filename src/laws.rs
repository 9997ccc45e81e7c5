//! Properties of the ledger that hold across its operations.

use vstd::prelude::*;
use crate::ledger::{
    ResourceList,
    entry,
    row_len,
    seq_at,
    unfinished,
    lemma_held_total,
    lemma_held_zero,
};

verus! {

/// Capacities after resource `r` was created with `n` units: ids skipped
/// over have capacity zero.
pub open spec fn caps_after_create(caps: Seq<int>, r: int, n: int) -> Seq<int> {
    Seq::new(
        if r < caps.len() {
            caps.len()
        } else {
            (r + 1) as nat
        },
        |q: int|
            if q == r {
                n
            } else if q < caps.len() {
                caps[q]
            } else {
                0
            },
    )
}

/// An empty ledger conserves the empty list of capacities.
pub proof fn lemma_new_conserves(l: &ResourceList)
    requires
        l.avail@.len() == 0,
    ensures
        l.conserves(Seq::empty()),
{
}

/// Creating a resource that nobody holds gives it `n` units of capacity and
/// keeps every other resource conserved.
pub proof fn lemma_create_conserves(pre: &ResourceList, post: &ResourceList, caps: Seq<int>, r: int, n: int)
    requires
        pre.wf(),
        pre.conserves(caps),
        0 <= r,
        pre.held(r) == 0,
        ResourceList::created(pre, post, r, n),
    ensures
        post.conserves(caps_after_create(caps, r, n)),
{
    let c2 = caps_after_create(caps, r, n);
    assert forall|q: int| 0 <= q < c2.len() implies #[trigger] post.avail_at(q) + post.held(q) == c2[q] by {
        lemma_held_total(pre, post, q, 0, 0);
        if q != r && q >= caps.len() {
            lemma_held_zero(pre, q, pre.allocated@.len() as int);
        } else if q != r {
            assert(pre.avail_at(q) + pre.held(q) == caps[q]);
        }
    }
}

/// Recording a request changes neither what is free nor what is held.
pub proof fn lemma_request_conserves(
    pre: &ResourceList,
    post: &ResourceList,
    caps: Seq<int>,
    t: int,
    r: int,
    n: int,
)
    requires
        pre.conserves(caps),
        ResourceList::requested(pre, post, t, r, n),
    ensures
        post.conserves(caps),
{
    assert forall|q: int| 0 <= q < caps.len() implies #[trigger] post.avail_at(q) + post.held(q) == caps[q] by {
        lemma_held_total(pre, post, q, 0, 0);
        assert(pre.avail_at(q) + pre.held(q) == caps[q]);
    }
}

/// A grant moves units from free to held: capacities are unchanged.
pub proof fn lemma_commit_conserves(
    pre: &ResourceList,
    post: &ResourceList,
    caps: Seq<int>,
    t: int,
    r: int,
    n: int,
)
    requires
        pre.conserves(caps),
        0 <= t,
        ResourceList::committed(pre, post, t, r, n),
    ensures
        post.conserves(caps),
{
    assert forall|q: int| 0 <= q < caps.len() implies #[trigger] post.avail_at(q) + post.held(q) == caps[q] by {
        lemma_held_total(pre, post, q, t, if q == r { n } else { 0 });
        assert(pre.avail_at(q) + pre.held(q) == caps[q]);
    }
}

/// A release moves units from held to free: capacities are unchanged.
pub proof fn lemma_release_conserves(
    pre: &ResourceList,
    post: &ResourceList,
    caps: Seq<int>,
    t: int,
    r: int,
    n: int,
)
    requires
        pre.conserves(caps),
        0 <= t,
        ResourceList::released(pre, post, t, r, n),
    ensures
        post.conserves(caps),
{
    assert forall|q: int| 0 <= q < caps.len() implies #[trigger] post.avail_at(q) + post.held(q) == caps[q] by {
        lemma_held_total(pre, post, q, t, if q == r { -n } else { 0 });
        assert(pre.avail_at(q) + pre.held(q) == caps[q]);
    }
}

/// Granting `n` units of `r` to task `t` and then releasing them restores
/// exactly what is free and what is held.
pub proof fn lemma_release_undoes_commit(
    a: &ResourceList,
    b: &ResourceList,
    c: &ResourceList,
    t: int,
    r: int,
    n: int,
)
    requires
        ResourceList::committed(a, b, t, r, n),
        ResourceList::released(b, c, t, r, n),
    ensures
        forall|q: int| #[trigger] c.avail_at(q) == a.avail_at(q),
        forall|u: int, q: int| #[trigger] c.alloc_at(u, q) == a.alloc_at(u, q),
{
    assert forall|q: int| #[trigger] c.avail_at(q) == a.avail_at(q) by {
        assert(b.avail_at(q) == a.avail_at(q) - if q == r { n } else { 0 });
    }
    assert forall|u: int, q: int| #[trigger] c.alloc_at(u, q) == a.alloc_at(u, q) by {
        assert(b.alloc_at(u, q) == a.alloc_at(u, q) + if u == t && q == r { n } else { 0 });
    }
}

/// A request, even for an unseen task or resource, keeps every other entry
/// of the ledger and shortens no table.
pub proof fn lemma_request_keeps_entries(pre: &ResourceList, post: &ResourceList, t: int, r: int, n: int)
    requires
        ResourceList::requested(pre, post, t, r, n),
    ensures
        post.grows_from(pre),
        forall|q: int| #[trigger] post.avail_at(q) == pre.avail_at(q),
        forall|u: int, q: int| #[trigger] post.alloc_at(u, q) == pre.alloc_at(u, q),
        forall|u: int, q: int| (u, q) != (t, r) ==> #[trigger] post.need_at(u, q) == pre.need_at(u, q),
{
}

/// A grant, even to an unseen task, keeps every entry but the granted one's
/// and shortens no table.
pub proof fn lemma_commit_keeps_entries(pre: &ResourceList, post: &ResourceList, t: int, r: int, n: int)
    requires
        ResourceList::committed(pre, post, t, r, n),
    ensures
        post.grows_from(pre),
        forall|q: int| q != r ==> #[trigger] post.avail_at(q) == pre.avail_at(q),
        forall|u: int, q: int| (u, q) != (t, r) ==> #[trigger] post.alloc_at(u, q) == pre.alloc_at(u, q),
        forall|u: int, q: int| (u, q) != (t, r) ==> #[trigger] post.need_at(u, q) == pre.need_at(u, q),
{
}

/// Creating a resource, even one with an unseen id, keeps the free units of
/// every other resource and leaves the task tables as they were.
pub proof fn lemma_create_keeps_entries(pre: &ResourceList, post: &ResourceList, r: int, n: int)
    requires
        ResourceList::created(pre, post, r, n),
    ensures
        post.avail@.len() >= pre.avail@.len(),
        forall|q: int| q != r ==> #[trigger] post.avail_at(q) == pre.avail_at(q),
        post.allocated == pre.allocated,
        post.need == pre.need,
{
}

/// With every task finished there is nothing to wait on: never stuck.
pub proof fn lemma_all_finished_not_stuck(l: &ResourceList, av: Seq<int>, fin: Seq<bool>)
    requires
        forall|t: int| 0 <= t < fin.len() ==> #[trigger] fin[t],
    ensures
        !l.stuck(av, fin),
{
    lemma_unfinished_all_true(fin);
}

/// A request for no more than is free right now is never a deadlock,
/// whatever the other tasks wait for.
pub proof fn lemma_free_request_safe(l: &ResourceList, r: int, n: int, fin: Seq<bool>, dead: bool)
    requires
        l.avail_at(r) >= n,
        dead == (l.avail_at(r) < n && l.stuck(l.avail_seq(), fin)),
    ensures
        !dead,
{
}

/// Without circular waiting, that is when the need of every unfinished task
/// can be met from what is free, the tasks are never stuck.
pub proof fn lemma_no_circular_wait_not_stuck(l: &ResourceList, av: Seq<int>, fin: Seq<bool>)
    requires
        forall|t: int| 0 <= t < fin.len() && !fin[t] ==> #[trigger] l.can_finish(av, t),
    ensures
        !l.stuck(av, fin),
{
    if unfinished(fin) != 0 {
        lemma_scan_finishes_all(l, av, fin, 0);
        let next = l.scan(av, fin, 0);
        lemma_unfinished_all_true(next.1);
        assert(!l.stuck(next.0, next.1));
    }
}

/// Free units only grow as tasks give back what they hold, so a need that
/// could be met stays one that can be met.
proof fn lemma_can_finish_mono(l: &ResourceList, av: Seq<int>, av2: Seq<int>, t: int)
    requires
        av.len() == av2.len(),
        forall|k: int| 0 <= k < av.len() ==> av[k] <= #[trigger] av2[k],
        l.can_finish(av, t),
    ensures
        l.can_finish(av2, t),
{
    assert forall|k: int| 0 <= k < row_len(l.need@, t) implies #[trigger] entry(l.need@, t, k) <= seq_at(
        av2,
        k,
    ) by {
        assert(entry(l.need@, t, k) <= seq_at(av, k));
        if 0 <= k < av.len() {
            assert(av[k] <= av2[k]);
        }
    }
}

proof fn lemma_scan_finishes_all(l: &ResourceList, av: Seq<int>, fin: Seq<bool>, i: int)
    requires
        0 <= i,
        forall|t: int| i <= t < fin.len() && !fin[t] ==> #[trigger] l.can_finish(av, t),
    ensures
        l.scan(av, fin, i).1.len() == fin.len(),
        forall|t: int| 0 <= t < fin.len() ==> #[trigger] l.scan(av, fin, i).1[t] == (fin[t] || t >= i),
    decreases fin.len() - i,
{
    if i < fin.len() {
        if !fin[i] && l.can_finish(av, i) {
            let av2 = l.give_back(av, i);
            let fin2 = fin.update(i, true);
            assert forall|t: int| i + 1 <= t < fin2.len() && !fin2[t] implies #[trigger] l.can_finish(
                av2,
                t,
            ) by {
                assert forall|k: int| 0 <= k < av.len() implies av[k] <= #[trigger] av2[k] by {
                    assert(l.alloc_at(i, k) >= 0);
                }
                lemma_can_finish_mono(l, av, av2, t);
            }
            lemma_scan_finishes_all(l, av2, fin2, i + 1);
        } else {
            lemma_scan_finishes_all(l, av, fin, i + 1);
        }
    }
}

proof fn lemma_unfinished_all_true(fin: Seq<bool>)
    requires
        forall|t: int| 0 <= t < fin.len() ==> #[trigger] fin[t],
    ensures
        unfinished(fin) == 0,
    decreases fin.len(),
{
    if fin.len() > 0 {
        let d = fin.drop_last();
        assert forall|t: int| 0 <= t < d.len() implies #[trigger] d[t] by {
            assert(d[t] == fin[t]);
        }
        lemma_unfinished_all_true(d);
    }
}

} // verus!
