//! The per-class resource ledger: how much of each resource is free, how much
//! each task holds, and what each task is waiting for.

use vstd::prelude::*;

verus! {

/// Value at `(t, r)` of a table of rows, zero where the table has no entry.
pub open spec fn entry(rows: Seq<Vec<usize>>, t: int, r: int) -> int {
    if 0 <= t < rows.len() && 0 <= r < rows[t]@.len() {
        rows[t]@[r] as int
    } else {
        0
    }
}

/// Length of row `t` of a table, zero where the row does not exist.
pub open spec fn row_len(rows: Seq<Vec<usize>>, t: int) -> int {
    if 0 <= t < rows.len() {
        rows[t]@.len() as int
    } else {
        0
    }
}

/// Extends `rows` so that it holds an entry at `(t, r)`; every entry that
/// existed keeps its value and the new ones are zero.
fn grow_rows(rows: &mut Vec<Vec<usize>>, t: usize, r: usize)
    ensures
        final(rows)@.len() == if t < old(rows)@.len() { old(rows)@.len() as int } else { t + 1 },
        forall|u: int|
            #![trigger row_len(final(rows)@, u)]
            row_len(final(rows)@, u) == if u == t && row_len(old(rows)@, u) <= r {
                r + 1
            } else {
                row_len(old(rows)@, u)
            },
        forall|u: int, k: int| entry(final(rows)@, u, k) == entry(old(rows)@, u, k),
{
    while rows.len() <= t
        invariant
            old(rows)@.len() <= rows@.len(),
            rows@.len() > old(rows)@.len() ==> rows@.len() <= t + 1,
            forall|u: int|
                0 <= u < rows@.len() ==> (#[trigger] rows@[u])@.len() == row_len(old(rows)@, u),
            forall|u: int, k: int| entry(rows@, u, k) == entry(old(rows)@, u, k),
        decreases t + 1 - rows@.len(),
    {
        rows.push(Vec::new());
    }
    let mut row: Vec<usize> = Vec::new();
    std::mem::swap(&mut row, &mut rows[t]);
    while row.len() <= r
        invariant
            row_len(old(rows)@, t as int) <= row@.len() <= if row_len(old(rows)@, t as int) <= r {
                r + 1
            } else {
                row_len(old(rows)@, t as int)
            },
            forall|k: int| 0 <= k < row@.len() ==> #[trigger] row@[k] as int == entry(old(rows)@, t as int, k),
        decreases r + 1 - row@.len(),
    {
        row.push(0);
    }
    std::mem::swap(&mut row, &mut rows[t]);
    proof {
        assert forall|u: int, k: int| entry(rows@, u, k) == entry(old(rows)@, u, k) by {
        }
    }
}


/// Value at `k` of a sequence, zero past its end.
pub open spec fn seq_at(s: Seq<int>, k: int) -> int {
    if 0 <= k < s.len() {
        s[k]
    } else {
        0
    }
}

/// A sequence of `i32` read as integers.
pub open spec fn ints(v: Seq<i32>) -> Seq<int> {
    Seq::new(v.len(), |k: int| v[k] as int)
}

/// Number of tasks that a liveness vector marks as not finished.
pub open spec fn unfinished(fin: Seq<bool>) -> nat
    decreases fin.len(),
{
    if fin.len() == 0 {
        0
    } else {
        unfinished(fin.drop_last()) + if fin.last() {
            0nat
        } else {
            1nat
        }
    }
}

/// Bookkeeping of one class of resources (all mutexes, or all semaphores).
///
/// `avail[r]` is the number of free units of resource `r`, `allocated[t][r]`
/// the units of `r` that task `t` holds, and `need[t][r]` the units of `r`
/// that task `t` is waiting for. Rows grow on demand and never shrink.
#[derive(Clone)]
pub struct ResourceList {
    pub avail: Vec<i32>,
    pub allocated: Vec<Vec<usize>>,
    pub need: Vec<Vec<usize>>,
}

impl ResourceList {
    /// Free units of resource `r` (zero for a resource never created).
    pub open spec fn avail_at(&self, r: int) -> int {
        if 0 <= r < self.avail@.len() {
            self.avail@[r] as int
        } else {
            0
        }
    }

    /// Units of resource `r` held by task `t`.
    pub open spec fn alloc_at(&self, t: int, r: int) -> int {
        entry(self.allocated@, t, r)
    }

    /// Units of resource `r` that task `t` is waiting for.
    pub open spec fn need_at(&self, t: int, r: int) -> int {
        entry(self.need@, t, r)
    }

    /// The free units of every resource, as integers.
    pub open spec fn avail_seq(&self) -> Seq<int> {
        ints(self.avail@)
    }

    /// Units of resource `r` held by tasks `0..k` together.
    pub open spec fn held_below(&self, r: int, k: int) -> int
        decreases k,
    {
        if k <= 0 {
            0
        } else {
            self.held_below(r, k - 1) + self.alloc_at(k - 1, r)
        }
    }

    /// Units of resource `r` held by all tasks together.
    pub open spec fn held(&self, r: int) -> int {
        self.held_below(r, self.allocated@.len() as int)
    }

    /// Well-formedness: free amounts are never negative, what is free and
    /// what is held of a resource fits an `i32`, and nothing is held of a
    /// resource that was never created.
    pub open spec fn wf(&self) -> bool {
        &&& forall|r: int|
            0 <= r < self.avail@.len() ==> 0 <= #[trigger] self.avail_at(r) && self.avail_at(r)
                + self.held(r) <= i32::MAX
        &&& forall|t: int, r: int|
            !(0 <= r < self.avail@.len()) ==> #[trigger] self.alloc_at(t, r) == 0
    }

    /// Conservation: for each resource, what is free plus what is held is
    /// its capacity `caps[r]`.
    pub open spec fn conserves(&self, caps: Seq<int>) -> bool {
        &&& caps.len() == self.avail@.len()
        &&& forall|r: int|
            0 <= r < caps.len() ==> #[trigger] self.avail_at(r) + self.held(r) == caps[r]
    }

    /// No table of `self` is shorter than in `prev`, row by row.
    pub open spec fn grows_from(&self, prev: &ResourceList) -> bool {
        &&& prev.avail@.len() <= self.avail@.len()
        &&& prev.allocated@.len() <= self.allocated@.len()
        &&& prev.need@.len() <= self.need@.len()
        &&& forall|t: int| row_len(prev.allocated@, t) <= #[trigger] row_len(self.allocated@, t)
        &&& forall|t: int| row_len(prev.need@, t) <= #[trigger] row_len(self.need@, t)
    }

    /// `post` is `pre` after resource `r` was set to `n` free units.
    pub open spec fn created(pre: &ResourceList, post: &ResourceList, r: int, n: int) -> bool {
        &&& post.avail@.len() == if r < pre.avail@.len() {
            pre.avail@.len() as int
        } else {
            r + 1
        }
        &&& forall|q: int| #[trigger]
            post.avail_at(q) == if q == r {
                n
            } else {
                pre.avail_at(q)
            }
        &&& post.allocated == pre.allocated
        &&& post.need == pre.need
    }

    /// `post` is `pre` after task `t` was granted `n` units of resource `r`.
    pub open spec fn committed(pre: &ResourceList, post: &ResourceList, t: int, r: int, n: int) -> bool {
        &&& post.grows_from(pre)
        &&& post.avail@.len() == pre.avail@.len()
        &&& forall|q: int| #[trigger]
            post.avail_at(q) == pre.avail_at(q) - if q == r {
                n
            } else {
                0
            }
        &&& forall|u: int, q: int| #[trigger]
            post.alloc_at(u, q) == pre.alloc_at(u, q) + if u == t && q == r {
                n
            } else {
                0
            }
        &&& forall|u: int, q: int| #[trigger]
            post.need_at(u, q) == if u == t && q == r {
                if pre.need_at(u, q) >= n {
                    pre.need_at(u, q) - n
                } else {
                    0
                }
            } else {
                pre.need_at(u, q)
            }
    }

    /// `post` is `pre` after task `t` gave back `n` units of resource `r`.
    pub open spec fn released(pre: &ResourceList, post: &ResourceList, t: int, r: int, n: int) -> bool {
        &&& post.grows_from(pre)
        &&& post.avail@.len() == pre.avail@.len()
        &&& forall|q: int| #[trigger]
            post.avail_at(q) == pre.avail_at(q) + if q == r {
                n
            } else {
                0
            }
        &&& forall|u: int, q: int| #[trigger]
            post.alloc_at(u, q) == pre.alloc_at(u, q) - if u == t && q == r {
                n
            } else {
                0
            }
        &&& forall|u: int, q: int| #[trigger] post.need_at(u, q) == pre.need_at(u, q)
    }
}

/// Holdings of one column never go below zero, and one changed entry moves
/// the column's total by the same amount.
pub proof fn lemma_held_change(a: &ResourceList, b: &ResourceList, r: int, t0: int, d: int, k: int)
    requires
        forall|t: int| t != t0 ==> #[trigger] a.alloc_at(t, r) == b.alloc_at(t, r),
        b.alloc_at(t0, r) == a.alloc_at(t0, r) + d,
    ensures
        b.held_below(r, k) == a.held_below(r, k) + if 0 <= t0 < k {
            d
        } else {
            0
        },
        a.held_below(r, k) >= 0,
    decreases k,
{
    if k > 0 {
        lemma_held_change(a, b, r, t0, d, k - 1);
    }
}

/// Tasks past the end of the table hold nothing.
pub proof fn lemma_held_tail(a: &ResourceList, r: int, k: int)
    requires
        k >= a.allocated@.len(),
    ensures
        a.held_below(r, k) == a.held(r),
    decreases k,
{
    if k > a.allocated@.len() {
        lemma_held_tail(a, r, k - 1);
    }
}

/// Total holdings of `r` in `b` are those of `a` plus `d` when the two differ
/// only in what task `t0` holds of `r`, by `d`.
pub proof fn lemma_held_total(a: &ResourceList, b: &ResourceList, r: int, t0: int, d: int)
    requires
        t0 >= 0,
        forall|t: int| t != t0 ==> #[trigger] a.alloc_at(t, r) == b.alloc_at(t, r),
        b.alloc_at(t0, r) == a.alloc_at(t0, r) + d,
    ensures
        b.held(r) == a.held(r) + d,
        a.held(r) >= 0,
        b.held(r) >= 0,
{
    let k = if a.allocated@.len() < b.allocated@.len() {
        b.allocated@.len() as int
    } else {
        a.allocated@.len() as int
    };
    lemma_held_change(a, b, r, t0, d, k);
    lemma_held_change(b, b, r, t0, 0, k);
    lemma_held_tail(a, r, k);
    lemma_held_tail(b, r, k);
    if t0 >= k {
        assert(a.alloc_at(t0, r) == 0 && b.alloc_at(t0, r) == 0);
    }
}


impl ResourceList {
    /// An empty ledger: no resource, no task.
    pub fn new() -> (l: Self)
        ensures
            l.wf(),
            l.avail@.len() == 0,
            l.allocated@.len() == 0,
            l.need@.len() == 0,
    {
        Self { avail: Vec::new(), allocated: Vec::new(), need: Vec::new() }
    }

    /// Creates resource `rid` with `size` free units, or resets the free
    /// units of an existing one to `size`. Ids skipped over get zero units.
    pub fn init_size(&mut self, size: usize, rid: usize)
        requires
            old(self).wf(),
            size + old(self).held(rid as int) <= i32::MAX,
        ensures
            final(self).wf(),
            Self::created(old(self), final(self), rid as int, size as int),
    {
        proof {
            lemma_held_total(old(self), old(self), rid as int, 0, 0);
        }
        if rid >= self.avail.len() {
            while self.avail.len() < rid
                invariant
                    old(self).avail@.len() <= self.avail@.len() <= rid,
                    forall|r: int| #[trigger] self.avail_at(r) == old(self).avail_at(r),
                    self.allocated == old(self).allocated,
                    self.need == old(self).need,
                decreases rid - self.avail@.len(),
            {
                let ghost before = *self;
                self.avail.push(0);
                proof {
                    assert forall|r: int| #[trigger] self.avail_at(r) == old(self).avail_at(r) by {
                        assert(self.avail_at(r) == before.avail_at(r));
                    }
                }
            }
            let ghost mid = *self;
            self.avail.push(size as i32);
            proof {
                assert forall|r: int| r != rid implies #[trigger] self.avail_at(r) == old(self).avail_at(r) by {
                    assert(mid.avail_at(r) == old(self).avail_at(r));
                    if 0 <= r < mid.avail@.len() {
                        assert(self.avail@[r] == mid.avail@[r]);
                    }
                }
            }
        } else {
            self.avail.set(rid, size as i32);
        }
        proof {
            assert forall|r: int| #[trigger]
                self.avail_at(r) == if r == rid {
                    size as int
                } else {
                    old(self).avail_at(r)
                } by {
            }
            assert forall|r: int| 0 <= r < self.avail@.len() implies 0 <= #[trigger] self.avail_at(r)
                && self.avail_at(r) + self.held(r) <= i32::MAX by {
                lemma_held_total(old(self), self, r, 0, 0);
                if r != rid && r >= old(self).avail@.len() {
                    lemma_held_zero(old(self), r, old(self).allocated@.len() as int);
                } else if r != rid {
                    assert(old(self).avail_at(r) + old(self).held(r) <= i32::MAX);
                }
            }
            assert forall|t: int, r: int| !(0 <= r < self.avail@.len()) implies #[trigger] self.alloc_at(t, r)
                == 0 by {
                assert(old(self).alloc_at(t, r) == 0);
            }
        }
    }

    /// Whether `size` units of resource `rid` are free right now.
    pub fn is_enough(&self, rid: usize, size: usize) -> (r: bool)
        ensures
            r == (self.avail_at(rid as int) >= size),
    {
        if rid >= self.avail.len() {
            return size == 0;
        }
        let a = self.avail[rid];
        a >= 0 && size <= a as usize
    }

    /// Records that task `tid` was granted `size` units of resource `rid`:
    /// they move from free to held, and the request is cleared by as much.
    pub fn alloc_one(&mut self, size: usize, rid: usize, tid: usize)
        requires
            old(self).wf(),
            rid < old(self).avail@.len(),
            size <= old(self).avail_at(rid as int),
        ensures
            final(self).wf(),
            Self::committed(old(self), final(self), tid as int, rid as int, size as int),
    {
        let ghost pre = *self;
        grow_rows(&mut self.allocated, tid, rid);
        grow_rows(&mut self.need, tid, rid);
        let ghost mid = *self;
        proof {
            assert(row_len(self.allocated@, tid as int) > rid);
            assert(row_len(self.need@, tid as int) > rid);
            assert(pre.avail_at(rid as int) + pre.held(rid as int) <= i32::MAX);
            lemma_held_total(&pre, &mid, rid as int, tid as int, 0);
            lemma_held_total(&pre, &pre, rid as int, tid as int, 0);
            assert(mid.alloc_at(tid as int, rid as int) <= mid.held(rid as int)) by {
                lemma_held_one(&mid, rid as int, tid as int);
            }
        }
        let held: usize = self.allocated[tid][rid];
        self.allocated[tid].set(rid, held + size);
        let a: i32 = self.avail[rid];
        self.avail.set(rid, a - size as i32);
        let wanted: usize = self.need[tid][rid];
        let rest: usize = if wanted >= size { wanted - size } else { 0 };
        self.need[tid].set(rid, rest);
        proof {
            assert forall|u: int, q: int| #[trigger]
                self.alloc_at(u, q) == pre.alloc_at(u, q) + if u == tid && q == rid {
                    size as int
                } else {
                    0
                } by {}
            assert forall|u: int, q: int| #[trigger]
                self.need_at(u, q) == if u == tid && q == rid {
                    if pre.need_at(u, q) >= size {
                        pre.need_at(u, q) - size
                    } else {
                        0
                    }
                } else {
                    pre.need_at(u, q)
                } by {}
            assert forall|t: int| row_len(pre.allocated@, t) <= #[trigger] row_len(self.allocated@, t) by {
                assert(row_len(pre.allocated@, t) <= row_len(mid.allocated@, t));
            }
            assert forall|t: int| row_len(pre.need@, t) <= #[trigger] row_len(self.need@, t) by {
                assert(row_len(pre.need@, t) <= row_len(mid.need@, t));
            }
            lemma_held_total(&pre, self, rid as int, tid as int, size as int);
            assert forall|r: int| 0 <= r < self.avail@.len() implies 0 <= #[trigger] self.avail_at(r)
                && self.avail_at(r) + self.held(r) <= i32::MAX by {
                if r != rid {
                    lemma_held_total(&pre, self, r, tid as int, 0);
                    assert(pre.avail_at(r) + pre.held(r) <= i32::MAX);
                }
            }
        }
    }

    /// Records that task `tid` gave back `size` units of resource `rid`.
    pub fn cycle(&mut self, rid: usize, size: usize, tid: usize)
        requires
            old(self).wf(),
            rid < old(self).avail@.len(),
            size <= old(self).alloc_at(tid as int, rid as int),
        ensures
            final(self).wf(),
            Self::released(old(self), final(self), tid as int, rid as int, size as int),
    {
        let ghost pre = *self;
        proof {
            lemma_held_one(&pre, rid as int, tid as int);
            assert(pre.avail_at(rid as int) + pre.held(rid as int) <= i32::MAX);
        }
        let a: i32 = self.avail[rid];
        self.avail.set(rid, a + size as i32);
        if tid < self.allocated.len() && rid < self.allocated[tid].len() {
            let held: usize = self.allocated[tid][rid];
            self.allocated[tid].set(rid, held - size);
        }
        proof {
            assert forall|u: int, q: int| #[trigger]
                self.alloc_at(u, q) == pre.alloc_at(u, q) - if u == tid && q == rid {
                    size as int
                } else {
                    0
                } by {}
            assert forall|t: int| row_len(pre.allocated@, t) <= #[trigger] row_len(self.allocated@, t) by {}
            assert forall|t: int| row_len(pre.need@, t) <= #[trigger] row_len(self.need@, t) by {}
            lemma_held_total(&pre, self, rid as int, tid as int, -size);
            assert forall|r: int| 0 <= r < self.avail@.len() implies 0 <= #[trigger] self.avail_at(r)
                && self.avail_at(r) + self.held(r) <= i32::MAX by {
                if r != rid {
                    lemma_held_total(&pre, self, r, tid as int, 0);
                    assert(pre.avail_at(r) + pre.held(r) <= i32::MAX);
                }
            }
        }
    }
}

impl ResourceList {
    /// Units of resource `rid` held by all tasks together.
    pub fn held_units(&self, rid: usize) -> (n: i64)
        requires
            self.wf(),
            rid < self.avail@.len(),
        ensures
            n == self.held(rid as int),
    {
        proof {
            assert(self.avail_at(rid as int) + self.held(rid as int) <= i32::MAX);
        }
        let mut n: i64 = 0;
        let mut t: usize = 0;
        while t < self.allocated.len()
            invariant
                self.wf(),
                rid < self.avail@.len(),
                self.avail_at(rid as int) + self.held(rid as int) <= i32::MAX,
                t <= self.allocated@.len(),
                n == self.held_below(rid as int, t as int),
            decreases self.allocated@.len() - t,
        {
            proof {
                lemma_held_below_mono(self, rid as int, t + 1, self.allocated@.len() as int);
                lemma_held_below_one(self, rid as int, 0, t as int);
            }
            if rid < self.allocated[t].len() {
                n = n + self.allocated[t][rid] as i64;
            }
            t = t + 1;
        }
        n
    }
}

/// A column whose entries are all zero sums to zero.
pub proof fn lemma_held_zero(a: &ResourceList, r: int, k: int)
    requires
        forall|t: int| #[trigger] a.alloc_at(t, r) == 0,
    ensures
        a.held_below(r, k) == 0,
    decreases k,
{
    if k > 0 {
        lemma_held_zero(a, r, k - 1);
    }
}

/// What one task holds of `r` is at most what all tasks hold of it.
pub proof fn lemma_held_one(a: &ResourceList, r: int, t: int)
    ensures
        a.alloc_at(t, r) <= a.held(r),
{
    lemma_held_below_one(a, r, if t < 0 { 0 } else { t }, a.allocated@.len() as int);
}

proof fn lemma_held_below_one(a: &ResourceList, r: int, t: int, k: int)
    requires
        0 <= t,
        k >= 0,
    ensures
        a.held_below(r, k) >= 0,
        t < k ==> a.alloc_at(t, r) <= a.held_below(r, k),
        t >= k && t >= a.allocated@.len() ==> a.alloc_at(t, r) == 0,
    decreases k,
{
    if k > 0 {
        lemma_held_below_one(a, r, t, k - 1);
    }
}


impl ResourceList {
    /// Whether every unit that task `t` waits for is free in `av`.
    pub open spec fn can_finish(&self, av: Seq<int>, t: int) -> bool {
        forall|k: int|
            0 <= k < row_len(self.need@, t) ==> #[trigger] entry(self.need@, t, k) <= seq_at(av, k)
    }

    /// `av` after task `t` has given back everything it holds.
    pub open spec fn give_back(&self, av: Seq<int>, t: int) -> Seq<int> {
        Seq::new(av.len(), |k: int| av[k] + self.alloc_at(t, k))
    }

    /// One pass over the tasks from `i` on: each unfinished task whose need
    /// can be met from `av` runs to its end and gives back what it holds.
    pub open spec fn scan(&self, av: Seq<int>, fin: Seq<bool>, i: int) -> (Seq<int>, Seq<bool>)
        decreases fin.len() - i,
    {
        if 0 <= i < fin.len() {
            if !fin[i] && self.can_finish(av, i) {
                self.scan(self.give_back(av, i), fin.update(i, true), i + 1)
            } else {
                self.scan(av, fin, i + 1)
            }
        } else {
            (av, fin)
        }
    }

    /// Whether repeated passes, starting from free units `av` and the
    /// finished tasks `fin`, come to a pass that finishes no task while some
    /// task is still unfinished: those tasks wait on one another for good.
    pub open spec fn stuck(&self, av: Seq<int>, fin: Seq<bool>) -> bool
        decreases unfinished(fin),
    {
        if unfinished(fin) == 0 {
            false
        } else {
            let next = self.scan(av, fin, 0);
            if unfinished(next.1) < unfinished(fin) {
                self.stuck(next.0, next.1)
            } else {
                true
            }
        }
    }

    /// Units of `k` held by the tasks below `j` that are finished in `fin`
    /// but not in `base`.
    pub open spec fn freed(&self, k: int, fin: Seq<bool>, base: Seq<bool>, j: int) -> int
        decreases j,
    {
        if j <= 0 {
            0
        } else {
            self.freed(k, fin, base, j - 1) + if fin[j - 1] && !base[j - 1] {
                self.alloc_at(j - 1, k)
            } else {
                0
            }
        }
    }

    /// `post` is `pre` after task `t` asked for `n` units of resource `r`.
    pub open spec fn requested(pre: &ResourceList, post: &ResourceList, t: int, r: int, n: int) -> bool {
        &&& post.grows_from(pre)
        &&& post.avail == pre.avail
        &&& post.allocated == pre.allocated
        &&& forall|u: int, q: int| #[trigger]
            post.need_at(u, q) == if u == t && q == r {
                n
            } else {
                pre.need_at(u, q)
            }
    }
}

/// Marking one more task finished lowers the unfinished count by one.
pub proof fn lemma_unfinished_update(fin: Seq<bool>, i: int)
    requires
        0 <= i < fin.len(),
        !fin[i],
    ensures
        unfinished(fin.update(i, true)) + 1 == unfinished(fin),
    decreases fin.len(),
{
    let g = fin.update(i, true);
    if i < fin.len() - 1 {
        lemma_unfinished_update(fin.drop_last(), i);
        assert(g.drop_last() =~= fin.drop_last().update(i, true));
    } else {
        assert(g.drop_last() =~= fin.drop_last());
    }
}

/// Tasks below `j` hold at most what tasks below `m` hold, for `j <= m`.
proof fn lemma_held_below_mono(a: &ResourceList, r: int, j: int, m: int)
    requires
        0 <= j <= m,
    ensures
        a.held_below(r, j) <= a.held_below(r, m),
    decreases m - j,
{
    if j < m {
        lemma_held_below_mono(a, r, j, m - 1);
        lemma_held_below_one(a, r, 0, m - 1);
    }
}

/// What the simulation has given back of `k` never exceeds what is held of it.
proof fn lemma_freed_bound(a: &ResourceList, k: int, fin: Seq<bool>, base: Seq<bool>, j: int)
    requires
        0 <= j <= fin.len(),
        j <= base.len(),
    ensures
        0 <= a.freed(k, fin, base, j) <= a.held(k),
{
    lemma_freed_below(a, k, fin, base, j);
    let m = if j < a.allocated@.len() {
        a.allocated@.len() as int
    } else {
        j
    };
    lemma_held_below_mono(a, k, j, m);
    lemma_held_tail(a, k, m);
}

proof fn lemma_freed_below(a: &ResourceList, k: int, fin: Seq<bool>, base: Seq<bool>, j: int)
    requires
        0 <= j <= fin.len(),
        j <= base.len(),
    ensures
        0 <= a.freed(k, fin, base, j) <= a.held_below(k, j),
    decreases j,
{
    if j > 0 {
        lemma_freed_below(a, k, fin, base, j - 1);
    }
}

/// Finishing task `i` in the simulation adds what it holds to what was freed.
proof fn lemma_freed_flip(a: &ResourceList, k: int, fin: Seq<bool>, base: Seq<bool>, i: int, j: int)
    requires
        0 <= i < fin.len(),
        fin.len() == base.len(),
        0 <= j <= fin.len(),
        !fin[i],
        !base[i],
    ensures
        a.freed(k, fin.update(i, true), base, j) == a.freed(k, fin, base, j) + if i < j {
            a.alloc_at(i, k)
        } else {
            0
        },
    decreases j,
{
    if j > 0 {
        lemma_freed_flip(a, k, fin, base, i, j - 1);
    }
}


/// Number of unfinished tasks in `fin`.
fn count_unfinished(fin: &Vec<bool>) -> (n: usize)
    ensures
        n == unfinished(fin@),
{
    let mut n: usize = 0;
    let mut i: usize = 0;
    while i < fin.len()
        invariant
            i <= fin@.len(),
            n <= i,
            n == unfinished(fin@.subrange(0, i as int)),
        decreases fin@.len() - i,
    {
        proof {
            assert(fin@.subrange(0, i + 1).drop_last() =~= fin@.subrange(0, i as int));
        }
        if !fin[i] {
            n = n + 1;
        }
        i = i + 1;
    }
    proof {
        assert(fin@.subrange(0, fin@.len() as int) =~= fin@);
    }
    n
}

impl ResourceList {
    /// Whether every unit that task `t` waits for is free in `av`.
    fn task_can_finish(&self, av: &Vec<i32>, t: usize) -> (r: bool)
        ensures
            r == self.can_finish(ints(av@), t as int),
    {
        if t >= self.need.len() {
            return true;
        }
        let row = &self.need[t];
        let mut k: usize = 0;
        while k < row.len()
            invariant
                t < self.need@.len(),
                *row == self.need@[t as int],
                k <= row@.len(),
                forall|j: int|
                    0 <= j < k ==> #[trigger] entry(self.need@, t as int, j) <= seq_at(ints(av@), j),
            decreases row@.len() - k,
        {
            let have: i32 = if k < av.len() {
                av[k]
            } else {
                0
            };
            if !(have >= 0 && row[k] <= have as usize) {
                assert(!(entry(self.need@, t as int, k as int) <= seq_at(ints(av@), k as int)));
                return false;
            }
            k = k + 1;
        }
        true
    }

    /// Adds to `av` everything that task `t` holds.
    fn give_back_into(&self, av: &mut Vec<i32>, t: usize)
        requires
            forall|k: int| 0 <= k < old(av)@.len() ==> 0 <= #[trigger] old(av)@[k],
            forall|k: int|
                0 <= k < old(av)@.len() ==> old(av)@[k] + #[trigger] self.alloc_at(t as int, k)
                    <= i32::MAX,
        ensures
            ints(final(av)@) == self.give_back(ints(old(av)@), t as int),
    {
        let ghost start: Seq<i32> = av@;
        let mut k: usize = 0;
        while k < av.len()
            invariant
                av@.len() == start.len(),
                k <= av@.len(),
                forall|j: int| 0 <= j < start.len() ==> 0 <= #[trigger] start[j],
                forall|j: int|
                    0 <= j < start.len() ==> start[j] + #[trigger] self.alloc_at(t as int, j)
                        <= i32::MAX,
                forall|j: int|
                    0 <= j < av@.len() ==> #[trigger] av@[j] == if j < k {
                        start[j] + self.alloc_at(t as int, j)
                    } else {
                        start[j] as int
                    },
            decreases av@.len() - k,
        {
            if t < self.allocated.len() && k < self.allocated[t].len() {
                let add: usize = self.allocated[t][k];
                assert(add == self.alloc_at(t as int, k as int));
                let v: i32 = av[k];
                assert(v == start[k as int]);
                av.set(k, v + add as i32);
            } else {
                assert(self.alloc_at(t as int, k as int) == 0);
            }
            k = k + 1;
        }
        assert(ints(av@) =~= self.give_back(ints(start), t as int));
    }
}


/// Nothing is freed while the simulation has finished no task of its own.
proof fn lemma_freed_none(a: &ResourceList, k: int, base: Seq<bool>, j: int)
    requires
        0 <= j <= base.len(),
    ensures
        a.freed(k, base, base, j) == 0,
    decreases j,
{
    if j > 0 {
        lemma_freed_none(a, k, base, j - 1);
    }
}

impl ResourceList {
    /// Records that task `tid` asks for `size` units of resource `rid`, then
    /// tells whether granting the request risks a deadlock.
    ///
    /// `task_set[t]` tells whether task `t` is finished. The request is safe
    /// when `size` units are free right now; otherwise it is a deadlock when
    /// the tasks, each run to its end as soon as its recorded need can be met
    /// and then giving back all it holds, get stuck with some task unfinished.
    pub fn is_dead(&mut self, tid: usize, rid: usize, size: usize, task_set: Vec<bool>) -> (dead: bool)
        requires
            old(self).wf(),
        ensures
            final(self).wf(),
            Self::requested(old(self), final(self), tid as int, rid as int, size as int),
            dead == (final(self).avail_at(rid as int) < size && final(self).stuck(
                final(self).avail_seq(),
                task_set@,
            )),
    {
        let ghost pre = *self;
        let ghost base = task_set@;
        grow_rows(&mut self.need, tid, rid);
        let ghost mid = *self;
        proof {
            assert(row_len(self.need@, tid as int) > rid);
        }
        self.need[tid].set(rid, size);
        let ghost post = *self;
        proof {
            assert forall|u: int, q: int| #[trigger]
                self.need_at(u, q) == if u == tid && q == rid {
                    size as int
                } else {
                    pre.need_at(u, q)
                } by {}
            assert forall|t: int| row_len(pre.need@, t) <= #[trigger] row_len(self.need@, t) by {
                assert(row_len(pre.need@, t) <= row_len(mid.need@, t));
            }
            assert forall|t: int| row_len(pre.allocated@, t) <= #[trigger] row_len(self.allocated@, t) by {}
            assert forall|r: int| 0 <= r < self.avail@.len() implies 0 <= #[trigger] self.avail_at(r)
                && self.avail_at(r) + self.held(r) <= i32::MAX by {
                lemma_held_total(&pre, self, r, 0, 0);
                assert(pre.avail_at(r) + pre.held(r) <= i32::MAX);
            }
            assert forall|t: int, r: int| !(0 <= r < self.avail@.len()) implies #[trigger] self.alloc_at(t, r)
                == 0 by {
                assert(pre.alloc_at(t, r) == 0);
            }
        }
        if self.is_enough(rid, size) {
            return false;
        }
        let mut fin = task_set;
        let mut av: Vec<i32> = Vec::new();
        let mut k: usize = 0;
        while k < self.avail.len()
            invariant
                *self == post,
                k <= post.avail@.len(),
                av@ == post.avail@.subrange(0, k as int),
            decreases post.avail@.len() - k,
        {
            av.push(self.avail[k]);
            k = k + 1;
        }
        proof {
            assert(av@ =~= post.avail@);
            assert(ints(av@) =~= post.avail_seq());
            assert forall|k: int| 0 <= k < av@.len() implies #[trigger] av@[k] == post.avail@[k]
                + post.freed(k, fin@, base, fin@.len() as int) by {
                lemma_freed_none(&post, k, base, base.len() as int);
            }
        }
        loop
            invariant
                *self == post,
                pre == *old(self),
                Self::requested(&pre, &post, tid as int, rid as int, size as int),
                base == task_set@,
                post.wf(),
                post.avail_at(rid as int) < size,
                fin@.len() == base.len(),
                av@.len() == post.avail@.len(),
                forall|t: int| 0 <= t < base.len() && base[t] ==> #[trigger] fin@[t],
                forall|k: int|
                    0 <= k < av@.len() ==> #[trigger] av@[k] == post.avail@[k] + post.freed(
                        k,
                        fin@,
                        base,
                        fin@.len() as int,
                    ),
                post.stuck(post.avail_seq(), base) == post.stuck(ints(av@), fin@),
            decreases unfinished(fin@),
        {
            if count_unfinished(&fin) == 0 {
                return false;
            }
            let ghost av0 = ints(av@);
            let ghost fin0 = fin@;
            let mut cnt: usize = 0;
            let mut i: usize = 0;
            while i < fin.len()
                invariant
                    *self == post,
                    post.wf(),
                    fin@.len() == base.len(),
                    av@.len() == post.avail@.len(),
                    i <= fin@.len(),
                    cnt <= i,
                    forall|t: int| 0 <= t < base.len() && base[t] ==> #[trigger] fin@[t],
                    forall|k: int|
                        0 <= k < av@.len() ==> #[trigger] av@[k] == post.avail@[k] + post.freed(
                            k,
                            fin@,
                            base,
                            fin@.len() as int,
                        ),
                    post.scan(av0, fin0, 0) == post.scan(ints(av@), fin@, i as int),
                    unfinished(fin@) + cnt == unfinished(fin0),
                decreases fin@.len() - i,
            {
                if !fin[i] && self.task_can_finish(&av, i) {
                    let ghost fin_before = fin@;
                    let ghost av_before = av@;
                    let ghost n = fin@.len() as int;
                    proof {
                        assert(!base[i as int]);
                        assert forall|k: int| 0 <= k < av@.len() implies 0 <= #[trigger] av@[k] by {
                            lemma_freed_bound(&post, k, fin@, base, n);
                            assert(0 <= post.avail_at(k));
                        }
                        assert forall|k: int| 0 <= k < av@.len() implies av@[k] + #[trigger] self.alloc_at(
                            i as int,
                            k,
                        ) <= i32::MAX by {
                            lemma_freed_flip(&post, k, fin@, base, i as int, n);
                            lemma_freed_bound(&post, k, fin@.update(i as int, true), base, n);
                            assert(post.avail_at(k) + post.held(k) <= i32::MAX);
                        }
                    }
                    self.give_back_into(&mut av, i);
                    fin.set(i, true);
                    proof {
                        assert(av@.len() == ints(av@).len());
                        lemma_unfinished_update(fin_before, i as int);
                        assert forall|k: int| 0 <= k < av@.len() implies #[trigger] av@[k] == post.avail@[k]
                            + post.freed(k, fin@, base, fin@.len() as int) by {
                            lemma_freed_flip(&post, k, fin_before, base, i as int, n);
                            assert(ints(av@)[k] == post.give_back(ints(av_before), i as int)[k]);
                            assert(av_before[k] == post.avail@[k] + post.freed(k, fin_before, base, n));
                        }
                        assert(fin@ == fin_before.update(i as int, true));
                    }
                    cnt = cnt + 1;
                }
                i = i + 1;
            }
            if cnt == 0 {
                return true;
            }
        }
    }
}

} // verus!
