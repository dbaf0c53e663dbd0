//! Sorting a stream of tuples that is too large for memory: sorted
//! runs, then a k-way merge.
//!
//! The in-memory pipeline (`external_sort_vec`) carries the whole
//! contract: its output is a sorted permutation of its input, for any
//! buffer size of at least one.  `MergeState` is the same merge as a
//! step machine, for a caller that streams runs from disk: it hands
//! out the minimum of the run fronts and never goes backwards.

use crate::ptuple::{ptuple_le, ptuple_le_exec, sorted_tuples, PTuple};
use vstd::prelude::*;

verus! {

broadcast use vstd::seq_lib::group_to_multiset_ensures;

/// Order tuples by (tok, docid, count) with insertion sort.
pub fn sort_tuples(v: &mut Vec<PTuple>)
    ensures
        final(v)@.len() == old(v)@.len(),
        final(v)@.to_multiset() == old(v)@.to_multiset(),
        sorted_tuples(final(v)@),
{
    broadcast use vstd::seq_lib::to_multiset_update;

    let n = v.len();
    if n < 2 {
        return ;
    }
    let mut i: usize = 1;
    while i < n
        invariant
            n == v@.len(),
            n == old(v)@.len(),
            1 <= i <= n,
            v@.to_multiset() == old(v)@.to_multiset(),
            forall|p: int, q: int| 0 <= p < q < i ==> ptuple_le(v@[p], v@[q]),
        decreases n - i,
    {
        let mut j: usize = i;
        while j > 0 && tuple_out_of_order_at(v, j)
            invariant
                n == v@.len(),
                n == old(v)@.len(),
                0 <= j <= i < n,
                v@.to_multiset() == old(v)@.to_multiset(),
                forall|p: int, q: int| 0 <= p < q <= i && q != j ==> ptuple_le(v@[p], v@[q]),
                forall|p: int| j < p <= i ==> ptuple_le(v@[j as int], v@[p]),
            decreases j,
        {
            let a = v[j - 1];
            let b = v[j];
            let ghost pre = v@;
            v[j - 1] = b;
            v[j] = a;
            proof {
                assert(v@.to_multiset() =~= pre.to_multiset());
            }
            j -= 1;
        }
        proof {
            assert forall|p: int, q: int| 0 <= p < q <= i implies ptuple_le(v@[p], v@[q]) by {
                if q == j && j > 0 {
                    assert(ptuple_le(v@[j - 1], v@[j as int]));
                    if p < j - 1 {
                        assert(ptuple_le(v@[p], v@[j - 1]));
                    }
                }
            }
        }
        i += 1;
    }
}

/// True when the tuple at `j` sorts before its left neighbour.
fn tuple_out_of_order_at(v: &Vec<PTuple>, j: usize) -> (r: bool)
    requires
        1 <= j < v@.len(),
    ensures
        r == !ptuple_le(v@[j - 1], v@[j as int]),
{
    let a = v[j - 1];
    let b = v[j];
    !ptuple_le_exec(a, b)
}

/// Merge two sorted runs into one.
pub fn merge_sorted(a: Vec<PTuple>, b: Vec<PTuple>) -> (r: Vec<PTuple>)
    requires
        sorted_tuples(a@),
        sorted_tuples(b@),
    ensures
        sorted_tuples(r@),
        r@.to_multiset() == a@.to_multiset().add(b@.to_multiset()),
        r@.len() == a@.len() + b@.len(),
{
    broadcast use vstd::seq_lib::lemma_multiset_commutative;

    let mut r: Vec<PTuple> = Vec::new();
    let mut i: usize = 0;
    let mut j: usize = 0;
    let na = a.len();
    let nb = b.len();
    while i < na || j < nb
        invariant
            na == a@.len(),
            nb == b@.len(),
            sorted_tuples(a@),
            sorted_tuples(b@),
            0 <= i <= na,
            0 <= j <= nb,
            r@.len() == i + j,
            sorted_tuples(r@),
            r@.to_multiset() == a@.take(i as int).to_multiset().add(
                b@.take(j as int).to_multiset(),
            ),
            forall|p: int, q: int|
                0 <= p < r@.len() && i <= q < na ==> ptuple_le(r@[p], a@[q]),
            forall|p: int, q: int|
                0 <= p < r@.len() && j <= q < nb ==> ptuple_le(r@[p], b@[q]),
        decreases na - i + nb - j,
    {
        let take_a = if i < na && j < nb {
            ptuple_le_exec(a[i], b[j])
        } else {
            i < na
        };
        let ghost pre = r@;
        if take_a {
            r.push(a[i]);
            proof {
                assert(a@.take(i + 1) =~= a@.take(i as int).push(a@[i as int]));
                assert forall|q: int| i + 1 <= q < na implies ptuple_le(
                    a@[i as int],
                    a@[q],
                ) by {}
                if j < nb {
                    assert(ptuple_le(a@[i as int], b@[j as int]));
                    assert forall|q: int| j <= q < nb implies ptuple_le(
                        a@[i as int],
                        b@[q],
                    ) by {
                        if q > j {
                            assert(ptuple_le(b@[j as int], b@[q]));
                        }
                    }
                }
            }
            i += 1;
        } else {
            proof {
                if i < na {
                    assert(ptuple_le(b@[j as int], a@[i as int]));
                    assert forall|q: int| i <= q < na implies ptuple_le(
                        b@[j as int],
                        a@[q],
                    ) by {
                        if q > i {
                            assert(ptuple_le(a@[i as int], a@[q]));
                        }
                    }
                }
                assert forall|q: int| j + 1 <= q < nb implies ptuple_le(
                    b@[j as int],
                    b@[q],
                ) by {}
                assert(b@.take(j + 1) =~= b@.take(j as int).push(b@[j as int]));
            }
            r.push(b[j]);
            j += 1;
        }
        proof {
            assert forall|p: int, q: int| 0 <= p < q < r@.len() implies ptuple_le(
                r@[p],
                r@[q],
            ) by {
                if q == r@.len() - 1 {
                    assert(r@[p] == pre[p]);
                }
            }
        }
    }
    proof {
        assert(a@.take(na as int) =~= a@);
        assert(b@.take(nb as int) =~= b@);
    }
    r
}

/// Sort a record stream that may exceed memory: cut it into runs of
/// `buffer_size`, sort each, and merge the sorted runs.  The output is
/// a permutation of the input, in (tok, docid, count) order, for any
/// input size and any buffer size of at least one.
pub fn external_sort_vec(records: Vec<PTuple>, buffer_size: usize) -> (r: Vec<PTuple>)
    requires
        buffer_size >= 1,
    ensures
        sorted_tuples(r@),
        r@.to_multiset() == records@.to_multiset(),
        r@.len() == records@.len(),
{
    broadcast use vstd::seq_lib::lemma_multiset_commutative;

    let n = records.len();
    let mut merged: Vec<PTuple> = Vec::new();
    let mut start: usize = 0;
    while start < n
        invariant
            n == records@.len(),
            0 <= start <= n,
            buffer_size >= 1,
            sorted_tuples(merged@),
            merged@.to_multiset() == records@.take(start as int).to_multiset(),
            merged@.len() == start,
        decreases n - start,
    {
        let end = if n - start < buffer_size {
            n
        } else {
            start + buffer_size
        };
        let mut run: Vec<PTuple> = Vec::new();
        let mut k: usize = start;
        while k < end
            invariant
                n == records@.len(),
                start <= k <= end <= n,
                run@ =~= records@.subrange(start as int, k as int),
            decreases end - k,
        {
            run.push(records[k]);
            proof {
                assert(run@ =~= records@.subrange(start as int, k + 1));
            }
            k += 1;
        }
        sort_tuples(&mut run);
        let ghost pre = merged@;
        merged = merge_sorted(merged, run);
        proof {
            assert(records@.take(end as int) =~= records@.take(start as int) + records@.subrange(
                start as int,
                end as int,
            ));
            vstd::seq_lib::lemma_multiset_commutative(
                records@.take(start as int),
                records@.subrange(start as int, end as int),
            );
        }
        start = end;
    }
    proof {
        assert(records@.take(n as int) =~= records@);
    }
    merged
}


/// The k-way merge as a step machine.  The caller owns the run files:
/// it refills a run's front after each pop.  Whatever the caller does,
/// the stream handed out (`outs`) stays sorted.
pub struct MergeState {
    /// The current front record of each run, if one is loaded.
    pub fronts: Vec<Option<PTuple>>,
    /// The last record handed out.
    pub last: Option<PTuple>,
    /// The run owed a refill (or an end-of-run notice) after a pop.
    pub awaiting: Option<usize>,
    /// Every record handed out so far, in order.
    pub outs: Ghost<Seq<PTuple>>,
}

impl MergeState {
    pub open spec fn wf(&self) -> bool {
        &&& (self.awaiting matches Some(i) ==> i < self.fronts@.len() && self.fronts@[i as int]
            is None)
        &&& forall|i: int|
            0 <= i < self.fronts@.len() ==> ((#[trigger] self.fronts@[i]) matches Some(t)
                ==> (self.last matches Some(l) ==> ptuple_le(l, t)))
        &&& sorted_tuples(self.outs@)
        &&& (self.last matches Some(l) ==> self.outs@.len() > 0 && self.outs@.last() == l)
        &&& (self.last is None ==> self.outs@.len() == 0)
    }

    pub fn new(num_runs: usize) -> (r: MergeState)
        ensures
            r.wf(),
            r.fronts@.len() == num_runs,
            forall|i: int| 0 <= i < num_runs ==> (#[trigger] r.fronts@[i]) is None,
            r.last is None,
            r.awaiting is None,
            r.outs@ == Seq::<PTuple>::empty(),
    {
        let mut fronts: Vec<Option<PTuple>> = Vec::new();
        let mut k: usize = 0;
        while k < num_runs
            invariant
                0 <= k <= num_runs,
                fronts@.len() == k,
                forall|i: int| 0 <= i < k ==> (#[trigger] fronts@[i]) is None,
            decreases num_runs - k,
        {
            fronts.push(None);
            k += 1;
        }
        MergeState { fronts, last: None, awaiting: None, outs: Ghost(Seq::empty()) }
    }

    /// Load the next record of run `i`.  A record that would step the
    /// stream backwards means the run file was not sorted: it is
    /// refused and nothing changes.
    pub fn refill(&mut self, i: usize, t: PTuple) -> (r: Result<(), ()>)
        requires
            old(self).wf(),
            i < old(self).fronts@.len(),
            old(self).fronts@[i as int] is None,
            old(self).awaiting is None || old(self).awaiting == Some(i),
        ensures
            final(self).wf(),
            r is Ok <==> (old(self).last matches Some(l) ==> ptuple_le(l, t)),
            r is Ok ==> {
                &&& final(self).fronts@ == old(self).fronts@.update(i as int, Some(t))
                &&& final(self).awaiting is None
                &&& final(self).last == old(self).last
                &&& final(self).outs@ == old(self).outs@
            },
            r is Err ==> *final(self) == *old(self),
    {
        match &self.last {
            Some(l) => {
                let l = *l;
                if !ptuple_le_exec(l, t) {
                    return Result::Err(());
                }
            },
            None => {},
        }
        self.fronts[i] = Some(t);
        self.awaiting = None;
        Result::Ok(())
    }

    /// Run `i` has no more records.
    pub fn exhaust(&mut self, i: usize)
        requires
            old(self).wf(),
            old(self).awaiting == Some(i),
        ensures
            final(self).wf(),
            final(self).fronts == old(self).fronts,
            final(self).awaiting is None,
            final(self).last == old(self).last,
            final(self).outs@ == old(self).outs@,
    {
        self.awaiting = None;
    }

    /// Hand out the least loaded front, or nothing when every run is
    /// done.  The popped run owes a refill or an end-of-run notice.
    pub fn pop(&mut self) -> (r: Option<(PTuple, usize)>)
        requires
            old(self).wf(),
            old(self).awaiting is None,
        ensures
            final(self).wf(),
            r is None ==> *final(self) == *old(self) && forall|i: int|
                0 <= i < old(self).fronts@.len() ==> (#[trigger] old(self).fronts@[i]) is None,
            r matches Some((t, i)) ==> {
                &&& i < old(self).fronts@.len()
                &&& old(self).fronts@[i as int] == Some(t)
                &&& forall|j: int|
                    0 <= j < old(self).fronts@.len() ==> ((#[trigger] old(self).fronts@[j])
                        matches Some(u) ==> ptuple_le(t, u))
                &&& final(self).fronts@ == old(self).fronts@.update(i as int, None)
                &&& final(self).last == Some(t)
                &&& final(self).awaiting == Some(i)
                &&& final(self).outs@ == old(self).outs@.push(t)
                &&& sorted_tuples(final(self).outs@)
            },
    {
        let n = self.fronts.len();
        let mut best: Option<(PTuple, usize)> = None;
        let mut k: usize = 0;
        while k < n
            invariant
                n == self.fronts@.len(),
                0 <= k <= n,
                best is None ==> forall|i: int|
                    0 <= i < k ==> (#[trigger] self.fronts@[i]) is None,
                best matches Some((t, i)) ==> i < k && self.fronts@[i as int] == Some(t)
                    && forall|j: int|
                    0 <= j < k ==> ((#[trigger] self.fronts@[j]) matches Some(u) ==> ptuple_le(
                        t,
                        u,
                    )),
            decreases n - k,
        {
            match &self.fronts[k] {
                Some(u) => {
                    let u = *u;
                    match &best {
                        Some(pair) => {
                            let (t, _i) = *pair;
                            if ptuple_le_exec(u, t) && !ptuple_le_exec(t, u) {
                                best = Some((u, k));
                            }
                        },
                        None => {
                            best = Some((u, k));
                        },
                    }
                },
                None => {},
            }
            k += 1;
        }
        match &best {
            Some(pair) => {
                let (t, i) = *pair;
                self.fronts[i] = None;
                self.last = Some(t);
                self.awaiting = Some(i);
                proof {
                    let pre = self.outs@;
                    self.outs = Ghost(pre.push(t));
                    assert forall|p: int, q: int|
                        0 <= p < q < self.outs@.len() implies ptuple_le(
                        self.outs@[p],
                        self.outs@[q],
                    ) by {
                        if q == self.outs@.len() - 1 {
                            if p < pre.len() - 1 {
                                assert(ptuple_le(pre[p], pre[pre.len() - 1]));
                            }
                        }
                    }
                }
                Some((t, i))
            },
            None => None,
        }
    }
}

} // verus!

