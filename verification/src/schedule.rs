//! Fan-in of jobs that were done in any order: each result comes with the
//! place at which its job was handed in, and goes back to that place.

use crate::compress::CompressionJob;
use vstd::prelude::*;
use vstd::set_lib::*;

verus! {
/// The result of one job, with the place at which the job was handed in.
#[derive(Debug)]
pub struct IndexedJob {
    pub index: usize,
    pub job: CompressionJob,
}

/// The places of `done`, in the order in which the jobs were done.
pub open spec fn places(done: Seq<IndexedJob>) -> Seq<int> {
    Seq::new(done.len(), |k: int| done[k].index as int)
}

/// `places` numbers its jobs: each place lies below their number, and no
/// place occurs twice. So each place below their number occurs once.
pub open spec fn is_numbering(places: Seq<int>) -> bool {
    &&& forall|k: int| 0 <= k < places.len() ==> 0 <= #[trigger] places[k] < places.len()
    &&& forall|j: int, k: int|
        0 <= j < k < places.len() ==> #[trigger] places[j] != #[trigger] places[k]
}

/// A numbering reaches every place.
pub proof fn lemma_numbering_is_onto(places: Seq<int>, i: int)
    requires
        is_numbering(places),
        0 <= i < places.len(),
    ensures
        exists|k: int| 0 <= k < places.len() && #[trigger] places[k] == i,
{
    let n = places.len() as int;
    places.unique_seq_to_set();
    lemma_int_range(0, n);
    let reached = places.to_set();
    let all = set_int_range(0, n);
    lemma_subset_equality(reached, all);
    assert(reached.contains(i));
}

/// Puts the results of jobs back into the order in which the jobs were
/// handed in, whatever the order in which they were done. Gives nothing
/// where the places do not number the jobs.
pub fn collect_in_order(done: Vec<IndexedJob>) -> (r: Option<Vec<CompressionJob>>)
    ensures
        match r {
            Some(jobs) => is_numbering(places(done@)) && jobs@.len() == done@.len() && forall|
                k: int,
            |
                0 <= k < done@.len() ==> jobs@[(#[trigger] done@[k]).index as int] == done@[k].job,
            None => !is_numbering(places(done@)),
        },
{
    let n = done.len();
    let ghost all = done@;
    let ghost at = places(all);
    let mut slots: Vec<Option<CompressionJob>> = Vec::new();
    let mut i: usize = 0;
    while i < n
        invariant
            i <= n,
            slots@.len() == i,
            forall|j: int| 0 <= j < i ==> (#[trigger] slots@[j]) is None,
        decreases n - i,
    {
        slots.push(None);
        i += 1;
    }
    for item in it: done
        invariant
            it.seq() == all,
            n == all.len(),
            at == places(all),
            slots@.len() == n,
            forall|k: int|
                0 <= k < it.index() ==> 0 <= #[trigger] at[k] < n && slots@[at[k]] == Some(
                    all[k].job,
                ),
            forall|j: int, k: int| 0 <= j < k < it.index() ==> #[trigger] at[j] != #[trigger] at[k],
            forall|p: int|
                0 <= p < n && (#[trigger] slots@[p]) is Some ==> exists|k: int|
                    0 <= k < it.index() && #[trigger] at[k] == p,
    {
        let ghost done_so_far = it.index() as int;
        let IndexedJob { index, job } = item;
        assert(at[done_so_far] == index);
        if index >= n {
            return None;
        }
        if slots[index].is_some() {
            proof {
                let k = choose|k: int| 0 <= k < done_so_far && #[trigger] at[k] == index as int;
                assert(at[k] == at[done_so_far]);
            }
            return None;
        }
        slots.set(index, Some(job));
    }
    let ghost filled = slots@;
    let mut out: Vec<CompressionJob> = Vec::new();
    for slot in it: slots
        invariant
            it.seq() == filled,
            n == all.len(),
            at == places(all),
            filled.len() == n,
            is_numbering(at),
            forall|k: int| 0 <= k < n ==> 0 <= #[trigger] at[k] < n && filled[at[k]] == Some(all[k].job),
            out@.len() == it.index(),
            forall|p: int| 0 <= p < it.index() ==> filled[p] == Some(#[trigger] out@[p]),
    {
        let ghost p = it.index() as int;
        match slot {
            Some(job) => {
                out.push(job);
            },
            None => {
                proof {
                    lemma_numbering_is_onto(at, p);
                    let k = choose|k: int| 0 <= k < at.len() && #[trigger] at[k] == p;
                    assert(filled[at[k]] == Some(all[k].job));
                }
                return None;
            },
        }
    }
    proof {
        assert forall|k: int| 0 <= k < all.len() implies out@[(#[trigger] all[k]).index as int]
            == all[k].job by {
            assert(filled[at[k]] == Some(out@[at[k]]));
        }
    }
    Some(out)
}
} // verus!
