//! Choosing the worker with the least load.
use crate::key_table::KeyTable;
use vstd::prelude::*;

verus! {

/// A worker that may be chosen.
///
/// A lower score is better. A worker without one is never better than another,
/// and none is better than it.
#[derive(Debug, Clone, Copy)]
pub struct WorkerLoad {
    pub healthy: bool,
    pub score: Option<u64>,
}

/// A score is better than another.
pub open spec fn better(a: Option<u64>, b: Option<u64>) -> bool {
    match (a, b) {
        (Some(x), Some(y)) => x < y,
        _ => false,
    }
}

/// The choice among workers: each healthy one in turn replaces the choice if it
/// is better.
pub open spec fn chosen(workers: Seq<WorkerLoad>) -> Option<int>
    decreases workers.len(),
{
    if workers.len() == 0 {
        None
    } else {
        let before = chosen(workers.drop_last());
        let last = workers.len() - 1;
        if !workers[last].healthy {
            before
        } else {
            match before {
                None => Some(last),
                Some(best) => if better(workers[last].score, workers[best].score) {
                    Some(last)
                } else {
                    Some(best)
                },
            }
        }
    }
}

/// A healthy worker is chosen where there is one.
pub proof fn law_choice_is_healthy(workers: Seq<WorkerLoad>)
    ensures
        match chosen(workers) {
            Some(i) => 0 <= i < workers.len() && workers[i].healthy,
            None => forall|i: int| 0 <= i < workers.len() ==> !(#[trigger] workers[i]).healthy,
        },
    decreases workers.len(),
{
    if workers.len() > 0 {
        let init = workers.drop_last();
        law_choice_is_healthy(init);
        if chosen(workers) is None {
            assert forall|i: int| 0 <= i < workers.len() implies !(#[trigger]
            workers[i]).healthy by {
                if i < init.len() {
                    assert(!init[i].healthy);
                }
            }
        }
    }
}

/// Where every worker has a score, the choice is the first of the healthy ones
/// with the least.
pub proof fn law_least_load_is_chosen(workers: Seq<WorkerLoad>)
    requires
        forall|i: int| 0 <= i < workers.len() ==> (#[trigger] workers[i]).score is Some,
    ensures
        chosen(workers) matches Some(best) ==> forall|i: int|
            0 <= i < workers.len() && (#[trigger] workers[i]).healthy ==> workers[best].score->0
                <= workers[i].score->0 && (i < best ==> workers[best].score->0
                < workers[i].score->0),
    decreases workers.len(),
{
    if workers.len() > 0 {
        let init = workers.drop_last();
        assert forall|i: int| 0 <= i < init.len() implies (#[trigger] init[i]).score is Some by {
            assert(init[i] == workers[i]);
        }
        law_least_load_is_chosen(init);
        law_choice_is_healthy(init);
        if let Some(best) = chosen(workers) {
            assert forall|i: int|
                0 <= i < workers.len() && (#[trigger] workers[i]).healthy implies workers[best].score->0
                <= workers[i].score->0 && (i < best ==> workers[best].score->0
                < workers[i].score->0) by {
                if i < init.len() {
                    assert(init[i] == workers[i]);
                }
            }
        }
    }
}

/// Choose a worker. See [`chosen`].
pub fn select_worker(workers: &[WorkerLoad]) -> (r: Option<usize>)
    ensures
        match r {
            Some(i) => chosen(workers@) == Some(i as int) && i < workers@.len(),
            None => chosen(workers@) is None,
        },
{
    let n = workers.len();
    let mut best: Option<usize> = None;
    for i in 0..n
        invariant
            n == workers@.len(),
            match best {
                Some(b) => chosen(workers@.take(i as int)) == Some(b as int) && b < i,
                None => chosen(workers@.take(i as int)) is None,
            },
    {
        proof {
            assert(workers@.take(i + 1).drop_last() =~= workers@.take(i as int));
        }
        if workers[i].healthy {
            match best {
                None => {
                    best = Some(i);
                },
                Some(b) => {
                    let lower = match (workers[i].score, workers[b].score) {
                        (Some(x), Some(y)) => x < y,
                        _ => false,
                    };
                    if lower {
                        best = Some(i);
                    }
                },
            }
        }
    }
    assert(workers@.take(n as int) =~= workers@);
    best
}

/// There is a choice to make: two workers are healthy.
pub open spec fn is_contested(workers: Seq<WorkerLoad>) -> bool {
    exists|i: int, j: int|
        0 <= i < j < workers.len() && (#[trigger] workers[i]).healthy && (
        #[trigger] workers[j]).healthy
}

/// Whether the worker that is chosen counts the request as processed. It does
/// where there was a choice. The only healthy worker does not.
pub fn counts_as_processed(workers: &[WorkerLoad]) -> (r: bool)
    ensures
        r == is_contested(workers@),
{
    let n = workers.len();
    let mut first: Option<usize> = None;
    for i in 0..n
        invariant
            n == workers@.len(),
            match first {
                Some(f) => f < i && workers@[f as int].healthy && forall|k: int|
                    0 <= k < i && (#[trigger] workers@[k]).healthy ==> k == f,
                None => forall|k: int| 0 <= k < i ==> !(#[trigger] workers@[k]).healthy,
            },
    {
        if workers[i].healthy {
            match first {
                Some(f) => {
                    assert(workers@[f as int].healthy && workers@[i as int].healthy);
                    return true;
                },
                None => {
                    first = Some(i);
                },
            }
        }
    }
    false
}

/// A request is counted only where a worker is chosen for it.
pub proof fn law_contested_choice_is_made(workers: Seq<WorkerLoad>)
    requires
        is_contested(workers),
    ensures
        chosen(workers) is Some,
{
    law_choice_is_healthy(workers);
}

/// A load that a worker reported.
pub struct LoadReport<V> {
    pub url: String,
    pub load: V,
}

/// The loads that are known after reports came. Of one worker the last report
/// counts, and workers that did not report keep theirs.
pub open spec fn loads_with<V>(loads: Map<Seq<char>, V>, reports: Seq<LoadReport<V>>) -> Map<
    Seq<char>,
    V,
>
    decreases reports.len(),
{
    if reports.len() == 0 {
        loads
    } else {
        loads_with(loads, reports.drop_last()).insert(reports.last().url@, reports.last().load)
    }
}

/// The last loads that workers reported.
#[verifier::reject_recursive_types(V)]
pub struct LoadCache<V> {
    loads: KeyTable<V>,
}

impl<V> View for LoadCache<V> {
    type V = Map<Seq<char>, V>;

    closed spec fn view(&self) -> Map<Seq<char>, V> {
        self.loads@
    }
}

impl<V> LoadCache<V> {
    /// The underlying table is sound.
    pub closed spec fn wf(&self) -> bool {
        self.loads.wf()
    }

    /// No load is known.
    pub fn new() -> (r: Self)
        ensures
            r.wf(),
            r@ == (Map::<Seq<char>, V>::empty()),
    {
        LoadCache { loads: KeyTable::new() }
    }

    /// Of how many workers a load is known.
    pub fn len(&self) -> (r: usize)
        requires
            self.wf(),
        ensures
            r == self@.dom().len(),
    {
        self.loads.len()
    }

    /// The load of a worker, where it is known.
    pub fn get(&self, url: &str) -> (r: Option<&V>)
        requires
            self.wf(),
        ensures
            match r {
                Some(load) => self@.contains_key(url@) && self@[url@] == *load,
                None => !self@.contains_key(url@),
            },
    {
        self.loads.get(url)
    }

    /// Take in reports. See [`loads_with`].
    pub fn update_loads(&mut self, reports: Vec<LoadReport<V>>)
        requires
            old(self).wf(),
        ensures
            final(self).wf(),
            final(self)@ == loads_with(old(self)@, reports@),
    {
        let ghost before = self@;
        assert(reports@.take(0) =~= Seq::<LoadReport<V>>::empty());
        for report in it: reports.into_iter()
            invariant
                it.seq() == reports@,
                self.wf(),
                self@ == loads_with(before, reports@.take(it.index() as int)),
        {
            proof {
                assert(reports@.take(it.index() + 1).drop_last() =~= reports@.take(
                    it.index() as int,
                ));
                assert(reports@.take(it.index() + 1).last() == report);
            }
            self.loads.insert(report.url, report.load);
        }
        assert(reports@.take(reports@.len() as int) =~= reports@);
    }

    /// Forget a worker.
    pub fn remove_worker(&mut self, url: &str)
        requires
            old(self).wf(),
        ensures
            final(self).wf(),
            final(self)@ == old(self)@.remove(url@),
    {
        let _ = self.loads.remove(url);
    }
}

} // verus!
