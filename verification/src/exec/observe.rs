use vstd::prelude::*;

use crate::graph::NodeId;

verus! {

/// One scheduler notification, as an observer sees it.
pub enum ObsEvent {
    /// The node became ready; `width` is the number of ready nodes right after.
    Ready { id: usize, width: usize },
    /// The node started, on `worker` when a worker runs it.
    Start { id: usize, worker: Option<usize> },
    /// The node finished.
    Finish { id: usize },
}

/// The nodes of `log` in the order of their first start.
pub open spec fn started_ids(log: Seq<ObsEvent>) -> Seq<usize>
    decreases log.len(),
{
    if log.len() == 0 {
        Seq::empty()
    } else {
        let prev = started_ids(log.drop_last());
        match log.last() {
            ObsEvent::Start { id, .. } => if prev.contains(id) {
                prev
            } else {
                prev.push(id)
            },
            _ => prev,
        }
    }
}

/// Node `x` finished before position `p` of `log`.
pub open spec fn finish_before(log: Seq<ObsEvent>, x: usize, p: int) -> bool {
    exists|q: int| 0 <= q < p && #[trigger] log[q] == ObsEvent::Finish { id: x }
}

/// Node `x` started before position `p` of `log`.
pub open spec fn start_before(log: Seq<ObsEvent>, x: usize, p: int) -> bool {
    exists|q: int| 0 <= q < p && (#[trigger] log[q] matches ObsEvent::Start { id, .. } && id == x)
}

/// Every start in `log` names no worker.
pub open spec fn starts_without_worker(log: Seq<ObsEvent>) -> bool {
    forall|p: int| 0 <= p < log.len() ==> !(#[trigger] log[p] matches ObsEvent::Start { worker: Some(_), .. })
}

/// Appending events that start nothing leaves the first starts as they were, and keeps
/// each earlier finish and start.
pub proof fn lemma_append_no_start(log: Seq<ObsEvent>, more: Seq<ObsEvent>)
    requires
        forall|k: int| 0 <= k < more.len() ==> #[trigger] more[k] !is Start,
    ensures
        started_ids(log + more) == started_ids(log),
        forall|x: usize, p: int| 0 <= p <= log.len() && #[trigger] finish_before(log, x, p) ==> finish_before(log + more, x, p),
        forall|x: usize, p: int| 0 <= p <= log.len() && #[trigger] start_before(log, x, p) ==> start_before(log + more, x, p),
    decreases more.len(),
{
    if more.len() > 0 {
        let m2 = more.drop_last();
        lemma_append_no_start(log, m2);
        assert((log + more).drop_last() =~= log + m2);
        assert(more.last() !is Start);
    }
    assert forall|x: usize, p: int| 0 <= p <= log.len() && #[trigger] finish_before(log, x, p) implies finish_before(log + more, x, p) by {
        let q = choose|q: int| 0 <= q < p && #[trigger] log[q] == ObsEvent::Finish { id: x };
        assert((log + more)[q] == log[q]);
    }
    assert forall|x: usize, p: int| 0 <= p <= log.len() && #[trigger] start_before(log, x, p) implies start_before(log + more, x, p) by {
        let q = choose|q: int| 0 <= q < p && (#[trigger] log[q] matches ObsEvent::Start { id, .. } && id == x);
        assert((log + more)[q] == log[q]);
    }
}

/// A finish before position `p` is still one in any extension of the log, at any later position.
pub proof fn lemma_finish_before_extend(log: Seq<ObsEvent>, more: Seq<ObsEvent>, x: usize, p: int, p2: int)
    requires
        finish_before(log, x, p),
        p <= log.len(),
        p <= p2,
    ensures
        finish_before(log + more, x, p2),
{
    let q = choose|q: int| 0 <= q < p && #[trigger] log[q] == ObsEvent::Finish { id: x };
    assert((log + more)[q] == log[q]);
}

/// Receives scheduling notifications, so that telemetry stays out of the scheduler.
///
/// An observer that `logs()` appends each notification to `log()`.
pub trait ExecObserver {
    spec fn logs(&self) -> bool;

    spec fn log(&self) -> Seq<ObsEvent>;

    /// The node ids this observer accepts are those below `bound()`.
    spec fn bound(&self) -> nat;

    fn mark_ready(&mut self, id: NodeId, frontier_width: usize)
        requires
            id.0 < old(self).bound(),
        ensures
            final(self).logs() == old(self).logs(),
            final(self).bound() == old(self).bound(),
            old(self).logs() ==> final(self).log() == old(self).log().push(
                ObsEvent::Ready { id: id.0, width: frontier_width },
            ),
    ;

    fn mark_start(&mut self, id: NodeId, worker_id: Option<usize>)
        requires
            id.0 < old(self).bound(),
        ensures
            final(self).logs() == old(self).logs(),
            final(self).bound() == old(self).bound(),
            old(self).logs() ==> final(self).log() == old(self).log().push(
                ObsEvent::Start { id: id.0, worker: worker_id },
            ),
    ;

    fn mark_finish(&mut self, id: NodeId)
        requires
            id.0 < old(self).bound(),
        ensures
            final(self).logs() == old(self).logs(),
            final(self).bound() == old(self).bound(),
            old(self).logs() ==> final(self).log() == old(self).log().push(
                ObsEvent::Finish { id: id.0 },
            ),
    ;
}

/// An observer that keeps nothing, for runs without telemetry.
pub struct NoopObserver;

impl NoopObserver {
    pub fn new() -> (o: Self)
        ensures
            !o.logs(),
            o.bound() > usize::MAX,
    {
        NoopObserver
    }
}

impl ExecObserver for NoopObserver {
    open spec fn logs(&self) -> bool {
        false
    }

    open spec fn log(&self) -> Seq<ObsEvent> {
        Seq::empty()
    }

    open spec fn bound(&self) -> nat {
        usize::MAX as nat + 1
    }

    fn mark_ready(&mut self, id: NodeId, frontier_width: usize) {
    }

    fn mark_start(&mut self, id: NodeId, worker_id: Option<usize>) {
    }

    fn mark_finish(&mut self, id: NodeId) {
    }
}

} // verus!
