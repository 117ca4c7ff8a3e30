//! The coordinator side of one worker connection: the dispatch session state
//! machine that answers `Ready` with tasks pulled from the shared queue and
//! folds a `Done` report into the run's aggregate.

use vstd::prelude::*;

use crate::messages::{Action, ActionSet, Done, Message, MessageV, ResultMap, ResultTypeV, Task,
    TaskV};
use crate::queue::{Job, JobQueue};

verus! {

/// The coordinator's configuration: the corpus to stream and the actions
/// requested of every unit.
#[derive(Debug)]
pub struct ServerInfo {
    pub source: String,
    pub actions: Vec<Action>,
}

// ---------------------------------------------------------------------------
// The aggregate result map
// ---------------------------------------------------------------------------

/// The mapping denoted by a report's entries, the earliest entry for an id
/// winning — an id is recorded by whichever session delivers it first.
pub open spec fn results_map(s: Seq<(u32, Seq<(Action, ResultTypeV)>)>) -> Map<
    u32,
    Seq<(Action, ResultTypeV)>,
>
    decreases s.len(),
{
    if s.len() == 0 {
        Map::empty()
    } else {
        results_map(s.drop_first()).insert(s.first().0, s.first().1)
    }
}

/// An id is in the mapping exactly when some entry carries it.
proof fn lemma_results_map_contains(s: Seq<(u32, Seq<(Action, ResultTypeV)>)>, k: u32)
    ensures
        results_map(s).contains_key(k) <==> exists|i: int| 0 <= i < s.len() && (#[trigger] s[i]).0
            == k,
    decreases s.len(),
{
    if s.len() > 0 {
        lemma_results_map_contains(s.drop_first(), k);
        if s.first().0 == k {
            assert(s[0].0 == k);
        } else if exists|i: int| 0 <= i < s.drop_first().len() && (#[trigger] s.drop_first()[i]).0
            == k {
            let i = choose|i: int|
                0 <= i < s.drop_first().len() && (#[trigger] s.drop_first()[i]).0 == k;
            assert(s[i + 1].0 == k);
        } else if exists|i: int| 0 <= i < s.len() && (#[trigger] s[i]).0 == k {
            let i = choose|i: int| 0 <= i < s.len() && (#[trigger] s[i]).0 == k;
            if i > 0 {
                assert(s.drop_first()[i - 1].0 == k);
            }
        }
    }
}

/// Appending an entry changes the mapping only if its id is new: the first
/// delivery of an id wins.
proof fn lemma_results_map_push(
    s: Seq<(u32, Seq<(Action, ResultTypeV)>)>,
    e: (u32, Seq<(Action, ResultTypeV)>),
)
    ensures
        results_map(s.push(e)) == if exists|i: int| 0 <= i < s.len() && (#[trigger] s[i]).0 == e.0 {
            results_map(s)
        } else {
            results_map(s).insert(e.0, e.1)
        },
    decreases s.len(),
{
    if s.len() == 0 {
        assert(s.push(e).drop_first() =~= Seq::<(u32, Seq<(Action, ResultTypeV)>)>::empty());
        assert(results_map(Seq::<(u32, Seq<(Action, ResultTypeV)>)>::empty())
            == Map::<u32, Seq<(Action, ResultTypeV)>>::empty());
        assert(s.push(e).first() == e);
        assert(results_map(s.push(e)) =~= results_map(s).insert(e.0, e.1));
    } else {
        assert(s.push(e).drop_first() =~= s.drop_first().push(e));
        assert(s.push(e).first() == s.first());
        lemma_results_map_push(s.drop_first(), e);
        if exists|i: int| 0 <= i < s.drop_first().len() && (#[trigger] s.drop_first()[i]).0 == e.0 {
            let i = choose|i: int|
                0 <= i < s.drop_first().len() && (#[trigger] s.drop_first()[i]).0 == e.0;
            assert(s[i + 1].0 == e.0);
        } else {
            if s.first().0 == e.0 {
                assert(s[0].0 == e.0);
                assert(results_map(s.drop_first()).insert(e.0, e.1).insert(s.first().0, s.first().1)
                    =~= results_map(s.drop_first()).insert(s.first().0, s.first().1));
            } else {
                if exists|i: int| 0 <= i < s.len() && (#[trigger] s[i]).0 == e.0 {
                    let i = choose|i: int| 0 <= i < s.len() && (#[trigger] s[i]).0 == e.0;
                    assert(i > 0);
                    assert(s.drop_first()[i - 1].0 == e.0);
                    assert(false);
                }
                assert(results_map(s.drop_first()).insert(e.0, e.1).insert(
                    s.first().0,
                    s.first().1,
                ) =~= results_map(s.drop_first()).insert(s.first().0, s.first().1).insert(
                    e.0,
                    e.1,
                ));
            }
        }
    }
}

/// Some entry already carries this id.
pub open spec fn has_id(s: Seq<(u32, Seq<(Action, ResultTypeV)>)>, k: u32) -> bool {
    exists|i: int| 0 <= i < s.len() && (#[trigger] s[i]).0 == k
}

/// The entries of a report whose ids are new against what stands recorded:
/// what a merge appends, in delivery order, the first entry for an id
/// winning.
pub open spec fn fresh_entries(
    s: Seq<(u32, Seq<(Action, ResultTypeV)>)>,
    prior: Seq<(u32, Seq<(Action, ResultTypeV)>)>,
) -> Seq<(u32, Seq<(Action, ResultTypeV)>)>
    decreases s.len(),
{
    if s.len() == 0 {
        Seq::empty()
    } else if has_id(prior, s.first().0) {
        fresh_entries(s.drop_first(), prior)
    } else {
        seq![s.first()] + fresh_entries(s.drop_first(), prior.push(s.first()))
    }
}

/// Appending one entry to the report extends the fresh entries by that entry
/// exactly when its id is new against the prior and the fresh entries so far.
proof fn lemma_fresh_entries_push(
    s: Seq<(u32, Seq<(Action, ResultTypeV)>)>,
    e: (u32, Seq<(Action, ResultTypeV)>),
    prior: Seq<(u32, Seq<(Action, ResultTypeV)>)>,
)
    ensures
        fresh_entries(s.push(e), prior) == fresh_entries(s, prior) + (if has_id(
            prior + fresh_entries(s, prior),
            e.0,
        ) {
            Seq::<(u32, Seq<(Action, ResultTypeV)>)>::empty()
        } else {
            seq![e]
        }),
    decreases s.len(),
{
    if s.len() == 0 {
        assert(s.push(e).drop_first() =~= Seq::<(u32, Seq<(Action, ResultTypeV)>)>::empty());
        assert(s.push(e).first() == e);
        assert(fresh_entries(Seq::<(u32, Seq<(Action, ResultTypeV)>)>::empty(), prior)
            =~= Seq::<(u32, Seq<(Action, ResultTypeV)>)>::empty());
        assert(prior + fresh_entries(s, prior) =~= prior);
        assert(s =~= Seq::<(u32, Seq<(Action, ResultTypeV)>)>::empty());
        assert(fresh_entries(Seq::<(u32, Seq<(Action, ResultTypeV)>)>::empty(), prior.push(e))
            == Seq::<(u32, Seq<(Action, ResultTypeV)>)>::empty());
        if has_id(prior, e.0) {
            assert(fresh_entries(s.push(e), prior) =~= fresh_entries(s, prior) + Seq::<
                (u32, Seq<(Action, ResultTypeV)>),
            >::empty());
        } else {
            assert(fresh_entries(s.push(e), prior) == seq![e] + fresh_entries(
                s.push(e).drop_first(),
                prior.push(e),
            ));
            assert(fresh_entries(s.push(e), prior) =~= fresh_entries(s, prior) + seq![e]);
        }
    } else {
        assert(s.push(e).first() == s.first());
        assert(s.push(e).drop_first() =~= s.drop_first().push(e));
        if has_id(prior, s.first().0) {
            lemma_fresh_entries_push(s.drop_first(), e, prior);
        } else {
            lemma_fresh_entries_push(s.drop_first(), e, prior.push(s.first()));
            let tail = fresh_entries(s.drop_first(), prior.push(s.first()));
            assert(fresh_entries(s, prior) == seq![s.first()] + tail);
            assert(prior.push(s.first()) + tail =~= prior + fresh_entries(s, prior));
            if has_id(prior + fresh_entries(s, prior), e.0) {
                assert(fresh_entries(s.drop_first().push(e), prior.push(s.first())) == tail + Seq::<
                    (u32, Seq<(Action, ResultTypeV)>),
                >::empty());
                assert(tail + Seq::<(u32, Seq<(Action, ResultTypeV)>)>::empty() =~= tail);
                assert(fresh_entries(s.push(e), prior) == seq![s.first()] + tail);
                assert(fresh_entries(s, prior) + Seq::<
                    (u32, Seq<(Action, ResultTypeV)>),
                >::empty() =~= fresh_entries(s, prior));
            } else {
                assert(fresh_entries(s.drop_first().push(e), prior.push(s.first())) == tail
                    + seq![e]);
                assert(fresh_entries(s.push(e), prior) == seq![s.first()] + (tail + seq![e]));
                assert(seq![s.first()] + (tail + seq![e]) =~= (seq![s.first()] + tail) + seq![e]);
            }
        }
    }
}

/// The run's overall answer set, merged from every session's reports and
/// keyed by unit id.
#[derive(Debug)]
pub struct Aggregator {
    pub results: ResultMap,
}

impl Aggregator {
    pub fn new() -> (r: Aggregator)
        ensures
            r.results@ == Seq::<(u32, Seq<(Action, ResultTypeV)>)>::empty(),
            r.results.wf(),
    {
        Aggregator { results: ResultMap::new() }
    }

    /// Fold one session's report into the aggregate. An id already recorded
    /// keeps its first-delivered result; ids never collide under normal
    /// operation, since no unit is dispatched twice.
    pub fn merge(&mut self, done: Done)
        requires
            old(self).results.wf(),
        ensures
            final(self).results.wf(),
            final(self).results@ == old(self).results@ + fresh_entries(
                done.results@,
                old(self).results@,
            ),
            results_map(final(self).results@) == results_map(
                old(self).results@ + done.results@,
            ),
    {
        let ghost dv = done.results@;
        let ghost old0 = old(self).results@;
        let mut entries = done.results.entries;
        let mut i: usize = 0;
        proof {
            assert(old0 + dv.take(0) =~= old0);
        }
        let n = entries.len();
        while i < n
            invariant
                i <= n,
                n == dv.len(),
                entries@.len() == n - i,
                forall|j: int|
                    0 <= j < entries@.len() ==> ((#[trigger] entries@[j]).0, entries@[j].1@)
                        == dv[i + j],
                self.results.wf(),
                self.results@ == old0 + fresh_entries(dv.take(i as int), old0),
                results_map(self.results@) == results_map(old0 + dv.take(i as int)),
            decreases n - i,
        {
            let e = entries.remove(0);
            let id = e.0;
            proof {
                assert((e.0, e.1@) == dv[i as int]);
                assert(old0 + dv.take(i + 1) =~= (old0 + dv.take(i as int)).push(dv[i as int]));
                assert(dv.take(i + 1) =~= dv.take(i as int).push(dv[i as int]));
                lemma_results_map_push(old0 + dv.take(i as int), dv[i as int]);
                lemma_results_map_contains(self.results@, id);
                lemma_results_map_contains(old0 + dv.take(i as int), id);
                lemma_fresh_entries_push(dv.take(i as int), dv[i as int], old0);
            }
            let present = self.results.contains_id(id);
            proof {
                if present {
                    let j = choose|j: int|
                        0 <= j < self.results@.len() && self.results.ids()[j] == id;
                    assert(self.results@[j].0 == id);
                } else {
                    assert forall|j: int|
                        0 <= j < self.results@.len() implies (#[trigger] self.results@[j]).0
                        != id by {
                        assert(self.results.ids()[j] == self.results@[j].0);
                    }
                }
            }
            if !present {
                let ghost prev = self.results@;
                self.results.entries.push(e);
                proof {
                    assert(self.results@ =~= prev.push((id, dv[i as int].1)));
                    lemma_results_map_push(prev, (id, dv[i as int].1));
                    assert(!results_map(prev).contains_key(id));
                    assert(!(exists|j: int| 0 <= j < prev.len() && (#[trigger] prev[j]).0 == id));
                    assert(!has_id(prev, id));
                    assert(self.results@ =~= old0 + fresh_entries(dv.take(i + 1), old0));
                }
            } else {
                proof {
                    assert(has_id(self.results@, id));
                    assert(self.results@ + Seq::<(u32, Seq<(Action, ResultTypeV)>)>::empty()
                        =~= self.results@);
                    assert(self.results@ =~= old0 + fresh_entries(dv.take(i + 1), old0));
                }
            }
            i += 1;
        }
        proof {
            assert(dv.take(n as int) =~= dv);
        }
    }
}

// ---------------------------------------------------------------------------
// Dispatching tasks to one worker
// ---------------------------------------------------------------------------

/// How many tasks a `Ready{task_count}` earns from a queue of the given
/// length: all it asked for, or fewer if the queue runs out.
pub open spec fn dispatch_count(task_count: u8, queue_len: nat) -> nat {
    if task_count as nat <= queue_len {
        task_count as nat
    } else {
        queue_len
    }
}

/// The `Task` message carrying one unit and the run's requested actions.
pub open spec fn task_message_of(job: Job, actions: Seq<Action>) -> MessageV {
    MessageV::Task(TaskV { id: job.job_id, data: job.data@, actions })
}

/// Answer one `Ready`: pop up to `task_count` units from the shared queue and
/// wrap each as a `Task` carrying the run's requested actions. An empty queue
/// here stands for the source fully consumed with no units left: the dispatch
/// ends early and the worker gets fewer tasks than it asked for.
pub fn dispatch_tasks(queue: &mut JobQueue, task_count: u8, actions: &ActionSet) -> (msgs: Vec<
    Message,
>)
    requires
        old(queue).wf(),
        actions.wf(),
    ensures
        final(queue).wf(),
        final(queue).spec_capacity() == old(queue).spec_capacity(),
        msgs@.len() == dispatch_count(task_count, old(queue)@.len()),
        final(queue)@ == old(queue)@.skip(msgs@.len() as int),
        forall|i: int|
            0 <= i < msgs@.len() ==> (#[trigger] msgs@[i])@ == task_message_of(
                old(queue)@[i],
                actions@,
            ),
        forall|i: int| 0 <= i < msgs@.len() ==> (#[trigger] msgs@[i]).wf(),
{
    let mut msgs: Vec<Message> = Vec::new();
    let mut sent: usize = 0;
    let count = task_count as usize;
    while sent < count
        invariant
            sent <= count,
            count == task_count as usize,
            queue.wf(),
            queue.spec_capacity() == old(queue).spec_capacity(),
            actions.wf(),
            sent == msgs@.len(),
            sent <= old(queue)@.len(),
            queue@ == old(queue)@.skip(sent as int),
            sent < count ==> sent <= dispatch_count(task_count, old(queue)@.len()),
            forall|i: int|
                0 <= i < msgs@.len() ==> (#[trigger] msgs@[i])@ == task_message_of(
                    old(queue)@[i],
                    actions@,
                ),
            forall|i: int| 0 <= i < msgs@.len() ==> (#[trigger] msgs@[i]).wf(),
        decreases count - sent,
    {
        match queue.pop() {
            Some(job) => {
                proof {
                    assert(old(queue)@.skip(sent as int).first() == old(queue)@[sent as int]);
                    assert(old(queue)@.skip(sent as int).drop_first() =~= old(queue)@.skip(
                        sent + 1,
                    ));
                }
                let task = Task::new(job.job_id, job.data, actions.duplicate());
                msgs.push(Message::Task(task));
                sent += 1;
            },
            None => {
                proof {
                    assert(old(queue)@.len() == sent);
                    assert(dispatch_count(task_count, old(queue)@.len()) == sent);
                }
                return msgs;
            },
        }
    }
    proof {
        assert(dispatch_count(task_count, old(queue)@.len()) == sent);
    }
    msgs
}

// ---------------------------------------------------------------------------
// The per-connection state machine
// ---------------------------------------------------------------------------

/// A session awaits its worker's next report until a `Done` (or connection
/// loss, handled by the caller) closes it.
#[derive(Clone, Copy, PartialEq, Eq, Structural, Debug)]
pub enum SessionState {
    AwaitingReady,
    Closed,
}

/// Drive the session on one received message: a `Ready` earns that many
/// tasks from the shared queue and the session keeps awaiting; a `Done` is
/// merged into the aggregate and closes the session; a stray `Task` is
/// ignored; a closed session reacts to nothing.
pub fn session_handle_message(
    state: SessionState,
    msg: Message,
    queue: &mut JobQueue,
    agg: &mut Aggregator,
    actions: &ActionSet,
) -> (r: (SessionState, Vec<Message>))
    requires
        old(queue).wf(),
        old(agg).results.wf(),
        actions.wf(),
    ensures
        final(queue).wf(),
        final(queue).spec_capacity() == old(queue).spec_capacity(),
        final(agg).results.wf(),
        match (state, msg@) {
            (SessionState::AwaitingReady, MessageV::Ready(task_count)) => {
                &&& r.0 == SessionState::AwaitingReady
                &&& r.1@.len() == dispatch_count(task_count, old(queue)@.len())
                &&& final(queue)@ == old(queue)@.skip(r.1@.len() as int)
                &&& forall|i: int|
                    0 <= i < r.1@.len() ==> (#[trigger] r.1@[i])@ == task_message_of(
                        old(queue)@[i],
                        actions@,
                    )
                &&& forall|i: int| 0 <= i < r.1@.len() ==> (#[trigger] r.1@[i]).wf()
                &&& *final(agg) == *old(agg)
            },
            (SessionState::AwaitingReady, MessageV::Done(d)) => {
                &&& r.0 == SessionState::Closed
                &&& r.1@.len() == 0
                &&& results_map(final(agg).results@) == results_map(old(agg).results@ + d.results)
                &&& *final(queue) == *old(queue)
            },
            _ => {
                &&& r.0 == state
                &&& r.1@.len() == 0
                &&& *final(queue) == *old(queue)
                &&& *final(agg) == *old(agg)
            },
        },
{
    match state {
        SessionState::AwaitingReady => {
            match msg {
                Message::Ready(ready) => {
                    let msgs = dispatch_tasks(queue, ready.task_count, actions);
                    (SessionState::AwaitingReady, msgs)
                },
                Message::Done(done) => {
                    agg.merge(done);
                    (SessionState::Closed, Vec::new())
                },
                Message::Task(_) => (SessionState::AwaitingReady, Vec::new()),
            }
        },
        SessionState::Closed => (SessionState::Closed, Vec::new()),
    }
}

// ---------------------------------------------------------------------------
// Laws of dispatch
// ---------------------------------------------------------------------------

/// At-most-one delivery: when two dispatches draw from one shared queue in
/// turn — the queue's pop being mutually exclusive — and the queue's ids are
/// unique, the two outgoing task streams share no unit id.
pub proof fn lemma_at_most_one_delivery(jobs: Seq<Job>, n1: int, n2: int)
    requires
        forall|i: int, j: int|
            0 <= i < j < jobs.len() ==> (#[trigger] jobs[i]).job_id != (#[trigger] jobs[j]).job_id,
        0 <= n1,
        0 <= n2,
        n1 + n2 <= jobs.len(),
    ensures
        forall|i: int, j: int|
            0 <= i < n1 && 0 <= j < n2 ==> (#[trigger] jobs.take(n1)[i]).job_id != (
            #[trigger] jobs.skip(n1).take(n2)[j]).job_id,
{
    assert forall|i: int, j: int|
        0 <= i < n1 && 0 <= j < n2 implies (#[trigger] jobs.take(n1)[i]).job_id != (
    #[trigger] jobs.skip(n1).take(n2)[j]).job_id by {
        assert(jobs.take(n1)[i] == jobs[i]);
        assert(jobs.skip(n1).take(n2)[j] == jobs[n1 + j]);
    }
}

} // verus!
