//! The worker runtime's computational core: sizing the `Ready` declaration,
//! collecting the received batch, partitioning it into near-equal chunks, and
//! merging the chunks' outputs into one `Done` report.

use vstd::prelude::*;

use crate::analysis::{action_result_matches, process_actions};
use crate::messages::{ActionResult, Message, ResultMap, ResultTypeV, Task, TaskV, Action};

verus! {

/// The worker's configuration: where the coordinator listens.
#[derive(Debug)]
pub struct ClientInfo {
    pub server_name: String,
}

/// Relies on num_cpus::get: the number of logical CPUs available to this
/// process, at least 1.
#[verifier::external_body]
pub fn available_parallelism() -> (r: usize)
    ensures
        r >= 1,
{
    num_cpus::get()
}

/// Clamp the worker's available parallelism into the `u8` carried by `Ready`.
pub fn ready_task_count(cpus: usize) -> (r: u8)
    ensures
        r == if cpus > 255 { 255u8 } else { cpus as u8 },
        cpus >= 1 ==> r >= 1,
{
    if cpus > 255 {
        255
    } else {
        cpus as u8
    }
}

// ---------------------------------------------------------------------------
// Collecting the batch
// ---------------------------------------------------------------------------

/// The task payloads among a run of received messages, in arrival order.
pub open spec fn task_views(ms: Seq<Message>) -> Seq<TaskV>
    decreases ms.len(),
{
    if ms.len() == 0 {
        Seq::empty()
    } else {
        task_views(ms.drop_last()) + (match ms.last() {
            Message::Task(t) => seq![t@],
            _ => Seq::<TaskV>::empty(),
        })
    }
}

/// Keep the `Task` messages of a batch, dropping anything else the stream
/// carried, as the worker does while filling its batch.
pub fn collect_tasks(msgs: Vec<Message>) -> (r: Vec<Task>)
    ensures
        r@.map_values(|t: Task| t@) == task_views(msgs@),
{
    let mut msgs = msgs;
    let ghost all = msgs@;
    let mut r: Vec<Task> = Vec::new();
    let n = msgs.len();
    let mut i: usize = 0;
    while i < n
        invariant
            i <= n,
            n == all.len(),
            msgs@ == all.skip(i as int),
            r@.map_values(|t: Task| t@) == task_views(all.take(i as int)),
        decreases n - i,
    {
        proof {
            assert(all.take(i + 1).drop_last() == all.take(i as int));
            assert(all.take(i + 1).last() == all[i as int]);
            assert(all.skip(i as int).first() == all[i as int]);
            assert(all.skip(i as int).drop_first() =~= all.skip(i + 1));
        }
        let m = msgs.remove(0);
        match m {
            Message::Task(t) => {
                let ghost prev = r@;
                let ghost tv = t@;
                r.push(t);
                proof {
                    assert(all[i as int] == Message::Task(t));
                    assert(r@.map_values(|t: Task| t@) =~= prev.map_values(|t: Task| t@).push(tv));
                    assert(r@.map_values(|t: Task| t@) =~= task_views(all.take(i + 1)));
                }
            },
            _ => {
                proof {
                    assert(r@.map_values(|t: Task| t@) =~= task_views(all.take(i + 1)));
                }
            },
        }
        i += 1;
    }
    proof {
        assert(all.take(n as int) == all);
    }
    r
}

/// Whether every task of the batch is well-formed: no action requested twice.
pub fn tasks_wf(tasks: &Vec<Task>) -> (r: bool)
    ensures
        r == forall|i: int| 0 <= i < tasks@.len() ==> (#[trigger] tasks@[i]).wf(),
{
    let n = tasks.len();
    let mut i: usize = 0;
    while i < n
        invariant
            i <= n,
            n == tasks@.len(),
            forall|j: int| 0 <= j < i ==> (#[trigger] tasks@[j]).wf(),
        decreases n - i,
    {
        if !tasks[i].actions.is_wf() {
            return false;
        }
        i += 1;
    }
    true
}

/// Whether the batch's unit ids are pairwise distinct, as they are whenever
/// the coordinator dispatched each unit once.
pub fn ids_distinct(tasks: &Vec<Task>) -> (r: bool)
    ensures
        r == distinct_ids(tasks@.map_values(|t: Task| t@)),
{
    let n = tasks.len();
    let mut i: usize = 0;
    while i < n
        invariant
            i <= n,
            n == tasks@.len(),
            forall|a: int, b: int|
                0 <= a < b < tasks@.len() && a < i ==> (#[trigger] tasks@[a]).id != (
                #[trigger] tasks@[b]).id,
        decreases n - i,
    {
        let mut j: usize = i + 1;
        while j < n
            invariant
                i < j <= n,
                i < n,
                n == tasks@.len(),
                forall|b: int| i < b < j ==> (#[trigger] tasks@[b]).id != tasks@[i as int].id,
            decreases n - j,
        {
            if tasks[j].id == tasks[i].id {
                proof {
                    let tv = tasks@.map_values(|t: Task| t@);
                    assert(tv[i as int].id == tv[j as int].id);
                }
                return false;
            }
            j += 1;
        }
        i += 1;
    }
    proof {
        let tv = tasks@.map_values(|t: Task| t@);
        assert forall|a: int, b: int| 0 <= a < b < tv.len() implies (#[trigger] tv[a]).id != (
        #[trigger] tv[b]).id by {
            assert(tasks@[a].id != tasks@[b].id);
        }
    }
    true
}

/// No unit id occurs twice.
pub open spec fn distinct_ids(ts: Seq<TaskV>) -> bool {
    forall|a: int, b: int| 0 <= a < b < ts.len() ==> (#[trigger] ts[a]).id != (#[trigger] ts[b]).id
}

// ---------------------------------------------------------------------------
// Partitioning the batch
// ---------------------------------------------------------------------------

/// The per-chunk size that spreads `task_count` tasks over `cpu_count`
/// execution units: the ceiling of their quotient.
pub fn chunk_size(task_count: usize, cpu_count: usize) -> (r: usize)
    requires
        cpu_count >= 1,
        task_count + cpu_count <= usize::MAX,
    ensures
        r == (task_count + cpu_count - 1) / cpu_count as int,
        task_count >= 1 ==> r >= 1,
        r * cpu_count >= task_count,
{
    let r = (task_count + cpu_count - 1) / cpu_count;
    proof {
        let t = task_count as int;
        let c = cpu_count as int;
        assert(((t + c - 1) / c) * c >= t) by (nonlinear_arith)
            requires
                c >= 1,
                t >= 0,
        ;
        if task_count >= 1 {
            assert((t + c - 1) / c >= 1) by (nonlinear_arith)
                requires
                    c >= 1,
                    t >= 1,
            ;
        }
    }
    r
}

/// Split a batch into contiguous chunks of `size` tasks, the last possibly
/// shorter; concatenated back together, the chunks are the batch.
pub fn split_chunks(tasks: Vec<Task>, size: usize) -> (r: Vec<Vec<Task>>)
    requires
        size >= 1,
    ensures
        r@.map_values(|c: Vec<Task>| c@).flatten() == tasks@,
        forall|i: int| 0 <= i < r@.len() ==> (#[trigger] r@[i])@.len() <= size,
        forall|i: int| 0 <= i < r@.len() ==> (#[trigger] r@[i])@.len() >= 1,
{
    let ghost all = tasks@;
    let mut rest = tasks;
    let mut r: Vec<Vec<Task>> = Vec::new();
    while rest.len() > 0
        invariant
            r@.map_values(|c: Vec<Task>| c@).flatten() + rest@ == all,
            forall|i: int| 0 <= i < r@.len() ==> (#[trigger] r@[i])@.len() <= size,
            forall|i: int| 0 <= i < r@.len() ==> (#[trigger] r@[i])@.len() >= 1,
            size >= 1,
        decreases rest@.len(),
    {
        let ghost prev = r@;
        let chunk;
        if rest.len() > size {
            let tail = rest.split_off(size);
            chunk = rest;
            rest = tail;
        } else {
            chunk = rest;
            rest = Vec::new();
        }
        r.push(chunk);
        proof {
            let f = |c: Vec<Task>| c@;
            assert(r@.map_values(f).drop_last() =~= prev.map_values(f));
            assert(r@.map_values(f) =~= prev.map_values(f).push(chunk@));
            prev.map_values(f).lemma_flatten_push(chunk@);
            assert(r@.map_values(f).flatten() + rest@ =~= all);
        }
    }
    proof {
        assert(r@.map_values(|c: Vec<Task>| c@).flatten() + rest@ =~= r@.map_values(
            |c: Vec<Task>| c@,
        ).flatten());
    }
    r
}

// ---------------------------------------------------------------------------
// Processing and merging
// ---------------------------------------------------------------------------

/// One output pair answers one task.
pub open spec fn output_matches(p: (u32, Seq<(Action, ResultTypeV)>), t: TaskV) -> bool {
    p.0 == t.id && action_result_matches(p.1, t)
}

/// A run of output pairs answers a run of tasks, one to one and in order.
pub open spec fn outputs_match(ps: Seq<(u32, Seq<(Action, ResultTypeV)>)>, ts: Seq<TaskV>) -> bool {
    ps.len() == ts.len() && forall|i: int|
        0 <= i < ps.len() ==> output_matches(#[trigger] ps[i], ts[i])
}

/// The view of a chunk's output pairs.
pub open spec fn pairs_view(ps: Seq<(u32, ActionResult)>) -> Seq<(u32, Seq<(Action, ResultTypeV)>)> {
    ps.map_values(|p: (u32, ActionResult)| (p.0, p.1@))
}

/// Run the analysis engine over one chunk, in order, collecting each unit's
/// id with its per-action results. This is the work one execution unit does.
pub fn process_chunk(chunk: &Vec<Task>) -> (r: Vec<(u32, ActionResult)>)
    requires
        forall|i: int| 0 <= i < chunk@.len() ==> (#[trigger] chunk@[i]).wf(),
    ensures
        outputs_match(pairs_view(r@), chunk@.map_values(|t: Task| t@)),
        forall|i: int| 0 <= i < r@.len() ==> (#[trigger] r@[i]).1.wf(),
{
    let mut r: Vec<(u32, ActionResult)> = Vec::new();
    let n = chunk.len();
    let mut i: usize = 0;
    while i < n
        invariant
            i <= n,
            n == chunk@.len(),
            r@.len() == i,
            forall|j: int| 0 <= j < chunk@.len() ==> (#[trigger] chunk@[j]).wf(),
            forall|j: int|
                0 <= j < i ==> output_matches(#[trigger] pairs_view(r@)[j], chunk@[j]@),
            forall|j: int| 0 <= j < r@.len() ==> (#[trigger] r@[j]).1.wf(),
        decreases n - i,
    {
        let out = process_actions(&chunk[i]);
        let ghost prev = pairs_view(r@);
        let ghost ov = (out.0, out.1@);
        r.push(out);
        proof {
            assert(pairs_view(r@) =~= prev.push(ov));
        }
        i += 1;
    }
    proof {
        assert(pairs_view(r@).len() == chunk@.map_values(|t: Task| t@).len());
        assert forall|j: int|
            0 <= j < pairs_view(r@).len() implies output_matches(
            #[trigger] pairs_view(r@)[j],
            chunk@.map_values(|t: Task| t@)[j],
        ) by {
            assert(chunk@.map_values(|t: Task| t@)[j] == chunk@[j]@);
        }
    }
    r
}

/// Merge the chunks' outputs into one report. Unit ids are unique across the
/// batch, so the merge is a disjoint union: simply every pair, in order.
pub fn merge_outputs(parts: Vec<Vec<(u32, ActionResult)>>) -> (r: ResultMap)
    requires
        distinct_ids_in_pairs(parts@.map_values(|p: Vec<(u32, ActionResult)>| pairs_view(p@)).flatten()),
    ensures
        r@ == parts@.map_values(|p: Vec<(u32, ActionResult)>| pairs_view(p@)).flatten(),
        r.wf(),
{
    let ghost goal = parts@.map_values(|p: Vec<(u32, ActionResult)>| pairs_view(p@)).flatten();
    let mut parts = parts;
    let mut r = ResultMap::new();
    let n = parts.len();
    let ghost pv = parts@.map_values(|p: Vec<(u32, ActionResult)>| pairs_view(p@));
    let mut i: usize = 0;
    proof {
        assert(pv.take(0).flatten() =~= Seq::<(u32, Seq<(Action, ResultTypeV)>)>::empty());
        assert(r@ =~= pv.take(0).flatten());
    }
    while i < n
        invariant
            i <= n,
            n == parts@.len(),
            pv == parts@.map_values(|p: Vec<(u32, ActionResult)>| pairs_view(p@)),
            goal == pv.flatten(),
            distinct_ids_in_pairs(goal),
            r@ == pv.take(i as int).flatten(),
            pv.take(i as int).flatten().len() <= goal.len(),
        decreases n - i,
    {
        let part = &parts[i];
        let m = part.len();
        let mut j: usize = 0;
        while j < m
            invariant
                j <= m,
                i < n,
                n == parts@.len(),
                m == parts@[i as int]@.len(),
                pv == parts@.map_values(|p: Vec<(u32, ActionResult)>| pairs_view(p@)),
                goal == pv.flatten(),
                part == parts@[i as int],
                r@ == pv.take(i as int).flatten() + pairs_view(part@).take(j as int),
            decreases m - j,
        {
            let ghost prev = r@;
            let id = part[j].0;
            let ar = duplicate_action_result(&part[j].1);
            r.entries.push((id, ar));
            proof {
                assert(r@ =~= prev.push((id, parts@[i as int]@[j as int].1@)));
                assert(pairs_view(part@).take(j + 1) =~= pairs_view(part@).take(j as int).push(
                    pairs_view(part@)[j as int],
                ));
                assert(r@ =~= pv.take(i as int).flatten() + pairs_view(part@).take(j + 1));
            }
            j += 1;
        }
        proof {
            assert(pairs_view(part@).take(m as int) =~= pairs_view(part@));
            assert(pv.take(i + 1).drop_last() =~= pv.take(i as int));
            assert(pv.take(i + 1).last() == pv[i as int]);
            pv.take(i as int).lemma_flatten_push(pv[i as int]);
            assert(pv.take(i + 1) =~= pv.take(i as int).push(pv[i as int]));
            assert(r@ =~= pv.take(i + 1).flatten());
            lemma_flatten_take_prefix(pv, i + 1);
        }
        i += 1;
    }
    proof {
        assert(pv.take(n as int) =~= pv);
        assert(r@ =~= goal);
    }
    r
}

/// No unit id occurs twice among output pairs.
pub open spec fn distinct_ids_in_pairs(ps: Seq<(u32, Seq<(Action, ResultTypeV)>)>) -> bool {
    forall|a: int, b: int| 0 <= a < b < ps.len() ==> (#[trigger] ps[a]).0 != (#[trigger] ps[b]).0
}

/// A prefix's flattening is a prefix of the whole flattening.
proof fn lemma_flatten_take_prefix(pv: Seq<Seq<(u32, Seq<(Action, ResultTypeV)>)>>, i: int)
    requires
        0 <= i <= pv.len(),
    ensures
        pv.take(i).flatten().len() <= pv.flatten().len(),
        forall|k: int|
            0 <= k < pv.take(i).flatten().len() ==> pv.take(i).flatten()[k] == pv.flatten()[k],
    decreases pv.len() - i,
{
    if i == pv.len() {
        assert(pv.take(i) =~= pv);
    } else {
        assert(pv.take(i + 1).drop_last() =~= pv.take(i));
        assert(pv.take(i + 1).last() == pv[i]);
        pv.take(i).lemma_flatten_push(pv[i]);
        assert(pv.take(i + 1) =~= pv.take(i).push(pv[i]));
        lemma_flatten_take_prefix(pv, i + 1);
    }
}

/// A field-for-field copy of one unit's per-action results.
fn duplicate_action_result(ar: &ActionResult) -> (r: ActionResult)
    ensures
        r@ == ar@,
{
    let mut entries: Vec<(Action, crate::messages::ResultType)> = Vec::new();
    let n = ar.entries.len();
    let mut i: usize = 0;
    while i < n
        invariant
            i <= n,
            n == ar.entries@.len(),
            entries@.len() == i,
            forall|j: int|
                0 <= j < i ==> (#[trigger] entries@[j]).0 == ar.entries@[j].0 && entries@[j].1@
                    == ar.entries@[j].1@,
        decreases n - i,
    {
        let a = ar.entries[i].0;
        let fm = match &ar.entries[i].1 {
            crate::messages::ResultType::LinkFrequencies(m) => {
                let mut es: Vec<(String, u64)> = Vec::new();
                let k = m.entries.len();
                let mut t: usize = 0;
                while t < k
                    invariant
                        t <= k,
                        k == m.entries@.len(),
                        es@.len() == t,
                        forall|u: int|
                            0 <= u < t ==> (#[trigger] es@[u]).0@ == m.entries@[u].0@ && es@[u].1
                                == m.entries@[u].1,
                    decreases k - t,
                {
                    es.push((m.entries[t].0.clone(), m.entries[t].1));
                    t += 1;
                }
                let fm2 = crate::messages::FreqMap { entries: es };
                proof {
                    assert(fm2@ =~= m@);
                }
                fm2
            },
        };
        entries.push((a, crate::messages::ResultType::LinkFrequencies(fm)));
        i += 1;
    }
    let r = ActionResult { entries };
    proof {
        assert(r@ =~= ar@);
    }
    r
}

/// Fan out one batch across `cpu_count` execution units' worth of chunks and
/// merge the chunk outputs into the `Done` report: one entry per task, in
/// task order, each answering that task's requested actions. The report holds
/// exactly as many entries as the batch holds tasks.
pub fn process_tasks(tasks: Vec<Task>, cpu_count: usize) -> (r: ResultMap)
    requires
        cpu_count >= 1,
        tasks@.len() + cpu_count <= usize::MAX,
        distinct_ids(tasks@.map_values(|t: Task| t@)),
        forall|i: int| 0 <= i < tasks@.len() ==> (#[trigger] tasks@[i]).wf(),
    ensures
        r.wf(),
        r@.len() == tasks@.len(),
        outputs_match(r@, tasks@.map_values(|t: Task| t@)),
{
    let ghost tvs = tasks@.map_values(|t: Task| t@);
    let ghost all_tasks = tasks@;
    if tasks.len() == 0 {
        let r = ResultMap::new();
        return r;
    }
    let size = chunk_size(tasks.len(), cpu_count);
    let chunks = split_chunks(tasks, size);
    let ghost cviews = chunks@.map_values(|c: Vec<Task>| c@);
    let mut parts: Vec<Vec<(u32, ActionResult)>> = Vec::new();
    let n = chunks.len();
    let mut i: usize = 0;
    proof {
        lemma_map_flatten_index(cviews);
        assert(cviews.flatten() == all_tasks);
        assert forall|c: int, t: int|
            0 <= c < cviews.len() && 0 <= t < (#[trigger] cviews[c]).len() implies (
        #[trigger] cviews[c][t]).wf() by {
            assert(cviews.flatten().contains(cviews[c][t]));
            let k = choose|k: int|
                0 <= k < cviews.flatten().len() && cviews.flatten()[k] == cviews[c][t];
            assert(all_tasks[k].wf());
        }
        assert(cviews.flatten().map_values(|t: Task| t@) == tvs);
    }
    while i < n
        invariant
            i <= n,
            n == chunks@.len(),
            cviews == chunks@.map_values(|c: Vec<Task>| c@),
            cviews.flatten().map_values(|t: Task| t@) == tvs,
            forall|c: int, t: int|
                0 <= c < cviews.len() && 0 <= t < (#[trigger] cviews[c]).len() ==> (
                #[trigger] cviews[c][t]).wf(),
            parts@.len() == i,
            forall|c: int|
                0 <= c < i ==> outputs_match(
                    pairs_view((#[trigger] parts@[c])@),
                    cviews[c].map_values(|t: Task| t@),
                ),
        decreases n - i,
    {
        proof {
            assert forall|t: int|
                0 <= t < chunks@[i as int]@.len() implies (#[trigger] chunks@[i as int]@[t]).wf() by {
                assert(cviews[i as int][t] == chunks@[i as int]@[t]);
            }
        }
        let out = process_chunk(&chunks[i]);
        parts.push(out);
        i += 1;
    }
    let ghost pv = parts@.map_values(|p: Vec<(u32, ActionResult)>| pairs_view(p@));
    proof {
        lemma_fanout_flatten(pv, cviews.map_values(|c: Seq<Task>| c.map_values(|t: Task| t@)));
        lemma_map_flatten_commute(cviews);
        assert(distinct_ids_in_pairs(pv.flatten())) by {
            assert(outputs_match(pv.flatten(), tvs));
            assert forall|a: int, b: int|
                0 <= a < b < pv.flatten().len() implies (#[trigger] pv.flatten()[a]).0 != (
            #[trigger] pv.flatten()[b]).0 by {
                assert(output_matches(pv.flatten()[a], tvs[a]));
                assert(output_matches(pv.flatten()[b], tvs[b]));
                assert(tvs[a].id != tvs[b].id);
            }
        }
    }
    let r = merge_outputs(parts);
    proof {
        assert(outputs_match(r@, tvs));
        assert forall|a: int, b: int| 0 <= a < b < r@.len() implies (#[trigger] r@[a]).0 != (
        #[trigger] r@[b]).0 by {
            assert(output_matches(r@[a], tvs[a]));
            assert(output_matches(r@[b], tvs[b]));
            assert(tvs[a].id != tvs[b].id);
        }
    }
    r
}

// ---------------------------------------------------------------------------
// Laws of fan-out
// ---------------------------------------------------------------------------

/// Outputs that answer two runs of tasks, concatenated, answer the
/// concatenated runs.
proof fn lemma_outputs_match_concat(
    p1: Seq<(u32, Seq<(Action, ResultTypeV)>)>,
    p2: Seq<(u32, Seq<(Action, ResultTypeV)>)>,
    t1: Seq<TaskV>,
    t2: Seq<TaskV>,
)
    requires
        outputs_match(p1, t1),
        outputs_match(p2, t2),
    ensures
        outputs_match(p1 + p2, t1 + t2),
{
    assert forall|i: int| 0 <= i < (p1 + p2).len() implies output_matches(
        #[trigger] (p1 + p2)[i],
        (t1 + t2)[i],
    ) by {
        if i < p1.len() {
            assert((p1 + p2)[i] == p1[i] && (t1 + t2)[i] == t1[i]);
        } else {
            assert((p1 + p2)[i] == p2[i - p1.len()] && (t1 + t2)[i] == t2[i - t1.len()]);
        }
    }
}

/// Worker fan-out determinism, part one: when each chunk's output answers
/// that chunk, the outputs re-merged in chunk order answer the whole batch —
/// exactly what processing the batch as a single chunk yields.
pub proof fn lemma_fanout_flatten(
    parts: Seq<Seq<(u32, Seq<(Action, ResultTypeV)>)>>,
    chunks: Seq<Seq<TaskV>>,
)
    requires
        parts.len() == chunks.len(),
        forall|c: int| 0 <= c < parts.len() ==> outputs_match(#[trigger] parts[c], chunks[c]),
    ensures
        outputs_match(parts.flatten(), chunks.flatten()),
    decreases parts.len(),
{
    if parts.len() == 0 {
        assert(parts.flatten() =~= Seq::<(u32, Seq<(Action, ResultTypeV)>)>::empty());
        assert(chunks.flatten() =~= Seq::<TaskV>::empty());
    } else {
        assert forall|c: int| 0 <= c < parts.drop_first().len() implies outputs_match(
            #[trigger] parts.drop_first()[c],
            chunks.drop_first()[c],
        ) by {
            assert(parts.drop_first()[c] == parts[c + 1]);
            assert(chunks.drop_first()[c] == chunks[c + 1]);
        }
        lemma_fanout_flatten(parts.drop_first(), chunks.drop_first());
        assert(parts[0] == parts.first());
        lemma_outputs_match_concat(
            parts.first(),
            parts.drop_first().flatten(),
            chunks.first(),
            chunks.drop_first().flatten(),
        );
    }
}

/// Worker fan-out determinism, part two: any two outputs answering the same
/// batch agree — same length, same unit ids, same actions, and for each
/// action the same frequency mapping. The batch's outcome does not depend on
/// how it was fanned out.
pub proof fn lemma_fanout_agree(
    p1: Seq<(u32, Seq<(Action, ResultTypeV)>)>,
    p2: Seq<(u32, Seq<(Action, ResultTypeV)>)>,
    ts: Seq<TaskV>,
)
    requires
        outputs_match(p1, ts),
        outputs_match(p2, ts),
    ensures
        p1.len() == p2.len(),
        forall|i: int| 0 <= i < p1.len() ==> (#[trigger] p1[i]).0 == p2[i].0,
        forall|i: int| 0 <= i < p1.len() ==> (#[trigger] p1[i]).1.len() == p2[i].1.len(),
        forall|i: int, j: int|
            0 <= i < p1.len() && 0 <= j < p1[i].1.len() ==> #[trigger] p1[i].1[j] == p1[i].1[j]
                && p1[i].1[j].0 == p2[i].1[j].0 && result_value_agrees(p1[i].1[j].1, p2[i].1[j].1),
{
    assert forall|i: int, j: int|
        0 <= i < p1.len() && 0 <= j < p1[i].1.len() implies #[trigger] p1[i].1[j] == p1[i].1[j]
        && p1[i].1[j].0 == p2[i].1[j].0 && result_value_agrees(p1[i].1[j].1, p2[i].1[j].1) by {
        assert(output_matches(p1[i], ts[i]));
        assert(output_matches(p2[i], ts[i]));
        assert(crate::analysis::action_outcome_matches(p1[i].1[j], ts[i].actions[j], ts[i].data));
        assert(crate::analysis::action_outcome_matches(p2[i].1[j], ts[i].actions[j], ts[i].data));
    }
    assert forall|i: int| 0 <= i < p1.len() implies (#[trigger] p1[i]).0 == p2[i].0 by {
        assert(output_matches(p1[i], ts[i]));
        assert(output_matches(p2[i], ts[i]));
    }
    assert forall|i: int| 0 <= i < p1.len() implies (#[trigger] p1[i]).1.len() == p2[i].1.len() by {
        assert(output_matches(p1[i], ts[i]));
        assert(output_matches(p2[i], ts[i]));
    }
}

/// Two result values denote the same frequency mapping.
pub open spec fn result_value_agrees(r1: ResultTypeV, r2: ResultTypeV) -> bool {
    match (r1, r2) {
        (ResultTypeV::LinkFrequencies(e1), ResultTypeV::LinkFrequencies(e2)) =>
            crate::messages::freqs_of_entries(e1) == crate::messages::freqs_of_entries(e2),
    }
}

/// Mapping task views commutes with flattening the chunks.
proof fn lemma_map_flatten_commute(cviews: Seq<Seq<Task>>)
    ensures
        cviews.flatten().map_values(|t: Task| t@) == cviews.map_values(
            |c: Seq<Task>| c.map_values(|t: Task| t@),
        ).flatten(),
    decreases cviews.len(),
{
    let f = |t: Task| t@;
    let g = |c: Seq<Task>| c.map_values(|t: Task| t@);
    if cviews.len() == 0 {
        assert(cviews.flatten().map_values(f) =~= Seq::<TaskV>::empty());
        assert(cviews.map_values(g).flatten() =~= Seq::<TaskV>::empty());
    } else {
        lemma_map_flatten_commute(cviews.drop_first());
        assert(cviews.map_values(g).first() == g(cviews.first()));
        assert(cviews.map_values(g).drop_first() =~= cviews.drop_first().map_values(g));
        assert(cviews.flatten().map_values(f) =~= cviews.first().map_values(f)
            + cviews.drop_first().flatten().map_values(f));
        assert(cviews.map_values(g).flatten() =~= cviews.first().map_values(f)
            + cviews.drop_first().map_values(g).flatten());
    }
}

/// Indexing facts carried from a flattening: every element of every chunk is
/// an element of the batch.
proof fn lemma_map_flatten_index(cviews: Seq<Seq<Task>>)
    ensures
        forall|c: int, t: int|
            0 <= c < cviews.len() && 0 <= t < (#[trigger] cviews[c]).len() ==> cviews.flatten().contains(
                #[trigger] cviews[c][t],
            ),
    decreases cviews.len(),
{
    if cviews.len() > 0 {
        lemma_map_flatten_index(cviews.drop_first());
        assert forall|c: int, t: int|
            0 <= c < cviews.len() && 0 <= t < (#[trigger] cviews[c]).len() implies cviews.flatten().contains(
            #[trigger] cviews[c][t],
        ) by {
            if c == 0 {
                assert(cviews.flatten()[t] == cviews.first()[t]);
            } else {
                assert(cviews.drop_first()[c - 1][t] == cviews[c][t]);
                assert(cviews.drop_first().flatten().contains(cviews[c][t]));
                let k = choose|k: int|
                    0 <= k < cviews.drop_first().flatten().len() && cviews.drop_first().flatten()[k]
                        == cviews[c][t];
                assert(cviews.flatten()[cviews.first().len() + k] == cviews[c][t]);
            }
        }
    }
}

} // verus!
