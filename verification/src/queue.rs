//! The coordinator's job pipeline: unit-boundary detection over the streamed
//! corpus, monotonic id assignment, and the bounded shared queue with
//! backpressure.

use vstd::prelude::*;

verus! {

// ---------------------------------------------------------------------------
// Substring search, used for the unit boundary markers
// ---------------------------------------------------------------------------

/// The pattern occurs in `s` starting at position `i`.
pub open spec fn contains_at(s: Seq<char>, p: Seq<char>, i: int) -> bool {
    0 <= i && i + p.len() <= s.len() && s.subrange(i, i + p.len()) == p
}

/// The pattern occurs somewhere in `s`.
pub open spec fn contains_seq(s: Seq<char>, p: Seq<char>) -> bool {
    exists|i: int| contains_at(s, p, i)
}

/// Whether `p` occurs as a contiguous run of characters in `s`.
pub fn str_contains(s: &str, p: &str) -> (r: bool)
    ensures
        r == contains_seq(s@, p@),
{
    let n = s.unicode_len();
    let m = p.unicode_len();
    if m > n {
        proof {
            assert forall|i: int| !contains_at(s@, p@, i) by {}
        }
        return false;
    }
    let mut i: usize = 0;
    while i <= n - m
        invariant
            m <= n,
            n == s@.len(),
            m == p@.len(),
            i <= n - m + 1,
            forall|j: int| 0 <= j < i ==> !contains_at(s@, p@, j),
        decreases n - m + 1 - i,
    {
        let mut k: usize = 0;
        let mut ok = true;
        while ok && k < m
            invariant
                k <= m,
                m <= n,
                n == s@.len(),
                m == p@.len(),
                i + m <= n,
                ok ==> forall|t: int| 0 <= t < k ==> s@[i + t] == p@[t],
                !ok ==> exists|t: int| 0 <= t < m && s@[i + t] != p@[t],
            decreases m - k, if ok { 1int } else { 0int },
        {
            if s.get_char(i + k) == p.get_char(k) {
                k += 1;
            } else {
                ok = false;
            }
        }
        if ok {
            proof {
                assert(s@.subrange(i as int, i + m) =~= p@);
                assert(contains_at(s@, p@, i as int));
            }
            return true;
        }
        proof {
            let t = choose|t: int| 0 <= t < m && s@[i + t] != p@[t];
            assert(s@.subrange(i as int, i + m)[t] == s@[i + t]);
            assert(!contains_at(s@, p@, i as int));
        }
        i += 1;
    }
    proof {
        assert forall|j: int| !contains_at(s@, p@, j) by {
            if 0 <= j && j + p@.len() <= s@.len() {
                assert(j < i);
            }
        }
    }
    false
}

// ---------------------------------------------------------------------------
// Units of work
// ---------------------------------------------------------------------------

/// One unit of work: a page's raw markup under a globally unique id.
#[derive(Debug)]
pub struct Job {
    pub job_id: u32,
    pub data: String,
}

impl Job {
    pub fn new(job_id: u32, data: String) -> (r: Job)
        ensures
            r.job_id == job_id,
            r.data == data,
    {
        Job { job_id, data }
    }
}

// ---------------------------------------------------------------------------
// Boundary detection and id assignment
// ---------------------------------------------------------------------------

/// The line content that opens a unit.
pub open spec fn open_marker() -> Seq<char> {
    seq!['<', 'p', 'a', 'g', 'e', '>']
}

/// The line content that closes a unit.
pub open spec fn close_marker() -> Seq<char> {
    seq!['<', '/', 'p', 'a', 'g', 'e', '>']
}

/// The builder's scanning state: whether it stands inside a unit, and what it
/// has accumulated.
pub struct BuilderState {
    pub in_page: bool,
    pub buffer: Seq<char>,
}

pub open spec fn initial_builder() -> BuilderState {
    BuilderState { in_page: false, buffer: Seq::empty() }
}

/// One line of input: outside a unit, a line holding the open marker starts
/// accumulation with that line; inside, every line is appended, and a line
/// holding the close marker emits the accumulated unit.
pub open spec fn builder_step(st: BuilderState, line: Seq<char>) -> (BuilderState, Option<
    Seq<char>,
>) {
    if !st.in_page {
        if contains_seq(line, open_marker()) {
            (BuilderState { in_page: true, buffer: st.buffer + line }, None)
        } else {
            (st, None)
        }
    } else {
        let buf = st.buffer + line;
        if contains_seq(line, close_marker()) {
            (BuilderState { in_page: false, buffer: Seq::empty() }, Some(buf))
        } else {
            (BuilderState { in_page: true, buffer: buf }, None)
        }
    }
}

/// The unit contents emitted over a whole line sequence.
pub open spec fn units_of(st: BuilderState, lines: Seq<Seq<char>>) -> Seq<Seq<char>>
    decreases lines.len(),
{
    if lines.len() == 0 {
        Seq::empty()
    } else {
        let (st2, out) = builder_step(st, lines.first());
        (match out {
            Some(u) => seq![u],
            None => Seq::<Seq<char>>::empty(),
        }) + units_of(st2, lines.drop_first())
    }
}

/// The builder state after a whole line sequence.
pub open spec fn builder_after(st: BuilderState, lines: Seq<Seq<char>>) -> BuilderState
    decreases lines.len(),
{
    if lines.len() == 0 {
        st
    } else {
        builder_after(builder_step(st, lines.first()).0, lines.drop_first())
    }
}

/// Streams the corpus line by line, detects unit boundaries, and assigns each
/// emitted unit the next globally unique id.
pub struct QueueBuilder {
    pub in_page: bool,
    pub buffer: String,
    pub next_id: u32,
    pub emitted: Ghost<Seq<u32>>,
}

impl QueueBuilder {
    /// The scanning state.
    pub open spec fn state(&self) -> BuilderState {
        BuilderState { in_page: self.in_page, buffer: self.buffer@ }
    }

    /// The id the next emitted unit will carry.
    pub open spec fn spec_next_id(&self) -> u32 {
        self.next_id
    }

    /// The ids of the units emitted so far, in emission order.
    pub open spec fn emitted_ids(&self) -> Seq<u32> {
        self.emitted@
    }

    /// Ids are handed out consecutively from zero.
    pub open spec fn wf(&self) -> bool {
        &&& self.emitted@.len() == self.next_id
        &&& forall|i: int| 0 <= i < self.emitted@.len() ==> self.emitted@[i] == i as u32
    }

    pub fn new() -> (r: QueueBuilder)
        ensures
            r.wf(),
            r.state() == initial_builder(),
            r.spec_next_id() == 0,
            r.emitted_ids() == Seq::<u32>::empty(),
    {
        let r = QueueBuilder {
            in_page: false,
            buffer: String::new(),
            next_id: 0,
            emitted: Ghost(Seq::empty()),
        };
        proof {
            assert(r.state().buffer =~= initial_builder().buffer);
        }
        r
    }

    /// How many units have been emitted; also the next id to be handed out.
    pub fn emitted_count(&self) -> (r: u32)
        ensures
            r == self.spec_next_id(),
    {
        self.next_id
    }

    /// Feed one input line; a `Job` comes back when this line closes a unit.
    pub fn push_line(&mut self, line: &str) -> (r: Option<Job>)
        requires
            old(self).wf(),
            old(self).spec_next_id() < u32::MAX,
        ensures
            final(self).wf(),
            ({
                let (st2, out) = builder_step(old(self).state(), line@);
                &&& final(self).state() == st2
                &&& match (r, out) {
                    (Some(job), Some(content)) => {
                        &&& job.job_id == old(self).spec_next_id()
                        &&& job.data@ == content
                        &&& final(self).spec_next_id() == old(self).spec_next_id() + 1
                        &&& final(self).emitted_ids() == old(self).emitted_ids().push(job.job_id)
                    },
                    (None, None) => {
                        &&& final(self).spec_next_id() == old(self).spec_next_id()
                        &&& final(self).emitted_ids() == old(self).emitted_ids()
                    },
                    _ => false,
                }
            }),
    {
        if !self.in_page {
            if str_contains(line, "<page>") {
                proof {
                    reveal_strlit("<page>");
                    assert("<page>"@ =~= open_marker());
                }
                self.in_page = true;
                self.buffer.append(line);
                None
            } else {
                proof {
                    reveal_strlit("<page>");
                    assert("<page>"@ =~= open_marker());
                }
                None
            }
        } else {
            self.buffer.append(line);
            if str_contains(line, "</page>") {
                proof {
                    reveal_strlit("</page>");
                    assert("</page>"@ =~= close_marker());
                }
                self.in_page = false;
                let id = self.next_id;
                self.next_id = id + 1;
                let data = self.buffer.clone();
                self.buffer = String::new();
                proof {
                    self.emitted@ = self.emitted@.push(id);
                }
                Some(Job::new(id, data))
            } else {
                proof {
                    reveal_strlit("</page>");
                    assert("</page>"@ =~= close_marker());
                }
                None
            }
        }
    }

    /// Feed a whole line sequence through the builder, collecting the emitted
    /// units: their contents are exactly `units_of` the lines, under
    /// consecutive ids.
    pub fn run_lines(&mut self, lines: &Vec<String>) -> (jobs: Vec<Job>)
        requires
            old(self).wf(),
            old(self).spec_next_id() + lines@.len() <= u32::MAX,
        ensures
            final(self).wf(),
            final(self).state() == builder_after(old(self).state(), lines.deep_view()),
            jobs@.map_values(|j: Job| j.data@) == units_of(old(self).state(), lines.deep_view()),
            forall|k: int|
                0 <= k < jobs@.len() ==> (#[trigger] jobs@[k]).job_id == old(self).spec_next_id()
                    + k,
            final(self).spec_next_id() == old(self).spec_next_id() + jobs@.len(),
    {
        let ghost st0 = old(self).state();
        let ghost lv = lines.deep_view();
        let mut jobs: Vec<Job> = Vec::new();
        let n = lines.len();
        let mut i: usize = 0;
        proof {
            assert(jobs@.map_values(|j: Job| j.data@) =~= Seq::<Seq<char>>::empty());
            assert(lv.skip(0) =~= lv);
            assert(self.state() == st0);
            assert(jobs@.map_values(|j: Job| j.data@) + units_of(self.state(), lv.skip(0))
                =~= units_of(st0, lv));
        }
        while i < n
            invariant
                i <= n,
                n == lv.len(),
                lv == lines.deep_view(),
                self.wf(),
                old(self).spec_next_id() + lv.len() <= u32::MAX,
                self.spec_next_id() == old(self).spec_next_id() + jobs@.len(),
                jobs@.len() <= i,
                units_of(st0, lv) == jobs@.map_values(|j: Job| j.data@) + units_of(
                    self.state(),
                    lv.skip(i as int),
                ),
                builder_after(st0, lv) == builder_after(self.state(), lv.skip(i as int)),
                forall|k: int|
                    0 <= k < jobs@.len() ==> (#[trigger] jobs@[k]).job_id == old(
                        self,
                    ).spec_next_id() + k,
            decreases n - i,
        {
            proof {
                assert(lv.skip(i as int).len() > 0);
                assert(lv.skip(i as int).first() == lv[i as int]);
                assert(lv.skip(i as int).drop_first() =~= lv.skip(i + 1));
                assert(lines@[i as int]@ == lv[i as int]);
            }
            let r = self.push_line(lines[i].as_str());
            match r {
                Some(job) => {
                    let ghost prev = jobs@;
                    let ghost jd = job.data@;
                    jobs.push(job);
                    proof {
                        assert(jobs@.map_values(|j: Job| j.data@) =~= prev.map_values(
                            |j: Job| j.data@,
                        ).push(jd));
                        assert(units_of(st0, lv) =~= jobs@.map_values(|j: Job| j.data@)
                            + units_of(self.state(), lv.skip(i + 1)));
                    }
                },
                None => {
                    proof {
                        assert(jobs@.map_values(|j: Job| j.data@) + units_of(
                            self.state(),
                            lv.skip(i + 1),
                        ) =~= units_of(st0, lv));
                    }
                },
            }
            i += 1;
        }
        proof {
            assert(lv.skip(n as int) =~= Seq::<Seq<char>>::empty());
            assert(units_of(st0, lv) =~= jobs@.map_values(|j: Job| j.data@));
        }
        jobs
    }

    /// Uniqueness and monotonicity: the ids a builder has emitted are strictly
    /// increasing in emission order, so no id ever repeats.
    pub proof fn lemma_ids_unique_monotonic(&self)
        requires
            self.wf(),
        ensures
            forall|i: int, j: int|
                0 <= i < j < self.emitted_ids().len() ==> self.emitted_ids()[i]
                    < self.emitted_ids()[j],
    {
    }
}

// ---------------------------------------------------------------------------
// Laws of boundary detection
// ---------------------------------------------------------------------------

/// A well-formed unit in the input: any lines without an open marker, then an
/// opening line, then middle lines without a close marker, then a closing
/// line.
pub struct UnitBlock {
    pub junk: Seq<Seq<char>>,
    pub open_line: Seq<char>,
    pub middle: Seq<Seq<char>>,
    pub close_line: Seq<char>,
}

impl UnitBlock {
    pub open spec fn wf(&self) -> bool {
        &&& forall|i: int|
            0 <= i < self.junk.len() ==> !contains_seq(#[trigger] self.junk[i], open_marker())
        &&& contains_seq(self.open_line, open_marker())
        &&& forall|i: int|
            0 <= i < self.middle.len() ==> !contains_seq(#[trigger] self.middle[i], close_marker())
        &&& contains_seq(self.close_line, close_marker())
    }

    pub open spec fn lines(&self) -> Seq<Seq<char>> {
        self.junk + seq![self.open_line] + self.middle + seq![self.close_line]
    }

    /// The unit's content: its lines from open through close, concatenated.
    pub open spec fn content(&self) -> Seq<char> {
        self.open_line + self.middle.flatten() + self.close_line
    }
}

/// Lines without an open marker leave the builder outside a unit and emit
/// nothing.
proof fn lemma_junk_skipped(st: BuilderState, junk: Seq<Seq<char>>, rest: Seq<Seq<char>>)
    requires
        !st.in_page,
        forall|i: int| 0 <= i < junk.len() ==> !contains_seq(#[trigger] junk[i], open_marker()),
    ensures
        units_of(st, junk + rest) == units_of(st, rest),
        builder_after(st, junk + rest) == builder_after(st, rest),
    decreases junk.len(),
{
    if junk.len() == 0 {
        assert(junk + rest =~= rest);
    } else {
        let all = junk + rest;
        assert(all.first() == junk.first());
        assert(all.drop_first() =~= junk.drop_first() + rest);
        assert(builder_step(st, junk.first()) == (st, None::<Seq<char>>));
        lemma_junk_skipped(st, junk.drop_first(), rest);
        assert(units_of(st, junk + rest) =~= units_of(st, rest));
    }
}

/// Lines without a close marker are appended to the accumulation, emitting
/// nothing.
proof fn lemma_middle_accumulates(st: BuilderState, middle: Seq<Seq<char>>, rest: Seq<Seq<char>>)
    requires
        st.in_page,
        forall|i: int| 0 <= i < middle.len() ==> !contains_seq(#[trigger] middle[i], close_marker()),
    ensures
        units_of(st, middle + rest) == units_of(
            BuilderState { in_page: true, buffer: st.buffer + middle.flatten() },
            rest,
        ),
        builder_after(st, middle + rest) == builder_after(
            BuilderState { in_page: true, buffer: st.buffer + middle.flatten() },
            rest,
        ),
    decreases middle.len(),
{
    if middle.len() == 0 {
        assert(middle + rest =~= rest);
        assert(st.buffer + middle.flatten() =~= st.buffer);
        assert(st =~= BuilderState { in_page: true, buffer: st.buffer + middle.flatten() });
    } else {
        let all = middle + rest;
        assert(all.first() == middle.first());
        assert(all.drop_first() =~= middle.drop_first() + rest);
        let st2 = BuilderState { in_page: true, buffer: st.buffer + middle.first() };
        assert(builder_step(st, middle.first()) == (st2, None::<Seq<char>>));
        lemma_middle_accumulates(st2, middle.drop_first(), rest);
        assert(st2.buffer + middle.drop_first().flatten() =~= st.buffer + middle.flatten());
    }
}

/// One well-formed unit block emits exactly one unit, whose content is the
/// concatenation of its lines from the opening line through the closing line,
/// and leaves the builder back in its initial state.
pub proof fn lemma_block_emits_unit(b: UnitBlock, rest: Seq<Seq<char>>)
    requires
        b.wf(),
    ensures
        units_of(initial_builder(), b.lines() + rest) == seq![b.content()] + units_of(
            initial_builder(),
            rest,
        ),
        builder_after(initial_builder(), b.lines() + rest) == builder_after(
            initial_builder(),
            rest,
        ),
{
    let st0 = initial_builder();
    let tail1 = seq![b.open_line] + b.middle + seq![b.close_line] + rest;
    assert(b.lines() + rest =~= b.junk + tail1);
    lemma_junk_skipped(st0, b.junk, tail1);
    assert(tail1.first() == b.open_line);
    let st1 = BuilderState { in_page: true, buffer: st0.buffer + b.open_line };
    assert(builder_step(st0, b.open_line) == (st1, None::<Seq<char>>));
    let tail2 = b.middle + (seq![b.close_line] + rest);
    assert(tail1.drop_first() =~= tail2);
    lemma_middle_accumulates(st1, b.middle, seq![b.close_line] + rest);
    let st2 = BuilderState { in_page: true, buffer: st1.buffer + b.middle.flatten() };
    let tail3 = seq![b.close_line] + rest;
    assert(tail3.first() == b.close_line);
    assert(tail3.drop_first() =~= rest);
    let emitted = st2.buffer + b.close_line;
    assert(builder_step(st2, b.close_line) == (
        BuilderState { in_page: false, buffer: Seq::empty() },
        Some(emitted),
    ));
    assert(BuilderState { in_page: false, buffer: Seq::<char>::empty() } =~= st0);
    assert(emitted =~= b.content());
    assert(units_of(st0, b.lines() + rest) =~= seq![b.content()] + units_of(st0, rest));
}

/// Boundary detection: an input of `N` well-formed unit blocks, followed by
/// trailing lines that open no unit, makes the builder emit exactly `N`
/// units, the `k`-th being the concatenation of the `k`-th block's lines from
/// its open line through its close line.
pub proof fn lemma_boundary_detection(blocks: Seq<UnitBlock>, trailing: Seq<Seq<char>>)
    requires
        forall|i: int| 0 <= i < blocks.len() ==> (#[trigger] blocks[i]).wf(),
        forall|i: int| 0 <= i < trailing.len() ==> !contains_seq(#[trigger] trailing[i], open_marker()),
    ensures
        units_of(initial_builder(), blocks.map_values(|b: UnitBlock| b.lines()).flatten() + trailing)
            == blocks.map_values(|b: UnitBlock| b.content()),
    decreases blocks.len(),
{
    let st0 = initial_builder();
    if blocks.len() == 0 {
        assert(blocks.map_values(|b: UnitBlock| b.lines()).flatten() + trailing =~= trailing);
        lemma_junk_skipped(st0, trailing, Seq::empty());
        assert(trailing + Seq::<Seq<char>>::empty() =~= trailing);
        assert(units_of(st0, Seq::empty()) =~= Seq::<Seq<char>>::empty());
        assert(blocks.map_values(|b: UnitBlock| b.content()) =~= Seq::<Seq<char>>::empty());
    } else {
        let b0 = blocks.first();
        let rest_blocks = blocks.drop_first();
        let lines_map = blocks.map_values(|b: UnitBlock| b.lines());
        let rest_lines = rest_blocks.map_values(|b: UnitBlock| b.lines()).flatten() + trailing;
        assert(lines_map.first() == b0.lines());
        assert(lines_map.drop_first() =~= rest_blocks.map_values(|b: UnitBlock| b.lines()));
        assert(lines_map.flatten() == b0.lines() + lines_map.drop_first().flatten());
        assert(lines_map.flatten() + trailing =~= b0.lines() + rest_lines);
        lemma_block_emits_unit(b0, rest_lines);
        lemma_boundary_detection(rest_blocks, trailing);
        assert(blocks.map_values(|b: UnitBlock| b.content()) =~= seq![b0.content()]
            + rest_blocks.map_values(|b: UnitBlock| b.content()));
    }
}

// ---------------------------------------------------------------------------
// The bounded shared queue
// ---------------------------------------------------------------------------

/// A publish is accepted only while the queue holds fewer units than its
/// capacity.
pub open spec fn push_would_accept(len: nat, capacity: nat) -> bool {
    len < capacity
}

/// The bounded queue between the builder and the dispatch sessions. A full
/// queue refuses a publish, handing the unit back for the producer to retry
/// once a consumer has drained; a unit, once popped, is gone for good.
#[derive(Debug)]
pub struct JobQueue {
    pub items: Vec<Job>,
    pub capacity: usize,
}

impl View for JobQueue {
    type V = Seq<Job>;

    open spec fn view(&self) -> Seq<Job> {
        self.items@
    }
}

impl JobQueue {
    pub open spec fn spec_capacity(&self) -> nat {
        self.capacity as nat
    }

    pub open spec fn wf(&self) -> bool {
        &&& self@.len() <= self.spec_capacity()
        &&& self.spec_capacity() >= 1
    }

    pub fn new(capacity: usize) -> (r: JobQueue)
        requires
            capacity >= 1,
        ensures
            r.wf(),
            r@ == Seq::<Job>::empty(),
            r.spec_capacity() == capacity,
    {
        JobQueue { items: Vec::new(), capacity }
    }

    pub fn len(&self) -> (r: usize)
        ensures
            r == self@.len(),
    {
        self.items.len()
    }

    /// Publish one unit. A full queue refuses and returns the unit unchanged:
    /// the caller must wait for a consumer (backpressure).
    pub fn try_push(&mut self, job: Job) -> (r: Option<Job>)
        requires
            old(self).wf(),
        ensures
            final(self).wf(),
            final(self).spec_capacity() == old(self).spec_capacity(),
            if push_would_accept(old(self)@.len(), old(self).spec_capacity()) {
                r is None && final(self)@ == old(self)@.push(job)
            } else {
                r == Some(job) && final(self)@ == old(self)@
            },
    {
        if self.items.len() < self.capacity {
            self.items.push(job);
            None
        } else {
            Some(job)
        }
    }

    /// Remove the oldest unit, if any. The unit is never returned to the
    /// queue: once popped it belongs to exactly one consumer.
    pub fn pop(&mut self) -> (r: Option<Job>)
        requires
            old(self).wf(),
        ensures
            final(self).wf(),
            final(self).spec_capacity() == old(self).spec_capacity(),
            if old(self)@.len() == 0 {
                r is None && final(self)@ == old(self)@
            } else {
                r == Some(old(self)@.first()) && final(self)@ == old(self)@.drop_first()
            },
    {
        if self.items.len() == 0 {
            None
        } else {
            let job = self.items.remove(0);
            proof {
                assert(final(self)@ =~= old(self)@.drop_first());
            }
            Some(job)
        }
    }
}

/// Backpressure: a queue at capacity `C` refuses the `C+1`-th publish, and
/// accepts a publish again once one unit has been removed.
pub proof fn lemma_backpressure(items: Seq<Job>, capacity: nat)
    requires
        capacity >= 1,
        items.len() == capacity,
    ensures
        !push_would_accept(items.len(), capacity),
        push_would_accept(items.drop_first().len(), capacity),
{
}

} // verus!
