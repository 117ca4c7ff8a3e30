//! The data model: units of work, analysis actions, per-action results, and
//! the three wire messages `Ready`, `Task` and `Done`.

use vstd::prelude::*;

verus! {

/// A requested analysis operation. Only `LinkFrequencies` has a defined
/// computation; the other tags are accepted and yield an empty result.
#[derive(Clone, Copy, PartialEq, Eq, Structural, Debug)]
pub enum Action {
    LinkFrequencies,
    LinkGraph,
    KeywordExtraction,
    ArticleSummarization,
}

/// A duplicate-free collection of actions, kept in insertion order so that
/// encoding it is a function of the value.
#[derive(Debug)]
pub struct ActionSet {
    pub items: Vec<Action>,
}

impl View for ActionSet {
    type V = Seq<Action>;

    open spec fn view(&self) -> Seq<Action> {
        self.items@
    }
}

impl ActionSet {
    /// No action occurs twice.
    pub open spec fn wf(&self) -> bool {
        forall|i: int, j: int| 0 <= i < j < self@.len() ==> self@[i] != self@[j]
    }

    /// The actions as a set, forgetting the order.
    pub open spec fn to_set(&self) -> Set<Action> {
        self@.to_set()
    }

    pub fn new() -> (r: ActionSet)
        ensures
            r@ == Seq::<Action>::empty(),
            r.wf(),
    {
        ActionSet { items: Vec::new() }
    }

    pub fn contains(&self, a: Action) -> (r: bool)
        ensures
            r == self@.contains(a),
    {
        let mut i: usize = 0;
        while i < self.items.len()
            invariant
                i <= self.items.len(),
                forall|j: int| 0 <= j < i ==> self@[j] != a,
            decreases self.items.len() - i,
        {
            if self.items[i] == a {
                return true;
            }
            i += 1;
        }
        false
    }

    /// Add an action unless it is already present.
    pub fn insert(&mut self, a: Action)
        requires
            old(self).wf(),
        ensures
            final(self).wf(),
            final(self)@ == if old(self)@.contains(a) {
                old(self)@
            } else {
                old(self)@.push(a)
            },
            final(self).to_set() == old(self).to_set().insert(a),
    {
        let present = self.contains(a);
        if !present {
            self.items.push(a);
        }
        proof {
            let s0 = old(self)@;
            let s1 = final(self)@;
            if s0.contains(a) {
                assert(s0.to_set().contains(a));
                assert(final(self).to_set() =~= old(self).to_set().insert(a));
            } else {
                assert forall|x: Action| s1.contains(x) implies (s0.contains(x) || x == a) by {
                    let i = choose|i: int| 0 <= i < s1.len() && s1[i] == x;
                    if i < s0.len() {
                        assert(s0[i] == x);
                    }
                }
                assert forall|x: Action| s0.contains(x) || x == a implies s1.contains(x) by {
                    if s0.contains(x) {
                        let i = choose|i: int| 0 <= i < s0.len() && s0[i] == x;
                        assert(s1[i] == x);
                    } else {
                        assert(s1[s0.len() as int] == a);
                    }
                }
                assert(final(self).to_set() =~= old(self).to_set().insert(a));
            }
        }
    }

    /// Whether no action occurs twice, as decoded sets are not guaranteed.
    pub fn is_wf(&self) -> (r: bool)
        ensures
            r == self.wf(),
    {
        let n = self.items.len();
        let mut i: usize = 0;
        while i < n
            invariant
                i <= n,
                n == self@.len(),
                forall|a: int, b: int| 0 <= a < b < n && a < i ==> self@[a] != self@[b],
            decreases n - i,
        {
            let mut j: usize = i + 1;
            while j < n
                invariant
                    i < j <= n,
                    i < n,
                    n == self@.len(),
                    forall|b: int| i < b < j ==> self@[b] != self@[i as int],
                decreases n - j,
            {
                if self.items[j] == self.items[i] {
                    return false;
                }
                j += 1;
            }
            i += 1;
        }
        true
    }

    /// Collect a list of actions into a duplicate-free set, as the run's
    /// configuration does at startup.
    pub fn from_vec(v: &Vec<Action>) -> (r: ActionSet)
        ensures
            r.wf(),
            r.to_set() == v@.to_set(),
    {
        let mut r = ActionSet::new();
        let mut i: usize = 0;
        while i < v.len()
            invariant
                i <= v.len(),
                r.wf(),
                r.to_set() == v@.take(i as int).to_set(),
            decreases v.len() - i,
        {
            proof {
                assert(v@.take(i + 1).drop_last() == v@.take(i as int));
                assert(v@.take(i + 1).last() == v@[i as int]);
            }
            r.insert(v[i]);
            i += 1;
        }
        proof {
            assert(v@.take(v@.len() as int) == v@);
        }
        r
    }

    /// A copy with the same actions in the same order.
    pub fn duplicate(&self) -> (r: ActionSet)
        ensures
            r@ == self@,
    {
        let mut items: Vec<Action> = Vec::new();
        let mut i: usize = 0;
        while i < self.items.len()
            invariant
                i <= self.items.len(),
                items@ == self@.take(i as int),
            decreases self.items.len() - i,
        {
            items.push(self.items[i]);
            proof {
                assert(items@ =~= self@.take(i + 1));
            }
            i += 1;
        }
        proof {
            assert(self@.take(self@.len() as int) == self@);
        }
        ActionSet { items }
    }
}

/// A worker's declaration of how many tasks it can take before its next
/// report.
#[derive(Clone, Copy, PartialEq, Eq, Structural, Debug)]
pub struct Ready {
    pub task_count: u8,
}

impl Ready {
    pub fn new(task_count: u8) -> (r: Ready)
        ensures
            r.task_count == task_count,
    {
        Ready { task_count }
    }
}

/// The mathematical value of a `Task`.
pub struct TaskV {
    pub id: u32,
    pub data: Seq<char>,
    pub actions: Seq<Action>,
}

/// One dispatched unit of work: a page's raw markup together with the run's
/// requested actions.
#[derive(Debug)]
pub struct Task {
    pub id: u32,
    pub data: String,
    pub actions: ActionSet,
}

impl View for Task {
    type V = TaskV;

    open spec fn view(&self) -> TaskV {
        TaskV { id: self.id, data: self.data@, actions: self.actions@ }
    }
}

impl Task {
    pub open spec fn wf(&self) -> bool {
        self.actions.wf()
    }

    pub fn new(id: u32, data: String, actions: ActionSet) -> (r: Task)
        ensures
            r@ == (TaskV { id, data: data@, actions: actions@ }),
            actions.wf() ==> r.wf(),
    {
        Task { id, data, actions }
    }
}

/// Occurrence counts keyed by link target, kept as insertion-ordered entries
/// with unique keys.
#[derive(Debug)]
pub struct FreqMap {
    pub entries: Vec<(String, u64)>,
}

impl View for FreqMap {
    type V = Seq<(Seq<char>, u64)>;

    open spec fn view(&self) -> Seq<(Seq<char>, u64)> {
        Seq::new(self.entries@.len(), |i: int| (self.entries@[i].0@, self.entries@[i].1))
    }
}

/// The frequency mapping denoted by an entry sequence: later entries win,
/// though under `wf` no key occurs twice.
pub open spec fn freqs_of_entries(s: Seq<(Seq<char>, u64)>) -> Map<Seq<char>, nat>
    decreases s.len(),
{
    if s.len() == 0 {
        Map::empty()
    } else {
        freqs_of_entries(s.drop_last()).insert(s.last().0, s.last().1 as nat)
    }
}

impl FreqMap {
    /// Keys are unique.
    pub open spec fn wf(&self) -> bool {
        forall|i: int, j: int| 0 <= i < j < self@.len() ==> self@[i].0 != self@[j].0
    }

    /// The mapping from link target to occurrence count.
    pub open spec fn freqs(&self) -> Map<Seq<char>, nat> {
        freqs_of_entries(self@)
    }

    pub fn new() -> (r: FreqMap)
        ensures
            r@ == Seq::<(Seq<char>, u64)>::empty(),
            r.freqs() == Map::<Seq<char>, nat>::empty(),
            r.wf(),
    {
        FreqMap { entries: Vec::new() }
    }
}

/// One more occurrence of `k`: its count rises by one, a first occurrence
/// counting 1; every other count is unchanged.
pub open spec fn bump(m: Map<Seq<char>, nat>, k: Seq<char>) -> Map<Seq<char>, nat> {
    m.insert(
        k,
        if m.contains_key(k) {
            (m[k] + 1) as nat
        } else {
            1
        },
    )
}

proof fn lemma_freqs_absent(s: Seq<(Seq<char>, u64)>, k: Seq<char>)
    requires
        forall|i: int| 0 <= i < s.len() ==> (#[trigger] s[i]).0 != k,
    ensures
        !freqs_of_entries(s).contains_key(k),
    decreases s.len(),
{
    if s.len() > 0 {
        assert forall|i: int| 0 <= i < s.drop_last().len() implies (#[trigger] s.drop_last()[i]).0
            != k by {
            assert(s.drop_last()[i] == s[i]);
        }
        lemma_freqs_absent(s.drop_last(), k);
    }
}

proof fn lemma_freqs_present(s: Seq<(Seq<char>, u64)>, idx: int)
    requires
        0 <= idx < s.len(),
        forall|i: int, j: int| 0 <= i < j < s.len() ==> (#[trigger] s[i]).0 != (#[trigger] s[j]).0,
    ensures
        freqs_of_entries(s).contains_key(s[idx].0),
        freqs_of_entries(s)[s[idx].0] == s[idx].1 as nat,
    decreases s.len(),
{
    if idx < s.len() - 1 {
        assert forall|i: int, j: int|
            0 <= i < j < s.drop_last().len() implies (#[trigger] s.drop_last()[i]).0 != (
        #[trigger] s.drop_last()[j]).0 by {
            assert(s.drop_last()[i] == s[i] && s.drop_last()[j] == s[j]);
        }
        lemma_freqs_present(s.drop_last(), idx);
        assert(s.last().0 != s[idx].0);
        assert(s.drop_last()[idx] == s[idx]);
    }
}

proof fn lemma_freqs_push(s: Seq<(Seq<char>, u64)>, k: Seq<char>, v: u64)
    requires
        forall|i: int| 0 <= i < s.len() ==> (#[trigger] s[i]).0 != k,
    ensures
        freqs_of_entries(s.push((k, v))) == freqs_of_entries(s).insert(k, v as nat),
{
    assert(s.push((k, v)).drop_last() =~= s);
}

proof fn lemma_freqs_update(s: Seq<(Seq<char>, u64)>, idx: int, v: u64)
    requires
        0 <= idx < s.len(),
        forall|i: int, j: int| 0 <= i < j < s.len() ==> (#[trigger] s[i]).0 != (#[trigger] s[j]).0,
    ensures
        freqs_of_entries(s.update(idx, (s[idx].0, v))) == freqs_of_entries(s).insert(
            s[idx].0,
            v as nat,
        ),
    decreases s.len(),
{
    let s2 = s.update(idx, (s[idx].0, v));
    if idx == s.len() - 1 {
        assert(s2.drop_last() =~= s.drop_last());
        assert(s2.last() == (s[idx].0, v));
        assert(freqs_of_entries(s2) =~= freqs_of_entries(s).insert(s[idx].0, v as nat));
    } else {
        assert(s2.drop_last() =~= s.drop_last().update(idx, (s[idx].0, v)));
        assert(s2.last() == s.last());
        assert forall|i: int, j: int|
            0 <= i < j < s.drop_last().len() implies (#[trigger] s.drop_last()[i]).0 != (
        #[trigger] s.drop_last()[j]).0 by {
            assert(s.drop_last()[i] == s[i] && s.drop_last()[j] == s[j]);
        }
        assert(s.drop_last()[idx] == s[idx]);
        lemma_freqs_update(s.drop_last(), idx, v);
        assert(s[idx].0 != s.last().0);
        assert(freqs_of_entries(s2) =~= freqs_of_entries(s).insert(s[idx].0, v as nat));
    }
}

impl FreqMap {
    /// Record one more occurrence of `key`.
    pub fn increment(&mut self, key: &String)
        requires
            old(self).wf(),
            old(self).freqs().contains_key(key@) ==> old(self).freqs()[key@] < u64::MAX,
        ensures
            final(self).wf(),
            final(self).freqs() == bump(old(self).freqs(), key@),
    {
        let n = self.entries.len();
        let mut idx: usize = 0;
        while idx < n
            invariant
                *self == *old(self),
                self.wf(),
                old(self).freqs().contains_key(key@) ==> old(self).freqs()[key@] < u64::MAX,
                n == self.entries@.len(),
                idx <= n,
                forall|j: int| 0 <= j < idx ==> (#[trigger] self@[j]).0 != key@,
            decreases n - idx,
        {
            if self.entries[idx].0.eq(key) {
                proof {
                    lemma_freqs_present(self@, idx as int);
                }
                let v = self.entries[idx].1;
                self.entries[idx] = (key.clone(), v + 1);
                proof {
                    assert(final(self)@ =~= old(self)@.update(
                        idx as int,
                        (old(self)@[idx as int].0, (v + 1) as u64),
                    ));
                    lemma_freqs_update(old(self)@, idx as int, (v + 1) as u64);
                }
                return;
            }
            idx += 1;
        }
        proof {
            lemma_freqs_absent(self@, key@);
        }
        self.entries.push((key.clone(), 1));
        proof {
            assert(final(self)@ =~= old(self)@.push((key@, 1u64)));
            lemma_freqs_push(old(self)@, key@, 1);
        }
    }
}

/// The typed result of one action. Only link frequencies are ever computed;
/// the variant carries their counts.
#[derive(Debug)]
pub enum ResultType {
    LinkFrequencies(FreqMap),
}

/// The mathematical value of a `ResultType`.
pub enum ResultTypeV {
    LinkFrequencies(Seq<(Seq<char>, u64)>),
}

impl View for ResultType {
    type V = ResultTypeV;

    open spec fn view(&self) -> ResultTypeV {
        match self {
            ResultType::LinkFrequencies(m) => ResultTypeV::LinkFrequencies(m@),
        }
    }
}

impl ResultType {
    pub open spec fn wf(&self) -> bool {
        match self {
            ResultType::LinkFrequencies(m) => m.wf(),
        }
    }
}

/// The results of every requested action for one unit, keyed by action.
#[derive(Debug)]
pub struct ActionResult {
    pub entries: Vec<(Action, ResultType)>,
}

impl View for ActionResult {
    type V = Seq<(Action, ResultTypeV)>;

    open spec fn view(&self) -> Seq<(Action, ResultTypeV)> {
        Seq::new(self.entries@.len(), |i: int| (self.entries@[i].0, self.entries@[i].1@))
    }
}

impl ActionResult {
    pub open spec fn wf(&self) -> bool {
        &&& forall|i: int, j: int| 0 <= i < j < self@.len() ==> self@[i].0 != self@[j].0
        &&& forall|i: int| 0 <= i < self@.len() ==> #[trigger] self.entries@[i].1.wf()
    }

    pub fn new() -> (r: ActionResult)
        ensures
            r@ == Seq::<(Action, ResultTypeV)>::empty(),
            r.wf(),
    {
        ActionResult { entries: Vec::new() }
    }
}

/// A session's aggregate report: one `ActionResult` per unit it processed,
/// keyed by unit id.
#[derive(Debug)]
pub struct ResultMap {
    pub entries: Vec<(u32, ActionResult)>,
}

impl View for ResultMap {
    type V = Seq<(u32, Seq<(Action, ResultTypeV)>)>;

    open spec fn view(&self) -> Seq<(u32, Seq<(Action, ResultTypeV)>)> {
        Seq::new(self.entries@.len(), |i: int| (self.entries@[i].0, self.entries@[i].1@))
    }
}

impl ResultMap {
    /// Ids are unique.
    pub open spec fn wf(&self) -> bool {
        forall|i: int, j: int| 0 <= i < j < self@.len() ==> self@[i].0 != self@[j].0
    }

    /// The ids reported on, in entry order.
    pub open spec fn ids(&self) -> Seq<u32> {
        self@.map_values(|e: (u32, Seq<(Action, ResultTypeV)>)| e.0)
    }

    pub fn new() -> (r: ResultMap)
        ensures
            r@ == Seq::<(u32, Seq<(Action, ResultTypeV)>)>::empty(),
            r.wf(),
    {
        ResultMap { entries: Vec::new() }
    }

    pub fn contains_id(&self, id: u32) -> (r: bool)
        ensures
            r == self.ids().contains(id),
    {
        let mut i: usize = 0;
        while i < self.entries.len()
            invariant
                i <= self.entries.len(),
                forall|j: int| 0 <= j < i ==> self.ids()[j] != id,
            decreases self.entries.len() - i,
        {
            if self.entries[i].0 == id {
                assert(self.ids()[i as int] == id);
                return true;
            }
            i += 1;
        }
        false
    }
}

/// The wire form of a session's aggregate report.
#[derive(Debug)]
pub struct Done {
    pub results: ResultMap,
}

/// The mathematical value of a `Done`.
pub struct DoneV {
    pub results: Seq<(u32, Seq<(Action, ResultTypeV)>)>,
}

impl View for Done {
    type V = DoneV;

    open spec fn view(&self) -> DoneV {
        DoneV { results: self.results@ }
    }
}

impl Done {
    pub open spec fn wf(&self) -> bool {
        self.results.wf()
    }

    pub fn new(results: ResultMap) -> (r: Done)
        ensures
            r@ == (DoneV { results: results@ }),
            results.wf() ==> r.wf(),
    {
        Done { results }
    }
}

/// The tagged union of everything that crosses the wire.
#[derive(Debug)]
pub enum Message {
    Ready(Ready),
    Task(Task),
    Done(Done),
}

/// The mathematical value of a `Message`.
pub enum MessageV {
    Ready(u8),
    Task(TaskV),
    Done(DoneV),
}

impl View for Message {
    type V = MessageV;

    open spec fn view(&self) -> MessageV {
        match self {
            Message::Ready(r) => MessageV::Ready(r.task_count),
            Message::Task(t) => MessageV::Task(t@),
            Message::Done(d) => MessageV::Done(d@),
        }
    }
}

impl Message {
    pub open spec fn wf(&self) -> bool {
        match self {
            Message::Ready(_) => true,
            Message::Task(t) => t.wf(),
            Message::Done(d) => d.wf(),
        }
    }
}

} // verus!
