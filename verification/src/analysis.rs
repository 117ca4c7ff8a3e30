//! The text analysis engine: link-frequency extraction by a single forward
//! pass over a unit's grapheme clusters, with an outer element-boundary
//! scanner that admits only a `text` element's content and an inner
//! link-reference scanner that counts link targets.

use vstd::prelude::*;

use crate::messages::{Action, ActionResult, FreqMap, ResultType, ResultTypeV, Task, TaskV, bump,
    freqs_of_entries};

verus! {

// ---------------------------------------------------------------------------
// Grapheme segmentation (trusted)
// ---------------------------------------------------------------------------

/// The extended grapheme clusters of a character sequence.
pub uninterp spec fn grapheme_clusters(s: Seq<char>) -> Seq<Seq<char>>;

/// Relies on unicode_segmentation::UnicodeSegmentation::graphemes with
/// `is_extended` true: the segmentation into extended grapheme clusters is a
/// function of the characters alone.
#[verifier::external_body]
fn split_graphemes(s: &str) -> (r: Vec<String>)
    ensures
        r.deep_view() == grapheme_clusters(s@),
{
    unicode_segmentation::UnicodeSegmentation::graphemes(s, true).map(|g: &str| g.to_owned()).collect()
}

// ---------------------------------------------------------------------------
// The scanner's state machine
// ---------------------------------------------------------------------------

/// Where the element-boundary scanner stands relative to markup tags.
#[derive(Clone, Copy, PartialEq, Eq, Structural, Debug)]
pub enum Phase {
    Outside,
    TagOpening,
    TagName,
    Attributes,
    Content,
    TagClosing,
}

/// The whole scanner state: the element-boundary phase, the tag name being
/// accumulated, whether the scanner stands inside a `text` element's content,
/// the two bracket flags, the pending link target, and the counts so far.
pub struct ScanState {
    pub phase: Phase,
    pub tag_name: Seq<char>,
    pub in_text: bool,
    pub first_bracket: bool,
    pub second_bracket: bool,
    pub buf: Seq<char>,
    pub freqs: Map<Seq<char>, nat>,
}

pub open spec fn init_scan() -> ScanState {
    ScanState {
        phase: Phase::Outside,
        tag_name: Seq::empty(),
        in_text: false,
        first_bracket: false,
        second_bracket: false,
        buf: Seq::empty(),
        freqs: Map::empty(),
    }
}

/// The element name whose content feeds the link scanner.
pub open spec fn text_tag() -> Seq<char> {
    seq!['t', 'e', 'x', 't']
}

/// A grapheme cluster that is exactly the one character `c`.
pub open spec fn is_char(g: Seq<char>, c: char) -> bool {
    g == seq![c]
}

/// One grapheme cluster through the scanner.
pub open spec fn scan_step(s: ScanState, g: Seq<char>) -> ScanState {
    match s.phase {
        Phase::Outside => if is_char(g, '<') {
            ScanState { phase: Phase::TagOpening, ..s }
        } else {
            s
        },
        Phase::TagOpening => if is_char(g, '/') {
            ScanState { phase: Phase::TagClosing, ..s }
        } else if vstd::utf8::is_ascii_chars(g) {
            ScanState { phase: Phase::TagName, tag_name: g, ..s }
        } else {
            ScanState { phase: Phase::Outside, ..s }
        },
        Phase::TagName => if is_char(g, '>') {
            ScanState {
                phase: Phase::Content,
                tag_name: Seq::empty(),
                in_text: s.in_text || s.tag_name == text_tag(),
                ..s
            }
        } else if is_char(g, ' ') {
            ScanState {
                phase: Phase::Attributes,
                tag_name: Seq::empty(),
                in_text: s.in_text || s.tag_name == text_tag(),
                ..s
            }
        } else {
            ScanState { tag_name: s.tag_name + g, ..s }
        },
        Phase::Attributes => if is_char(g, '>') {
            ScanState { phase: Phase::Content, ..s }
        } else {
            s
        },
        Phase::Content => if is_char(g, '<') {
            ScanState { phase: Phase::TagOpening, ..s }
        } else if s.in_text {
            if is_char(g, '[') {
                if !s.first_bracket {
                    ScanState { first_bracket: true, ..s }
                } else if !s.second_bracket {
                    ScanState { second_bracket: true, ..s }
                } else {
                    s
                }
            } else if s.first_bracket && s.second_bracket {
                if is_char(g, '#') || is_char(g, '|') || is_char(g, ']') {
                    ScanState {
                        buf: Seq::empty(),
                        first_bracket: false,
                        second_bracket: false,
                        freqs: bump(s.freqs, s.buf),
                        ..s
                    }
                } else {
                    ScanState { buf: s.buf + g, ..s }
                }
            } else {
                s
            }
        } else {
            s
        },
        Phase::TagClosing => if is_char(g, '>') {
            ScanState { phase: Phase::Outside, in_text: false, ..s }
        } else {
            s
        },
    }
}

/// The scanner state after a whole grapheme sequence.
pub open spec fn scan(s: ScanState, gs: Seq<Seq<char>>) -> ScanState
    decreases gs.len(),
{
    if gs.len() == 0 {
        s
    } else {
        scan_step(scan(s, gs.drop_last()), gs.last())
    }
}

/// The link-target frequencies of a unit's grapheme clusters.
pub open spec fn link_freqs(gs: Seq<Seq<char>>) -> Map<Seq<char>, nat> {
    scan(init_scan(), gs).freqs
}

// ---------------------------------------------------------------------------
// Laws of the scanner
// ---------------------------------------------------------------------------

/// Frequency monotonicity: a step that commits the pending link target raises
/// that target's count by exactly one — a first occurrence yields 1 — and
/// leaves every other target's count unchanged; a step that commits nothing
/// changes no count at all.
pub proof fn lemma_frequency_monotonic(s: ScanState, g: Seq<char>)
    ensures
        ({
            let s2 = scan_step(s, g);
            if s.phase == Phase::Content && s.in_text && !is_char(g, '<') && s.first_bracket
                && s.second_bracket && (is_char(g, '#') || is_char(g, '|') || is_char(g, ']')) {
                &&& s2.freqs == bump(s.freqs, s.buf)
                &&& s2.freqs[s.buf] == if s.freqs.contains_key(s.buf) {
                    s.freqs[s.buf] + 1
                } else {
                    1nat
                }
                &&& forall|k: Seq<char>|
                    k != s.buf && s.freqs.contains_key(k) ==> s2.freqs[k] == s.freqs[k]
                &&& forall|k: Seq<char>|
                    k != s.buf ==> (s2.freqs.contains_key(k) <==> s.freqs.contains_key(k))
            } else {
                s2.freqs == s.freqs
            }
        }),
{
    if is_char(g, '#') {
        assert(g[0] == '#');
    }
    if is_char(g, '|') {
        assert(g[0] == '|');
    }
    if is_char(g, ']') {
        assert(g[0] == ']');
    }
    if is_char(g, '[') {
        assert(g[0] == '[');
    }
}

/// Non-text exclusion, one step: while the scanner stands outside a `text`
/// element's content, no grapheme changes any count.
pub proof fn lemma_non_text_excluded_step(s: ScanState, g: Seq<char>)
    requires
        !s.in_text,
    ensures
        scan_step(s, g).freqs == s.freqs,
{
}

/// Non-text exclusion: an input during which the scanner never stands inside
/// a `text` element's content — bracket sequences included — adds no counts.
pub proof fn lemma_non_text_excluded(s: ScanState, gs: Seq<Seq<char>>)
    requires
        forall|i: int| 0 <= i <= gs.len() ==> !scan(s, #[trigger] gs.take(i)).in_text,
    ensures
        scan(s, gs).freqs == s.freqs,
    decreases gs.len(),
{
    if gs.len() == 0 {
    } else {
        assert forall|i: int| 0 <= i <= gs.drop_last().len() implies !scan(
            s,
            #[trigger] gs.drop_last().take(i),
        ).in_text by {
            assert(gs.drop_last().take(i) == gs.take(i));
        }
        lemma_non_text_excluded(s, gs.drop_last());
        assert(gs.take(gs.len() - 1) == gs.drop_last());
        lemma_non_text_excluded_step(scan(s, gs.drop_last()), gs.last());
    }
}

/// Every count the scanner accumulates is bounded by the number of graphemes
/// it has consumed.
proof fn lemma_step_value_bound(s: ScanState, g: Seq<char>, n: nat)
    requires
        forall|k: Seq<char>| scan_freq_key(s, k) ==> s.freqs[k] <= n,
    ensures
        forall|k: Seq<char>| scan_freq_key(scan_step(s, g), k) ==> scan_step(s, g).freqs[k] <= n
            + 1,
{
    let s2 = scan_step(s, g);
    lemma_frequency_monotonic(s, g);
    assert forall|k: Seq<char>| scan_freq_key(s2, k) implies s2.freqs[k] <= n + 1 by {
        if s2.freqs == s.freqs {
            assert(scan_freq_key(s, k));
        } else {
            assert(s2.freqs == bump(s.freqs, s.buf));
            if k != s.buf {
                assert(scan_freq_key(s, k));
            } else if s.freqs.contains_key(s.buf) {
                assert(scan_freq_key(s, s.buf));
            }
        }
    }
}

/// Trigger shape for quantifying over accumulated counts.
pub open spec fn scan_freq_key(s: ScanState, k: Seq<char>) -> bool {
    s.freqs.contains_key(k)
}

// ---------------------------------------------------------------------------
// Executable helpers
// ---------------------------------------------------------------------------

/// Whether a grapheme cluster is exactly the one character `c`.
fn grapheme_is(g: &str, c: char) -> (r: bool)
    ensures
        r == is_char(g@, c),
{
    if g.unicode_len() == 1 {
        let c0 = g.get_char(0);
        proof {
            if c0 == c {
                assert(g@ =~= seq![c]);
            } else {
                assert(g@ != seq![c]);
            }
        }
        c0 == c
    } else {
        proof {
            assert(g@ != seq![c]);
        }
        false
    }
}

/// Whether the accumulated tag name is the `text` element's name.
fn tag_is_text(name: &String) -> (r: bool)
    ensures
        r == (name@ == text_tag()),
{
    let t = String::from_str("text");
    proof {
        reveal_strlit("text");
        assert(t@ =~= text_tag());
    }
    name.eq(&t)
}

// ---------------------------------------------------------------------------
// Link-frequency extraction
// ---------------------------------------------------------------------------

/// Count link-target references in one unit's raw markup: a single forward
/// pass over its grapheme clusters, counting only inside a `text` element's
/// content.
pub fn get_link_frequencies(data: &String) -> (r: FreqMap)
    ensures
        r.wf(),
        r.freqs() == link_freqs(grapheme_clusters(data@)),
{
    let graphemes = split_graphemes(data.as_str());
    let ghost gvs = grapheme_clusters(data@);

    let mut phase = Phase::Outside;
    let mut tag_name = String::new();
    let mut in_text = false;
    let mut first_bracket = false;
    let mut second_bracket = false;
    let mut buf = String::new();
    let mut map = FreqMap::new();

    let n = graphemes.len();
    let mut i: usize = 0;
    while i < n
        invariant
            i <= n,
            n == graphemes@.len(),
            gvs == graphemes.deep_view(),
            gvs.len() == n,
            ({
                let st = scan(init_scan(), gvs.take(i as int));
                &&& phase == st.phase
                &&& tag_name@ == st.tag_name
                &&& in_text == st.in_text
                &&& first_bracket == st.first_bracket
                &&& second_bracket == st.second_bracket
                &&& buf@ == st.buf
                &&& map.freqs() == st.freqs
                &&& map.wf()
                &&& forall|k: Seq<char>| scan_freq_key(st, k) ==> st.freqs[k] <= i
            }),
        decreases n - i,
    {
        let ghost st = scan(init_scan(), gvs.take(i as int));
        let ghost st2 = scan_step(st, gvs[i as int]);
        proof {
            assert(gvs.take(i + 1).drop_last() == gvs.take(i as int));
            assert(gvs.take(i + 1).last() == gvs[i as int]);
            assert(scan(init_scan(), gvs.take(i + 1)) == st2);
            lemma_step_value_bound(st, gvs[i as int], i as nat);
        }
        let g: &String = &graphemes[i];
        proof {
            assert(g@ == gvs[i as int]);
        }
        phase = match phase {
            Phase::Outside => {
                if grapheme_is(g.as_str(), '<') {
                    Phase::TagOpening
                } else {
                    Phase::Outside
                }
            },
            Phase::TagOpening => {
                if grapheme_is(g.as_str(), '/') {
                    Phase::TagClosing
                } else if g.as_str().is_ascii() {
                    tag_name = String::from_str(g.as_str());
                    Phase::TagName
                } else {
                    Phase::Outside
                }
            },
            Phase::TagName => {
                if grapheme_is(g.as_str(), '>') {
                    if tag_is_text(&tag_name) {
                        in_text = true;
                    }
                    tag_name = String::new();
                    Phase::Content
                } else if grapheme_is(g.as_str(), ' ') {
                    if tag_is_text(&tag_name) {
                        in_text = true;
                    }
                    tag_name = String::new();
                    Phase::Attributes
                } else {
                    tag_name.append(g.as_str());
                    Phase::TagName
                }
            },
            Phase::Attributes => {
                if grapheme_is(g.as_str(), '>') {
                    Phase::Content
                } else {
                    Phase::Attributes
                }
            },
            Phase::Content => {
                if grapheme_is(g.as_str(), '<') {
                    Phase::TagOpening
                } else {
                    if in_text {
                        if grapheme_is(g.as_str(), '[') {
                            if !first_bracket {
                                first_bracket = true;
                            } else if !second_bracket {
                                second_bracket = true;
                            }
                        } else if first_bracket && second_bracket {
                            if grapheme_is(g.as_str(), '#') || grapheme_is(g.as_str(), '|')
                                || grapheme_is(g.as_str(), ']') {
                                proof {
                                    if map.freqs().contains_key(buf@) {
                                        assert(scan_freq_key(st, buf@));
                                    }
                                }
                                map.increment(&buf);
                                buf = String::new();
                                first_bracket = false;
                                second_bracket = false;
                            } else {
                                buf.append(g.as_str());
                            }
                        }
                    }
                    Phase::Content
                }
            },
            Phase::TagClosing => {
                if grapheme_is(g.as_str(), '>') {
                    in_text = false;
                    Phase::Outside
                } else {
                    Phase::TagClosing
                }
            },
        };
        i += 1;
    }
    proof {
        assert(gvs.take(n as int) == gvs);
    }
    map
}

// ---------------------------------------------------------------------------
// Per-task processing
// ---------------------------------------------------------------------------

/// What one requested action yields for a unit: link frequencies for
/// `LinkFrequencies`, an empty placeholder for every other action.
pub open spec fn action_outcome_matches(e: (Action, ResultTypeV), a: Action, data: Seq<char>) -> bool {
    &&& e.0 == a
    &&& match e.1 {
        ResultTypeV::LinkFrequencies(entries) => {
            &&& freqs_of_entries(entries) == if a == Action::LinkFrequencies {
                link_freqs(grapheme_clusters(data))
            } else {
                Map::<Seq<char>, nat>::empty()
            }
            &&& forall|i: int, j: int|
                0 <= i < j < entries.len() ==> (#[trigger] entries[i]).0 != (
                #[trigger] entries[j]).0
        },
    }
}

/// A per-unit report answers exactly the unit's requested actions, in order.
pub open spec fn action_result_matches(ar: Seq<(Action, ResultTypeV)>, t: TaskV) -> bool {
    &&& ar.len() == t.actions.len()
    &&& forall|i: int|
        0 <= i < ar.len() ==> action_outcome_matches(#[trigger] ar[i], t.actions[i], t.data)
}

/// Run every requested action against one unit and report the unit's id with
/// the per-action results.
pub fn process_actions(task: &Task) -> (r: (u32, ActionResult))
    requires
        task.wf(),
    ensures
        r.0 == task@.id,
        r.1.wf(),
        action_result_matches(r.1@, task@),
{
    let mut out = ActionResult::new();
    let n = task.actions.items.len();
    let mut i: usize = 0;
    while i < n
        invariant
            i <= n,
            n == task.actions@.len(),
            task.wf(),
            out@.len() == i,
            out.wf(),
            forall|j: int|
                0 <= j < i ==> action_outcome_matches(#[trigger] out@[j], task@.actions[j], task@.data),
            forall|j: int| 0 <= j < i ==> (#[trigger] out@[j]).0 == task.actions@[j],
        decreases n - i,
    {
        let action = task.actions.items[i];
        let freqs = match action {
            Action::LinkFrequencies => get_link_frequencies(&task.data),
            _ => FreqMap::new(),
        };
        let ghost prev = out@;
        let rt = ResultType::LinkFrequencies(freqs);
        let ghost rtv = rt@;
        out.entries.push((action, rt));
        proof {
            assert(out@ =~= prev.push((action, rtv)));
        }
        i += 1;
    }
    (task.id, out)
}

} // verus!
