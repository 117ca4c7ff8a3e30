//! The wire protocol codec: a tagged, big-endian, length-delimited encoding
//! of `Message`, and the 4-byte length-prefixed frame around it.
//!
//! `enc_*` spec functions define the byte form of each component; `dec_*`
//! spec functions read one component at a position and give the next
//! position. The executable encoder and decoder are proved against them, and
//! the round-trip lemmas show that decoding an encoding yields the original
//! value.

use vstd::prelude::*;
use vstd::utf8::{encode_utf8, decode_utf8, valid_utf8, encode_utf8_valid_utf8,
    encode_utf8_decode_utf8};

use crate::messages::{Action, ActionResult, Done, FreqMap, Message, MessageV, Ready, ResultMap,
    ResultType, ResultTypeV, Task, TaskV, DoneV, ActionSet};

verus! {

// ---------------------------------------------------------------------------
// Unsigned integers, big-endian
// ---------------------------------------------------------------------------

pub open spec fn enc_u8(x: u8) -> Seq<u8> {
    seq![x]
}

pub open spec fn enc_u32(x: u32) -> Seq<u8> {
    seq![(x >> 24) as u8, (x >> 16) as u8, (x >> 8) as u8, x as u8]
}

pub open spec fn enc_u64(x: u64) -> Seq<u8> {
    seq![
        (x >> 56) as u8,
        (x >> 48) as u8,
        (x >> 40) as u8,
        (x >> 32) as u8,
        (x >> 24) as u8,
        (x >> 16) as u8,
        (x >> 8) as u8,
        x as u8,
    ]
}

pub open spec fn u32_from_be(b0: u8, b1: u8, b2: u8, b3: u8) -> u32 {
    ((b0 as u32) << 24) | ((b1 as u32) << 16) | ((b2 as u32) << 8) | (b3 as u32)
}

pub open spec fn u64_from_be(b: Seq<u8>) -> u64
    recommends
        b.len() == 8,
{
    ((b[0] as u64) << 56) | ((b[1] as u64) << 48) | ((b[2] as u64) << 40) | ((b[3] as u64) << 32)
        | ((b[4] as u64) << 24) | ((b[5] as u64) << 16) | ((b[6] as u64) << 8) | (b[7] as u64)
}

pub open spec fn dec_u8(b: Seq<u8>, i: int) -> Option<(u8, int)> {
    if 0 <= i && i + 1 <= b.len() {
        Some((b[i], i + 1))
    } else {
        None
    }
}

pub open spec fn dec_u32(b: Seq<u8>, i: int) -> Option<(u32, int)> {
    if 0 <= i && i + 4 <= b.len() {
        Some((u32_from_be(b[i], b[i + 1], b[i + 2], b[i + 3]), i + 4))
    } else {
        None
    }
}

pub open spec fn dec_u64(b: Seq<u8>, i: int) -> Option<(u64, int)> {
    if 0 <= i && i + 8 <= b.len() {
        Some((u64_from_be(b.subrange(i, i + 8)), i + 8))
    } else {
        None
    }
}

proof fn lemma_u32_be_round(x: u32)
    ensures
        u32_from_be((x >> 24) as u8, (x >> 16) as u8, (x >> 8) as u8, x as u8) == x,
{
    assert(((((x >> 24) as u8) as u32) << 24) | ((((x >> 16) as u8) as u32) << 16) | ((((x >> 8)
        as u8) as u32) << 8) | ((x as u8) as u32) == x) by (bit_vector);
}

proof fn lemma_u64_be_round(x: u64)
    ensures
        u64_from_be(enc_u64(x)) == x,
{
    assert(((((x >> 56) as u8) as u64) << 56) | ((((x >> 48) as u8) as u64) << 48) | ((((x >> 40)
        as u8) as u64) << 40) | ((((x >> 32) as u8) as u64) << 32) | ((((x >> 24) as u8) as u64)
        << 24) | ((((x >> 16) as u8) as u64) << 16) | ((((x >> 8) as u8) as u64) << 8) | ((x
        as u8) as u64) == x) by (bit_vector);
    assert(enc_u64(x).subrange(0, 8) =~= enc_u64(x));
}

/// Reading a sub-sequence that was written as two parts gives back the parts.
proof fn lemma_split_at(b: Seq<u8>, i: int, e1: Seq<u8>, e2: Seq<u8>)
    requires
        0 <= i,
        i + e1.len() + e2.len() <= b.len(),
        b.subrange(i, i + e1.len() + e2.len()) == e1 + e2,
    ensures
        b.subrange(i, i + e1.len()) == e1,
        b.subrange(i + e1.len(), i + e1.len() + e2.len()) == e2,
{
    let whole = b.subrange(i, i + e1.len() + e2.len());
    assert forall|k: int| 0 <= k < e1.len() implies b[i + k] == e1[k] by {
        assert(whole[k] == (e1 + e2)[k]);
    }
    assert forall|k: int| 0 <= k < e2.len() implies b[i + e1.len() + k] == e2[k] by {
        assert(whole[e1.len() + k] == (e1 + e2)[e1.len() + k]);
    }
    assert(b.subrange(i, i + e1.len()) =~= e1);
    assert(b.subrange(i + e1.len(), i + e1.len() + e2.len()) =~= e2);
}

proof fn lemma_dec_u8(b: Seq<u8>, i: int, x: u8)
    requires
        0 <= i,
        i + 1 <= b.len(),
        b.subrange(i, i + 1) == enc_u8(x),
    ensures
        dec_u8(b, i) == Some((x, i + 1)),
{
    assert(b[i] == b.subrange(i, i + 1)[0]);
}

proof fn lemma_dec_u32(b: Seq<u8>, i: int, x: u32)
    requires
        0 <= i,
        i + 4 <= b.len(),
        b.subrange(i, i + 4) == enc_u32(x),
    ensures
        dec_u32(b, i) == Some((x, i + 4)),
{
    let e = b.subrange(i, i + 4);
    assert(b[i] == e[0] && b[i + 1] == e[1] && b[i + 2] == e[2] && b[i + 3] == e[3]);
    lemma_u32_be_round(x);
}

proof fn lemma_dec_u64(b: Seq<u8>, i: int, x: u64)
    requires
        0 <= i,
        i + 8 <= b.len(),
        b.subrange(i, i + 8) == enc_u64(x),
    ensures
        dec_u64(b, i) == Some((x, i + 8)),
{
    lemma_u64_be_round(x);
}

// ---------------------------------------------------------------------------
// Strings: a byte count followed by the UTF-8 encoding
// ---------------------------------------------------------------------------

/// The string's UTF-8 form fits the 8-byte length prefix. Every string held
/// in memory satisfies this.
pub open spec fn str_ok(s: Seq<char>) -> bool {
    encode_utf8(s).len() <= u64::MAX
}

pub open spec fn enc_str(s: Seq<char>) -> Seq<u8> {
    enc_u64(encode_utf8(s).len() as u64) + encode_utf8(s)
}

pub open spec fn dec_str(b: Seq<u8>, i: int) -> Option<(Seq<char>, int)> {
    match dec_u64(b, i) {
        Some((n, j)) => if j + n <= b.len() {
            let chunk = b.subrange(j, j + n);
            if valid_utf8(chunk) {
                Some((decode_utf8(chunk), j + n))
            } else {
                None
            }
        } else {
            None
        },
        None => None,
    }
}

proof fn lemma_dec_str(b: Seq<u8>, i: int, s: Seq<char>)
    requires
        0 <= i,
        str_ok(s),
        i + enc_str(s).len() <= b.len(),
        b.subrange(i, i + enc_str(s).len()) == enc_str(s),
    ensures
        dec_str(b, i) == Some((s, i + enc_str(s).len())),
{
    let utf = encode_utf8(s);
    let n = utf.len() as u64;
    lemma_split_at(b, i, enc_u64(n), utf);
    lemma_dec_u64(b, i, n);
    let j = i + 8;
    assert(b.subrange(j, j + n) == utf);
    encode_utf8_valid_utf8(s);
    encode_utf8_decode_utf8(s);
}

// ---------------------------------------------------------------------------
// Actions
// ---------------------------------------------------------------------------

pub open spec fn action_tag(a: Action) -> u8 {
    match a {
        Action::LinkFrequencies => 0,
        Action::LinkGraph => 1,
        Action::KeywordExtraction => 2,
        Action::ArticleSummarization => 3,
    }
}

pub open spec fn action_from_tag(t: u8) -> Option<Action> {
    if t == 0 {
        Some(Action::LinkFrequencies)
    } else if t == 1 {
        Some(Action::LinkGraph)
    } else if t == 2 {
        Some(Action::KeywordExtraction)
    } else if t == 3 {
        Some(Action::ArticleSummarization)
    } else {
        None
    }
}

pub open spec fn enc_action(a: Action) -> Seq<u8> {
    enc_u8(action_tag(a))
}

pub open spec fn dec_action(b: Seq<u8>, i: int) -> Option<(Action, int)> {
    match dec_u8(b, i) {
        Some((t, j)) => match action_from_tag(t) {
            Some(a) => Some((a, j)),
            None => None,
        },
        None => None,
    }
}

proof fn lemma_dec_action(b: Seq<u8>, i: int, a: Action)
    requires
        0 <= i,
        i + 1 <= b.len(),
        b.subrange(i, i + 1) == enc_action(a),
    ensures
        dec_action(b, i) == Some((a, i + 1)),
{
    lemma_dec_u8(b, i, action_tag(a));
}

/// A list of actions: a count followed by one tag each.
pub open spec fn enc_action_items(s: Seq<Action>) -> Seq<u8>
    decreases s.len(),
{
    if s.len() == 0 {
        Seq::empty()
    } else {
        enc_action(s.first()) + enc_action_items(s.drop_first())
    }
}

pub open spec fn enc_actions(s: Seq<Action>) -> Seq<u8>
    recommends
        s.len() <= u64::MAX,
{
    enc_u64(s.len() as u64) + enc_action_items(s)
}

pub open spec fn dec_action_items(b: Seq<u8>, i: int, n: nat) -> Option<(Seq<Action>, int)>
    decreases n,
{
    if n == 0 {
        Some((Seq::empty(), i))
    } else {
        match dec_action(b, i) {
            Some((a, j)) => match dec_action_items(b, j, (n - 1) as nat) {
                Some((rest, k)) => Some((seq![a] + rest, k)),
                None => None,
            },
            None => None,
        }
    }
}

pub open spec fn dec_actions(b: Seq<u8>, i: int) -> Option<(Seq<Action>, int)> {
    match dec_u64(b, i) {
        Some((n, j)) => dec_action_items(b, j, n as nat),
        None => None,
    }
}

proof fn lemma_dec_action_items(b: Seq<u8>, i: int, s: Seq<Action>)
    requires
        0 <= i,
        i + enc_action_items(s).len() <= b.len(),
        b.subrange(i, i + enc_action_items(s).len()) == enc_action_items(s),
    ensures
        dec_action_items(b, i, s.len()) == Some((s, i + enc_action_items(s).len())),
    decreases s.len(),
{
    if s.len() == 0 {
        assert(s =~= Seq::<Action>::empty());
    } else {
        let e1 = enc_action(s.first());
        let e2 = enc_action_items(s.drop_first());
        lemma_split_at(b, i, e1, e2);
        lemma_dec_action(b, i, s.first());
        lemma_dec_action_items(b, i + 1, s.drop_first());
        assert(s =~= seq![s.first()] + s.drop_first());
    }
}

proof fn lemma_dec_actions(b: Seq<u8>, i: int, s: Seq<Action>)
    requires
        0 <= i,
        s.len() <= u64::MAX,
        i + enc_actions(s).len() <= b.len(),
        b.subrange(i, i + enc_actions(s).len()) == enc_actions(s),
    ensures
        dec_actions(b, i) == Some((s, i + enc_actions(s).len())),
{
    lemma_split_at(b, i, enc_u64(s.len() as u64), enc_action_items(s));
    lemma_dec_u64(b, i, s.len() as u64);
    lemma_dec_action_items(b, i + 8, s);
}

// ---------------------------------------------------------------------------
// Frequency maps: a count, then per entry a string key and a 64-bit count
// ---------------------------------------------------------------------------

pub open spec fn freq_ok(s: Seq<(Seq<char>, u64)>) -> bool {
    s.len() <= u64::MAX && forall|i: int| 0 <= i < s.len() ==> str_ok(#[trigger] s[i].0)
}

pub open spec fn enc_freq_entries(s: Seq<(Seq<char>, u64)>) -> Seq<u8>
    decreases s.len(),
{
    if s.len() == 0 {
        Seq::empty()
    } else {
        enc_str(s.first().0) + enc_u64(s.first().1) + enc_freq_entries(s.drop_first())
    }
}

pub open spec fn enc_freq(s: Seq<(Seq<char>, u64)>) -> Seq<u8>
    recommends
        freq_ok(s),
{
    enc_u64(s.len() as u64) + enc_freq_entries(s)
}

pub open spec fn dec_freq_entries(b: Seq<u8>, i: int, n: nat) -> Option<
    (Seq<(Seq<char>, u64)>, int),
>
    decreases n,
{
    if n == 0 {
        Some((Seq::empty(), i))
    } else {
        match dec_str(b, i) {
            Some((k, j)) => match dec_u64(b, j) {
                Some((v, j2)) => match dec_freq_entries(b, j2, (n - 1) as nat) {
                    Some((rest, j3)) => Some((seq![(k, v)] + rest, j3)),
                    None => None,
                },
                None => None,
            },
            None => None,
        }
    }
}

pub open spec fn dec_freq(b: Seq<u8>, i: int) -> Option<(Seq<(Seq<char>, u64)>, int)> {
    match dec_u64(b, i) {
        Some((n, j)) => dec_freq_entries(b, j, n as nat),
        None => None,
    }
}

proof fn lemma_dec_freq_entries(b: Seq<u8>, i: int, s: Seq<(Seq<char>, u64)>)
    requires
        0 <= i,
        forall|k: int| 0 <= k < s.len() ==> str_ok(#[trigger] s[k].0),
        i + enc_freq_entries(s).len() <= b.len(),
        b.subrange(i, i + enc_freq_entries(s).len()) == enc_freq_entries(s),
    ensures
        dec_freq_entries(b, i, s.len()) == Some((s, i + enc_freq_entries(s).len())),
    decreases s.len(),
{
    if s.len() == 0 {
        assert(s =~= Seq::<(Seq<char>, u64)>::empty());
    } else {
        let e1 = enc_str(s.first().0);
        let e2 = enc_u64(s.first().1);
        let e3 = enc_freq_entries(s.drop_first());
        assert(b.subrange(i, i + (e1.len() + e2.len()) + e3.len()) == (e1 + e2) + e3);
        lemma_split_at(b, i, e1 + e2, e3);
        lemma_split_at(b, i, e1, e2);
        lemma_dec_str(b, i, s.first().0);
        let j = i + e1.len();
        lemma_dec_u64(b, j, s.first().1);
        let j2 = j + 8;
        lemma_dec_freq_entries(b, j2, s.drop_first());
        assert(s =~= seq![s.first()] + s.drop_first());
    }
}

proof fn lemma_dec_freq(b: Seq<u8>, i: int, s: Seq<(Seq<char>, u64)>)
    requires
        0 <= i,
        freq_ok(s),
        i + enc_freq(s).len() <= b.len(),
        b.subrange(i, i + enc_freq(s).len()) == enc_freq(s),
    ensures
        dec_freq(b, i) == Some((s, i + enc_freq(s).len())),
{
    lemma_split_at(b, i, enc_u64(s.len() as u64), enc_freq_entries(s));
    lemma_dec_u64(b, i, s.len() as u64);
    lemma_dec_freq_entries(b, i + 8, s);
}

// ---------------------------------------------------------------------------
// Result values, per-action results, and the Done report
// ---------------------------------------------------------------------------

pub open spec fn result_type_ok(r: ResultTypeV) -> bool {
    match r {
        ResultTypeV::LinkFrequencies(m) => freq_ok(m),
    }
}

pub open spec fn enc_result_type(r: ResultTypeV) -> Seq<u8> {
    match r {
        ResultTypeV::LinkFrequencies(m) => enc_u8(0) + enc_freq(m),
    }
}

pub open spec fn dec_result_type(b: Seq<u8>, i: int) -> Option<(ResultTypeV, int)> {
    match dec_u8(b, i) {
        Some((t, j)) => if t == 0 {
            match dec_freq(b, j) {
                Some((m, j2)) => Some((ResultTypeV::LinkFrequencies(m), j2)),
                None => None,
            }
        } else {
            None
        },
        None => None,
    }
}

proof fn lemma_dec_result_type(b: Seq<u8>, i: int, r: ResultTypeV)
    requires
        0 <= i,
        result_type_ok(r),
        i + enc_result_type(r).len() <= b.len(),
        b.subrange(i, i + enc_result_type(r).len()) == enc_result_type(r),
    ensures
        dec_result_type(b, i) == Some((r, i + enc_result_type(r).len())),
{
    match r {
        ResultTypeV::LinkFrequencies(m) => {
            lemma_split_at(b, i, enc_u8(0), enc_freq(m));
            lemma_dec_u8(b, i, 0);
            lemma_dec_freq(b, i + 1, m);
        },
    }
}

pub open spec fn action_result_ok(s: Seq<(Action, ResultTypeV)>) -> bool {
    s.len() <= u64::MAX && forall|i: int| 0 <= i < s.len() ==> result_type_ok(#[trigger] s[i].1)
}

pub open spec fn enc_action_result_entries(s: Seq<(Action, ResultTypeV)>) -> Seq<u8>
    decreases s.len(),
{
    if s.len() == 0 {
        Seq::empty()
    } else {
        enc_action(s.first().0) + enc_result_type(s.first().1) + enc_action_result_entries(
            s.drop_first(),
        )
    }
}

pub open spec fn enc_action_result(s: Seq<(Action, ResultTypeV)>) -> Seq<u8>
    recommends
        action_result_ok(s),
{
    enc_u64(s.len() as u64) + enc_action_result_entries(s)
}

pub open spec fn dec_action_result_entries(b: Seq<u8>, i: int, n: nat) -> Option<
    (Seq<(Action, ResultTypeV)>, int),
>
    decreases n,
{
    if n == 0 {
        Some((Seq::empty(), i))
    } else {
        match dec_action(b, i) {
            Some((a, j)) => match dec_result_type(b, j) {
                Some((r, j2)) => match dec_action_result_entries(b, j2, (n - 1) as nat) {
                    Some((rest, j3)) => Some((seq![(a, r)] + rest, j3)),
                    None => None,
                },
                None => None,
            },
            None => None,
        }
    }
}

pub open spec fn dec_action_result(b: Seq<u8>, i: int) -> Option<(Seq<(Action, ResultTypeV)>, int)> {
    match dec_u64(b, i) {
        Some((n, j)) => dec_action_result_entries(b, j, n as nat),
        None => None,
    }
}

proof fn lemma_dec_action_result_entries(b: Seq<u8>, i: int, s: Seq<(Action, ResultTypeV)>)
    requires
        0 <= i,
        forall|k: int| 0 <= k < s.len() ==> result_type_ok(#[trigger] s[k].1),
        i + enc_action_result_entries(s).len() <= b.len(),
        b.subrange(i, i + enc_action_result_entries(s).len()) == enc_action_result_entries(s),
    ensures
        dec_action_result_entries(b, i, s.len()) == Some(
            (s, i + enc_action_result_entries(s).len()),
        ),
    decreases s.len(),
{
    if s.len() == 0 {
        assert(s =~= Seq::<(Action, ResultTypeV)>::empty());
    } else {
        let e1 = enc_action(s.first().0);
        let e2 = enc_result_type(s.first().1);
        let e3 = enc_action_result_entries(s.drop_first());
        assert(b.subrange(i, i + (e1.len() + e2.len()) + e3.len()) == (e1 + e2) + e3);
        lemma_split_at(b, i, e1 + e2, e3);
        lemma_split_at(b, i, e1, e2);
        lemma_dec_action(b, i, s.first().0);
        let j = i + e1.len();
        lemma_dec_result_type(b, j, s.first().1);
        let j2 = j + e2.len();
        lemma_dec_action_result_entries(b, j2, s.drop_first());
        assert(s =~= seq![s.first()] + s.drop_first());
    }
}

proof fn lemma_dec_action_result(b: Seq<u8>, i: int, s: Seq<(Action, ResultTypeV)>)
    requires
        0 <= i,
        action_result_ok(s),
        i + enc_action_result(s).len() <= b.len(),
        b.subrange(i, i + enc_action_result(s).len()) == enc_action_result(s),
    ensures
        dec_action_result(b, i) == Some((s, i + enc_action_result(s).len())),
{
    lemma_split_at(b, i, enc_u64(s.len() as u64), enc_action_result_entries(s));
    lemma_dec_u64(b, i, s.len() as u64);
    lemma_dec_action_result_entries(b, i + 8, s);
}

pub open spec fn done_ok(d: DoneV) -> bool {
    d.results.len() <= u64::MAX && forall|i: int|
        0 <= i < d.results.len() ==> action_result_ok(#[trigger] d.results[i].1)
}

pub open spec fn enc_done_entries(s: Seq<(u32, Seq<(Action, ResultTypeV)>)>) -> Seq<u8>
    decreases s.len(),
{
    if s.len() == 0 {
        Seq::empty()
    } else {
        enc_u32(s.first().0) + enc_action_result(s.first().1) + enc_done_entries(s.drop_first())
    }
}

pub open spec fn enc_done(d: DoneV) -> Seq<u8>
    recommends
        done_ok(d),
{
    enc_u64(d.results.len() as u64) + enc_done_entries(d.results)
}

pub open spec fn dec_done_entries(b: Seq<u8>, i: int, n: nat) -> Option<
    (Seq<(u32, Seq<(Action, ResultTypeV)>)>, int),
>
    decreases n,
{
    if n == 0 {
        Some((Seq::empty(), i))
    } else {
        match dec_u32(b, i) {
            Some((id, j)) => match dec_action_result(b, j) {
                Some((r, j2)) => match dec_done_entries(b, j2, (n - 1) as nat) {
                    Some((rest, j3)) => Some((seq![(id, r)] + rest, j3)),
                    None => None,
                },
                None => None,
            },
            None => None,
        }
    }
}

pub open spec fn dec_done(b: Seq<u8>, i: int) -> Option<(DoneV, int)> {
    match dec_u64(b, i) {
        Some((n, j)) => match dec_done_entries(b, j, n as nat) {
            Some((rs, j2)) => Some((DoneV { results: rs }, j2)),
            None => None,
        },
        None => None,
    }
}

proof fn lemma_dec_done_entries(b: Seq<u8>, i: int, s: Seq<(u32, Seq<(Action, ResultTypeV)>)>)
    requires
        0 <= i,
        forall|k: int| 0 <= k < s.len() ==> action_result_ok(#[trigger] s[k].1),
        i + enc_done_entries(s).len() <= b.len(),
        b.subrange(i, i + enc_done_entries(s).len()) == enc_done_entries(s),
    ensures
        dec_done_entries(b, i, s.len()) == Some((s, i + enc_done_entries(s).len())),
    decreases s.len(),
{
    if s.len() == 0 {
        assert(s =~= Seq::<(u32, Seq<(Action, ResultTypeV)>)>::empty());
    } else {
        let e1 = enc_u32(s.first().0);
        let e2 = enc_action_result(s.first().1);
        let e3 = enc_done_entries(s.drop_first());
        assert(b.subrange(i, i + (e1.len() + e2.len()) + e3.len()) == (e1 + e2) + e3);
        lemma_split_at(b, i, e1 + e2, e3);
        lemma_split_at(b, i, e1, e2);
        lemma_dec_u32(b, i, s.first().0);
        let j = i + 4;
        lemma_dec_action_result(b, j, s.first().1);
        let j2 = j + e2.len();
        lemma_dec_done_entries(b, j2, s.drop_first());
        assert(s =~= seq![s.first()] + s.drop_first());
    }
}

proof fn lemma_dec_done(b: Seq<u8>, i: int, d: DoneV)
    requires
        0 <= i,
        done_ok(d),
        i + enc_done(d).len() <= b.len(),
        b.subrange(i, i + enc_done(d).len()) == enc_done(d),
    ensures
        dec_done(b, i) == Some((d, i + enc_done(d).len())),
{
    lemma_split_at(b, i, enc_u64(d.results.len() as u64), enc_done_entries(d.results));
    lemma_dec_u64(b, i, d.results.len() as u64);
    lemma_dec_done_entries(b, i + 8, d.results);
}

// ---------------------------------------------------------------------------
// Tasks and messages
// ---------------------------------------------------------------------------

pub open spec fn task_ok(t: TaskV) -> bool {
    str_ok(t.data) && t.actions.len() <= u64::MAX
}

pub open spec fn enc_task(t: TaskV) -> Seq<u8>
    recommends
        task_ok(t),
{
    enc_u32(t.id) + enc_str(t.data) + enc_actions(t.actions)
}

pub open spec fn dec_task(b: Seq<u8>, i: int) -> Option<(TaskV, int)> {
    match dec_u32(b, i) {
        Some((id, j)) => match dec_str(b, j) {
            Some((data, j2)) => match dec_actions(b, j2) {
                Some((actions, j3)) => Some((TaskV { id, data, actions }, j3)),
                None => None,
            },
            None => None,
        },
        None => None,
    }
}

proof fn lemma_dec_task(b: Seq<u8>, i: int, t: TaskV)
    requires
        0 <= i,
        task_ok(t),
        i + enc_task(t).len() <= b.len(),
        b.subrange(i, i + enc_task(t).len()) == enc_task(t),
    ensures
        dec_task(b, i) == Some((t, i + enc_task(t).len())),
{
    let e1 = enc_u32(t.id);
    let e2 = enc_str(t.data);
    let e3 = enc_actions(t.actions);
    assert(b.subrange(i, i + (e1.len() + e2.len()) + e3.len()) == (e1 + e2) + e3);
    lemma_split_at(b, i, e1 + e2, e3);
    lemma_split_at(b, i, e1, e2);
    lemma_dec_u32(b, i, t.id);
    lemma_dec_str(b, i + 4, t.data);
    lemma_dec_actions(b, i + 4 + e2.len(), t.actions);
}

/// A message the executable codec can represent: every length fits its
/// length prefix.
pub open spec fn message_ok(m: MessageV) -> bool {
    match m {
        MessageV::Ready(_) => true,
        MessageV::Task(t) => task_ok(t),
        MessageV::Done(d) => done_ok(d),
    }
}

pub open spec fn enc_message(m: MessageV) -> Seq<u8>
    recommends
        message_ok(m),
{
    match m {
        MessageV::Ready(c) => enc_u8(0) + enc_u8(c),
        MessageV::Task(t) => enc_u8(1) + enc_task(t),
        MessageV::Done(d) => enc_u8(2) + enc_done(d),
    }
}

pub open spec fn dec_message(b: Seq<u8>, i: int) -> Option<(MessageV, int)> {
    match dec_u8(b, i) {
        Some((t, j)) => if t == 0 {
            match dec_u8(b, j) {
                Some((c, j2)) => Some((MessageV::Ready(c), j2)),
                None => None,
            }
        } else if t == 1 {
            match dec_task(b, j) {
                Some((tk, j2)) => Some((MessageV::Task(tk), j2)),
                None => None,
            }
        } else if t == 2 {
            match dec_done(b, j) {
                Some((d, j2)) => Some((MessageV::Done(d), j2)),
                None => None,
            }
        } else {
            None
        },
        None => None,
    }
}

/// A whole buffer decodes to a message exactly when it is one encoded
/// message with nothing after it.
pub open spec fn message_decoded(b: Seq<u8>) -> Option<MessageV> {
    match dec_message(b, 0) {
        Some((m, j)) => if j == b.len() {
            Some(m)
        } else {
            None
        },
        None => None,
    }
}

/// Decoding an encoded message yields the original message.
#[verifier::rlimit(60)]
pub proof fn lemma_message_round_trip(m: MessageV)
    requires
        message_ok(m),
    ensures
        message_decoded(enc_message(m)) == Some(m),
{
    let b = enc_message(m);
    assert(b.subrange(0, b.len() as int) =~= b);
    match m {
        MessageV::Ready(c) => {
            lemma_split_at(b, 0, enc_u8(0), enc_u8(c));
            lemma_dec_u8(b, 0, 0);
            lemma_dec_u8(b, 1, c);
        },
        MessageV::Task(t) => {
            lemma_split_at(b, 0, enc_u8(1), enc_task(t));
            lemma_dec_u8(b, 0, 1);
            lemma_dec_task(b, 1, t);
        },
        MessageV::Done(d) => {
            lemma_split_at(b, 0, enc_u8(2), enc_done(d));
            lemma_dec_u8(b, 0, 2);
            lemma_dec_done(b, 1, d);
        },
    }
}

// ---------------------------------------------------------------------------
// Framing: a 4-byte big-endian length prefix around a payload
// ---------------------------------------------------------------------------

pub open spec fn enc_frame(p: Seq<u8>) -> Seq<u8>
    recommends
        p.len() <= u32::MAX,
{
    enc_u32(p.len() as u32) + p
}

/// A whole frame: the declared length must account for every byte after the
/// prefix. A buffer shorter than its prefix declares is not a frame.
pub open spec fn dec_frame(b: Seq<u8>) -> Option<Seq<u8>> {
    match dec_u32(b, 0) {
        Some((n, j)) => if b.len() == j + n {
            Some(b.subrange(j, j + n))
        } else {
            None
        },
        None => None,
    }
}

/// Deframing a framed payload gives the payload back.
pub proof fn lemma_frame_round_trip(p: Seq<u8>)
    requires
        p.len() <= u32::MAX,
    ensures
        dec_frame(enc_frame(p)) == Some(p),
{
    let b = enc_frame(p);
    let n = p.len() as u32;
    assert(b.subrange(0, 4) =~= enc_u32(n));
    lemma_dec_u32(b, 0, n);
    assert(b.subrange(4, 4 + n) =~= p);
}

/// Encoding a message, framing it, deframing it and decoding it gives the
/// original message back.
pub proof fn lemma_codec_round_trip(m: MessageV)
    requires
        message_ok(m),
        enc_message(m).len() <= u32::MAX,
    ensures
        dec_frame(enc_frame(enc_message(m))) == Some(enc_message(m)),
        message_decoded(enc_message(m)) == Some(m),
{
    lemma_frame_round_trip(enc_message(m));
    lemma_message_round_trip(m);
}

// ---------------------------------------------------------------------------
// Appending to an entry-list encoding
// ---------------------------------------------------------------------------

proof fn lemma_enc_action_items_append(s1: Seq<Action>, s2: Seq<Action>)
    ensures
        enc_action_items(s1 + s2) == enc_action_items(s1) + enc_action_items(s2),
    decreases s1.len(),
{
    if s1.len() == 0 {
        assert(s1 + s2 =~= s2);
        assert(enc_action_items(s1) + enc_action_items(s2) =~= enc_action_items(s2));
    } else {
        assert((s1 + s2).drop_first() =~= s1.drop_first() + s2);
        lemma_enc_action_items_append(s1.drop_first(), s2);
        assert(enc_action_items(s1 + s2) =~= enc_action_items(s1) + enc_action_items(s2));
    }
}

proof fn lemma_enc_action_items_push(s: Seq<Action>, i: int)
    requires
        0 <= i < s.len(),
    ensures
        enc_action_items(s.take(i + 1)) == enc_action_items(s.take(i)) + enc_action(s[i]),
{
    assert(s.take(i + 1) =~= s.take(i) + seq![s[i]]);
    lemma_enc_action_items_append(s.take(i), seq![s[i]]);
    assert(seq![s[i]].drop_first() =~= Seq::<Action>::empty());
    assert(enc_action_items(Seq::<Action>::empty()) == Seq::<u8>::empty());
    assert(enc_action_items(seq![s[i]]) =~= enc_action(s[i]));
}

proof fn lemma_enc_freq_entries_append(s1: Seq<(Seq<char>, u64)>, s2: Seq<(Seq<char>, u64)>)
    ensures
        enc_freq_entries(s1 + s2) == enc_freq_entries(s1) + enc_freq_entries(s2),
    decreases s1.len(),
{
    if s1.len() == 0 {
        assert(s1 + s2 =~= s2);
        assert(enc_freq_entries(s1) + enc_freq_entries(s2) =~= enc_freq_entries(s2));
    } else {
        assert((s1 + s2).drop_first() =~= s1.drop_first() + s2);
        lemma_enc_freq_entries_append(s1.drop_first(), s2);
        assert(enc_freq_entries(s1 + s2) =~= enc_freq_entries(s1) + enc_freq_entries(s2));
    }
}

proof fn lemma_enc_freq_entries_push(s: Seq<(Seq<char>, u64)>, i: int)
    requires
        0 <= i < s.len(),
    ensures
        enc_freq_entries(s.take(i + 1)) == enc_freq_entries(s.take(i)) + (enc_str(s[i].0)
            + enc_u64(s[i].1)),
{
    assert(s.take(i + 1) =~= s.take(i) + seq![s[i]]);
    lemma_enc_freq_entries_append(s.take(i), seq![s[i]]);
    assert(seq![s[i]].drop_first() =~= Seq::<(Seq<char>, u64)>::empty());
    assert(enc_freq_entries(Seq::<(Seq<char>, u64)>::empty()) == Seq::<u8>::empty());
    assert(enc_freq_entries(seq![s[i]]) =~= enc_str(s[i].0) + enc_u64(s[i].1));
}

proof fn lemma_enc_action_result_entries_append(
    s1: Seq<(Action, ResultTypeV)>,
    s2: Seq<(Action, ResultTypeV)>,
)
    ensures
        enc_action_result_entries(s1 + s2) == enc_action_result_entries(s1)
            + enc_action_result_entries(s2),
    decreases s1.len(),
{
    if s1.len() == 0 {
        assert(s1 + s2 =~= s2);
        assert(enc_action_result_entries(s1) + enc_action_result_entries(s2)
            =~= enc_action_result_entries(s2));
    } else {
        assert((s1 + s2).drop_first() =~= s1.drop_first() + s2);
        lemma_enc_action_result_entries_append(s1.drop_first(), s2);
        assert(enc_action_result_entries(s1 + s2) =~= enc_action_result_entries(s1)
            + enc_action_result_entries(s2));
    }
}

proof fn lemma_enc_action_result_entries_push(s: Seq<(Action, ResultTypeV)>, i: int)
    requires
        0 <= i < s.len(),
    ensures
        enc_action_result_entries(s.take(i + 1)) == enc_action_result_entries(s.take(i)) + (
        enc_action(s[i].0) + enc_result_type(s[i].1)),
{
    assert(s.take(i + 1) =~= s.take(i) + seq![s[i]]);
    lemma_enc_action_result_entries_append(s.take(i), seq![s[i]]);
    assert(seq![s[i]].drop_first() =~= Seq::<(Action, ResultTypeV)>::empty());
    assert(enc_action_result_entries(Seq::<(Action, ResultTypeV)>::empty()) == Seq::<u8>::empty());
    assert(enc_action_result_entries(seq![s[i]]) =~= enc_action(s[i].0) + enc_result_type(
        s[i].1,
    ));
}

proof fn lemma_enc_done_entries_append(
    s1: Seq<(u32, Seq<(Action, ResultTypeV)>)>,
    s2: Seq<(u32, Seq<(Action, ResultTypeV)>)>,
)
    ensures
        enc_done_entries(s1 + s2) == enc_done_entries(s1) + enc_done_entries(s2),
    decreases s1.len(),
{
    if s1.len() == 0 {
        assert(s1 + s2 =~= s2);
        assert(enc_done_entries(s1) + enc_done_entries(s2) =~= enc_done_entries(s2));
    } else {
        assert((s1 + s2).drop_first() =~= s1.drop_first() + s2);
        lemma_enc_done_entries_append(s1.drop_first(), s2);
        assert(enc_done_entries(s1 + s2) =~= enc_done_entries(s1) + enc_done_entries(s2));
    }
}

proof fn lemma_enc_done_entries_push(s: Seq<(u32, Seq<(Action, ResultTypeV)>)>, i: int)
    requires
        0 <= i < s.len(),
    ensures
        enc_done_entries(s.take(i + 1)) == enc_done_entries(s.take(i)) + (enc_u32(s[i].0)
            + enc_action_result(s[i].1)),
{
    assert(s.take(i + 1) =~= s.take(i) + seq![s[i]]);
    lemma_enc_done_entries_append(s.take(i), seq![s[i]]);
    assert(seq![s[i]].drop_first() =~= Seq::<(u32, Seq<(Action, ResultTypeV)>)>::empty());
    assert(enc_done_entries(Seq::<(u32, Seq<(Action, ResultTypeV)>)>::empty()) == Seq::<u8>::empty());
    assert(enc_done_entries(seq![s[i]]) =~= enc_u32(s[i].0) + enc_action_result(s[i].1));
}

// ---------------------------------------------------------------------------
// The executable encoder
// ---------------------------------------------------------------------------

fn put_u8(out: &mut Vec<u8>, x: u8)
    ensures
        final(out)@ == old(out)@ + enc_u8(x),
{
    out.push(x);
    proof {
        assert(final(out)@ =~= old(out)@ + enc_u8(x));
    }
}

fn put_u32(out: &mut Vec<u8>, x: u32)
    ensures
        final(out)@ == old(out)@ + enc_u32(x),
{
    out.push((x >> 24) as u8);
    out.push((x >> 16) as u8);
    out.push((x >> 8) as u8);
    out.push(x as u8);
    proof {
        assert(final(out)@ =~= old(out)@ + enc_u32(x));
    }
}

fn put_u64(out: &mut Vec<u8>, x: u64)
    ensures
        final(out)@ == old(out)@ + enc_u64(x),
{
    out.push((x >> 56) as u8);
    out.push((x >> 48) as u8);
    out.push((x >> 40) as u8);
    out.push((x >> 32) as u8);
    out.push((x >> 24) as u8);
    out.push((x >> 16) as u8);
    out.push((x >> 8) as u8);
    out.push(x as u8);
    proof {
        assert(final(out)@ =~= old(out)@ + enc_u64(x));
    }
}

fn put_str(out: &mut Vec<u8>, s: &String)
    ensures
        final(out)@ == old(out)@ + enc_str(s@),
        str_ok(s@),
{
    let bytes: &[u8] = s.as_str().as_bytes();
    let n = bytes.len();
    assert(bytes@ == encode_utf8(s@));
    put_u64(out, n as u64);
    let mut i: usize = 0;
    while i < n
        invariant
            i <= n,
            n == bytes@.len(),
            bytes@ == encode_utf8(s@),
            out@ == old(out)@ + enc_u64(n as u64) + bytes@.take(i as int),
        decreases n - i,
    {
        out.push(*vstd::slice::slice_index_get(bytes, i));
        proof {
            assert(bytes@.take(i + 1) =~= bytes@.take(i as int).push(bytes@[i as int]));
            assert(out@ =~= old(out)@ + enc_u64(n as u64) + bytes@.take(i + 1));
        }
        i += 1;
    }
    proof {
        assert(bytes@.take(n as int) =~= bytes@);
        assert(final(out)@ =~= old(out)@ + enc_str(s@));
    }
}

/// The tag byte of an action.
fn action_tag_of(a: Action) -> (r: u8)
    ensures
        r == action_tag(a),
{
    match a {
        Action::LinkFrequencies => 0,
        Action::LinkGraph => 1,
        Action::KeywordExtraction => 2,
        Action::ArticleSummarization => 3,
    }
}

fn put_actions(out: &mut Vec<u8>, s: &ActionSet)
    ensures
        final(out)@ == old(out)@ + enc_actions(s@),
        s@.len() <= u64::MAX,
{
    let n = s.items.len();
    put_u64(out, n as u64);
    let mut i: usize = 0;
    while i < n
        invariant
            i <= n,
            n == s@.len(),
            out@ == old(out)@ + enc_u64(n as u64) + enc_action_items(s@.take(i as int)),
        decreases n - i,
    {
        put_u8(out, action_tag_of(s.items[i]));
        proof {
            lemma_enc_action_items_push(s@, i as int);
            assert(out@ =~= old(out)@ + enc_u64(n as u64) + enc_action_items(s@.take(i + 1)));
        }
        i += 1;
    }
    proof {
        assert(s@.take(n as int) =~= s@);
        assert(final(out)@ =~= old(out)@ + enc_actions(s@));
    }
}

fn put_freq(out: &mut Vec<u8>, m: &FreqMap)
    ensures
        final(out)@ == old(out)@ + enc_freq(m@),
        freq_ok(m@),
{
    let n = m.entries.len();
    put_u64(out, n as u64);
    let mut i: usize = 0;
    while i < n
        invariant
            i <= n,
            n == m@.len(),
            out@ == old(out)@ + enc_u64(n as u64) + enc_freq_entries(m@.take(i as int)),
            forall|k: int| 0 <= k < i ==> str_ok(#[trigger] m@[k].0),
        decreases n - i,
    {
        put_str(out, &m.entries[i].0);
        put_u64(out, m.entries[i].1);
        proof {
            lemma_enc_freq_entries_push(m@, i as int);
            assert(out@ =~= old(out)@ + enc_u64(n as u64) + enc_freq_entries(m@.take(i + 1)));
        }
        i += 1;
    }
    proof {
        assert(m@.take(n as int) =~= m@);
        assert(final(out)@ =~= old(out)@ + enc_freq(m@));
    }
}

fn put_result_type(out: &mut Vec<u8>, r: &ResultType)
    ensures
        final(out)@ == old(out)@ + enc_result_type(r@),
        result_type_ok(r@),
{
    match r {
        ResultType::LinkFrequencies(m) => {
            put_u8(out, 0);
            put_freq(out, m);
            proof {
                assert(final(out)@ =~= old(out)@ + enc_result_type(r@));
            }
        },
    }
}

fn put_action_result(out: &mut Vec<u8>, ar: &ActionResult)
    ensures
        final(out)@ == old(out)@ + enc_action_result(ar@),
        action_result_ok(ar@),
{
    let n = ar.entries.len();
    put_u64(out, n as u64);
    let mut i: usize = 0;
    while i < n
        invariant
            i <= n,
            n == ar@.len(),
            out@ == old(out)@ + enc_u64(n as u64) + enc_action_result_entries(ar@.take(i as int)),
            forall|k: int| 0 <= k < i ==> result_type_ok(#[trigger] ar@[k].1),
        decreases n - i,
    {
        put_u8(out, action_tag_of(ar.entries[i].0));
        put_result_type(out, &ar.entries[i].1);
        proof {
            lemma_enc_action_result_entries_push(ar@, i as int);
            assert(out@ =~= old(out)@ + enc_u64(n as u64) + enc_action_result_entries(
                ar@.take(i + 1),
            ));
        }
        i += 1;
    }
    proof {
        assert(ar@.take(n as int) =~= ar@);
        assert(final(out)@ =~= old(out)@ + enc_action_result(ar@));
    }
}

fn put_done(out: &mut Vec<u8>, d: &Done)
    ensures
        final(out)@ == old(out)@ + enc_done(d@),
        done_ok(d@),
{
    let n = d.results.entries.len();
    put_u64(out, n as u64);
    let mut i: usize = 0;
    while i < n
        invariant
            i <= n,
            n == d.results@.len(),
            out@ == old(out)@ + enc_u64(n as u64) + enc_done_entries(d.results@.take(i as int)),
            forall|k: int| 0 <= k < i ==> action_result_ok(#[trigger] d.results@[k].1),
        decreases n - i,
    {
        put_u32(out, d.results.entries[i].0);
        put_action_result(out, &d.results.entries[i].1);
        proof {
            lemma_enc_done_entries_push(d.results@, i as int);
            assert(out@ =~= old(out)@ + enc_u64(n as u64) + enc_done_entries(
                d.results@.take(i + 1),
            ));
        }
        i += 1;
    }
    proof {
        assert(d.results@.take(n as int) =~= d.results@);
        assert(final(out)@ =~= old(out)@ + enc_done(d@));
    }
}

/// Serialize a message to its wire bytes (without the frame prefix).
pub fn encode_message(m: &Message) -> (r: Vec<u8>)
    ensures
        r@ == enc_message(m@),
        message_ok(m@),
{
    let mut out: Vec<u8> = Vec::new();
    match m {
        Message::Ready(rd) => {
            put_u8(&mut out, 0);
            put_u8(&mut out, rd.task_count);
            proof {
                assert(out@ =~= enc_message(m@));
            }
        },
        Message::Task(t) => {
            put_u8(&mut out, 1);
            put_u32(&mut out, t.id);
            put_str(&mut out, &t.data);
            put_actions(&mut out, &t.actions);
            proof {
                assert(out@ =~= enc_message(m@));
            }
        },
        Message::Done(d) => {
            put_u8(&mut out, 2);
            put_done(&mut out, d);
            proof {
                assert(out@ =~= enc_message(m@));
            }
        },
    }
    out
}

/// Wrap a payload in its 4-byte big-endian length prefix.
pub fn frame_payload(p: &Vec<u8>) -> (r: Vec<u8>)
    requires
        p@.len() <= u32::MAX,
    ensures
        r@ == enc_frame(p@),
{
    let mut out: Vec<u8> = Vec::new();
    put_u32(&mut out, p.len() as u32);
    let mut i: usize = 0;
    let n = p.len();
    while i < n
        invariant
            i <= n,
            n == p@.len(),
            out@ == enc_u32(p@.len() as u32) + p@.take(i as int),
        decreases n - i,
    {
        out.push(p[i]);
        proof {
            assert(p@.take(i + 1) =~= p@.take(i as int).push(p@[i as int]));
            assert(out@ =~= enc_u32(p@.len() as u32) + p@.take(i + 1));
        }
        i += 1;
    }
    proof {
        assert(p@.take(n as int) =~= p@);
        assert(out@ =~= enc_frame(p@));
    }
    out
}

/// Read the payload length out of a 4-byte frame header.
pub fn frame_header_len(h: &Vec<u8>) -> (r: u32)
    requires
        h@.len() == 4,
    ensures
        r == u32_from_be(h@[0], h@[1], h@[2], h@[3]),
{
    ((h[0] as u32) << 24) | ((h[1] as u32) << 16) | ((h[2] as u32) << 8) | (h[3] as u32)
}

/// Split one whole frame into its payload.
pub fn deframe_payload(b: &Vec<u8>) -> (r: Option<Vec<u8>>)
    ensures
        match r {
            Some(p) => dec_frame(b@) == Some(p@),
            None => dec_frame(b@) is None,
        },
{
    if b.len() < 4 {
        return None;
    }
    let n = ((b[0] as u32) << 24) | ((b[1] as u32) << 16) | ((b[2] as u32) << 8) | (b[3] as u32);
    if (b.len() - 4) as u64 != n as u64 {
        return None;
    }
    let mut p: Vec<u8> = Vec::new();
    let mut i: usize = 4;
    let len = b.len();
    while i < len
        invariant
            4 <= i <= len,
            len == b@.len(),
            p@ == b@.subrange(4, i as int),
        decreases len - i,
    {
        p.push(b[i]);
        proof {
            assert(b@.subrange(4, i + 1) =~= b@.subrange(4, i as int).push(b@[i as int]));
        }
        i += 1;
    }
    proof {
        assert(dec_frame(b@) == Some(b@.subrange(4, 4 + n as int)));
        assert(p@ =~= b@.subrange(4, 4 + n as int));
    }
    Some(p)
}

// ---------------------------------------------------------------------------
// The executable decoder
// ---------------------------------------------------------------------------

/// Relies on core::str::from_utf8: it returns `Ok` exactly when the bytes are
/// valid UTF-8, and then the returned string consists of the characters those
/// bytes encode.
#[verifier::external_body]
fn utf8_to_string(v: &Vec<u8>) -> (r: Option<String>)
    ensures
        match r {
            Some(s) => valid_utf8(v@) && encode_utf8(s@) == v@,
            None => !valid_utf8(v@),
        },
{
    match core::str::from_utf8(v.as_slice()) {
        Ok(s) => Some(s.to_owned()),
        Err(_) => None,
    }
}

fn read_u8(b: &Vec<u8>, i: usize) -> (r: Option<(u8, usize)>)
    ensures
        match r {
            Some((x, j)) => dec_u8(b@, i as int) == Some((x, j as int)) && j <= b@.len(),
            None => dec_u8(b@, i as int) is None,
        },
{
    if i < b.len() {
        Some((b[i], i + 1))
    } else {
        None
    }
}

fn read_u32(b: &Vec<u8>, i: usize) -> (r: Option<(u32, usize)>)
    ensures
        match r {
            Some((x, j)) => dec_u32(b@, i as int) == Some((x, j as int)) && j <= b@.len(),
            None => dec_u32(b@, i as int) is None,
        },
{
    if i < b.len() && b.len() - i >= 4 {
        let x = ((b[i] as u32) << 24) | ((b[i + 1] as u32) << 16) | ((b[i + 2] as u32) << 8) | (b[i
            + 3] as u32);
        Some((x, i + 4))
    } else {
        None
    }
}

fn read_u64(b: &Vec<u8>, i: usize) -> (r: Option<(u64, usize)>)
    ensures
        match r {
            Some((x, j)) => dec_u64(b@, i as int) == Some((x, j as int)) && j <= b@.len(),
            None => dec_u64(b@, i as int) is None,
        },
{
    if i < b.len() && b.len() - i >= 8 {
        let x = ((b[i] as u64) << 56) | ((b[i + 1] as u64) << 48) | ((b[i + 2] as u64) << 40) | ((
        b[i + 3] as u64) << 32) | ((b[i + 4] as u64) << 24) | ((b[i + 5] as u64) << 16) | ((b[i
            + 6] as u64) << 8) | (b[i + 7] as u64);
        proof {
            let sub = b@.subrange(i as int, i as int + 8);
            assert(sub[0] == b@[i as int] && sub[1] == b@[i as int + 1] && sub[2] == b@[i as int
                + 2] && sub[3] == b@[i as int + 3] && sub[4] == b@[i as int + 4] && sub[5] == b@[
            i as int + 5] && sub[6] == b@[i as int + 6] && sub[7] == b@[i as int + 7]);
        }
        Some((x, i + 8))
    } else {
        None
    }
}

fn read_str(b: &Vec<u8>, i: usize) -> (r: Option<(String, usize)>)
    ensures
        match r {
            Some((s, j)) => dec_str(b@, i as int) == Some((s@, j as int)) && j <= b@.len(),
            None => dec_str(b@, i as int) is None,
        },
{
    match read_u64(b, i) {
        Some((n, j)) => {
            if n <= (b.len() - j) as u64 {
                let m = n as usize;
                let end = j + m;
                let mut chunk: Vec<u8> = Vec::new();
                let mut k = j;
                while k < end
                    invariant
                        j <= k <= end,
                        end <= b@.len(),
                        chunk@ == b@.subrange(j as int, k as int),
                    decreases end - k,
                {
                    chunk.push(b[k]);
                    proof {
                        assert(b@.subrange(j as int, k + 1) =~= b@.subrange(
                            j as int,
                            k as int,
                        ).push(b@[k as int]));
                    }
                    k += 1;
                }
                match utf8_to_string(&chunk) {
                    Some(s) => {
                        proof {
                            encode_utf8_decode_utf8(s@);
                        }
                        Some((s, end))
                    },
                    None => None,
                }
            } else {
                None
            }
        },
        None => None,
    }
}

fn read_action(b: &Vec<u8>, i: usize) -> (r: Option<(Action, usize)>)
    ensures
        match r {
            Some((a, j)) => dec_action(b@, i as int) == Some((a, j as int)) && j <= b@.len(),
            None => dec_action(b@, i as int) is None,
        },
{
    match read_u8(b, i) {
        Some((t, j)) => {
            if t == 0 {
                Some((Action::LinkFrequencies, j))
            } else if t == 1 {
                Some((Action::LinkGraph, j))
            } else if t == 2 {
                Some((Action::KeywordExtraction, j))
            } else if t == 3 {
                Some((Action::ArticleSummarization, j))
            } else {
                None
            }
        },
        None => None,
    }
}

fn read_actions(b: &Vec<u8>, i: usize) -> (r: Option<(Vec<Action>, usize)>)
    ensures
        match r {
            Some((v, j)) => dec_actions(b@, i as int) == Some((v@, j as int)) && j <= b@.len(),
            None => dec_actions(b@, i as int) is None,
        },
{
    match read_u64(b, i) {
        Some((n, j0)) => {
            let mut acc: Vec<Action> = Vec::new();
            let mut cur = j0;
            let mut k: u64 = 0;
            while k < n
                invariant
                    k <= n,
                    cur <= b@.len(),
                    dec_u64(b@, i as int) == Some((n, j0 as int)),
                    dec_action_items(b@, j0 as int, n as nat) == (match dec_action_items(
                        b@,
                        cur as int,
                        (n - k) as nat,
                    ) {
                        Some((rest, end)) => Some((acc@ + rest, end)),
                        None => None,
                    }),
                decreases n - k,
            {
                match read_action(b, cur) {
                    Some((a, j2)) => {
                        proof {
                            let m = (n - k) as nat;
                            let tail = dec_action_items(b@, j2 as int, (m - 1) as nat);
                            if tail is Some {
                                let rest2 = tail.unwrap().0;
                                assert(acc@ + (seq![a] + rest2) =~= acc@.push(a) + rest2);
                            }
                        }
                        acc.push(a);
                        cur = j2;
                        k += 1;
                    },
                    None => {
                        proof {
                            assert(dec_action_items(b@, cur as int, (n - k) as nat) is None);
                        }
                        return None;
                    },
                }
            }
            proof {
                assert(acc@ + Seq::<Action>::empty() =~= acc@);
            }
            Some((acc, cur))
        },
        None => None,
    }
}

fn read_freq(b: &Vec<u8>, i: usize) -> (r: Option<(FreqMap, usize)>)
    ensures
        match r {
            Some((m, j)) => dec_freq(b@, i as int) == Some((m@, j as int)) && j <= b@.len(),
            None => dec_freq(b@, i as int) is None,
        },
{
    match read_u64(b, i) {
        Some((n, j0)) => {
            let mut acc: Vec<(String, u64)> = Vec::new();
            let mut cur = j0;
            let mut k: u64 = 0;
            while k < n
                invariant
                    k <= n,
                    cur <= b@.len(),
                    dec_u64(b@, i as int) == Some((n, j0 as int)),
                    dec_freq_entries(b@, j0 as int, n as nat) == (match dec_freq_entries(
                        b@,
                        cur as int,
                        (n - k) as nat,
                    ) {
                        Some((rest, end)) => Some(
                            (Seq::new(acc@.len(), |t: int| (acc@[t].0@, acc@[t].1)) + rest, end),
                        ),
                        None => None,
                    }),
                decreases n - k,
            {
                let ghost acc_v = Seq::new(acc@.len(), |t: int| (acc@[t].0@, acc@[t].1));
                match read_str(b, cur) {
                    Some((key, j1)) => {
                        match read_u64(b, j1) {
                            Some((v, j2)) => {
                                proof {
                                    let m = (n - k) as nat;
                                    let tail = dec_freq_entries(b@, j2 as int, (m - 1) as nat);
                                    if tail is Some {
                                        let rest2 = tail.unwrap().0;
                                        assert(acc_v + (seq![(key@, v)] + rest2) =~= acc_v.push(
                                            (key@, v),
                                        ) + rest2);
                                    }
                                }
                                acc.push((key, v));
                                proof {
                                    assert(Seq::new(acc@.len(), |t: int| (acc@[t].0@, acc@[t].1))
                                        =~= acc_v.push((acc@.last().0@, acc@.last().1)));
                                }
                                cur = j2;
                                k += 1;
                            },
                            None => {
                                proof {
                                    assert(dec_freq_entries(b@, cur as int, (n - k) as nat)
                                        is None);
                                }
                                return None;
                            },
                        }
                    },
                    None => {
                        proof {
                            assert(dec_freq_entries(b@, cur as int, (n - k) as nat) is None);
                        }
                        return None;
                    },
                }
            }
            let fm = FreqMap { entries: acc };
            proof {
                assert(fm@ + Seq::<(Seq<char>, u64)>::empty() =~= fm@);
            }
            Some((fm, cur))
        },
        None => None,
    }
}

fn read_result_type(b: &Vec<u8>, i: usize) -> (r: Option<(ResultType, usize)>)
    ensures
        match r {
            Some((rt, j)) => dec_result_type(b@, i as int) == Some((rt@, j as int)) && j
                <= b@.len(),
            None => dec_result_type(b@, i as int) is None,
        },
{
    match read_u8(b, i) {
        Some((t, j)) => {
            if t == 0 {
                match read_freq(b, j) {
                    Some((m, j2)) => Some((ResultType::LinkFrequencies(m), j2)),
                    None => None,
                }
            } else {
                None
            }
        },
        None => None,
    }
}

fn read_action_result(b: &Vec<u8>, i: usize) -> (r: Option<(ActionResult, usize)>)
    ensures
        match r {
            Some((ar, j)) => dec_action_result(b@, i as int) == Some((ar@, j as int)) && j
                <= b@.len(),
            None => dec_action_result(b@, i as int) is None,
        },
{
    match read_u64(b, i) {
        Some((n, j0)) => {
            let mut acc: Vec<(Action, ResultType)> = Vec::new();
            let mut cur = j0;
            let mut k: u64 = 0;
            while k < n
                invariant
                    k <= n,
                    cur <= b@.len(),
                    dec_u64(b@, i as int) == Some((n, j0 as int)),
                    dec_action_result_entries(b@, j0 as int, n as nat) == (match
                        dec_action_result_entries(b@, cur as int, (n - k) as nat) {
                        Some((rest, end)) => Some(
                            (Seq::new(acc@.len(), |t: int| (acc@[t].0, acc@[t].1@)) + rest, end),
                        ),
                        None => None,
                    }),
                decreases n - k,
            {
                let ghost acc_v = Seq::new(acc@.len(), |t: int| (acc@[t].0, acc@[t].1@));
                match read_action(b, cur) {
                    Some((a, j1)) => {
                        match read_result_type(b, j1) {
                            Some((rt, j2)) => {
                                proof {
                                    let m = (n - k) as nat;
                                    let tail = dec_action_result_entries(
                                        b@,
                                        j2 as int,
                                        (m - 1) as nat,
                                    );
                                    if tail is Some {
                                        let rest2 = tail.unwrap().0;
                                        assert(acc_v + (seq![(a, rt@)] + rest2) =~= acc_v.push(
                                            (a, rt@),
                                        ) + rest2);
                                    }
                                }
                                acc.push((a, rt));
                                proof {
                                    assert(Seq::new(acc@.len(), |t: int| (acc@[t].0, acc@[t].1@))
                                        =~= acc_v.push((acc@.last().0, acc@.last().1@)));
                                }
                                cur = j2;
                                k += 1;
                            },
                            None => {
                                proof {
                                    assert(dec_action_result_entries(
                                        b@,
                                        cur as int,
                                        (n - k) as nat,
                                    ) is None);
                                }
                                return None;
                            },
                        }
                    },
                    None => {
                        proof {
                            assert(dec_action_result_entries(b@, cur as int, (n - k) as nat)
                                is None);
                        }
                        return None;
                    },
                }
            }
            let ar = ActionResult { entries: acc };
            proof {
                assert(ar@ + Seq::<(Action, ResultTypeV)>::empty() =~= ar@);
            }
            Some((ar, cur))
        },
        None => None,
    }
}

fn read_done(b: &Vec<u8>, i: usize) -> (r: Option<(Done, usize)>)
    ensures
        match r {
            Some((d, j)) => dec_done(b@, i as int) == Some((d@, j as int)) && j <= b@.len(),
            None => dec_done(b@, i as int) is None,
        },
{
    match read_u64(b, i) {
        Some((n, j0)) => {
            let mut acc: Vec<(u32, ActionResult)> = Vec::new();
            let mut cur = j0;
            let mut k: u64 = 0;
            while k < n
                invariant
                    k <= n,
                    cur <= b@.len(),
                    dec_u64(b@, i as int) == Some((n, j0 as int)),
                    dec_done_entries(b@, j0 as int, n as nat) == (match dec_done_entries(
                        b@,
                        cur as int,
                        (n - k) as nat,
                    ) {
                        Some((rest, end)) => Some(
                            (Seq::new(acc@.len(), |t: int| (acc@[t].0, acc@[t].1@)) + rest, end),
                        ),
                        None => None,
                    }),
                decreases n - k,
            {
                let ghost acc_v = Seq::new(acc@.len(), |t: int| (acc@[t].0, acc@[t].1@));
                match read_u32(b, cur) {
                    Some((id, j1)) => {
                        match read_action_result(b, j1) {
                            Some((ar, j2)) => {
                                proof {
                                    let m = (n - k) as nat;
                                    let tail = dec_done_entries(b@, j2 as int, (m - 1) as nat);
                                    if tail is Some {
                                        let rest2 = tail.unwrap().0;
                                        assert(acc_v + (seq![(id, ar@)] + rest2) =~= acc_v.push(
                                            (id, ar@),
                                        ) + rest2);
                                    }
                                }
                                acc.push((id, ar));
                                proof {
                                    assert(Seq::new(acc@.len(), |t: int| (acc@[t].0, acc@[t].1@))
                                        =~= acc_v.push((acc@.last().0, acc@.last().1@)));
                                }
                                cur = j2;
                                k += 1;
                            },
                            None => {
                                proof {
                                    assert(dec_done_entries(b@, cur as int, (n - k) as nat)
                                        is None);
                                }
                                return None;
                            },
                        }
                    },
                    None => {
                        proof {
                            assert(dec_done_entries(b@, cur as int, (n - k) as nat) is None);
                        }
                        return None;
                    },
                }
            }
            let d = Done { results: ResultMap { entries: acc } };
            proof {
                assert(d.results@ + Seq::<(u32, Seq<(Action, ResultTypeV)>)>::empty()
                    =~= d.results@);
            }
            Some((d, cur))
        },
        None => None,
    }
}

fn read_message(b: &Vec<u8>, i: usize) -> (r: Option<(Message, usize)>)
    ensures
        match r {
            Some((m, j)) => dec_message(b@, i as int) == Some((m@, j as int)) && j <= b@.len(),
            None => dec_message(b@, i as int) is None,
        },
{
    match read_u8(b, i) {
        Some((t, j)) => {
            if t == 0 {
                match read_u8(b, j) {
                    Some((c, j2)) => Some((Message::Ready(Ready { task_count: c }), j2)),
                    None => None,
                }
            } else if t == 1 {
                match read_u32(b, j) {
                    Some((id, j1)) => match read_str(b, j1) {
                        Some((data, j2)) => match read_actions(b, j2) {
                            Some((items, j3)) => Some(
                                (Message::Task(Task { id, data, actions: ActionSet { items } }), j3),
                            ),
                            None => None,
                        },
                        None => None,
                    },
                    None => None,
                }
            } else if t == 2 {
                match read_done(b, j) {
                    Some((d, j2)) => Some((Message::Done(d), j2)),
                    None => None,
                }
            } else {
                None
            }
        },
        None => None,
    }
}

/// Decode one whole message payload. `None` exactly when the bytes are not
/// one complete encoded message: such a frame is a fatal protocol error for
/// its connection.
pub fn decode_message(b: &Vec<u8>) -> (r: Option<Message>)
    ensures
        match r {
            Some(m) => message_decoded(b@) == Some(m@),
            None => message_decoded(b@) is None,
        },
{
    match read_message(b, 0) {
        Some((m, j)) => {
            if j == b.len() {
                Some(m)
            } else {
                None
            }
        },
        None => None,
    }
}

} // verus!
