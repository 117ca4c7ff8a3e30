use wikijobs::codec::{decode_message, deframe_payload, encode_message, frame_header_len,
    frame_payload};
use wikijobs::messages::{Action, ActionResult, ActionSet, Done, FreqMap, Message, Ready,
    ResultMap, ResultType, Task};

fn roundtrip(m: &Message) -> Message {
    let payload = encode_message(m);
    let framed = frame_payload(&payload);
    let header: Vec<u8> = framed[..4].to_vec();
    assert_eq!(frame_header_len(&header) as usize, payload.len());
    let recovered = deframe_payload(&framed).expect("framed payload must deframe");
    assert_eq!(recovered, payload);
    decode_message(&recovered).expect("encoded message must decode")
}

#[test]
fn ready_roundtrip() {
    for count in [0u8, 1, 7, 255] {
        match roundtrip(&Message::Ready(Ready::new(count))) {
            Message::Ready(r) => assert_eq!(r.task_count, count),
            _ => panic!("wrong variant"),
        }
    }
}

#[test]
fn ready_wire_form() {
    let bytes = encode_message(&Message::Ready(Ready::new(7)));
    assert_eq!(bytes, vec![0u8, 7]);
}

#[test]
fn task_roundtrip_empty() {
    let task = Task::new(0, String::new(), ActionSet::new());
    match roundtrip(&Message::Task(task)) {
        Message::Task(t) => {
            assert_eq!(t.id, 0);
            assert_eq!(t.data, "");
            assert!(t.actions.items.is_empty());
        },
        _ => panic!("wrong variant"),
    }
}

#[test]
fn task_roundtrip_full() {
    let actions = ActionSet {
        items: vec![
            Action::LinkFrequencies,
            Action::LinkGraph,
            Action::KeywordExtraction,
            Action::ArticleSummarization,
        ],
    };
    let data = "a\u{310}e\u{301} [[Füß]] / <page>".to_string();
    let task = Task::new(u32::MAX, data.clone(), actions);
    match roundtrip(&Message::Task(task)) {
        Message::Task(t) => {
            assert_eq!(t.id, u32::MAX);
            assert_eq!(t.data, data);
            assert_eq!(
                t.actions.items,
                vec![
                    Action::LinkFrequencies,
                    Action::LinkGraph,
                    Action::KeywordExtraction,
                    Action::ArticleSummarization,
                ]
            );
        },
        _ => panic!("wrong variant"),
    }
}

#[test]
fn task_wire_form_is_big_endian() {
    let task = Task::new(0x01020304, String::new(), ActionSet::new());
    let bytes = encode_message(&Message::Task(task));
    assert_eq!(bytes[0], 1); // Task tag
    assert_eq!(&bytes[1..5], &[1, 2, 3, 4]);
}

#[test]
fn done_roundtrip_empty() {
    match roundtrip(&Message::Done(Done::new(ResultMap::new()))) {
        Message::Done(d) => assert!(d.results.entries.is_empty()),
        _ => panic!("wrong variant"),
    }
}

#[test]
fn done_roundtrip_full() {
    let freqs = FreqMap {
        entries: vec![("Foo".to_string(), 2), ("Bäz".to_string(), u64::MAX)],
    };
    let ar = ActionResult {
        entries: vec![
            (Action::LinkFrequencies, ResultType::LinkFrequencies(freqs)),
            (Action::LinkGraph, ResultType::LinkFrequencies(FreqMap::new())),
        ],
    };
    let results = ResultMap { entries: vec![(42, ar)] };
    match roundtrip(&Message::Done(Done::new(results))) {
        Message::Done(d) => {
            assert_eq!(d.results.entries.len(), 1);
            let (id, ar2) = &d.results.entries[0];
            assert_eq!(*id, 42);
            assert_eq!(ar2.entries.len(), 2);
            assert_eq!(ar2.entries[0].0, Action::LinkFrequencies);
            let ResultType::LinkFrequencies(f0) = &ar2.entries[0].1;
            assert_eq!(
                f0.entries,
                vec![("Foo".to_string(), 2), ("Bäz".to_string(), u64::MAX)]
            );
            assert_eq!(ar2.entries[1].0, Action::LinkGraph);
            let ResultType::LinkFrequencies(f1) = &ar2.entries[1].1;
            assert!(f1.entries.is_empty());
        },
        _ => panic!("wrong variant"),
    }
}

#[test]
fn decode_rejects_unknown_tag() {
    assert!(decode_message(&vec![9u8, 0, 0]).is_none());
}

#[test]
fn decode_rejects_truncated_payload() {
    let bytes = encode_message(&Message::Task(Task::new(
        5,
        "hello".to_string(),
        ActionSet::new(),
    )));
    let cut = bytes[..bytes.len() - 1].to_vec();
    assert!(decode_message(&cut).is_none());
}

#[test]
fn decode_rejects_trailing_bytes() {
    let mut bytes = encode_message(&Message::Ready(Ready::new(3)));
    bytes.push(0);
    assert!(decode_message(&bytes).is_none());
}

#[test]
fn decode_rejects_invalid_utf8() {
    // A Task whose string length prefix covers one invalid byte.
    let mut bytes = vec![1u8]; // Task tag
    bytes.extend_from_slice(&[0, 0, 0, 1]); // id
    bytes.extend_from_slice(&[0, 0, 0, 0, 0, 0, 0, 1]); // string byte length 1
    bytes.push(0xFF); // not UTF-8
    bytes.extend_from_slice(&[0, 0, 0, 0, 0, 0, 0, 0]); // no actions
    assert!(decode_message(&bytes).is_none());
}

#[test]
fn deframe_rejects_short_and_overlong() {
    assert!(deframe_payload(&vec![0u8, 0, 0]).is_none());
    // declares 2 bytes but carries 1
    assert!(deframe_payload(&vec![0u8, 0, 0, 2, 9]).is_none());
    // declares 0 bytes but carries 1
    assert!(deframe_payload(&vec![0u8, 0, 0, 0, 9]).is_none());
}

#[test]
fn frame_wire_form() {
    let framed = frame_payload(&vec![0xAA, 0xBB]);
    assert_eq!(framed, vec![0, 0, 0, 2, 0xAA, 0xBB]);
}
