use wikijobs::analysis::{get_link_frequencies, process_actions};
use wikijobs::messages::{Action, ActionSet, ResultType, Task};

fn freqs_of(input: &str) -> Vec<(String, u64)> {
    let mut entries = get_link_frequencies(&input.to_string()).entries;
    entries.sort();
    entries
}

#[test]
fn link_frequency_round_trip() {
    let input = "<page><text>See [[Foo]] and [[Foo|bar]] and [[Baz#sec]].</text></page>";
    assert_eq!(
        freqs_of(input),
        vec![("Baz".to_string(), 1), ("Foo".to_string(), 2)]
    );
}

#[test]
fn first_occurrence_counts_one_and_each_repeat_adds_one() {
    assert_eq!(freqs_of("<text>[[A]]</text>"), vec![("A".to_string(), 1)]);
    assert_eq!(
        freqs_of("<text>[[A]] [[A]]</text>"),
        vec![("A".to_string(), 2)]
    );
    assert_eq!(
        freqs_of("<text>[[A]] [[A]] [[A#x]]</text>"),
        vec![("A".to_string(), 3)]
    );
}

#[test]
fn brackets_outside_text_are_not_counted() {
    assert_eq!(freqs_of("<page>[[Foo]]</page>"), vec![]);
    assert_eq!(freqs_of("<title>[[Foo]]</title>"), vec![]);
    assert_eq!(freqs_of("[[Foo]]"), vec![]);
}

#[test]
fn counting_resumes_only_in_text_content() {
    let input = "<page><title>[[No]]</title><text>[[Yes]]</text><tail>[[No]]</tail></page>";
    assert_eq!(freqs_of(input), vec![("Yes".to_string(), 1)]);
}

#[test]
fn text_element_with_attributes_counts() {
    assert_eq!(
        freqs_of("<text xml:space=\"preserve\">[[A]]</text>"),
        vec![("A".to_string(), 1)]
    );
}

#[test]
fn brackets_need_not_be_adjacent() {
    // The second `[` may come anywhere after the first.
    assert_eq!(freqs_of("<text>[x[Foo]</text>"), vec![("Foo".to_string(), 1)]);
}

#[test]
fn all_three_terminators_commit() {
    assert_eq!(
        freqs_of("<text>[[a] [[b| [[c#</text>"),
        vec![
            ("a".to_string(), 1),
            ("b".to_string(), 1),
            ("c".to_string(), 1)
        ]
    );
}

#[test]
fn unterminated_reference_is_not_counted() {
    assert_eq!(freqs_of("<text>[[Foo</text>"), vec![]);
}

#[test]
fn combining_mark_keeps_bracket_grapheme_whole() {
    // The combining mark joins the first `[` into one grapheme cluster, which
    // is then not the bracket character; only one bare `[` remains, so no
    // reference is complete. A character-level scan would count one.
    let input = "<text>[\u{0301}[x]abc</text>";
    assert_eq!(freqs_of(input), vec![]);
}

#[test]
fn empty_target_counts_under_empty_key() {
    assert_eq!(freqs_of("<text>[[]</text>"), vec![(String::new(), 1)]);
}

#[test]
fn process_actions_answers_each_requested_action() {
    let actions = ActionSet {
        items: vec![Action::LinkFrequencies, Action::LinkGraph],
    };
    let data = "<text>[[Foo]]</text>".to_string();
    let (id, result) = process_actions(&Task::new(17, data, actions));
    assert_eq!(id, 17);
    assert_eq!(result.entries.len(), 2);
    assert_eq!(result.entries[0].0, Action::LinkFrequencies);
    let ResultType::LinkFrequencies(f0) = &result.entries[0].1;
    assert_eq!(f0.entries, vec![("Foo".to_string(), 1)]);
    assert_eq!(result.entries[1].0, Action::LinkGraph);
    let ResultType::LinkFrequencies(f1) = &result.entries[1].1;
    assert!(f1.entries.is_empty());
}

#[test]
fn process_actions_without_link_frequencies_yields_empty_results() {
    let actions = ActionSet { items: vec![Action::ArticleSummarization] };
    let (id, result) = process_actions(&Task::new(3, "<text>[[Foo]]</text>".to_string(), actions));
    assert_eq!(id, 3);
    assert_eq!(result.entries.len(), 1);
    let ResultType::LinkFrequencies(f) = &result.entries[0].1;
    assert!(f.entries.is_empty());
}
