use std::collections::HashMap;

use karma::decode::{backtrack, extract_spans, BiasKind, LabelError, LabelSpace, RawSpan, Tag};

fn id2label(pairs: &[(&str, &str)]) -> HashMap<String, String> {
    pairs.iter().map(|(k, v)| (k.to_string(), v.to_string())).collect()
}

fn space() -> LabelSpace {
    let m = id2label(&[
        ("0", "O"),
        ("1", "B-private_url"),
        ("2", "I-private_url"),
        ("3", "E-private_url"),
        ("4", "S-private_url"),
        ("5", "B-private_email"),
        ("6", "I-private_email"),
        ("7", "E-private_email"),
        ("8", "S-private_email"),
    ]);
    LabelSpace::from_id2label(&m).unwrap()
}

fn ids_for(space: &LabelSpace, tags: &[Tag]) -> Vec<usize> {
    tags.iter().map(|t| space.tags.iter().position(|x| x == t).unwrap()).collect()
}

#[test]
fn label_space_orders_by_id_and_names_entities() {
    let s = space();
    assert_eq!(
        s.tags,
        vec![
            Tag::O,
            Tag::B(0),
            Tag::I(0),
            Tag::E(0),
            Tag::S(0),
            Tag::B(1),
            Tag::I(1),
            Tag::E(1),
            Tag::S(1)
        ]
    );
    assert_eq!(s.entity_names, vec!["private_url".to_string(), "private_email".to_string()]);
}

#[test]
fn label_space_sorts_numerically_and_skips_bad_ids() {
    let m = id2label(&[("10", "S-b"), ("9", "S-a"), ("x", "S-c"), ("+2", "O")]);
    let s = LabelSpace::from_id2label(&m).unwrap();
    assert_eq!(s.tags, vec![Tag::O, Tag::S(0), Tag::S(1)]);
    assert_eq!(s.entity_names, vec!["a".to_string(), "b".to_string()]);
}

#[test]
fn label_space_rejects_unknown_prefix() {
    let m = id2label(&[("0", "O"), ("1", "X-thing")]);
    match LabelSpace::from_id2label(&m) {
        Err(LabelError::UnknownPrefix(p)) => assert_eq!(p, "X"),
        Ok(_) => panic!("expected an error"),
    }
}

#[test]
fn label_without_dash_has_no_entity() {
    let m = id2label(&[("0", "B")]);
    let s = LabelSpace::from_id2label(&m).unwrap();
    assert_eq!(s.tags, vec![Tag::B(usize::MAX)]);
    assert!(s.entity_names.is_empty());
}

#[test]
fn label_entity_splits_at_first_dash() {
    let m = id2label(&[("0", "B-a-b"), ("1", "E-a-b")]);
    let s = LabelSpace::from_id2label(&m).unwrap();
    assert_eq!(s.tags, vec![Tag::B(0), Tag::E(0)]);
    assert_eq!(s.entity_names, vec!["a-b".to_string()]);
}

#[test]
fn from_entries_keeps_walk_order_for_equal_ids() {
    let entries = vec![
        ("1".to_string(), "S-late".to_string()),
        ("01".to_string(), "S-early".to_string()),
    ];
    let s = LabelSpace::from_entries(&entries).unwrap();
    assert_eq!(s.tags, vec![Tag::S(0), Tag::S(1)]);
    assert_eq!(s.entity_names, vec!["late".to_string(), "early".to_string()]);
}

#[test]
fn transition_rules() {
    assert!(LabelSpace::allowed(Tag::O, Tag::B(3)));
    assert!(LabelSpace::allowed(Tag::E(1), Tag::S(2)));
    assert!(!LabelSpace::allowed(Tag::B(1), Tag::O));
    assert!(LabelSpace::allowed(Tag::B(1), Tag::I(1)));
    assert!(!LabelSpace::allowed(Tag::B(1), Tag::I(2)));
    assert!(LabelSpace::allowed(Tag::I(4), Tag::E(4)));
    assert!(!LabelSpace::allowed(Tag::O, Tag::E(0)));
    assert!(LabelSpace::start_allowed(Tag::S(0)));
    assert!(!LabelSpace::start_allowed(Tag::I(0)));
    assert!(LabelSpace::end_allowed(Tag::E(0)));
    assert!(!LabelSpace::end_allowed(Tag::B(0)));
}

#[test]
fn transition_bias_kinds() {
    let s = space();
    assert_eq!(s.transition_kind(Tag::O, Tag::O), BiasKind::BackgroundStay);
    assert_eq!(s.transition_kind(Tag::O, Tag::S(1)), BiasKind::BackgroundToStart);
    assert_eq!(s.transition_kind(Tag::E(0), Tag::O), BiasKind::EndToBackground);
    assert_eq!(s.transition_kind(Tag::S(0), Tag::B(1)), BiasKind::EndToStart);
    assert_eq!(s.transition_kind(Tag::B(1), Tag::I(1)), BiasKind::InsideToContinue);
    assert_eq!(s.transition_kind(Tag::I(1), Tag::E(1)), BiasKind::InsideToEnd);
    assert_eq!(s.transition_kind(Tag::I(1), Tag::E(0)), BiasKind::Zero);
    assert_eq!(s.transition_kind(Tag::B(0), Tag::O), BiasKind::Zero);
}

#[test]
fn spans_of_full_url() {
    let s = space();
    let path = ids_for(
        &s,
        &[Tag::O, Tag::B(0), Tag::I(0), Tag::I(0), Tag::I(0), Tag::E(0), Tag::O, Tag::O],
    );
    assert_eq!(
        extract_spans(&path, &s),
        vec![RawSpan { entity: 0, start_token: 1, end_token: 5 }]
    );
}

#[test]
fn spans_skip_inside_without_begin() {
    let s = space();
    let path = ids_for(&s, &[Tag::O, Tag::I(0), Tag::I(0), Tag::O]);
    assert!(extract_spans(&path, &s).is_empty());
}

#[test]
fn spans_close_at_end_of_input() {
    let s = space();
    let path = ids_for(&s, &[Tag::O, Tag::B(0), Tag::I(0), Tag::I(0)]);
    assert_eq!(
        extract_spans(&path, &s),
        vec![RawSpan { entity: 0, start_token: 1, end_token: 3 }]
    );
}

#[test]
fn spans_of_adjacent_entities() {
    let s = space();
    let path = ids_for(
        &s,
        &[Tag::O, Tag::B(0), Tag::E(0), Tag::B(1), Tag::I(1), Tag::E(1), Tag::O],
    );
    assert_eq!(
        extract_spans(&path, &s),
        vec![
            RawSpan { entity: 0, start_token: 1, end_token: 2 },
            RawSpan { entity: 1, start_token: 3, end_token: 5 }
        ]
    );
}

#[test]
fn spans_single_and_broken_runs() {
    let s = space();
    // S span, then a B whose run is cut by a B of another entity
    let path = ids_for(&s, &[Tag::S(1), Tag::B(0), Tag::I(0), Tag::B(1), Tag::E(1), Tag::E(0)]);
    assert_eq!(
        extract_spans(&path, &s),
        vec![
            RawSpan { entity: 1, start_token: 0, end_token: 0 },
            RawSpan { entity: 0, start_token: 1, end_token: 2 },
            RawSpan { entity: 1, start_token: 3, end_token: 4 }
        ]
    );
}

#[test]
fn backtrack_follows_pointers() {
    // three tokens, two labels
    let back = vec![vec![0, 0], vec![1, 0], vec![1, 1]];
    assert_eq!(backtrack(&back, 2, 0), vec![0, 1, 0]);
    assert_eq!(backtrack(&back, 2, 1), vec![0, 1, 1]);
    assert_eq!(backtrack(&Vec::new(), 2, 1), Vec::<usize>::new());
}
