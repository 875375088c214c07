use std::collections::HashMap;

use karma::config::{placeholder_for, placeholder_map};
use karma::decode::{LabelSpace, RawSpan};
use karma::redaction::{assemble_redaction, char_offsets, utf8_len, utf8_width};
use karma::text::to_chars;

fn person_space() -> LabelSpace {
    let m: HashMap<String, String> = [("0", "O"), ("1", "S-private_person"), ("2", "S-custom_thing")]
        .iter()
        .map(|(k, v)| (k.to_string(), v.to_string()))
        .collect();
    LabelSpace::from_id2label(&m).unwrap()
}

#[test]
fn placeholders_of_known_and_unknown_entities() {
    let pm = placeholder_map();
    assert_eq!(pm.len(), 8);
    assert_eq!(placeholder_for(&pm, &"private_email".to_string()), "[EMAIL]");
    assert_eq!(placeholder_for(&pm, &"secret".to_string()), "[SECRET]");
    assert_eq!(placeholder_for(&pm, &"custom_thing".to_string()), "[CUSTOM_THING]");
}

#[test]
fn utf8_widths() {
    for c in ['a', 'é', '€', '😀'] {
        assert_eq!(utf8_width(c), c.len_utf8());
    }
}

#[test]
fn byte_offsets_to_char_offsets() {
    let chars = to_chars("héllo 😀x");
    // bytes: h=0, é=1..3, l=3, l=4, o=5, ' '=6, 😀=7..11, x=11, end=12
    let bytes = vec![(0, 1), (1, 3), (2, 3), (7, 11), (11, 12), (12, 12)];
    assert_eq!(char_offsets(&chars, &bytes), vec![(0, 1), (1, 2), (1, 2), (6, 7), (7, 8), (8, 8)]);
    assert_eq!(char_offsets(&chars, &vec![(0, 13), (20, 30)]), vec![(0, 8), (8, 8)]);
    assert_eq!(utf8_len(&chars), 12);
}

#[test]
fn redacts_a_person() {
    let text = "My name is  John Smith .".to_string();
    let space = person_space();
    // tokens: "My" "name" "is" " John" "Smith" "."
    let offsets = vec![(0, 2), (3, 7), (8, 10), (10, 16), (17, 22), (23, 24)];
    let raw = vec![RawSpan { entity: 0, start_token: 3, end_token: 4 }];
    let r = assemble_redaction(&text, &offsets, &raw, &space, &placeholder_map());
    assert_eq!(r.text, text);
    assert_eq!(r.redacted_text, "My name is  [PERSON] .");
    assert_eq!(r.detected_spans.len(), 1);
    let d = &r.detected_spans[0];
    assert_eq!((d.start, d.end), (12, 22));
    assert_eq!(d.text, "John Smith");
    assert_eq!(d.label, "private_person");
    assert_eq!(d.placeholder, "[PERSON]");
    assert_eq!(r.summary, vec![("private_person".to_string(), 1)]);
}

#[test]
fn redaction_counts_and_skips_blank_spans() {
    let text = "a b  c".to_string();
    let space = person_space();
    let offsets = vec![(0, 1), (1, 2), (2, 3), (3, 5), (5, 6)];
    let raw = vec![
        RawSpan { entity: 0, start_token: 0, end_token: 0 },
        RawSpan { entity: 1, start_token: 1, end_token: 1 },
        RawSpan { entity: 0, start_token: 2, end_token: 2 },
        RawSpan { entity: 1, start_token: 3, end_token: 3 },
        RawSpan { entity: 0, start_token: 4, end_token: 4 },
    ];
    let r = assemble_redaction(&text, &offsets, &raw, &space, &placeholder_map());
    assert_eq!(r.detected_spans.len(), 3);
    assert_eq!(r.redacted_text, "[PERSON] [PERSON]  [PERSON]");
    assert_eq!(r.summary, vec![("private_person".to_string(), 3)]);
}

#[test]
fn nothing_detected_keeps_text() {
    let text = "nothing here".to_string();
    let r = assemble_redaction(&text, &vec![(0, 7), (8, 12)], &Vec::new(), &person_space(), &placeholder_map());
    assert_eq!(r.redacted_text, text);
    assert!(r.detected_spans.is_empty());
    assert!(r.summary.is_empty());
}

#[test]
fn summary_in_order_of_first_appearance() {
    let text = "x y z".to_string();
    let space = person_space();
    let offsets = vec![(0, 1), (2, 3), (4, 5)];
    let raw = vec![
        RawSpan { entity: 1, start_token: 0, end_token: 0 },
        RawSpan { entity: 0, start_token: 1, end_token: 1 },
        RawSpan { entity: 1, start_token: 2, end_token: 2 },
    ];
    let r = assemble_redaction(&text, &offsets, &raw, &space, &placeholder_map());
    assert_eq!(r.redacted_text, "[CUSTOM_THING] [PERSON] [CUSTOM_THING]");
    assert_eq!(
        r.summary,
        vec![("custom_thing".to_string(), 2), ("private_person".to_string(), 1)]
    );
}

#[test]
fn placeholder_table_of_the_known_entities() {
    let pm = placeholder_map();
    let expected = [
        ("account_number", "[ACCOUNT_NUMBER]"),
        ("private_address", "[ADDRESS]"),
        ("private_date", "[DATE]"),
        ("private_email", "[EMAIL]"),
        ("private_person", "[PERSON]"),
        ("private_phone", "[PHONE]"),
        ("private_url", "[URL]"),
        ("secret", "[SECRET]"),
    ];
    assert_eq!(pm.len(), expected.len());
    for (k, v) in expected {
        assert_eq!(placeholder_for(&pm, &k.to_string()), v);
    }
    for i in 0..pm.len() {
        for j in i + 1..pm.len() {
            assert_ne!(pm[i].0, pm[j].0);
            assert_ne!(pm[i].1, pm[j].1);
        }
    }
}
