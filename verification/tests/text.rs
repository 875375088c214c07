use karma::config::{placeholder_for, placeholder_map};
use karma::text::{find_first, is_blank, is_whitespace, parse_usize, to_chars};

#[test]
fn parses_like_std() {
    for s in ["0", "42", "+7", "007", "", "+", "-1", "-0", "12a", " 1", "1 ", "١"] {
        assert_eq!(parse_usize(s), s.parse::<usize>().ok(), "input {:?}", s);
    }
    let max = usize::MAX.to_string();
    assert_eq!(parse_usize(&max), Some(usize::MAX));
    let over = format!("{}0", usize::MAX);
    assert_eq!(parse_usize(&over), None);
}

#[test]
fn whitespace_matches_std() {
    for c in ['\t', '\n', ' ', '\u{85}', '\u{a0}', '\u{1680}', '\u{2003}', '\u{2029}', '\u{3000}', 'a', '\u{200b}', '_'] {
        assert_eq!(is_whitespace(c), c.is_whitespace(), "char {:?}", c);
    }
    assert!(is_blank(""));
    assert!(is_blank(" \t\n\u{3000}"));
    assert!(!is_blank("  x "));
}

#[test]
fn chars_and_search() {
    let v = to_chars("héllo-wörld");
    assert_eq!(v.len(), 11);
    assert_eq!(find_first(&v, '-'), 5);
    assert_eq!(find_first(&v, '#'), 11);
}

#[test]
fn upper_case_is_full_mapping() {
    let pm = placeholder_map();
    assert_eq!(placeholder_for(&pm, &"my_url".to_string()), "[MY_URL]");
    assert_eq!(placeholder_for(&pm, &"straße".to_string()), "[STRASSE]");
}
