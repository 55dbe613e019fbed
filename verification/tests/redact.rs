use json_redact::{find_ranges, ranges_within, redact, redact_json, try_redact, PLACEHOLDER};

#[test]
fn placeholder_is_a_json_string() {
    assert_eq!(PLACEHOLDER, "\"<REDACTED>\"");
}

#[test]
fn redact_fills_each_gap_once() {
    assert_eq!(redact("abcdef", &[[1, 2], [4, 5]], "#"), "#b#e#");
}

#[test]
fn redact_without_gaps_copies_the_text() {
    assert_eq!(redact("abcdef", &[[0, 2], [2, 6]], "#"), "abcdef");
    assert_eq!(redact("abcdef", &[[0, 6]], "#"), "abcdef");
}

#[test]
fn redact_without_ranges() {
    assert_eq!(redact("abcdef", &[], "#"), "#");
    assert_eq!(redact("", &[], "#"), "");
    assert_eq!(redact_json("abc", vec![]), "\"<REDACTED>\"");
}

#[test]
fn redact_leading_and_trailing_gap() {
    assert_eq!(redact("abcdef", &[[2, 4]], "<>"), "<>cd<>");
    assert_eq!(redact("abcdef", &[[0, 4]], "<>"), "abcd<>");
    assert_eq!(redact("abcdef", &[[2, 6]], "<>"), "<>cdef");
}

#[test]
fn redact_takes_the_ranges_in_the_order_given() {
    assert_eq!(redact("abcdef", &[[4, 5], [1, 2]], "#"), "#eb#");
}

#[test]
fn redact_with_an_empty_range() {
    assert_eq!(redact("abcdef", &[[0, 0]], "--"), "--");
    assert_eq!(redact("abcdef", &[[6, 6]], "--"), "--");
}

#[test]
fn redact_counts_code_points() {
    assert_eq!(redact("日本語のテキスト", &[[1, 3], [5, 6]], "…"), "…本語…キ…");
}

#[test]
fn redact_json_uses_the_fixed_placeholder() {
    assert_eq!(redact_json("[1,2]", vec![[0, 1], [2, 3], [4, 5]]), "[\"<REDACTED>\",\"<REDACTED>\"]");
    assert_eq!(
        redact_json("[1,2]", vec![[0, 1], [2, 3], [4, 5]]),
        redact("[1,2]", &[[0, 1], [2, 3], [4, 5]], PLACEHOLDER)
    );
}

#[test]
fn redacted_length_is_kept_text_and_placeholders() {
    let text = r#"{"a": {"b":"c","d":1,"e":[{"f":"g"}]}}"#;
    let ranges = find_ranges(text, &[vec!["a", "e"]]);
    let kept: usize = ranges.iter().map(|r| r[1] - r[0]).sum();
    let out = redact(text, &ranges, "<gap>");
    // two gaps: the values of `b` and `d`
    assert_eq!(kept, 11 + 5 + 18);
    assert_eq!(out.chars().count(), kept + 2 * 5);
}

#[test]
fn every_kept_range_is_in_the_output_verbatim() {
    let text = r#"{"name":"Alice","age":30,"tags":["x","y"],"on":true}"#;
    let ranges = find_ranges(text, &[vec!["tags"]]);
    let mark = "\u{0}";
    let out: Vec<char> = redact(text, &ranges, mark).chars().collect();
    let source: Vec<char> = text.chars().collect();
    let mut at = 0;
    let mut last = 0;
    for r in &ranges {
        if last < r[0] {
            assert_eq!(out[at], '\u{0}');
            at += 1;
        }
        assert_eq!(&out[at..at + r[1] - r[0]], &source[r[0]..r[1]]);
        at += r[1] - r[0];
        last = r[1];
    }
    if last < source.len() {
        assert_eq!(out[at], '\u{0}');
        at += 1;
    }
    assert_eq!(at, out.len());
}

#[test]
fn ranges_within_tells_usable_plans() {
    assert!(ranges_within(&vec![[0, 2], [2, 6]], 6));
    assert!(ranges_within(&vec![], 0));
    assert!(ranges_within(&vec![[4, 5], [1, 2]], 6));
    assert!(!ranges_within(&vec![[0, 7]], 6));
    assert!(!ranges_within(&vec![[3, 2]], 6));
    assert!(!ranges_within(&vec![[0, 1], [7, 7]], 6));
}

#[test]
fn try_redact_refuses_ranges_outside_the_text() {
    assert_eq!(try_redact("abcdef", &[[1, 2], [4, 5]], "#"), Some("#b#e#".to_string()));
    assert_eq!(try_redact("abcdef", &[[0, 6]], "#"), Some("abcdef".to_string()));
    assert_eq!(try_redact("abcdef", &[[0, 7]], "#"), None);
    assert_eq!(try_redact("abcdef", &[[3, 2]], "#"), None);
    assert_eq!(try_redact("日本", &[[0, 3]], "#"), None);
    assert_eq!(try_redact("日本", &[[0, 2]], "#"), Some("日本".to_string()));
    assert_eq!(try_redact("", &[], "#"), Some(String::new()));
}
