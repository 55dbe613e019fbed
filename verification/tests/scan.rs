use json_redact::{find_ranges, redact_json, scan};

const CONTACTS: &str = r#"{"name":"Alice","age":30,"contacts":[{"type":"email","value":"alice@email.com"},{"type":"phone","value":"123-456-7890"}],"isActive":true}"#;

fn slice(text: &str, range: [usize; 2]) -> String {
    text.chars().skip(range[0]).take(range[1] - range[0]).collect()
}

#[test]
fn contacts_document_gives_the_five_ranges() {
    let keys = [vec!["contacts", "type"], vec!["name"]];
    let ranges = find_ranges(CONTACTS, &keys);
    assert_eq!(ranges, vec![[0, 22], [24, 61], [78, 104], [118, 132], [136, 137]]);
}

#[test]
fn multi_target_scan_matches_every_type_and_the_name() {
    let keys = [vec!["contacts", "type"], vec!["name"]];
    let raw = scan(CONTACTS, &keys);
    // the value of `name`, and the value of `type` in both elements of the array
    assert!(raw.contains(&[8, 15]));
    assert!(raw.contains(&[45, 52]));
    assert!(raw.contains(&[88, 95]));
    assert_eq!(slice(CONTACTS, [8, 15]), "\"Alice\"");
    assert_eq!(slice(CONTACTS, [45, 52]), "\"email\"");
    assert_eq!(slice(CONTACTS, [88, 95]), "\"phone\"");
    // no other value is kept
    for gone in [[22, 24], [61, 78], [104, 118], [132, 136]] {
        assert!(!raw.contains(&gone));
    }
    let redacted = redact_json(CONTACTS, find_ranges(CONTACTS, &keys));
    assert_eq!(
        redacted,
        r#"{"name":"Alice","age":"<REDACTED>","contacts":[{"type":"email","value":"<REDACTED>"},{"type":"phone","value":"<REDACTED>"}],"isActive":"<REDACTED>"}"#
    );
}

#[test]
fn each_target_alone_matches_its_own_values() {
    let only_name = find_ranges(CONTACTS, &[vec!["name"]]);
    assert_eq!(
        redact_json(CONTACTS, only_name),
        r#"{"name":"Alice","age":"<REDACTED>","contacts":[{"type":"<REDACTED>","value":"<REDACTED>"},{"type":"<REDACTED>","value":"<REDACTED>"}],"isActive":"<REDACTED>"}"#
    );
    let only_type = find_ranges(CONTACTS, &[vec!["contacts", "type"]]);
    assert_eq!(
        redact_json(CONTACTS, only_type),
        r#"{"name":"<REDACTED>","age":"<REDACTED>","contacts":[{"type":"email","value":"<REDACTED>"},{"type":"phone","value":"<REDACTED>"}],"isActive":"<REDACTED>"}"#
    );
}

#[test]
fn nested_array_target_keeps_the_array_verbatim() {
    let text = r#"{"a": {"b":"c","d":1,"e":[{"f":"g"}]}}"#;
    let keys = [vec!["a", "e"]];
    let raw = scan(text, &keys);
    assert_eq!(
        raw,
        vec![
            [0, 1], [1, 4], [4, 5], [5, 6], [6, 7], [7, 10], [10, 11], [14, 15], [15, 18],
            [18, 19], [20, 21], [21, 24], [24, 25], [25, 36], [36, 37], [37, 38],
        ]
    );
    assert_eq!(slice(text, [25, 36]), r#"[{"f":"g"}]"#);
    let ranges = find_ranges(text, &keys);
    assert_eq!(ranges, vec![[0, 11], [14, 19], [20, 38]]);
    assert_eq!(slice(text, [0, 6]), "{\"a\": ");
    assert_eq!(
        redact_json(text, ranges),
        r#"{"a": {"b":"<REDACTED>","d":"<REDACTED>","e":[{"f":"g"}]}}"#
    );
}

#[test]
fn a_shorter_or_longer_stack_does_not_match() {
    // the stack is ["a"] at the value of `a`, and ["a","e","f"] at the value of `f`
    let text = r#"{"a":1,"b":{"a":{"e":2}}}"#;
    let ranges = find_ranges(text, &[vec!["a", "e"]]);
    assert_eq!(ranges, vec![[0, 5], [6, 21], [22, 25]]);
    let text = r#"{"a":{"e":{"f":1},"x":2}}"#;
    let raw = scan(text, &[vec!["a", "e", "f"]]);
    assert!(raw.contains(&[15, 16]));
    assert!(!raw.contains(&[10, 17]));
    let raw = scan(text, &[vec!["a"]]);
    assert_eq!(raw, vec![[0, 1], [1, 4], [4, 5], [5, 24], [24, 25]]);
}

#[test]
fn only_the_exact_path_matches() {
    let text = r#"{"a":"no","e":"no","a2":{"e":"x"},"a":{"e":"yes","x":{"e":"no"}}}"#;
    let ranges = find_ranges(text, &[vec!["a", "e"]]);
    assert_eq!(
        redact_json(text, ranges),
        r#"{"a":"<REDACTED>","e":"<REDACTED>","a2":{"e":"<REDACTED>"},"a":{"e":"yes","x":{"e":"<REDACTED>"}}}"#
    );
}

#[test]
fn empty_target_list_keeps_the_skeleton_only() {
    let ranges = find_ranges(CONTACTS, &[]);
    assert_eq!(
        ranges,
        vec![[0, 8], [15, 22], [24, 45], [52, 61], [78, 88], [95, 104], [118, 132], [136, 137]]
    );
    assert_eq!(
        redact_json(CONTACTS, ranges),
        r#"{"name":"<REDACTED>","age":"<REDACTED>","contacts":[{"type":"<REDACTED>","value":"<REDACTED>"},{"type":"<REDACTED>","value":"<REDACTED>"}],"isActive":"<REDACTED>"}"#
    );
}

#[test]
fn empty_path_selects_the_whole_document() {
    assert_eq!(scan(r#"{"a":1}"#, &[vec![]]), vec![[0, 7]]);
    assert_eq!(find_ranges(" 42 ", &[vec![]]), vec![[0, 4]]);
}

#[test]
fn empty_text_has_no_ranges() {
    assert_eq!(scan("", &[vec!["a"]]), Vec::<[usize; 2]>::new());
    assert_eq!(find_ranges("", &[]), Vec::<[usize; 2]>::new());
}

#[test]
fn escaped_quote_does_not_end_a_string() {
    let text = r#"{"a":"x\"y","b":"z"}"#;
    let ranges = find_ranges(text, &[vec!["b"]]);
    assert_eq!(ranges, vec![[0, 5], [11, 20]]);
    assert_eq!(redact_json(text, ranges), r#"{"a":"<REDACTED>","b":"z"}"#);
    let kept = find_ranges(text, &[vec!["a"]]);
    assert_eq!(kept, vec![[0, 16], [19, 20]]);
}

#[test]
fn escaped_backslash_before_the_closing_quote() {
    let text = r#"{"a":"x\\","b":"z"}"#;
    let raw = scan(text, &[vec!["a"]]);
    assert!(raw.contains(&[5, 10]));
    assert_eq!(find_ranges(text, &[vec!["a"]]), vec![[0, 15], [18, 19]]);
}

#[test]
fn brackets_inside_strings_are_not_counted() {
    let text = r#"{"a":"}{][","b":["]","[",{"c":"}"}]}"#;
    let raw = scan(text, &[vec!["b"]]);
    assert_eq!(raw, vec![[0, 1], [1, 4], [4, 5], [11, 12], [12, 15], [15, 16], [16, 35], [35, 36]]);
}

#[test]
fn capture_counts_its_own_kind_of_bracket() {
    let text = r#"{"a":[{"x":[1]},{"y":"]"}],"b":0}"#;
    let raw = scan(text, &[vec!["a"]]);
    assert!(raw.contains(&[5, 26]));
    assert_eq!(find_ranges(text, &[vec!["a"]]), vec![[0, 31], [32, 33]]);
}

#[test]
fn parent_and_nested_target_together() {
    let text = r#"{"a":{"b":[1,2],"c":3},"d":4}"#;
    let both = find_ranges(text, &[vec!["a"], vec!["a", "b"]]);
    assert_eq!(both, vec![[0, 27], [28, 29]]);
    let nested = find_ranges(text, &[vec!["a", "b"]]);
    assert_eq!(nested, vec![[0, 20], [21, 27], [28, 29]]);
    assert_eq!(
        redact_json(text, nested),
        r#"{"a":{"b":[1,2],"c":"<REDACTED>"},"d":"<REDACTED>"}"#
    );
}

#[test]
fn whitespace_belongs_to_the_skeleton() {
    let text = "{\n  \"a\": 1,\n  \"b\": [1, 2],\n  \"c\": {\"d\": null}\n}\n";
    let ranges = find_ranges(text, &[vec!["b"]]);
    assert_eq!(ranges, vec![[0, 9], [10, 40], [44, 48]]);
    assert_eq!(
        redact_json(text, ranges),
        "{\n  \"a\": \"<REDACTED>\",\n  \"b\": [1, 2],\n  \"c\": {\"d\": \"<REDACTED>\"}\n}\n"
    );
    let none = find_ranges(text, &[]);
    assert_eq!(none, vec![[0, 9], [10, 20], [21, 23], [24, 40], [44, 48]]);
}

#[test]
fn whitespace_run_is_one_range() {
    let raw = scan("{\"a\":  \t1}", &[]);
    assert_eq!(raw, vec![[0, 1], [1, 4], [4, 5], [5, 8], [9, 10]]);
}

#[test]
fn whitespace_between_key_and_colon() {
    let text = r#"{"a" : 1 , "b" :2}"#;
    let ranges = find_ranges(text, &[vec!["b"]]);
    assert_eq!(ranges, vec![[0, 7], [8, 18]]);
    assert_eq!(redact_json(text, ranges), r#"{"a" : "<REDACTED>" , "b" :2}"#);
}

#[test]
fn bare_values_end_before_their_delimiter() {
    let text = r#"{"a":true,"b":null,"c":-1.5e3}"#;
    let raw = scan(text, &[vec!["c"], vec!["a"]]);
    assert!(raw.contains(&[5, 9]));
    assert!(raw.contains(&[23, 29]));
    assert!(!raw.contains(&[14, 18]));
    assert_eq!(find_ranges(text, &[vec!["c"], vec!["a"]]), vec![[0, 14], [18, 30]]);
}

#[test]
fn bare_value_at_the_end_of_the_text() {
    assert_eq!(scan("true", &[vec![]]), vec![[0, 4]]);
    assert_eq!(scan("true", &[]), Vec::<[usize; 2]>::new());
}

#[test]
fn array_elements_share_the_path_of_the_array() {
    let text = r#"{"xs":[1,"two",{"k":3},[4]],"y":5}"#;
    assert_eq!(find_ranges(text, &[vec!["xs"]]), vec![[0, 32], [33, 34]]);
    let inner = find_ranges(text, &[vec!["xs", "k"]]);
    assert_eq!(inner, vec![[0, 7], [8, 9], [14, 24], [25, 32], [33, 34]]);
    assert_eq!(
        redact_json(text, inner),
        r#"{"xs":["<REDACTED>","<REDACTED>",{"k":3},["<REDACTED>"]],"y":"<REDACTED>"}"#
    );
}

#[test]
fn empty_containers_are_skeleton() {
    let text = r#"{"a":{},"b":[]}"#;
    assert_eq!(find_ranges(text, &[]), vec![[0, 15]]);
}

#[test]
fn offsets_count_code_points() {
    let text = "{\"é\":\"ü\",\"k\":\"日本\"}";
    let ranges = find_ranges(text, &[vec!["k"]]);
    assert_eq!(ranges, vec![[0, 5], [8, 18]]);
    assert_eq!(redact_json(text, ranges), "{\"é\":\"<REDACTED>\",\"k\":\"日本\"}");
    let by_key = find_ranges(text, &[vec!["é"]]);
    assert_eq!(by_key, vec![[0, 13], [17, 18]]);
}

#[test]
fn unterminated_string_stops_the_scan() {
    let text = r#"{"a":"b"#;
    assert_eq!(scan(text, &[vec!["a"]]), vec![[0, 1], [1, 4], [4, 5]]);
    assert_eq!(scan("\"abc\\", &[vec![]]), Vec::<[usize; 2]>::new());
}

#[test]
fn closing_bracket_without_partner_stops_the_scan() {
    let text = r#"{"a":1]}"#;
    assert_eq!(scan(text, &[vec!["a"]]), vec![[0, 1], [1, 4], [4, 5], [5, 6]]);
    assert_eq!(scan("]", &[]), Vec::<[usize; 2]>::new());
    assert_eq!(scan("{}}", &[]), vec![[0, 1], [1, 2]]);
}

#[test]
fn subtree_without_closing_bracket_stops_the_scan() {
    let text = r#"{"a":[1,2"#;
    assert_eq!(scan(text, &[vec!["a"]]), vec![[0, 1], [1, 4], [4, 5]]);
    assert_eq!(scan(text, &[]), vec![[0, 1], [1, 4], [4, 5], [5, 6], [7, 8]]);
}

#[test]
fn scanned_ranges_ascend_and_stay_inside_the_text() {
    let keys = [vec!["contacts", "type"], vec!["name"]];
    let raw = scan(CONTACTS, &keys);
    let len = CONTACTS.chars().count();
    for r in &raw {
        assert!(r[0] < r[1] && r[1] <= len);
    }
    for pair in raw.windows(2) {
        assert!(pair[0][1] <= pair[1][0]);
    }
}

#[test]
fn keys_are_compared_as_written() {
    let text = r#"{"a\"b":1,"c\u0064":2,"cd":3}"#;
    assert_eq!(
        redact_json(text, find_ranges(text, &[vec![r#"a\"b"#]])),
        r#"{"a\"b":1,"c\u0064":"<REDACTED>","cd":"<REDACTED>"}"#
    );
    assert_eq!(
        redact_json(text, find_ranges(text, &[vec!["cd"]])),
        r#"{"a\"b":"<REDACTED>","c\u0064":"<REDACTED>","cd":3}"#
    );
}

#[test]
fn empty_key_and_empty_string() {
    let text = r#"{"":"","a":""}"#;
    assert_eq!(redact_json(text, find_ranges(text, &[vec![""]])), r#"{"":"","a":"<REDACTED>"}"#);
    assert_eq!(find_ranges(text, &[vec!["a"]]), vec![[0, 4], [6, 14]]);
}

#[test]
fn two_targets_cover_what_each_covers() {
    let text = r#"{"a": {"b":"c","d":1,"e":[{"f":"g"}]}}"#;
    let both = find_ranges(text, &[vec!["a", "e"], vec!["a", "b"]]);
    let first = find_ranges(text, &[vec!["a", "e"]]);
    let second = find_ranges(text, &[vec!["a", "b"]]);
    assert_eq!(both, vec![[0, 19], [20, 38]]);
    assert_eq!(first, vec![[0, 11], [14, 19], [20, 38]]);
    assert_eq!(second, vec![[0, 19], [20, 31], [34, 38]]);
    let covered = |ranges: &Vec<[usize; 2]>, x: usize| ranges.iter().any(|r| r[0] <= x && x < r[1]);
    for x in 0..text.chars().count() {
        assert_eq!(covered(&both, x), covered(&first, x) || covered(&second, x));
    }
}

#[test]
fn the_order_of_targets_changes_nothing() {
    let text = r#"{"a": {"b":"c","d":1,"e":[{"f":"g"}]}}"#;
    assert_eq!(
        scan(text, &[vec!["a", "e"], vec!["a", "b"]]),
        scan(text, &[vec!["a", "b"], vec!["a", "e"]])
    );
    let broken = r#"{"a":[1}],"b":2}"#;
    assert_eq!(scan(broken, &[vec!["a"], vec!["b"]]), scan(broken, &[vec!["b"], vec!["a"]]));
}

#[test]
fn one_pass_over_a_text_that_is_no_document() {
    let text = r#"{"a":[1}],"b":2}"#;
    assert_eq!(find_ranges(text, &[vec!["a"], vec!["b"]]), vec![[0, 16]]);
    assert_eq!(find_ranges(text, &[vec!["a"]]), vec![[0, 14], [15, 16]]);
    assert_eq!(find_ranges(text, &[vec!["b"]]), vec![[0, 6]]);
}

#[test]
fn the_skeleton_is_covered_whatever_the_targets() {
    let text = "{\n  \"a\": 1,\n  \"b\": [1, \"x,y\"],\n  \"c\": {\"d\": null}\n}\n";
    let skeleton = find_ranges(text, &[]);
    let covered = |ranges: &Vec<[usize; 2]>, x: usize| ranges.iter().any(|r| r[0] <= x && x < r[1]);
    let target_lists: Vec<Vec<Vec<&str>>> = vec![
        vec![vec!["a"]],
        vec![vec!["b"], vec!["c", "d"]],
        vec![vec!["c"]],
        vec![vec![]],
        vec![vec!["none"]],
    ];
    for targets in &target_lists {
        let ranges = find_ranges(text, targets);
        for x in 0..text.chars().count() {
            if covered(&skeleton, x) {
                assert!(covered(&ranges, x));
            }
        }
    }
    // the values are what the skeleton leaves out
    let gaps: Vec<usize> = (0..text.chars().count()).filter(|x| !covered(&skeleton, *x)).collect();
    let values: String = text.chars().enumerate().filter(|(x, _)| gaps.contains(x)).map(|(_, c)| c).collect();
    assert_eq!(values, "11\"x,y\"null");
}
