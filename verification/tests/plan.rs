use json_redact::{find_ranges, redact_json, RedactionPlan, PLACEHOLDER};

#[test]
fn plan_holds_the_merged_ranges() {
    let text = r#"{"a": {"b":"c","d":1,"e":[{"f":"g"}]}}"#;
    let keys = [vec!["a", "e"]];
    let plan = RedactionPlan::new(text, &keys);
    assert_eq!(plan.ranges(), vec![[0, 11], [14, 19], [20, 38]]);
    assert_eq!(plan.ranges(), find_ranges(text, &keys));
}

#[test]
fn plan_redacts_its_own_text() {
    let text = r#"{"a": {"b":"c","d":1,"e":[{"f":"g"}]}}"#;
    let keys = [vec!["a", "e"]];
    let plan = RedactionPlan::new(text, &keys);
    assert_eq!(plan.redact("null"), r#"{"a": {"b":null,"d":null,"e":[{"f":"g"}]}}"#);
    let plan = RedactionPlan::new(text, &keys);
    assert_eq!(plan.redact(PLACEHOLDER), redact_json(text, find_ranges(text, &keys)));
}

#[test]
fn plan_of_an_empty_text() {
    let plan = RedactionPlan::new("", &[]);
    assert_eq!(plan.ranges(), Vec::<[usize; 2]>::new());
    assert_eq!(RedactionPlan::new("", &[]).redact("x"), "");
}

#[test]
fn plan_of_a_text_that_breaks_off() {
    let plan = RedactionPlan::new(r#"{"a":"b"#, &[vec!["a"]]);
    assert_eq!(plan.ranges(), vec![[0, 5]]);
    assert_eq!(plan.redact("?"), r#"{"a":?"#);
}
