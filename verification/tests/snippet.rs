use serde_norway::Value;
use snippet_library::snippet::{apply_fields, snippet_view, string_field};
use snippet_library::yaml::{YamlMapping, YamlValue};

fn text(s: &str) -> YamlValue {
    YamlValue::Text(s.to_string())
}

fn mapping(pairs: Vec<(&str, YamlValue)>) -> YamlMapping {
    YamlMapping { entries: pairs.into_iter().map(|(k, v)| (text(k), v)).collect() }
}

fn keys(m: &YamlMapping) -> Vec<String> {
    m.entries
        .iter()
        .map(|(k, _)| match k {
            YamlValue::Text(s) => s.clone(),
            _ => panic!("non-string key"),
        })
        .collect()
}

#[test]
fn written_snippet_reads_back() {
    let mut item = mapping(vec![
        ("triggers", YamlValue::Sequence(vec![text(":a"), text(":b")])),
        ("replace", text("old")),
        ("vars", YamlValue::Null),
        ("label", text("Old label")),
    ]);
    apply_fields(&mut item, ":new", "new text", "  Label  ");
    // `triggers` is swap-removed: the last entry takes its place.
    assert_eq!(keys(&item), vec!["label", "replace", "vars", "trigger"]);
    let view = snippet_view(&item).unwrap();
    assert_eq!(view.trigger, ":new");
    assert_eq!(view.replacement, "new text");
    assert_eq!(view.label, "Label");
    assert!(view.editable);

    apply_fields(&mut item, ":new", "x", "   ");
    assert_eq!(string_field(&item, "label"), None);
    assert_eq!(snippet_view(&item).unwrap().label, "");
}

#[test]
fn only_plain_string_keys_match() {
    let number: Value = serde_norway::from_str("1").unwrap();
    let number = match number {
        Value::Number(n) => n,
        _ => unreachable!(),
    };
    let item = YamlMapping {
        entries: vec![
            (YamlValue::Number(number), text("one")),
            (text("trigger"), YamlValue::Bool(true)),
        ],
    };
    assert_eq!(string_field(&item, "trigger"), None);
    assert!(snippet_view(&item).is_none());
}

#[test]
fn empty_triggers_list_has_no_view() {
    let item = mapping(vec![
        ("triggers", YamlValue::Sequence(vec![])),
        ("regex", text("ignored")),
        ("replace", text("x")),
    ]);
    assert!(snippet_view(&item).is_none());
}

#[test]
fn triggers_not_a_list_falls_back_to_regex() {
    let item = mapping(vec![("triggers", text(":a")), ("regex", text("r+")), ("replace", text("x"))]);
    let view = snippet_view(&item).unwrap();
    assert_eq!(view.trigger, "regex: r+");
    assert!(!view.editable);
}
