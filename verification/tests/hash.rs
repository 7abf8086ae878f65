use cpm_planner::hash::{hash_graph, sort_texts, write_entry, write_graph};
use cpm_planner::plan::{Deliverable, PlanGraph};
use cpm_planner::text::decimal_text;
use serde_json::Value;
use sha2::Digest;

fn texts(list: &[&str]) -> Vec<String> {
    list.iter().map(|t| t.to_string()).collect()
}

fn graph() -> PlanGraph {
    PlanGraph {
        deliverables: vec![
            Deliverable {
                id: "c".to_string(),
                owned_files: vec![],
                prerequisites: texts(&["a\"b"]),
                estimated_effort_hours: None,
                metadata: "null".to_string(),
            },
            Deliverable {
                id: "a\"b".to_string(),
                owned_files: texts(&["y", "x"]),
                prerequisites: vec![],
                estimated_effort_hours: Some(1_500_000),
                metadata: "{\"k\":1}".to_string(),
            },
        ],
        max_chained_dispatch: Some(3),
    }
}

/// The hash of a payload that is put together as a JSON value.
fn payload_hash(deliverables: Vec<Value>, limit: Option<u64>) -> String {
    let mut payload = serde_json::Map::new();
    payload.insert("deliverables".to_string(), Value::from(deliverables));
    payload.insert("max_chained_dispatch".to_string(), Value::from(limit));
    let bytes = serde_json::to_vec(&Value::Object(payload)).unwrap();
    sha2::Sha256::digest(&bytes).iter().map(|b| format!("{b:02x}")).collect()
}

fn entry(id: &str, files: &[&str], needs: &[&str], effort: Option<f32>, metadata: Value) -> Value {
    let mut map = serde_json::Map::new();
    map.insert("id".to_string(), Value::from(id));
    map.insert("owned_files".to_string(), Value::from(texts(files)));
    map.insert("prerequisites".to_string(), Value::from(texts(needs)));
    map.insert("estimated_effort_hours".to_string(), Value::from(effort));
    map.insert("metadata".to_string(), metadata);
    Value::Object(map)
}

#[test]
fn the_hash_is_that_of_the_canonical_text() {
    let first = write_entry("\"a\\\"b\"", Some(1_500_000), "{\"k\":1}", &texts(&["\"x\"", "\"y\""]), &vec![]);
    assert_eq!(
        first,
        "{\"estimated_effort_hours\":1.5,\"id\":\"a\\\"b\",\"metadata\":{\"k\":1},\"owned_files\":[\"x\",\"y\"],\"prerequisites\":[]}"
    );
    let second = write_entry("\"c\"", None, "null", &vec![], &texts(&["\"a\\\"b\""]));
    let text = write_graph(&vec![first, second], Some(3));
    assert!(text.ends_with("],\"max_chained_dispatch\":3}"));
    let digest: Vec<String> = sha2::Sha256::digest(text.as_bytes()).iter().map(|b| format!("{b:02x}")).collect();
    assert_eq!(hash_graph(&graph()), digest.concat());
    assert_eq!(hash_graph(&graph()), "04767326fedc40286e31c569165af3fa57f816619860a9a5dd945f34454cc57d");
}

#[test]
fn the_hash_is_that_of_the_payload_as_json() {
    let metadata: Value = serde_json::from_str("{\"k\":1}").unwrap();
    let expected = payload_hash(
        vec![entry("a\"b", &["x", "y"], &[], Some(1.5), metadata), entry("c", &[], &["a\"b"], None, Value::Null)],
        Some(3),
    );
    assert_eq!(hash_graph(&graph()), expected);

    for hours in [0.0f32, 2.0, 0.25, 40.0, 1.015625, -3.5, 123456.5] {
        let mut g = graph();
        g.deliverables.truncate(1);
        g.deliverables[0].estimated_effort_hours = Some((f64::from(hours) * 1_000_000.0) as i64);
        g.max_chained_dispatch = None;
        let expected = payload_hash(vec![entry("c", &[], &["a\"b"], Some(hours), Value::Null)], None);
        assert_eq!(hash_graph(&g), expected, "{hours} hours");
    }
}

#[test]
fn the_layout_of_metadata_does_not_change_the_hash() {
    let with_metadata = |text: &str| {
        let mut g = graph();
        g.deliverables[0].metadata = text.to_string();
        hash_graph(&g)
    };
    let plain = with_metadata("{\"a\":[1,2.5],\"b\":\"x, y\"}");
    assert_eq!(with_metadata(" { \"b\" : \"x, y\" , \"a\" : [1, 2.50] } "), plain);
    assert_ne!(with_metadata("{\"a\":[2.5,1],\"b\":\"x, y\"}"), plain);
    // Text that is not JSON counts as a string.
    assert_eq!(with_metadata("not json"), with_metadata("\"not json\""));
    assert_ne!(with_metadata("not json"), with_metadata("null"));
}

#[test]
fn hours_are_written_as_decimals() {
    for (millionths, text) in [
        (0, "0.0"),
        (1_000_000, "1.0"),
        (1_500_000, "1.5"),
        (1, "0.000001"),
        (-1, "-0.000001"),
        (10_200_030, "10.20003"),
        (-2_500_000, "-2.5"),
        (i64::MAX, "9223372036854.775807"),
        (i64::MIN, "-9223372036854.775808"),
    ] {
        assert_eq!(decimal_text(millionths), text);
    }
}

#[test]
fn the_canonical_text_is_json() {
    let entry = write_entry("\"d\"", Some(-5), "[true]", &texts(&["\"f\""]), &texts(&["\"p\"", "\"q\""]));
    let value: Value = serde_json::from_str(&write_graph(&vec![entry], None)).unwrap();
    assert_eq!(value["deliverables"][0]["estimated_effort_hours"].as_f64(), Some(-0.000005));
    assert_eq!(value["deliverables"][0]["metadata"][0].as_bool(), Some(true));
    assert_eq!(value["deliverables"][0]["prerequisites"][1].as_str(), Some("q"));
    assert!(value["max_chained_dispatch"].is_null());
}

#[test]
fn every_character_is_quoted_as_json_does() {
    let nasty: String = (0u32..=0x80).filter_map(char::from_u32).chain("\u{2028}é\u{1F600}".chars()).collect();
    let mut quoted = String::from("\"");
    for c in nasty.chars() {
        match c {
            '"' => quoted.push_str("\\\""),
            '\\' => quoted.push_str("\\\\"),
            '\u{8}' => quoted.push_str("\\b"),
            '\t' => quoted.push_str("\\t"),
            '\n' => quoted.push_str("\\n"),
            '\u{c}' => quoted.push_str("\\f"),
            '\r' => quoted.push_str("\\r"),
            c if c < ' ' => quoted.push_str(&format!("\\u{:04x}", c as u32)),
            c => quoted.push(c),
        }
    }
    quoted.push('"');
    let entry = write_entry(&quoted, None, "null", &vec![], &vec![]);
    let text = write_graph(&vec![entry], None);
    let digest: Vec<String> = sha2::Sha256::digest(text.as_bytes()).iter().map(|b| format!("{b:02x}")).collect();
    let mut g = graph();
    g.deliverables.truncate(1);
    g.deliverables[0].id = nasty;
    g.deliverables[0].prerequisites = vec![];
    g.max_chained_dispatch = None;
    assert_eq!(hash_graph(&g), digest.concat());
}

#[test]
fn a_quote_in_a_name_does_not_look_like_two_names() {
    let with_files = |files: &[&str]| {
        let mut g = graph();
        g.deliverables[0].owned_files = texts(files);
        hash_graph(&g)
    };
    assert_ne!(with_files(&["a\",\"b"]), with_files(&["a", "b"]));
    assert_ne!(with_files(&["a\\"]), with_files(&["a"]));
    assert_eq!(with_files(&["a"]).len(), 64);
}

#[test]
fn order_does_not_change_the_hash() {
    let mut other = graph();
    other.deliverables.reverse();
    other.deliverables[0].owned_files.reverse();
    assert_eq!(hash_graph(&graph()), hash_graph(&other));
}

#[test]
fn content_changes_the_hash() {
    let base = hash_graph(&graph());
    let mut g = graph();
    g.max_chained_dispatch = None;
    assert_ne!(hash_graph(&g), base);
    let mut g = graph();
    g.deliverables[0].estimated_effort_hours = Some(0);
    assert_ne!(hash_graph(&g), base);
    let mut g = graph();
    g.deliverables[0].metadata = "{}".to_string();
    assert_ne!(hash_graph(&g), base);
    let mut g = graph();
    g.deliverables[0].owned_files = texts(&["z"]);
    assert_ne!(hash_graph(&g), base);
    let mut g = graph();
    g.deliverables[0].prerequisites = vec![];
    assert_ne!(hash_graph(&g), base);
}

#[test]
fn texts_sort_by_their_bytes() {
    let mut given = texts(&["b", "", "ab", "a", "Z", "\u{1F600}", "\u{FFFD}", "é", "a"]);
    let sorted = sort_texts(&given);
    given.sort();
    assert_eq!(sorted, given);
}
