use node_log::record::{
    build_record, compose_line, is_error_level, record_line, upsert, Field, Payload,
};

fn field(name: &str, value: &str) -> Field {
    Field { name: name.to_string(), value: value.to_string() }
}

#[test]
fn absent_payload_has_exactly_six_fields() {
    let line = compose_line("T", "INFO", "boot", "n1", "/w", Payload::Absent);
    assert_eq!(
        line,
        "{\"ts\":\"T\",\"level\":\"INFO\",\"component\":\"node\",\"event\":\"boot\",\"nodeId\":\"n1\",\"workspace\":\"/w\"}"
    );
    assert!(!line.contains("\"data\""));
}

#[test]
fn caller_field_named_like_fixed_field_wins() {
    let payload = Payload::Fields(vec![field("event", "\"custom\"")]);
    let line = compose_line("T", "INFO", "boot", "n1", "/w", payload);
    assert_eq!(
        line,
        "{\"ts\":\"T\",\"level\":\"INFO\",\"component\":\"node\",\"event\":\"custom\",\"nodeId\":\"n1\",\"workspace\":\"/w\"}"
    );
}

#[test]
fn new_caller_fields_append_in_order() {
    let payload = Payload::Fields(vec![field("userId", "\"u1\""), field("count", "3")]);
    let line = compose_line("T", "WARN", "sync", "n2", "/w2", payload);
    assert_eq!(
        line,
        "{\"ts\":\"T\",\"level\":\"WARN\",\"component\":\"node\",\"event\":\"sync\",\"nodeId\":\"n2\",\"workspace\":\"/w2\",\"userId\":\"u1\",\"count\":3}"
    );
}

#[test]
fn duplicate_caller_fields_last_wins() {
    let payload = Payload::Fields(vec![field("k", "1"), field("k", "2")]);
    let line = compose_line("T", "INFO", "e", "n", "w", payload);
    assert_eq!(
        line,
        "{\"ts\":\"T\",\"level\":\"INFO\",\"component\":\"node\",\"event\":\"e\",\"nodeId\":\"n\",\"workspace\":\"w\",\"k\":2}"
    );
}

#[test]
fn scalar_payload_lands_under_data() {
    let payload = Payload::Scalar("[1,2]".to_string());
    let line = compose_line("T", "ERROR", "fail", "n", "w", payload);
    assert_eq!(
        line,
        "{\"ts\":\"T\",\"level\":\"ERROR\",\"component\":\"node\",\"event\":\"fail\",\"nodeId\":\"n\",\"workspace\":\"w\",\"data\":[1,2]}"
    );
}

#[test]
fn record_stays_on_one_line_despite_newlines_in_strings() {
    // a newline in a fixed field is escaped by the encoder, so the record
    // never spans two lines
    let line = compose_line("T", "INFO", "a\nb", "n\r\nid", "w", Payload::Absent);
    assert!(!line.contains('\n'));
    assert!(line.contains("\"event\":\"a\\nb\""));
}

#[test]
fn string_values_are_escaped() {
    // if the encoder handed its argument back unchanged, the quotes and the
    // backslash escape below would be missing
    let line = compose_line("T", "INFO", "a\"b", "n", "w", Payload::Absent);
    assert!(line.contains("\"event\":\"a\\\"b\""));
}

#[test]
fn build_record_orders_fields() {
    let rec = build_record("T", "INFO", "e", "n", "w", Payload::Absent);
    let names: Vec<&str> = rec.iter().map(|f| f.name.as_str()).collect();
    assert_eq!(names, vec!["ts", "level", "component", "event", "nodeId", "workspace"]);
}

#[test]
fn upsert_replaces_in_place_or_appends() {
    let mut rec = vec![field("a", "1"), field("b", "2")];
    upsert(&mut rec, "a".to_string(), "9".to_string());
    assert_eq!(rec.len(), 2);
    assert_eq!(rec[0].value, "9");
    upsert(&mut rec, "c".to_string(), "3".to_string());
    assert_eq!(rec.len(), 3);
    assert_eq!(rec[2].name, "c");
    let line = record_line(&rec);
    assert_eq!(line, "{\"a\":9,\"b\":2,\"c\":3}");
}

#[test]
fn error_level_detection() {
    assert!(is_error_level("ERROR"));
    assert!(!is_error_level("INFO"));
    assert!(!is_error_level("WARN"));
    assert!(!is_error_level("error"));
}
