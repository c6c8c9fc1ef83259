use keyed_list::trace::{
    render_error_entry, render_unserializable_entry, render_value_entry, tracing_props,
    u64_to_decimal, DefalutMatch, Match, SerializeMatch,
};

#[test]
fn value_entry_text() {
    assert_eq!(
        render_value_entry("count", "42"),
        "{\"name\": \"count\", \"value\": 42}"
    );
}

#[test]
fn error_entry_text() {
    assert_eq!(
        render_error_entry("count", "\"boom\""),
        "{\"name\": \"count\", \"error\": \"boom\"}"
    );
}

#[test]
fn unserializable_entry_text() {
    assert_eq!(
        render_unserializable_entry("widget"),
        "{\"name\": \"widget\", \"error\": \"The trait `serde::Serialize` is not implemented\"}"
    );
}

#[test]
fn decimal_rendering() {
    assert_eq!(u64_to_decimal(0), "0");
    assert_eq!(u64_to_decimal(7), "7");
    assert_eq!(u64_to_decimal(10), "10");
    assert_eq!(u64_to_decimal(9_876_543_210), "9876543210");
    assert_eq!(u64_to_decimal(u64::MAX), "18446744073709551615");
}

#[test]
fn spez_picks_the_serializing_arm_for_numbers() {
    let value = 42u64;
    let m = Match { name: "count", value: Some(&value) };
    let rendered = (&&m).spez();
    assert_eq!(rendered, "{\"name\": \"count\", \"value\": 42}");
}

#[test]
fn spez_falls_back_without_a_serializer() {
    struct Opaque;
    let value = Opaque;
    let m = Match { name: "widget", value: Some(&value) };
    let rendered = m.spez();
    assert_eq!(
        rendered,
        "{\"name\": \"widget\", \"error\": \"The trait `serde::Serialize` is not implemented\"}"
    );
}

#[test]
fn props_join_empty() {
    assert_eq!(tracing_props(&vec![]), "[]");
}

#[test]
fn props_join_entries() {
    let entries = vec!["{\"a\": 1}".to_string(), "{\"b\": 2}".to_string()];
    assert_eq!(tracing_props(&entries), "[{\"a\": 1},{\"b\": 2}]");
}
