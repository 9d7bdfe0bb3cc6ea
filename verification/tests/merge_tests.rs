use credential_mapper::json::Json;
use credential_mapper::merge::merge;

fn text(s: &str) -> Json {
    Json::String(s.to_string())
}

fn number(s: &str) -> Json {
    Json::Number(s.to_string())
}

fn object(entries: Vec<(&str, Json)>) -> Json {
    Json::Object(entries.into_iter().map(|(k, v)| (k.to_string(), v)).collect())
}

#[test]
fn merge_null_leaves_destination() {
    let mut d = object(vec![("a", text("x"))]);
    merge(&mut d, Json::Null);
    assert_eq!(d, object(vec![("a", text("x"))]));
    let mut scalar = number("7");
    merge(&mut scalar, Json::Null);
    assert_eq!(scalar, number("7"));
}

#[test]
fn merge_unites_object_keys() {
    let mut d = object(vec![("a", text("x"))]);
    merge(&mut d, object(vec![("b", text("y"))]));
    assert_eq!(d, object(vec![("a", text("x")), ("b", text("y"))]));
}

#[test]
fn merge_recurses_into_shared_keys() {
    let mut d = object(vec![("a", object(vec![("p", number("1"))])), ("z", Json::Bool(true))]);
    merge(&mut d, object(vec![("a", object(vec![("q", number("2"))]))]));
    assert_eq!(
        d,
        object(vec![
            ("a", object(vec![("p", number("1")), ("q", number("2"))])),
            ("z", Json::Bool(true)),
        ])
    );
}

#[test]
fn merge_null_entry_keeps_present_key() {
    let mut d = object(vec![("k", text("kept")), ("m", number("1"))]);
    merge(&mut d, object(vec![("k", Json::Null), ("m", number("2")), ("n", Json::Null)]));
    assert_eq!(
        d,
        object(vec![("k", text("kept")), ("m", number("2")), ("n", Json::Null)])
    );
}

#[test]
fn merge_arrays_by_position() {
    let mut d = Json::Array(vec![text("a"), text("b"), text("c")]);
    merge(&mut d, Json::Array(vec![Json::Null, text("B")]));
    assert_eq!(d, Json::Array(vec![text("a"), text("B"), text("c")]));
}

#[test]
fn merge_appends_items_beyond_destination() {
    let mut d = Json::Array(vec![text("a")]);
    merge(&mut d, Json::Array(vec![Json::Null, Json::Null, text("c")]));
    assert_eq!(d, Json::Array(vec![text("a"), Json::Null, text("c")]));
}

#[test]
fn merge_replaces_on_type_mismatch() {
    let mut d = object(vec![("a", text("x"))]);
    merge(&mut d, Json::Array(vec![number("1")]));
    assert_eq!(d, Json::Array(vec![number("1")]));
    let mut s = text("old");
    merge(&mut s, text("new"));
    assert_eq!(s, text("new"));
    let mut n = Json::Null;
    merge(&mut n, object(vec![("a", Json::Null)]));
    assert_eq!(n, object(vec![("a", Json::Null)]));
}

#[test]
fn merge_twice_is_merge_once() {
    let incoming = || {
        object(vec![
            ("a", object(vec![("b", Json::Array(vec![Json::Null, text("x")]))])),
            ("c", number("3")),
        ])
    };
    let mut once = object(vec![("a", object(vec![("b", Json::Array(vec![text("keep")]))]))]);
    merge(&mut once, incoming());
    let mut twice = once.clone();
    merge(&mut twice, incoming());
    assert_eq!(once, twice);
    assert_eq!(
        once,
        object(vec![
            ("a", object(vec![("b", Json::Array(vec![text("keep"), text("x")]))])),
            ("c", number("3")),
        ])
    );
}

#[test]
fn clone_keeps_the_document() {
    let d = object(vec![("a", Json::Array(vec![Json::Bool(false), number("-1.5e3")]))]);
    assert_eq!(d.clone(), d);
}
