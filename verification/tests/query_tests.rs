use credential_mapper::json::Json;
use credential_mapper::query::is_safe_query;
use credential_mapper::repository::Repository;
use credential_mapper::state::Mapping;
use credential_mapper::transformations::{DataLocation, ManyToOne, OneToOne, Transformation};

fn read(query: &str) -> Option<Json> {
    let mut repo = Repository::new();
    let input = r#"{"tags": ["a", "b", "c", "d"], "items": [{"price": 1.5, "n": "x"}, {"price": 3, "n": "y"}], "a[1.5,2]": "z"}"#;
    assert!(repo.insert("OBv3".to_string(), Json::parse(input).unwrap()));
    let rule = Transformation::ManyToOne {
        type_: ManyToOne::Collect,
        sources: vec![DataLocation { format: "OBv3".to_string(), path: query.to_string() }],
        destination: DataLocation { format: "ELM".to_string(), path: "$".to_string() },
    };
    repo.apply_transformation(rule, Mapping::OBv3ToELM);
    repo.get("ELM").cloned()
}

fn found(text: &str) -> Option<Json> {
    Some(Json::Array(vec![Json::parse(text).unwrap()]))
}

#[test]
fn safe_queries_are_evaluated() {
    assert_eq!(read("$.tags[1]"), found("\"b\""));
    assert_eq!(read("$.tags[2,1]"), found("\"c\""));
    assert_eq!(read("$.tags[1:3]"), found("\"b\""));
    assert_eq!(read("$.tags[-1:]"), found("\"d\""));
    assert_eq!(read("$.tags[*]"), found("\"a\""));
    assert_eq!(read("$['tags'][3]"), found("\"d\""));
    assert_eq!(read("$.items[?(@.price > 1.5)].n"), found("\"y\""));
    assert_eq!(read("$..n"), found("\"x\""));
    assert_eq!(read("$.tags[9]"), None);
    assert_eq!(read("$.tags[123456789]"), None);
}

#[test]
fn stepped_slices_and_long_indices_are_evaluated() {
    for query in [
        "$.tags[0:4:2]",
        "$.tags[1:4:2]",
        "$.tags[::2]",
        "$.tags[0:4: 10 ]",
        "$.tags[0:4:99999999999999999999999]",
        "$.tags[-2:]",
        "$.tags[-2147483648:]",
        "$.tags[:-99999999999]",
        "$.tags[1234567890]",
        "$.tags[9223372036854775807]",
        "$.tags[1,9223372036854775807]",
    ] {
        assert!(is_safe_query(query), "{}", query);
    }
    assert_eq!(read("$.tags[0:4:2]"), found("\"a\""));
    assert_eq!(read("$.tags[1:4:2]"), found("\"b\""));
    assert_eq!(read("$.tags[::2]"), found("\"a\""));
    assert_eq!(read("$.tags[0:4: 10 ]"), found("\"a\""));
    assert_eq!(read("$.tags[0:4:99999999999999999999999]"), found("\"a\""));
    assert_eq!(read("$.tags[-2:]"), found("\"c\""));
    assert_eq!(read("$.tags[-2147483648:]"), None);
    assert_eq!(read("$.tags[:-99999999999]"), found("\"a\""));
    assert_eq!(read("$.tags[1234567890]"), None);
    assert_eq!(read("$.tags[9223372036854775807]"), None);
    assert_eq!(read("$.tags[1,9223372036854775807]"), found("\"b\""));
}

#[test]
fn unsafe_queries_are_skipped() {
    for query in [
        "$.tags[1.5,2]",
        "$.tags[-1,2]",
        "$.tags[1, -2]",
        "$.tags[1e1,2]",
        "$.tags[99999999999999999999]",
        "$.tags[9223372036854775808]",
        "$.tags[1,9223372036854775808]",
        "$.tags[0:4:0]",
        "$.tags[0:4: 0 ]",
        "$.tags[::0]",
        "$.items[?(@.n == $.tags[1.5,2])]",
    ] {
        assert!(!is_safe_query(query), "{}", query);
        assert_eq!(read(query), None, "{}", query);
    }
}

#[test]
fn safety_looks_only_at_numbers_in_brackets() {
    for query in [
        "$",
        "$.a.b",
        "$.a[0]",
        "$[ 0 , 1 ]",
        "$[:3]",
        "$[1:]",
        "$['1.5,2']",
        "$[\"@context\"]",
        "$.a[?(@.b == 1.5e10)]",
        "$.a[*].b",
        "$.x-1.5",
        "[",
        "$[",
        "$[-",
    ] {
        assert!(is_safe_query(query), "{}", query);
    }
    assert!(!is_safe_query("$[1x]"));
}

#[test]
fn brackets_in_quoted_texts_are_no_indices() {
    for query in [
        "$['a[1.5,2]']",
        "$[\"a[1.5,2]\"]",
        "$['it\\'s[1.5,2]']",
        "$.items[?(@.n ~= '[0-9.]*x')].n",
        "$.tags['][1.5,2]",
    ] {
        assert!(is_safe_query(query), "{}", query);
    }
    assert_eq!(read("$['a[1.5,2]']"), found("\"z\""));
    assert_eq!(read("$[\"a[1.5,2]\"]"), found("\"z\""));
    assert_eq!(read("$.items[?(@.n ~= '[0-9.]*x')].n"), found("\"x\""));
    assert_eq!(read("$['it\\'s[1.5,2]']"), None);
    assert_eq!(read("$.tags['][1.5,2]"), None);
    for query in ["$['a'][1.5,2]", "$['a\\\\'][1.5,2]", "$[\"a\"]['b'][1.5,2]"] {
        assert!(!is_safe_query(query), "{}", query);
        assert_eq!(read(query), None, "{}", query);
    }
}

#[test]
fn malformed_queries_are_rejected_by_the_evaluator() {
    assert_eq!(read("$["), None);
    assert_eq!(read("tags"), None);
    assert_eq!(read("$[1x]"), None);
    assert_eq!(read(""), None);
}

#[test]
fn one_to_one_uses_the_same_reader() {
    let mut repo = Repository::new();
    assert!(repo.insert("OBv3".to_string(), Json::parse(r#"{"tags": ["a"]}"#).unwrap()));
    let rule = Transformation::OneToOne {
        type_: OneToOne::Direct,
        source: DataLocation { format: "OBv3".to_string(), path: "$.tags[1.5,2]".to_string() },
        destination: DataLocation { format: "ELM".to_string(), path: "$.x".to_string() },
    };
    assert_eq!(repo.apply_transformation(rule, Mapping::OBv3ToELM), None);
    assert_eq!(repo.get("ELM"), None);
}
