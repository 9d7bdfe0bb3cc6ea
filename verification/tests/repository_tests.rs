use credential_mapper::json::Json;
use credential_mapper::pointer::{JsonPath, JsonPointer};
use credential_mapper::repository::{
    first_found, identity_to_object, remove_key_recursive, update_repository, values_to_identity,
    Repository,
};
use credential_mapper::state::{AppState, Mapping};
use credential_mapper::transformations::{
    DataLocation, DataTypeLocation, ManyToOne, OneToMany, OneToOne, StringArrayValue, StringValue,
    TransformError, Transformation,
};

fn doc(text: &str) -> Json {
    Json::parse(text).unwrap()
}

fn at(format: &str, path: &str) -> DataLocation {
    DataLocation { format: format.to_string(), path: path.to_string() }
}

fn typed(format: &str, datatype: &str, path: &str) -> DataTypeLocation {
    DataTypeLocation {
        format: format.to_string(),
        datatype: datatype.to_string(),
        path: path.to_string(),
    }
}

fn job(input: &str) -> Repository {
    let mut repo = Repository::new();
    assert!(repo.insert("OBv3".to_string(), doc(input)));
    assert!(repo.insert("ELM".to_string(), doc("{}")));
    repo
}

fn copy(source: &str, destination: &str) -> Transformation {
    Transformation::OneToOne {
        type_: OneToOne::Direct,
        source: at("OBv3", source),
        destination: at("ELM", destination),
    }
}

fn pair(a: &str, b: &str) -> (String, String) {
    (a.to_string(), b.to_string())
}

#[test]
fn one_to_one_copies_first_match() {
    let mut repo = job(r#"{"name": "Badge", "tags": ["x", "y"]}"#);
    let done = repo.apply_transformation(copy("$.name", "$.title.en"), Mapping::OBv3ToELM);
    assert_eq!(done, Some(pair("$.title.en", "$.name")));
    assert_eq!(repo.get("ELM"), Some(&doc(r#"{"title": {"en": "Badge"}}"#)));
    let done = repo.apply_transformation(copy("$.tags[*]", "$.first"), Mapping::OBv3ToELM);
    assert_eq!(done, Some(pair("$.first", "$.tags[*]")));
    assert_eq!(repo.get("ELM"), Some(&doc(r#"{"title": {"en": "Badge"}, "first": "x"}"#)));
    assert_eq!(repo.get("OBv3"), Some(&doc(r#"{"name": "Badge", "tags": ["x", "y"]}"#)));
}

#[test]
fn later_rule_sees_earlier_output() {
    let mut repo = job(r#"{"a": "1", "b": "2"}"#);
    let rules = vec![
        copy("$.a", "$.list[0]"),
        copy("$.missing", "$.never"),
        copy("$.b", "$.list[1]"),
        copy("$.b", "$.list[0]"),
    ];
    let done = repo.apply_transformations(rules, Mapping::OBv3ToELM);
    assert_eq!(
        done,
        vec![pair("$.list[0]", "$.a"), pair("$.list[1]", "$.b"), pair("$.list[0]", "$.b")]
    );
    assert_eq!(repo.get("ELM"), Some(&doc(r#"{"list": ["2", "2"]}"#)));
}

#[test]
fn rule_skip_on_format_mismatch() {
    let before = job(r#"{"name": "Badge"}"#);
    let mut repo = before.clone();
    let rule = Transformation::OneToOne {
        type_: OneToOne::Direct,
        source: at("X", "$.name"),
        destination: at("ELM", "$.title"),
    };
    assert_eq!(repo.apply_transformation(rule, Mapping::OBv3ToELM), None);
    assert_eq!(repo, before);
    let wrong_destination = Transformation::OneToOne {
        type_: OneToOne::Direct,
        source: at("OBv3", "$.name"),
        destination: at("Y", "$.title"),
    };
    assert_eq!(repo.apply_transformation(wrong_destination, Mapping::OBv3ToELM), None);
    assert_eq!(repo, before);
    assert_eq!(repo.apply_transformation(copy("$.name", "$.title"), Mapping::ELMToOBv3), None);
    assert_eq!(repo, before);
}

#[test]
fn query_miss_and_bad_addresses_change_nothing() {
    let before = job(r#"{"name": "Badge"}"#);
    let mut repo = before.clone();
    assert_eq!(repo.apply_transformation(copy("$.none", "$.title"), Mapping::OBv3ToELM), None);
    assert_eq!(repo.apply_transformation(copy("$.name", "title"), Mapping::OBv3ToELM), None);
    assert_eq!(repo.apply_transformation(copy("$.name", "$.a..b"), Mapping::OBv3ToELM), None);
    assert_eq!(repo.apply_transformation(copy("$[", "$.title"), Mapping::OBv3ToELM), None);
    assert_eq!(repo, before);
}

#[test]
fn missing_destination_document_is_created() {
    let mut repo = Repository::new();
    assert!(repo.insert("OBv3".to_string(), doc(r#"{"name": "Badge"}"#)));
    let done = repo.apply_transformation(copy("$.name", "$.title"), Mapping::OBv3ToELM);
    assert_eq!(done, Some(pair("$.title", "$.name")));
    assert_eq!(repo.get("ELM"), Some(&doc(r#"{"title": "Badge"}"#)));
    let mut empty = Repository::new();
    assert_eq!(empty.apply_transformation(copy("$.name", "$.title"), Mapping::OBv3ToELM), None);
    assert_eq!(empty.get("ELM"), None);
}

#[test]
fn context_key_is_read_in_brackets() {
    let mut repo = job(r#"{"@context": ["https://www.w3.org/ns/credentials/v2"]}"#);
    let done = repo.apply_transformation(copy("$.@context", "$.@context"), Mapping::OBv3ToELM);
    assert_eq!(done, Some(pair("$.@context", "$[\"@context\"]")));
    assert_eq!(
        repo.get("ELM"),
        Some(&doc(r#"{"@context": ["https://www.w3.org/ns/credentials/v2"]}"#))
    );
}

#[test]
fn many_to_one_completeness() {
    let mut repo = job(r#"{"given": "x", "family": "y"}"#);
    let rule = Transformation::ManyToOne {
        type_: ManyToOne::Concat { separator: " ".to_string() },
        sources: vec![at("OBv3", "$.given"), at("OBv3", "$.family")],
        destination: at("ELM", "$.person.fullName"),
    };
    assert_eq!(repo.apply_transformation(rule, Mapping::OBv3ToELM), None);
    assert_eq!(repo.get("ELM"), Some(&doc(r#"{"person": {"fullName": "x y"}}"#)));
}

#[test]
fn many_to_one_needs_every_source() {
    let before = job(r#"{"given": "x"}"#);
    let mut repo = before.clone();
    let rule = Transformation::ManyToOne {
        type_: ManyToOne::Concat { separator: " ".to_string() },
        sources: vec![at("OBv3", "$.given"), at("OBv3", "$.family")],
        destination: at("ELM", "$.fullName"),
    };
    assert_eq!(repo.apply_transformation(rule, Mapping::OBv3ToELM), None);
    assert_eq!(repo, before);
    let foreign = Transformation::ManyToOne {
        type_: ManyToOne::Collect,
        sources: vec![at("OBv3", "$.given"), at("X", "$.given")],
        destination: at("ELM", "$.fullName"),
    };
    assert_eq!(repo.apply_transformation(foreign, Mapping::OBv3ToELM), None);
    assert_eq!(repo, before);
}

#[test]
fn many_to_one_transforms() {
    let values = || vec![doc("\"a\""), doc("12"), doc("true"), doc("null")];
    assert_eq!(
        ManyToOne::Concat { separator: ", ".to_string() }.apply(values()),
        Ok(doc("\"a, 12, true, null\""))
    );
    assert_eq!(ManyToOne::Concat { separator: "-".to_string() }.apply(vec![]), Ok(doc("\"\"")));
    assert_eq!(ManyToOne::Collect.apply(values()), Ok(doc(r#"["a", 12, true, null]"#)));
    assert_eq!(
        ManyToOne::Concat { separator: " ".to_string() }.apply(vec![doc("\"a\""), doc("[]")]),
        Err(TransformError::NotAScalar)
    );
}

#[test]
fn one_to_one_transforms() {
    let s = |t: &str| Json::String(t.to_string());
    assert_eq!(OneToOne::Direct.apply(doc("[1]")), Ok(doc("[1]")));
    assert_eq!(OneToOne::Lowercase.apply(s("MiXed É")), Ok(s("mixed é")));
    assert_eq!(OneToOne::Uppercase.apply(s("MiXed é")), Ok(s("MIXED É")));
    assert_eq!(OneToOne::Lowercase.apply(doc("1")), Err(TransformError::NotAString));
    assert_eq!(OneToOne::Uppercase.apply(doc("{}")), Err(TransformError::NotAString));
    assert_eq!(OneToOne::ToString.apply(doc("12.50")), Ok(s("12.50")));
    assert_eq!(OneToOne::ToString.apply(doc("false")), Ok(s("false")));
    assert_eq!(OneToOne::ToString.apply(doc("null")), Ok(s("null")));
    assert_eq!(OneToOne::ToString.apply(s("t")), Ok(s("t")));
    assert_eq!(OneToOne::ToString.apply(doc("[]")), Err(TransformError::NotAScalar));
    assert_eq!(OneToOne::ToNumber.apply(s("-12.5e+3")), Ok(Json::Number("-12.5e+3".to_string())));
    assert_eq!(OneToOne::ToNumber.apply(s("0")), Ok(Json::Number("0".to_string())));
    assert_eq!(OneToOne::ToNumber.apply(doc("7")), Ok(doc("7")));
    for not_a_number in ["", "-", "01", "1.", ".5", "1e", "1e+", "+1", " 1", "1 ", "0x10", "abc", "1.2.3"] {
        assert_eq!(OneToOne::ToNumber.apply(s(not_a_number)), Ok(Json::Null), "{}", not_a_number);
    }
    assert_eq!(OneToOne::ToNumber.apply(doc("true")), Ok(Json::Null));
    assert_eq!(OneToOne::ToNumber.apply(doc("{}")), Err(TransformError::NotAScalar));
    let year = OneToOne::Regex { pattern: r"(\d{4})-\d{2}".to_string() };
    assert_eq!(year.apply(s("issued 2024-05-01")), Ok(s("2024")));
    assert_eq!(year.apply(s("no date")), Ok(Json::Null));
    assert_eq!(year.apply(doc("2024")), Err(TransformError::NotAString));
    let whole = OneToOne::Regex { pattern: r"\d+".to_string() };
    assert_eq!(whole.apply(s("abc 123 def 45")), Ok(s("123")));
    let bad = OneToOne::Regex { pattern: "(".to_string() };
    assert_eq!(bad.apply(s("x")), Err(TransformError::BadPattern));
}

#[test]
fn failed_transform_contributes_nothing() {
    let before = job(r#"{"points": "many", "count": 3}"#);
    let mut repo = before.clone();
    let to_number = Transformation::OneToOne {
        type_: OneToOne::ToNumber,
        source: at("OBv3", "$.points"),
        destination: at("ELM", "$.points"),
    };
    assert_eq!(repo.apply_transformation(to_number, Mapping::OBv3ToELM), None);
    let lower = Transformation::OneToOne {
        type_: OneToOne::Lowercase,
        source: at("OBv3", "$.count"),
        destination: at("ELM", "$.count"),
    };
    assert_eq!(repo.apply_transformation(lower, Mapping::OBv3ToELM), None);
    let no_match = Transformation::OneToOne {
        type_: OneToOne::Regex { pattern: "^x".to_string() },
        source: at("OBv3", "$.points"),
        destination: at("ELM", "$.points"),
    };
    assert_eq!(repo.apply_transformation(no_match, Mapping::OBv3ToELM), None);
    assert_eq!(repo, before);
}

#[test]
fn string_rules_write_given_texts() {
    let mut repo = job("{}");
    let one = Transformation::StringToOne {
        type_: OneToOne::Uppercase,
        source: StringValue { value: "VerifiableCredential".to_string() },
        destination: at("ELM", "$.type[0]"),
    };
    assert_eq!(repo.apply_transformation(one, Mapping::OBv3ToELM), None);
    let many = Transformation::StringArrayToOne {
        type_: OneToOne::Direct,
        source: StringArrayValue { value: vec!["a".to_string(), "b".to_string()] },
        destination: at("ELM", "$.context"),
    };
    assert_eq!(repo.apply_transformation(many, Mapping::OBv3ToELM), None);
    assert_eq!(
        repo.get("ELM"),
        Some(&doc(r#"{"type": ["VERIFIABLECREDENTIAL"], "context": ["a", "b"]}"#))
    );
    let foreign = Transformation::StringToOne {
        type_: OneToOne::Direct,
        source: StringValue { value: "x".to_string() },
        destination: at("OBv3", "$.type"),
    };
    assert_eq!(repo.apply_transformation(foreign, Mapping::OBv3ToELM), None);
    assert_eq!(repo.get("OBv3"), Some(&doc("{}")));
}

#[test]
fn markdown_rules_go_both_ways() {
    let mut repo = job(r#"{"criteria": {"narrative": "do it", "levels": [{"name": "one"}, {"name": "two"}]}}"#);
    let render = Transformation::JsonToMarkdown {
        type_: OneToOne::Direct,
        source: at("OBv3", "$.criteria"),
        destination: at("ELM", "$.note"),
    };
    assert_eq!(
        repo.apply_transformation(render, Mapping::OBv3ToELM),
        Some(pair("$.note", "$.criteria"))
    );
    let markdown =
        "**narrative**:\n  do it\n**levels**:\n  -     **name**:\n      one\n  -     **name**:\n      two\n";
    assert_eq!(
        repo.get("ELM"),
        Some(&Json::Object(vec![("note".to_string(), Json::String(markdown.to_string()))]))
    );
    let back = Transformation::MarkdownToJson {
        type_: OneToOne::Direct,
        source: at("ELM", "$.note"),
        destination: at("OBv3", "$.again"),
    };
    assert_eq!(
        repo.apply_transformation(back, Mapping::ELMToOBv3),
        Some(pair("$.again", "$.note"))
    );
    assert_eq!(
        repo.get("OBv3").unwrap().pointer(
            &credential_mapper::pointer::JsonPointer::try_from(credential_mapper::pointer::JsonPath(
                "$.again".to_string()
            ))
            .unwrap()
        ),
        Some(&doc(r#"{"narrative": "do it", "levels": [{"name": "one"}, {"name": "two"}]}"#))
    );
}

#[test]
fn markdown_rule_writes_null_for_what_is_no_text() {
    let before = job(r#"{"n": 1, "broken": "**a**:\n**b**:"}"#);
    let mut repo = before.clone();
    let broken = Transformation::MarkdownToJson {
        type_: OneToOne::Direct,
        source: at("OBv3", "$.broken"),
        destination: at("ELM", "$.x"),
    };
    assert_eq!(repo.apply_transformation(broken, Mapping::OBv3ToELM), None);
    assert_eq!(repo, before);
    let number = Transformation::MarkdownToJson {
        type_: OneToOne::Direct,
        source: at("OBv3", "$.n"),
        destination: at("ELM", "$.x.y"),
    };
    assert_eq!(
        repo.apply_transformation(number, Mapping::OBv3ToELM),
        Some(pair("$.x.y", "$.n"))
    );
    assert_eq!(repo.get("ELM"), Some(&doc(r#"{"x": {"y": null}}"#)));
}

#[test]
fn matched_null_is_written_and_reported() {
    let mut repo = Repository::new();
    assert!(repo.insert("OBv3".to_string(), doc(r#"{"a": null, "b": "kept"}"#)));
    let done = repo.apply_transformation(copy("$.a", "$.x[1].y"), Mapping::OBv3ToELM);
    assert_eq!(done, Some(pair("$.x[1].y", "$.a")));
    assert_eq!(repo.get("ELM"), Some(&doc(r#"{"x": [null, {"y": null}]}"#)));
    let done = repo.apply_transformation(copy("$.b", "$.x[1].y"), Mapping::OBv3ToELM);
    assert_eq!(done, Some(pair("$.x[1].y", "$.b")));
    let done = repo.apply_transformation(copy("$.a", "$.x[1].y"), Mapping::OBv3ToELM);
    assert_eq!(done, Some(pair("$.x[1].y", "$.a")));
    assert_eq!(repo.get("ELM"), Some(&doc(r#"{"x": [null, {"y": "kept"}]}"#)));
    let to_text = Transformation::OneToOne {
        type_: OneToOne::ToString,
        source: at("OBv3", "$.a"),
        destination: at("ELM", "$.t"),
    };
    assert_eq!(repo.apply_transformation(to_text, Mapping::OBv3ToELM), Some(pair("$.t", "$.a")));
    assert_eq!(repo.get("ELM"), Some(&doc(r#"{"x": [null, {"y": "kept"}], "t": "null"}"#)));
}

#[test]
fn destination_exists_once_the_query_has_matched() {
    let source = r#"{"points": "many", "n": 3}"#;
    let fresh = || {
        let mut repo = Repository::new();
        assert!(repo.insert("OBv3".to_string(), doc(source)));
        repo
    };
    let rule = |type_: OneToOne, from: &str, to: &str| Transformation::OneToOne {
        type_,
        source: at("OBv3", from),
        destination: at("ELM", to),
    };
    let mut repo = fresh();
    assert_eq!(repo.apply_transformation(rule(OneToOne::ToNumber, "$.points", "$.p"), Mapping::OBv3ToELM), None);
    assert_eq!(repo.get("ELM"), Some(&doc("{}")));
    let mut repo = fresh();
    assert_eq!(repo.apply_transformation(rule(OneToOne::Lowercase, "$.n", "$.p"), Mapping::OBv3ToELM), None);
    assert_eq!(repo.get("ELM"), Some(&doc("{}")));
    let mut repo = fresh();
    let no_match = OneToOne::Regex { pattern: "^x".to_string() };
    assert_eq!(repo.apply_transformation(rule(no_match, "$.points", "$.p"), Mapping::OBv3ToELM), None);
    assert_eq!(repo.get("ELM"), Some(&doc("{}")));
    let mut repo = fresh();
    assert_eq!(repo.apply_transformation(rule(OneToOne::Direct, "$.n", "no root"), Mapping::OBv3ToELM), None);
    assert_eq!(repo.get("ELM"), Some(&doc("{}")));
    assert_eq!(repo.get("OBv3"), Some(&doc(source)));
    let mut repo = fresh();
    assert_eq!(repo.apply_transformation(rule(OneToOne::Direct, "$.none", "$.p"), Mapping::OBv3ToELM), None);
    assert_eq!(repo.get("ELM"), None);
    let mut repo = fresh();
    repo.ensure_document(&"ELM".to_string());
    repo.ensure_document(&"OBv3".to_string());
    assert_eq!(repo.get("ELM"), Some(&doc("{}")));
    assert_eq!(repo.get("OBv3"), Some(&doc(source)));
}

#[test]
fn identifier_rules() {
    let mut repo = job(r#"{"student": "75541452"}"#);
    let add = Transformation::AddIdentifier {
        type_: OneToOne::Direct,
        source: typed("OBv3", "Student ID", "$.student"),
        destination: at("ELM", "$.identifier[0]"),
    };
    assert_eq!(
        repo.apply_transformation(add, Mapping::OBv3ToELM),
        Some(pair("$.identifier[0]", "$.student"))
    );
    assert_eq!(
        repo.get("ELM"),
        Some(&doc(
            r#"{"identifier": [{"type": "IdentityObject", "identityHash": "75541452",
                "identityType": "Student ID", "hashed": false, "salt": "not-used"}]}"#
        ))
    );
    let back = Transformation::IdentifierToObject {
        type_: OneToOne::Direct,
        source: typed("ELM", "Student ID", "$.identifier[0]"),
        destination: at("OBv3", "$.identifier"),
    };
    assert_eq!(
        repo.apply_transformation(back, Mapping::ELMToOBv3),
        Some(pair("$.identifier", "$.identifier[0]"))
    );
    assert_eq!(
        repo.get("OBv3"),
        Some(&doc(
            r#"{"student": "75541452", "identifier": {"id": "urn:epass:identifier:2",
                "type": "Identifier", "notation": "75541452", "schemeName": "Student ID"}}"#
        ))
    );
}

#[test]
fn identity_objects() {
    assert_eq!(
        values_to_identity("email", doc("[1]")),
        doc(r#"{"type": "IdentityObject", "identityHash": [1], "identityType": "email",
            "hashed": false, "salt": "not-used"}"#)
    );
    let identity = || doc(r#"{"identityHash": "abc", "identityType": "x"}"#);
    assert_eq!(identity_to_object("givenName", identity()), doc("\"abc\""));
    assert_eq!(
        identity_to_object("Student ID", identity()),
        doc(r#"{"id": "urn:epass:identifier:2", "type": "Identifier", "notation": "abc",
            "schemeName": "Student ID"}"#)
    );
    assert_eq!(identity_to_object("Student ID", doc(r#"{"other": 1}"#)), doc("\"\""));
    assert_eq!(identity_to_object("Student ID", doc("\"abc\"")), doc("\"\""));
}

#[test]
fn image_rule_writes_display_with_fetched_content() {
    let mut repo = job(r#"{"image": {"id": "https://example.org/badge.png"}}"#);
    repo.set_display_image("aGVsbG8=".to_string());
    let rule = Transformation::ImageToIndividualDisplay {
        type_: OneToOne::Direct,
        source: at("OBv3", "$.image"),
        destination: at("ELM", "$.display"),
    };
    assert_eq!(
        repo.apply_transformation(rule, Mapping::OBv3ToELM),
        Some(pair("$.display", "$.image"))
    );
    let expected = doc(
        r#"{"display": {
        "id": "urn:epass:individualDisplay:c05743e7-9f9d-4e0b-899b-7ae6514c7a02",
        "type": "IndividualDisplay",
        "language": {
          "id": "http://publications.europa.eu/resource/authority/language/ENG",
          "type": "Concept",
          "inScheme": {
            "id": "http://publications.europa.eu/resource/authority/language",
            "type": "ConceptScheme"
          },
          "prefLabel": {"en": ["English"]},
          "notation": "language"
        },
        "displayDetail": [
          {
            "id": "urn:epass:displayDetail:123",
            "type": "DisplayDetail",
            "image": {
              "id": "urn:epass:mediaObject:https://avatars.githubusercontent.com/u/22613412?v=4",
              "type": "MediaObject",
              "content": "aGVsbG8=",
              "contentEncoding": {
                "id": "http://data.europa.eu/snb/encoding/6146cde7dd",
                "type": "Concept",
                "inScheme": {
                  "id": "http://data.europa.eu/snb/encoding/25831c2",
                  "type": "ConceptScheme"
                },
                "prefLabel": {"en": ["base64"]}
              },
              "contentType": {
                "id": "http://publications.europa.eu/resource/authority/file-type/PNG",
                "type": "Concept",
                "inScheme": {
                  "id": "http://publications.europa.eu/resource/authority/file-type",
                  "type": "ConceptScheme"
                },
                "prefLabel": {"en": ["PNG"]},
                "notation": "file-type"
              }
            }
          }
        ]
      }}"#,
    );
    assert_eq!(repo.get("ELM"), Some(&expected));
}

#[test]
fn one_to_many_is_declared_only() {
    let before = job(r#"{"name": "a b"}"#);
    let mut repo = before.clone();
    let rule = Transformation::OneToMany {
        type_: OneToMany::Split { separator: " ".to_string() },
        source: at("OBv3", "$.name"),
        destinations: vec![at("ELM", "$.first"), at("ELM", "$.second")],
    };
    assert_eq!(repo.apply_transformation(rule, Mapping::OBv3ToELM), None);
    assert_eq!(repo, before);
}

#[test]
fn clear_mapping_pruning() {
    let mut repo = Repository::new();
    assert!(repo.insert("ELM".to_string(), doc(r#"{"a": {"b": {"c": 1}}}"#)));
    repo.clear_mapping("/a/b/c".to_string(), Mapping::OBv3ToELM);
    assert_eq!(repo.get("ELM"), Some(&doc("{}")));
    assert!(repo.insert("ELM".to_string(), doc(r#"{"a": {"b": {"c": 1, "d": 2}}}"#)));
    repo.clear_mapping("/a/b/c".to_string(), Mapping::OBv3ToELM);
    assert_eq!(repo.get("ELM"), Some(&doc(r#"{"a": {"b": {"d": 2}}}"#)));
}

#[test]
fn clear_mapping_edge_cases() {
    let start = r#"{"a": {"b": {"c": 1}, "e": {}}, "k": [1], "": {"x": 1}}"#;
    let cleared = |pointer: &str| {
        let mut repo = Repository::new();
        assert!(repo.insert("OBv3".to_string(), doc(start)));
        repo.clear_mapping(pointer.to_string(), Mapping::ELMToOBv3);
        repo.get("OBv3").unwrap().clone()
    };
    assert_eq!(cleared("/a/x"), doc(start));
    assert_eq!(cleared("/k/0"), doc(start));
    assert_eq!(cleared("///k"), doc(r#"{"a": {"b": {"c": 1}, "e": {}}, "": {"x": 1}}"#));
    assert_eq!(cleared("a/b"), doc(r#"{"a": {"e": {}}, "k": [1], "": {"x": 1}}"#));
    assert_eq!(cleared("/a/e/zz"), doc(r#"{"a": {"b": {"c": 1}}, "k": [1], "": {"x": 1}}"#));
    assert_eq!(cleared(""), doc(r#"{"a": {"b": {"c": 1}, "e": {}}, "k": [1]}"#));
    assert_eq!(cleared("/a/b/c/"), doc(start));
    let mut absent = Repository::new();
    absent.clear_mapping("/a".to_string(), Mapping::OBv3ToELM);
    assert_eq!(absent, Repository::new());
}

#[test]
fn remove_key_tells_whether_object_is_empty() {
    let keys = vec!["a".to_string(), "b".to_string()];
    let mut only = doc(r#"{"a": {"b": 1}}"#);
    assert!(remove_key_recursive(&mut only, &keys));
    assert_eq!(only, doc("{}"));
    let mut more = doc(r#"{"a": {"b": 1}, "z": 0}"#);
    assert!(!remove_key_recursive(&mut more, &keys));
    assert_eq!(more, doc(r#"{"z": 0}"#));
    let mut scalar = doc("3");
    assert!(!remove_key_recursive(&mut scalar, &keys));
    let mut empty = doc("{}");
    assert!(remove_key_recursive(&mut empty, &keys));
    assert!(!remove_key_recursive(&mut empty, &[]));
}

#[test]
fn repository_takes_only_well_formed_documents() {
    let mut repo = Repository::new();
    let twice = Json::Object(vec![("k".to_string(), Json::Null), ("k".to_string(), Json::Null)]);
    assert!(!twice.is_wf());
    assert!(!repo.insert("OBv3".to_string(), twice));
    assert!(!repo.insert("OBv3".to_string(), Json::Array(vec![Json::Number("1.".to_string())])));
    assert_eq!(repo.get("OBv3"), None);
    assert!(repo.insert("OBv3".to_string(), doc("[1]")));
    assert!(repo.insert("OBv3".to_string(), doc("[2]")));
    assert_eq!(repo.get("OBv3"), Some(&doc("[2]")));
}

#[test]
fn documents_print_and_parse() {
    let text = r#"{"b":[1,-2.50,"x",null,true],"a":{"k":"v"}}"#;
    assert_eq!(doc(text).to_text(), Some(text.to_string()));
    assert_eq!(Json::parse("{"), None);
    assert_eq!(Json::Number("x".to_string()).to_text(), None);
    assert_eq!(doc("1e2"), Json::Number("1e+2".to_string()));
}

#[test]
fn mapping_names_its_formats() {
    assert_eq!(Mapping::OBv3ToELM.input_format(), "OBv3");
    assert_eq!(Mapping::OBv3ToELM.output_format(), "ELM");
    assert_eq!(Mapping::ELMToOBv3.input_format(), "ELM");
    assert_eq!(Mapping::ELMToOBv3.output_format(), "OBv3");
    assert_eq!(Mapping::default(), Mapping::OBv3ToELM);
}

#[test]
fn first_found_takes_the_first() {
    assert_eq!(first_found(Some(doc("[1, 2]"))), Some(doc("1")));
    assert_eq!(first_found(Some(doc("[]"))), None);
    assert_eq!(first_found(Some(doc("null"))), None);
    assert_eq!(first_found(Some(doc("{\"a\": 1}"))), None);
    assert_eq!(first_found(None), None);
}

#[test]
fn write_at_merges_the_skeleton() {
    let address = |path: &str| JsonPointer::try_from(JsonPath(path.to_string())).unwrap();
    let mut repo = Repository::new();
    assert!(repo.insert("ELM".to_string(), doc(r#"{"a": {"keep": 1}, "list": ["x"]}"#)));
    repo.write_at(&"ELM".to_string(), &address("$.a.b"), doc("\"v\""));
    repo.write_at(&"ELM".to_string(), &address("$.list[2]"), doc("true"));
    repo.write_at(&"ELM".to_string(), &address("$.a.keep"), doc("null"));
    assert_eq!(
        repo.get("ELM"),
        Some(&doc(r#"{"a": {"keep": 1, "b": "v"}, "list": ["x", null, true]}"#))
    );
    repo.write_at(&"ELM".to_string(), &address("$.a"), doc("[0]"));
    assert_eq!(repo.get("ELM"), Some(&doc(r#"{"a": [0], "list": ["x", null, true]}"#)));
    repo.write_at(&"new".to_string(), &address("$[1].k"), doc("7"));
    assert_eq!(repo.get("new"), Some(&doc(r#"[null, {"k": 7}]"#)));
    repo.write_at(&"ELM".to_string(), &address("$"), doc(r#"{"list": [{"deep": 1}]}"#));
    assert_eq!(
        repo.get("ELM"),
        Some(&doc(r#"{"a": [0], "list": [{"deep": 1}, null, true]}"#))
    );
    assert_eq!(repo.formats(), vec!["ELM".to_string(), "new".to_string()]);
    assert!(repo.is_wf());
}

#[test]
fn update_repository_writes_the_proposal() {
    let mut repository = Repository::new();
    assert!(repository.insert("ELM".to_string(), doc(r#"{"a": 1}"#)));
    let mut state = AppState {
        repository,
        mapping: Mapping::OBv3ToELM,
        output_pointer: JsonPointer::try_from(JsonPath("$.b.c".to_string())).unwrap(),
        candidate_output_value: "[1, \"two\"]".to_string(),
    };
    update_repository(&mut state);
    assert_eq!(state.repository.get("ELM"), Some(&doc(r#"{"a": 1, "b": {"c": [1, "two"]}}"#)));
    state.candidate_output_value = "not json".to_string();
    update_repository(&mut state);
    assert_eq!(state.repository.get("ELM"), Some(&doc(r#"{"a": 1, "b": {"c": [1, "two"]}}"#)));
}

#[test]
fn one_to_many_splits_a_text() {
    let split = |separator: &str, text: &str| {
        OneToMany::Split { separator: separator.to_string() }.apply(Json::String(text.to_string()))
    };
    let texts = |parts: Vec<&str>| {
        Ok(parts.into_iter().map(|p| Json::String(p.to_string())).collect::<Vec<Json>>())
    };
    assert_eq!(split(" ", "a b c"), texts(vec!["a", "b", "c"]));
    assert_eq!(split(", ", "a, b,c, "), texts(vec!["a", "b,c", ""]));
    assert_eq!(split("aa", "aaaxaa"), texts(vec!["", "ax", ""]));
    assert_eq!(split("x", ""), texts(vec![""]));
    assert_eq!(split("", "abc"), texts(vec!["abc"]));
    assert_eq!(split("abc", "ab"), texts(vec!["ab"]));
    for (separator, text) in [(" ", " a  b "), ("ab", "abababa"), ("--", "a---b--"), ("é", "cafés é")] {
        let expected: Vec<Json> = text.split(separator).map(|p| Json::String(p.to_string())).collect();
        assert_eq!(split(separator, text), Ok(expected), "{:?} {:?}", separator, text);
    }
    assert_eq!(
        OneToMany::Split { separator: " ".to_string() }.apply(doc("1")),
        Err(TransformError::NotAString)
    );
}
