use credential_mapper::json::Json;
use credential_mapper::mapping_data::{JsonPathStr, MappingData, MappingRule, TransformationEnum};
use credential_mapper::pointer::{
    construct_leaf_node, AddressError, JsonPath, JsonPointer, Segment,
};
use credential_mapper::server::Server;

fn key(k: &str) -> Segment {
    Segment::Key(k.to_string())
}

fn resolve(path: &str) -> Result<JsonPointer, AddressError> {
    JsonPointer::try_from(JsonPath(path.to_string()))
}

#[test]
fn resolves_keys_and_indices() {
    let pointer = resolve("$.credentialSubject.achievement[2].name").unwrap();
    assert_eq!(
        pointer.segments,
        vec![key("credentialSubject"), key("achievement"), Segment::Index(2), key("name")]
    );
    assert_eq!(resolve("$").unwrap().segments, vec![]);
    assert_eq!(resolve("$[007]").unwrap().segments, vec![Segment::Index(7)]);
}

#[test]
fn resolves_context_key_in_both_spellings() {
    assert_eq!(resolve("$.@context").unwrap().segments, vec![key("@context")]);
    assert_eq!(resolve("$[\"@context\"]").unwrap().segments, vec![key("@context")]);
    assert_eq!(resolve("$['a.b'].c").unwrap().segments, vec![key("a.b"), key("c")]);
}

#[test]
fn rejects_malformed_addresses() {
    assert_eq!(resolve(""), Err(AddressError::MissingRoot));
    assert_eq!(resolve("a.b"), Err(AddressError::MissingRoot));
    assert_eq!(resolve("$a"), Err(AddressError::BadSegment));
    assert_eq!(resolve("$."), Err(AddressError::BadSegment));
    assert_eq!(resolve("$.a..b"), Err(AddressError::BadSegment));
    assert_eq!(resolve("$[1"), Err(AddressError::BadSegment));
    assert_eq!(resolve("$[]"), Err(AddressError::BadSegment));
    assert_eq!(resolve("$[\"a]"), Err(AddressError::BadSegment));
    assert_eq!(resolve("$[\"a\""), Err(AddressError::BadSegment));
    assert_eq!(resolve("$[1x]"), Err(AddressError::BadSegment));
    assert_eq!(
        resolve("$[99999999999999999999999999999999999999]"),
        Err(AddressError::BadSegment)
    );
}

#[test]
fn skeleton_follows_segment_kinds() {
    let pointer = resolve("$.a[2].b").unwrap();
    let leaf = construct_leaf_node(&pointer);
    assert_eq!(
        leaf,
        Json::Object(vec![(
            "a".to_string(),
            Json::Array(vec![
                Json::Null,
                Json::Null,
                Json::Object(vec![("b".to_string(), Json::Null)]),
            ]),
        )])
    );
    assert_eq!(construct_leaf_node(&resolve("$").unwrap()), Json::Null);
}

#[test]
fn skeleton_round_trip() {
    let pointer = resolve("$.a[1].b").unwrap();
    let mut leaf = construct_leaf_node(&pointer);
    assert_eq!(leaf.pointer(&pointer), Some(&Json::Null));
    let v = Json::String("v".to_string());
    if let Some(terminal) = leaf.pointer_mut(&pointer) {
        *terminal = v.clone();
    }
    assert_eq!(leaf.pointer(&pointer), Some(&v));
    assert_eq!(
        leaf,
        Json::Object(vec![(
            "a".to_string(),
            Json::Array(vec![Json::Null, Json::Object(vec![("b".to_string(), v)])]),
        )])
    );
}

#[test]
fn pointer_misses_where_nothing_is() {
    let mut doc = Json::Object(vec![("a".to_string(), Json::Array(vec![Json::Bool(true)]))]);
    assert_eq!(doc.pointer(&resolve("$.b").unwrap()), None);
    assert_eq!(doc.pointer(&resolve("$.a[1]").unwrap()), None);
    assert_eq!(doc.pointer(&resolve("$.a.x").unwrap()), None);
    assert_eq!(doc.pointer(&resolve("$[0]").unwrap()), None);
    assert!(doc.pointer_mut(&resolve("$.a[0].x").unwrap()).is_none());
    assert_eq!(doc.pointer(&resolve("$.a[0]").unwrap()), Some(&Json::Bool(true)));
}

#[test]
fn path_str_gives_segment_texts() {
    let path = JsonPathStr::new("$.a[12].b".to_string());
    assert_eq!(path.to_segments(), vec!["a".to_string(), "12".to_string(), "b".to_string()]);
    assert_eq!(path.as_str(), "$.a[12].b");
    assert_eq!(path.len(), 9);
    assert_eq!(JsonPathStr::new("$[0]".to_string()).to_segments(), vec!["0".to_string()]);
    assert_eq!(JsonPathStr::new("no root".to_string()).to_segments(), Vec::<String>::new());
}

#[test]
fn mapping_data_keeps_rule_order() {
    let first = MappingRule {
        src_path: "$.a".to_string(),
        target_path: "$.b".to_string(),
        transformation: vec![TransformationEnum::DIRECT, TransformationEnum::LOWERCASE],
    };
    let second = MappingRule::default();
    let data = MappingData::new(vec![first.clone(), second]);
    let paths: Vec<String> = data.iter().map(|r| r.src_path.clone()).collect();
    assert_eq!(paths, vec!["$.a".to_string(), String::new()]);
    assert_eq!(data.len(), 2);
    assert_eq!(data.get(0).unwrap().transformation, first.transformation);
    assert!(data.get(2).is_none());
}

#[test]
fn server_listens_on_loopback() {
    let server = Server::new();
    assert_eq!(server.address(), [127, 0, 0, 1]);
    assert_eq!(server.port(), 3000);
    assert_eq!(Server::default().port(), 3000);
}
