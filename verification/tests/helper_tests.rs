use credential_mapper::base64_encode::{
    create_display_parameter, decode_json, encode_json_file, image_source,
    image_to_elm_media_object, image_to_individual_display, Base64Error, ImageError, ImageSource,
};
use credential_mapper::elm::{
    display_image_url, individual_display, set_content_enconding_type, set_content_type,
    set_language, VocabularyError,
};
use credential_mapper::elm_mapping_helper::{
    address_to_location, assessment_type_to_specifiedby_assesment,
    create_learning_outcome_summary, credentialpoint_values_to_object, credit_point, location,
    eqf_to_specifiedby_qualification, handle_json_input, object_to_note_literal, object_to_string,
    title_to_specifiedby, transform_alignment_to_learning_outcomes, transform_learning_setting,
    value_to_string,
};
use credential_mapper::json::Json;
use credential_mapper::text::{decimal, split_lines, string_of};

fn doc(text: &str) -> Json {
    Json::parse(text).unwrap()
}

fn s(text: &str) -> Json {
    Json::String(text.to_string())
}

#[test]
fn base64_there_and_back() {
    assert_eq!(encode_json_file(b"{\"a\":1}".to_vec()), Ok("eyJhIjoxfQ==".to_string()));
    assert_eq!(encode_json_file(Vec::new()), Ok(String::new()));
    assert_eq!(decode_json("eyJhIjoxfQ=="), Ok(b"{\"a\":1}".to_vec()));
    assert_eq!(decode_json("not base64!"), Err(Base64Error::Malformed));
    assert_eq!(decode_json("eyJhIjoxfQ"), Err(Base64Error::Malformed));
}

#[test]
fn vocabulary_concepts() {
    assert_eq!(
        set_content_type("JPEG"),
        Ok(doc(
            r#"{"id": "http://publications.europa.eu/resource/authority/file-type/JPEG",
            "type": "Concept",
            "inScheme": {"id": "http://publications.europa.eu/resource/authority/file-type",
                         "type": "ConceptScheme"},
            "prefLabel": {"en": ["JPG"]}, "notation": "file-type"}"#
        ))
    );
    assert_eq!(set_content_type("JPG"), set_content_type("JPEG"));
    assert!(set_content_type("PNG").is_ok());
    assert!(set_content_type("SVG").is_ok());
    assert_eq!(set_content_type("png"), Err(VocabularyError::FileType));
    assert_eq!(
        set_content_enconding_type("base64"),
        Ok(doc(
            r#"{"id": "http://data.europa.eu/snb/encoding/6146cde7dd", "type": "Concept",
            "inScheme": {"id": "http://data.europa.eu/snb/encoding/25831c2", "type": "ConceptScheme"},
            "prefLabel": {"en": ["base64"]}}"#
        ))
    );
    assert_eq!(set_content_enconding_type("hex"), Err(VocabularyError::Encoding));
    assert_eq!(
        set_language("NLD"),
        Ok(doc(
            r#"{"id": "http://publications.europa.eu/resource/authority/language/NLD",
            "type": "Concept",
            "inScheme": {"id": "http://publications.europa.eu/resource/authority/language",
                         "type": "ConceptScheme"},
            "prefLabel": {"en": ["dutch"]}, "notation": "language"}"#
        ))
    );
    assert_eq!(set_language("FRA"), Err(VocabularyError::Language));
    assert_eq!(display_image_url(), "https://avatars.githubusercontent.com/u/22613412?v=4");
    assert!(individual_display("x").is_wf());
}

#[test]
fn image_sources() {
    assert_eq!(
        image_source(&doc(r#"{"id": "https://example.org/img/badge.png"}"#)),
        Ok(ImageSource::Url {
            url: "https://example.org/img/badge.png".to_string(),
            file_type: "PNG".to_string(),
        })
    );
    assert_eq!(
        image_source(&doc(r#"{"id": "http://avatars.example.org/u/22613412?v=4"}"#)),
        Ok(ImageSource::Url {
            url: "http://avatars.example.org/u/22613412?v=4".to_string(),
            file_type: String::new(),
        })
    );
    assert_eq!(
        image_source(&doc(r#"{"id": "data:image/svg;base64,AAAA,BB"}"#)),
        Ok(ImageSource::Inline { content: "AAAA,BB".to_string(), file_type: "SVG".to_string() })
    );
    assert_eq!(
        image_source(&doc(r#"{"id": "data:,AAAA"}"#)),
        Ok(ImageSource::Inline { content: "AAAA".to_string(), file_type: String::new() })
    );
    assert_eq!(image_source(&doc(r#"{"id": "data:image/png;base64"}"#)), Err(ImageError::BadDataUri));
    assert_eq!(image_source(&doc(r#"{"id": "https://a b"}"#)), Err(ImageError::NeitherUrlNorData));
    assert_eq!(image_source(&doc(r#"{"id": "ftp://x"}"#)), Err(ImageError::NeitherUrlNorData));
    assert_eq!(image_source(&doc(r#"{"id": 5}"#)), Err(ImageError::IdNotAString));
    assert_eq!(image_source(&doc(r#"{"name": "x"}"#)), Err(ImageError::NoId));
    assert_eq!(image_source(&doc("[]")), Err(ImageError::NoId));
}

#[test]
fn media_objects() {
    let expected = doc(
        r#"{"id": "urn:epass:mediaObject:https://avatars.githubusercontent.com/u/22613412?v=4",
        "type": "MediaObject",
        "content": "Zm9v",
        "contentEncoding": {"id": "http://data.europa.eu/snb/encoding/6146cde7dd",
            "type": "Concept",
            "inScheme": {"id": "http://data.europa.eu/snb/encoding/25831c2", "type": "ConceptScheme"},
            "prefLabel": {"en": ["base64"]}},
        "contentType": {"id": "http://publications.europa.eu/resource/authority/file-type/JPEG",
            "type": "Concept",
            "inScheme": {"id": "http://publications.europa.eu/resource/authority/file-type",
                         "type": "ConceptScheme"},
            "prefLabel": {"en": ["JPG"]}, "notation": "file-type"}}"#,
    );
    let by_address = doc(r#"{"id": "https://example.org/badge.jpg"}"#);
    assert_eq!(
        image_to_elm_media_object(by_address.clone(), Some("Zm9v".to_string())),
        Ok(expected.clone())
    );
    assert_eq!(image_to_elm_media_object(by_address, None), Err(ImageError::FetchFailed));
    let inline = doc(r#"{"id": "data:image/jpeg;base64,Zm9v"}"#);
    assert_eq!(image_to_elm_media_object(inline.clone(), None), Ok(expected.clone()));
    assert_eq!(image_to_elm_media_object(inline, Some("other".to_string())), Ok(expected));
    assert_eq!(
        image_to_elm_media_object(doc(r#"{"id": "https://example.org/badge.gif"}"#), Some("x".to_string())),
        Err(ImageError::UnknownFileType)
    );
    assert_eq!(image_to_elm_media_object(doc("{}"), None), Err(ImageError::NoId));
    assert_eq!(ImageError::NoId.message(), "The 'id' field does not exist.");
    assert_eq!(ImageError::FetchFailed.message(), "encoding of url failed");
    assert_eq!(ImageError::BadDataUri.message(), "Invalid data URI format.");
}

#[test]
fn displays() {
    let image = || doc(r#"{"id": "data:,Zm9v"}"#);
    let media = image_to_elm_media_object(image(), None).unwrap();
    let display = image_to_individual_display(image(), None).unwrap();
    let language = set_language("ENG").unwrap();
    assert_eq!(
        display,
        Json::Object(vec![
            (
                "id".to_string(),
                s("urn:epass:individualDisplay:c05743e7-9f9d-4e0b-899b-7ae6514c7a02")
            ),
            ("type".to_string(), s("IndividualDisplay")),
            ("language".to_string(), language.clone()),
            (
                "displayDetail".to_string(),
                Json::Array(vec![Json::Object(vec![
                    ("id".to_string(), s("urn:epass:displayDetail:123")),
                    ("type".to_string(), s("DisplayDetail")),
                    ("image".to_string(), media),
                    ("page".to_string(), Json::Number("1".to_string())),
                ])])
            ),
        ])
    );
    let parameter = create_display_parameter(image(), None).unwrap();
    assert!(parameter.is_wf());
    assert_eq!(
        parameter,
        Json::Object(vec![
            ("id".to_string(), s("urn:epass:displayParameter:1")),
            ("type".to_string(), s("DisplayParameter")),
            ("language".to_string(), Json::Array(vec![language.clone()])),
            (
                "description".to_string(),
                doc(r#"{"en": ["EBSI Example https://github.com/Knowledge-Innovation-Centre/ESBI-JSON-schemas/blob/main/examples%20of%20credentials/DigiComp%20Generic.json"]}"#)
            ),
            ("individualDisplay".to_string(), Json::Array(vec![display])),
            ("primaryLanguage".to_string(), language),
            ("title".to_string(), doc(r#"{"en": ["DigiComp Generic"]}"#)),
        ])
    );
    assert_eq!(image_to_individual_display(doc("{}"), None), Err(ImageError::NoId));
    assert_eq!(create_display_parameter(doc(r#"{"id": 1}"#), None), Err(ImageError::IdNotAString));
}

#[test]
fn locations_by_country_code() {
    let netherlands = doc(
        r#"{"id": "urn:epass:certificateLocation:1", "type": "Location",
        "address": {"id": "urn:epass:certificateAddress:1", "type": "Address",
          "countryCode": {
            "id": "http://publications.europa.eu/resource/authority/language/NLD",
            "type": "Concept",
            "inScheme": {"id": "http://publications.europa.eu/resource/authority/country",
                         "type": "ConceptScheme"},
            "notation": "country",
            "prefLabel": {"en": "the Kingdom of the Netherlands"}}}}"#,
    );
    assert_eq!(address_to_location(doc("{}")), Some(netherlands.clone()));
    assert_eq!(address_to_location(doc(r#"{"addressCountryCode": 31}"#)), Some(netherlands.clone()));
    assert_eq!(address_to_location(doc(r#"{"addressCountryCode": "NL"}"#)), Some(netherlands));
    let spain = address_to_location(doc(r#"{"addressCountryCode": "ES"}"#)).unwrap();
    assert_eq!(
        value_to_string(&eqf_free_text(&spain)),
        "the Kingdom of Spain".chars().collect::<Vec<char>>()
    );
    assert_eq!(address_to_location(doc(r#"{"addressCountryCode": ""}"#)), None);
    assert_eq!(address_to_location(doc(r#"{"addressCountryCode": "Spain"}"#)), None);
}

fn eqf_free_text(location: &Json) -> Json {
    let path = credential_mapper::pointer::JsonPointer::try_from(credential_mapper::pointer::JsonPath(
        "$.address.countryCode.prefLabel.en".to_string(),
    ))
    .unwrap();
    location.pointer(&path).unwrap().clone()
}

#[test]
fn titles_credits_and_levels() {
    assert_eq!(
        title_to_specifiedby(s("Data")),
        doc(r#"{"id": "urn:epass:learningAchievementSpec:1", "type": "Qualification",
            "title": {"en": ["Data"]}}"#)
    );
    assert_eq!(title_to_specifiedby(s("")), Json::Null);
    assert_eq!(title_to_specifiedby(doc("1")), Json::Null);
    let framework = r#""framework": {"id": "http://data.europa.eu/snb/education-credit/6fcec5c5af",
        "type": "Concept",
        "inScheme": {"id": "http://data.europa.eu/snb/education-credit/25831c2", "type": "ConceptScheme"},
        "prefLabel": {"en": ["European Credit Transfer System"]}}"#;
    assert_eq!(
        credentialpoint_values_to_object(doc("5")),
        doc(&format!(
            r#"{{"id": "urn:epass:creditPoint:1", "type": "CreditPoint", {}, "point": "5"}}"#,
            framework
        ))
    );
    assert_eq!(
        credentialpoint_values_to_object(s("5")),
        doc(&format!(
            r#"{{"id": "urn:epass:creditPoint:1", "type": "CreditPoint", {}, "point": "\"5\""}}"#,
            framework
        ))
    );
    assert_eq!(credentialpoint_values_to_object(doc("true")), Json::Null);
    assert_eq!(credentialpoint_values_to_object(Json::Number("five".to_string())), Json::Null);
    let alignments = doc(
        r#"[{"targetType": "ext:ESCO", "targetCode": "1"}, {"targetCode": "2"},
            {"targetType": "ext:EQF", "targetCode": "6"}, {"targetType": "ext:EQF", "targetCode": "7"}]"#,
    );
    assert_eq!(
        eqf_to_specifiedby_qualification(alignments),
        doc(r#"{"id": "http://publications.europa.eu/resource/authority/language/6", "type": "Concept",
            "inScheme": {"id": "http://data.europa.eu/snb/eqf/25831c2", "type": "ConceptScheme"},
            "prefLabel": {"en": "Level 6"}}"#)
    );
    assert_eq!(
        eqf_to_specifiedby_qualification(doc(
            r#"[{"targetType": "ext:EQF", "targetCode": 6}, {"targetType": "ext:EQF", "targetCode": "7"}]"#
        )),
        Json::Null
    );
    assert_eq!(eqf_to_specifiedby_qualification(doc("[]")), Json::Null);
    assert_eq!(eqf_to_specifiedby_qualification(doc("{}")), Json::Null);
}

#[test]
fn assessments_summaries_and_settings() {
    assert_eq!(
        assessment_type_to_specifiedby_assesment(s("Exam")),
        doc(r#"{"id": "urn:epass:learningAssessment:1", "type": "LearningAssessment",
          "awardedBy": {"id": "urn:epass:awardingProcess:1", "type": "AwardingProcess",
            "awardingBody": [{"id": "urn:epass:org:1", "type": "Organisation",
                "location": [{"address": "placeholder"}],
                "legalName": {"en": ["University of Life"]}}]},
          "title": {"en": ["Exam"]},
          "grade": {"id": "urn:epass:note:1", "type": "Note", "noteLiteral": {"en": ["0"]}}}"#)
    );
    assert_eq!(assessment_type_to_specifiedby_assesment(s("")), Json::Null);
    assert_eq!(assessment_type_to_specifiedby_assesment(doc("[]")), Json::Null);
    assert_eq!(
        create_learning_outcome_summary(s("knows things")),
        doc(r#"{"id": "urn:epass:note:3", "type": "Note", "noteLiteral": {"en": ["knows things"]}}"#)
    );
    assert_eq!(create_learning_outcome_summary(s("")), Json::Null);
    assert_eq!(create_learning_outcome_summary(doc("null")), Json::Null);
    let setting = |label: &str| {
        doc(&format!(
            r#"{{"id": "http://data.europa.eu/snb/learning-setting/6fd4685715", "type": "Concept",
            "inScheme": {{"id": "http://data.europa.eu/snb/learning-setting/25831c2", "type": "ConceptScheme"}},
            "prefLabel": {{"en": ["{}"]}}}}"#,
            label
        ))
    };
    assert_eq!(transform_learning_setting(s("formal")), setting("formal learning"));
    assert_eq!(transform_learning_setting(s("formal learning")), setting("formal learning"));
    assert_eq!(transform_learning_setting(s("nonformal")), setting("non-formal"));
    assert_eq!(transform_learning_setting(s("non-formal")), setting("non-formal"));
    assert_eq!(transform_learning_setting(s("informal")), Json::Null);
    assert_eq!(transform_learning_setting(doc("1")), Json::Null);
}

#[test]
fn note_literals() {
    let text = |t: &str| t.chars().collect::<Vec<char>>();
    assert_eq!(value_to_string(&doc(r#"["a", 1, [true, null], {"k": 1}]"#)), text("[a, 1, [true, null], {...}]"));
    assert_eq!(value_to_string(&doc("[]")), text("[]"));
    assert_eq!(
        object_to_string(&doc(r#"{"a": 1, "b": {"c": "x", "d": [2, 3]}, "e": {}, "f": null}"#)),
        text("a:1, b.c:x, b.d:[2, 3], f:null")
    );
    assert_eq!(object_to_string(&doc("{}")), text(""));
    assert_eq!(object_to_string(&doc("[1]")), text("Invalid JSON object"));
    assert_eq!(handle_json_input(&doc(r#"[{"a": 1}, 2, {"b": false}]"#)), text("a:1 | Invalid JSON object | b:false"));
    assert_eq!(handle_json_input(&doc("\"x\"")), text("Invalid JSON format"));
    assert_eq!(object_to_note_literal(doc(r#"{"a": {"b": "c"}}"#)), s("a.b:c"));
    assert_eq!(object_to_note_literal(doc("7")), s("Invalid JSON format"));
}

#[test]
fn learning_outcomes() {
    let alignments = doc(
        r#"[
          {"type": ["Alignment", "LearningOutcome"], "targetName": "Analyse", "targetDescription": "can analyse",
           "targetUrl": "urn:lo:1",
           "relations": [
             {"targetFramework": "ESCO", "targetUrl": "urn:esco:1", "frameworkUrl": "urn:esco", "targetName": "analysis"},
             {"targetFramework": "Other", "targetName": "thinking"},
             {"targetUrl": "urn:none"}
           ]},
          {"type": ["LearningOutcome"], "relations": []},
          {"type": ["LearningOutcome"], "targetName": "dropped: no relations"},
          {"type": ["Alignment"], "relations": []},
          {"type": "LearningOutcome", "relations": []}
        ]"#,
    );
    let expected = doc(
        r#"[
          {"title": {"en": ["Analyse"]}, "type": "LearningOutcome",
           "additionalNote": [{"id": "urn:epass:note:3", "type": "Note", "noteLiteral": {"en": ["can analyse"]}}],
           "id": "urn:lo:1",
           "relatedESCOSkill": [{"id": "urn:esco:1", "type": "Concept",
               "inScheme": {"id": "urn:esco", "type": "ConceptScheme"},
               "prefLabel": {"en": ["analysis"]}, "notation": "Skill"}],
           "relatedSkill": [{"id": null, "type": "Concept",
               "inScheme": {"id": null, "type": "ConceptScheme"},
               "prefLabel": {"en": ["thinking"]}, "notation": "Skill"}]},
          {"title": {"en": ["Unknown Title"]}, "type": "LearningOutcome", "id": ""}
        ]"#,
    );
    assert_eq!(transform_alignment_to_learning_outcomes(alignments), expected);
    assert_eq!(transform_alignment_to_learning_outcomes(doc("[]")), doc("[]"));
    assert_eq!(transform_alignment_to_learning_outcomes(doc("{}")), Json::Null);
}

#[test]
fn lines_as_std_splits_them() {
    for text in ["", "a", "a\n", "a\nb", "a\r\nb\r\n", "\n", "\n\n", "a\r", "a\rb\n", "\r\n", "a\n\r\nb", "x\r\r\n"] {
        let expected: Vec<String> = text.lines().map(|l| l.to_string()).collect();
        assert_eq!(split_lines(text), expected, "{:?}", text);
    }
}

#[test]
fn decimal_texts() {
    assert_eq!(decimal(0), "0");
    assert_eq!(decimal(7), "7");
    assert_eq!(decimal(10), "10");
    assert_eq!(decimal(9405), "9405");
    assert_eq!(decimal(usize::MAX), usize::MAX.to_string());
    assert_eq!(string_of(&vec!['a', 'é']), "aé");
}

#[test]
fn builders_on_given_values() {
    assert_eq!(credit_point("5"), credentialpoint_values_to_object(doc("5")));
    assert_eq!(
        Some(location("NLD", "the Kingdom of the Netherlands")),
        address_to_location(doc("{}"))
    );
    assert_eq!(
        location("X", "Y").pointer(
            &credential_mapper::pointer::JsonPointer::try_from(credential_mapper::pointer::JsonPath(
                "$.address.countryCode.id".to_string()
            ))
            .unwrap()
        ),
        Some(&s("http://publications.europa.eu/resource/authority/language/X"))
    );
}
