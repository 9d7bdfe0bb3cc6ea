//! Values of the badge schema rewritten as the objects that the
//! learning-credential schema wants for them.

use vstd::prelude::*;
use crate::elm::{
    concept, concept_view, entry, label, label_view, lemma_concept_keys, scheme_view, text,
};
use crate::json::{
    entries_view, entries_wf, entry_value, items_view, items_wf, option_view, Entries, Json,
    JsonView,
};
use crate::outside::{country_lookup, country_record, printed_json};
use crate::pointer::find_key;
use crate::text::{
    append_chars, chars_of, join, joined_with, pieces_view, push_text, same_text, string_of,
};

verus! {

/// The text under a key of an object, where the document is an object that
/// holds a text there.
pub open spec fn text_at(doc: JsonView, key: Seq<char>) -> Option<Seq<char>> {
    match doc {
        JsonView::Object(entries) => match entry_value(entries, key) {
            Some(JsonView::String(s)) => Some(s),
            _ => None,
        },
        _ => None,
    }
}

/// The items under a key of an object, where the document is an object
/// that holds an array there.
pub open spec fn array_at(doc: JsonView, key: Seq<char>) -> Option<Seq<JsonView>> {
    match doc {
        JsonView::Object(entries) => match entry_value(entries, key) {
            Some(JsonView::Array(items)) => Some(items),
            _ => None,
        },
        _ => None,
    }
}

/// The value under a key of an object.
pub fn value_under<'a>(doc: &'a Json, key: &str) -> (value: Option<&'a Json>)
    ensures
        match doc@ {
            JsonView::Object(entries) => match value {
                Some(v) => entry_value(entries, key@) == Some(v@),
                None => entry_value(entries, key@) is None,
            },
            _ => value is None,
        },
{
    match doc {
        Json::Object(entries) => {
            let i = find_key(entries, &String::from_str(key));
            if i < entries.len() {
                assert(entries_view(entries@)[i as int].1 == entries[i as int].1@);
                Some(&entries[i].1)
            } else {
                None
            }
        },
        _ => None,
    }
}

/// The text under a key of an object.
pub fn text_under<'a>(doc: &'a Json, key: &str) -> (value: Option<&'a String>)
    ensures
        value.is_some() == text_at(doc@, key@).is_some(),
        value matches Some(s) ==> text_at(doc@, key@) == Some(s@),
{
    match value_under(doc, key) {
        Some(Json::String(s)) => Some(s),
        _ => None,
    }
}

/// The items under a key of an object.
pub fn items_under<'a>(doc: &'a Json, key: &str) -> (value: Option<&'a Vec<Json>>)
    ensures
        value.is_some() == array_at(doc@, key@).is_some(),
        value matches Some(items) ==> array_at(doc@, key@) == Some(items_view(items@)),
{
    match value_under(doc, key) {
        Some(Json::Array(items)) => Some(items),
        _ => None,
    }
}

/// The keys "id", "type", "title", "point", "framework", "noteLiteral"
/// differ from one another.
proof fn lemma_helper_keys()
    ensures
        "id"@ != "type"@,
        "id"@ != "title"@,
        "type"@ != "title"@,
        "id"@ != "framework"@,
        "id"@ != "point"@,
        "type"@ != "framework"@,
        "type"@ != "point"@,
        "framework"@ != "point"@,
        "id"@ != "noteLiteral"@,
        "type"@ != "noteLiteral"@,
{
    reveal_strlit("id");
    reveal_strlit("type");
    reveal_strlit("title");
    reveal_strlit("point");
    reveal_strlit("framework");
    reveal_strlit("noteLiteral");
    assert("id"@.len() == 2 && "type"@.len() == 4 && "title"@.len() == 5);
    assert("point"@.len() == 5 && "framework"@.len() == 9 && "noteLiteral"@.len() == 11);
}

/// The specification of a qualification with a title.
pub open spec fn specified_by_view(title: JsonView) -> JsonView {
    match title {
        JsonView::String(s) => if s.len() == 0 {
            JsonView::Null
        } else {
            JsonView::Object(
                seq![
                    ("id"@, JsonView::String("urn:epass:learningAchievementSpec:1"@)),
                    ("type"@, JsonView::String("Qualification"@)),
                    ("title"@, label_view(s)),
                ],
            )
        },
        _ => JsonView::Null,
    }
}

/// Rewrites a title as the specification of a qualification; null for
/// what is no text, and for an empty one.
pub fn title_to_specifiedby(title: Json) -> (spec: Json)
    ensures
        spec@ == specified_by_view(title@),
        spec@.wf(),
{
    match title {
        Json::String(s) => {
            if chars_of(s.as_str()).len() == 0 {
                return Json::Null;
            }
            let entries = vec![
                entry("id", text("urn:epass:learningAchievementSpec:1")),
                entry("type", text("Qualification")),
                entry("title", label(s.as_str())),
            ];
            proof {
                lemma_helper_keys();
                assert(entries_view(entries@) =~= specified_by_view(
                    JsonView::String(s@),
                )->Object_0);
                assert(entries_wf(entries_view(entries@)));
            }
            Json::Object(entries)
        },
        _ => Json::Null,
    }
}

/// A credit point of the European Credit Transfer System with its points as a text.
pub open spec fn points_view(points: Seq<char>) -> JsonView {
    JsonView::Object(
        seq![
            ("id"@, JsonView::String("urn:epass:creditPoint:1"@)),
            ("type"@, JsonView::String("CreditPoint"@)),
            (
                "framework"@,
                concept_view(
                    "http://data.europa.eu/snb/education-credit/6fcec5c5af"@,
                    "http://data.europa.eu/snb/education-credit/25831c2"@,
                    "European Credit Transfer System"@,
                    None,
                ),
            ),
            ("point"@, JsonView::String(points)),
        ],
    )
}

/// The credit point of a number of credits, given as a text or a number:
/// the credits stand in it as JSON text.
pub open spec fn credit_point_view(credits: JsonView) -> JsonView {
    if (credits is String || credits is Number) && credits.wf() {
        points_view(printed_json(credits))
    } else {
        JsonView::Null
    }
}

/// A credit point of the European Credit Transfer System with its points as a text.
pub fn credit_point(points: &str) -> (point: Json)
    ensures
        point@ == points_view(points@),
        point@.wf(),
{
    let entries = vec![
        entry("id", text("urn:epass:creditPoint:1")),
        entry("type", text("CreditPoint")),
        entry(
            "framework",
            concept(
                "http://data.europa.eu/snb/education-credit/6fcec5c5af",
                "http://data.europa.eu/snb/education-credit/25831c2",
                "European Credit Transfer System",
                None,
            ),
        ),
        entry("point", text(points)),
    ];
    proof {
        lemma_helper_keys();
        assert(entries_view(entries@) =~= points_view(points@)->Object_0);
        assert(entries_wf(entries_view(entries@)));
    }
    Json::Object(entries)
}

/// Rewrites credits as a credit point of the European Credit Transfer
/// System; null for what is neither a text nor a number.
pub fn credentialpoint_values_to_object(credits: Json) -> (point: Json)
    ensures
        point@ == credit_point_view(credits@),
        point@.wf(),
{
    let is_scalar = match &credits {
        Json::String(_) => true,
        Json::Number(_) => true,
        _ => false,
    };
    if !is_scalar {
        return Json::Null;
    }
    match credits.to_text() {
        Some(printed) => credit_point(printed.as_str()),
        None => Json::Null,
    }
}

/// The index of the first alignment whose target type is the European
/// Qualifications Framework, or the number of alignments.
pub open spec fn eqf_index(alignments: Seq<JsonView>) -> nat
    decreases alignments.len(),
{
    if alignments.len() == 0 {
        0
    } else if text_at(alignments[0], "targetType"@) == Some("ext:EQF"@) {
        0
    } else {
        1 + eqf_index(alignments.drop_first())
    }
}

/// The level of the European Qualifications Framework that the alignments name.
pub open spec fn eqf_level_view(alignment: JsonView) -> JsonView {
    match alignment {
        JsonView::Array(alignments) => {
            let i = eqf_index(alignments) as int;
            if i < alignments.len() {
                match text_at(alignments[i], "targetCode"@) {
                    Some(code) => JsonView::Object(
                        seq![
                            (
                                "id"@,
                                JsonView::String(
                                    "http://publications.europa.eu/resource/authority/language/"@
                                        + code,
                                ),
                            ),
                            ("type"@, JsonView::String("Concept"@)),
                            ("inScheme"@, scheme_view("http://data.europa.eu/snb/eqf/25831c2"@)),
                            (
                                "prefLabel"@,
                                JsonView::Object(
                                    seq![("en"@, JsonView::String("Level "@ + code))],
                                ),
                            ),
                        ],
                    ),
                    None => JsonView::Null,
                }
            } else {
                JsonView::Null
            }
        },
        _ => JsonView::Null,
    }
}

/// `eqf_index` is the least index of an alignment with that target type.
proof fn lemma_eqf_index(alignments: Seq<JsonView>, i: nat)
    requires
        i <= alignments.len(),
        forall|k: int| 0 <= k < i ==> text_at(#[trigger] alignments[k], "targetType"@) != Some(
            "ext:EQF"@,
        ),
        i < alignments.len() ==> text_at(alignments[i as int], "targetType"@) == Some("ext:EQF"@),
    ensures
        eqf_index(alignments) == i,
    decreases alignments.len(),
{
    if alignments.len() > 0 && i > 0 {
        let rest = alignments.drop_first();
        assert forall|k: int| 0 <= k < i - 1 implies text_at(#[trigger] rest[k], "targetType"@)
            != Some("ext:EQF"@) by {
            assert(rest[k] == alignments[k + 1]);
        }
        assert(text_at(alignments[0], "targetType"@) != Some("ext:EQF"@));
        lemma_eqf_index(rest, (i - 1) as nat);
    }
}

/// Rewrites alignments as the level of the European Qualifications
/// Framework that the first of them with that target type names; null where
/// none does.
pub fn eqf_to_specifiedby_qualification(alignment: Json) -> (level: Json)
    ensures
        level@ == eqf_level_view(alignment@),
        level@.wf(),
{
    let items = match &alignment {
        Json::Array(items) => items,
        _ => {
            return Json::Null;
        },
    };
    let ghost all = items_view(items@);
    let mut i: usize = 0;
    let mut found = false;
    while i < items.len() && !found
        invariant
            i <= items.len(),
            all == items_view(items@),
            forall|k: int| 0 <= k < i ==> text_at(#[trigger] all[k], "targetType"@) != Some(
                "ext:EQF"@,
            ),
            found ==> i < items.len() && text_at(all[i as int], "targetType"@) == Some("ext:EQF"@),
        decreases items.len() - i, (if found { 0int } else { 1int }),
    {
        assert(all[i as int] == items[i as int]@);
        found = match text_under(&items[i], "targetType") {
            Some(target) => same_text(target.as_str(), "ext:EQF"),
            None => false,
        };
        if !found {
            i += 1;
        }
    }
    proof {
        lemma_eqf_index(all, i as nat);
        if i < items.len() {
            assert(all[i as int] == items[i as int]@);
        }
    }
    if i >= items.len() {
        return Json::Null;
    }
    let code = match text_under(&items[i], "targetCode") {
        Some(code) => code,
        None => {
            return Json::Null;
        },
    };
    let mut id = chars_of("http://publications.europa.eu/resource/authority/language/");
    push_text(&mut id, code.as_str());
    let mut level = chars_of("Level ");
    push_text(&mut level, code.as_str());
    let scheme = vec![
        entry("id", text("http://data.europa.eu/snb/eqf/25831c2")),
        entry("type", text("ConceptScheme")),
    ];
    let pref_label = vec![entry("en", Json::String(string_of(&level)))];
    let entries = vec![
        entry("id", Json::String(string_of(&id))),
        entry("type", text("Concept")),
        entry("inScheme", Json::Object(scheme)),
        entry("prefLabel", Json::Object(pref_label)),
    ];
    proof {
        lemma_concept_keys();
        assert(entries_view(scheme@) =~= scheme_view(
            "http://data.europa.eu/snb/eqf/25831c2"@,
        )->Object_0);
        assert(entries_wf(entries_view(scheme@)));
        assert(entries_view(pref_label@) =~= seq![("en"@, JsonView::String("Level "@ + code@))]);
        assert(entries_wf(entries_view(pref_label@)));
        assert(entries_view(entries@) =~= eqf_level_view(alignment@)->Object_0);
        assert(entries_wf(entries_view(entries@)));
    }
    Json::Object(entries)
}

/// A note in English: `{"id": id, "type": "Note", "noteLiteral": {"en": [text]}}`.
pub open spec fn note_view(id: Seq<char>, note: Seq<char>) -> JsonView {
    JsonView::Object(
        seq![
            ("id"@, JsonView::String(id)),
            ("type"@, JsonView::String("Note"@)),
            ("noteLiteral"@, label_view(note)),
        ],
    )
}

/// A note in English.
pub fn note(id: &str, literal: &str) -> (j: Json)
    ensures
        j@ == note_view(id@, literal@),
        j@.wf(),
{
    let entries = vec![
        entry("id", text(id)),
        entry("type", text("Note")),
        entry("noteLiteral", label(literal)),
    ];
    proof {
        lemma_helper_keys();
        assert(entries_view(entries@) =~= note_view(id@, literal@)->Object_0);
        assert(entries_wf(entries_view(entries@)));
    }
    Json::Object(entries)
}

/// The summary of learning outcomes that a text gives.
pub open spec fn outcome_summary_view(summary: JsonView) -> JsonView {
    match summary {
        JsonView::String(s) => if s.len() == 0 {
            JsonView::Null
        } else {
            note_view("urn:epass:note:3"@, s)
        },
        _ => JsonView::Null,
    }
}

/// Rewrites a text as a summary of learning outcomes; null for what is no
/// text, and for an empty one.
pub fn create_learning_outcome_summary(json_obj: Json) -> (summary: Json)
    ensures
        summary@ == outcome_summary_view(json_obj@),
        summary@.wf(),
{
    match json_obj {
        Json::String(s) => {
            if chars_of(s.as_str()).len() == 0 {
                Json::Null
            } else {
                note("urn:epass:note:3", s.as_str())
            }
        },
        _ => Json::Null,
    }
}

/// The concept of a learning setting, formal or non-formal.
pub open spec fn learning_setting_view(setting: JsonView) -> JsonView {
    match setting {
        JsonView::String(s) => if s == "formal learning"@ || s == "formal"@ {
            concept_view(
                "http://data.europa.eu/snb/learning-setting/6fd4685715"@,
                "http://data.europa.eu/snb/learning-setting/25831c2"@,
                "formal learning"@,
                None,
            )
        } else if s == "non-formal"@ || s == "nonformal"@ {
            concept_view(
                "http://data.europa.eu/snb/learning-setting/6fd4685715"@,
                "http://data.europa.eu/snb/learning-setting/25831c2"@,
                "non-formal"@,
                None,
            )
        } else {
            JsonView::Null
        },
        _ => JsonView::Null,
    }
}

/// Rewrites the name of a learning setting as its concept; null for a
/// name that is none of `formal learning`, `formal`, `non-formal`, `nonformal`.
pub fn transform_learning_setting(learning_setting: Json) -> (setting: Json)
    ensures
        setting@ == learning_setting_view(learning_setting@),
        setting@.wf(),
{
    match learning_setting {
        Json::String(s) => {
            if same_text(s.as_str(), "formal learning") || same_text(s.as_str(), "formal") {
                concept(
                    "http://data.europa.eu/snb/learning-setting/6fd4685715",
                    "http://data.europa.eu/snb/learning-setting/25831c2",
                    "formal learning",
                    None,
                )
            } else if same_text(s.as_str(), "non-formal") || same_text(s.as_str(), "nonformal") {
                concept(
                    "http://data.europa.eu/snb/learning-setting/6fd4685715",
                    "http://data.europa.eu/snb/learning-setting/25831c2",
                    "non-formal",
                    None,
                )
            } else {
                Json::Null
            }
        },
        _ => Json::Null,
    }
}

/// The assessment that a type of assessment specifies, with the
/// placeholders of the schema for who awards it and for its grade.
pub open spec fn assessment_view(assessment_type: JsonView) -> JsonView {
    match assessment_type {
        JsonView::String(s) => if s.len() == 0 {
            JsonView::Null
        } else {
            JsonView::Object(
                seq![
                    ("id"@, JsonView::String("urn:epass:learningAssessment:1"@)),
                    ("type"@, JsonView::String("LearningAssessment"@)),
                    ("awardedBy"@, awarding_process_view()),
                    ("title"@, label_view(s)),
                    ("grade"@, note_view("urn:epass:note:1"@, "0"@)),
                ],
            )
        },
        _ => JsonView::Null,
    }
}

/// The placeholder of the schema for the process that awards an assessment.
pub open spec fn awarding_process_view() -> JsonView {
    JsonView::Object(
        seq![
            ("id"@, JsonView::String("urn:epass:awardingProcess:1"@)),
            ("type"@, JsonView::String("AwardingProcess"@)),
            (
                "awardingBody"@,
                JsonView::Array(
                    seq![
                        JsonView::Object(
                            seq![
                                ("id"@, JsonView::String("urn:epass:org:1"@)),
                                ("type"@, JsonView::String("Organisation"@)),
                                (
                                    "location"@,
                                    JsonView::Array(
                                        seq![
                                            JsonView::Object(
                                                seq![
                                                    ("address"@, JsonView::String("placeholder"@)),
                                                ],
                                            ),
                                        ],
                                    ),
                                ),
                                ("legalName"@, label_view("University of Life"@)),
                            ],
                        ),
                    ],
                ),
            ),
        ],
    )
}

proof fn lemma_assessment_keys()
    ensures
        "id"@ != "type"@,
        "id"@ != "awardedBy"@,
        "id"@ != "title"@,
        "id"@ != "grade"@,
        "type"@ != "awardedBy"@,
        "type"@ != "title"@,
        "type"@ != "grade"@,
        "awardedBy"@ != "title"@,
        "awardedBy"@ != "grade"@,
        "title"@ != "grade"@,
        "id"@ != "awardingBody"@,
        "type"@ != "awardingBody"@,
        "id"@ != "location"@,
        "id"@ != "legalName"@,
        "type"@ != "location"@,
        "type"@ != "legalName"@,
        "location"@ != "legalName"@,
{
    reveal_strlit("id");
    reveal_strlit("type");
    reveal_strlit("awardedBy");
    reveal_strlit("title");
    reveal_strlit("grade");
    reveal_strlit("awardingBody");
    reveal_strlit("location");
    reveal_strlit("legalName");
    assert("id"@.len() == 2 && "type"@.len() == 4 && "awardedBy"@.len() == 9);
    assert("title"@.len() == 5 && "grade"@.len() == 5 && "awardingBody"@.len() == 12);
    assert("location"@.len() == 8 && "legalName"@.len() == 9);
    assert("title"@[0] != "grade"@[0]);
}

/// The placeholder of the schema for the process that awards an assessment.
fn awarding_process() -> (j: Json)
    ensures
        j@ == awarding_process_view(),
        j@.wf(),
{
    let address = vec![entry("address", text("placeholder"))];
    assert(entries_view(address@) =~= seq![("address"@, JsonView::String("placeholder"@))]);
    assert(entries_wf(entries_view(address@)));
    let locations = vec![Json::Object(address)];
    assert(items_view(locations@) =~= seq![
        JsonView::Object(seq![("address"@, JsonView::String("placeholder"@))]),
    ]);
    assert(items_wf(items_view(locations@)));
    let body = vec![
        entry("id", text("urn:epass:org:1")),
        entry("type", text("Organisation")),
        entry("location", Json::Array(locations)),
        entry("legalName", label("University of Life")),
    ];
    proof {
        lemma_assessment_keys();
        assert(entries_view(body@) =~= awarding_process_view()->Object_0[2].1->Array_0[0]->Object_0);
        assert(entries_wf(entries_view(body@)));
    }
    let bodies = vec![Json::Object(body)];
    assert(items_view(bodies@) =~= awarding_process_view()->Object_0[2].1->Array_0);
    assert(items_wf(items_view(bodies@)));
    let entries = vec![
        entry("id", text("urn:epass:awardingProcess:1")),
        entry("type", text("AwardingProcess")),
        entry("awardingBody", Json::Array(bodies)),
    ];
    proof {
        assert(entries_view(entries@) =~= awarding_process_view()->Object_0);
        assert(entries_wf(entries_view(entries@)));
    }
    Json::Object(entries)
}

/// Rewrites a type of assessment as the assessment that it specifies; null
/// for what is no text, and for an empty one.
pub fn assessment_type_to_specifiedby_assesment(assessement_type: Json) -> (assessment: Json)
    ensures
        assessment@ == assessment_view(assessement_type@),
        assessment@.wf(),
{
    match assessement_type {
        Json::String(s) => {
            if chars_of(s.as_str()).len() == 0 {
                return Json::Null;
            }
            let entries = vec![
                entry("id", text("urn:epass:learningAssessment:1")),
                entry("type", text("LearningAssessment")),
                entry("awardedBy", awarding_process()),
                entry("title", label(s.as_str())),
                entry("grade", note("urn:epass:note:1", "0")),
            ];
            proof {
                lemma_assessment_keys();
                assert(entries_view(entries@) =~= assessment_view(JsonView::String(s@))->Object_0);
                assert(entries_wf(entries_view(entries@)));
            }
            Json::Object(entries)
        },
        _ => Json::Null,
    }
}

/// The country code that an address names: the text under
/// `addressCountryCode`, `NLD` where that text is empty, and `NL` where
/// there is no such text.
pub open spec fn address_country_code(address: JsonView) -> Seq<char> {
    match text_at(address, "addressCountryCode"@) {
        Some(code) => if code.len() == 0 {
            "NLD"@
        } else {
            code
        },
        None => "NL"@,
    }
}

/// The location of a country, by its three-letter code and its full name.
pub open spec fn location_view(alpha_3: Seq<char>, name: Seq<char>) -> JsonView {
    JsonView::Object(
        seq![
            ("id"@, JsonView::String("urn:epass:certificateLocation:1"@)),
            ("type"@, JsonView::String("Location"@)),
            (
                "address"@,
                JsonView::Object(
                    seq![
                        ("id"@, JsonView::String("urn:epass:certificateAddress:1"@)),
                        ("type"@, JsonView::String("Address"@)),
                        ("countryCode"@, country_concept_view(alpha_3, name)),
                    ],
                ),
            ),
        ],
    )
}

/// The concept of a country.
pub open spec fn country_concept_view(alpha_3: Seq<char>, name: Seq<char>) -> JsonView {
    JsonView::Object(
        seq![
            (
                "id"@,
                JsonView::String(
                    "http://publications.europa.eu/resource/authority/language/"@ + alpha_3,
                ),
            ),
            ("type"@, JsonView::String("Concept"@)),
            (
                "inScheme"@,
                scheme_view("http://publications.europa.eu/resource/authority/country"@),
            ),
            ("notation"@, JsonView::String("country"@)),
            ("prefLabel"@, JsonView::Object(seq![("en"@, JsonView::String(name))])),
        ],
    )
}

/// The location that an address names by its country code: `None` where
/// the code is no two-letter code of ISO 3166-1, or one without a
/// three-letter code or without a full name.
pub open spec fn address_location(address: JsonView) -> Option<JsonView> {
    match country_record(address_country_code(address)) {
        Some((Some(alpha_3), Some(name))) => Some(location_view(alpha_3, name)),
        _ => None,
    }
}

proof fn lemma_location_keys()
    ensures
        "id"@ != "type"@,
        "id"@ != "address"@,
        "type"@ != "address"@,
        "id"@ != "countryCode"@,
        "type"@ != "countryCode"@,
{
    reveal_strlit("id");
    reveal_strlit("type");
    reveal_strlit("address");
    reveal_strlit("countryCode");
    assert("id"@.len() == 2 && "type"@.len() == 4 && "address"@.len() == 7);
    assert("countryCode"@.len() == 11);
}

/// Rewrites an address as the location of its country.
pub fn address_to_location(address_value: Json) -> (location: Option<Json>)
    ensures
        option_view(location) == address_location(address_value@),
        location matches Some(j) ==> j@.wf(),
{
    let code = match text_under(&address_value, "addressCountryCode") {
        Some(code) => if chars_of(code.as_str()).len() == 0 {
            String::from_str("NLD")
        } else {
            code.clone()
        },
        None => String::from_str("NL"),
    };
    match country_lookup(code.as_str()) {
        Some((Some(alpha_3), Some(name))) => Some(location(alpha_3.as_str(), name.as_str())),
        _ => None,
    }
}

/// The location of a country, by its three-letter code and its full name.
pub fn location(alpha_3: &str, name: &str) -> (location: Json)
    ensures
        location@ == location_view(alpha_3@, name@),
        location@.wf(),
{
    let mut id = chars_of("http://publications.europa.eu/resource/authority/language/");
    push_text(&mut id, alpha_3);
    let scheme = vec![
        entry("id", text("http://publications.europa.eu/resource/authority/country")),
        entry("type", text("ConceptScheme")),
    ];
    let pref_label = vec![entry("en", text(name))];
    let country = vec![
        entry("id", Json::String(string_of(&id))),
        entry("type", text("Concept")),
        entry("inScheme", Json::Object(scheme)),
        entry("notation", text("country")),
        entry("prefLabel", Json::Object(pref_label)),
    ];
    proof {
        lemma_concept_keys();
        assert(entries_view(scheme@) =~= scheme_view(
            "http://publications.europa.eu/resource/authority/country"@,
        )->Object_0);
        assert(entries_wf(entries_view(scheme@)));
        assert(entries_view(pref_label@) =~= seq![("en"@, JsonView::String(name@))]);
        assert(entries_wf(entries_view(pref_label@)));
        assert(entries_view(country@) =~= country_concept_view(alpha_3@, name@)->Object_0);
        assert(entries_wf(entries_view(country@)));
    }
    let address = vec![
        entry("id", text("urn:epass:certificateAddress:1")),
        entry("type", text("Address")),
        entry("countryCode", Json::Object(country)),
    ];
    proof {
        lemma_location_keys();
        assert(entries_view(address@) =~= location_view(alpha_3@, name@)->Object_0[2].1->Object_0);
        assert(entries_wf(entries_view(address@)));
    }
    let entries = vec![
        entry("id", text("urn:epass:certificateLocation:1")),
        entry("type", text("Location")),
        entry("address", Json::Object(address)),
    ];
    proof {
        assert(entries_view(entries@) =~= location_view(alpha_3@, name@)->Object_0);
        assert(entries_wf(entries_view(entries@)));
    }
    Json::Object(entries)
}

/// The text of a value inside a note: a scalar as it is written, the items
/// of an array in brackets with commas, and three points for an object.
pub open spec fn value_text(v: JsonView) -> Seq<char>
    decreases v, 0nat,
{
    match v {
        JsonView::String(s) => s,
        JsonView::Number(t) => t,
        JsonView::Bool(b) => if b {
            "true"@
        } else {
            "false"@
        },
        JsonView::Array(items) => "["@ + joined_with(item_texts(items, items.len()), ", "@, items.len())
            + "]"@,
        JsonView::Object(_) => "{...}"@,
        JsonView::Null => "null"@,
    }
}

/// The texts of the first `n` items.
pub open spec fn item_texts(items: Seq<JsonView>, n: nat) -> Seq<Seq<char>>
    decreases items, n,
{
    if n == 0 || n > items.len() {
        Seq::empty()
    } else {
        item_texts(items, (n - 1) as nat).push(value_text(items[n - 1]))
    }
}

/// Writes a value as text inside a note.
pub fn value_to_string(value: &Json) -> (t: Vec<char>)
    ensures
        t@ == value_text(value@),
    decreases value@,
{
    match value {
        Json::String(s) => chars_of(s.as_str()),
        Json::Number(n) => chars_of(n.as_str()),
        Json::Bool(b) => if *b {
            chars_of("true")
        } else {
            chars_of("false")
        },
        Json::Array(items) => {
            let ghost all = items_view(items@);
            let mut texts: Vec<Vec<char>> = Vec::new();
            let mut i: usize = 0;
            while i < items.len()
                invariant
                    i <= items.len(),
                    all == items_view(items@),
                    value@ == JsonView::Array(all),
                    texts.len() == i,
                    pieces_view(texts@) == item_texts(all, i as nat),
                decreases items.len() - i,
            {
                proof {
                    assert(all[i as int] == items[i as int]@);
                    assert(decreases_to!(value@ => value@->Array_0));
                    assert(decreases_to!(all => all[i as int]));
                }
                let ghost before = pieces_view(texts@);
                let t = value_to_string(&items[i]);
                texts.push(t);
                assert(pieces_view(texts@) =~= before.push(t@));
                i += 1;
            }
            let mut out = chars_of("[");
            let inner = join(&texts, ", ");
            append_chars(&mut out, &inner);
            push_text(&mut out, "]");
            assert(out@ =~= value_text(value@));
            out
        },
        Json::Object(_) => chars_of("{...}"),
        Json::Null => chars_of("null"),
    }
}

/// The pieces that an entry of an object gives: `key:value`, and for a
/// value that is an object `key.inner:value` for each of its entries.
pub open spec fn entry_pieces(key: Seq<char>, value: JsonView) -> Seq<Seq<char>> {
    match value {
        JsonView::Object(nested) => Seq::new(
            nested.len(),
            |i: int| key + "."@ + nested[i].0 + ":"@ + value_text(nested[i].1),
        ),
        _ => seq![key + ":"@ + value_text(value)],
    }
}

/// The pieces that the first `n` entries give, in their order.
pub open spec fn object_pieces(entries: Entries, n: nat) -> Seq<Seq<char>>
    decreases n,
{
    if n == 0 || n > entries.len() {
        Seq::empty()
    } else {
        object_pieces(entries, (n - 1) as nat) + entry_pieces(entries[n - 1].0, entries[n - 1].1)
    }
}

/// The text of an object inside a note: its pieces with commas.
pub open spec fn object_text(v: JsonView) -> Seq<char> {
    match v {
        JsonView::Object(entries) => {
            let pieces = object_pieces(entries, entries.len());
            joined_with(pieces, ", "@, pieces.len())
        },
        _ => "Invalid JSON object"@,
    }
}

/// Writes an object, nested one level at most, as `key:value` pieces.
pub fn object_to_string(json_obj: &Json) -> (t: Vec<char>)
    ensures
        t@ == object_text(json_obj@),
{
    let entries = match json_obj {
        Json::Object(entries) => entries,
        _ => {
            return chars_of("Invalid JSON object");
        },
    };
    let ghost all = entries_view(entries@);
    let mut pieces: Vec<Vec<char>> = Vec::new();
    let mut i: usize = 0;
    while i < entries.len()
        invariant
            i <= entries.len(),
            all == entries_view(entries@),
            pieces_view(pieces@) == object_pieces(all, i as nat),
        decreases entries.len() - i,
    {
        assert(all[i as int] == (entries[i as int].0@, entries[i as int].1@));
        let ghost before = pieces_view(pieces@);
        let key = chars_of(entries[i].0.as_str());
        match &entries[i].1 {
            Json::Object(nested) => {
                let ghost inner = entries_view(nested@);
                let mut k: usize = 0;
                while k < nested.len()
                    invariant
                        k <= nested.len(),
                        inner == entries_view(nested@),
                        key@ == all[i as int].0,
                        pieces_view(pieces@) == before + entry_pieces(
                            key@,
                            JsonView::Object(inner),
                        ).take(k as int),
                    decreases nested.len() - k,
                {
                    assert(inner[k as int] == (nested[k as int].0@, nested[k as int].1@));
                    let ghost so_far = pieces_view(pieces@);
                    let mut piece = key.clone();
                    push_text(&mut piece, ".");
                    push_text(&mut piece, nested[k].0.as_str());
                    push_text(&mut piece, ":");
                    let t = value_to_string(&nested[k].1);
                    append_chars(&mut piece, &t);
                    pieces.push(piece);
                    k += 1;
                    assert(pieces_view(pieces@) =~= so_far.push(piece@));
                    assert(pieces_view(pieces@) =~= before + entry_pieces(
                        key@,
                        JsonView::Object(inner),
                    ).take(k as int));
                }
                assert(entry_pieces(key@, JsonView::Object(inner)).take(nested.len() as int)
                    =~= entry_pieces(key@, JsonView::Object(inner)));
            },
            other => {
                let mut piece = key.clone();
                push_text(&mut piece, ":");
                let t = value_to_string(other);
                append_chars(&mut piece, &t);
                pieces.push(piece);
                assert(pieces_view(pieces@) =~= before + seq![piece@]);
            },
        }
        i += 1;
    }
    join(&pieces, ", ")
}

/// The texts of the first `n` objects.
pub open spec fn object_texts(items: Seq<JsonView>, n: nat) -> Seq<Seq<char>>
    decreases n,
{
    if n == 0 || n > items.len() {
        Seq::empty()
    } else {
        object_texts(items, (n - 1) as nat).push(object_text(items[n - 1]))
    }
}

/// The text of an object, or of the objects of an array with bars between them.
pub open spec fn note_literal_text(v: JsonView) -> Seq<char> {
    match v {
        JsonView::Array(items) => joined_with(object_texts(items, items.len()), " | "@, items.len()),
        JsonView::Object(_) => object_text(v),
        _ => "Invalid JSON format"@,
    }
}

/// Writes an object, or the objects of an array, as text.
pub fn handle_json_input(json_obj: &Json) -> (t: Vec<char>)
    ensures
        t@ == note_literal_text(json_obj@),
{
    match json_obj {
        Json::Array(items) => {
            let ghost all = items_view(items@);
            let mut texts: Vec<Vec<char>> = Vec::new();
            let mut i: usize = 0;
            while i < items.len()
                invariant
                    i <= items.len(),
                    all == items_view(items@),
                    texts.len() == i,
                    pieces_view(texts@) == object_texts(all, i as nat),
                decreases items.len() - i,
            {
                assert(all[i as int] == items[i as int]@);
                let ghost before = pieces_view(texts@);
                let t = object_to_string(&items[i]);
                texts.push(t);
                assert(pieces_view(texts@) =~= before.push(t@));
                i += 1;
            }
            join(&texts, " | ")
        },
        Json::Object(_) => object_to_string(json_obj),
        _ => chars_of("Invalid JSON format"),
    }
}

/// Rewrites an object, or an array of objects, as the text of a note.
pub fn object_to_note_literal(any_object: Json) -> (literal: Json)
    ensures
        literal@ == JsonView::String(note_literal_text(any_object@)),
        literal@.wf(),
{
    Json::String(string_of(&handle_json_input(&any_object)))
}

/// A text as a value, and null for a missing one.
pub open spec fn text_or_null(o: Option<Seq<char>>) -> JsonView {
    match o {
        Some(s) => JsonView::String(s),
        None => JsonView::Null,
    }
}

/// A text as a value, and null for a missing one.
fn text_value(o: Option<&String>) -> (j: Json)
    ensures
        j@ == text_or_null(
            match o {
                Some(s) => Some(s@),
                None => None,
            },
        ),
        j@.wf(),
{
    match o {
        Some(s) => Json::String(s.clone()),
        None => Json::Null,
    }
}

/// The skill that a relation of an alignment names, as a concept.
pub open spec fn relation_view(relation: JsonView) -> JsonView {
    JsonView::Object(
        seq![
            ("id"@, text_or_null(text_at(relation, "targetUrl"@))),
            ("type"@, JsonView::String("Concept"@)),
            (
                "inScheme"@,
                JsonView::Object(
                    seq![
                        ("id"@, text_or_null(text_at(relation, "frameworkUrl"@))),
                        ("type"@, JsonView::String("ConceptScheme"@)),
                    ],
                ),
            ),
            (
                "prefLabel"@,
                JsonView::Object(
                    seq![
                        (
                            "en"@,
                            JsonView::Array(seq![text_or_null(text_at(relation, "targetName"@))]),
                        ),
                    ],
                ),
            ),
            ("notation"@, JsonView::String("Skill"@)),
        ],
    )
}

/// The skill that a relation of an alignment names, as a concept.
fn relation_object(relation: &Json) -> (j: Json)
    ensures
        j@ == relation_view(relation@),
        j@.wf(),
{
    let scheme = vec![
        entry("id", text_value(text_under(relation, "frameworkUrl"))),
        entry("type", text("ConceptScheme")),
    ];
    let names = vec![text_value(text_under(relation, "targetName"))];
    assert(items_view(names@) =~= seq![text_or_null(text_at(relation@, "targetName"@))]);
    assert(items_wf(items_view(names@)));
    let pref_label = vec![entry("en", Json::Array(names))];
    let entries = vec![
        entry("id", text_value(text_under(relation, "targetUrl"))),
        entry("type", text("Concept")),
        entry("inScheme", Json::Object(scheme)),
        entry("prefLabel", Json::Object(pref_label)),
        entry("notation", text("Skill")),
    ];
    proof {
        lemma_concept_keys();
        assert(entries_view(scheme@) =~= relation_view(relation@)->Object_0[2].1->Object_0);
        assert(entries_wf(entries_view(scheme@)));
        assert(entries_view(pref_label@) =~= relation_view(relation@)->Object_0[3].1->Object_0);
        assert(entries_wf(entries_view(pref_label@)));
        assert(entries_view(entries@) =~= relation_view(relation@)->Object_0);
        assert(entries_wf(entries_view(entries@)));
    }
    Json::Object(entries)
}

/// The skills that the first `n` relations name in a framework: in ESCO,
/// or in any other one. A relation without a framework names none.
pub open spec fn related_skills(relations: Seq<JsonView>, esco: bool, n: nat) -> Seq<JsonView>
    decreases n,
{
    if n == 0 || n > relations.len() {
        Seq::empty()
    } else {
        let before = related_skills(relations, esco, (n - 1) as nat);
        match text_at(relations[n - 1], "targetFramework"@) {
            Some(framework) => if (framework == "ESCO"@) == esco {
                before.push(relation_view(relations[n - 1]))
            } else {
                before
            },
            None => before,
        }
    }
}

/// An alignment is a learning outcome where its types hold that text.
pub open spec fn is_learning_outcome(alignment: JsonView) -> bool {
    match array_at(alignment, "type"@) {
        Some(types) => exists|i: int|
            0 <= i < types.len() && #[trigger] types[i] == JsonView::String("LearningOutcome"@),
        None => false,
    }
}

/// An entry where the condition holds, and none otherwise.
pub open spec fn entry_if(condition: bool, key: Seq<char>, value: JsonView) -> Entries {
    if condition {
        seq![(key, value)]
    } else {
        Seq::empty()
    }
}

/// The learning outcome of an alignment with its relations: its title,
/// its description as a note where it has one, its address, and the skills
/// that its relations name, those of ESCO apart from the others.
pub open spec fn outcome_view(alignment: JsonView, relations: Seq<JsonView>) -> JsonView {
    let title = match text_at(alignment, "targetName"@) {
        Some(t) => t,
        None => "Unknown Title"@,
    };
    let description = match text_at(alignment, "targetDescription"@) {
        Some(t) => t,
        None => Seq::empty(),
    };
    let url = match text_at(alignment, "targetUrl"@) {
        Some(t) => t,
        None => Seq::empty(),
    };
    let esco = related_skills(relations, true, relations.len());
    let other = related_skills(relations, false, relations.len());
    JsonView::Object(
        seq![("title"@, label_view(title)), ("type"@, JsonView::String("LearningOutcome"@))]
            + entry_if(
            description.len() > 0,
            "additionalNote"@,
            JsonView::Array(seq![note_view("urn:epass:note:3"@, description)]),
        ) + seq![("id"@, JsonView::String(url))] + entry_if(
            esco.len() > 0,
            "relatedESCOSkill"@,
            JsonView::Array(esco),
        ) + entry_if(other.len() > 0, "relatedSkill"@, JsonView::Array(other)),
    )
}

/// The learning outcomes of the first `n` alignments: one for each that is
/// a learning outcome and has relations.
pub open spec fn outcomes(alignments: Seq<JsonView>, n: nat) -> Seq<JsonView>
    decreases n,
{
    if n == 0 || n > alignments.len() {
        Seq::empty()
    } else {
        let before = outcomes(alignments, (n - 1) as nat);
        match array_at(alignments[n - 1], "relations"@) {
            Some(relations) => if is_learning_outcome(alignments[n - 1]) {
                before.push(outcome_view(alignments[n - 1], relations))
            } else {
                before
            },
            None => before,
        }
    }
}

/// The learning outcomes of alignments; null for what is no array.
pub open spec fn learning_outcomes_view(v: JsonView) -> JsonView {
    match v {
        JsonView::Array(alignments) => JsonView::Array(outcomes(alignments, alignments.len())),
        _ => JsonView::Null,
    }
}

proof fn lemma_outcome_keys()
    ensures
        "title"@ != "type"@,
        "title"@ != "additionalNote"@,
        "title"@ != "id"@,
        "title"@ != "relatedESCOSkill"@,
        "title"@ != "relatedSkill"@,
        "type"@ != "additionalNote"@,
        "type"@ != "id"@,
        "type"@ != "relatedESCOSkill"@,
        "type"@ != "relatedSkill"@,
        "additionalNote"@ != "id"@,
        "additionalNote"@ != "relatedESCOSkill"@,
        "additionalNote"@ != "relatedSkill"@,
        "id"@ != "relatedESCOSkill"@,
        "id"@ != "relatedSkill"@,
        "relatedESCOSkill"@ != "relatedSkill"@,
{
    reveal_strlit("title");
    reveal_strlit("type");
    reveal_strlit("additionalNote");
    reveal_strlit("id");
    reveal_strlit("relatedESCOSkill");
    reveal_strlit("relatedSkill");
    assert("title"@.len() == 5 && "type"@.len() == 4 && "additionalNote"@.len() == 14);
    assert("id"@.len() == 2 && "relatedESCOSkill"@.len() == 16 && "relatedSkill"@.len() == 12);
}

/// Whether the types of an alignment hold `LearningOutcome`.
fn has_outcome_type(alignment: &Json) -> (b: bool)
    ensures
        b == is_learning_outcome(alignment@),
{
    let types = match items_under(alignment, "type") {
        Some(types) => types,
        None => {
            return false;
        },
    };
    let ghost all = items_view(types@);
    let mut i: usize = 0;
    while i < types.len()
        invariant
            i <= types.len(),
            all == items_view(types@),
            array_at(alignment@, "type"@) == Some(all),
            forall|k: int| 0 <= k < i ==> #[trigger] all[k] != JsonView::String("LearningOutcome"@),
        decreases types.len() - i,
    {
        assert(all[i as int] == types[i as int]@);
        let hit = match &types[i] {
            Json::String(s) => same_text(s.as_str(), "LearningOutcome"),
            _ => false,
        };
        if hit {
            assert(all[i as int] == JsonView::String("LearningOutcome"@));
            return true;
        }
        i += 1;
    }
    false
}

/// The learning outcome of an alignment with its relations.
fn outcome_of(alignment: &Json, relations: &Vec<Json>) -> (j: Json)
    ensures
        j@ == outcome_view(alignment@, items_view(relations@)),
        j@.wf(),
{
    let ghost all = items_view(relations@);
    let mut esco: Vec<Json> = Vec::new();
    let mut other: Vec<Json> = Vec::new();
    let mut i: usize = 0;
    while i < relations.len()
        invariant
            i <= relations.len(),
            all == items_view(relations@),
            items_view(esco@) == related_skills(all, true, i as nat),
            items_view(other@) == related_skills(all, false, i as nat),
            items_wf(items_view(esco@)),
            items_wf(items_view(other@)),
        decreases relations.len() - i,
    {
        assert(all[i as int] == relations[i as int]@);
        let ghost esco_before = items_view(esco@);
        let ghost other_before = items_view(other@);
        match text_under(&relations[i], "targetFramework") {
            Some(framework) => {
                let skill = relation_object(&relations[i]);
                if same_text(framework.as_str(), "ESCO") {
                    esco.push(skill);
                    assert(items_view(esco@) =~= esco_before.push(skill@));
                } else {
                    other.push(skill);
                    assert(items_view(other@) =~= other_before.push(skill@));
                }
            },
            None => {},
        }
        i += 1;
    }
    let title = match text_under(alignment, "targetName") {
        Some(t) => t.clone(),
        None => String::from_str("Unknown Title"),
    };
    let description = match text_under(alignment, "targetDescription") {
        Some(t) => t.clone(),
        None => String::new(),
    };
    let url = match text_under(alignment, "targetUrl") {
        Some(t) => t.clone(),
        None => String::new(),
    };
    let mut entries = vec![
        entry("title", label(title.as_str())),
        entry("type", text("LearningOutcome")),
    ];
    let ghost head = entries_view(entries@);
    assert(head =~= seq![
        ("title"@, label_view(title@)),
        ("type"@, JsonView::String("LearningOutcome"@)),
    ]);
    proof {
        lemma_outcome_keys();
    }
    if chars_of(description.as_str()).len() > 0 {
        let notes = vec![note("urn:epass:note:3", description.as_str())];
        assert(items_view(notes@) =~= seq![note_view("urn:epass:note:3"@, description@)]);
        assert(items_wf(items_view(notes@)));
        entries.push(entry("additionalNote", Json::Array(notes)));
    }
    let ghost with_note = entries_view(entries@);
    assert(with_note =~= head + entry_if(
        description@.len() > 0,
        "additionalNote"@,
        JsonView::Array(seq![note_view("urn:epass:note:3"@, description@)]),
    ));
    assert(entries_wf(with_note));
    entries.push(entry("id", Json::String(url)));
    let ghost with_id = entries_view(entries@);
    assert(with_id =~= with_note + seq![("id"@, JsonView::String(url@))]);
    assert(entries_wf(with_id));
    let ghost esco_view = items_view(esco@);
    let ghost other_view = items_view(other@);
    if esco.len() > 0 {
        entries.push(entry("relatedESCOSkill", Json::Array(esco)));
    }
    let ghost with_esco = entries_view(entries@);
    assert(with_esco =~= with_id + entry_if(
        esco_view.len() > 0,
        "relatedESCOSkill"@,
        JsonView::Array(esco_view),
    ));
    assert(entries_wf(with_esco));
    if other.len() > 0 {
        entries.push(entry("relatedSkill", Json::Array(other)));
    }
    assert(entries_view(entries@) =~= with_esco + entry_if(
        other_view.len() > 0,
        "relatedSkill"@,
        JsonView::Array(other_view),
    ));
    assert(entries_wf(entries_view(entries@)));
    Json::Object(entries)
}

/// Rewrites alignments as learning outcomes: one for each alignment whose
/// types hold `LearningOutcome` and that has relations. Null for what is
/// no array.
pub fn transform_alignment_to_learning_outcomes(json_obj: Json) -> (learning_outcomes: Json)
    ensures
        learning_outcomes@ == learning_outcomes_view(json_obj@),
        learning_outcomes@.wf(),
{
    let alignments = match &json_obj {
        Json::Array(alignments) => alignments,
        _ => {
            return Json::Null;
        },
    };
    let ghost all = items_view(alignments@);
    let mut results: Vec<Json> = Vec::new();
    let mut i: usize = 0;
    while i < alignments.len()
        invariant
            i <= alignments.len(),
            all == items_view(alignments@),
            items_view(results@) == outcomes(all, i as nat),
            items_wf(items_view(results@)),
        decreases alignments.len() - i,
    {
        assert(all[i as int] == alignments[i as int]@);
        let ghost before = items_view(results@);
        if has_outcome_type(&alignments[i]) {
            match items_under(&alignments[i], "relations") {
                Some(relations) => {
                    let outcome = outcome_of(&alignments[i], relations);
                    results.push(outcome);
                    assert(items_view(results@) =~= before.push(outcome@));
                },
                None => {},
            }
        }
        i += 1;
    }
    Json::Array(results)
}

} // verus!
