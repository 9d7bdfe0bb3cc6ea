//! The fixed vocabulary of the learning-credential schema: concepts of
//! controlled lists and the objects that a display is made of.

use vstd::prelude::*;
use crate::json::{entries_view, entries_wf, items_view, items_wf, Json, JsonView};
use crate::text::same_text;

verus! {

/// An entry of an object: a key and its value.
pub fn entry(key: &str, value: Json) -> (e: (String, Json))
    ensures
        e.0@ == key@,
        e.1 == value,
{
    (String::from_str(key), value)
}

/// A text value.
pub fn text(s: &str) -> (j: Json)
    ensures
        j@ == JsonView::String(s@),
{
    Json::String(String::from_str(s))
}

/// A language-tagged label: `{"en": [label]}`.
pub open spec fn label_view(label: Seq<char>) -> JsonView {
    JsonView::Object(seq![("en"@, JsonView::Array(seq![JsonView::String(label)]))])
}

/// A language-tagged label: `{"en": [label]}`.
pub fn label(s: &str) -> (j: Json)
    ensures
        j@ == label_view(s@),
        j@.wf(),
{
    let mut items: Vec<Json> = Vec::new();
    items.push(text(s));
    assert(items_view(items@) =~= seq![JsonView::String(s@)]);
    let mut entries: Vec<(String, Json)> = Vec::new();
    entries.push(entry("en", Json::Array(items)));
    assert(entries_view(entries@) =~= seq![("en"@, JsonView::Array(seq![JsonView::String(s@)]))]);
    let j = Json::Object(entries);
    proof {
        assert(items_wf(seq![JsonView::String(s@)]));
        assert(entries_wf(j@->Object_0));
    }
    j
}

/// The scheme of a controlled list: `{"id": id, "type": "ConceptScheme"}`.
pub open spec fn scheme_view(id: Seq<char>) -> JsonView {
    JsonView::Object(
        seq![("id"@, JsonView::String(id)), ("type"@, JsonView::String("ConceptScheme"@))],
    )
}

/// A concept of a controlled list: its id, its scheme, its label, and the
/// notation of the list where it has one.
pub open spec fn concept_view(
    id: Seq<char>,
    scheme: Seq<char>,
    label: Seq<char>,
    notation: Option<Seq<char>>,
) -> JsonView {
    let head = seq![
        ("id"@, JsonView::String(id)),
        ("type"@, JsonView::String("Concept"@)),
        ("inScheme"@, scheme_view(scheme)),
        ("prefLabel"@, label_view(label)),
    ];
    match notation {
        Some(n) => JsonView::Object(head.push(("notation"@, JsonView::String(n)))),
        None => JsonView::Object(head),
    }
}

/// The keys of a concept differ from one another.
pub proof fn lemma_concept_keys()
    ensures
        "id"@ != "type"@,
        "id"@ != "inScheme"@,
        "id"@ != "prefLabel"@,
        "id"@ != "notation"@,
        "type"@ != "inScheme"@,
        "type"@ != "prefLabel"@,
        "type"@ != "notation"@,
        "inScheme"@ != "prefLabel"@,
        "inScheme"@ != "notation"@,
        "prefLabel"@ != "notation"@,
{
    reveal_strlit("id");
    reveal_strlit("type");
    reveal_strlit("inScheme");
    reveal_strlit("prefLabel");
    reveal_strlit("notation");
    assert("id"@.len() == 2 && "type"@.len() == 4 && "inScheme"@.len() == 8);
    assert("prefLabel"@.len() == 9 && "notation"@.len() == 8);
    assert("inScheme"@[0] != "notation"@[0]);
}

/// A concept of a controlled list.
pub fn concept(id: &str, scheme: &str, name: &str, notation: Option<&str>) -> (j: Json)
    ensures
        j@ == concept_view(
            id@,
            scheme@,
            name@,
            match notation {
                Some(n) => Some(n@),
                None => None,
            },
        ),
        j@.wf(),
{
    let mut in_scheme: Vec<(String, Json)> = Vec::new();
    in_scheme.push(entry("id", text(scheme)));
    in_scheme.push(entry("type", text("ConceptScheme")));
    assert(entries_view(in_scheme@) =~= scheme_view(scheme@)->Object_0);
    let mut entries: Vec<(String, Json)> = Vec::new();
    entries.push(entry("id", text(id)));
    entries.push(entry("type", text("Concept")));
    entries.push(entry("inScheme", Json::Object(in_scheme)));
    entries.push(entry("prefLabel", label(name)));
    let ghost head = entries_view(entries@);
    assert(head =~= seq![
        ("id"@, JsonView::String(id@)),
        ("type"@, JsonView::String("Concept"@)),
        ("inScheme"@, scheme_view(scheme@)),
        ("prefLabel"@, label_view(name@)),
    ]);
    proof {
        lemma_concept_keys();
        assert(entries_wf(scheme_view(scheme@)->Object_0));
        assert(scheme_view(scheme@).wf());
        assert(entries_wf(head));
    }
    match notation {
        Some(n) => {
            entries.push(entry("notation", text(n)));
            assert(entries_view(entries@) =~= head.push(("notation"@, JsonView::String(n@))));
            assert(entries_wf(entries_view(entries@)));
        },
        None => {},
    }
    Json::Object(entries)
}

/// A name that a controlled list does not hold.
#[derive(Debug, Clone, Copy, PartialEq, Eq)]
pub enum VocabularyError {
    /// The file type is none of PNG, JPG, JPEG, SVG.
    FileType,
    /// The encoding is not base64.
    Encoding,
    /// The language is none of ENG, NLD.
    Language,
}

/// The concept of a file type.
pub open spec fn content_type_view(name: Seq<char>) -> Result<JsonView, VocabularyError> {
    let scheme = "http://publications.europa.eu/resource/authority/file-type"@;
    if name == "PNG"@ {
        Ok(
            concept_view(
                "http://publications.europa.eu/resource/authority/file-type/PNG"@,
                scheme,
                "PNG"@,
                Some("file-type"@),
            ),
        )
    } else if name == "JPG"@ || name == "JPEG"@ {
        Ok(
            concept_view(
                "http://publications.europa.eu/resource/authority/file-type/JPEG"@,
                scheme,
                "JPG"@,
                Some("file-type"@),
            ),
        )
    } else if name == "SVG"@ {
        Ok(
            concept_view(
                "http://publications.europa.eu/resource/authority/file-type/SVG"@,
                scheme,
                "SVG"@,
                Some("file-type"@),
            ),
        )
    } else {
        Err(VocabularyError::FileType)
    }
}

/// The model of a vocabulary's answer.
pub open spec fn answer_view(r: Result<Json, VocabularyError>) -> Result<JsonView, VocabularyError> {
    match r {
        Ok(j) => Ok(j@),
        Err(e) => Err(e),
    }
}

/// The concept of a file type: PNG, JPG or JPEG, SVG.
pub fn set_content_type(content_type: &str) -> (r: Result<Json, VocabularyError>)
    ensures
        answer_view(r) == content_type_view(content_type@),
        r matches Ok(j) ==> j@.wf(),
{
    let scheme = "http://publications.europa.eu/resource/authority/file-type";
    if same_text(content_type, "PNG") {
        Ok(
            concept(
                "http://publications.europa.eu/resource/authority/file-type/PNG",
                scheme,
                "PNG",
                Some("file-type"),
            ),
        )
    } else if same_text(content_type, "JPG") || same_text(content_type, "JPEG") {
        Ok(
            concept(
                "http://publications.europa.eu/resource/authority/file-type/JPEG",
                scheme,
                "JPG",
                Some("file-type"),
            ),
        )
    } else if same_text(content_type, "SVG") {
        Ok(
            concept(
                "http://publications.europa.eu/resource/authority/file-type/SVG",
                scheme,
                "SVG",
                Some("file-type"),
            ),
        )
    } else {
        Err(VocabularyError::FileType)
    }
}

/// The concept of an encoding.
pub open spec fn content_encoding_view(name: Seq<char>) -> Result<JsonView, VocabularyError> {
    if name == "base64"@ {
        Ok(
            concept_view(
                "http://data.europa.eu/snb/encoding/6146cde7dd"@,
                "http://data.europa.eu/snb/encoding/25831c2"@,
                "base64"@,
                None,
            ),
        )
    } else {
        Err(VocabularyError::Encoding)
    }
}

/// The concept of an encoding: base64.
pub fn set_content_enconding_type(content_encoding_type: &str) -> (r: Result<
    Json,
    VocabularyError,
>)
    ensures
        answer_view(r) == content_encoding_view(content_encoding_type@),
        r matches Ok(j) ==> j@.wf(),
{
    if same_text(content_encoding_type, "base64") {
        Ok(
            concept(
                "http://data.europa.eu/snb/encoding/6146cde7dd",
                "http://data.europa.eu/snb/encoding/25831c2",
                "base64",
                None,
            ),
        )
    } else {
        Err(VocabularyError::Encoding)
    }
}

/// The concept of a language.
pub open spec fn language_view(name: Seq<char>) -> Result<JsonView, VocabularyError> {
    let scheme = "http://publications.europa.eu/resource/authority/language"@;
    if name == "ENG"@ {
        Ok(
            concept_view(
                "http://publications.europa.eu/resource/authority/language/ENG"@,
                scheme,
                "English"@,
                Some("language"@),
            ),
        )
    } else if name == "NLD"@ {
        Ok(
            concept_view(
                "http://publications.europa.eu/resource/authority/language/NLD"@,
                scheme,
                "dutch"@,
                Some("language"@),
            ),
        )
    } else {
        Err(VocabularyError::Language)
    }
}

/// The concept of a language: ENG, NLD.
pub fn set_language(language: &str) -> (r: Result<Json, VocabularyError>)
    ensures
        answer_view(r) == language_view(language@),
        r matches Ok(j) ==> j@.wf(),
{
    let scheme = "http://publications.europa.eu/resource/authority/language";
    if same_text(language, "ENG") {
        Ok(
            concept(
                "http://publications.europa.eu/resource/authority/language/ENG",
                scheme,
                "English",
                Some("language"),
            ),
        )
    } else if same_text(language, "NLD") {
        Ok(
            concept(
                "http://publications.europa.eu/resource/authority/language/NLD",
                scheme,
                "dutch",
                Some("language"),
            ),
        )
    } else {
        Err(VocabularyError::Language)
    }
}

/// A media object: an image as encoded content with its encoding and type.
pub open spec fn media_object_view(id: Seq<char>, content: Seq<char>, content_type: JsonView) -> JsonView {
    JsonView::Object(
        seq![
            ("id"@, JsonView::String(id)),
            ("type"@, JsonView::String("MediaObject"@)),
            ("content"@, JsonView::String(content)),
            ("contentEncoding"@, content_encoding_view("base64"@)->Ok_0),
            ("contentType"@, content_type),
        ],
    )
}

/// The keys of a media object differ from one another.
pub proof fn lemma_media_object_keys()
    ensures
        "id"@ != "type"@,
        "id"@ != "content"@,
        "id"@ != "contentEncoding"@,
        "id"@ != "contentType"@,
        "type"@ != "content"@,
        "type"@ != "contentEncoding"@,
        "type"@ != "contentType"@,
        "content"@ != "contentEncoding"@,
        "content"@ != "contentType"@,
        "contentEncoding"@ != "contentType"@,
{
    reveal_strlit("id");
    reveal_strlit("type");
    reveal_strlit("content");
    reveal_strlit("contentEncoding");
    reveal_strlit("contentType");
    assert("id"@.len() == 2 && "type"@.len() == 4 && "content"@.len() == 7);
    assert("contentEncoding"@.len() == 15 && "contentType"@.len() == 11);
}

/// A media object with base64 content of the given type.
pub fn media_object(id: &str, content: &str, content_type: Json) -> (j: Json)
    ensures
        j@ == media_object_view(id@, content@, content_type@),
        content_type@.wf() ==> j@.wf(),
{
    let encoding = concept(
        "http://data.europa.eu/snb/encoding/6146cde7dd",
        "http://data.europa.eu/snb/encoding/25831c2",
        "base64",
        None,
    );
    let ghost type_view = content_type@;
    let entries = vec![
        entry("id", text(id)),
        entry("type", text("MediaObject")),
        entry("content", text(content)),
        entry("contentEncoding", encoding),
        entry("contentType", content_type),
    ];
    proof {
        lemma_media_object_keys();
        assert(entries_view(entries@) =~= media_object_view(id@, content@, type_view)->Object_0);
        if type_view.wf() {
            assert(entries_wf(entries_view(entries@)));
        }
    }
    Json::Object(entries)
}

/// The address of the image that a display shows.
pub open spec fn display_image_address() -> Seq<char> {
    "https://avatars.githubusercontent.com/u/22613412?v=4"@
}

/// The address of the image that a display shows.
pub fn display_image_url() -> (url: &'static str)
    ensures
        url@ == display_image_address(),
{
    "https://avatars.githubusercontent.com/u/22613412?v=4"
}

/// The detail of a display: one image.
pub open spec fn display_detail_view(image: JsonView) -> JsonView {
    JsonView::Object(
        seq![
            ("id"@, JsonView::String("urn:epass:displayDetail:123"@)),
            ("type"@, JsonView::String("DisplayDetail"@)),
            ("image"@, image),
        ],
    )
}

/// An individual display in English with one image, given as base64 content.
pub open spec fn individual_display_view(content: Seq<char>) -> JsonView {
    JsonView::Object(
        seq![
            (
                "id"@,
                JsonView::String(
                    "urn:epass:individualDisplay:c05743e7-9f9d-4e0b-899b-7ae6514c7a02"@,
                ),
            ),
            ("type"@, JsonView::String("IndividualDisplay"@)),
            ("language"@, language_view("ENG"@)->Ok_0),
            (
                "displayDetail"@,
                JsonView::Array(
                    seq![
                        display_detail_view(
                            media_object_view(
                                "urn:epass:mediaObject:https://avatars.githubusercontent.com/u/22613412?v=4"@,
                                content,
                                content_type_view("PNG"@)->Ok_0,
                            ),
                        ),
                    ],
                ),
            ),
        ],
    )
}

/// The keys of a display differ from one another.
pub proof fn lemma_display_keys()
    ensures
        "id"@ != "type"@,
        "id"@ != "image"@,
        "type"@ != "image"@,
        "id"@ != "language"@,
        "id"@ != "displayDetail"@,
        "type"@ != "language"@,
        "type"@ != "displayDetail"@,
        "language"@ != "displayDetail"@,
{
    reveal_strlit("id");
    reveal_strlit("type");
    reveal_strlit("image");
    reveal_strlit("language");
    reveal_strlit("displayDetail");
    assert("id"@.len() == 2 && "type"@.len() == 4 && "image"@.len() == 5);
    assert("language"@.len() == 8 && "displayDetail"@.len() == 13);
}

/// An individual display in English with one image, given as base64 content.
pub fn individual_display(content: &str) -> (j: Json)
    ensures
        j@ == individual_display_view(content@),
        j@.wf(),
{
    let png = concept(
        "http://publications.europa.eu/resource/authority/file-type/PNG",
        "http://publications.europa.eu/resource/authority/file-type",
        "PNG",
        Some("file-type"),
    );
    let image = media_object(
        "urn:epass:mediaObject:https://avatars.githubusercontent.com/u/22613412?v=4",
        content,
        png,
    );
    let ghost image_view = image@;
    let detail = vec![
        entry("id", text("urn:epass:displayDetail:123")),
        entry("type", text("DisplayDetail")),
        entry("image", image),
    ];
    proof {
        lemma_display_keys();
        assert(entries_view(detail@) =~= display_detail_view(image_view)->Object_0);
        assert(entries_wf(entries_view(detail@)));
    }
    let details = vec![Json::Object(detail)];
    assert(items_view(details@) =~= seq![display_detail_view(image_view)]);
    assert(items_wf(items_view(details@)));
    let language = concept(
        "http://publications.europa.eu/resource/authority/language/ENG",
        "http://publications.europa.eu/resource/authority/language",
        "English",
        Some("language"),
    );
    let entries = vec![
        entry("id", text("urn:epass:individualDisplay:c05743e7-9f9d-4e0b-899b-7ae6514c7a02")),
        entry("type", text("IndividualDisplay")),
        entry("language", language),
        entry("displayDetail", Json::Array(details)),
    ];
    proof {
        assert(entries_view(entries@) =~= individual_display_view(content@)->Object_0);
        assert(entries_wf(entries_view(entries@)));
    }
    Json::Object(entries)
}

} // verus!
