//! Files as base64 text, and images as the media objects of a display.

use vstd::prelude::*;
use crate::elm::{
    content_type_view, entry, label, label_view, language_view, lemma_display_keys,
    media_object, media_object_view, set_content_type, set_language, text, };
use crate::json::{entries_view, entries_wf, entry_value, items_view, items_wf, Json, JsonView};
use crate::outside::{
    base64_decode, base64_decoded, base64_encode, base64_encoded, extension_of, path_extension,
    regex_captures, regex_outcome, text_view, RegexOutcome, };
use crate::pointer::find_key;
use crate::text::{
    ascii_uppercase, chars_of, contains_text, has_text, split_first, split_once, string_of,
    to_ascii_upper,
};

verus! {

/// Why a file could not be decoded or encoded.
#[derive(Debug, Clone, Copy, PartialEq, Eq)]
pub enum Base64Error {
    /// The text is not base64.
    Malformed,
    /// The file is too long for its text to have a length.
    TooLong,
}

/// Decodes a file from base64 text.
pub fn decode_json(json: &str) -> (r: Result<Vec<u8>, Base64Error>)
    ensures
        match r {
            Ok(bytes) => base64_decoded(json@) == Some(bytes@),
            Err(e) => e == Base64Error::Malformed && base64_decoded(json@) is None,
        },
{
    match base64_decode(json) {
        Ok(bytes) => Ok(bytes),
        Err(_) => Err(Base64Error::Malformed),
    }
}

/// Encodes a file as base64 text.
pub fn encode_json_file(json_file: Vec<u8>) -> (r: Result<String, Base64Error>)
    ensures
        match r {
            Ok(encoded) => json_file.len() <= usize::MAX / 2 && encoded@ == base64_encoded(
                json_file@,
            ),
            Err(e) => e == Base64Error::TooLong && json_file.len() > usize::MAX / 2,
        },
{
    if json_file.len() > usize::MAX / 2 {
        return Err(Base64Error::TooLong);
    }
    Ok(base64_encode(&json_file))
}

/// Why an image gives no media object.
#[derive(Debug, Clone, Copy, PartialEq, Eq)]
pub enum ImageError {
    /// The image has no `id`.
    NoId,
    /// The `id` of the image is no text.
    IdNotAString,
    /// The `id` is an address, and the image could not be fetched from it.
    FetchFailed,
    /// The `id` holds data without a comma before the content.
    BadDataUri,
    /// The `id` is neither an address nor data.
    NeitherUrlNorData,
    /// The type of the image is none that the schema knows.
    UnknownFileType,
}

impl ImageError {
    /// The error in words.
    pub open spec fn words(self) -> Seq<char> {
        match self {
            ImageError::NoId => "The 'id' field does not exist."@,
            ImageError::IdNotAString => "The 'id' field is not a string."@,
            ImageError::FetchFailed => "encoding of url failed"@,
            ImageError::BadDataUri => "Invalid data URI format."@,
            ImageError::NeitherUrlNorData => "The `id` is neither a URL nor a Base64-encoded string."@,
            ImageError::UnknownFileType => "conten_type not found"@,
        }
    }

    /// The error in words.
    pub fn message(&self) -> (words: &'static str)
        ensures
            words@ == self.words(),
    {
        match self {
            ImageError::NoId => "The 'id' field does not exist.",
            ImageError::IdNotAString => "The 'id' field is not a string.",
            ImageError::FetchFailed => "encoding of url failed",
            ImageError::BadDataUri => "Invalid data URI format.",
            ImageError::NeitherUrlNorData => "The `id` is neither a URL nor a Base64-encoded string.",
            ImageError::UnknownFileType => "conten_type not found",
        }
    }
}

/// Where the content of an image is to be had.
#[derive(Debug, Clone, PartialEq, Eq)]
pub enum ImageSource {
    /// At an address, from which it has to be fetched and encoded.
    Url { url: String, file_type: String },
    /// In the `id` itself, encoded.
    Inline { content: String, file_type: String },
}

/// The mathematical model of an `ImageSource`.
pub enum ImageSourceView {
    Url { url: Seq<char>, file_type: Seq<char> },
    Inline { content: Seq<char>, file_type: Seq<char> },
}

impl View for ImageSource {
    type V = ImageSourceView;

    open spec fn view(&self) -> ImageSourceView {
        match self {
            ImageSource::Url { url, file_type } => ImageSourceView::Url {
                url: url@,
                file_type: file_type@,
            },
            ImageSource::Inline { content, file_type } => ImageSourceView::Inline {
                content: content@,
                file_type: file_type@,
            },
        }
    }
}

/// The pattern of an address: `http` or `https`, and no whitespace.
pub open spec fn url_pattern() -> Seq<char> {
    "^(https?://[^\\s]+)$"@
}

/// The type that the head of data names, in capitals: what stands
/// between the slash and the semicolon. Empty where one of the two is missing.
pub open spec fn data_file_type(head: Seq<char>) -> Seq<char> {
    match split_once(head, '/') {
        Some((_, type_and_encoding)) => match split_once(type_and_encoding, ';') {
            Some((subtype, _)) => ascii_uppercase(subtype),
            None => Seq::empty(),
        },
        None => Seq::empty(),
    }
}

/// The type that an address names, in capitals: its extension. Empty
/// where it has none.
pub open spec fn url_file_type(url: Seq<char>) -> Seq<char> {
    match path_extension(url) {
        Some(extension) => ascii_uppercase(extension),
        None => Seq::empty(),
    }
}

/// Where the content of an image is to be had, by its `id`.
pub open spec fn image_source_of(image: JsonView) -> Result<ImageSourceView, ImageError> {
    match image {
        JsonView::Object(entries) => match entry_value(entries, "id"@) {
            Some(JsonView::String(id)) => if regex_outcome(url_pattern(), id) is Match {
                Ok(ImageSourceView::Url { url: id, file_type: url_file_type(id) })
            } else if contains_text(id, "data"@) {
                match split_once(id, ',') {
                    Some((head, content)) => Ok(
                        ImageSourceView::Inline { content, file_type: data_file_type(head) },
                    ),
                    None => Err(ImageError::BadDataUri),
                }
            } else {
                Err(ImageError::NeitherUrlNorData)
            },
            Some(_) => Err(ImageError::IdNotAString),
            None => Err(ImageError::NoId),
        },
        _ => Err(ImageError::NoId),
    }
}

/// The type that the head of data names, in capitals.
fn file_type_of_data(head: &Vec<char>) -> (file_type: String)
    ensures
        file_type@ == data_file_type(head@),
{
    match split_first(head, '/') {
        Some((_, type_and_encoding)) => match split_first(&type_and_encoding, ';') {
            Some((subtype, _)) => string_of(&to_ascii_upper(&subtype)),
            None => String::new(),
        },
        None => String::new(),
    }
}

/// Where the content of an image is to be had: at the address that its
/// `id` is, or in the `id` itself.
pub fn image_source(image_value: &Json) -> (r: Result<ImageSource, ImageError>)
    ensures
        match r {
            Ok(source) => image_source_of(image_value@) == Ok::<ImageSourceView, ImageError>(
                source@,
            ),
            Err(e) => image_source_of(image_value@) == Err::<ImageSourceView, ImageError>(e),
        },
{
    let entries = match image_value {
        Json::Object(entries) => entries,
        _ => {
            return Err(ImageError::NoId);
        },
    };
    let i = find_key(entries, &String::from_str("id"));
    if i >= entries.len() {
        return Err(ImageError::NoId);
    }
    assert(entries_view(entries@)[i as int].1 == entries[i as int].1@);
    let id = match &entries[i].1 {
        Json::String(id) => id,
        _ => {
            return Err(ImageError::IdNotAString);
        },
    };
    let is_url = match regex_captures("^(https?://[^\\s]+)$", id.as_str()) {
        RegexOutcome::Match { .. } => true,
        _ => false,
    };
    if is_url {
        let file_type = match extension_of(id.as_str()) {
            Some(extension) => string_of(&to_ascii_upper(&chars_of(extension.as_str()))),
            None => String::new(),
        };
        return Ok(ImageSource::Url { url: id.clone(), file_type });
    }
    let chars = chars_of(id.as_str());
    if !has_text(&chars, &chars_of("data")) {
        return Err(ImageError::NeitherUrlNorData);
    }
    match split_first(&chars, ',') {
        Some((head, content)) => Ok(
            ImageSource::Inline {
                content: string_of(&content),
                file_type: file_type_of_data(&head),
            },
        ),
        None => Err(ImageError::BadDataUri),
    }
}

/// The id that every media object carries.
pub open spec fn media_object_id() -> Seq<char> {
    "urn:epass:mediaObject:https://avatars.githubusercontent.com/u/22613412?v=4"@
}

/// The media object of content of a type; PNG where the type is empty.
pub open spec fn media_object_of(content: Seq<char>, file_type: Seq<char>) -> Result<
    JsonView,
    ImageError,
> {
    let name = if file_type.len() == 0 {
        "PNG"@
    } else {
        file_type
    };
    match content_type_view(name) {
        Ok(content_type) => Ok(media_object_view(media_object_id(), content, content_type)),
        Err(_) => Err(ImageError::UnknownFileType),
    }
}

/// The media object of an image, given what was fetched from its address
/// where it has one: `None` where the fetch failed or none was made.
pub open spec fn elm_media_object(image: JsonView, fetched: Option<Seq<char>>) -> Result<
    JsonView,
    ImageError,
> {
    match image_source_of(image) {
        Ok(ImageSourceView::Url { url, file_type }) => match fetched {
            Some(content) => media_object_of(content, file_type),
            None => Err(ImageError::FetchFailed),
        },
        Ok(ImageSourceView::Inline { content, file_type }) => media_object_of(content, file_type),
        Err(e) => Err(e),
    }
}

/// The model of a result.
pub open spec fn image_result_view(r: Result<Json, ImageError>) -> Result<JsonView, ImageError> {
    match r {
        Ok(j) => Ok(j@),
        Err(e) => Err(e),
    }
}

/// The media object of content of a type; PNG where the type is empty.
pub fn media_object_for(content: &str, file_type: &str) -> (r: Result<Json, ImageError>)
    ensures
        image_result_view(r) == media_object_of(content@, file_type@),
        r matches Ok(j) ==> j@.wf(),
{
    let is_empty = chars_of(file_type).len() == 0;
    let name = if is_empty {
        "PNG"
    } else {
        file_type
    };
    match set_content_type(name) {
        Ok(content_type) => Ok(
            media_object(
                "urn:epass:mediaObject:https://avatars.githubusercontent.com/u/22613412?v=4",
                content,
                content_type,
            ),
        ),
        Err(_) => Err(ImageError::UnknownFileType),
    }
}

/// Rewrites an image as a media object. The caller fetches the content
/// where the image's `id` is an address (see `image_source`), encodes it in
/// base64 and hands it in: `None` where that failed.
pub fn image_to_elm_media_object(image_value: Json, fetched: Option<String>) -> (r: Result<
    Json,
    ImageError,
>)
    ensures
        image_result_view(r) == elm_media_object(image_value@, text_view(fetched)),
        r matches Ok(j) ==> j@.wf(),
{
    match image_source(&image_value) {
        Ok(ImageSource::Url { url, file_type }) => match fetched {
            Some(content) => media_object_for(content.as_str(), file_type.as_str()),
            None => Err(ImageError::FetchFailed),
        },
        Ok(ImageSource::Inline { content, file_type }) => media_object_for(
            content.as_str(),
            file_type.as_str(),
        ),
        Err(e) => Err(e),
    }
}

/// The display of one image on the first page, in English.
pub open spec fn display_with_page(image: JsonView) -> JsonView {
    JsonView::Object(
        seq![
            (
                "id"@,
                JsonView::String(
                    "urn:epass:individualDisplay:c05743e7-9f9d-4e0b-899b-7ae6514c7a02"@,
                ),
            ),
            ("type"@, JsonView::String("IndividualDisplay"@)),
            ("language"@, language_view("ENG"@)->Ok_0),
            (
                "displayDetail"@,
                JsonView::Array(
                    seq![
                        JsonView::Object(
                            seq![
                                ("id"@, JsonView::String("urn:epass:displayDetail:123"@)),
                                ("type"@, JsonView::String("DisplayDetail"@)),
                                ("image"@, image),
                                ("page"@, JsonView::Number("1"@)),
                            ],
                        ),
                    ],
                ),
            ),
        ],
    )
}

/// The individual display of an image, given what was fetched from its address.
pub open spec fn individual_display_of(image: JsonView, fetched: Option<Seq<char>>) -> Result<
    JsonView,
    ImageError,
> {
    match elm_media_object(image, fetched) {
        Ok(media) => Ok(display_with_page(media)),
        Err(e) => Err(e),
    }
}

proof fn lemma_page_key()
    ensures
        "page"@ != "id"@,
        "page"@ != "type"@,
        "page"@ != "image"@,
        crate::json::is_number_text("1"@),
{
    reveal_strlit("page");
    reveal_strlit("id");
    reveal_strlit("type");
    reveal_strlit("image");
    reveal_strlit("1");
    assert("page"@.len() == 4 && "id"@.len() == 2 && "type"@.len() == 4 && "image"@.len() == 5);
    assert("page"@[0] != "type"@[0]);
    let s = "1"@;
    assert(s.len() == 1 && s[0] == '1');
    reveal_with_fuel(crate::json::digits_end, 3);
    assert(crate::json::digits_end(s, 0) == 1);
}

/// Rewrites an image as an individual display. The caller fetches and
/// encodes the content as for `image_to_elm_media_object`.
pub fn image_to_individual_display(image_value: Json, fetched: Option<String>) -> (r: Result<
    Json,
    ImageError,
>)
    ensures
        image_result_view(r) == individual_display_of(image_value@, text_view(fetched)),
        r matches Ok(j) ==> j@.wf(),
{
    let media = match image_to_elm_media_object(image_value, fetched) {
        Ok(media) => media,
        Err(e) => {
            return Err(e);
        },
    };
    let ghost media_view = media@;
    let detail = vec![
        entry("id", text("urn:epass:displayDetail:123")),
        entry("type", text("DisplayDetail")),
        entry("image", media),
        entry("page", Json::Number(String::from_str("1"))),
    ];
    proof {
        lemma_display_keys();
        lemma_page_key();
        assert(entries_view(detail@) =~= seq![
            ("id"@, JsonView::String("urn:epass:displayDetail:123"@)),
            ("type"@, JsonView::String("DisplayDetail"@)),
            ("image"@, media_view),
            ("page"@, JsonView::Number("1"@)),
        ]);
        assert(entries_wf(entries_view(detail@)));
    }
    let details = vec![Json::Object(detail)];
    assert(items_view(details@) =~= display_with_page(media_view)->Object_0[3].1->Array_0);
    assert(items_wf(items_view(details@)));
    let language = match set_language("ENG") {
        Ok(language) => language,
        Err(_) => {
            return Err(ImageError::UnknownFileType);
        },
    };
    let entries = vec![
        entry("id", text("urn:epass:individualDisplay:c05743e7-9f9d-4e0b-899b-7ae6514c7a02")),
        entry("type", text("IndividualDisplay")),
        entry("language", language),
        entry("displayDetail", Json::Array(details)),
    ];
    proof {
        assert(entries_view(entries@) =~= display_with_page(media_view)->Object_0);
        assert(entries_wf(entries_view(entries@)));
    }
    Ok(Json::Object(entries))
}

/// The parameters of a display with one individual display.
pub open spec fn display_parameter_view(display: JsonView) -> JsonView {
    JsonView::Object(
        seq![
            ("id"@, JsonView::String("urn:epass:displayParameter:1"@)),
            ("type"@, JsonView::String("DisplayParameter"@)),
            ("language"@, JsonView::Array(seq![language_view("ENG"@)->Ok_0])),
            (
                "description"@,
                label_view(
                    "EBSI Example https://github.com/Knowledge-Innovation-Centre/ESBI-JSON-schemas/blob/main/examples%20of%20credentials/DigiComp%20Generic.json"@,
                ),
            ),
            ("individualDisplay"@, JsonView::Array(seq![display])),
            ("primaryLanguage"@, language_view("ENG"@)->Ok_0),
            ("title"@, label_view("DigiComp Generic"@)),
        ],
    )
}

/// The display parameters of an image, given what was fetched from its address.
pub open spec fn display_parameter_of(image: JsonView, fetched: Option<Seq<char>>) -> Result<
    JsonView,
    ImageError,
> {
    match individual_display_of(image, fetched) {
        Ok(display) => Ok(display_parameter_view(display)),
        Err(e) => Err(e),
    }
}

proof fn lemma_display_parameter_keys()
    ensures
        "id"@ != "type"@,
        "id"@ != "language"@,
        "id"@ != "description"@,
        "id"@ != "individualDisplay"@,
        "id"@ != "primaryLanguage"@,
        "id"@ != "title"@,
        "type"@ != "language"@,
        "type"@ != "description"@,
        "type"@ != "individualDisplay"@,
        "type"@ != "primaryLanguage"@,
        "type"@ != "title"@,
        "language"@ != "description"@,
        "language"@ != "individualDisplay"@,
        "language"@ != "primaryLanguage"@,
        "language"@ != "title"@,
        "description"@ != "individualDisplay"@,
        "description"@ != "primaryLanguage"@,
        "description"@ != "title"@,
        "individualDisplay"@ != "primaryLanguage"@,
        "individualDisplay"@ != "title"@,
        "primaryLanguage"@ != "title"@,
{
    reveal_strlit("id");
    reveal_strlit("type");
    reveal_strlit("language");
    reveal_strlit("description");
    reveal_strlit("individualDisplay");
    reveal_strlit("primaryLanguage");
    reveal_strlit("title");
    assert("id"@.len() == 2 && "type"@.len() == 4 && "language"@.len() == 8);
    assert("description"@.len() == 11 && "individualDisplay"@.len() == 17);
    assert("primaryLanguage"@.len() == 15 && "title"@.len() == 5);
}

/// Rewrites an image as the parameters of a display. The caller fetches
/// and encodes the content as for `image_to_elm_media_object`.
pub fn create_display_parameter(image_value: Json, fetched: Option<String>) -> (r: Result<
    Json,
    ImageError,
>)
    ensures
        image_result_view(r) == display_parameter_of(image_value@, text_view(fetched)),
        r matches Ok(j) ==> j@.wf(),
{
    let display = match image_to_individual_display(image_value, fetched) {
        Ok(display) => display,
        Err(e) => {
            return Err(e);
        },
    };
    let ghost display_view = display@;
    let english = match set_language("ENG") {
        Ok(language) => language,
        Err(_) => {
            return Err(ImageError::UnknownFileType);
        },
    };
    let primary = match set_language("ENG") {
        Ok(language) => language,
        Err(_) => {
            return Err(ImageError::UnknownFileType);
        },
    };
    let languages = vec![english];
    assert(items_view(languages@) =~= seq![language_view("ENG"@)->Ok_0]);
    assert(items_wf(items_view(languages@)));
    let displays = vec![display];
    assert(items_view(displays@) =~= seq![display_view]);
    assert(items_wf(items_view(displays@)));
    let entries = vec![
        entry("id", text("urn:epass:displayParameter:1")),
        entry("type", text("DisplayParameter")),
        entry("language", Json::Array(languages)),
        entry(
            "description",
            label(
                "EBSI Example https://github.com/Knowledge-Innovation-Centre/ESBI-JSON-schemas/blob/main/examples%20of%20credentials/DigiComp%20Generic.json",
            ),
        ),
        entry("individualDisplay", Json::Array(displays)),
        entry("primaryLanguage", primary),
        entry("title", label("DigiComp Generic")),
    ];
    proof {
        lemma_display_parameter_keys();
        assert(entries_view(entries@) =~= display_parameter_view(display_view)->Object_0);
        assert(entries_wf(entries_view(entries@)));
    }
    Ok(Json::Object(entries))
}

} // verus!
