//! What this library takes from other crates, behind contracts that are
//! believed and not proved.

use vstd::prelude::*;
use crate::json::{option_view, Json, JsonView};
use crate::query::safe_query;

verus! {

/// `serde_json::Value`, as the converters below take and give it.
#[verifier::external_type_specification]
#[verifier::external_body]
pub struct ExValue(serde_json::Value);

/// The model of a text that may be missing.
pub open spec fn text_view(o: Option<String>) -> Option<Seq<char>> {
    match o {
        Some(s) => Some(s@),
        None => None,
    }
}


/// The document that `serde_json` reads from a text, where it reads one.
pub uninterp spec fn parsed_json(text: Seq<char>) -> Option<JsonView>;

/// What `jsonpath_rust` finds in a document for a query: as its `find`
/// gives it, the array of the nodes found, in its order, or null where
/// it finds none; `None` where it rejects the query.
pub uninterp spec fn jsonpath_matches(doc: JsonView, query: Seq<char>) -> Option<JsonView>;

/// Rebuilds a `serde_json::Value` as a document, variant by variant. A
/// `serde_json` map holds no key twice and prints its numbers in JSON's grammar.
#[verifier::external_body]
fn from_value(v: &serde_json::Value) -> (j: Json)
    ensures
        j@.wf(),
{
    match v {
        serde_json::Value::Null => Json::Null,
        serde_json::Value::Bool(b) => Json::Bool(*b),
        serde_json::Value::Number(n) => Json::Number(n.to_string()),
        serde_json::Value::String(s) => Json::String(s.clone()),
        serde_json::Value::Array(a) => Json::Array(a.iter().map(from_value).collect()),
        serde_json::Value::Object(m) => Json::Object(
            m.iter().map(|(k, x)| (k.clone(), from_value(x))).collect(),
        ),
    }
}

/// Rebuilds a document as a `serde_json::Value`, variant by variant.
#[verifier::external_body]
fn to_value(j: &Json) -> serde_json::Value
    requires
        j@.wf(),
{
    match j {
        Json::Null => serde_json::Value::Null,
        Json::Bool(b) => serde_json::Value::Bool(*b),
        Json::Number(t) => serde_json::from_str(t).unwrap_or(serde_json::Value::Null),
        Json::String(s) => serde_json::Value::String(s.clone()),
        Json::Array(a) => serde_json::Value::Array(a.iter().map(to_value).collect()),
        Json::Object(m) => serde_json::Value::Object(
            m.iter().map(|(k, x)| (k.clone(), to_value(x))).collect(),
        ),
    }
}

/// `serde_json::from_str`: the document read from `text`, or `None` where
/// the text is not JSON.
#[verifier::external_body]
pub(crate) fn parse_json(text: &str) -> (r: Option<Json>)
    ensures
        option_view(r) == parsed_json(text@),
        r matches Some(j) ==> j@.wf(),
{
    match serde_json::from_str::<serde_json::Value>(text) {
        Ok(v) => Some(from_value(&v)),
        Err(_) => None,
    }
}

/// The text that `serde_json` prints for a document.
pub uninterp spec fn printed_json(doc: JsonView) -> Seq<char>;

/// `serde_json::Value::to_string`: the document as compact JSON text.
#[verifier::external_body]
pub(crate) fn print_json(doc: &Json) -> (text: String)
    requires
        doc@.wf(),
    ensures
        text@ == printed_json(doc@),
{
    to_value(doc).to_string()
}

/// `JsonPathFinder::from_str` and `find` of `jsonpath_rust`, on the document's
/// text as `serde_json` prints it. `find` stops on an index that is no
/// whole number of sixty-three bits and on a slice with the step zero: a
/// safe query holds neither.
#[verifier::external_body]
pub(crate) fn jsonpath_query(doc: &Json, query: &str) -> (r: Option<Json>)
    requires
        doc@.wf(),
        safe_query(query@),
    ensures
        option_view(r) == jsonpath_matches(doc@, query@),
        r matches Some(found) ==> found@.wf(),
{
    match jsonpath_rust::JsonPathFinder::from_str(&to_value(doc).to_string(), query) {
        Ok(finder) => Some(from_value(&finder.find())),
        Err(_) => None,
    }
}

/// `String::push` of std: the character is appended.
pub assume_specification[ std::string::String::push ](s: &mut std::string::String, c: char)
    ensures
        final(s)@ == old(s)@.push(c),
;

/// The text that `str::to_lowercase` of std makes of a text.
pub uninterp spec fn lowercase_of(text: Seq<char>) -> Seq<char>;

/// The text that `str::to_uppercase` of std makes of a text.
pub uninterp spec fn uppercase_of(text: Seq<char>) -> Seq<char>;

/// `str::to_lowercase` of std: each character in its lowercase form.
pub assume_specification[ str::to_lowercase ](input: &str) -> (lower: std::string::String)
    ensures
        lower@ == lowercase_of(input@),
;

/// `str::to_uppercase` of std: each character in its uppercase form.
pub assume_specification[ str::to_uppercase ](input: &str) -> (upper: std::string::String)
    ensures
        upper@ == uppercase_of(input@),
;

/// What a pattern finds in a text.
#[derive(Debug, PartialEq, Eq)]
pub enum RegexOutcome {
    /// The pattern is no regular expression.
    BadPattern,
    /// The pattern matches nowhere in the text.
    NoMatch,
    /// The leftmost match, and what its first group took where it has one
    /// that took part.
    Match { whole: String, first_group: Option<String> },
}

/// The mathematical model of a `RegexOutcome`.
pub enum RegexOutcomeView {
    BadPattern,
    NoMatch,
    Match { whole: Seq<char>, first_group: Option<Seq<char>> },
}

impl View for RegexOutcome {
    type V = RegexOutcomeView;

    open spec fn view(&self) -> RegexOutcomeView {
        match self {
            RegexOutcome::BadPattern => RegexOutcomeView::BadPattern,
            RegexOutcome::NoMatch => RegexOutcomeView::NoMatch,
            RegexOutcome::Match { whole, first_group } => RegexOutcomeView::Match {
                whole: whole@,
                first_group: match first_group {
                    Some(group) => Some(group@),
                    None => None,
                },
            },
        }
    }
}

/// What the crate `regex` finds for a pattern in a text.
pub uninterp spec fn regex_outcome(pattern: Seq<char>, text: Seq<char>) -> RegexOutcomeView;

/// `Regex::new` and `Regex::captures` of the crate `regex`: the leftmost
/// match of the pattern in the text with its first group.
#[verifier::external_body]
pub(crate) fn regex_captures(pattern: &str, text: &str) -> (outcome: RegexOutcome)
    ensures
        outcome@ == regex_outcome(pattern@, text@),
{
    match regex::Regex::new(pattern) {
        Err(_) => RegexOutcome::BadPattern,
        Ok(re) => match re.captures(text) {
            None => RegexOutcome::NoMatch,
            Some(found) => RegexOutcome::Match {
                whole: found[0].to_string(),
                first_group: found.get(1).map(|group| group.as_str().to_string()),
            },
        },
    }
}

/// `base64::DecodeError`: why a text is not base64.
#[verifier::external_type_specification]
#[verifier::external_body]
pub struct ExDecodeError(base64::DecodeError);

/// The bytes that a text stands for in standard base64, where it stands for any.
pub uninterp spec fn base64_decoded(text: Seq<char>) -> Option<Seq<u8>>;

/// The standard base64 text of bytes.
pub uninterp spec fn base64_encoded(bytes: Seq<u8>) -> Seq<char>;

/// `Engine::decode` of the crate `base64`, with the standard alphabet and padding.
#[verifier::external_body]
pub(crate) fn base64_decode(text: &str) -> (r: Result<Vec<u8>, base64::DecodeError>)
    ensures
        r matches Ok(bytes) ==> base64_decoded(text@) == Some(bytes@),
        r is Err ==> base64_decoded(text@) is None,
{
    base64::Engine::decode(&base64::engine::general_purpose::STANDARD, text)
}

/// `Engine::encode` of the crate `base64`, with the standard alphabet and
/// padding. It panics where the length of the text overflows, which
/// the bound on the bytes rules out.
#[verifier::external_body]
pub(crate) fn base64_encode(bytes: &Vec<u8>) -> (text: String)
    requires
        bytes.len() <= usize::MAX / 2,
    ensures
        text@ == base64_encoded(bytes@),
{
    base64::Engine::encode(&base64::engine::general_purpose::STANDARD, bytes)
}

/// The three-letter code and the full name that ISO 3166-1 gives for a
/// two-letter country code, each where there is one; `None` for a text that
/// is no such code.
pub uninterp spec fn country_record(code: Seq<char>) -> Option<
    (Option<Seq<char>>, Option<Seq<char>>),
>;

/// The models of the names of a country.
pub open spec fn names_view(r: Option<(Option<String>, Option<String>)>) -> Option<
    (Option<Seq<char>>, Option<Seq<char>>),
> {
    match r {
        Some((alpha_3, name)) => Some((text_view(alpha_3), text_view(name))),
        None => None,
    }
}

/// `CountryCode::from_str`, `alpha_3_code` and `full_name` of the crate
/// `codes_iso_3166`: the names of the country that a two-letter code stands for.
#[verifier::external_body]
pub(crate) fn country_lookup(code: &str) -> (r: Option<(Option<String>, Option<String>)>)
    ensures
        names_view(r) == country_record(code@),
{
    match <codes_iso_3166::part_1::CountryCode as std::str::FromStr>::from_str(code) {
        Ok(country) => Some(
            (
                country.alpha_3_code().map(|s| s.to_string()),
                country.full_name().map(|s| s.to_string()),
            ),
        ),
        Err(_) => None,
    }
}

/// The extension that `Path::extension` of std finds in a path, where
/// it finds one that is Unicode text.
pub uninterp spec fn path_extension(path: Seq<char>) -> Option<Seq<char>>;

/// `Path::extension` of std: the part of the file name behind its last point.
#[verifier::external_body]
pub(crate) fn extension_of(path: &str) -> (r: Option<String>)
    ensures
        text_view(r) == path_extension(path@),
{
    std::path::Path::new(path).extension().and_then(|e| e.to_str()).map(|e| e.to_string())
}

} // verus!
