//! Rules and the transforms that they name.

use vstd::prelude::*;
use crate::json::{is_number, is_number_text, items_view, items_wf, Json, JsonView};
use crate::outside::{
    lowercase_of, regex_captures, regex_outcome, uppercase_of, RegexOutcome, RegexOutcomeView,
};
use crate::text::{
    append_chars, chars_of, parts_of, pieces_view, push_text, split_by, string_of,
};

verus! {

/// A place in a document of a format: the format's name and a path.
#[derive(Debug, Clone, PartialEq, Eq)]
pub struct DataLocation {
    pub format: String,
    pub path: String,
}

/// A place in a document with the type of what stands there.
#[derive(Debug, Clone, PartialEq, Eq)]
pub struct DataTypeLocation {
    pub format: String,
    pub datatype: String,
    pub path: String,
}

/// A text given in the rule itself.
#[derive(Debug, Clone, PartialEq, Eq)]
pub struct StringValue {
    pub value: String,
}

/// Texts given in the rule itself.
#[derive(Debug, Clone, PartialEq, Eq)]
pub struct StringArrayValue {
    pub value: Vec<String>,
}

/// A transform of one value.
#[derive(Debug, Clone, PartialEq, Eq)]
pub enum OneToOne {
    /// The value as it is.
    Direct,
    /// A text in lowercase.
    Lowercase,
    /// A text in uppercase.
    Uppercase,
    /// A scalar as a text.
    ToString,
    /// A scalar as a number.
    ToNumber,
    /// What a pattern takes from a text.
    Regex { pattern: String },
}

/// A transform of several values into one.
#[derive(Debug, Clone, PartialEq, Eq)]
pub enum ManyToOne {
    /// The texts of the values, the separator between each two.
    Concat { separator: String },
    /// The values as the items of an array.
    Collect,
}

/// A transform of one value into several. The rule engine applies no such
/// rule yet.
#[derive(Debug, Clone, PartialEq, Eq)]
pub enum OneToMany {
    /// The parts of a text between the occurrences of the separator.
    Split { separator: String },
}

/// Why a transform gives no value.
#[derive(Debug, Clone, Copy, PartialEq, Eq)]
pub enum TransformError {
    /// The transform takes a text, and the value is none.
    NotAString,
    /// The transform takes a scalar, and the value is an array or an object.
    NotAScalar,
    /// The pattern is no regular expression.
    BadPattern,
}

/// A rule: what to read, how to transform it, and where to write it.
#[allow(inconsistent_fields)]
#[derive(Debug, Clone, PartialEq, Eq)]
pub enum Transformation {
    OneToOne { type_: OneToOne, source: DataLocation, destination: DataLocation },
    OneToMany { type_: OneToMany, source: DataLocation, destinations: Vec<DataLocation> },
    ManyToOne { type_: ManyToOne, sources: Vec<DataLocation>, destination: DataLocation },
    StringToOne { type_: OneToOne, source: StringValue, destination: DataLocation },
    StringArrayToOne { type_: OneToOne, source: StringArrayValue, destination: DataLocation },
    JsonToMarkdown { type_: OneToOne, source: DataLocation, destination: DataLocation },
    MarkdownToJson { type_: OneToOne, source: DataLocation, destination: DataLocation },
    AddIdentifier { type_: OneToOne, source: DataTypeLocation, destination: DataLocation },
    IdentifierToObject { type_: OneToOne, source: DataTypeLocation, destination: DataLocation },
    ImageToIndividualDisplay { type_: OneToOne, source: DataLocation, destination: DataLocation },
}

/// The text of a scalar: a text as it is, a number as it is written,
/// `true`, `false` or `null`. An array or an object has none.
pub open spec fn scalar_text(v: JsonView) -> Option<Seq<char>> {
    match v {
        JsonView::Null => Some("null"@),
        JsonView::Bool(b) => Some(
            if b {
                "true"@
            } else {
                "false"@
            },
        ),
        JsonView::Number(t) => Some(t),
        JsonView::String(s) => Some(s),
        JsonView::Array(_) => None,
        JsonView::Object(_) => None,
    }
}

/// What a pattern's outcome gives as a value: the first group, or the whole
/// match where the pattern has none; null where it matches nowhere.
pub open spec fn regex_value(outcome: RegexOutcomeView) -> Result<JsonView, TransformError> {
    match outcome {
        RegexOutcomeView::BadPattern => Err(TransformError::BadPattern),
        RegexOutcomeView::NoMatch => Ok(JsonView::Null),
        RegexOutcomeView::Match { whole, first_group } => match first_group {
            Some(group) => Ok(JsonView::String(group)),
            None => Ok(JsonView::String(whole)),
        },
    }
}

/// The value that a pattern's outcome gives.
pub fn value_of_regex(outcome: RegexOutcome) -> (r: Result<Json, TransformError>)
    ensures
        result_view(r) == regex_value(outcome@),
{
    match outcome {
        RegexOutcome::BadPattern => Err(TransformError::BadPattern),
        RegexOutcome::NoMatch => Ok(Json::Null),
        RegexOutcome::Match { whole, first_group } => match first_group {
            Some(group) => Ok(Json::String(group)),
            None => Ok(Json::String(whole)),
        },
    }
}

/// The model of a transform's result.
pub open spec fn result_view(r: Result<Json, TransformError>) -> Result<JsonView, TransformError> {
    match r {
        Ok(j) => Ok(j@),
        Err(e) => Err(e),
    }
}

impl OneToOne {
    /// A null from this transform says that it found nothing: the text is
    /// no number, or the pattern matches nowhere.
    pub open spec fn null_is_a_miss(self) -> bool {
        self is ToNumber || self is Regex
    }

    /// Whether a null from this transform says that it found nothing.
    pub fn null_means_nothing(&self) -> (b: bool)
        ensures
            b == self.null_is_a_miss(),
    {
        match self {
            OneToOne::ToNumber => true,
            OneToOne::Regex { .. } => true,
            _ => false,
        }
    }

    /// What the transform makes of a value.
    pub open spec fn applied(self, v: JsonView) -> Result<JsonView, TransformError> {
        match self {
            OneToOne::Direct => Ok(v),
            OneToOne::Lowercase => match v {
                JsonView::String(s) => Ok(JsonView::String(lowercase_of(s))),
                _ => Err(TransformError::NotAString),
            },
            OneToOne::Uppercase => match v {
                JsonView::String(s) => Ok(JsonView::String(uppercase_of(s))),
                _ => Err(TransformError::NotAString),
            },
            OneToOne::ToString => match scalar_text(v) {
                Some(t) => Ok(JsonView::String(t)),
                None => Err(TransformError::NotAScalar),
            },
            OneToOne::ToNumber => match v {
                JsonView::Number(t) => Ok(v),
                JsonView::String(s) => if is_number_text(s) {
                    Ok(JsonView::Number(s))
                } else {
                    Ok(JsonView::Null)
                },
                JsonView::Array(_) => Err(TransformError::NotAScalar),
                JsonView::Object(_) => Err(TransformError::NotAScalar),
                _ => Ok(JsonView::Null),
            },
            OneToOne::Regex { pattern } => match v {
                JsonView::String(s) => regex_value(regex_outcome(pattern@, s)),
                _ => Err(TransformError::NotAString),
            },
        }
    }

    /// Applies the transform to a value.
    pub fn apply(&self, value: Json) -> (r: Result<Json, TransformError>)
        ensures
            result_view(r) == self.applied(value@),
            value@.wf() ==> (r matches Ok(j) ==> j@.wf()),
    {
        match self {
            OneToOne::Direct => Ok(value),
            OneToOne::Lowercase => match value {
                Json::String(s) => Ok(Json::String(s.as_str().to_lowercase())),
                _ => Err(TransformError::NotAString),
            },
            OneToOne::Uppercase => match value {
                Json::String(s) => Ok(Json::String(s.as_str().to_uppercase())),
                _ => Err(TransformError::NotAString),
            },
            OneToOne::ToString => match text_of_scalar(&value) {
                Some(t) => Ok(Json::String(t)),
                None => Err(TransformError::NotAScalar),
            },
            OneToOne::ToNumber => match value {
                Json::Number(t) => Ok(Json::Number(t)),
                Json::String(s) => {
                    if is_number(&chars_of(s.as_str())) {
                        Ok(Json::Number(s))
                    } else {
                        Ok(Json::Null)
                    }
                },
                Json::Array(_) => Err(TransformError::NotAScalar),
                Json::Object(_) => Err(TransformError::NotAScalar),
                _ => Ok(Json::Null),
            },
            OneToOne::Regex { pattern } => match value {
                Json::String(s) => value_of_regex(regex_captures(pattern.as_str(), s.as_str())),
                _ => Err(TransformError::NotAString),
            },
        }
    }
}

/// The text of a scalar.
pub fn text_of_scalar(value: &Json) -> (t: Option<String>)
    ensures
        t.is_some() == scalar_text(value@).is_some(),
        t matches Some(s) ==> s@ == scalar_text(value@).unwrap(),
{
    match value {
        Json::Null => Some(String::from_str("null")),
        Json::Bool(b) => if *b {
            Some(String::from_str("true"))
        } else {
            Some(String::from_str("false"))
        },
        Json::Number(t) => Some(t.clone()),
        Json::String(s) => Some(s.clone()),
        Json::Array(_) => None,
        Json::Object(_) => None,
    }
}

/// The texts of the first `n` values with the separator between each two;
/// `None` where one of them is no scalar.
pub open spec fn concatenated(values: Seq<JsonView>, separator: Seq<char>, n: nat) -> Option<
    Seq<char>,
>
    decreases n,
{
    if n == 0 || n > values.len() {
        Some(Seq::empty())
    } else {
        match (concatenated(values, separator, (n - 1) as nat), scalar_text(values[n - 1])) {
            (Some(before), Some(t)) => Some(
                if n == 1 {
                    t
                } else {
                    before + separator + t
                },
            ),
            _ => None,
        }
    }
}

impl ManyToOne {
    /// What the transform makes of the values, in their order.
    pub open spec fn applied(self, values: Seq<JsonView>) -> Result<JsonView, TransformError> {
        match self {
            ManyToOne::Concat { separator } => match concatenated(
                values,
                separator@,
                values.len(),
            ) {
                Some(t) => Ok(JsonView::String(t)),
                None => Err(TransformError::NotAScalar),
            },
            ManyToOne::Collect => Ok(JsonView::Array(values)),
        }
    }

    /// Applies the transform to the values, in their order.
    pub fn apply(&self, values: Vec<Json>) -> (r: Result<Json, TransformError>)
        ensures
            result_view(r) == self.applied(items_view(values@)),
            items_wf(items_view(values@)) ==> (r matches Ok(j) ==> j@.wf()),
    {
        match self {
            ManyToOne::Collect => Ok(Json::Array(values)),
            ManyToOne::Concat { separator } => {
                let ghost all = items_view(values@);
                let sep = chars_of(separator.as_str());
                let mut out: Vec<char> = Vec::new();
                let mut i: usize = 0;
                while i < values.len()
                    invariant
                        i <= values.len(),
                        all == items_view(values@),
                        sep@ == separator@,
                        self matches ManyToOne::Concat { separator: s } && s@ == separator@,
                        concatenated(all, separator@, i as nat) == Some(out@),
                    decreases values.len() - i,
                {
                    assert(all[i as int] == values[i as int]@);
                    match text_of_scalar(&values[i]) {
                        None => {
                            proof {
                                lemma_concatenated_none(all, separator@, i as nat + 1, all.len());
                            }
                            return Err(TransformError::NotAScalar);
                        },
                        Some(t) => {
                            if i > 0 {
                                append_chars(&mut out, &sep);
                            }
                            push_text(&mut out, t.as_str());
                        },
                    }
                    i += 1;
                }
                Ok(Json::String(string_of(&out)))
            },
        }
    }
}

/// Once a value is no scalar, no longer run of the values has a text.
pub proof fn lemma_concatenated_none(values: Seq<JsonView>, separator: Seq<char>, n: nat, m: nat)
    requires
        n <= m <= values.len(),
        concatenated(values, separator, n) is None,
    ensures
        concatenated(values, separator, m) is None,
    decreases m,
{
    if m > n {
        lemma_concatenated_none(values, separator, n, (m - 1) as nat);
    }
}

/// The texts as JSON strings.
pub open spec fn string_values(texts: Seq<Seq<char>>) -> Seq<JsonView> {
    Seq::new(texts.len(), |i: int| JsonView::String(texts[i]))
}

impl OneToMany {
    /// What the transform makes of a value, in order.
    pub open spec fn applied(self, v: JsonView) -> Result<Seq<JsonView>, TransformError> {
        match self {
            OneToMany::Split { separator } => match v {
                JsonView::String(s) => Ok(string_values(parts_of(s, separator@))),
                _ => Err(TransformError::NotAString),
            },
        }
    }

    /// Applies the transform to a value.
    pub fn apply(&self, value: Json) -> (r: Result<Vec<Json>, TransformError>)
        ensures
            match r {
                Ok(values) => self.applied(value@) == Ok::<Seq<JsonView>, TransformError>(
                    items_view(values@),
                ) && items_wf(items_view(values@)),
                Err(e) => self.applied(value@) == Err::<Seq<JsonView>, TransformError>(e),
            },
    {
        match self {
            OneToMany::Split { separator } => match value {
                Json::String(s) => {
                    let parts = split_by(&chars_of(s.as_str()), &chars_of(separator.as_str()));
                    let ghost all = pieces_view(parts@);
                    let mut values: Vec<Json> = Vec::new();
                    let mut i: usize = 0;
                    while i < parts.len()
                        invariant
                            i <= parts.len(),
                            all == pieces_view(parts@),
                            items_view(values@) == string_values(all).take(i as int),
                            items_wf(items_view(values@)),
                        decreases parts.len() - i,
                    {
                        let ghost before = items_view(values@);
                        values.push(Json::String(string_of(&parts[i])));
                        i += 1;
                        assert(items_view(values@) =~= before.push(JsonView::String(all[i - 1])));
                        assert(items_view(values@) =~= string_values(all).take(i as int));
                    }
                    assert(string_values(all).take(parts.len() as int) =~= string_values(all));
                    Ok(values)
                },
                _ => Err(TransformError::NotAString),
            },
        }
    }
}

} // verus!
