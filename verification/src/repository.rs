//! The rule engine: the documents of a conversion job, and the rules applied
//! to them one at a time.

use vstd::prelude::*;
use crate::elm::{entry, individual_display, individual_display_view, text};
use crate::json::{
    entries_view, entries_wf, entry_value, items_view, items_wf, key_index, lemma_key_index,
    lemma_key_index_found, option_view, unique_keys, Entries, Json, JsonView,
};
use crate::markdown::{
    assembled, has_bold, indent, joined, json_to_markdown, lines_view, markdown_to_json, rendered,
};
use crate::merge::{
    entry_merged, item_merged, lemma_entry_merged_keeps_others, lemma_merge_wf, merge, merged,
    merged_entries, merged_items,
};
use crate::outside::{jsonpath_matches, jsonpath_query, parse_json, parsed_json};
use crate::pointer::{
    address_segments, construct_leaf_node, find_key, leaf_with, lemma_key_index_update,
    lemma_leaf_shape, lemma_skeleton_round_trip, lemma_skeleton_terminal, lemma_skeleton_wf,
    lemma_with_value_wf, padded, skeleton, value_at, with_value_at, JsonPath,
    JsonPointer, SegmentView,
};
use crate::query::{is_safe_query, safe_query};
use crate::state::{AppState, Mapping};
use crate::text::{
    chars_of, lines_of, pieces_from, run_end, same_text, scan, split_from, split_lines, texts_view,
    CharClass,
};
use crate::transformations::{
    result_view, DataLocation, ManyToOne, OneToOne, TransformError, Transformation,
};

verus! {

/// The documents of a conversion job, each under the name of its format,
/// and the image that a display shows, as the caller has fetched and
/// encoded it.
#[derive(Debug, Clone, PartialEq, Eq)]
pub struct Repository {
    documents: Vec<(String, Json)>,
    display_image: String,
}

impl View for Repository {
    type V = Entries;

    closed spec fn view(&self) -> Entries {
        entries_view(self.documents@)
    }
}

/// The first of the nodes that a query has found: the first item of the
/// array that the evaluator gave. None where the query was rejected, and
/// where the evaluator gave no array or an empty one.
pub open spec fn first_of(found: Option<JsonView>) -> Option<JsonView> {
    match found {
        Some(JsonView::Array(nodes)) => if nodes.len() > 0 {
            Some(nodes[0])
        } else {
            None
        },
        _ => None,
    }
}

/// The first of the nodes that a query has found.
pub fn first_found(found: Option<Json>) -> (first: Option<Json>)
    ensures
        option_view(first) == first_of(option_view(found)),
        (found matches Some(nodes) && nodes@.wf()) ==> (first matches Some(v) ==> v@.wf()),
{
    match found {
        Some(Json::Array(nodes)) => {
            if nodes.len() > 0 {
                assert(items_view(nodes@)[0] == nodes[0]@);
                Some(nodes[0].clone())
            } else {
                None
            }
        },
        _ => None,
    }
}

/// The first node that the query finds in the document of the format.
/// `None` where there is no such document, where the query is not safe or
/// is rejected, and where it finds nothing.
pub open spec fn first_match(repo: Entries, format: Seq<char>, query: Seq<char>) -> Option<JsonView> {
    match entry_value(repo, format) {
        Some(doc) => if safe_query(query) {
            first_of(jsonpath_matches(doc, query))
        } else {
            None
        },
        None => None,
    }
}

/// The first matches of the first `n` sources, or `None` where one of them has none.
pub open spec fn first_matches(repo: Entries, sources: Seq<DataLocation>, n: nat) -> Option<
    Seq<JsonView>,
>
    decreases n,
{
    if n == 0 || n > sources.len() {
        Some(Seq::empty())
    } else {
        match (
            first_matches(repo, sources, (n - 1) as nat),
            first_match(repo, sources[n - 1].format@, sources[n - 1].path@),
        ) {
            (Some(before), Some(v)) => Some(before.push(v)),
            _ => None,
        }
    }
}

/// The query as the evaluator reads it: the key `@context` begins with a
/// character that no name begins with, and goes in brackets and quotes.
pub open spec fn query_text(path: Seq<char>) -> Seq<char> {
    if path == "$.@context"@ {
        "$[\"@context\"]"@
    } else {
        path
    }
}

/// The documents after `v` was written at the segments in the document of
/// the format: the skeleton of the address, with `v` where it ends, merged
/// into that document, which begins as an empty object where it is missing.
pub open spec fn written(
    repo: Entries,
    format: Seq<char>,
    segments: Seq<SegmentView>,
    v: JsonView,
) -> Entries {
    let leaf = with_value_at(skeleton(segments), segments, v);
    let i = key_index(repo, format) as int;
    if i < repo.len() {
        repo.update(i, (repo[i].0, merged(repo[i].1, leaf)))
    } else {
        repo.push((format, merged(JsonView::Object(Seq::empty()), leaf)))
    }
}

/// The value that a transform of one value contributes: none where it
/// fails, and none where its null says that it found nothing, as it does
/// for a text that is no number and for a pattern that matches nowhere.
pub open spec fn usable(kind: OneToOne, r: Result<JsonView, TransformError>) -> Option<JsonView> {
    match r {
        Ok(v) => if v is Null && kind.null_is_a_miss() {
            None
        } else {
            Some(v)
        },
        Err(_) => None,
    }
}

/// The value that a transform of several values contributes: none where it fails.
pub open spec fn usable_of_many(r: Result<JsonView, TransformError>) -> Option<JsonView> {
    match r {
        Ok(v) => Some(v),
        Err(_) => None,
    }
}

/// The documents with a document for the format: an empty object at the
/// end where the format has none.
pub open spec fn with_document(repo: Entries, format: Seq<char>) -> Entries {
    if key_index(repo, format) < repo.len() {
        repo
    } else {
        repo.push((format, JsonView::Object(Seq::empty())))
    }
}

/// The texts as JSON strings.
pub open spec fn strings_view(texts: Seq<Seq<char>>) -> Seq<JsonView> {
    Seq::new(texts.len(), |i: int| JsonView::String(texts[i]))
}

/// The document that a markdown text holds: the text read line by line
/// behind an empty first line.
pub open spec fn markdown_value(text: Seq<char>) -> Option<JsonView> {
    let lines = seq![Seq::<char>::empty()] + lines_of(text);
    if has_bold(lines) {
        match assembled(lines) {
            Ok(json) => parsed_json(json),
            Err(_) => None,
        }
    } else {
        Some(JsonView::String(joined(lines, lines.len())))
    }
}

/// An identity object around a value, with the type of the identity.
pub open spec fn identity_view(identity_type: Seq<char>, v: JsonView) -> JsonView {
    JsonView::Object(
        seq![
            ("type"@, JsonView::String("IdentityObject"@)),
            ("identityHash"@, v),
            ("identityType"@, JsonView::String(identity_type)),
            ("hashed"@, JsonView::Bool(false)),
            ("salt"@, JsonView::String("not-used"@)),
        ],
    )
}

/// What an identity object becomes in the other schema: its hash, as the
/// notation of an identifier where the identity is a student's id; an
/// empty text where it has no hash.
pub open spec fn identifier_view(identity_type: Seq<char>, v: JsonView) -> JsonView {
    match v {
        JsonView::Object(entries) => match entry_value(entries, "identityHash"@) {
            Some(hash) => if identity_type == "Student ID"@ {
                JsonView::Object(
                    seq![
                        ("id"@, JsonView::String("urn:epass:identifier:2"@)),
                        ("type"@, JsonView::String("Identifier"@)),
                        ("notation"@, hash),
                        ("schemeName"@, JsonView::String(identity_type)),
                    ],
                )
            } else {
                hash
            },
            None => JsonView::String(Seq::empty()),
        },
        _ => JsonView::String(Seq::empty()),
    }
}

impl Transformation {
    /// The formats that the rule names are those of the job: it reads the
    /// job's input and writes the job's output.
    pub open spec fn formats_fit(self, mapping: Mapping) -> bool {
        match self {
            Transformation::OneToOne { source, destination, .. } => source.format@
                == mapping.input() && destination.format@ == mapping.output(),
            Transformation::OneToMany { source, destinations, .. } => source.format@
                == mapping.input() && forall|i: int|
                0 <= i < destinations.len() ==> (#[trigger] destinations[i]).format@
                    == mapping.output(),
            Transformation::ManyToOne { sources, destination, .. } => destination.format@
                == mapping.output() && forall|i: int|
                0 <= i < sources.len() ==> (#[trigger] sources[i]).format@ == mapping.input(),
            Transformation::StringToOne { destination, .. } => destination.format@
                == mapping.output(),
            Transformation::StringArrayToOne { destination, .. } => destination.format@
                == mapping.output(),
            Transformation::JsonToMarkdown { source, destination, .. } => source.format@
                == mapping.input() && destination.format@ == mapping.output(),
            Transformation::MarkdownToJson { source, destination, .. } => source.format@
                == mapping.input() && destination.format@ == mapping.output(),
            Transformation::AddIdentifier { source, destination, .. } => source.format@
                == mapping.input() && destination.format@ == mapping.output(),
            Transformation::IdentifierToObject { source, destination, .. } => source.format@
                == mapping.input() && destination.format@ == mapping.output(),
            Transformation::ImageToIndividualDisplay { source, destination, .. } => source.format@
                == mapping.input() && destination.format@ == mapping.output(),
        }
    }

    /// Where the rule writes. A rule that splits a value has no single place.
    pub open spec fn destination(self) -> Option<DataLocation> {
        match self {
            Transformation::OneToOne { destination, .. } => Some(destination),
            Transformation::OneToMany { .. } => None,
            Transformation::ManyToOne { destination, .. } => Some(destination),
            Transformation::StringToOne { destination, .. } => Some(destination),
            Transformation::StringArrayToOne { destination, .. } => Some(destination),
            Transformation::JsonToMarkdown { destination, .. } => Some(destination),
            Transformation::MarkdownToJson { destination, .. } => Some(destination),
            Transformation::AddIdentifier { destination, .. } => Some(destination),
            Transformation::IdentifierToObject { destination, .. } => Some(destination),
            Transformation::ImageToIndividualDisplay { destination, .. } => Some(destination),
        }
    }

    /// The rule finds what it reads: its query has a first match, or each
    /// of its queries has one. A rule with a given text always does; a
    /// rule that splits a value is not applied, and never does.
    pub open spec fn reads(self, repo: Entries) -> bool {
        match self {
            Transformation::OneToOne { source, .. } => first_match(
                repo,
                source.format@,
                query_text(source.path@),
            ) is Some,
            Transformation::OneToMany { .. } => false,
            Transformation::ManyToOne { sources, .. } => first_matches(
                repo,
                sources@,
                sources@.len(),
            ) is Some,
            Transformation::StringToOne { .. } => true,
            Transformation::StringArrayToOne { .. } => true,
            Transformation::JsonToMarkdown { source, .. } => first_match(
                repo,
                source.format@,
                source.path@,
            ) is Some,
            Transformation::MarkdownToJson { source, .. } => first_match(
                repo,
                source.format@,
                source.path@,
            ) is Some,
            Transformation::AddIdentifier { source, .. } => first_match(
                repo,
                source.format@,
                source.path@,
            ) is Some,
            Transformation::IdentifierToObject { source, .. } => first_match(
                repo,
                source.format@,
                source.path@,
            ) is Some,
            Transformation::ImageToIndividualDisplay { source, .. } => first_match(
                repo,
                source.format@,
                source.path@,
            ) is Some,
        }
    }

    /// The value that the rule writes: what it reads, prepared as its kind
    /// says and transformed. A null that was read is a value like any
    /// other, and what is no text is written as null by the rule that reads
    /// markdown. `None` where the rule finds nothing to read, where the
    /// transform fails, and where the transform's null says that it found nothing.
    pub open spec fn value(self, repo: Entries, image: Seq<char>) -> Option<JsonView> {
        match self {
            Transformation::OneToOne { type_, source, .. } => match first_match(
                repo,
                source.format@,
                query_text(source.path@),
            ) {
                Some(v) => usable(type_, type_.applied(v)),
                None => None,
            },
            Transformation::OneToMany { .. } => None,
            Transformation::ManyToOne { type_, sources, .. } => match first_matches(
                repo,
                sources@,
                sources@.len(),
            ) {
                Some(values) => usable_of_many(type_.applied(values)),
                None => None,
            },
            Transformation::StringToOne { type_, source, .. } => usable(
                type_,
                type_.applied(JsonView::String(source.value@)),
            ),
            Transformation::StringArrayToOne { type_, source, .. } => usable(
                type_,
                type_.applied(JsonView::Array(strings_view(texts_view(source.value@)))),
            ),
            Transformation::JsonToMarkdown { type_, source, .. } => match first_match(
                repo,
                source.format@,
                source.path@,
            ) {
                Some(v) => usable(type_, type_.applied(JsonView::String(rendered(v, indent(0))))),
                None => None,
            },
            Transformation::MarkdownToJson { type_, source, .. } => match first_match(
                repo,
                source.format@,
                source.path@,
            ) {
                Some(JsonView::String(text)) => match markdown_value(text) {
                    Some(v) => usable(type_, type_.applied(v)),
                    None => None,
                },
                Some(_) => Some(JsonView::Null),
                None => None,
            },
            Transformation::AddIdentifier { type_, source, .. } => match first_match(
                repo,
                source.format@,
                source.path@,
            ) {
                Some(v) => usable(type_, type_.applied(identity_view(source.datatype@, v))),
                None => None,
            },
            Transformation::IdentifierToObject { type_, source, .. } => match first_match(
                repo,
                source.format@,
                source.path@,
            ) {
                Some(v) => usable(type_, type_.applied(identifier_view(source.datatype@, v))),
                None => None,
            },
            Transformation::ImageToIndividualDisplay { type_, source, .. } => match first_match(
                repo,
                source.format@,
                source.path@,
            ) {
                Some(_) => usable(type_, type_.applied(individual_display_view(image))),
                None => None,
            },
        }
    }

    /// What the rule reports once it has written: the address it wrote to
    /// and the query it read from. The kinds that write a given text, or
    /// several values in one, report nothing.
    pub open spec fn report(self) -> Option<(Seq<char>, Seq<char>)> {
        match self {
            Transformation::OneToOne { source, destination, .. } => Some(
                (destination.path@, query_text(source.path@)),
            ),
            Transformation::OneToMany { .. } => None,
            Transformation::ManyToOne { .. } => None,
            Transformation::StringToOne { .. } => None,
            Transformation::StringArrayToOne { .. } => None,
            Transformation::JsonToMarkdown { source, destination, .. } => Some(
                (destination.path@, source.path@),
            ),
            Transformation::MarkdownToJson { source, destination, .. } => Some(
                (destination.path@, source.path@),
            ),
            Transformation::AddIdentifier { source, destination, .. } => Some(
                (destination.path@, source.path@),
            ),
            Transformation::IdentifierToObject { source, destination, .. } => Some(
                (destination.path@, source.path@),
            ),
            Transformation::ImageToIndividualDisplay { source, destination, .. } => Some(
                (destination.path@, source.path@),
            ),
        }
    }

    /// The rule writes: its formats are the job's, it has a value, and its
    /// address resolves.
    pub open spec fn writes(self, repo: Entries, mapping: Mapping, image: Seq<char>) -> bool {
        &&& self.formats_fit(mapping)
        &&& self.value(repo, image) is Some
        &&& self.destination() matches Some(destination)
        &&& address_segments(destination.path@) is Ok
    }
}

/// The documents after a rule was applied. A rule whose formats are not
/// the job's, or that finds nothing to read, leaves them as they were. Any
/// other rule sees to it that its destination has a document, an empty
/// object where it had none, and writes its value at its address where it
/// has a value and the address resolves.
pub open spec fn applied(
    repo: Entries,
    rule: Transformation,
    mapping: Mapping,
    image: Seq<char>,
) -> Entries {
    if rule.writes(repo, mapping, image) {
        written(
            repo,
            rule.destination().unwrap().format@,
            address_segments(rule.destination().unwrap().path@).unwrap(),
            rule.value(repo, image).unwrap(),
        )
    } else if rule.formats_fit(mapping) && rule.reads(repo) && rule.destination() is Some {
        with_document(repo, rule.destination().unwrap().format@)
    } else {
        repo
    }
}

/// What a rule reports: its report where it writes, nothing where it does not.
pub open spec fn reported(
    repo: Entries,
    rule: Transformation,
    mapping: Mapping,
    image: Seq<char>,
) -> Option<(Seq<char>, Seq<char>)> {
    if rule.writes(repo, mapping, image) {
        rule.report()
    } else {
        None
    }
}

/// The documents after the first `n` rules were applied, in their order.
pub open spec fn applied_all(
    repo: Entries,
    rules: Seq<Transformation>,
    mapping: Mapping,
    image: Seq<char>,
    n: nat,
) -> Entries
    decreases n,
{
    if n == 0 || n > rules.len() {
        repo
    } else {
        applied(applied_all(repo, rules, mapping, image, (n - 1) as nat), rules[n - 1], mapping, image)
    }
}

/// What the first `n` rules report, in their order.
pub open spec fn reported_all(
    repo: Entries,
    rules: Seq<Transformation>,
    mapping: Mapping,
    image: Seq<char>,
    n: nat,
) -> Seq<(Seq<char>, Seq<char>)>
    decreases n,
{
    if n == 0 || n > rules.len() {
        Seq::empty()
    } else {
        let before = reported_all(repo, rules, mapping, image, (n - 1) as nat);
        match reported(
            applied_all(repo, rules, mapping, image, (n - 1) as nat),
            rules[n - 1],
            mapping,
            image,
        ) {
            Some(pair) => before.push(pair),
            None => before,
        }
    }
}

/// The model of a report.
pub open spec fn report_view(r: Option<(String, String)>) -> Option<(Seq<char>, Seq<char>)> {
    match r {
        Some((destination, source)) => Some((destination@, source@)),
        None => None,
    }
}

/// The models of reports.
pub open spec fn reports_view(reports: Seq<(String, String)>) -> Seq<(Seq<char>, Seq<char>)> {
    Seq::new(reports.len(), |i: int| (reports[i].0@, reports[i].1@))
}

/// The keys that an address of the form `/a/b/c` names: the text behind
/// its leading slashes, parted at each slash.
pub open spec fn pointer_keys(pointer: Seq<char>) -> Seq<Seq<char>> {
    pieces_from(pointer, run_end(pointer, 0, CharClass::Exactly('/')), '/')
}

/// The document without the entry that the keys lead to, and without each
/// object on the way that this leaves empty. A document that the keys do
/// not lead through stays as it is.
pub open spec fn pruned(doc: JsonView, keys: Seq<Seq<char>>) -> JsonView
    decreases keys.len(),
{
    if keys.len() == 0 {
        doc
    } else {
        match doc {
            JsonView::Object(entries) => {
                let i = key_index(entries, keys[0]) as int;
                if i >= entries.len() {
                    doc
                } else if keys.len() == 1 {
                    JsonView::Object(entries.remove(i))
                } else {
                    let child = pruned(entries[i].1, keys.drop_first());
                    if is_empty_object(child) {
                        JsonView::Object(entries.remove(i))
                    } else {
                        JsonView::Object(entries.update(i, (entries[i].0, child)))
                    }
                }
            },
            _ => doc,
        }
    }
}

/// An object without entries.
pub open spec fn is_empty_object(doc: JsonView) -> bool {
    doc matches JsonView::Object(entries) && entries.len() == 0
}

/// The documents after the entry that the keys lead to was cleared from
/// the document of the format.
pub open spec fn cleared(repo: Entries, format: Seq<char>, keys: Seq<Seq<char>>) -> Entries {
    let i = key_index(repo, format) as int;
    if i < repo.len() {
        repo.update(i, (repo[i].0, pruned(repo[i].1, keys)))
    } else {
        repo
    }
}

/// Pruning a well-formed document leaves it well-formed.
pub proof fn lemma_pruned_wf(doc: JsonView, keys: Seq<Seq<char>>)
    requires
        doc.wf(),
    ensures
        pruned(doc, keys).wf(),
    decreases keys.len(),
{
    if keys.len() > 0 {
        match doc {
            JsonView::Object(entries) => {
                let i = key_index(entries, keys[0]) as int;
                if i < entries.len() {
                    let removed = entries.remove(i);
                    assert forall|p: int, q: int| 0 <= p < q < removed.len() implies (
                    #[trigger] removed[p]).0 != (#[trigger] removed[q]).0 by {
                        let p0 = if p < i {
                            p
                        } else {
                            p + 1
                        };
                        let q0 = if q < i {
                            q
                        } else {
                            q + 1
                        };
                        assert(entries[p0].0 != entries[q0].0);
                    }
                    assert forall|p: int| 0 <= p < removed.len() implies (
                    #[trigger] removed[p]).1.wf() by {
                        let p0 = if p < i {
                            p
                        } else {
                            p + 1
                        };
                        assert(entries[p0].1.wf());
                    }
                    assert(entries_wf(removed));
                    if keys.len() > 1 {
                        assert(entries[i].1.wf());
                        lemma_pruned_wf(entries[i].1, keys.drop_first());
                        let child = pruned(entries[i].1, keys.drop_first());
                        let updated = entries.update(i, (entries[i].0, child));
                        assert forall|p: int, q: int| 0 <= p < q < updated.len() implies (
                        #[trigger] updated[p]).0 != (#[trigger] updated[q]).0 by {
                            assert(entries[p].0 != entries[q].0);
                        }
                        assert forall|p: int| 0 <= p < updated.len() implies (
                        #[trigger] updated[p]).1.wf() by {
                            if p != i {
                                assert(entries[p].1.wf());
                            }
                        }
                        assert(entries_wf(updated));
                    }
                }
            },
            _ => {},
        }
    }
}

/// Writing a well-formed value leaves well-formed documents well-formed.
pub proof fn lemma_written_wf(
    repo: Entries,
    format: Seq<char>,
    segments: Seq<SegmentView>,
    v: JsonView,
)
    requires
        entries_wf(repo),
        v.wf(),
    ensures
        entries_wf(written(repo, format, segments, v)),
{
    let leaf = with_value_at(skeleton(segments), segments, v);
    lemma_skeleton_wf(segments);
    lemma_with_value_wf(skeleton(segments), segments, v);
    let i = key_index(repo, format) as int;
    let after = written(repo, format, segments, v);
    lemma_key_index_found(repo, format);
    if i < repo.len() {
        assert(repo[i].1.wf());
        lemma_merge_wf(repo[i].1, leaf);
        assert forall|p: int, q: int| 0 <= p < q < after.len() implies (#[trigger] after[p]).0 != (
        #[trigger] after[q]).0 by {
            assert(repo[p].0 != repo[q].0);
        }
        assert forall|p: int| 0 <= p < after.len() implies (#[trigger] after[p]).1.wf() by {
            if p != i {
                assert(repo[p].1.wf());
            }
        }
    } else {
        let empty = JsonView::Object(Seq::empty());
        assert(entries_wf(Seq::<(Seq<char>, JsonView)>::empty()));
        assert(empty.wf());
        lemma_merge_wf(empty, leaf);
        assert forall|p: int, q: int| 0 <= p < q < after.len() implies (#[trigger] after[p]).0 != (
        #[trigger] after[q]).0 by {
            if q < repo.len() {
                assert(repo[p].0 != repo[q].0);
            } else {
                assert(repo[p].0 != format);
            }
        }
        assert forall|p: int| 0 <= p < after.len() implies (#[trigger] after[p]).1.wf() by {
            if p < repo.len() {
                assert(repo[p].1.wf());
            }
        }
    }
}

/// Keys "type", "identityHash", "identityType", "hashed", "salt" and "id",
/// "notation", "schemeName" differ from one another.
proof fn lemma_identity_keys()
    ensures
        "type"@ != "identityHash"@,
        "type"@ != "identityType"@,
        "type"@ != "hashed"@,
        "type"@ != "salt"@,
        "identityHash"@ != "identityType"@,
        "identityHash"@ != "hashed"@,
        "identityHash"@ != "salt"@,
        "identityType"@ != "hashed"@,
        "identityType"@ != "salt"@,
        "hashed"@ != "salt"@,
        "id"@ != "type"@,
        "id"@ != "notation"@,
        "id"@ != "schemeName"@,
        "type"@ != "notation"@,
        "type"@ != "schemeName"@,
        "notation"@ != "schemeName"@,
{
    reveal_strlit("type");
    reveal_strlit("identityHash");
    reveal_strlit("identityType");
    reveal_strlit("hashed");
    reveal_strlit("salt");
    reveal_strlit("id");
    reveal_strlit("notation");
    reveal_strlit("schemeName");
    assert("type"@.len() == 4 && "identityHash"@.len() == 12 && "identityType"@.len() == 12);
    assert("hashed"@.len() == 6 && "salt"@.len() == 4 && "id"@.len() == 2);
    assert("notation"@.len() == 8 && "schemeName"@.len() == 10);
    assert("identityHash"@[8] != "identityType"@[8]);
    assert("type"@[0] != "salt"@[0]);
}

/// Wraps a value in an identity object of the given type.
pub fn values_to_identity(identity_type: &str, identity_value: Json) -> (identity: Json)
    ensures
        identity@ == identity_view(identity_type@, identity_value@),
        identity_value@.wf() ==> identity@.wf(),
{
    let ghost v = identity_value@;
    let entries = vec![
        entry("type", text("IdentityObject")),
        entry("identityHash", identity_value),
        entry("identityType", text(identity_type)),
        entry("hashed", Json::Bool(false)),
        entry("salt", text("not-used")),
    ];
    proof {
        lemma_identity_keys();
        assert(entries_view(entries@) =~= identity_view(identity_type@, v)->Object_0);
        if v.wf() {
            assert(entries_wf(entries_view(entries@)));
        }
    }
    Json::Object(entries)
}

/// Rewrites an identity object for the other schema.
pub fn identity_to_object(identity_type: &str, identity_value: Json) -> (identifier: Json)
    ensures
        identifier@ == identifier_view(identity_type@, identity_value@),
        identity_value@.wf() ==> identifier@.wf(),
{
    match identity_value {
        Json::Object(entries) => {
            let ghost all = entries_view(entries@);
            let i = find_key(&entries, &String::from_str("identityHash"));
            if i >= entries.len() {
                return Json::String(String::new());
            }
            let hash = entries[i].1.clone();
            assert(hash@ == all[i as int].1);
            proof {
                if entries_wf(all) {
                    assert(all[i as int].1.wf());
                }
            }
            if same_text(identity_type, "Student ID") {
                let fields = vec![
                    entry("id", text("urn:epass:identifier:2")),
                    entry("type", text("Identifier")),
                    entry("notation", hash),
                    entry("schemeName", text(identity_type)),
                ];
                proof {
                    lemma_identity_keys();
                    assert(entries_view(fields@) =~= identifier_view(
                        identity_type@,
                        JsonView::Object(all),
                    )->Object_0);
                    if entries_wf(all) {
                        assert(entries_wf(entries_view(fields@)));
                    }
                }
                Json::Object(fields)
            } else {
                hash
            }
        },
        _ => Json::String(String::new()),
    }
}

/// The value that a transform contributes.
pub fn usable_value(kind: &OneToOne, r: Result<Json, TransformError>) -> (v: Option<Json>)
    ensures
        option_view(v) == usable(*kind, result_view(r)),
        v matches Some(j) ==> (r matches Ok(w) && j == w),
{
    match r {
        Ok(Json::Null) => {
            if kind.null_means_nothing() {
                None
            } else {
                Some(Json::Null)
            }
        },
        Ok(v) => Some(v),
        Err(_) => None,
    }
}

/// The value that a transform of several values contributes.
pub fn usable_value_of_many(r: Result<Json, TransformError>) -> (v: Option<Json>)
    ensures
        option_view(v) == usable_of_many(result_view(r)),
        v matches Some(j) ==> (r matches Ok(w) && j == w),
{
    match r {
        Ok(v) => Some(v),
        Err(_) => None,
    }
}

/// The document that a markdown text holds.
fn value_of_markdown(text: &str) -> (v: Option<Json>)
    ensures
        option_view(v) == markdown_value(text@),
        v matches Some(j) ==> j@.wf(),
{
    let lines = split_lines(text);
    let mut refs: Vec<&str> = Vec::new();
    refs.push("");
    proof {
        reveal_strlit("");
        assert(""@ =~= Seq::<char>::empty());
        assert(lines_view(refs@) =~= seq![Seq::<char>::empty()] + texts_view(lines@).take(0));
    }
    let mut i: usize = 0;
    while i < lines.len()
        invariant
            i <= lines.len(),
            refs.len() == i + 1,
            lines_view(refs@) == seq![Seq::<char>::empty()] + texts_view(lines@).take(i as int),
        decreases lines.len() - i,
    {
        let ghost before = lines_view(refs@);
        refs.push(lines[i].as_str());
        i += 1;
        assert(lines_view(refs@) =~= before.push(lines[i - 1]@));
        assert(lines_view(refs@) =~= seq![Seq::<char>::empty()] + texts_view(lines@).take(i as int));
    }
    assert(texts_view(lines@).take(lines.len() as int) =~= texts_view(lines@));
    match markdown_to_json(refs.as_slice()) {
        Ok(j) => Some(j),
        Err(_) => None,
    }
}

impl Repository {
    /// The image that a display shows, encoded, as the caller handed it in.
    pub closed spec fn image(&self) -> Seq<char> {
        self.display_image@
    }

    /// Every document is well-formed, and no format has two documents.
    pub open spec fn wf(&self) -> bool {
        entries_wf(self@)
    }

    /// A repository without documents, with an empty image.
    pub fn new() -> (repo: Repository)
        ensures
            repo@ == Seq::<(Seq<char>, JsonView)>::empty(),
            repo.image() == Seq::<char>::empty(),
            repo.wf(),
    {
        let repo = Repository { documents: Vec::new(), display_image: String::new() };
        assert(repo@ =~= Seq::<(Seq<char>, JsonView)>::empty());
        repo
    }

    /// Puts a document under the name of its format, in place of the one
    /// that is there. A document that is not well-formed is not taken.
    pub fn insert(&mut self, format: String, document: Json) -> (taken: bool)
        requires
            old(self).wf(),
        ensures
            final(self).wf(),
            final(self).image() == old(self).image(),
            taken == document@.wf(),
            taken ==> final(self)@ == (if key_index(old(self)@, format@) < old(self)@.len() {
                old(self)@.update(
                    key_index(old(self)@, format@) as int,
                    (format@, document@),
                )
            } else {
                old(self)@.push((format@, document@))
            }),
            !taken ==> final(self)@ == old(self)@,
    {
        if !document.is_wf() {
            return false;
        }
        let ghost before = self@;
        let i = find_key(&self.documents, &format);
        proof {
            lemma_key_index_found(before, format@);
        }
        if i < self.documents.len() {
            self.documents[i].1 = document;
            let ghost after = self@;
            assert(after =~= before.update(i as int, (format@, document@)));
            assert forall|p: int, q: int| 0 <= p < q < after.len() implies (#[trigger] after[p]).0
                != (#[trigger] after[q]).0 by {
                assert(before[p].0 != before[q].0);
            }
            assert forall|p: int| 0 <= p < after.len() implies (#[trigger] after[p]).1.wf() by {
                if p != i {
                    assert(before[p].1.wf());
                }
            }
        } else {
            self.documents.push((format, document));
            let ghost after = self@;
            assert(after =~= before.push((format@, document@)));
            assert forall|p: int, q: int| 0 <= p < q < after.len() implies (#[trigger] after[p]).0
                != (#[trigger] after[q]).0 by {
                if q < before.len() {
                    assert(before[p].0 != before[q].0);
                } else {
                    assert(before[p].0 != format@);
                }
            }
            assert forall|p: int| 0 <= p < after.len() implies (#[trigger] after[p]).1.wf() by {
                if p < before.len() {
                    assert(before[p].1.wf());
                }
            }
        }
        true
    }

    /// Whether every document is well-formed and no format has two documents.
    pub fn is_wf(&self) -> (b: bool)
        ensures
            b == self.wf(),
    {
        if !Json::keys_are_unique(&self.documents) {
            return false;
        }
        let mut i: usize = 0;
        while i < self.documents.len()
            invariant
                i <= self.documents.len(),
                unique_keys(self@),
                forall|p: int| 0 <= p < i ==> (#[trigger] self@[p]).1.wf(),
            decreases self.documents.len() - i,
        {
            assert(self@[i as int].1 == self.documents[i as int].1@);
            if !self.documents[i].1.is_wf() {
                return false;
            }
            i += 1;
        }
        true
    }

    /// The names of the formats that have a document, in the order in
    /// which the documents came.
    pub fn formats(&self) -> (names: Vec<String>)
        ensures
            names@.len() == self@.len(),
            forall|i: int| 0 <= i < names@.len() ==> (#[trigger] names@[i])@ == self@[i].0,
    {
        let mut names: Vec<String> = Vec::new();
        let mut i: usize = 0;
        while i < self.documents.len()
            invariant
                i <= self.documents.len(),
                names@.len() == i,
                forall|k: int| 0 <= k < i ==> (#[trigger] names@[k])@ == self@[k].0,
            decreases self.documents.len() - i,
        {
            names.push(self.documents[i].0.clone());
            i += 1;
        }
        names
    }

    /// The document of a format.
    pub fn get(&self, format: &str) -> (document: Option<&Json>)
        ensures
            document matches Some(d) ==> entry_value(self@, format@) == Some(d@),
            document is None ==> entry_value(self@, format@) is None,
    {
        let i = find_key(&self.documents, &String::from_str(format));
        if i < self.documents.len() {
            Some(&self.documents[i].1)
        } else {
            None
        }
    }

    /// Hands in the image that a display shows, fetched and encoded.
    pub fn set_display_image(&mut self, content: String)
        ensures
            final(self)@ == old(self)@,
            final(self).image() == content@,
    {
        self.display_image = content;
    }

    /// The first node that the query finds in the document of the format.
    fn first_match(&self, format: &String, query: &str) -> (found: Option<Json>)
        requires
            self.wf(),
        ensures
            option_view(found) == first_match(self@, format@, query@),
            found matches Some(v) ==> v@.wf(),
    {
        let i = find_key(&self.documents, format);
        if i >= self.documents.len() || !is_safe_query(query) {
            return None;
        }
        assert(self@[i as int].1 == self.documents[i as int].1@);
        assert(self@[i as int].1.wf());
        first_found(jsonpath_query(&self.documents[i].1, query))
    }

    /// The first matches of the sources, where each has one.
    fn first_matches(&self, sources: &Vec<DataLocation>) -> (found: Option<Vec<Json>>)
        requires
            self.wf(),
        ensures
            found matches Some(values) ==> first_matches(self@, sources@, sources@.len()) == Some(
                items_view(values@),
            ) && items_wf(items_view(values@)),
            found is None ==> first_matches(self@, sources@, sources@.len()) is None,
    {
        let mut values: Vec<Json> = Vec::new();
        let mut i: usize = 0;
        while i < sources.len()
            invariant
                i <= sources.len(),
                self.wf(),
                first_matches(self@, sources@, i as nat) == Some(items_view(values@)),
                items_wf(items_view(values@)),
            decreases sources.len() - i,
        {
            let ghost before = items_view(values@);
            match self.first_match(&sources[i].format, sources[i].path.as_str()) {
                Some(v) => {
                    values.push(v);
                    assert(items_view(values@) =~= before.push(v@));
                },
                None => {
                    proof {
                        lemma_first_matches_none(self@, sources@, i as nat + 1, sources@.len());
                    }
                    return None;
                },
            }
            i += 1;
        }
        Some(values)
    }

    /// Whether the rule finds what it reads, and the value that it writes.
    fn value_of(&self, rule: &Transformation) -> (r: (bool, Option<Json>))
        requires
            self.wf(),
        ensures
            r.0 == rule.reads(self@),
            option_view(r.1) == rule.value(self@, self.image()),
            r.1 matches Some(j) ==> j@.wf(),
    {
        match rule {
            Transformation::OneToOne { type_, source, .. } => {
                let query = if same_text(source.path.as_str(), "$.@context") {
                    String::from_str("$[\"@context\"]")
                } else {
                    source.path.clone()
                };
                match self.first_match(&source.format, query.as_str()) {
                    Some(v) => (true, usable_value(type_, type_.apply(v))),
                    None => (false, None),
                }
            },
            Transformation::OneToMany { .. } => (false, None),
            Transformation::ManyToOne { type_, sources, .. } => {
                match self.first_matches(sources) {
                    Some(values) => (true, usable_value_of_many(type_.apply(values))),
                    None => (false, None),
                }
            },
            Transformation::StringToOne { type_, source, .. } => (
                true,
                usable_value(type_, type_.apply(Json::String(source.value.clone()))),
            ),
            Transformation::StringArrayToOne { type_, source, .. } => {
                let mut items: Vec<Json> = Vec::new();
                let mut i: usize = 0;
                while i < source.value.len()
                    invariant
                        i <= source.value.len(),
                        items_view(items@) == strings_view(texts_view(source.value@)).take(i as int),
                    decreases source.value.len() - i,
                {
                    let ghost before = items_view(items@);
                    items.push(Json::String(source.value[i].clone()));
                    i += 1;
                    assert(items_view(items@) =~= before.push(
                        JsonView::String(source.value[i - 1]@),
                    ));
                    assert(items_view(items@) =~= strings_view(texts_view(source.value@)).take(
                        i as int,
                    ));
                }
                assert(items_view(items@) =~= strings_view(texts_view(source.value@)));
                assert(items_wf(items_view(items@)));
                (true, usable_value(type_, type_.apply(Json::Array(items))))
            },
            Transformation::JsonToMarkdown { type_, source, .. } => {
                match self.first_match(&source.format, source.path.as_str()) {
                    Some(v) => (
                        true,
                        usable_value(type_, type_.apply(Json::String(json_to_markdown(&v, 0)))),
                    ),
                    None => (false, None),
                }
            },
            Transformation::MarkdownToJson { type_, source, .. } => {
                match self.first_match(&source.format, source.path.as_str()) {
                    Some(Json::String(text)) => match value_of_markdown(text.as_str()) {
                        Some(v) => (true, usable_value(type_, type_.apply(v))),
                        None => (true, None),
                    },
                    Some(_) => (true, Some(Json::Null)),
                    None => (false, None),
                }
            },
            Transformation::AddIdentifier { type_, source, .. } => {
                match self.first_match(&source.format, source.path.as_str()) {
                    Some(v) => (
                        true,
                        usable_value(
                            type_,
                            type_.apply(values_to_identity(source.datatype.as_str(), v)),
                        ),
                    ),
                    None => (false, None),
                }
            },
            Transformation::IdentifierToObject { type_, source, .. } => {
                match self.first_match(&source.format, source.path.as_str()) {
                    Some(v) => (
                        true,
                        usable_value(
                            type_,
                            type_.apply(identity_to_object(source.datatype.as_str(), v)),
                        ),
                    ),
                    None => (false, None),
                }
            },
            Transformation::ImageToIndividualDisplay { type_, source, .. } => {
                match self.first_match(&source.format, source.path.as_str()) {
                    Some(_) => (
                        true,
                        usable_value(
                            type_,
                            type_.apply(individual_display(self.display_image.as_str())),
                        ),
                    ),
                    None => (false, None),
                }
            },
        }
    }

    /// Sees to it that the format has a document: an empty object where it
    /// has none.
    pub fn ensure_document(&mut self, format: &String)
        requires
            old(self).wf(),
        ensures
            final(self).wf(),
            final(self).image() == old(self).image(),
            final(self)@ == with_document(old(self)@, format@),
    {
        let ghost before = self@;
        let i = find_key(&self.documents, format);
        if i >= self.documents.len() {
            proof {
                lemma_key_index_found(before, format@);
            }
            self.documents.push((format.clone(), Json::Object(Vec::new())));
            let ghost after = self@;
            assert(entries_view(Seq::<(String, Json)>::empty()) =~= Seq::<
                (Seq<char>, JsonView),
            >::empty());
            assert(after =~= before.push((format@, JsonView::Object(Seq::empty()))));
            assert forall|p: int, q: int| 0 <= p < q < after.len() implies (#[trigger] after[p]).0
                != (#[trigger] after[q]).0 by {
                if q < before.len() {
                    assert(before[p].0 != before[q].0);
                } else {
                    assert(before[p].0 != format@);
                }
            }
            assert(entries_wf(Seq::<(Seq<char>, JsonView)>::empty()));
            assert forall|p: int| 0 <= p < after.len() implies (#[trigger] after[p]).1.wf() by {
                if p < before.len() {
                    assert(before[p].1.wf());
                }
            }
        }
    }

    /// Writes a value where the pointer ends in the document of the format:
    /// builds the skeleton, puts the value where it ends, and merges it
    /// into the document, which begins as an empty object where it is missing.
    pub fn write_at(&mut self, format: &String, pointer: &JsonPointer, value: Json)
        requires
            old(self).wf(),
            value@.wf(),
        ensures
            final(self).wf(),
            final(self).image() == old(self).image(),
            final(self)@ == written(old(self)@, format@, pointer@, value@),
    {
        let ghost before = self@;
        let ghost v = value@;
        let mut leaf = construct_leaf_node(pointer);
        proof {
            lemma_skeleton_terminal(pointer@);
            lemma_written_wf(before, format@, pointer@, v);
        }
        match leaf.pointer_mut(pointer) {
            Some(terminal) => {
                *terminal = value;
            },
            None => {},
        }
        assert(leaf@ == with_value_at(skeleton(pointer@), pointer@, v));
        let i = find_key(&self.documents, format);
        if i < self.documents.len() {
            merge(&mut self.documents[i].1, leaf);
            assert(self@ =~= written(before, format@, pointer@, v));
        } else {
            let mut document = Json::Object(Vec::new());
            assert(document@ == JsonView::Object(Seq::empty())) by {
                assert(entries_view(Seq::<(String, Json)>::empty()) =~= Seq::<
                    (Seq<char>, JsonView),
                >::empty());
            }
            merge(&mut document, leaf);
            self.documents.push((format.clone(), document));
            assert(self@ =~= written(before, format@, pointer@, v));
        }
    }

    /// Applies one rule: checks its formats against the job's, finds what
    /// it reads, transforms it, and writes it at its address. Reports
    /// the address and the query where the rule's kind reports and the
    /// rule has written.
    pub fn apply_transformation(&mut self, transformation: Transformation, mapping: Mapping) -> (completed:
        Option<(String, String)>)
        requires
            old(self).wf(),
        ensures
            final(self).wf(),
            final(self).image() == old(self).image(),
            final(self)@ == applied(old(self)@, transformation, mapping, old(self).image()),
            report_view(completed) == reported(
                old(self)@,
                transformation,
                mapping,
                old(self).image(),
            ),
            !transformation.formats_fit(mapping) ==> final(self)@ == old(self)@ && completed is None,
            (transformation.formats_fit(mapping) && transformation.reads(old(self)@)
                && transformation.destination() is Some) ==> entry_value(
                final(self)@,
                transformation.destination().unwrap().format@,
            ) is Some,
            forall|other: Seq<char>|
                (transformation.destination() matches Some(d) ==> other != d.format@)
                    ==> #[trigger] entry_value(final(self)@, other) == entry_value(
                    old(self)@,
                    other,
                ),
    {
        proof {
            let image = old(self).image();
            if transformation.formats_fit(mapping) && transformation.reads(old(self)@)
                && transformation.destination() is Some {
                lemma_destination_exists(old(self)@, transformation, mapping, image, Seq::empty());
            }
            assert forall|other: Seq<char>|
                (transformation.destination() matches Some(d) ==> other != d.format@)
                    implies #[trigger] entry_value(
                applied(old(self)@, transformation, mapping, image),
                other,
            ) == entry_value(old(self)@, other) by {
                if transformation.formats_fit(mapping) && transformation.reads(old(self)@)
                    && transformation.destination() is Some {
                    lemma_destination_exists(old(self)@, transformation, mapping, image, other);
                }
            }
        }
        if !formats_fit(&transformation, mapping) {
            return None;
        }
        let destination = match destination_of(&transformation) {
            Some(destination) => destination,
            None => {
                return None;
            },
        };
        let (found, value) = self.value_of(&transformation);
        if !found {
            return None;
        }
        self.ensure_document(&destination.format);
        proof {
            lemma_written_with_document(
                old(self)@,
                destination.format@,
                address_segments(destination.path@).unwrap(),
                transformation.value(old(self)@, old(self).image()).unwrap(),
            );
        }
        let value = match value {
            Some(value) => value,
            None => {
                return None;
            },
        };
        let pointer = match JsonPointer::try_from(JsonPath(destination.path.clone())) {
            Ok(pointer) => pointer,
            Err(_) => {
                return None;
            },
        };
        self.write_at(&destination.format, &pointer, value);
        report_of(&transformation)
    }

    /// Applies the rules in the order given, each to the documents as the
    /// rules before it left them, and collects what they report.
    pub fn apply_transformations(&mut self, transformations: Vec<Transformation>, mapping: Mapping) -> (completed_fields:
        Vec<(String, String)>)
        requires
            old(self).wf(),
        ensures
            final(self).wf(),
            final(self).image() == old(self).image(),
            final(self)@ == applied_all(
                old(self)@,
                transformations@,
                mapping,
                old(self).image(),
                transformations@.len(),
            ),
            reports_view(completed_fields@) == reported_all(
                old(self)@,
                transformations@,
                mapping,
                old(self).image(),
                transformations@.len(),
            ),
    {
        let ghost start = self@;
        let ghost image = self.image();
        let ghost rules = transformations@;
        let mut completed_fields: Vec<(String, String)> = Vec::new();
        for transformation in it: transformations
            invariant
                rules == it.seq(),
                self.wf(),
                self.image() == image,
                self@ == applied_all(start, rules, mapping, image, it.index() as nat),
                reports_view(completed_fields@) == reported_all(
                    start,
                    rules,
                    mapping,
                    image,
                    it.index() as nat,
                ),
        {
            let ghost before = reports_view(completed_fields@);
            match self.apply_transformation(transformation, mapping) {
                Some(completed_field) => {
                    completed_fields.push(completed_field);
                    assert(reports_view(completed_fields@) =~= before.push(
                        (completed_field.0@, completed_field.1@),
                    ));
                },
                None => {},
            }
        }
        completed_fields
    }

    /// Clears what was written at an address of the form `/a/b/c` from
    /// the job's output: removes the entry that the address names, and each
    /// object on the way that this leaves empty.
    pub fn clear_mapping(&mut self, output_pointer: String, mapping: Mapping)
        requires
            old(self).wf(),
        ensures
            final(self).wf(),
            final(self).image() == old(self).image(),
            final(self)@ == cleared(old(self)@, mapping.output(), pointer_keys(output_pointer@)),
    {
        let ghost before = self@;
        let i = find_key(&self.documents, &mapping.output_format());
        if i >= self.documents.len() {
            return ;
        }
        let s = chars_of(output_pointer.as_str());
        let from = scan(&s, 0, CharClass::Exactly('/'));
        let keys = split_from(&s, from, '/');
        assert(before[i as int].1.wf());
        proof {
            lemma_pruned_wf(before[i as int].1, texts_view(keys@));
        }
        remove_key_recursive(&mut self.documents[i].1, keys.as_slice());
        let ghost after = self@;
        assert(after =~= cleared(before, mapping.output(), pointer_keys(output_pointer@)));
        assert forall|p: int, q: int| 0 <= p < q < after.len() implies (#[trigger] after[p]).0 != (
        #[trigger] after[q]).0 by {
            assert(before[p].0 != before[q].0);
        }
        assert forall|p: int| 0 <= p < after.len() implies (#[trigger] after[p]).1.wf() by {
            if p != i {
                assert(before[p].1.wf());
            }
        }
    }
}

/// Once a source has no match, no longer run of the sources has matches.
proof fn lemma_first_matches_none(repo: Entries, sources: Seq<DataLocation>, n: nat, m: nat)
    requires
        n <= m <= sources.len(),
        first_matches(repo, sources, n) is None,
    ensures
        first_matches(repo, sources, m) is None,
    decreases m,
{
    if m > n {
        lemma_first_matches_none(repo, sources, n, (m - 1) as nat);
    }
}

/// Whether the formats that the rule names are those of the job.
#[verifier::loop_isolation(false)]
pub fn formats_fit(rule: &Transformation, mapping: Mapping) -> (fit: bool)
    ensures
        fit == rule.formats_fit(mapping),
{
    let input = mapping.input_format();
    let output = mapping.output_format();
    match rule {
        Transformation::OneToOne { source, destination, .. } => source.format == input
            && destination.format == output,
        Transformation::OneToMany { source, destinations, .. } => {
            if !(source.format == input) {
                return false;
            }
            let mut i: usize = 0;
            while i < destinations.len()
                invariant
                    i <= destinations.len(),
                    output@ == mapping.output(),
                    forall|k: int| 0 <= k < i ==> (#[trigger] destinations[k]).format@ == output@,
                decreases destinations.len() - i,
            {
                if !(destinations[i].format == output) {
                    return false;
                }
                i += 1;
            }
            true
        },
        Transformation::ManyToOne { sources, destination, .. } => {
            if !(destination.format == output) {
                return false;
            }
            let mut i: usize = 0;
            while i < sources.len()
                invariant
                    i <= sources.len(),
                    input@ == mapping.input(),
                    forall|k: int| 0 <= k < i ==> (#[trigger] sources[k]).format@ == input@,
                decreases sources.len() - i,
            {
                if !(sources[i].format == input) {
                    return false;
                }
                i += 1;
            }
            true
        },
        Transformation::StringToOne { destination, .. } => destination.format == output,
        Transformation::StringArrayToOne { destination, .. } => destination.format == output,
        Transformation::JsonToMarkdown { source, destination, .. } => source.format == input
            && destination.format == output,
        Transformation::MarkdownToJson { source, destination, .. } => source.format == input
            && destination.format == output,
        Transformation::AddIdentifier { source, destination, .. } => source.format == input
            && destination.format == output,
        Transformation::IdentifierToObject { source, destination, .. } => source.format == input
            && destination.format == output,
        Transformation::ImageToIndividualDisplay { source, destination, .. } => source.format
            == input && destination.format == output,
    }
}

/// Where the rule writes.
pub fn destination_of(rule: &Transformation) -> (destination: Option<&DataLocation>)
    ensures
        destination matches Some(d) ==> rule.destination() == Some(*d),
        destination is None ==> rule.destination() is None,
{
    match rule {
        Transformation::OneToOne { destination, .. } => Some(destination),
        Transformation::OneToMany { .. } => None,
        Transformation::ManyToOne { destination, .. } => Some(destination),
        Transformation::StringToOne { destination, .. } => Some(destination),
        Transformation::StringArrayToOne { destination, .. } => Some(destination),
        Transformation::JsonToMarkdown { destination, .. } => Some(destination),
        Transformation::MarkdownToJson { destination, .. } => Some(destination),
        Transformation::AddIdentifier { destination, .. } => Some(destination),
        Transformation::IdentifierToObject { destination, .. } => Some(destination),
        Transformation::ImageToIndividualDisplay { destination, .. } => Some(destination),
    }
}

/// What the rule reports once it has written.
pub fn report_of(rule: &Transformation) -> (report: Option<(String, String)>)
    ensures
        report_view(report) == rule.report(),
{
    match rule {
        Transformation::OneToOne { source, destination, .. } => {
            let query = if same_text(source.path.as_str(), "$.@context") {
                String::from_str("$[\"@context\"]")
            } else {
                source.path.clone()
            };
            Some((destination.path.clone(), query))
        },
        Transformation::OneToMany { .. } => None,
        Transformation::ManyToOne { .. } => None,
        Transformation::StringToOne { .. } => None,
        Transformation::StringArrayToOne { .. } => None,
        Transformation::JsonToMarkdown { source, destination, .. } => Some(
            (destination.path.clone(), source.path.clone()),
        ),
        Transformation::MarkdownToJson { source, destination, .. } => Some(
            (destination.path.clone(), source.path.clone()),
        ),
        Transformation::AddIdentifier { source, destination, .. } => Some(
            (destination.path.clone(), source.path.clone()),
        ),
        Transformation::IdentifierToObject { source, destination, .. } => Some(
            (destination.path.clone(), source.path.clone()),
        ),
        Transformation::ImageToIndividualDisplay { source, destination, .. } => Some(
            (destination.path.clone(), source.path.clone()),
        ),
    }
}

/// Removes the entry that the keys lead to, and each object on the way
/// that this leaves empty. Tells whether the document is an object that is
/// now empty.
pub fn remove_key_recursive(current_json: &mut Json, keys: &[String]) -> (empty: bool)
    ensures
        final(current_json)@ == pruned(old(current_json)@, texts_view(keys@)),
        empty == (keys@.len() > 0 && old(current_json)@ is Object && is_empty_object(
            final(current_json)@,
        )),
    decreases keys@.len(),
{
    if keys.len() == 0 {
        return false;
    }
    let first = &keys[0];
    let rest = &keys[1..keys.len()];
    assert(texts_view(rest@) =~= texts_view(keys@).drop_first());
    assert(texts_view(keys@)[0] == first@);
    match current_json {
        Json::Object(entries) => {
            let ghost before = entries_view(entries@);
            let i = find_key(entries, first);
            if i < entries.len() {
                if rest.len() == 0 {
                    entries.remove(i);
                    assert(entries_view(entries@) =~= before.remove(i as int));
                } else {
                    let emptied = remove_key_recursive(&mut entries[i].1, rest);
                    let ghost child = entries_view(entries@)[i as int].1;
                    assert(entries_view(entries@) =~= before.update(i as int, (before[i as int].0, child)));
                    if emptied {
                        entries.remove(i);
                        assert(entries_view(entries@) =~= before.remove(i as int));
                    }
                }
            }
            entries.len() == 0
        },
        _ => false,
    }
}

/// Writes the proposed value at the address that is being edited in the
/// job's output. A proposal that is not JSON changes nothing.
pub fn update_repository(state: &mut AppState)
    requires
        old(state).repository.wf(),
    ensures
        final(state).repository.wf(),
        final(state).repository.image() == old(state).repository.image(),
        final(state).mapping == old(state).mapping,
        final(state).output_pointer == old(state).output_pointer,
        final(state).candidate_output_value == old(state).candidate_output_value,
        final(state).repository@ == (match parsed_json(old(state).candidate_output_value@) {
            Some(v) => written(
                old(state).repository@,
                old(state).mapping.output(),
                old(state).output_pointer@,
                v,
            ),
            None => old(state).repository@,
        }),
{
    match parse_json(state.candidate_output_value.as_str()) {
        Some(value) => {
            let format = state.mapping.output_format();
            state.repository.write_at(&format, &state.output_pointer, value);
        },
        None => {},
    }
}

/// Writing into the documents is writing into the documents with a document
/// for the format.
pub proof fn lemma_written_with_document(
    repo: Entries,
    format: Seq<char>,
    segments: Seq<SegmentView>,
    v: JsonView,
)
    ensures
        written(with_document(repo, format), format, segments, v) == written(
            repo,
            format,
            segments,
            v,
        ),
{
    lemma_key_index_found(repo, format);
    if key_index(repo, format) >= repo.len() {
        let more = with_document(repo, format);
        lemma_key_index(more, format, repo.len());
        assert(written(more, format, segments, v) =~= written(repo, format, segments, v));
    }
}

/// A rule that finds what it reads leaves its destination with a
/// document, whatever becomes of its value; and every rule leaves the
/// documents of the other formats as they were.
pub proof fn lemma_destination_exists(
    repo: Entries,
    rule: Transformation,
    mapping: Mapping,
    image: Seq<char>,
    other: Seq<char>,
)
    requires
        rule.formats_fit(mapping),
        rule.reads(repo),
        rule.destination() is Some,
    ensures
        entry_value(applied(repo, rule, mapping, image), rule.destination().unwrap().format@)
            is Some,
        other != rule.destination().unwrap().format@ ==> entry_value(
            applied(repo, rule, mapping, image),
            other,
        ) == entry_value(repo, other),
{
    let format = rule.destination().unwrap().format@;
    let after = applied(repo, rule, mapping, image);
    let i = key_index(repo, format) as int;
    lemma_key_index_found(repo, format);
    lemma_key_index_found(repo, other);
    if i < repo.len() {
        lemma_key_index(after, format, i as nat);
        if other != format {
            lemma_key_index(after, other, key_index(repo, other));
        }
    } else {
        lemma_key_index(after, format, repo.len());
        if other != format {
            if key_index(repo, other) < repo.len() {
                lemma_key_index(after, other, key_index(repo, other));
            } else {
                lemma_key_index(after, other, after.len());
            }
        }
    }
}

/// A direct rule writes what it reads, whatever that is, and reports: once
/// its formats are the job's, its query has a first match and its
/// address resolves, that match stands at the address, null where the
/// match is null, and the rule reports the address and the query.
pub proof fn lemma_direct_rule_writes(
    repo: Entries,
    source: DataLocation,
    destination: DataLocation,
    mapping: Mapping,
    image: Seq<char>,
    v: JsonView,
)
    requires
        source.format@ == mapping.input(),
        destination.format@ == mapping.output(),
        first_match(repo, source.format@, query_text(source.path@)) == Some(v),
        address_segments(destination.path@) is Ok,
    ensures
        ({
            let rule = Transformation::OneToOne { type_: OneToOne::Direct, source, destination };
            &&& reported(repo, rule, mapping, image) == Some(
                (destination.path@, query_text(source.path@)),
            )
            &&& applied(repo, rule, mapping, image) == written(
                repo,
                destination.format@,
                address_segments(destination.path@).unwrap(),
                v,
            )
        }),
{
}

/// A rule whose formats are not the job's writes nothing and reports
/// nothing: the documents stay as they are.
pub proof fn lemma_format_mismatch_skips(
    repo: Entries,
    rule: Transformation,
    mapping: Mapping,
    image: Seq<char>,
)
    requires
        !rule.formats_fit(mapping),
    ensures
        applied(repo, rule, mapping, image) == repo,
        reported(repo, rule, mapping, image) is None,
{
}

/// What a document holds where the segments end, and null where they reach nothing.
pub open spec fn held_at(doc: JsonView, segments: Seq<SegmentView>) -> JsonView {
    match value_at(doc, segments) {
        Some(v) => v,
        None => JsonView::Null,
    }
}

/// The items of `a` after the nulls that pad an index were merged in: `a`
/// itself, made longer with nulls where it is shorter than `n`.
proof fn lemma_padding_merged(a: Seq<JsonView>, i: nat, last: JsonView, n: nat)
    requires
        n <= i,
    ensures
        merged_items(a, padded(i, last), n).len() == (if n <= a.len() {
            a.len()
        } else {
            n
        }),
        forall|k: int| 0 <= k < a.len() ==> (#[trigger] merged_items(a, padded(i, last), n)[k]) == a[k],
    decreases n,
{
    if n > 0 {
        lemma_padding_merged(a, i, last, (n - 1) as nat);
        let acc = merged_items(a, padded(i, last), (n - 1) as nat);
        assert(merged_items(a, padded(i, last), n) == item_merged(acc, n - 1, JsonView::Null));
    }
}

/// Reading back what was merged in: after the skeleton of an address with
/// `v` where it ends was merged into a document, the document holds
/// there `v` merged into what it held before.
pub proof fn lemma_merged_leaf_is_read(doc: JsonView, segments: Seq<SegmentView>, v: JsonView)
    ensures
        value_at(merged(doc, leaf_with(segments, v)), segments) == Some(
            merged(held_at(doc, segments), v),
        ),
    decreases segments.len(),
{
    lemma_leaf_shape(segments, v);
    lemma_skeleton_round_trip(segments, v);
    if segments.len() > 0 {
        let rest = segments.drop_first();
        let sub = leaf_with(rest, v);
        lemma_skeleton_round_trip(rest, v);
        match segments[0] {
            SegmentView::Key(k) => {
                let incoming = seq![(k, sub)];
                match doc {
                    JsonView::Object(a) => {
                        let i = key_index(a, k) as int;
                        lemma_key_index_found(a, k);
                        assert(merged_entries(a, incoming, 0) == a);
                        assert(merged_entries(a, incoming, 1) == entry_merged(
                            a,
                            k,
                            sub,
                        ));
                        let after = merged_entries(a, incoming, 1);
                        if i < a.len() {
                            lemma_key_index_update(a, i, merged(a[i].1, sub), k);
                            lemma_merged_leaf_is_read(a[i].1, rest, v);
                        } else {
                            lemma_key_index(after, k, a.len());
                        }
                    },
                    _ => {},
                }
            },
            SegmentView::Index(i) => {
                let incoming = padded(i, sub);
                match doc {
                    JsonView::Array(a) => {
                        lemma_padding_merged(a, i, sub, i);
                        let acc = merged_items(a, incoming, i);
                        assert(merged_items(a, incoming, i + 1) == item_merged(acc, i as int, sub));
                        if i < a.len() {
                            lemma_merged_leaf_is_read(a[i as int], rest, v);
                        }
                    },
                    _ => {},
                }
            },
        }
    }
}

/// What a rule writes stands at its address: after a value that is
/// neither null, nor an array, nor an object was written, the document of
/// the format holds exactly that value where the address ends.
pub proof fn lemma_written_is_read(
    repo: Entries,
    format: Seq<char>,
    segments: Seq<SegmentView>,
    v: JsonView,
)
    requires
        v is Bool || v is Number || v is String,
    ensures
        entry_value(written(repo, format, segments, v), format) is Some,
        value_at(entry_value(written(repo, format, segments, v), format).unwrap(), segments) == Some(
            v,
        ),
{
    let i = key_index(repo, format) as int;
    let after = written(repo, format, segments, v);
    lemma_key_index_found(repo, format);
    if i < repo.len() {
        lemma_key_index(after, format, i as nat);
        lemma_merged_leaf_is_read(repo[i].1, segments, v);
    } else {
        lemma_key_index(after, format, repo.len());
        lemma_merged_leaf_is_read(JsonView::Object(Seq::empty()), segments, v);
    }
}

/// What a rule writes leaves the neighbours alone: after the skeleton of an
/// address that begins with a key was merged into an object, the object
/// holds under every other key what it held before.
pub proof fn lemma_written_keeps_other_keys(
    entries: Entries,
    segments: Seq<SegmentView>,
    v: JsonView,
    other: Seq<char>,
)
    requires
        segments.len() > 0,
        segments[0] matches SegmentView::Key(k) && k != other,
    ensures
        merged(JsonView::Object(entries), leaf_with(segments, v)) is Object,
        entry_value(
            merged(JsonView::Object(entries), leaf_with(segments, v))->Object_0,
            other,
        ) == entry_value(entries, other),
{
    lemma_leaf_shape(segments, v);
    let k = segments[0]->Key_0;
    let sub = leaf_with(segments.drop_first(), v);
    let incoming = seq![(k, sub)];
    assert(merged_entries(entries, incoming, 0) == entries);
    assert(merged_entries(entries, incoming, 1) == entry_merged(entries, k, sub));
    lemma_entry_merged_keeps_others(entries, k, sub, other);
}

/// What a rule writes leaves the neighbours alone: after the skeleton of an
/// address that begins with an index was merged into an array, the array
/// holds at every other index that it had what it held before.
pub proof fn lemma_written_keeps_other_items(
    items: Seq<JsonView>,
    segments: Seq<SegmentView>,
    v: JsonView,
    other: int,
)
    requires
        segments.len() > 0,
        segments[0] matches SegmentView::Index(i) && i != other,
        0 <= other < items.len(),
    ensures
        merged(JsonView::Array(items), leaf_with(segments, v)) is Array,
        merged(JsonView::Array(items), leaf_with(segments, v))->Array_0.len() > other,
        merged(JsonView::Array(items), leaf_with(segments, v))->Array_0[other] == items[other],
{
    lemma_leaf_shape(segments, v);
    let i = segments[0]->Index_0;
    let sub = leaf_with(segments.drop_first(), v);
    let incoming = padded(i, sub);
    lemma_padding_merged(items, i, sub, i);
    let acc = merged_items(items, incoming, i);
    assert(merged_items(items, incoming, i + 1) == item_merged(acc, i as int, sub));
}

/// The keys of an address as segments.
pub open spec fn key_segments(keys: Seq<Seq<char>>) -> Seq<SegmentView> {
    Seq::new(keys.len(), |i: int| SegmentView::Key(keys[i]))
}

/// Where no key occurs twice, the entries without one of them do not
/// hold its key any more, and hold under every other key what they held.
proof fn lemma_removed_entry(entries: Entries, i: int, other: Seq<char>)
    requires
        unique_keys(entries),
        0 <= i < entries.len(),
    ensures
        entry_value(entries.remove(i), entries[i].0) is None,
        other != entries[i].0 ==> entry_value(entries.remove(i), other) == entry_value(
            entries,
            other,
        ),
{
    let removed = entries.remove(i);
    let k = entries[i].0;
    assert forall|j: int| 0 <= j < removed.len() implies (#[trigger] removed[j]).0 != k by {
        let j0 = if j < i {
            j
        } else {
            j + 1
        };
        assert(entries[j0].0 != entries[i].0);
    }
    lemma_key_index(removed, k, removed.len());
    if other != k {
        lemma_key_index_found(entries, other);
        let at = key_index(entries, other) as int;
        if at < entries.len() {
            let at0 = if at < i {
                at
            } else {
                at - 1
            };
            assert forall|j: int| 0 <= j < at0 implies (#[trigger] removed[j]).0 != other by {
                let j0 = if j < i {
                    j
                } else {
                    j + 1
                };
                assert(entries[j0].0 != other);
            }
            lemma_key_index(removed, other, at0 as nat);
        } else {
            assert forall|j: int| 0 <= j < removed.len() implies (#[trigger] removed[j]).0
                != other by {
                let j0 = if j < i {
                    j
                } else {
                    j + 1
                };
                assert(entries[j0].0 != other);
            }
            lemma_key_index(removed, other, removed.len());
        }
    }
}

/// What was cleared is gone: in a well-formed document, the keys of a
/// cleared address lead to nothing any more.
pub proof fn lemma_cleared_is_gone(doc: JsonView, keys: Seq<Seq<char>>)
    requires
        doc.wf(),
        keys.len() > 0,
    ensures
        value_at(pruned(doc, keys), key_segments(keys)) is None,
    decreases keys.len(),
{
    let segments = key_segments(keys);
    assert(segments[0] == SegmentView::Key(keys[0]));
    assert(segments.drop_first() =~= key_segments(keys.drop_first()));
    match doc {
        JsonView::Object(entries) => {
            let i = key_index(entries, keys[0]) as int;
            lemma_key_index_found(entries, keys[0]);
            if i < entries.len() {
                lemma_removed_entry(entries, i, keys[0]);
                if keys.len() > 1 {
                    let child = pruned(entries[i].1, keys.drop_first());
                    assert(entries[i].1.wf());
                    lemma_cleared_is_gone(entries[i].1, keys.drop_first());
                    if !is_empty_object(child) {
                        lemma_key_index_update(entries, i, child, keys[0]);
                    }
                }
            }
        },
        _ => {},
    }
}

/// Clearing leaves the neighbours alone: a well-formed object holds under
/// every key but the first of the cleared address what it held before.
pub proof fn lemma_cleared_keeps_other_keys(entries: Entries, keys: Seq<Seq<char>>, other: Seq<char>)
    requires
        entries_wf(entries),
        keys.len() > 0,
        other != keys[0],
    ensures
        pruned(JsonView::Object(entries), keys) is Object,
        entry_value(pruned(JsonView::Object(entries), keys)->Object_0, other) == entry_value(
            entries,
            other,
        ),
{
    let i = key_index(entries, keys[0]) as int;
    lemma_key_index_found(entries, keys[0]);
    if i < entries.len() {
        lemma_removed_entry(entries, i, other);
        if keys.len() > 1 {
            let child = pruned(entries[i].1, keys.drop_first());
            lemma_key_index_update(entries, i, child, other);
            lemma_key_index_found(entries, other);
        }
    }
}

} // verus!
