//! Mapping rules as a table holds them: a source path, a target path and
//! the transformations to apply.

use core::slice::Iter;
use vstd::prelude::*;
use vstd::std_specs::slice::{axiom_spec_slice_iter, into_iter_elts};
use crate::pointer::{
    address_segments, AddressError, JsonPath, JsonPointer, Segment, SegmentView,
};
use crate::text::{decimal, decimal_text, texts_view};

verus! {

/// A path into a document, as it is written.
pub struct JsonPathStr(String);

impl View for JsonPathStr {
    type V = Seq<char>;

    closed spec fn view(&self) -> Seq<char> {
        self.0@
    }
}

impl std::ops::Deref for JsonPathStr {
    type Target = String;

    fn deref(&self) -> (path: &String)
        ensures
            path@ == self@,
    {
        &self.0
    }
}

/// The text of a segment: a key as it is, an index in decimal.
pub open spec fn segment_text(segment: SegmentView) -> Seq<char> {
    match segment {
        SegmentView::Key(k) => k,
        SegmentView::Index(i) => decimal_text(i),
    }
}

/// The texts of the segments of a path; none where the path has no segments.
pub open spec fn segment_texts(path: Seq<char>) -> Seq<Seq<char>> {
    match address_segments(path) {
        Ok(segments) => Seq::new(segments.len(), |i: int| segment_text(segments[i])),
        Err(_) => Seq::empty(),
    }
}

impl JsonPathStr {
    pub fn new(path: String) -> (p: JsonPathStr)
        ensures
            p@ == path@,
    {
        JsonPathStr(path)
    }

    /// The path as it is written.
    pub fn as_str(&self) -> (s: &str)
        ensures
            s@ == self@,
    {
        self.0.as_str()
    }

    /// The segments of the path, outermost first, each as a text. A path
    /// that cannot be resolved has none.
    pub fn to_segments(&self) -> (texts: Vec<String>)
        ensures
            texts_view(texts@) == segment_texts(self@),
    {
        let mut texts: Vec<String> = Vec::new();
        match JsonPointer::try_from(JsonPath(self.0.clone())) {
            Err(_) => {
                assert(texts_view(texts@) =~= segment_texts(self@));
                texts
            },
            Ok(pointer) => {
                let mut i: usize = 0;
                while i < pointer.segments.len()
                    invariant
                        i <= pointer.segments.len(),
                        address_segments(self@) == Ok::<Seq<SegmentView>, AddressError>(pointer@),
                        texts_view(texts@) == segment_texts(self@).take(i as int),
                    decreases pointer.segments.len() - i,
                {
                    let ghost before = texts_view(texts@);
                    assert(pointer@[i as int] == pointer.segments[i as int]@);
                    match &pointer.segments[i] {
                        Segment::Key(k) => texts.push(k.clone()),
                        Segment::Index(n) => texts.push(decimal(*n)),
                    }
                    assert(texts_view(texts@) =~= before.push(segment_text(pointer@[i as int])));
                    i += 1;
                    assert(texts_view(texts@) =~= segment_texts(self@).take(i as int));
                }
                assert(texts_view(texts@) =~= segment_texts(self@));
                texts
            },
        }
    }
}

/// The transformations that a rule of a table can name.
#[derive(Debug, Clone, Copy, PartialEq, Eq)]
pub enum TransformationEnum {
    DIRECT,
    LOWERCASE,
    UPPERCASE,
    TOSTRING,
    TONUMBER,
    REGEX,
    MANYTOONE,
    ONETOMANY,
}

/// One rule of a table.
#[derive(Debug, Clone)]
pub struct MappingRule {
    pub src_path: String,
    pub target_path: String,
    pub transformation: Vec<TransformationEnum>,
}

impl Default for MappingRule {
    fn default() -> (rule: MappingRule)
        ensures
            rule.src_path@.len() == 0,
            rule.target_path@.len() == 0,
            rule.transformation@.len() == 0,
    {
        MappingRule { src_path: String::new(), target_path: String::new(), transformation: Vec::new() }
    }
}

/// The rules of a table, in their order.
#[derive(Debug)]
pub struct MappingData(Vec<MappingRule>);

impl View for MappingData {
    type V = Seq<MappingRule>;

    closed spec fn view(&self) -> Seq<MappingRule> {
        self.0@
    }
}

impl MappingData {
    pub fn new(rules: Vec<MappingRule>) -> (data: MappingData)
        ensures
            data@ == rules@,
    {
        MappingData(rules)
    }

    /// The number of rules.
    pub fn len(&self) -> (n: usize)
        ensures
            n == self@.len(),
    {
        self.0.len()
    }

    /// The rule at the index `i`.
    pub fn get(&self, i: usize) -> (rule: Option<&MappingRule>)
        ensures
            rule == (if i < self@.len() {
                Some(&self@[i as int])
            } else {
                None
            }),
    {
        if i < self.0.len() {
            Some(&self.0[i])
        } else {
            None
        }
    }

    /// An iterator over the rules in their order.
    pub fn iter(&self) -> (rules: Iter<'_, MappingRule>)
        ensures
            into_iter_elts(rules) == self@,
    {
        let slice = self.0.as_slice();
        let rules = slice.iter();
        proof {
            axiom_spec_slice_iter(slice);
        }
        rules
    }
}

} // verus!
