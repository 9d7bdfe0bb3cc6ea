//! Write-side addresses: their segments, the skeleton that makes an address
//! writable, and the node that an address reaches.

use vstd::prelude::*;
use crate::json::{
    entries_view, entries_wf, is_digit, items_view, items_wf, key_index, lemma_key_index,
    lemma_key_index_found, Entries, Json, JsonView,
};
use crate::text::{chars_of, lemma_run_end_bounds, run_end, scan, slice_of, string_of, CharClass};

verus! {

/// One step of an address: into an object by key, or into an array by index.
#[derive(Debug, PartialEq, Eq)]
pub enum Segment {
    Key(String),
    Index(usize),
}

/// The mathematical model of a segment.
pub enum SegmentView {
    Key(Seq<char>),
    Index(nat),
}

impl View for Segment {
    type V = SegmentView;

    open spec fn view(&self) -> SegmentView {
        match self {
            Segment::Key(k) => SegmentView::Key(k@),
            Segment::Index(i) => SegmentView::Index(*i as nat),
        }
    }
}

/// The models of a sequence of segments.
pub open spec fn segments_view(segments: Seq<Segment>) -> Seq<SegmentView> {
    Seq::new(segments.len(), |i: int| segments[i]@)
}

/// `i` nulls, then `last`.
pub open spec fn padded(i: nat, last: JsonView) -> Seq<JsonView> {
    Seq::new(
        i + 1,
        |j: int|
            if j == i {
                last
            } else {
                JsonView::Null
            },
    )
}

/// The skeleton of an address: only the nesting that the segments imply, an
/// object of one entry for a key and an array padded with nulls for an
/// index, with a null where the address ends.
pub open spec fn skeleton(segments: Seq<SegmentView>) -> JsonView
    decreases segments.len(),
{
    if segments.len() == 0 {
        JsonView::Null
    } else {
        match segments[0] {
            SegmentView::Key(k) => JsonView::Object(seq![(k, skeleton(segments.drop_first()))]),
            SegmentView::Index(i) => JsonView::Array(padded(i, skeleton(segments.drop_first()))),
        }
    }
}

/// The node that the segments reach in `doc`, where there is one.
pub open spec fn value_at(doc: JsonView, segments: Seq<SegmentView>) -> Option<JsonView>
    decreases segments.len(),
{
    if segments.len() == 0 {
        Some(doc)
    } else {
        match (doc, segments[0]) {
            (JsonView::Object(entries), SegmentView::Key(k)) => {
                if key_index(entries, k) < entries.len() {
                    value_at(entries[key_index(entries, k) as int].1, segments.drop_first())
                } else {
                    None
                }
            },
            (JsonView::Array(items), SegmentView::Index(i)) => {
                if i < items.len() {
                    value_at(items[i as int], segments.drop_first())
                } else {
                    None
                }
            },
            _ => None,
        }
    }
}

/// `doc` with the node that the segments reach replaced by `v`; `doc` itself
/// where they reach none.
pub open spec fn with_value_at(doc: JsonView, segments: Seq<SegmentView>, v: JsonView) -> JsonView
    decreases segments.len(),
{
    if segments.len() == 0 {
        v
    } else {
        match (doc, segments[0]) {
            (JsonView::Object(entries), SegmentView::Key(k)) => {
                let i = key_index(entries, k) as int;
                if i < entries.len() {
                    JsonView::Object(
                        entries.update(
                            i,
                            (entries[i].0, with_value_at(entries[i].1, segments.drop_first(), v)),
                        ),
                    )
                } else {
                    doc
                }
            },
            (JsonView::Array(items), SegmentView::Index(i)) => {
                if i < items.len() {
                    JsonView::Array(
                        items.update(
                            i as int,
                            with_value_at(items[i as int], segments.drop_first(), v),
                        ),
                    )
                } else {
                    doc
                }
            },
            _ => doc,
        }
    }
}

/// A resolved address: its segments, outermost first.
#[derive(Debug, PartialEq, Eq)]
pub struct JsonPointer {
    pub segments: Vec<Segment>,
}

impl View for JsonPointer {
    type V = Seq<SegmentView>;

    open spec fn view(&self) -> Seq<SegmentView> {
        segments_view(self.segments@)
    }
}

impl JsonPointer {
    /// An index can be written as long as the array up to it has a length.
    pub open spec fn wf(&self) -> bool {
        forall|i: int|
            0 <= i < self@.len() ==> (#[trigger] self@[i] matches SegmentView::Index(n) ==> n
                < usize::MAX)
    }
}

/// Builds the skeleton from the last segment back to the first.
pub fn construct_leaf_node(pointer: &JsonPointer) -> (leaf: Json)
    ensures
        leaf@ == skeleton(pointer@),
        leaf@.wf(),
{
    proof {
        lemma_skeleton_wf(pointer@);
    }
    let mut node = Json::Null;
    let mut n: usize = pointer.segments.len();
    while n > 0
        invariant
            n <= pointer.segments.len(),
            node@ == skeleton(pointer@.skip(n as int)),
        decreases n,
    {
        n -= 1;
        let ghost rest = pointer@.skip(n as int + 1);
        let ghost inner = node@;
        assert(pointer@.skip(n as int).drop_first() =~= rest);
        assert(pointer@.skip(n as int)[0] == pointer@[n as int]);
        match &pointer.segments[n] {
            Segment::Key(k) => {
                let mut entries: Vec<(String, Json)> = Vec::new();
                entries.push((k.clone(), node));
                assert(entries_view(entries@) =~= seq![(k@, inner)]);
                node = Json::Object(entries);
            },
            Segment::Index(i) => {
                let mut items: Vec<Json> = Vec::new();
                let mut j: usize = 0;
                while j < *i
                    invariant
                        j <= *i,
                        items.len() == j,
                        forall|p: int| 0 <= p < j ==> (#[trigger] items[p])@ == JsonView::Null,
                    decreases *i - j,
                {
                    items.push(Json::Null);
                    j += 1;
                }
                items.push(node);
                assert(items_view(items@) =~= padded(*i as nat, inner));
                node = Json::Array(items);
            },
        }
    }
    assert(pointer@.skip(0) =~= pointer@);
    node
}

impl Json {
    /// The node that `pointer` reaches from the segment `from` on.
    fn pointer_from<'a>(&'a self, pointer: &JsonPointer, from: usize) -> (node: Option<&'a Json>)
        requires
            from <= pointer.segments.len(),
        ensures
            node matches Some(found) ==> value_at(self@, pointer@.skip(from as int)) == Some(
                found@,
            ),
            node is None ==> value_at(self@, pointer@.skip(from as int)) is None,
        decreases pointer.segments.len() - from,
    {
        if from == pointer.segments.len() {
            return Some(self);
        }
        let ghost segs = pointer@.skip(from as int);
        assert(segs.drop_first() =~= pointer@.skip(from as int + 1));
        assert(segs[0] == pointer.segments[from as int]@);
        match (self, &pointer.segments[from]) {
            (Json::Object(entries), Segment::Key(k)) => {
                let i = find_key(entries, k);
                if i < entries.len() {
                    entries[i].1.pointer_from(pointer, from + 1)
                } else {
                    None
                }
            },
            (Json::Array(items), Segment::Index(i)) => {
                if *i < items.len() {
                    items[*i].pointer_from(pointer, from + 1)
                } else {
                    None
                }
            },
            _ => None,
        }
    }

    /// The node that `pointer` reaches.
    pub fn pointer<'a>(&'a self, pointer: &JsonPointer) -> (node: Option<&'a Json>)
        ensures
            node matches Some(found) ==> value_at(self@, pointer@) == Some(found@),
            node is None ==> value_at(self@, pointer@) is None,
    {
        assert(pointer@.skip(0) =~= pointer@);
        self.pointer_from(pointer, 0)
    }

    /// A handle to the node that `pointer` reaches from the segment `from`
    /// on: what is written through it is written into `self` there.
    fn pointer_mut_from<'a>(&'a mut self, pointer: &JsonPointer, from: usize) -> (node: Option<
        &'a mut Json,
    >)
        requires
            from <= pointer.segments.len(),
        ensures
            node matches Some(found) ==> value_at(old(self)@, pointer@.skip(from as int)) == Some(
                found@,
            ),
            node matches Some(found) ==> final(self)@ == with_value_at(
                old(self)@,
                pointer@.skip(from as int),
                final(found)@,
            ),
            node is None ==> value_at(old(self)@, pointer@.skip(from as int)) is None,
            node is None ==> final(self)@ == old(self)@,
        decreases pointer.segments.len() - from,
    {
        if from == pointer.segments.len() {
            return Some(self);
        }
        let ghost segs = pointer@.skip(from as int);
        assert(segs.drop_first() =~= pointer@.skip(from as int + 1));
        assert(segs[0] == pointer.segments[from as int]@);
        match (self, &pointer.segments[from]) {
            (Json::Object(entries), Segment::Key(k)) => {
                let i = find_key(entries, k);
                if i < entries.len() {
                    let ghost before = entries_view(entries@);
                    let ghost after = entries_view(final(entries)@);
                    let found = entries[i].1.pointer_mut_from(pointer, from + 1);
                    proof {
                        assert(after =~= before.update(i as int, (before[i as int].0, after[i as int].1)));
                        assert(after[i as int].1 == before[i as int].1 ==> after =~= before);
                    }
                    found
                } else {
                    None
                }
            },
            (Json::Array(items), Segment::Index(i)) => {
                if *i < items.len() {
                    let ghost before = items_view(items@);
                    let ghost after = items_view(final(items)@);
                    let found = items[*i].pointer_mut_from(pointer, from + 1);
                    proof {
                        assert(after =~= before.update(*i as int, after[*i as int]));
                        assert(after[*i as int] == before[*i as int] ==> after =~= before);
                    }
                    found
                } else {
                    None
                }
            },
            _ => None,
        }
    }

    /// A handle to the node that `pointer` reaches: what is written through
    /// it is written into `self` there.
    pub fn pointer_mut<'a>(&'a mut self, pointer: &JsonPointer) -> (node: Option<&'a mut Json>)
        ensures
            node matches Some(found) ==> value_at(old(self)@, pointer@) == Some(found@),
            node matches Some(found) ==> final(self)@ == with_value_at(
                old(self)@,
                pointer@,
                final(found)@,
            ),
            node is None ==> value_at(old(self)@, pointer@) is None,
            node is None ==> final(self)@ == old(self)@,
    {
        assert(pointer@.skip(0) =~= pointer@);
        self.pointer_mut_from(pointer, 0)
    }
}

/// The index of the first entry with the key, or the length where there is none.
pub fn find_key(entries: &Vec<(String, Json)>, key: &String) -> (i: usize)
    ensures
        i == key_index(entries_view(entries@), key@),
        i <= entries.len(),
{
    let mut i: usize = 0;
    while i < entries.len() && !(entries[i].0 == *key)
        invariant
            i <= entries.len(),
            forall|j: int| 0 <= j < i ==> (#[trigger] entries_view(entries@)[j]).0 != key@,
        decreases entries.len() - i,
    {
        i += 1;
    }
    proof {
        lemma_key_index(entries_view(entries@), key@, i as nat);
    }
    i
}

/// Why an address has no segments.
#[derive(Clone, Copy, Debug, PartialEq, Eq)]
pub enum AddressError {
    /// The address does not begin with the root, `$`.
    MissingRoot,
    /// Behind the root stands something that is no segment.
    BadSegment,
}

/// The number that the decimal digits write.
pub open spec fn digits_value(digits: Seq<char>) -> nat
    decreases digits.len(),
{
    if digits.len() == 0 {
        0
    } else {
        digits_value(digits.drop_last()) * 10 + (digits.last() as u32 - '0' as u32) as nat
    }
}

/// The segments that the address holds from the index `i` on: `.name`
/// for a key, `[7]` for an index, `["name"]` or `['name']` for a key
/// with any characters. `None` where something else stands there, or where
/// an index is too large for an array.
pub open spec fn segments_from(s: Seq<char>, i: int) -> Option<Seq<SegmentView>>
    decreases s.len() - i,
{
    if i < 0 || i >= s.len() {
        Some(Seq::empty())
    } else if s[i] == '.' {
        let end = run_end(s, i + 1, CharClass::Name);
        if i + 1 < end <= s.len() {
            then_segments(SegmentView::Key(s.subrange(i + 1, end)), segments_from(s, end))
        } else {
            None
        }
    } else if s[i] == '[' && i + 1 < s.len() && (s[i + 1] == '"' || s[i + 1] == '\'') {
        let end = run_end(s, i + 2, CharClass::Except(s[i + 1]));
        if i + 2 <= end && end + 1 < s.len() && s[end + 1] == ']' {
            then_segments(SegmentView::Key(s.subrange(i + 2, end)), segments_from(s, end + 2))
        } else {
            None
        }
    } else if s[i] == '[' {
        let end = run_end(s, i + 1, CharClass::Digit);
        if i + 1 < end < s.len() && s[end] == ']' && digits_value(s.subrange(i + 1, end))
            < usize::MAX {
            then_segments(
                SegmentView::Index(digits_value(s.subrange(i + 1, end))),
                segments_from(s, end + 1),
            )
        } else {
            None
        }
    } else {
        None
    }
}

/// `first` before the segments that follow, where there are any.
pub open spec fn then_segments(first: SegmentView, rest: Option<Seq<SegmentView>>) -> Option<
    Seq<SegmentView>,
> {
    match rest {
        Some(segments) => Some(seq![first] + segments),
        None => None,
    }
}

/// The segments of an address: the root `$`, then its segments.
pub open spec fn address_segments(s: Seq<char>) -> Result<Seq<SegmentView>, AddressError> {
    if s.len() == 0 || s[0] != '$' {
        Err(AddressError::MissingRoot)
    } else {
        match segments_from(s, 1) {
            Some(segments) => Ok(segments),
            None => Err(AddressError::BadSegment),
        }
    }
}

/// A longer run of digits writes no smaller number.
pub proof fn lemma_digits_value_grows(digits: Seq<char>, n: int)
    requires
        0 <= n <= digits.len(),
        forall|k: int| 0 <= k < digits.len() ==> is_digit(#[trigger] digits[k]),
    ensures
        digits_value(digits.take(n)) <= digits_value(digits),
    decreases digits.len(),
{
    if n < digits.len() {
        let shorter = digits.drop_last();
        assert(shorter.take(n) =~= digits.take(n));
        lemma_digits_value_grows(shorter, n);
    } else {
        assert(digits.take(n) =~= digits);
    }
}

/// Reads the digits from `from` up to `to` as an index: a number below `usize::MAX`.
fn parse_index(s: &Vec<char>, from: usize, to: usize) -> (index: Option<usize>)
    requires
        from <= to <= s.len(),
        forall|k: int| from <= k < to ==> is_digit(#[trigger] s[k]),
    ensures
        index == (if digits_value(s@.subrange(from as int, to as int)) < usize::MAX {
            Some(digits_value(s@.subrange(from as int, to as int)) as usize)
        } else {
            None
        }),
{
    let ghost digits = s@.subrange(from as int, to as int);
    let mut value: usize = 0;
    let mut k: usize = from;
    while k < to
        invariant
            from <= k <= to <= s.len(),
            digits == s@.subrange(from as int, to as int),
            forall|p: int| 0 <= p < digits.len() ==> is_digit(#[trigger] digits[p]),
            value == digits_value(digits.take(k - from)),
            value < usize::MAX,
        decreases to - k,
    {
        assert(digits[k - from] == s[k as int]);
        assert(is_digit(s[k as int]));
        let digit: usize = (s[k] as u32 - '0' as u32) as usize;
        proof {
            assert(digits.take(k - from + 1).drop_last() =~= digits.take(k - from));
            assert(digits.take(k - from + 1).last() == s[k as int]);
            lemma_digits_value_grows(digits, k - from + 1);
        }
        if value > (usize::MAX - 1 - digit) / 10 {
            return None;
        }
        value = value * 10 + digit;
        k += 1;
    }
    assert(digits.take(to - from) =~= digits);
    Some(value)
}

/// An address as it is written: `$`, then keys and indices.
#[derive(Debug, PartialEq, Eq)]
pub struct JsonPath(pub String);

impl JsonPointer {
    /// Resolves an address into its segments.
    pub fn try_from(path: JsonPath) -> (r: Result<JsonPointer, AddressError>)
        ensures
            match r {
                Ok(pointer) => address_segments(path.0@) == Ok::<Seq<SegmentView>, AddressError>(
                    pointer@,
                ) && pointer.wf(),
                Err(e) => address_segments(path.0@) == Err::<Seq<SegmentView>, AddressError>(e),
            },
    {
        let s = chars_of(path.0.as_str());
        if s.len() == 0 || s[0] != '$' {
            return Err(AddressError::MissingRoot);
        }
        let mut segments: Vec<Segment> = Vec::new();
        let mut i: usize = 1;
        while i < s.len()
            invariant
                1 <= i <= s.len(),
                s@ == path.0@,
                s[0] == '$',
                segments_from(s@, 1) == (match segments_from(s@, i as int) {
                    Some(rest) => Some(segments_view(segments@) + rest),
                    None => None,
                }),
                forall|k: int|
                    0 <= k < segments.len() ==> (#[trigger] segments[k] matches Segment::Index(n)
                        ==> n < usize::MAX),
            decreases s.len() - i,
        {
            let ghost before = segments_view(segments@);
            proof {
                lemma_run_end_bounds(s@, i + 1, CharClass::Name);
                lemma_run_end_bounds(s@, i + 1, CharClass::Digit);
                if i + 1 < s.len() {
                    lemma_run_end_bounds(s@, i + 2, CharClass::Except(s[i + 1]));
                }
            }
            let next: usize;
            if s[i] == '.' {
                let end = scan(&s, i + 1, CharClass::Name);
                if end == i + 1 {
                    return Err(AddressError::BadSegment);
                }
                segments.push(Segment::Key(string_of(&slice_of(&s, i + 1, end))));
                next = end;
            } else if s[i] == '[' && i + 1 < s.len() && (s[i + 1] == '"' || s[i + 1] == '\'') {
                let end = scan(&s, i + 2, CharClass::Except(s[i + 1]));
                if end >= s.len() - 1 || s[end + 1] != ']' {
                    return Err(AddressError::BadSegment);
                }
                segments.push(Segment::Key(string_of(&slice_of(&s, i + 2, end))));
                next = end + 2;
            } else if s[i] == '[' {
                let end = scan(&s, i + 1, CharClass::Digit);
                if end == i + 1 || end >= s.len() || s[end] != ']' {
                    return Err(AddressError::BadSegment);
                }
                match parse_index(&s, i + 1, end) {
                    Some(index) => segments.push(Segment::Index(index)),
                    None => {
                        return Err(AddressError::BadSegment);
                    },
                }
                next = end + 1;
            } else {
                return Err(AddressError::BadSegment);
            }
            proof {
                let last = segments[segments.len() - 1]@;
                assert(segments_view(segments@) =~= before + seq![last]);
                assert(segments_from(s@, i as int) == then_segments(
                    last,
                    segments_from(s@, next as int),
                ));
                if let Some(rest) = segments_from(s@, next as int) {
                    assert(before + (seq![last] + rest) =~= (before + seq![last]) + rest);
                }
            }
            i = next;
        }
        proof {
            assert(segments_view(segments@) + Seq::<SegmentView>::empty() =~= segments_view(
                segments@,
            ));
        }
        let pointer = JsonPointer { segments };
        assert forall|k: int| 0 <= k < pointer@.len() implies (#[trigger] pointer@[k] matches SegmentView::Index(
            n,
        ) ==> n < usize::MAX) by {
            assert(pointer@[k] == pointer.segments[k]@);
        }
        Ok(pointer)
    }
}

/// An entry that gets another value keeps its place among the keys.
pub proof fn lemma_key_index_update(entries: Entries, i: int, v: JsonView, k: Seq<char>)
    requires
        0 <= i < entries.len(),
    ensures
        key_index(entries.update(i, (entries[i].0, v)), k) == key_index(entries, k),
{
    lemma_key_index_found(entries, k);
    lemma_key_index(entries.update(i, (entries[i].0, v)), k, key_index(entries, k));
}

/// What was written where an address ends is read there again.
pub proof fn lemma_write_then_read(doc: JsonView, segments: Seq<SegmentView>, v: JsonView)
    requires
        value_at(doc, segments) is Some,
    ensures
        value_at(with_value_at(doc, segments, v), segments) == Some(v),
    decreases segments.len(),
{
    if segments.len() > 0 {
        let rest = segments.drop_first();
        match (doc, segments[0]) {
            (JsonView::Object(entries), SegmentView::Key(k)) => {
                let i = key_index(entries, k) as int;
                lemma_write_then_read(entries[i].1, rest, v);
                lemma_key_index_update(entries, i, with_value_at(entries[i].1, rest, v), k);
            },
            (JsonView::Array(items), SegmentView::Index(i)) => {
                lemma_write_then_read(items[i as int], rest, v);
            },
            _ => {},
        }
    }
}

/// The skeleton of an address holds a null where the address ends.
pub proof fn lemma_skeleton_terminal(segments: Seq<SegmentView>)
    ensures
        value_at(skeleton(segments), segments) == Some(JsonView::Null),
    decreases segments.len(),
{
    if segments.len() > 0 {
        lemma_skeleton_terminal(segments.drop_first());
        match segments[0] {
            SegmentView::Key(k) => {
                let entries = seq![(k, skeleton(segments.drop_first()))];
                lemma_key_index(entries, k, 0);
            },
            SegmentView::Index(i) => {},
        }
    }
}

/// The round trip through a skeleton: for any segments, a value written
/// into the skeleton where the address ends is the value read back along
/// the same segments.
pub proof fn lemma_skeleton_round_trip(segments: Seq<SegmentView>, v: JsonView)
    ensures
        value_at(with_value_at(skeleton(segments), segments, v), segments) == Some(v),
{
    lemma_skeleton_terminal(segments);
    lemma_write_then_read(skeleton(segments), segments, v);
}

/// A skeleton is well-formed.
pub proof fn lemma_skeleton_wf(segments: Seq<SegmentView>)
    ensures
        skeleton(segments).wf(),
    decreases segments.len(),
{
    if segments.len() > 0 {
        lemma_skeleton_wf(segments.drop_first());
        match segments[0] {
            SegmentView::Key(k) => {
                let entries = seq![(k, skeleton(segments.drop_first()))];
                assert(entries_wf(entries));
            },
            SegmentView::Index(i) => {
                assert(items_wf(padded(i, skeleton(segments.drop_first()))));
            },
        }
    }
}

/// A well-formed value written into a well-formed document leaves it well-formed.
pub proof fn lemma_with_value_wf(doc: JsonView, segments: Seq<SegmentView>, v: JsonView)
    requires
        doc.wf(),
        v.wf(),
    ensures
        with_value_at(doc, segments, v).wf(),
    decreases segments.len(),
{
    if segments.len() > 0 {
        let rest = segments.drop_first();
        match (doc, segments[0]) {
            (JsonView::Object(entries), SegmentView::Key(k)) => {
                let i = key_index(entries, k) as int;
                if i < entries.len() {
                    assert(entries[i].1.wf());
                    lemma_with_value_wf(entries[i].1, rest, v);
                    let after = entries.update(i, (entries[i].0, with_value_at(entries[i].1, rest, v)));
                    assert forall|p: int, q: int| 0 <= p < q < after.len() implies (
                    #[trigger] after[p]).0 != (#[trigger] after[q]).0 by {
                        assert(entries[p].0 != entries[q].0);
                    }
                    assert forall|p: int| 0 <= p < after.len() implies (#[trigger] after[p]).1.wf() by {
                        if p != i {
                            assert(entries[p].1.wf());
                        }
                    }
                    assert(entries_wf(after));
                }
            },
            (JsonView::Array(items), SegmentView::Index(i)) => {
                if i < items.len() {
                    assert(items[i as int].wf());
                    lemma_with_value_wf(items[i as int], rest, v);
                    let after = items.update(i as int, with_value_at(items[i as int], rest, v));
                    assert forall|p: int| 0 <= p < after.len() implies (#[trigger] after[p]).wf() by {
                        if p != i {
                            assert(items[p].wf());
                        }
                    }
                    assert(items_wf(after));
                }
            },
            _ => {},
        }
    }
}

/// The key `@context` is addressed by `$.@context`, and by
/// `$["@context"]` as a query spells it: the two resolve to the same segment.
pub proof fn lemma_context_spellings_agree()
    ensures
        address_segments("$.@context"@) == Ok::<Seq<SegmentView>, AddressError>(
            seq![SegmentView::Key("@context"@)],
        ),
        address_segments("$[\"@context\"]"@) == Ok::<Seq<SegmentView>, AddressError>(
            seq![SegmentView::Key("@context"@)],
        ),
{
    reveal_strlit("$.@context");
    reveal_strlit("$[\"@context\"]");
    reveal_strlit("@context");
    let dotted = "$.@context"@;
    let quoted = "$[\"@context\"]"@;
    let key = "@context"@;
    let one = seq![SegmentView::Key(key)];
    reveal_with_fuel(run_end, 10);
    reveal_with_fuel(segments_from, 2);
    assert(run_end(dotted, 2, CharClass::Name) == 10);
    assert(dotted.subrange(2, 10) =~= key);
    assert(segments_from(dotted, 10) == Some(Seq::<SegmentView>::empty()));
    assert(seq![SegmentView::Key(key)] + Seq::<SegmentView>::empty() =~= one);
    assert(segments_from(dotted, 1) == Some(one));
    assert(run_end(quoted, 3, CharClass::Except('"')) == 11);
    assert(quoted.subrange(3, 11) =~= key);
    assert(segments_from(quoted, 13) == Some(Seq::<SegmentView>::empty()));
    assert(segments_from(quoted, 1) == Some(one));
}

/// The skeleton of an address with `v` where the address ends: what a rule
/// merges into its destination.
pub open spec fn leaf_with(segments: Seq<SegmentView>, v: JsonView) -> JsonView {
    with_value_at(skeleton(segments), segments, v)
}

/// The shape of a skeleton that holds a value: the value itself for no
/// segments, an object of one entry for a key, a padded array for an index.
pub proof fn lemma_leaf_shape(segments: Seq<SegmentView>, v: JsonView)
    ensures
        segments.len() == 0 ==> leaf_with(segments, v) == v,
        segments.len() > 0 ==> leaf_with(segments, v) == (match segments[0] {
            SegmentView::Key(k) => JsonView::Object(seq![(k, leaf_with(segments.drop_first(), v))]),
            SegmentView::Index(i) => JsonView::Array(
                padded(i, leaf_with(segments.drop_first(), v)),
            ),
        }),
{
    if segments.len() > 0 {
        let rest = segments.drop_first();
        match segments[0] {
            SegmentView::Key(k) => {
                let entries = seq![(k, skeleton(rest))];
                lemma_key_index(entries, k, 0);
                assert(entries.update(0, (k, leaf_with(rest, v))) =~= seq![(k, leaf_with(rest, v))]);
            },
            SegmentView::Index(i) => {
                let items = padded(i, skeleton(rest));
                assert(items.update(i as int, leaf_with(rest, v)) =~= padded(
                    i,
                    leaf_with(rest, v),
                ));
            },
        }
    }
}

} // verus!
