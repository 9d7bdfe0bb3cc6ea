//! JSON documents: the executable tree and its mathematical model.

use vstd::prelude::*;
use crate::outside::{parse_json, parsed_json, print_json, printed_json};
use crate::text::chars_of;

verus! {

/// A JSON document. An object keeps its entries in insertion order.
#[derive(Debug, PartialEq, Eq)]
pub enum Json {
    Null,
    Bool(bool),
    /// A number, held as its decimal text.
    Number(String),
    String(String),
    Array(Vec<Json>),
    Object(Vec<(String, Json)>),
}

/// The mathematical model of a JSON document.
#[verifier::ext_equal]
pub enum JsonView {
    Null,
    Bool(bool),
    Number(Seq<char>),
    String(Seq<char>),
    Array(Seq<JsonView>),
    Object(Seq<(Seq<char>, JsonView)>),
}

/// The entries of an object's model: key text and value model, in order.
pub type Entries = Seq<(Seq<char>, JsonView)>;

/// The models of a sequence of documents.
pub open spec fn items_view(items: Seq<Json>) -> Seq<JsonView>
    decreases items,
{
    Seq::new(
        items.len(),
        |i: int|
            if 0 <= i < items.len() {
                items[i].view()
            } else {
                JsonView::Null
            },
    )
}

/// The models of a sequence of object entries.
pub open spec fn entries_view(entries: Seq<(String, Json)>) -> Entries
    decreases entries,
{
    Seq::new(
        entries.len(),
        |i: int|
            if 0 <= i < entries.len() {
                (entries[i].0@, entries[i].1.view())
            } else {
                (Seq::empty(), JsonView::Null)
            },
    )
}

impl View for Json {
    type V = JsonView;

    open spec fn view(&self) -> JsonView
        decreases self,
    {
        match self {
            Json::Null => JsonView::Null,
            Json::Bool(b) => JsonView::Bool(*b),
            Json::Number(t) => JsonView::Number(t@),
            Json::String(s) => JsonView::String(s@),
            Json::Array(items) => JsonView::Array(items_view(items@)),
            Json::Object(entries) => JsonView::Object(entries_view(entries@)),
        }
    }
}

/// Index of the first entry of `a` with key `k`, or `a.len()` where there is none.
pub open spec fn key_index(a: Entries, k: Seq<char>) -> nat
    decreases a.len(),
{
    if a.len() == 0 {
        0
    } else if a[0].0 == k {
        0
    } else {
        1 + key_index(a.drop_first(), k)
    }
}

/// The value that the first entry with key `k` holds.
pub open spec fn entry_value(a: Entries, k: Seq<char>) -> Option<JsonView> {
    if key_index(a, k) < a.len() {
        Some(a[key_index(a, k) as int].1)
    } else {
        None
    }
}

/// No key occurs in two entries.
pub open spec fn unique_keys(a: Entries) -> bool {
    forall|i: int, j: int| 0 <= i < j < a.len() ==> (#[trigger] a[i]).0 != (#[trigger] a[j]).0
}

pub open spec fn is_digit(c: char) -> bool {
    '0' <= c <= '9'
}

/// The index behind the digits that start at `i`.
pub open spec fn digits_end(s: Seq<char>, i: int) -> int
    decreases s.len() - i,
{
    if 0 <= i < s.len() && is_digit(s[i]) {
        digits_end(s, i + 1)
    } else {
        i
    }
}

/// The index behind an optional fraction that starts at `i`, or -1 where a
/// point is followed by no digit.
pub open spec fn fraction_end(s: Seq<char>, i: int) -> int {
    if 0 <= i < s.len() && s[i] == '.' {
        if digits_end(s, i + 1) > i + 1 {
            digits_end(s, i + 1)
        } else {
            -1
        }
    } else {
        i
    }
}

/// The index behind an optional exponent that starts at `i`, or -1 where the
/// exponent mark is followed by no digit.
pub open spec fn exponent_end(s: Seq<char>, i: int) -> int {
    if 0 <= i < s.len() && (s[i] == 'e' || s[i] == 'E') {
        let j = if i + 1 < s.len() && (s[i + 1] == '+' || s[i + 1] == '-') {
            i + 2
        } else {
            i + 1
        };
        if digits_end(s, j) > j {
            digits_end(s, j)
        } else {
            -1
        }
    } else {
        i
    }
}

/// `s` is a number in JSON's grammar: an optional minus, an integer part
/// without a leading zero, an optional fraction, an optional exponent.
pub open spec fn is_number_text(s: Seq<char>) -> bool {
    let start: int = if s.len() > 0 && s[0] == '-' {
        1
    } else {
        0
    };
    let int_end = digits_end(s, start);
    &&& int_end > start
    &&& s[start] == '0' ==> int_end == start + 1
    &&& fraction_end(s, int_end) >= 0
    &&& exponent_end(s, fraction_end(s, int_end)) == s.len()
}

/// Each item is well-formed.
pub open spec fn items_wf(items: Seq<JsonView>) -> bool
    decreases items,
{
    forall|i: int| 0 <= i < items.len() ==> (#[trigger] items[i]).wf()
}

/// No key occurs twice, and each value is well-formed.
pub open spec fn entries_wf(entries: Entries) -> bool
    decreases entries,
{
    &&& unique_keys(entries)
    &&& forall|i: int| 0 <= i < entries.len() ==> (#[trigger] entries[i]).1.wf()
}

impl JsonView {
    /// Well-formed: number texts are numbers, and no object holds a key twice.
    pub open spec fn wf(self) -> bool
        decreases self,
    {
        match self {
            JsonView::Number(t) => is_number_text(t),
            JsonView::Array(items) => items_wf(items),
            JsonView::Object(entries) => entries_wf(entries),
            _ => true,
        }
    }
}

/// `key_index` is at most the length; below it, it is the least index that
/// holds the key.
pub proof fn lemma_key_index_found(a: Entries, k: Seq<char>)
    ensures
        key_index(a, k) <= a.len(),
        key_index(a, k) < a.len() ==> a[key_index(a, k) as int].0 == k,
        forall|j: int| 0 <= j < key_index(a, k) ==> (#[trigger] a[j]).0 != k,
    decreases a.len(),
{
    if a.len() > 0 && a[0].0 != k {
        let rest = a.drop_first();
        lemma_key_index_found(rest, k);
        assert forall|j: int| 0 <= j < key_index(a, k) implies (#[trigger] a[j]).0 != k by {
            if j > 0 {
                assert(a[j] == rest[j - 1]);
            }
        }
    }
}

/// An index whose entry holds the key, with no earlier one that does, is `key_index`.
pub proof fn lemma_key_index(a: Entries, k: Seq<char>, i: nat)
    requires
        i <= a.len(),
        forall|j: int| 0 <= j < i ==> (#[trigger] a[j]).0 != k,
        i < a.len() ==> a[i as int].0 == k,
    ensures
        key_index(a, k) == i,
    decreases a.len(),
{
    if a.len() > 0 && i > 0 {
        let rest = a.drop_first();
        assert forall|j: int| 0 <= j < i - 1 implies (#[trigger] rest[j]).0 != k by {
            assert(rest[j] == a[j + 1]);
        }
        lemma_key_index(rest, k, (i - 1) as nat);
    }
}

/// Where keys are unique, each entry is the first one with its key.
pub proof fn lemma_unique_key_index(a: Entries, i: int)
    requires
        unique_keys(a),
        0 <= i < a.len(),
    ensures
        key_index(a, a[i].0) == i,
{
    lemma_key_index(a, a[i].0, i as nat);
}

impl Clone for Json {
    fn clone(&self) -> (copy: Json)
        ensures
            copy@ == self@,
        decreases self@,
    {
        match self {
            Json::Null => Json::Null,
            Json::Bool(b) => Json::Bool(*b),
            Json::Number(t) => Json::Number(t.clone()),
            Json::String(s) => Json::String(s.clone()),
            Json::Array(items) => {
                let mut copies: Vec<Json> = Vec::new();
                let mut i: usize = 0;
                while i < items.len()
                    invariant
                        i <= items.len(),
                        self@ == JsonView::Array(items_view(items@)),
                        items_view(copies@) == items_view(items@).take(i as int),
                    decreases items.len() - i,
                {
                    proof {
                        let all = items_view(items@);
                        assert(all[i as int] == items[i as int]@);
                        assert(decreases_to!(self@ => self@->Array_0));
                        assert(decreases_to!(all => all[i as int]));
                    }
                    let item = items[i].clone();
                    let ghost before = items_view(copies@);
                    copies.push(item);
                    i += 1;
                    assert(items_view(copies@) =~= before.push(items[i - 1]@));
                    assert(items_view(copies@) =~= items_view(items@).take(i as int));
                }
                assert(items_view(copies@) =~= items_view(items@));
                Json::Array(copies)
            },
            Json::Object(entries) => {
                let mut copies: Vec<(String, Json)> = Vec::new();
                let mut i: usize = 0;
                while i < entries.len()
                    invariant
                        i <= entries.len(),
                        self@ == JsonView::Object(entries_view(entries@)),
                        entries_view(copies@) == entries_view(entries@).take(i as int),
                    decreases entries.len() - i,
                {
                    proof {
                        let all = entries_view(entries@);
                        assert(all[i as int] == (entries[i as int].0@, entries[i as int].1@));
                        assert(decreases_to!(self@ => self@->Object_0));
                        assert(decreases_to!(all => all[i as int]));
                        assert(decreases_to!(all[i as int] => all[i as int].1));
                    }
                    let key = entries[i].0.clone();
                    let value = entries[i].1.clone();
                    let ghost before = entries_view(copies@);
                    copies.push((key, value));
                    i += 1;
                    assert(entries_view(copies@) =~= before.push(
                        (entries[i - 1].0@, entries[i - 1].1@),
                    ));
                    assert(entries_view(copies@) =~= entries_view(entries@).take(i as int));
                }
                assert(entries_view(copies@) =~= entries_view(entries@));
                Json::Object(copies)
            },
        }
    }
}

/// The index behind the digits that start at `i`.
fn skip_digits(s: &Vec<char>, i: usize) -> (j: usize)
    requires
        i <= s.len(),
    ensures
        j == digits_end(s@, i as int),
        i <= j <= s.len(),
{
    let mut j: usize = i;
    while j < s.len() && '0' <= s[j] && s[j] <= '9'
        invariant
            i <= j <= s.len(),
            digits_end(s@, i as int) == digits_end(s@, j as int),
        decreases s.len() - j,
    {
        j += 1;
    }
    j
}

/// Whether the characters are a number in JSON's grammar.
pub fn is_number(s: &Vec<char>) -> (b: bool)
    ensures
        b == is_number_text(s@),
{
    let n = s.len();
    let start: usize = if n > 0 && s[0] == '-' {
        1
    } else {
        0
    };
    let int_end = skip_digits(s, start);
    if int_end == start {
        return false;
    }
    if s[start] == '0' && int_end != start + 1 {
        return false;
    }
    let mut at: usize = int_end;
    if at < n && s[at] == '.' {
        let end = skip_digits(s, at + 1);
        if end == at + 1 {
            return false;
        }
        at = end;
    }
    assert(at == fraction_end(s@, int_end as int));
    if at < n && (s[at] == 'e' || s[at] == 'E') {
        let digits: usize = if at + 1 < n && (s[at + 1] == '+' || s[at + 1] == '-') {
            at + 2
        } else {
            at + 1
        };
        let end = skip_digits(s, digits);
        if end == digits {
            return false;
        }
        at = end;
    }
    at == n
}

impl Json {
    /// Whether no key occurs twice among the entries.
    pub fn keys_are_unique(entries: &Vec<(String, Json)>) -> (b: bool)
        ensures
            b == unique_keys(entries_view(entries@)),
    {
        let ghost all = entries_view(entries@);
        let mut j: usize = 0;
        while j < entries.len()
            invariant
                j <= entries.len(),
                all == entries_view(entries@),
                forall|p: int, q: int| 0 <= p < q < j ==> (#[trigger] all[p]).0 != (#[trigger] all[q]).0,
            decreases entries.len() - j,
        {
            let mut i: usize = 0;
            while i < j
                invariant
                    i <= j < entries.len(),
                    all == entries_view(entries@),
                    forall|p: int| 0 <= p < i ==> (#[trigger] all[p]).0 != all[j as int].0,
                decreases j - i,
            {
                if entries[i].0 == entries[j].0 {
                    assert(all[i as int].0 == all[j as int].0);
                    return false;
                }
                i += 1;
            }
            j += 1;
        }
        true
    }

    /// Whether the document is well-formed.
    pub fn is_wf(&self) -> (b: bool)
        ensures
            b == self@.wf(),
        decreases self@,
    {
        match self {
            Json::Number(t) => {
                let chars = chars_of(t.as_str());
                is_number(&chars)
            },
            Json::Array(items) => {
                let ghost all = items_view(items@);
                let mut i: usize = 0;
                while i < items.len()
                    invariant
                        i <= items.len(),
                        all == items_view(items@),
                        self@ == JsonView::Array(all),
                        forall|p: int| 0 <= p < i ==> (#[trigger] all[p]).wf(),
                    decreases items.len() - i,
                {
                    proof {
                        assert(all[i as int] == items[i as int]@);
                        assert(decreases_to!(self@ => self@->Array_0));
                        assert(decreases_to!(all => all[i as int]));
                    }
                    if !items[i].is_wf() {
                        return false;
                    }
                    i += 1;
                }
                true
            },
            Json::Object(entries) => {
                if !Json::keys_are_unique(entries) {
                    return false;
                }
                let ghost all = entries_view(entries@);
                let mut i: usize = 0;
                while i < entries.len()
                    invariant
                        i <= entries.len(),
                        all == entries_view(entries@),
                        self@ == JsonView::Object(all),
                        unique_keys(all),
                        forall|p: int| 0 <= p < i ==> (#[trigger] all[p]).1.wf(),
                    decreases entries.len() - i,
                {
                    proof {
                        assert(all[i as int] == (entries[i as int].0@, entries[i as int].1@));
                        assert(decreases_to!(self@ => self@->Object_0));
                        assert(decreases_to!(all => all[i as int]));
                        assert(decreases_to!(all[i as int] => all[i as int].1));
                    }
                    if !entries[i].1.is_wf() {
                        return false;
                    }
                    i += 1;
                }
                true
            },
            _ => true,
        }
    }
}

/// The model of a document that may be missing.
pub open spec fn option_view(o: Option<Json>) -> Option<JsonView> {
    match o {
        Some(j) => Some(j@),
        None => None,
    }
}

impl Json {
    /// Reads a document from JSON text.
    pub fn parse(text: &str) -> (doc: Option<Json>)
        ensures
            option_view(doc) == parsed_json(text@),
            doc matches Some(j) ==> j@.wf(),
    {
        parse_json(text)
    }

    /// The document as JSON text; `None` for a document that is not well-formed.
    pub fn to_text(&self) -> (text: Option<String>)
        ensures
            text.is_some() == self@.wf(),
            text matches Some(t) ==> t@ == printed_json(self@),
    {
        if self.is_wf() {
            Some(print_json(self))
        } else {
            None
        }
    }
}

} // verus!
