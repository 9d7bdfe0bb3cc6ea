//! What the parser makes of what the renderer wrote: a cleaned line is a
//! JSON string of the text that the line holds, and for documents of texts
//! in objects and lists the lines are read to the JSON text of the document.

use vstd::prelude::*;
use crate::json::{Entries, JsonView};
use crate::markdown::{
    assembled, cleaned, closed_to, closer, escaped, escaped_char, finished, has_bold, hex_digit,
    indent, lemma_closed_to_stack, line_depth, line_kind, line_text, rendered, rendered_entries,
    rendered_items, run, step, unindented, without_comma, without_marks, Frame, LineKind,
    ParserState,
};
use crate::outside::parsed_json;
use crate::repository::markdown_value;
use crate::text::{
    contains_text, ends_with, is_whitespace, lemma_lines_concat, lemma_one_line, lemma_run_end_is,
    lemma_trimmed_all, lemma_trimmed_front, lemma_trimmed_is, lines_of, occurs_at, starts_with,
    trimmed,
    CharClass,
};

verus! {

/// A text that holds no line end.
pub open spec fn one_line(t: Seq<char>) -> bool {
    forall|i: int| 0 <= i < t.len() ==> #[trigger] t[i] != '\n' && t[i] != '\r'
}

/// No whitespace stands at either end of the text.
pub open spec fn tight(t: Seq<char>) -> bool {
    t.len() > 0 ==> !is_whitespace(t[0]) && !is_whitespace(t.last())
}

/// A text that the line of a value can hold and that the parser reads back as
/// it is: no line end in it, no whitespace at its ends, and neither a dash
/// nor two stars at its start.
pub open spec fn plain_text(t: Seq<char>) -> bool {
    one_line(t) && tight(t) && !starts_with(t, "-"@) && !starts_with(t, "**"@)
}

/// A text that the line of an item of a list can hold and that the parser
/// reads back as it is: no line end in it, no whitespace at its ends, and
/// not the marks that close a key at its end.
pub open spec fn plain_item(t: Seq<char>) -> bool {
    one_line(t) && tight(t) && !ends_with(t, "**:"@)
}

/// A key that a line can hold: one without a line end.
pub open spec fn plain_key(k: Seq<char>) -> bool {
    one_line(k)
}

/// A text as a JSON string: escaped, in double quotes.
pub open spec fn quoted(t: Seq<char>) -> Seq<char> {
    "\""@ + escaped(t) + "\""@
}

/// The number that a hexadecimal digit writes, where the character is one.
pub open spec fn hex_value(c: char) -> Option<nat> {
    if '0' <= c <= '9' {
        Some((c as u32 - '0' as u32) as nat)
    } else if 'a' <= c <= 'f' {
        Some((c as u32 - 'a' as u32 + 10) as nat)
    } else if 'A' <= c <= 'F' {
        Some((c as u32 - 'A' as u32 + 10) as nat)
    } else {
        None
    }
}

/// `first` before the text that follows, where there is one.
pub open spec fn then_text(first: char, rest: Option<Seq<char>>) -> Option<Seq<char>> {
    match rest {
        Some(text) => Some(seq![first] + text),
        None => None,
    }
}

/// The text that stands between the quotes of a JSON string written with
/// the escapes `\"`, `\\` and `\u00` with two hexadecimal digits. `None`
/// where a double quote or a control character stands there bare, or
/// something else behind a backslash: where it is no such string.
pub open spec fn unescaped(s: Seq<char>) -> Option<Seq<char>>
    decreases s.len(),
{
    if s.len() == 0 {
        Some(Seq::empty())
    } else if s[0] == '\\' {
        if s.len() >= 2 && (s[1] == '"' || s[1] == '\\') {
            then_text(s[1], unescaped(s.subrange(2, s.len() as int)))
        } else if s.len() >= 6 && s[1] == 'u' && s[2] == '0' && s[3] == '0' && hex_value(s[4]) is Some
            && hex_value(s[5]) is Some {
            then_text(
                ((16 * hex_value(s[4])->0 + hex_value(s[5])->0) as u8) as char,
                unescaped(s.subrange(6, s.len() as int)),
            )
        } else {
            None
        }
    } else if s[0] == '"' || (s[0] as u32) < 0x20 {
        None
    } else {
        then_text(s[0], unescaped(s.subrange(1, s.len() as int)))
    }
}

/// What two strings stand for, one behind the other, is what they stand
/// for written as one.
proof fn lemma_unescaped_concat(a: Seq<char>, b: Seq<char>)
    requires
        unescaped(a) is Some,
        unescaped(b) is Some,
    ensures
        unescaped(a + b) == Some(unescaped(a)->0 + unescaped(b)->0),
    decreases a.len(),
{
    let whole = a + b;
    if a.len() == 0 {
        assert(whole =~= b);
        assert(unescaped(a)->0 + unescaped(b)->0 =~= unescaped(b)->0);
    } else {
        let taken: int = if a[0] == '\\' {
            if a.len() >= 2 && (a[1] == '"' || a[1] == '\\') {
                2
            } else {
                6
            }
        } else {
            1
        };
        assert(taken <= a.len());
        let rest = a.subrange(taken, a.len() as int);
        assert(whole.subrange(taken, whole.len() as int) =~= rest + b);
        assert(forall|i: int| 0 <= i < taken ==> whole[i] == a[i]);
        lemma_unescaped_concat(rest, b);
        let x = unescaped(rest)->0;
        let y = unescaped(b)->0;
        assert(forall|c: char| seq![c] + (x + y) =~= (seq![c] + x) + y);
    }
}

/// An escaped character stands for the character.
proof fn lemma_escaped_char_reads_back(c: char)
    ensures
        unescaped(escaped_char(c)) == Some(seq![c]),
{
    let s = escaped_char(c);
    let n = c as u32;
    assert(unescaped(Seq::<char>::empty()) == Some(Seq::<char>::empty()));
    assert(seq![c] + Seq::<char>::empty() =~= seq![c]);
    if c == '"' || c == '\\' {
        assert(s.subrange(2, s.len() as int) =~= Seq::<char>::empty());
    } else if n < 0x20 {
        assert(s.subrange(6, s.len() as int) =~= Seq::<char>::empty());
        assert(hex_value(hex_digit(n / 16)) == Some((n / 16) as nat));
        assert(hex_value(hex_digit(n % 16)) == Some((n % 16) as nat));
        assert(((16 * (n / 16) + n % 16) as u8) as char == c);
    } else {
        assert(s.subrange(1, s.len() as int) =~= Seq::<char>::empty());
    }
}

/// Escaping loses nothing and writes a JSON string: what the escaped text
/// stands for between quotes is the text itself, whatever it holds.
pub proof fn lemma_escaped_reads_back(t: Seq<char>)
    ensures
        unescaped(escaped(t)) == Some(t),
    decreases t.len(),
{
    if t.len() > 0 {
        lemma_escaped_reads_back(t.drop_last());
        lemma_escaped_char_reads_back(t.last());
        lemma_unescaped_concat(escaped(t.drop_last()), escaped_char(t.last()));
        assert(t.drop_last() + seq![t.last()] =~= t);
    }
}

/// What a line is cleaned to is a JSON string of the text that the line
/// holds: between its two quotes stands what reads back as that text.
pub proof fn lemma_cleaned_is_string(line: Seq<char>)
    ensures
        cleaned(line).len() >= 2,
        cleaned(line).first() == '"',
        cleaned(line).last() == '"',
        unescaped(cleaned(line).subrange(1, cleaned(line).len() - 1)) == Some(line_text(line)),
{
    reveal_strlit("\"");
    let body = escaped(line_text(line));
    lemma_escaped_reads_back(line_text(line));
    assert(cleaned(line).subrange(1, cleaned(line).len() - 1) =~= body);
}

/// The line of a key at a depth.
pub open spec fn key_line(d: nat, k: Seq<char>) -> Seq<char> {
    indent(d) + "**"@ + k + "**:"@
}

/// The line of a value at a depth.
pub open spec fn value_line(d: nat, t: Seq<char>) -> Seq<char> {
    indent(d) + t
}

/// The line of an item of plain text in a list at a depth: the dash, a
/// space, and the text one level deeper.
pub open spec fn item_line(d: nat, t: Seq<char>) -> Seq<char> {
    indent(d) + "- "@ + indent(d + 1) + t
}

/// The line of an item that opens an object with its first key.
pub open spec fn first_key_line(d: nat, k: Seq<char>) -> Seq<char> {
    indent(d) + "- "@ + indent(d + 1) + "**"@ + k + "**:"@
}

/// The marks of a key come off a key, and nothing of the key does, whatever it holds.
pub proof fn lemma_marks_off(k: Seq<char>)
    ensures
        without_marks("**"@ + k + "**:"@) == k,
{
    reveal_strlit("**");
    reveal_strlit("**:");
    let t = "**"@ + k + "**:"@;
    let n = k.len() as int;
    assert(t.len() == n + 5);
    assert(ends_with(t, "**:"@)) by {
        assert(t.subrange(t.len() - 3, t.len() as int) =~= "**:"@);
    }
    let head = t.subrange(0, t.len() - 3);
    assert(head =~= "**"@ + k);
    assert(starts_with(head, "**"@)) by {
        assert(head.subrange(0, 2) =~= "**"@);
    }
    assert(head.subrange(2, head.len() as int) =~= k);
}

/// What stands behind whitespace and begins with none is what is left
/// without the indentation.
proof fn lemma_unindented(s: Seq<char>, from: int)
    requires
        0 <= from <= s.len(),
        forall|i: int| 0 <= i < from ==> is_whitespace(#[trigger] s[i]),
        from < s.len() ==> !is_whitespace(s[from]),
    ensures
        unindented(s) == s.subrange(from, s.len() as int),
{
    lemma_run_end_is(s, 0, from, CharClass::Whitespace);
}

/// The parser takes the line of an item of plain text for what it is.
pub proof fn lemma_item_line(d: nat, t: Seq<char>)
    requires
        plain_item(t),
    ensures
        line_kind(item_line(d, t)) == LineKind::ArrayItem,
        line_depth(item_line(d, t)) == d,
        cleaned(item_line(d, t)) == quoted(t),
{
    reveal_strlit("**");
    reveal_strlit("**:");
    reveal_strlit("-");
    reveal_strlit("- ");
    let line = item_line(d, t);
    let blank = CharClass::Whitespace;
    let n = t.len() as int;
    let a = 2 * d as int;
    let b = 4 * d as int + 4;
    assert(line.len() == b + n);
    assert(forall|i: int| 0 <= i < a ==> line[i] == ' ');
    assert(line[a] == '-');
    assert(forall|i: int| a < i < b ==> line[i] == ' ');
    assert(forall|i: int| 0 <= i < n ==> line[i + b] == t[i]);
    lemma_run_end_is(line, 0, a, blank);
    assert((2 * d) / 2 == d);
    let to = if n > 0 {
        b + n
    } else {
        a + 1
    };
    if n > 0 {
        assert(line[to - 1] == t.last());
    }
    lemma_trimmed_is(line, a, to, blank);
    let head = line.subrange(a, to);
    assert(trimmed(line, blank) == head);
    assert(head[0] == '-');
    assert(starts_with(head, "-"@)) by {
        assert(head.subrange(0, 1) =~= "-"@);
    }
    assert(!ends_with(head, "**:"@)) by {
        if ends_with(head, "**:"@) {
            let at = head.len() - 3;
            assert(head.subrange(at, head.len() as int)[0] == "**:"@[0]);
            assert(head[at] == '*');
            assert(n >= 3);
            assert(t.subrange(n - 3, n) =~= head.subrange(at, head.len() as int));
        }
    }
    assert(!starts_with(head, "**"@)) by {
        if starts_with(head, "**"@) {
            assert(head.subrange(0, 2)[0] == "**"@[0]);
        }
    }
    // the text of the line
    let tail = head.subrange(1, head.len() as int);
    if n > 0 {
        assert(tail.len() == b - a - 1 + n);
        assert(forall|i: int| 0 <= i < b - a - 1 ==> tail[i] == ' ');
        assert(tail[b - a - 1] == t[0]);
        lemma_unindented(tail, b - a - 1);
        assert(tail.subrange(b - a - 1, tail.len() as int) =~= t);
    } else {
        lemma_unindented(tail, 0);
        assert(tail.subrange(0, tail.len() as int) =~= t);
    }
}

/// The parser takes the line of an item that opens an object for what it is.
pub proof fn lemma_first_key_line(d: nat, k: Seq<char>)
    ensures
        line_kind(first_key_line(d, k)) == LineKind::ArrayOfObjects,
        line_depth(first_key_line(d, k)) == d + 1,
        cleaned(first_key_line(d, k)) == quoted(k),
{
    reveal_strlit("**");
    reveal_strlit("**:");
    reveal_strlit("-");
    reveal_strlit("- ");
    let line = first_key_line(d, k);
    let marked = "**"@ + k + "**:"@;
    let blank = CharClass::Whitespace;
    let n = k.len() as int;
    let a = 2 * d as int;
    let b = 4 * d as int + 4;
    assert(line.len() == b + n + 5);
    assert(forall|i: int| 0 <= i < a ==> line[i] == ' ');
    assert(line[a] == '-');
    assert(forall|i: int| a < i < b ==> line[i] == ' ');
    assert(forall|i: int| 0 <= i < n + 5 ==> line[i + b] == marked[i]);
    assert(marked[0] == '*' && marked.last() == ':');
    assert(line.last() == ':');
    lemma_run_end_is(line, 0, a, blank);
    assert((2 * d) / 2 == d);
    lemma_trimmed_front(line, a, blank);
    let head = line.subrange(a, line.len() as int);
    assert(trimmed(line, blank) == head);
    assert(head[0] == '-');
    assert(starts_with(head, "-"@)) by {
        assert(head.subrange(0, 1) =~= "-"@);
    }
    assert(ends_with(head, "**:"@)) by {
        assert(head.subrange(head.len() - 3, head.len() as int) =~= "**:"@);
    }
    // the text of the line
    let tail = head.subrange(1, head.len() as int);
    assert(forall|i: int| 0 <= i < b - a - 1 ==> tail[i] == ' ');
    assert(tail[b - a - 1] == '*');
    lemma_unindented(tail, b - a - 1);
    assert(tail.subrange(b - a - 1, tail.len() as int) =~= marked);
    lemma_marks_off(k);
}

/// The parser takes the line of a key for what it is: a key at its depth.
pub proof fn lemma_key_line(d: nat, k: Seq<char>)
    ensures
        line_kind(key_line(d, k)) == LineKind::ObjectKey,
        line_depth(key_line(d, k)) == d,
        cleaned(key_line(d, k)) == quoted(k),
{
    reveal_strlit("**");
    reveal_strlit("**:");
    reveal_strlit("-");
    let line = key_line(d, k);
    let t = "**"@ + k + "**:"@;
    let blank = CharClass::Whitespace;
    let n = k.len() as int;
    assert(line.len() == 2 * d + n + 5);
    assert(forall|i: int| 0 <= i < 2 * d ==> line[i] == ' ');
    assert(line[2 * d as int] == '*');
    assert(line.last() == ':');
    assert(line.subrange(2 * d as int, line.len() as int) =~= t);
    lemma_run_end_is(line, 0, 2 * d as int, blank);
    lemma_trimmed_front(line, 2 * d as int, blank);
    assert(trimmed(line, blank) == t);
    assert(!starts_with(t, "-"@)) by {
        if starts_with(t, "-"@) {
            assert(t.subrange(0, 1)[0] == "-"@[0]);
        }
    }
    assert(starts_with(t, "**"@)) by {
        assert(t.subrange(0, 2) =~= "**"@);
    }
    assert((2 * d) / 2 == d);
    lemma_marks_off(k);
}

/// The parser takes the line of a value for what it is.
pub proof fn lemma_value_line(d: nat, t: Seq<char>)
    requires
        plain_text(t),
        d >= 1,
    ensures
        line_kind(value_line(d, t)) == LineKind::Value,
        cleaned(value_line(d, t)) == quoted(t),
{
    let line = value_line(d, t);
    let blank = CharClass::Whitespace;
    let n = t.len() as int;
    assert(line.len() == 2 * d + n);
    assert(forall|i: int| 0 <= i < 2 * d ==> line[i] == ' ');
    assert(forall|i: int| 0 <= i < n ==> line[i + 2 * d] == t[i]);
    if n > 0 {
        assert(line[2 * d as int] == t[0]);
        assert(line.last() == t.last());
        lemma_trimmed_front(line, 2 * d as int, blank);
    } else {
        lemma_trimmed_all(line, blank);
        assert(t =~= Seq::<char>::empty());
    }
    assert(line.subrange(2 * d as int, line.len() as int) =~= t);
    assert(trimmed(line, blank) == t);
}

/// A document that the parser reads back from its lines: a plain text; an
/// object that is not empty, with plain keys and such values; or an array
/// that is not empty, of plain items or of such objects.
pub open spec fn readable(v: JsonView) -> bool
    decreases v, 0nat,
{
    match v {
        JsonView::String(t) => plain_text(t),
        JsonView::Object(entries) => entries.len() > 0 && readable_entries(entries),
        JsonView::Array(items) => items.len() > 0 && (plain_items(items) || object_items(items)),
        _ => false,
    }
}

/// Each entry has a plain key and a readable value.
pub open spec fn readable_entries(entries: Entries) -> bool
    decreases entries, 1nat,
{
    forall|i: int|
        0 <= i < entries.len() ==> plain_key((#[trigger] entries[i]).0) && readable(entries[i].1)
}

/// Each item is a text that the line of an item can hold.
pub open spec fn plain_items(items: Seq<JsonView>) -> bool {
    forall|i: int|
        0 <= i < items.len() ==> (#[trigger] items[i]) is String && plain_item(items[i]->String_0)
}

/// Each item is a readable object.
pub open spec fn object_items(items: Seq<JsonView>) -> bool
    decreases items, 1nat,
{
    forall|i: int| 0 <= i < items.len() ==> (#[trigger] items[i]) is Object && readable(items[i])
}

/// The lines of a document at a depth.
pub open spec fn value_lines(v: JsonView, d: nat) -> Seq<Seq<char>>
    decreases v, 0nat,
{
    match v {
        JsonView::String(t) => seq![value_line(d, t)],
        JsonView::Object(entries) => more_lines(entries, d, 0, entries.len()),
        JsonView::Array(items) => item_lines(items, d, 0, items.len()),
        _ => Seq::empty(),
    }
}

/// The lines of the entries from `m` up to `n` at a depth: for each entry
/// the line of its key and the lines of its value one level deeper.
pub open spec fn more_lines(entries: Entries, d: nat, m: nat, n: nat) -> Seq<Seq<char>>
    decreases entries, n,
{
    if n <= m || n > entries.len() {
        Seq::empty()
    } else {
        more_lines(entries, d, m, (n - 1) as nat) + seq![key_line(d, entries[n - 1].0)]
            + value_lines(entries[n - 1].1, d + 1)
    }
}

/// The lines of the items from `m` up to `n` of a list at a depth.
pub open spec fn item_lines(items: Seq<JsonView>, d: nat, m: nat, n: nat) -> Seq<Seq<char>>
    decreases items, n,
{
    if n <= m || n > items.len() {
        Seq::empty()
    } else {
        item_lines(items, d, m, (n - 1) as nat) + one_item_lines(items[n - 1], d)
    }
}

/// The lines of one item of a list at a depth: the line of a text, or for an
/// object the line that opens it with its first key, the lines of that
/// key's value, and the lines of its other entries.
pub open spec fn one_item_lines(item: JsonView, d: nat) -> Seq<Seq<char>>
    decreases item, 1nat,
{
    match item {
        JsonView::String(t) => seq![item_line(d, t)],
        JsonView::Object(entries) => if entries.len() > 0 {
            seq![first_key_line(d, entries[0].0)] + value_lines(entries[0].1, d + 2) + more_lines(
                entries,
                d + 1,
                1,
                entries.len(),
            )
        } else {
            Seq::empty()
        },
        _ => Seq::empty(),
    }
}

/// The text that the renderer writes for the entries from `m` up to `n`.
pub open spec fn rendered_range(entries: Entries, prefix: Seq<char>, m: nat, n: nat) -> Seq<char>
    decreases n,
{
    if n <= m || n > entries.len() {
        Seq::empty()
    } else {
        rendered_range(entries, prefix, m, (n - 1) as nat) + prefix + "**"@ + entries[n - 1].0
            + "**:\n"@ + rendered(entries[n - 1].1, prefix + "  "@)
    }
}

/// The text of the first entries is the text of the entries from the start.
proof fn lemma_rendered_from_start(entries: Entries, prefix: Seq<char>, n: nat)
    requires
        n <= entries.len(),
    ensures
        rendered_entries(entries, prefix, n) == rendered_range(entries, prefix, 0, n),
    decreases n,
{
    if n > 0 {
        lemma_rendered_from_start(entries, prefix, (n - 1) as nat);
    }
}

/// The text of entries is the text of the first of them and then the text
/// of the others.
proof fn lemma_rendered_split(entries: Entries, prefix: Seq<char>, m: nat, n: nat)
    requires
        m < n <= entries.len(),
    ensures
        rendered_range(entries, prefix, m, n) == prefix + "**"@ + entries[m as int].0 + "**:\n"@
            + rendered(entries[m as int].1, prefix + "  "@) + rendered_range(
            entries,
            prefix,
            m + 1,
            n,
        ),
    decreases n,
{
    let first = prefix + "**"@ + entries[m as int].0 + "**:\n"@ + rendered(
        entries[m as int].1,
        prefix + "  "@,
    );
    if n == m + 1 {
        assert(rendered_range(entries, prefix, m, m) == Seq::<char>::empty());
        assert(rendered_range(entries, prefix, m + 1, n) == Seq::<char>::empty());
        assert(rendered_range(entries, prefix, m, n) =~= first + rendered_range(
            entries,
            prefix,
            m + 1,
            n,
        ));
    } else {
        lemma_rendered_split(entries, prefix, m, (n - 1) as nat);
        assert(rendered_range(entries, prefix, m, n) =~= first + rendered_range(
            entries,
            prefix,
            m + 1,
            n,
        ));
    }
}

/// The line of a key is one line.
proof fn lemma_key_line_is_line(d: nat, k: Seq<char>)
    requires
        plain_key(k),
    ensures
        forall|i: int| 0 <= i < key_line(d, k).len() ==> #[trigger] key_line(d, k)[i] != '\n',
        key_line(d, k).len() > 0,
        key_line(d, k).last() == ':',
{
    reveal_strlit("**:");
    reveal_strlit("**");
    let line = key_line(d, k);
    assert forall|i: int| 0 <= i < line.len() implies #[trigger] line[i] != '\n' by {
        if 2 * d + 2 <= i < 2 * d + 2 + k.len() {
            assert(line[i] == k[i - 2 * d - 2]);
        }
    }
}

/// The rendered text of a text or of a readable document ends its last line.
proof fn lemma_rendered_ends(v: JsonView, d: nat)
    requires
        readable(v) || v is String,
    ensures
        rendered(v, indent(d)).len() > 0,
        rendered(v, indent(d)).last() == '\n',
    decreases v, 0nat,
{
    reveal_strlit("\n");
    reveal_strlit("  ");
    assert(indent(d) + "  "@ =~= indent(d + 1));
    match v {
        JsonView::String(t) => {},
        JsonView::Object(entries) => {
            let n = entries.len();
            assert(decreases_to!(v => v->Object_0));
            lemma_rendered_ends(entries[n - 1].1, d + 1);
            assert(rendered_entries(entries, indent(d), n) == rendered_entries(
                entries,
                indent(d),
                (n - 1) as nat,
            ) + indent(d) + "**"@ + entries[n - 1].0 + "**:\n"@ + rendered(
                entries[n - 1].1,
                indent(d) + "  "@,
            ));
        },
        JsonView::Array(items) => {
            let n = items.len();
            assert(decreases_to!(v => v->Array_0));
            assert(items[n - 1] is String || readable(items[n - 1]));
            lemma_rendered_ends(items[n - 1], d + 1);
            assert(rendered_items(items, indent(d), n) == rendered_items(
                items,
                indent(d),
                (n - 1) as nat,
            ) + indent(d) + "- "@ + rendered(items[n - 1], indent(d) + "  "@));
        },
        _ => {},
    }
}

/// The text of the entries from `m` up to `n` is empty or ends its last line.
proof fn lemma_range_ends(entries: Entries, d: nat, m: nat, n: nat)
    requires
        readable_entries(entries),
        n <= entries.len(),
    ensures
        rendered_range(entries, indent(d), m, n).len() > 0 ==> rendered_range(
            entries,
            indent(d),
            m,
            n,
        ).last() == '\n',
{
    reveal_strlit("  ");
    if n > m {
        assert(indent(d) + "  "@ =~= indent(d + 1));
        lemma_rendered_ends(entries[n - 1].1, d + 1);
    }
}

/// The text of the first `n` items is empty or ends its last line.
proof fn lemma_items_end(items: Seq<JsonView>, d: nat, n: nat)
    requires
        plain_items(items) || object_items(items),
        n <= items.len(),
    ensures
        rendered_items(items, indent(d), n).len() > 0 ==> rendered_items(
            items,
            indent(d),
            n,
        ).last() == '\n',
{
    reveal_strlit("  ");
    if n > 0 {
        assert(indent(d) + "  "@ =~= indent(d + 1));
        assert(items[n - 1] is String || readable(items[n - 1]));
        lemma_rendered_ends(items[n - 1], d + 1);
    }
}

/// The lines of what the renderer writes for a readable document are the
/// lines of the document.
pub proof fn lemma_rendered_lines(v: JsonView, d: nat)
    requires
        readable(v),
    ensures
        lines_of(rendered(v, indent(d))) == value_lines(v, d),
    decreases v, 0nat,
{
    reveal_strlit("\n");
    match v {
        JsonView::String(t) => {
            let line = value_line(d, t);
            assert(rendered(v, indent(d)) =~= line + seq!['\n']);
            assert forall|i: int| 0 <= i < line.len() implies #[trigger] line[i] != '\n' by {
                if i >= 2 * d {
                    assert(line[i] == t[i - 2 * d]);
                }
            }
            if line.len() > 0 {
                if t.len() > 0 {
                    assert(line.last() == t.last());
                }
            }
            lemma_one_line(line);
        },
        JsonView::Object(entries) => {
            assert(decreases_to!(v => v->Object_0));
            lemma_rendered_from_start(entries, indent(d), entries.len());
            lemma_range_lines(entries, d, 0, entries.len());
        },
        JsonView::Array(items) => {
            assert(decreases_to!(v => v->Array_0));
            lemma_items_lines(items, d, items.len());
        },
        _ => {},
    }
}

/// The lines of what the renderer writes for the entries from `m` up to `n`.
proof fn lemma_range_lines(entries: Entries, d: nat, m: nat, n: nat)
    requires
        readable_entries(entries),
        m <= n <= entries.len(),
    ensures
        lines_of(rendered_range(entries, indent(d), m, n)) == more_lines(entries, d, m, n),
    decreases entries, n,
{
    reveal_strlit("\n");
    reveal_strlit("**:\n");
    reveal_strlit("**:");
    reveal_strlit("  ");
    if n > m {
        let k = entries[n - 1].0;
        let v = entries[n - 1].1;
        let before = rendered_range(entries, indent(d), m, (n - 1) as nat);
        let line = key_line(d, k);
        let head = line + seq!['\n'];
        let inner = rendered(v, indent(d + 1));
        assert(indent(d) + "  "@ =~= indent(d + 1));
        assert(rendered_range(entries, indent(d), m, n) =~= before + (head + inner));
        lemma_range_lines(entries, d, m, (n - 1) as nat);
        lemma_range_ends(entries, d, m, (n - 1) as nat);
        lemma_lines_concat(before, head + inner, 0);
        lemma_key_line_is_line(d, k);
        lemma_one_line(line);
        lemma_lines_concat(head, inner, 0);
        lemma_rendered_lines(v, d + 1);
        assert(lines_of(rendered_range(entries, indent(d), m, n)) =~= more_lines(entries, d, m, n));
    } else {
        assert(rendered_range(entries, indent(d), m, n) =~= Seq::<char>::empty());
    }
}

/// The lines of what the renderer writes for the first `n` items of a list.
proof fn lemma_items_lines(items: Seq<JsonView>, d: nat, n: nat)
    requires
        plain_items(items) || object_items(items),
        n <= items.len(),
    ensures
        lines_of(rendered_items(items, indent(d), n)) == item_lines(items, d, 0, n),
    decreases items, n,
{
    reveal_strlit("  ");
    if n > 0 {
        let item = items[n - 1];
        let before = rendered_items(items, indent(d), (n - 1) as nat);
        let last = indent(d) + "- "@ + rendered(item, indent(d + 1));
        assert(indent(d) + "  "@ =~= indent(d + 1));
        assert(rendered_items(items, indent(d), n) =~= before + last);
        lemma_items_lines(items, d, (n - 1) as nat);
        lemma_items_end(items, d, (n - 1) as nat);
        lemma_lines_concat(before, last, 0);
        assert(item is String || readable(item));
        lemma_one_item_lines(item, d);
    } else {
        assert(rendered_items(items, indent(d), 0) =~= Seq::<char>::empty());
    }
}

/// The lines of what the renderer writes for one item of a list.
proof fn lemma_one_item_lines(item: JsonView, d: nat)
    requires
        item matches JsonView::String(t) ==> plain_item(t),
        item is Object ==> readable(item),
        item is String || item is Object,
    ensures
        lines_of(indent(d) + "- "@ + rendered(item, indent(d + 1))) == one_item_lines(item, d),
    decreases item, 1nat,
{
    reveal_strlit("\n");
    reveal_strlit("**:\n");
    reveal_strlit("**:");
    reveal_strlit("**");
    reveal_strlit("- ");
    reveal_strlit("  ");
    match item {
        JsonView::String(t) => {
            let line = item_line(d, t);
            assert(indent(d) + "- "@ + rendered(item, indent(d + 1)) =~= line + seq!['\n']);
            assert forall|i: int| 0 <= i < line.len() implies #[trigger] line[i] != '\n' by {
                if i >= 4 * d + 4 {
                    assert(line[i] == t[i - 4 * d - 4]);
                }
            }
            if t.len() > 0 {
                assert(line.last() == t.last());
            } else {
                assert(line.last() == ' ');
            }
            lemma_one_line(line);
        },
        JsonView::Object(entries) => {
            let n = entries.len();
            let k = entries[0].0;
            let v = entries[0].1;
            let line = first_key_line(d, k);
            let head = line + seq!['\n'];
            let inner = rendered(v, indent(d + 2));
            let rest = rendered_range(entries, indent(d + 1), 1, n);
            assert(indent(d + 1) + "  "@ =~= indent(d + 2));
            lemma_rendered_from_start(entries, indent(d + 1), n);
            lemma_rendered_split(entries, indent(d + 1), 0, n);
            assert(indent(d) + "- "@ + rendered(item, indent(d + 1)) =~= head + inner + rest);
            assert forall|i: int| 0 <= i < line.len() implies #[trigger] line[i] != '\n' by {
                if 4 * d + 6 <= i < 4 * d + 6 + k.len() {
                    assert(line[i] == k[i - 4 * d - 6]);
                }
            }
            assert(line.last() == ':');
            lemma_one_line(line);
            lemma_rendered_ends(v, d + 2);
            lemma_lines_concat(head, inner, 0);
            lemma_lines_concat(head + inner, rest, 0);
            lemma_rendered_lines(v, d + 2);
            lemma_range_lines(entries, d + 1, 1, n);
        },
        _ => {},
    }
}

/// The parser's step, to be opened where a proof looks into it.
#[verifier::opaque]
pub open spec fn stepped(s: ParserState, line: Seq<char>) -> Option<ParserState> {
    step(s, line)
}

/// The state after the first `n` of the lines were read from a state, or
/// `None` where one of them fits nowhere.
pub open spec fn steps(s: ParserState, lines: Seq<Seq<char>>, n: nat) -> Option<ParserState>
    decreases n,
{
    if n == 0 || n > lines.len() {
        Some(s)
    } else {
        match steps(s, lines, (n - 1) as nat) {
            Some(t) => stepped(t, lines[n - 1]),
            None => None,
        }
    }
}

/// The state after all the lines were read from a state.
pub open spec fn read_all(s: ParserState, lines: Seq<Seq<char>>) -> Option<ParserState> {
    steps(s, lines, lines.len())
}

/// Reading the first lines of a longer text is reading those lines.
proof fn lemma_steps_front(s: ParserState, a: Seq<Seq<char>>, b: Seq<Seq<char>>, n: nat)
    requires
        n <= a.len(),
    ensures
        steps(s, a + b, n) == steps(s, a, n),
    decreases n,
{
    if n > 0 {
        lemma_steps_front(s, a, b, (n - 1) as nat);
        assert((a + b)[n - 1] == a[n - 1]);
    }
}

/// Reading lines and then more lines is reading the first and going on
/// from there with the others.
proof fn lemma_steps_behind(s: ParserState, a: Seq<Seq<char>>, b: Seq<Seq<char>>, m: nat)
    requires
        m <= b.len(),
    ensures
        steps(s, a + b, a.len() + m) == (match read_all(s, a) {
            Some(t) => steps(t, b, m),
            None => None,
        }),
    decreases m,
{
    if m == 0 {
        lemma_steps_front(s, a, b, a.len());
    } else {
        lemma_steps_behind(s, a, b, (m - 1) as nat);
        assert((a + b)[a.len() + m - 1] == b[m - 1]);
    }
}

/// Reading two texts one behind the other.
proof fn lemma_read_concat(s: ParserState, a: Seq<Seq<char>>, b: Seq<Seq<char>>)
    ensures
        read_all(s, a + b) == (match read_all(s, a) {
            Some(t) => read_all(t, b),
            None => None,
        }),
{
    lemma_steps_behind(s, a, b, b.len());
}

/// Reading one line is one step.
proof fn lemma_read_one(s: ParserState, line: Seq<char>)
    ensures
        read_all(s, seq![line]) == step(s, line),
{
    reveal(stepped);
    assert(steps(s, seq![line], 0) == Some(s));
}

/// The parser's run from the start is the reading from the empty state.
proof fn lemma_run_is_steps(lines: Seq<Seq<char>>, n: nat)
    requires
        n <= lines.len(),
        steps(
            ParserState { stack: Seq::empty(), pending: false, out: Seq::empty() },
            lines,
            n,
        ) is Some,
    ensures
        run(lines, n) == Ok::<ParserState, nat>(
            steps(
                ParserState { stack: Seq::empty(), pending: false, out: Seq::empty() },
                lines,
                n,
            ).unwrap(),
        ),
    decreases n,
{
    reveal(stepped);
    if n > 0 {
        lemma_run_is_steps(lines, (n - 1) as nat);
    }
}

/// Closing in two goes is closing in one.
proof fn lemma_closed_twice(s: ParserState, first: nat, then: nat)
    requires
        then <= first,
    ensures
        closed_to(closed_to(s, first), then) == closed_to(s, then),
    decreases s.stack.len(),
{
    if s.stack.len() > first {
        let next = ParserState {
            stack: s.stack.drop_last(),
            pending: s.pending,
            out: without_comma(s.out) + closer(s.stack.last()),
        };
        lemma_closed_twice(next, first, then);
    }
}

/// The JSON text of a readable document: texts in double quotes, the
/// entries of an object with commas between them, in braces.
pub open spec fn compact(v: JsonView) -> Seq<char>
    decreases v, 0nat,
{
    match v {
        JsonView::String(t) => quoted(t),
        JsonView::Object(entries) => "{"@ + compact_entries(entries, entries.len()) + "}"@,
        JsonView::Array(items) => "["@ + compact_items(items, items.len()) + "]"@,
        _ => Seq::empty(),
    }
}

/// The JSON text of the first `n` items, with commas between them.
pub open spec fn compact_items(items: Seq<JsonView>, n: nat) -> Seq<char>
    decreases items, n,
{
    if n == 0 || n > items.len() {
        Seq::empty()
    } else if n == 1 {
        compact(items[0])
    } else {
        compact_items(items, (n - 1) as nat) + ","@ + compact(items[n - 1])
    }
}

/// The JSON text of the items from `m` up to `n`, a comma behind each.
pub open spec fn emitted_items(items: Seq<JsonView>, m: nat, n: nat) -> Seq<char>
    decreases n,
{
    if n <= m || n > items.len() {
        Seq::empty()
    } else {
        emitted_items(items, m, (n - 1) as nat) + compact(items[n - 1]) + ","@
    }
}

/// With a comma behind each item, the text is the compact text and one comma.
proof fn lemma_emitted_items_is_compact(items: Seq<JsonView>, n: nat)
    requires
        1 <= n <= items.len(),
    ensures
        emitted_items(items, 0, n) == compact_items(items, n) + ","@,
    decreases n,
{
    if n == 1 {
        assert(emitted_items(items, 0, 0) == Seq::<char>::empty());
        assert(emitted_items(items, 0, 1) =~= compact_items(items, 1) + ","@);
    } else {
        lemma_emitted_items_is_compact(items, (n - 1) as nat);
        assert(emitted_items(items, 0, n) =~= compact_items(items, n) + ","@);
    }
}

/// The text of items is the text of the first of them and then the text of
/// the others.
proof fn lemma_emitted_items_split(items: Seq<JsonView>, m: nat, n: nat)
    requires
        m < n <= items.len(),
    ensures
        emitted_items(items, m, n) == compact(items[m as int]) + ","@ + emitted_items(
            items,
            m + 1,
            n,
        ),
    decreases n,
{
    if n == m + 1 {
        assert(emitted_items(items, m, m) == Seq::<char>::empty());
        assert(emitted_items(items, m + 1, n) == Seq::<char>::empty());
        assert(emitted_items(items, m, n) =~= compact(items[m as int]) + ","@ + emitted_items(
            items,
            m + 1,
            n,
        ));
    } else {
        lemma_emitted_items_split(items, m, (n - 1) as nat);
        assert(emitted_items(items, m, n) =~= compact(items[m as int]) + ","@ + emitted_items(
            items,
            m + 1,
            n,
        ));
    }
}

/// The lines of items are the lines of the first of them and then the lines
/// of the others.
proof fn lemma_item_lines_split(items: Seq<JsonView>, d: nat, m: nat, n: nat)
    requires
        m < n <= items.len(),
    ensures
        item_lines(items, d, m, n) == one_item_lines(items[m as int], d) + item_lines(
            items,
            d,
            m + 1,
            n,
        ),
    decreases n,
{
    if n == m + 1 {
        assert(item_lines(items, d, m, m) == Seq::<Seq<char>>::empty());
        assert(item_lines(items, d, m + 1, n) == Seq::<Seq<char>>::empty());
        assert(item_lines(items, d, m, n) =~= one_item_lines(items[m as int], d) + item_lines(
            items,
            d,
            m + 1,
            n,
        ));
    } else {
        lemma_item_lines_split(items, d, m, (n - 1) as nat);
        assert(item_lines(items, d, m, n) =~= one_item_lines(items[m as int], d) + item_lines(
            items,
            d,
            m + 1,
            n,
        ));
    }
}

/// The JSON text of the first `n` entries, with commas between them.
pub open spec fn compact_entries(entries: Entries, n: nat) -> Seq<char>
    decreases entries, n,
{
    if n == 0 || n > entries.len() {
        Seq::empty()
    } else if n == 1 {
        quoted(entries[0].0) + ":"@ + compact(entries[0].1)
    } else {
        compact_entries(entries, (n - 1) as nat) + ","@ + quoted(entries[n - 1].0) + ":"@ + compact(
            entries[n - 1].1,
        )
    }
}

/// The JSON text of the entries from `m` up to `n`, a comma behind each.
pub open spec fn emitted(entries: Entries, m: nat, n: nat) -> Seq<char>
    decreases n,
{
    if n <= m || n > entries.len() {
        Seq::empty()
    } else {
        emitted(entries, m, (n - 1) as nat) + quoted(entries[n - 1].0) + ":"@ + compact(
            entries[n - 1].1,
        ) + ","@
    }
}

/// With a comma behind each entry, the text is the compact text and one comma.
proof fn lemma_emitted_is_compact(entries: Entries, n: nat)
    requires
        1 <= n <= entries.len(),
    ensures
        emitted(entries, 0, n) == compact_entries(entries, n) + ","@,
    decreases n,
{
    if n == 1 {
        assert(emitted(entries, 0, 0) == Seq::<char>::empty());
        assert(emitted(entries, 0, 1) =~= compact_entries(entries, 1) + ","@);
    } else {
        lemma_emitted_is_compact(entries, (n - 1) as nat);
        assert(emitted(entries, 0, n) =~= compact_entries(entries, n) + ","@);
    }
}

/// The lines of entries are the lines of the first of them and then the
/// lines of the others.
proof fn lemma_more_lines_split(entries: Entries, d: nat, m: nat, n: nat)
    requires
        m < n <= entries.len(),
    ensures
        more_lines(entries, d, m, n) == seq![key_line(d, entries[m as int].0)] + value_lines(
            entries[m as int].1,
            d + 1,
        ) + more_lines(entries, d, m + 1, n),
    decreases n,
{
    if n == m + 1 {
        assert(more_lines(entries, d, m, m) == Seq::<Seq<char>>::empty());
        assert(more_lines(entries, d, m + 1, n) == Seq::<Seq<char>>::empty());
        assert(more_lines(entries, d, m, n) =~= seq![key_line(d, entries[m as int].0)]
            + value_lines(entries[m as int].1, d + 1) + more_lines(entries, d, m + 1, n));
    } else {
        lemma_more_lines_split(entries, d, m, (n - 1) as nat);
        assert(more_lines(entries, d, m, n) =~= seq![key_line(d, entries[m as int].0)]
            + value_lines(entries[m as int].1, d + 1) + more_lines(entries, d, m + 1, n));
    }
}

/// A key waits for its value at the depth `d`.
pub open spec fn awaiting(s: ParserState, d: nat) -> bool {
    s.pending && s.stack.len() == d
}

/// An object is open at the depth `d`, and no key waits.
pub open spec fn object_open(s: ParserState, d: nat) -> bool {
    !s.pending && s.stack.len() > d && s.stack[d as int] == Frame::Obj
}

/// A list of texts is open at the depth `d`, and no key waits.
pub open spec fn list_open(s: ParserState, d: nat) -> bool {
    !s.pending && s.stack.len() == d + 1 && s.stack[d as int] == Frame::Arr
}

/// A list of objects is open at the depth `d`, and no key waits.
pub open spec fn objects_open(s: ParserState, d: nat) -> bool {
    !s.pending && s.stack.len() > d && s.stack[d as int] == Frame::ArrOfObj
}

/// After a key that waits, an item of text opens a list.
proof fn lemma_item_opens(s: ParserState, d: nat, t: Seq<char>)
    requires
        awaiting(s, d),
        plain_item(t),
    ensures
        read_all(s, seq![item_line(d, t)]) == Some(
            ParserState {
                stack: s.stack.push(Frame::Arr),
                pending: false,
                out: s.out + "["@ + quoted(t) + ","@,
            },
        ),
{
    lemma_item_line(d, t);
    lemma_read_one(s, item_line(d, t));
}

/// In an open list of texts, an item of text goes on with the list.
proof fn lemma_item_goes_on(s: ParserState, d: nat, t: Seq<char>)
    requires
        list_open(s, d),
        plain_item(t),
    ensures
        read_all(s, seq![item_line(d, t)]) == Some(
            ParserState { stack: s.stack, pending: false, out: s.out + quoted(t) + ","@ },
        ),
{
    lemma_item_line(d, t);
    lemma_read_one(s, item_line(d, t));
    assert(closed_to(s, d + 1) == s);
}

/// After a key that waits, an item that opens an object opens a list of
/// objects and its first object.
proof fn lemma_first_key_opens(s: ParserState, d: nat, k: Seq<char>)
    requires
        awaiting(s, d),
        plain_key(k),
    ensures
        read_all(s, seq![first_key_line(d, k)]) == Some(
            ParserState {
                stack: s.stack.push(Frame::ArrOfObj).push(Frame::Obj),
                pending: true,
                out: s.out + "[{"@ + quoted(k) + ":"@,
            },
        ),
{
    lemma_first_key_line(d, k);
    lemma_read_one(s, first_key_line(d, k));
}

/// In an open list of objects, an item that opens an object closes the
/// object before it and opens the next.
proof fn lemma_first_key_goes_on(s: ParserState, d: nat, k: Seq<char>)
    requires
        objects_open(s, d),
        plain_key(k),
    ensures
        read_all(s, seq![first_key_line(d, k)]) == Some(
            ParserState {
                stack: s.stack.take(d as int + 1).push(Frame::Obj),
                pending: true,
                out: closed_to(s, d + 1).out + "{"@ + quoted(k) + ":"@,
            },
        ),
{
    lemma_first_key_line(d, k);
    lemma_read_one(s, first_key_line(d, k));
    lemma_closed_to_stack(s, d + 1);
    assert(s.stack.take(d as int + 1).last() == s.stack[d as int]);
    if s.stack.len() == d + 1 {
        assert(s.stack.take(d as int + 1) =~= s.stack);
    }
}

/// After a key that waits, the line of a key one level deeper opens an object.
proof fn lemma_key_opens(s: ParserState, d: nat, k: Seq<char>)
    requires
        awaiting(s, d),
        plain_key(k),
    ensures
        read_all(s, seq![key_line(d, k)]) == Some(
            ParserState {
                stack: s.stack.push(Frame::Obj),
                pending: true,
                out: s.out + "{"@ + quoted(k) + ":"@,
            },
        ),
{
    lemma_key_line(d, k);
    lemma_read_one(s, key_line(d, k));
}

/// In an open object, the line of a key closes what is deeper and goes on.
proof fn lemma_key_goes_on(s: ParserState, d: nat, k: Seq<char>)
    requires
        object_open(s, d),
        plain_key(k),
    ensures
        read_all(s, seq![key_line(d, k)]) == Some(
            ParserState {
                stack: s.stack.take(d as int + 1),
                pending: true,
                out: closed_to(s, d + 1).out + quoted(k) + ":"@,
            },
        ),
{
    lemma_key_line(d, k);
    lemma_read_one(s, key_line(d, k));
    lemma_closed_to_stack(s, d + 1);
    assert(s.stack.take(d as int + 1).last() == s.stack[d as int]);
    if s.stack.len() == d + 1 {
        assert(s.stack.take(d as int + 1) =~= s.stack);
    }
}

/// A plain text is read as the value of the key that waits.
proof fn lemma_text_read(s: ParserState, d: nat, t: Seq<char>)
    requires
        plain_text(t),
        d >= 1,
        s.pending,
    ensures
        read_all(s, seq![value_line(d, t)]) == Some(
            ParserState { stack: s.stack, pending: false, out: s.out + quoted(t) + ","@ },
        ),
{
    lemma_value_line(d, t);
    lemma_read_one(s, value_line(d, t));
}

/// Closing a frame whose members were read: the closing token takes the
/// place of the comma behind the last member.
proof fn lemma_frame_closed(
    t: ParserState,
    d: nat,
    base: Seq<Frame>,
    body: Seq<char>,
    frame: Frame,
)
    requires
        base.len() == d,
        t.stack.len() >= d + 1,
        t.stack.take(d as int + 1) == base.push(frame),
        closed_to(t, d + 1).out == body + ","@,
    ensures
        t.stack.take(d as int) == base,
        closed_to(t, d).out == body + closer(frame),
        closed_to(t, d).stack == base,
{
    reveal_strlit(",");
    lemma_closed_twice(t, d + 1, d);
    lemma_closed_to_stack(t, d + 1);
    let c = closed_to(t, d + 1);
    if t.stack.len() == d + 1 {
        assert(t.stack.take(d as int + 1) =~= t.stack);
    }
    assert(c.stack == base.push(frame));
    assert(c.stack.drop_last() =~= base);
    assert(t.stack.take(d as int) =~= t.stack.take(d as int + 1).take(d as int));
    assert(base.push(frame).take(d as int) =~= base);
    assert(without_comma(c.out) =~= body);
    let next = ParserState {
        stack: c.stack.drop_last(),
        pending: c.pending,
        out: without_comma(c.out) + closer(c.stack.last()),
    };
    assert(closed_to(c, d) == closed_to(next, d));
    assert(closed_to(next, d) == next);
}

/// The text after the entries of an object were read, put together: the
/// first entry and then the others are the compact text and one comma.
proof fn lemma_object_text(
    entries: Entries,
    start: Seq<char>,
    after_first: Seq<char>,
    after_all: Seq<char>,
)
    requires
        entries.len() >= 1,
        after_first == start + "{"@ + quoted(entries[0].0) + ":"@ + compact(entries[0].1) + ","@,
        after_all == after_first + emitted(entries, 1, entries.len()),
    ensures
        after_all == start + "{"@ + compact_entries(entries, entries.len()) + ","@,
{
    let n = entries.len();
    lemma_emitted_is_compact(entries, n);
    lemma_emitted_split(entries, 0, n);
    let first = quoted(entries[0].0) + ":"@ + compact(entries[0].1) + ","@;
    assert(after_first =~= start + "{"@ + first);
    assert(after_all =~= start + "{"@ + (first + emitted(entries, 1, n)));
    assert(first + emitted(entries, 1, n) =~= emitted(entries, 0, n));
    assert(start + "{"@ + (compact_entries(entries, n) + ","@) =~= start + "{"@ + compact_entries(
        entries,
        n,
    ) + ","@);
}

/// Reading what follows the first key of an object: the value of that key
/// and the other entries. Once what they opened is closed, the text has
/// grown by the JSON text of the value and of the other entries, a comma
/// behind each.
proof fn lemma_object_body_read(entries: Entries, d: nat, s: ParserState)
    requires
        readable_entries(entries),
        entries.len() > 0,
        awaiting(s, d + 1),
        s.stack[d as int] == Frame::Obj,
    ensures
        read_all(s, value_lines(entries[0].1, d + 1) + more_lines(entries, d, 1, entries.len()))
            is Some,
        ({
            let t = read_all(
                s,
                value_lines(entries[0].1, d + 1) + more_lines(entries, d, 1, entries.len()),
            ).unwrap();
            &&& !t.pending
            &&& t.stack.len() >= d + 1
            &&& t.stack.take(d as int + 1) == s.stack
            &&& closed_to(t, d + 1).out == s.out + compact(entries[0].1) + ","@ + emitted(
                entries,
                1,
                entries.len(),
            )
        }),
    decreases entries, entries.len() + 1,
{
    let n = entries.len();
    let inner = value_lines(entries[0].1, d + 1);
    let rest = more_lines(entries, d, 1, n);
    lemma_value_read(entries[0].1, d + 1, s);
    let s2 = read_all(s, inner).unwrap();
    assert(object_open(s2, d)) by {
        assert(s2.stack[d as int] == s2.stack.take(d as int + 1)[d as int]);
    }
    lemma_entries_read(entries, d, 1, n, s2);
    lemma_read_concat(s, inner, rest);
}

/// Reading the lines of a readable value for a key that waits: no
/// key waits afterwards, the frames that were open are still open, and once
/// what the value opened is closed, the text has grown by the value's JSON
/// text and a comma.
proof fn lemma_value_read(v: JsonView, d: nat, s: ParserState)
    requires
        readable(v),
        d >= 1,
        awaiting(s, d),
    ensures
        read_all(s, value_lines(v, d)) is Some,
        ({
            let t = read_all(s, value_lines(v, d)).unwrap();
            &&& !t.pending
            &&& t.stack.len() >= d
            &&& t.stack.take(d as int) == s.stack
            &&& closed_to(t, d).out == s.out + compact(v) + ","@
        }),
    decreases v, 1nat,
{
    match v {
        JsonView::String(text) => {
            lemma_text_read(s, d, text);
            assert(s.stack.take(d as int) =~= s.stack);
        },
        JsonView::Object(entries) => {
            assert(decreases_to!(v => v->Object_0));
            let n = entries.len();
            let k = entries[0].0;
            let head = seq![key_line(d, k)];
            let body = value_lines(entries[0].1, d + 1) + more_lines(entries, d, 1, n);
            assert(value_lines(v, d) =~= head + body) by {
                lemma_more_lines_split(entries, d, 0, n);
            }
            lemma_key_opens(s, d, k);
            let s1 = read_all(s, head).unwrap();
            lemma_object_body_read(entries, d, s1);
            let t = read_all(s1, body).unwrap();
            lemma_read_concat(s, head, body);
            lemma_object_text(entries, s.out, s1.out + compact(entries[0].1) + ","@, closed_to(
                t,
                d + 1,
            ).out);
            let text = s.out + "{"@ + compact_entries(entries, n);
            lemma_frame_closed(t, d, s.stack, text, Frame::Obj);
            assert(text + "},"@ =~= s.out + compact(v) + ","@) by {
                reveal_strlit(",");
                reveal_strlit("},");
                reveal_strlit("}");
            }
        },
        JsonView::Array(items) => {
            assert(decreases_to!(v => v->Array_0));
            if plain_items(items) {
                lemma_texts_value_read(items, d, s);
            } else {
                lemma_objects_value_read(items, d, s);
            }
        },
        _ => {},
    }
}

/// Reading the items from `m` up to `n` of a list of texts that is open.
proof fn lemma_texts_read(items: Seq<JsonView>, d: nat, m: nat, n: nat, s: ParserState)
    requires
        plain_items(items),
        m <= n <= items.len(),
        list_open(s, d),
    ensures
        read_all(s, item_lines(items, d, m, n)) == Some(
            ParserState { stack: s.stack, pending: false, out: s.out + emitted_items(items, m, n) },
        ),
    decreases n,
{
    if n <= m {
        assert(item_lines(items, d, m, n) == Seq::<Seq<char>>::empty());
        assert(s.out + emitted_items(items, m, n) =~= s.out);
        assert(s =~= (ParserState { stack: s.stack, pending: false, out: s.out }));
    } else {
        let text = items[n - 1]->String_0;
        assert(items[n - 1] == JsonView::String(text));
        let before = item_lines(items, d, m, (n - 1) as nat);
        lemma_texts_read(items, d, m, (n - 1) as nat, s);
        let t1 = read_all(s, before).unwrap();
        lemma_item_goes_on(t1, d, text);
        assert(one_item_lines(items[n - 1], d) == seq![item_line(d, text)]);
        lemma_read_concat(s, before, seq![item_line(d, text)]);
        assert(compact(items[n - 1]) == quoted(text));
        assert(t1.out + quoted(text) + ","@ =~= s.out + emitted_items(items, m, n));
    }
}

/// Reading a list of texts as the value of a key that waits.
proof fn lemma_texts_value_read(items: Seq<JsonView>, d: nat, s: ParserState)
    requires
        plain_items(items),
        items.len() > 0,
        awaiting(s, d),
    ensures
        read_all(s, item_lines(items, d, 0, items.len())) is Some,
        ({
            let t = read_all(s, item_lines(items, d, 0, items.len())).unwrap();
            &&& !t.pending
            &&& t.stack.len() >= d
            &&& t.stack.take(d as int) == s.stack
            &&& closed_to(t, d).out == s.out + compact(JsonView::Array(items)) + ","@
        }),
{
    let n = items.len();
    let first = items[0]->String_0;
    assert(items[0] == JsonView::String(first));
    assert(compact(items[0]) == quoted(first));
    let head = seq![item_line(d, first)];
    assert(one_item_lines(items[0], d) == head);
    let rest = item_lines(items, d, 1, n);
    lemma_item_lines_split(items, d, 0, n);
    lemma_item_opens(s, d, first);
    let s1 = read_all(s, head).unwrap();
    lemma_texts_read(items, d, 1, n, s1);
    lemma_read_concat(s, head, rest);
    let t = read_all(s1, rest).unwrap();
    lemma_emitted_items_split(items, 0, n);
    lemma_emitted_items_is_compact(items, n);
    let text = s.out + "["@ + compact_items(items, n);
    assert(closed_to(t, d + 1) == t);
    assert(t.out =~= s.out + "["@ + (quoted(first) + ","@ + emitted_items(items, 1, n)));
    assert(t.out =~= text + ","@);
    assert(t.stack.take(d as int + 1) =~= s.stack.push(Frame::Arr));
    lemma_frame_closed(t, d, s.stack, text, Frame::Arr);
    assert(text + "],"@ =~= s.out + compact(JsonView::Array(items)) + ","@) by {
        reveal_strlit(",");
        reveal_strlit("],");
        reveal_strlit("]");
    }
}

/// Reading one object of a list behind the line that opened it: once the
/// object is closed, the text has grown by what stood before its first
/// value, the object's JSON text from there, and a comma.
proof fn lemma_item_body_read(
    entries: Entries,
    d: nat,
    s: ParserState,
    base: Seq<Frame>,
    start: Seq<char>,
)
    requires
        readable_entries(entries),
        entries.len() > 0,
        base.len() == d + 1,
        s.pending,
        s.stack == base.push(Frame::Obj),
        s.out == start + "{"@ + quoted(entries[0].0) + ":"@,
    ensures
        read_all(
            s,
            value_lines(entries[0].1, d + 2) + more_lines(entries, d + 1, 1, entries.len()),
        ) is Some,
        ({
            let t = read_all(
                s,
                value_lines(entries[0].1, d + 2) + more_lines(entries, d + 1, 1, entries.len()),
            ).unwrap();
            &&& !t.pending
            &&& t.stack.len() > d
            &&& t.stack.take(d as int + 1) == base
            &&& closed_to(t, d + 1).out == start + compact(JsonView::Object(entries)) + ","@
        }),
    decreases entries, entries.len() + 2,
{
    let n = entries.len();
    lemma_object_body_read(entries, d + 1, s);
    let t = read_all(s, value_lines(entries[0].1, d + 2) + more_lines(entries, d + 1, 1, n)).unwrap();
    lemma_object_text(entries, start, s.out + compact(entries[0].1) + ","@, closed_to(
        t,
        d + 2,
    ).out);
    let text = start + "{"@ + compact_entries(entries, n);
    lemma_frame_closed(t, d + 1, base, text, Frame::Obj);
    assert(text + "},"@ =~= start + compact(JsonView::Object(entries)) + ","@) by {
        reveal_strlit(",");
        reveal_strlit("},");
        reveal_strlit("}");
    }
}

/// Reading the items from `m` up to `n` of a list of objects that is open.
proof fn lemma_object_items_read(items: Seq<JsonView>, d: nat, m: nat, n: nat, s: ParserState)
    requires
        object_items(items),
        m <= n <= items.len(),
        objects_open(s, d),
    ensures
        read_all(s, item_lines(items, d, m, n)) is Some,
        ({
            let t = read_all(s, item_lines(items, d, m, n)).unwrap();
            &&& objects_open(t, d)
            &&& t.stack.take(d as int + 1) == s.stack.take(d as int + 1)
            &&& closed_to(t, d + 1).out == closed_to(s, d + 1).out + emitted_items(items, m, n)
        }),
    decreases items, n,
{
    if n <= m {
        assert(item_lines(items, d, m, n) == Seq::<Seq<char>>::empty());
        assert(closed_to(s, d + 1).out + emitted_items(items, m, n) =~= closed_to(s, d + 1).out);
    } else {
        let item = items[n - 1];
        assert(readable(item));
        let entries = item->Object_0;
        assert(decreases_to!(item => item->Object_0));
        let before = item_lines(items, d, m, (n - 1) as nat);
        let head = seq![first_key_line(d, entries[0].0)];
        let body = value_lines(entries[0].1, d + 2) + more_lines(entries, d + 1, 1, entries.len());
        assert(one_item_lines(item, d) =~= head + body);
        lemma_object_items_read(items, d, m, (n - 1) as nat, s);
        let t1 = read_all(s, before).unwrap();
        lemma_first_key_goes_on(t1, d, entries[0].0);
        let s2 = read_all(t1, head).unwrap();
        let base = t1.stack.take(d as int + 1);
        lemma_item_body_read(entries, d, s2, base, closed_to(t1, d + 1).out);
        let t = read_all(s2, body).unwrap();
        assert(read_all(s, item_lines(items, d, m, n)) == Some(t)) by {
            lemma_read_concat(t1, head, body);
            lemma_read_concat(s, before, head + body);
        }
        assert(t.stack[d as int] == base[d as int]);
        assert(base[d as int] == t1.stack[d as int]);
        assert(closed_to(t, d + 1).out =~= closed_to(s, d + 1).out + emitted_items(items, m, n));
    }
}

/// Reading a list of objects as the value of a key that waits.
proof fn lemma_objects_value_read(items: Seq<JsonView>, d: nat, s: ParserState)
    requires
        object_items(items),
        items.len() > 0,
        awaiting(s, d),
    ensures
        read_all(s, item_lines(items, d, 0, items.len())) is Some,
        ({
            let t = read_all(s, item_lines(items, d, 0, items.len())).unwrap();
            &&& !t.pending
            &&& t.stack.len() >= d
            &&& t.stack.take(d as int) == s.stack
            &&& closed_to(t, d).out == s.out + compact(JsonView::Array(items)) + ","@
        }),
    decreases items, items.len() + 1,
{
    let n = items.len();
    let item = items[0];
    assert(readable(item));
    let entries = item->Object_0;
    assert(decreases_to!(item => item->Object_0));
    let head = seq![first_key_line(d, entries[0].0)];
    let body = value_lines(entries[0].1, d + 2) + more_lines(entries, d + 1, 1, entries.len());
    let rest = item_lines(items, d, 1, n);
    assert(one_item_lines(item, d) =~= head + body);
    lemma_item_lines_split(items, d, 0, n);
    // the first item opens the list and its first object
    lemma_first_key_opens(s, d, entries[0].0);
    let s2 = read_all(s, head).unwrap();
    let base = s.stack.push(Frame::ArrOfObj);
    assert(s2.out =~= (s.out + "["@) + "{"@ + quoted(entries[0].0) + ":"@) by {
        reveal_strlit("[{");
        reveal_strlit("[");
        reveal_strlit("{");
    }
    lemma_item_body_read(entries, d, s2, base, s.out + "["@);
    let t0 = read_all(s2, body).unwrap();
    assert(objects_open(t0, d)) by {
        assert(t0.stack[d as int] == base[d as int]);
    }
    // the other items
    lemma_object_items_read(items, d, 1, n, t0);
    let t = read_all(t0, rest).unwrap();
    assert(read_all(s, item_lines(items, d, 0, n)) == Some(t)) by {
        lemma_read_concat(s, head, body);
        lemma_read_concat(s, head + body, rest);
    }
    // closing the list
    lemma_emitted_items_split(items, 0, n);
    lemma_emitted_items_is_compact(items, n);
    let text = s.out + "["@ + compact_items(items, n);
    assert(item == JsonView::Object(entries));
    assert(closed_to(t, d + 1).out =~= s.out + "["@ + (compact(item) + ","@ + emitted_items(
        items,
        1,
        n,
    )));
    assert(closed_to(t, d + 1).out =~= text + ","@);
    lemma_frame_closed(t, d, s.stack, text, Frame::ArrOfObj);
    assert(text + "],"@ =~= s.out + compact(JsonView::Array(items)) + ","@) by {
        reveal_strlit(",");
        reveal_strlit("],");
        reveal_strlit("]");
    }
}

/// The text of entries is the text of the first of them and then the
/// text of the others.
proof fn lemma_emitted_split(entries: Entries, m: nat, n: nat)
    requires
        m < n <= entries.len(),
    ensures
        emitted(entries, m, n) == quoted(entries[m as int].0) + ":"@ + compact(entries[m as int].1)
            + ","@ + emitted(entries, m + 1, n),
    decreases n,
{
    if n == m + 1 {
        assert(emitted(entries, m, m) == Seq::<char>::empty());
        assert(emitted(entries, m + 1, n) == Seq::<char>::empty());
        assert(emitted(entries, m, n) =~= quoted(entries[m as int].0) + ":"@ + compact(
            entries[m as int].1,
        ) + ","@ + emitted(entries, m + 1, n));
    } else {
        lemma_emitted_split(entries, m, (n - 1) as nat);
        assert(emitted(entries, m, n) =~= quoted(entries[m as int].0) + ":"@ + compact(
            entries[m as int].1,
        ) + ","@ + emitted(entries, m + 1, n));
    }
}

/// Reading the lines of the entries from `m` up to `n` in an open object:
/// the object is open afterwards, and once what the entries opened is
/// closed, the text has grown by their JSON text, a comma behind each.
proof fn lemma_entries_read(entries: Entries, d: nat, m: nat, n: nat, s: ParserState)
    requires
        readable_entries(entries),
        m <= n <= entries.len(),
        object_open(s, d),
    ensures
        read_all(s, more_lines(entries, d, m, n)) is Some,
        ({
            let t = read_all(s, more_lines(entries, d, m, n)).unwrap();
            &&& object_open(t, d)
            &&& t.stack.take(d as int + 1) == s.stack.take(d as int + 1)
            &&& closed_to(t, d + 1).out == closed_to(s, d + 1).out + emitted(entries, m, n)
        }),
    decreases entries, n,
{
    if n <= m {
        assert(more_lines(entries, d, m, n) == Seq::<Seq<char>>::empty());
        assert(closed_to(s, d + 1).out + emitted(entries, m, n) =~= closed_to(s, d + 1).out);
    } else {
        let k = entries[n - 1].0;
        let v = entries[n - 1].1;
        let before = more_lines(entries, d, m, (n - 1) as nat);
        let head = seq![key_line(d, k)];
        let inner = value_lines(v, d + 1);
        lemma_entries_read(entries, d, m, (n - 1) as nat, s);
        let t1 = read_all(s, before).unwrap();
        lemma_key_goes_on(t1, d, k);
        let s2 = read_all(t1, head).unwrap();
        lemma_value_read(v, d + 1, s2);
        let t = read_all(s2, inner).unwrap();
        assert(read_all(s, more_lines(entries, d, m, n)) == Some(t)) by {
            lemma_read_concat(s, before, head);
            lemma_read_concat(s, before + head, inner);
        }
        assert(t.stack[d as int] == t.stack.take(d as int + 1)[d as int]);
        assert(s2.stack[d as int] == t1.stack[d as int]);
        assert(closed_to(t, d + 1).out =~= closed_to(s, d + 1).out + emitted(entries, m, n));
    }
}

/// The parser reads what the renderer wrote: for an object of plain keys
/// and readable values, the lines of its rendered text, behind the empty
/// line that opens the root, make the JSON text of the object.
pub proof fn lemma_rendered_is_read(entries: Entries)
    requires
        readable_entries(entries),
    ensures
        assembled(
            seq![Seq::<char>::empty()] + lines_of(rendered(JsonView::Object(entries), indent(0))),
        ) == Ok::<Seq<char>, nat>(compact(JsonView::Object(entries))),
{
    let v = JsonView::Object(entries);
    let n = entries.len();
    let blank = seq![Seq::<char>::empty()];
    let start = ParserState { stack: Seq::empty(), pending: false, out: Seq::empty() };
    let lines = more_lines(entries, 0, 0, n);
    reveal_strlit("{");
    reveal_strlit("}");
    reveal_strlit(",");
    lemma_rendered_from_start(entries, indent(0), n);
    lemma_range_lines(entries, 0, 0, n);
    // the empty line opens the root
    lemma_read_one(start, Seq::<char>::empty());
    let s0 = ParserState { stack: seq![Frame::Obj], pending: false, out: start.out + "{"@ };
    assert(read_all(start, blank) == Some(s0));
    // the entries of the root
    lemma_entries_read(entries, 0, 0, n, s0);
    lemma_read_concat(start, blank, lines);
    let t = read_all(s0, lines).unwrap();
    lemma_run_is_steps(blank + lines, (blank + lines).len());
    assert(run(blank + lines, (blank + lines).len()) == Ok::<ParserState, nat>(t));
    assert(closed_to(s0, 1) == s0);
    let text = closed_to(t, 1).out;
    assert(text == s0.out + emitted(entries, 0, n));
    if n > 0 {
        lemma_emitted_is_compact(entries, n);
        let body = "{"@ + compact_entries(entries, n);
        assert(text =~= body + ","@);
        assert(without_comma(text) =~= body);
    } else {
        assert(emitted(entries, 0, 0) == Seq::<char>::empty());
        assert(text =~= "{"@);
        assert(without_comma(text) == text);
        assert(compact_entries(entries, 0) == Seq::<char>::empty());
        assert(text + "}"@ =~= "{"@ + compact_entries(entries, 0) + "}"@);
    }
    assert(finished(t) == Some(compact(v)));
}

/// The round trip through the text, up to the reading of JSON: for an
/// object that is not empty, of plain keys and readable values, the
/// document that its rendered text holds is what is read from the JSON text
/// of the object.
pub proof fn lemma_round_trip(entries: Entries)
    requires
        readable_entries(entries),
        entries.len() > 0,
    ensures
        markdown_value(rendered(JsonView::Object(entries), indent(0))) == parsed_json(
            compact(JsonView::Object(entries)),
        ),
{
    let v = JsonView::Object(entries);
    let lines = seq![Seq::<char>::empty()] + lines_of(rendered(v, indent(0)));
    lemma_rendered_is_read(entries);
    lemma_rendered_from_start(entries, indent(0), entries.len());
    lemma_range_lines(entries, 0, 0, entries.len());
    lemma_more_lines_split(entries, 0, 0, entries.len());
    let first = key_line(0, entries[0].0);
    assert(lines[1] == first);
    assert(contains_text(first, "**"@)) by {
        reveal_strlit("**");
        assert(first.subrange(0, 2) =~= "**"@);
        assert(occurs_at(first, 0, "**"@));
    }
    assert(has_bold(lines));
}

} // verus!
