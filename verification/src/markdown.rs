//! The codec between documents and an indented, markdown-like text: a
//! renderer, a line classifier, and a parser that reads the lines with a
//! stack of open frames.

use vstd::prelude::*;
use crate::json::{entries_view, items_view, Entries, Json, JsonView};
use crate::outside::{parse_json, parsed_json};
use crate::text::{
    append_chars, chars_of, contains_text, ends_with, has_prefix, has_suffix, has_text, push_text,
    run_end, scan, slice_of, starts_with, string_of, trim, trimmed, CharClass,
};

verus! {

/// The indentation of a nesting depth: two spaces for each level.
pub open spec fn indent(depth: nat) -> Seq<char> {
    Seq::new(2 * depth, |i: int| ' ')
}

/// The text of a document whose lines begin with `prefix`: a key line for
/// each entry of an object and a dash for each item of an array, each
/// followed by the value two spaces deeper, and a line for a scalar.
pub open spec fn rendered(j: JsonView, prefix: Seq<char>) -> Seq<char>
    decreases j, 0nat,
{
    match j {
        JsonView::Null => prefix + "null\n"@,
        JsonView::Bool(b) => prefix + (if b {
            "true\n"@
        } else {
            "false\n"@
        }),
        JsonView::Number(t) => prefix + t + "\n"@,
        JsonView::String(s) => prefix + s + "\n"@,
        JsonView::Array(items) => rendered_items(items, prefix, items.len()),
        JsonView::Object(entries) => rendered_entries(entries, prefix, entries.len()),
    }
}

/// The text of the first `n` items of an array.
pub open spec fn rendered_items(items: Seq<JsonView>, prefix: Seq<char>, n: nat) -> Seq<char>
    decreases items, n,
{
    if n == 0 || n > items.len() {
        Seq::empty()
    } else {
        rendered_items(items, prefix, (n - 1) as nat) + prefix + "- "@ + rendered(
            items[n - 1],
            prefix + "  "@,
        )
    }
}

/// The text of the first `n` entries of an object.
pub open spec fn rendered_entries(entries: Entries, prefix: Seq<char>, n: nat) -> Seq<char>
    decreases entries, n,
{
    if n == 0 || n > entries.len() {
        Seq::empty()
    } else {
        rendered_entries(entries, prefix, (n - 1) as nat) + prefix + "**"@ + entries[n - 1].0
            + "**:\n"@ + rendered(entries[n - 1].1, prefix + "  "@)
    }
}

/// Appends the text of `json` to `out`.
fn render_into(json: &Json, prefix: &Vec<char>, out: &mut Vec<char>)
    ensures
        final(out)@ == old(out)@ + rendered(json@, prefix@),
    decreases json@,
{
    let ghost start = out@;
    match json {
        Json::Null => {
            append_chars(out, prefix);
            push_text(out, "null\n");
            assert(out@ =~= start + (prefix@ + "null\n"@));
        },
        Json::Bool(b) => {
            append_chars(out, prefix);
            if *b {
                push_text(out, "true\n");
            } else {
                push_text(out, "false\n");
            }
            assert(out@ =~= start + rendered(json@, prefix@));
        },
        Json::Number(t) => {
            append_chars(out, prefix);
            push_text(out, t.as_str());
            push_text(out, "\n");
            assert(out@ =~= start + (prefix@ + t@ + "\n"@));
        },
        Json::String(s) => {
            append_chars(out, prefix);
            push_text(out, s.as_str());
            push_text(out, "\n");
            assert(out@ =~= start + (prefix@ + s@ + "\n"@));
        },
        Json::Array(items) => {
            let mut deeper = prefix.clone();
            push_text(&mut deeper, "  ");
            let ghost all = items_view(items@);
            let mut i: usize = 0;
            while i < items.len()
                invariant
                    i <= items.len(),
                    all == items_view(items@),
                    json@ == JsonView::Array(all),
                    deeper@ == prefix@ + "  "@,
                    out@ == start + rendered_items(all, prefix@, i as nat),
                decreases items.len() - i,
            {
                let ghost before = out@;
                proof {
                    assert(all[i as int] == items[i as int]@);
                    assert(decreases_to!(json@ => json@->Array_0));
                    assert(decreases_to!(all => all[i as int]));
                }
                append_chars(out, prefix);
                push_text(out, "- ");
                render_into(&items[i], &deeper, out);
                i += 1;
                assert(out@ =~= start + rendered_items(all, prefix@, i as nat));
            }
        },
        Json::Object(entries) => {
            let mut deeper = prefix.clone();
            push_text(&mut deeper, "  ");
            let ghost all = entries_view(entries@);
            let mut i: usize = 0;
            while i < entries.len()
                invariant
                    i <= entries.len(),
                    all == entries_view(entries@),
                    json@ == JsonView::Object(all),
                    deeper@ == prefix@ + "  "@,
                    out@ == start + rendered_entries(all, prefix@, i as nat),
                decreases entries.len() - i,
            {
                proof {
                    assert(all[i as int] == (entries[i as int].0@, entries[i as int].1@));
                    assert(decreases_to!(json@ => json@->Object_0));
                    assert(decreases_to!(all => all[i as int]));
                    assert(decreases_to!(all[i as int] => all[i as int].1));
                }
                append_chars(out, prefix);
                push_text(out, "**");
                push_text(out, entries[i].0.as_str());
                push_text(out, "**:\n");
                render_into(&entries[i].1, &deeper, out);
                i += 1;
                assert(out@ =~= start + rendered_entries(all, prefix@, i as nat));
            }
        },
    }
}

/// Renders a document as indented text, starting at the nesting depth
/// `indent_level`.
pub fn json_to_markdown(json: &Json, indent_level: usize) -> (markdown: String)
    ensures
        markdown@ == rendered(json@, indent(indent_level as nat)),
{
    let mut prefix: Vec<char> = Vec::new();
    let mut i: usize = 0;
    while i < indent_level
        invariant
            i <= indent_level,
            prefix@ == indent(i as nat),
        decreases indent_level - i,
    {
        prefix.push(' ');
        prefix.push(' ');
        i += 1;
        assert(prefix@ =~= indent(i as nat));
    }
    let mut out: Vec<char> = Vec::new();
    render_into(json, &prefix, &mut out);
    assert(out@ =~= rendered(json@, prefix@));
    string_of(&out)
}

/// What a line of the text is.
#[derive(Clone, Copy, Debug, PartialEq, Eq)]
pub enum LineKind {
    /// An empty line.
    Blank,
    /// A key in bold, `**key**:`.
    ObjectKey,
    /// An item of a list, `- item`.
    ArrayItem,
    /// An item of a list that opens an object with its first key, `- **key**:`.
    ArrayOfObjects,
    /// Plain text: a value.
    Value,
}

/// The kind of a line.
pub open spec fn line_kind(line: Seq<char>) -> LineKind {
    let t = trimmed(line, CharClass::Whitespace);
    if line.len() == 0 {
        LineKind::Blank
    } else if starts_with(t, "-"@) && ends_with(t, "**:"@) {
        LineKind::ArrayOfObjects
    } else if starts_with(t, "**"@) {
        LineKind::ObjectKey
    } else if starts_with(t, "-"@) {
        LineKind::ArrayItem
    } else {
        LineKind::Value
    }
}

/// The nesting depth of a line: half its leading whitespace, and one more
/// for a line that opens an object inside a list.
pub open spec fn line_depth(line: Seq<char>) -> nat {
    let half = (run_end(line, 0, CharClass::Whitespace) / 2) as nat;
    if line_kind(line) == LineKind::ArrayOfObjects {
        half + 1
    } else {
        half
    }
}

/// Classifies a line: its kind and its nesting depth.
pub fn evaluate_line(line_to_test: &str) -> (r: (LineKind, usize))
    ensures
        r.0 == line_kind(line_to_test@),
        r.1 == line_depth(line_to_test@),
{
    classify(&chars_of(line_to_test))
}

/// Classifies the characters of a line.
fn classify(line: &Vec<char>) -> (r: (LineKind, usize))
    ensures
        r.0 == line_kind(line@),
        r.1 == line_depth(line@),
{
    let leading = scan(line, 0, CharClass::Whitespace);
    let depth: usize = leading / 2;
    let t = trim(line, CharClass::Whitespace);
    let dash = chars_of("-");
    let bold = chars_of("**");
    let bold_colon = chars_of("**:");
    if line.len() == 0 {
        (LineKind::Blank, depth)
    } else if has_prefix(&t, &dash) && has_suffix(&t, &bold_colon) {
        (LineKind::ArrayOfObjects, depth + 1)
    } else if has_prefix(&t, &bold) {
        (LineKind::ObjectKey, depth)
    } else if has_prefix(&t, &dash) {
        (LineKind::ArrayItem, depth)
    } else {
        (LineKind::Value, depth)
    }
}

/// A text without the whitespace before it: without its indentation.
pub open spec fn unindented(s: Seq<char>) -> Seq<char> {
    s.subrange(run_end(s, 0, CharClass::Whitespace), s.len() as int)
}

/// A text without the dash of a list that it begins with, and without the
/// whitespace behind that dash.
pub open spec fn after_dash(s: Seq<char>) -> Seq<char> {
    if s.len() > 0 && s[0] == '-' {
        unindented(s.subrange(1, s.len() as int))
    } else {
        s
    }
}

/// A text without the marks of a key: without `**:` at its end, and then
/// without `**` at its start.
pub open spec fn without_marks(s: Seq<char>) -> Seq<char> {
    let head = if ends_with(s, "**:"@) {
        s.subrange(0, s.len() - 3)
    } else {
        s
    };
    if starts_with(head, "**"@) {
        head.subrange(2, head.len() as int)
    } else {
        head
    }
}

/// The key or value that a line holds: the line without the whitespace
/// around it, without the dash of a list where it is an item, and
/// without the marks of a key where it is a key. Nothing else is taken
/// from the text.
pub open spec fn line_text(line: Seq<char>) -> Seq<char> {
    let t = trimmed(line, CharClass::Whitespace);
    match line_kind(line) {
        LineKind::Blank => Seq::empty(),
        LineKind::Value => t,
        LineKind::ArrayItem => after_dash(t),
        LineKind::ObjectKey => without_marks(t),
        LineKind::ArrayOfObjects => without_marks(after_dash(t)),
    }
}

/// The digit that writes a number below sixteen in hexadecimal, with small letters.
pub open spec fn hex_digit(n: u32) -> char {
    if n < 10 {
        (('0' as u32 + n) as u8) as char
    } else {
        (('a' as u32 + n - 10) as u8) as char
    }
}

/// A character as it stands in a JSON string: a backslash before a double
/// quote and before a backslash, `\u00` and two hexadecimal digits for a
/// control character, and any other character as it is.
pub open spec fn escaped_char(c: char) -> Seq<char> {
    if c == '"' {
        seq!['\\', '"']
    } else if c == '\\' {
        seq!['\\', '\\']
    } else if (c as u32) < 0x20 {
        seq!['\\', 'u', '0', '0', hex_digit(c as u32 / 16), hex_digit(c as u32 % 16)]
    } else {
        seq![c]
    }
}

/// A text as it stands in a JSON string, between the quotes.
pub open spec fn escaped(t: Seq<char>) -> Seq<char>
    decreases t.len(),
{
    if t.len() == 0 {
        Seq::empty()
    } else {
        escaped(t.drop_last()) + escaped_char(t.last())
    }
}

/// The key or value that a line holds, as a JSON string: escaped, in double quotes.
pub open spec fn cleaned(line: Seq<char>) -> Seq<char> {
    "\""@ + escaped(line_text(line)) + "\""@
}

/// Cleans a line to the key or value it holds and writes it as a JSON string.
pub fn cleanup_string(string_to_clean: &str) -> (r: String)
    ensures
        r@ == cleaned(string_to_clean@),
{
    let cleaned = clean_line(&chars_of(string_to_clean));
    string_of(&cleaned)
}

/// A text without the whitespace before it.
fn unindent(s: &Vec<char>) -> (r: Vec<char>)
    ensures
        r@ == unindented(s@),
{
    let from = scan(s, 0, CharClass::Whitespace);
    slice_of(s, from, s.len())
}

/// A text without the dash of a list that it begins with.
fn drop_dash(s: &Vec<char>) -> (r: Vec<char>)
    ensures
        r@ == after_dash(s@),
{
    if s.len() > 0 && s[0] == '-' {
        unindent(&slice_of(s, 1, s.len()))
    } else {
        assert(s@.subrange(0, s@.len() as int) =~= s@);
        slice_of(s, 0, s.len())
    }
}

/// A text without the marks of a key.
fn drop_marks(s: &Vec<char>) -> (r: Vec<char>)
    ensures
        r@ == without_marks(s@),
{
    let head = if has_suffix(s, &chars_of("**:")) {
        proof {
            reveal_strlit("**:");
        }
        slice_of(s, 0, s.len() - 3)
    } else {
        assert(s@.subrange(0, s@.len() as int) =~= s@);
        slice_of(s, 0, s.len())
    };
    if has_prefix(&head, &chars_of("**")) {
        proof {
            reveal_strlit("**");
        }
        slice_of(&head, 2, head.len())
    } else {
        head
    }
}

/// The digit that writes a number below sixteen in hexadecimal.
fn hex(n: u32) -> (c: char)
    requires
        n < 16,
    ensures
        c == hex_digit(n),
{
    if n < 10 {
        (('0' as u32 + n) as u8) as char
    } else {
        (('a' as u32 + n - 10) as u8) as char
    }
}

/// Appends a text to `out` as it stands in a JSON string.
fn escape_into(out: &mut Vec<char>, t: &Vec<char>)
    ensures
        final(out)@ == old(out)@ + escaped(t@),
{
    let mut i: usize = 0;
    while i < t.len()
        invariant
            i <= t.len(),
            out@ == old(out)@ + escaped(t@.take(i as int)),
        decreases t.len() - i,
    {
        let ghost before = out@;
        let c = t[i];
        let n: u32 = c as u32;
        if c == '"' {
            out.push('\\');
            out.push('"');
        } else if c == '\\' {
            out.push('\\');
            out.push('\\');
        } else if n < 0x20 {
            out.push('\\');
            out.push('u');
            out.push('0');
            out.push('0');
            out.push(hex(n / 16));
            out.push(hex(n % 16));
        } else {
            out.push(c);
        }
        i += 1;
        proof {
            assert(t@.take(i as int).drop_last() =~= t@.take(i - 1));
            assert(t@.take(i as int).last() == c);
            assert(out@ =~= before + escaped_char(c));
            assert(out@ =~= old(out)@ + escaped(t@.take(i as int)));
        }
    }
    assert(t@.take(t.len() as int) =~= t@);
}

/// The key or value that a line holds, as a JSON string.
fn clean_line(line: &Vec<char>) -> (r: Vec<char>)
    ensures
        r@ == cleaned(line@),
{
    let (kind, _) = classify(line);
    let t = trim(line, CharClass::Whitespace);
    let text = match kind {
        LineKind::Blank => Vec::new(),
        LineKind::Value => t,
        LineKind::ArrayItem => drop_dash(&t),
        LineKind::ObjectKey => drop_marks(&t),
        LineKind::ArrayOfObjects => drop_marks(&drop_dash(&t)),
    };
    let mut r: Vec<char> = Vec::new();
    push_text(&mut r, "\"");
    escape_into(&mut r, &text);
    push_text(&mut r, "\"");
    r
}

/// One level of open nesting while the text is read.
#[derive(Clone, Copy, Debug, PartialEq, Eq)]
pub enum Frame {
    /// An object.
    Obj,
    /// An array of plain items.
    Arr,
    /// An array of objects; the object that is open in it is the frame above.
    ArrOfObj,
}

/// Why a text could not be read.
#[derive(Clone, Copy, Debug, PartialEq, Eq)]
pub enum MarkdownError {
    /// The line with this index fits nowhere in what is open; the number of
    /// lines stands for the end of the text.
    Structure { line: usize },
    /// The lines were read, and what they make is not JSON.
    InvalidJson,
}

/// The state of the parser between two lines: the open frames, outermost
/// first, whether a key waits for its value, and the JSON text so far.
#[verifier::ext_equal]
pub struct ParserState {
    pub stack: Seq<Frame>,
    pub pending: bool,
    pub out: Seq<char>,
}

/// The token that closes a frame.
pub open spec fn closer(frame: Frame) -> Seq<char> {
    match frame {
        Frame::Obj => "},"@,
        Frame::Arr => "],"@,
        Frame::ArrOfObj => "],"@,
    }
}

/// `out` without the comma at its end, where there is one.
pub open spec fn without_comma(out: Seq<char>) -> Seq<char> {
    if out.len() > 0 && out.last() == ',' {
        out.drop_last()
    } else {
        out
    }
}

/// The state after the frames beyond the first `keep` were closed, innermost first.
pub open spec fn closed_to(s: ParserState, keep: nat) -> ParserState
    decreases s.stack.len(),
{
    if s.stack.len() > keep {
        closed_to(
            ParserState {
                stack: s.stack.drop_last(),
                pending: s.pending,
                out: without_comma(s.out) + closer(s.stack.last()),
            },
            keep,
        )
    } else {
        s
    }
}

/// The state after one more line, or `None` where the line fits nowhere.
///
/// An empty line opens the root object where nothing is open yet, and is
/// passed over otherwise. A value needs a key that waits for it. After a
/// key that waits, a key, an item or an item that opens an object must stand
/// one level deeper and opens an object, an array, or an array with its
/// first object. Otherwise the frames deeper than the line are closed, and
/// the line must go on with what is then open: a key with an object, an
/// item with an array, an item that opens an object with an array of objects.
pub open spec fn step(s: ParserState, line: Seq<char>) -> Option<ParserState> {
    let depth = line_depth(line);
    let text = cleaned(line);
    match line_kind(line) {
        LineKind::Blank => if s.stack.len() == 0 {
            Some(ParserState { stack: seq![Frame::Obj], pending: false, out: s.out + "{"@ })
        } else {
            Some(s)
        },
        LineKind::Value => if s.pending {
            Some(ParserState { stack: s.stack, pending: false, out: s.out + text + ","@ })
        } else {
            None
        },
        LineKind::ObjectKey => if s.pending {
            if depth == s.stack.len() {
                Some(
                    ParserState {
                        stack: s.stack.push(Frame::Obj),
                        pending: true,
                        out: s.out + "{"@ + text + ":"@,
                    },
                )
            } else {
                None
            }
        } else if depth < s.stack.len() {
            let c = closed_to(s, depth + 1);
            if c.stack.last() == Frame::Obj {
                Some(ParserState { stack: c.stack, pending: true, out: c.out + text + ":"@ })
            } else {
                None
            }
        } else {
            None
        },
        LineKind::ArrayItem => if s.pending {
            if depth == s.stack.len() {
                Some(
                    ParserState {
                        stack: s.stack.push(Frame::Arr),
                        pending: false,
                        out: s.out + "["@ + text + ","@,
                    },
                )
            } else {
                None
            }
        } else if depth < s.stack.len() {
            let c = closed_to(s, depth + 1);
            if c.stack.last() == Frame::Arr {
                Some(ParserState { stack: c.stack, pending: false, out: c.out + text + ","@ })
            } else {
                None
            }
        } else {
            None
        },
        LineKind::ArrayOfObjects => if s.pending {
            if depth == s.stack.len() + 1 {
                Some(
                    ParserState {
                        stack: s.stack.push(Frame::ArrOfObj).push(Frame::Obj),
                        pending: true,
                        out: s.out + "[{"@ + text + ":"@,
                    },
                )
            } else {
                None
            }
        } else if 1 <= depth <= s.stack.len() {
            let c = closed_to(s, depth);
            if c.stack.last() == Frame::ArrOfObj {
                Some(
                    ParserState {
                        stack: c.stack.push(Frame::Obj),
                        pending: true,
                        out: c.out + "{"@ + text + ":"@,
                    },
                )
            } else {
                None
            }
        } else {
            None
        },
    }
}

/// The JSON text at the end of the lines: every frame closed, the root
/// last. `None` where a key still waits or no root was opened.
pub open spec fn finished(s: ParserState) -> Option<Seq<char>> {
    if s.pending || s.stack.len() == 0 {
        None
    } else {
        Some(without_comma(closed_to(s, 1).out) + "}"@)
    }
}

/// The state after the first `n` lines, or the index of the first line that fits nowhere.
pub open spec fn run(lines: Seq<Seq<char>>, n: nat) -> Result<ParserState, nat>
    decreases n,
{
    if n == 0 || n > lines.len() {
        Ok(ParserState { stack: Seq::empty(), pending: false, out: Seq::empty() })
    } else {
        match run(lines, (n - 1) as nat) {
            Err(at) => Err(at),
            Ok(s) => match step(s, lines[n - 1]) {
                Some(next) => Ok(next),
                None => Err((n - 1) as nat),
            },
        }
    }
}

/// The JSON text that the lines make, or the index of the first line that
/// fits nowhere, the number of lines standing for their end.
pub open spec fn assembled(lines: Seq<Seq<char>>) -> Result<Seq<char>, nat> {
    match run(lines, lines.len()) {
        Err(at) => Err(at),
        Ok(s) => match finished(s) {
            Some(text) => Ok(text),
            None => Err(lines.len()),
        },
    }
}

/// Closing keeps the first `keep` frames and whether a key waits.
pub proof fn lemma_closed_to_stack(s: ParserState, keep: nat)
    ensures
        closed_to(s, keep).pending == s.pending,
        closed_to(s, keep).stack == (if s.stack.len() > keep {
            s.stack.take(keep as int)
        } else {
            s.stack
        }),
    decreases s.stack.len(),
{
    if s.stack.len() > keep {
        let next = ParserState {
            stack: s.stack.drop_last(),
            pending: s.pending,
            out: without_comma(s.out) + closer(s.stack.last()),
        };
        lemma_closed_to_stack(next, keep);
        if next.stack.len() > keep {
            assert(next.stack.take(keep as int) =~= s.stack.take(keep as int));
        } else {
            assert(next.stack =~= s.stack.take(keep as int));
        }
    }
}

/// A line that fits nowhere ends the run: later lines change nothing.
pub proof fn lemma_run_error_stays(lines: Seq<Seq<char>>, n: nat, m: nat)
    requires
        n <= m <= lines.len(),
        run(lines, n) is Err,
    ensures
        run(lines, m) == run(lines, n),
    decreases m,
{
    if m > n {
        lemma_run_error_stays(lines, n, (m - 1) as nat);
    }
}

/// The texts of the lines.
pub open spec fn lines_view(lines: Seq<&str>) -> Seq<Seq<char>> {
    Seq::new(lines.len(), |i: int| lines[i]@)
}

/// Some line holds the mark of a key in bold.
pub open spec fn has_bold(lines: Seq<Seq<char>>) -> bool {
    exists|i: int| 0 <= i < lines.len() && contains_text(#[trigger] lines[i], "**"@)
}

/// The first `n` lines, one behind the other.
pub open spec fn joined(lines: Seq<Seq<char>>, n: nat) -> Seq<char>
    decreases n,
{
    if n == 0 || n > lines.len() {
        Seq::empty()
    } else {
        joined(lines, (n - 1) as nat) + lines[n - 1]
    }
}

/// The parser: the open frames, whether a key waits, and the text so far.
pub struct Parser {
    pub stack: Vec<Frame>,
    pub pending: bool,
    pub out: Vec<char>,
}

impl View for Parser {
    type V = ParserState;

    open spec fn view(&self) -> ParserState {
        ParserState { stack: self.stack@, pending: self.pending, out: self.out@ }
    }
}

impl Parser {
    /// A parser that has read nothing.
    pub fn new() -> (p: Parser)
        ensures
            p@ == (ParserState { stack: Seq::empty(), pending: false, out: Seq::empty() }),
    {
        Parser { stack: Vec::new(), pending: false, out: Vec::new() }
    }

    fn drop_comma(&mut self)
        ensures
            final(self)@ == (ParserState { out: without_comma(old(self)@.out), ..old(self)@ }),
    {
        let n = self.out.len();
        if n > 0 && self.out[n - 1] == ',' {
            self.out.pop();
            assert(self.out@ =~= old(self).out@.drop_last());
        }
    }

    /// Closes the frames beyond the first `keep`, innermost first.
    fn close_to(&mut self, keep: usize)
        ensures
            final(self)@ == closed_to(old(self)@, keep as nat),
    {
        while self.stack.len() > keep
            invariant
                closed_to(self@, keep as nat) == closed_to(old(self)@, keep as nat),
            decreases self.stack.len(),
        {
            let ghost before = self@;
            let frame = self.stack.pop().unwrap();
            self.drop_comma();
            match frame {
                Frame::Obj => push_text(&mut self.out, "},"),
                Frame::Arr => push_text(&mut self.out, "],"),
                Frame::ArrOfObj => push_text(&mut self.out, "],"),
            }
            assert(self.stack@ =~= before.stack.drop_last());
            assert(self@ == (ParserState {
                stack: before.stack.drop_last(),
                pending: before.pending,
                out: without_comma(before.out) + closer(before.stack.last()),
            }));
        }
    }

    fn top_is(&self, frame: Frame) -> (b: bool)
        ensures
            b == (self.stack@.len() > 0 && self.stack@.last() == frame),
    {
        let n = self.stack.len();
        if n == 0 {
            return false;
        }
        match (self.stack[n - 1], frame) {
            (Frame::Obj, Frame::Obj) => true,
            (Frame::Arr, Frame::Arr) => true,
            (Frame::ArrOfObj, Frame::ArrOfObj) => true,
            _ => false,
        }
    }

    /// Reads one more line. Where the line fits nowhere, the result is
    /// `false`, and the parser is of no further use.
    pub fn step(&mut self, line: &str) -> (ok: bool)
        ensures
            ok == step(old(self)@, line@).is_some(),
            ok ==> final(self)@ == step(old(self)@, line@).unwrap(),
    {
        let (kind, depth) = evaluate_line(line);
        proof {
            lemma_closed_to_stack(self@, depth as nat);
            lemma_closed_to_stack(self@, depth as nat + 1);
        }
        match kind {
            LineKind::Blank => {
                if self.stack.len() == 0 {
                    self.stack.push(Frame::Obj);
                    self.pending = false;
                    push_text(&mut self.out, "{");
                    assert(self.stack@ =~= seq![Frame::Obj]);
                }
                assert(self@ =~= step(old(self)@, line@).unwrap());
                true
            },
            LineKind::Value => {
                if !self.pending {
                    return false;
                }
                let text = clean_line(&chars_of(line));
                append_chars(&mut self.out, &text);
                push_text(&mut self.out, ",");
                self.pending = false;
                assert(self@ =~= step(old(self)@, line@).unwrap());
                true
            },
            LineKind::ObjectKey => {
                let text = clean_line(&chars_of(line));
                if self.pending {
                    if depth != self.stack.len() {
                        return false;
                    }
                    self.stack.push(Frame::Obj);
                    push_text(&mut self.out, "{");
                } else {
                    if depth >= self.stack.len() {
                        return false;
                    }
                    self.close_to(depth + 1);
                    if !self.top_is(Frame::Obj) {
                        return false;
                    }
                }
                append_chars(&mut self.out, &text);
                push_text(&mut self.out, ":");
                self.pending = true;
                assert(self@ =~= step(old(self)@, line@).unwrap());
                true
            },
            LineKind::ArrayItem => {
                let text = clean_line(&chars_of(line));
                if self.pending {
                    if depth != self.stack.len() {
                        return false;
                    }
                    self.stack.push(Frame::Arr);
                    push_text(&mut self.out, "[");
                } else {
                    if depth >= self.stack.len() {
                        return false;
                    }
                    self.close_to(depth + 1);
                    if !self.top_is(Frame::Arr) {
                        return false;
                    }
                }
                append_chars(&mut self.out, &text);
                push_text(&mut self.out, ",");
                self.pending = false;
                assert(self@ =~= step(old(self)@, line@).unwrap());
                true
            },
            LineKind::ArrayOfObjects => {
                let text = clean_line(&chars_of(line));
                if self.pending {
                    if depth == 0 || depth - 1 != self.stack.len() {
                        return false;
                    }
                    self.stack.push(Frame::ArrOfObj);
                    self.stack.push(Frame::Obj);
                    push_text(&mut self.out, "[{");
                } else {
                    if depth == 0 || depth > self.stack.len() {
                        return false;
                    }
                    self.close_to(depth);
                    if !self.top_is(Frame::ArrOfObj) {
                        return false;
                    }
                    self.stack.push(Frame::Obj);
                    push_text(&mut self.out, "{");
                }
                append_chars(&mut self.out, &text);
                push_text(&mut self.out, ":");
                self.pending = true;
                assert(self@ =~= step(old(self)@, line@).unwrap());
                true
            },
        }
    }

    /// Closes what is open and gives the JSON text, or `None` where a key
    /// still waits for its value or no root was opened.
    pub fn finish(self) -> (text: Option<String>)
        ensures
            text.is_some() == finished(self@).is_some(),
            text matches Some(t) ==> t@ == finished(self@).unwrap(),
    {
        let mut p = self;
        if p.pending || p.stack.len() == 0 {
            return None;
        }
        p.close_to(1);
        p.drop_comma();
        push_text(&mut p.out, "}");
        Some(string_of(&p.out))
    }
}

/// Reads the lines into JSON text.
pub fn assemble_json(lines: &[&str]) -> (r: Result<String, MarkdownError>)
    ensures
        match r {
            Ok(text) => assembled(lines_view(lines@)) == Ok::<Seq<char>, nat>(text@),
            Err(MarkdownError::Structure { line }) => assembled(lines_view(lines@)) == Err::<
                Seq<char>,
                nat,
            >(line as nat),
            Err(MarkdownError::InvalidJson) => false,
        },
{
    let ghost all = lines_view(lines@);
    let mut parser = Parser::new();
    let mut i: usize = 0;
    while i < lines.len()
        invariant
            i <= lines.len(),
            all == lines_view(lines@),
            run(all, i as nat) == Ok::<ParserState, nat>(parser@),
        decreases lines.len() - i,
    {
        assert(all[i as int] == lines[i as int]@);
        if !parser.step(lines[i]) {
            proof {
                lemma_run_error_stays(all, i as nat + 1, all.len());
            }
            return Err(MarkdownError::Structure { line: i });
        }
        i += 1;
    }
    match parser.finish() {
        Some(text) => Ok(text),
        None => Err(MarkdownError::Structure { line: lines.len() }),
    }
}

/// Reads the lines into a document. Lines without any key in bold are no
/// markdown: they are taken as one text. Otherwise the lines are read
/// into JSON text, and the text is parsed.
pub fn markdown_to_json(lines: &[&str]) -> (r: Result<Json, MarkdownError>)
    ensures
        match r {
            Ok(j) => if has_bold(lines_view(lines@)) {
                assembled(lines_view(lines@)) matches Ok(text) && parsed_json(text) == Some(j@)
            } else {
                j@ == JsonView::String(joined(lines_view(lines@), lines@.len()))
            },
            Err(MarkdownError::Structure { line }) => has_bold(lines_view(lines@)) && assembled(
                lines_view(lines@),
            ) == Err::<Seq<char>, nat>(line as nat),
            Err(MarkdownError::InvalidJson) => has_bold(lines_view(lines@)) && (assembled(
                lines_view(lines@),
            ) matches Ok(text) && parsed_json(text) is None),
        },
        r matches Ok(j) ==> j@.wf(),
{
    let ghost all = lines_view(lines@);
    let bold = chars_of("**");
    let mut found = false;
    let mut text: Vec<char> = Vec::new();
    let mut i: usize = 0;
    while i < lines.len()
        invariant
            i <= lines.len(),
            all == lines_view(lines@),
            bold@ == "**"@,
            found == (exists|k: int| 0 <= k < i && contains_text(#[trigger] all[k], "**"@)),
            text@ == joined(all, i as nat),
        decreases lines.len() - i,
    {
        assert(all[i as int] == lines[i as int]@);
        let line = chars_of(lines[i]);
        if has_text(&line, &bold) {
            found = true;
        }
        append_chars(&mut text, &line);
        i += 1;
    }
    if !found {
        return Ok(Json::String(string_of(&text)));
    }
    match assemble_json(lines) {
        Err(e) => Err(e),
        Ok(json_text) => match parse_json(json_text.as_str()) {
            Some(j) => Ok(j),
            None => Err(MarkdownError::InvalidJson),
        },
    }
}

} // verus!
