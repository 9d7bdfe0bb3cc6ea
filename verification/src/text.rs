//! Texts as sequences of characters: the few operations on them that the
//! codecs and the address parser need.

use vstd::prelude::*;
use crate::json::is_digit;

verus! {

/// A set of characters: what a run in a text is made of.
#[derive(Clone, Copy, Debug, PartialEq, Eq)]
pub enum CharClass {
    /// The characters with Unicode's `White_Space` property.
    Whitespace,
    /// One character.
    Exactly(char),
    /// Every character but one.
    Except(char),
    /// The decimal digits.
    Digit,
    /// Every character but the point and the opening bracket.
    Name,
    /// The space, the tab, the carriage return and the line feed.
    Blank,
}

/// `c` has Unicode's `White_Space` property.
pub open spec fn is_whitespace(c: char) -> bool {
    let n = c as u32;
    ||| n == 0x20
    ||| 0x09 <= n <= 0x0d
    ||| n == 0x85
    ||| n == 0xa0
    ||| n == 0x1680
    ||| 0x2000 <= n <= 0x200a
    ||| n == 0x2028
    ||| n == 0x2029
    ||| n == 0x202f
    ||| n == 0x205f
    ||| n == 0x3000
}

impl CharClass {
    pub open spec fn has(self, c: char) -> bool {
        match self {
            CharClass::Whitespace => is_whitespace(c),
            CharClass::Exactly(x) => c == x,
            CharClass::Except(x) => c != x,
            CharClass::Digit => is_digit(c),
            CharClass::Name => c != '.' && c != '[',
            CharClass::Blank => c == ' ' || c == '\t' || c == '\r' || c == '\n',
        }
    }

    pub fn contains(self, c: char) -> (b: bool)
        ensures
            b == self.has(c),
    {
        match self {
            CharClass::Whitespace => {
                let n: u32 = c as u32;
                n == 0x20 || (0x09 <= n && n <= 0x0d) || n == 0x85 || n == 0xa0 || n == 0x1680 || (
                0x2000 <= n && n <= 0x200a) || n == 0x2028 || n == 0x2029 || n == 0x202f || n
                    == 0x205f || n == 0x3000
            },
            CharClass::Exactly(x) => c == x,
            CharClass::Except(x) => c != x,
            CharClass::Digit => '0' <= c && c <= '9',
            CharClass::Name => c != '.' && c != '[',
            CharClass::Blank => c == ' ' || c == '\t' || c == '\r' || c == '\n',
        }
    }
}

/// A run ends at or behind its start, within the text.
pub proof fn lemma_run_end_bounds(s: Seq<char>, i: int, class: CharClass)
    requires
        0 <= i <= s.len(),
    ensures
        i <= run_end(s, i, class) <= s.len(),
        run_end(s, i, class) < s.len() ==> !class.has(s[run_end(s, i, class)]),
        forall|k: int| i <= k < run_end(s, i, class) ==> class.has(#[trigger] s[k]),
    decreases s.len() - i,
{
    if i < s.len() && class.has(s[i]) {
        lemma_run_end_bounds(s, i + 1, class);
    }
}

/// The index behind the run of characters of `class` that starts at `i`.
pub fn scan(s: &Vec<char>, i: usize, class: CharClass) -> (j: usize)
    requires
        i <= s.len(),
    ensures
        j == run_end(s@, i as int, class),
        i <= j <= s.len(),
{
    let mut j: usize = i;
    while j < s.len() && class.contains(s[j])
        invariant
            i <= j <= s.len(),
            run_end(s@, i as int, class) == run_end(s@, j as int, class),
        decreases s.len() - j,
    {
        j += 1;
    }
    j
}

/// The index behind the run of characters of `class` that starts at `i`.
pub open spec fn run_end(s: Seq<char>, i: int, class: CharClass) -> int
    decreases s.len() - i,
{
    if 0 <= i < s.len() && class.has(s[i]) {
        run_end(s, i + 1, class)
    } else {
        i
    }
}

/// The index at which the run of characters of `class` that ends before `j` starts.
pub open spec fn run_start(s: Seq<char>, j: int, class: CharClass) -> int
    decreases j,
{
    if 0 < j <= s.len() && class.has(s[j - 1]) {
        run_start(s, j - 1, class)
    } else {
        j
    }
}

/// `s` without the characters of `class` at its two ends.
pub open spec fn trimmed(s: Seq<char>, class: CharClass) -> Seq<char> {
    let from = run_end(s, 0, class);
    if from >= s.len() {
        Seq::empty()
    } else {
        s.subrange(from, run_start(s, s.len() as int, class))
    }
}

/// `s` begins with `prefix`.
pub open spec fn starts_with(s: Seq<char>, prefix: Seq<char>) -> bool {
    prefix.len() <= s.len() && s.subrange(0, prefix.len() as int) == prefix
}

/// `s` ends with `suffix`.
pub open spec fn ends_with(s: Seq<char>, suffix: Seq<char>) -> bool {
    suffix.len() <= s.len() && s.subrange(s.len() - suffix.len(), s.len() as int) == suffix
}

/// `pattern` stands in `s` at the index `i`.
pub open spec fn occurs_at(s: Seq<char>, i: int, pattern: Seq<char>) -> bool {
    0 <= i && i + pattern.len() <= s.len() && s.subrange(i, i + pattern.len()) == pattern
}

/// `pattern` stands somewhere in `s`.
pub open spec fn contains_text(s: Seq<char>, pattern: Seq<char>) -> bool {
    exists|i: int| occurs_at(s, i, pattern)
}

/// The characters of a text.
pub fn chars_of(s: &str) -> (chars: Vec<char>)
    ensures
        chars@ == s@,
{
    let mut chars: Vec<char> = Vec::new();
    for c in it: s.chars()
        invariant
            chars@ == it.seq().take(it.index() as int),
    {
        chars.push(c);
        assert(chars@ =~= it.seq().take(it.index() + 1));
    }
    assert(chars@ =~= s@);
    chars
}

/// The text that the characters make.
pub fn string_of(chars: &Vec<char>) -> (s: String)
    ensures
        s@ == chars@,
{
    let mut s = String::new();
    let mut i: usize = 0;
    while i < chars.len()
        invariant
            i <= chars.len(),
            s@ == chars@.take(i as int),
        decreases chars.len() - i,
    {
        s.push(chars[i]);
        i += 1;
        assert(s@ =~= chars@.take(i as int));
    }
    assert(s@ =~= chars@);
    s
}

/// The characters of `s` from `from` up to `to`.
pub fn slice_of(s: &Vec<char>, from: usize, to: usize) -> (part: Vec<char>)
    requires
        from <= to <= s.len(),
    ensures
        part@ == s@.subrange(from as int, to as int),
{
    let mut part: Vec<char> = Vec::new();
    let mut i: usize = from;
    while i < to
        invariant
            from <= i <= to <= s.len(),
            part@ == s@.subrange(from as int, i as int),
        decreases to - i,
    {
        part.push(s[i]);
        i += 1;
        assert(part@ =~= s@.subrange(from as int, i as int));
    }
    part
}

/// Whether `pattern` stands in `s` at the index `i`.
pub fn matches_at(s: &Vec<char>, i: usize, pattern: &Vec<char>) -> (b: bool)
    ensures
        b == occurs_at(s@, i as int, pattern@),
{
    if pattern.len() > s.len() || i > s.len() - pattern.len() {
        return false;
    }
    let mut j: usize = 0;
    while j < pattern.len()
        invariant
            j <= pattern.len(),
            i + pattern.len() <= s.len(),
            forall|p: int| 0 <= p < j ==> s[i + p] == pattern[p],
        decreases pattern.len() - j,
    {
        if s[i + j] != pattern[j] {
            assert(s@.subrange(i as int, i + pattern.len())[j as int] == s[i + j]);
            return false;
        }
        j += 1;
    }
    assert(s@.subrange(i as int, i + pattern.len()) =~= pattern@);
    true
}

/// Whether `s` begins with `prefix`.
pub fn has_prefix(s: &Vec<char>, prefix: &Vec<char>) -> (b: bool)
    ensures
        b == starts_with(s@, prefix@),
{
    matches_at(s, 0, prefix)
}

/// Whether `s` ends with `suffix`.
pub fn has_suffix(s: &Vec<char>, suffix: &Vec<char>) -> (b: bool)
    ensures
        b == ends_with(s@, suffix@),
{
    if suffix.len() > s.len() {
        return false;
    }
    matches_at(s, s.len() - suffix.len(), suffix)
}

/// Whether `pattern` stands somewhere in `s`.
pub fn has_text(s: &Vec<char>, pattern: &Vec<char>) -> (b: bool)
    ensures
        b == contains_text(s@, pattern@),
{
    if pattern.len() > s.len() {
        return false;
    }
    let last: usize = s.len() - pattern.len();
    let mut i: usize = 0;
    while i < last
        invariant
            i <= last,
            last == s.len() - pattern.len(),
            forall|p: int| 0 <= p < i ==> !occurs_at(s@, p, pattern@),
        decreases last - i,
    {
        if matches_at(s, i, pattern) {
            return true;
        }
        i += 1;
    }
    matches_at(s, last, pattern)
}

/// `s` without the characters of `class` at its two ends.
pub fn trim(s: &Vec<char>, class: CharClass) -> (t: Vec<char>)
    ensures
        t@ == trimmed(s@, class),
{
    let mut from: usize = 0;
    while from < s.len() && class.contains(s[from])
        invariant
            from <= s.len(),
            run_end(s@, 0, class) == run_end(s@, from as int, class),
        decreases s.len() - from,
    {
        from += 1;
    }
    if from >= s.len() {
        return Vec::new();
    }
    let mut to: usize = s.len();
    while class.contains(s[to - 1])
        invariant
            from < s.len(),
            !class.has(s[from as int]),
            from < to <= s.len(),
            run_start(s@, s.len() as int, class) == run_start(s@, to as int, class),
        decreases to,
    {
        to -= 1;
    }
    slice_of(s, from, to)
}

/// Appends the characters of `more` to `out`.
pub fn append_chars(out: &mut Vec<char>, more: &Vec<char>)
    ensures
        final(out)@ == old(out)@ + more@,
{
    let mut i: usize = 0;
    while i < more.len()
        invariant
            i <= more.len(),
            out@ == old(out)@ + more@.take(i as int),
        decreases more.len() - i,
    {
        out.push(more[i]);
        i += 1;
        assert(out@ =~= old(out)@ + more@.take(i as int));
    }
    assert(more@.take(more.len() as int) =~= more@);
}

/// Appends the characters of the text `more` to `out`.
pub fn push_text(out: &mut Vec<char>, more: &str)
    ensures
        final(out)@ == old(out)@ + more@,
{
    let chars = chars_of(more);
    append_chars(out, &chars);
}

/// The decimal digits that write `n`, without leading zeros.
pub open spec fn decimal_text(n: nat) -> Seq<char>
    decreases n,
{
    if n < 10 {
        seq![(('0' as u32 + n) as u32) as char]
    } else {
        decimal_text(n / 10).push((('0' as u32 + n % 10) as u32) as char)
    }
}

/// Writes a number in decimal.
pub fn decimal(n: usize) -> (s: String)
    ensures
        s@ == decimal_text(n as nat),
{
    let mut reversed: Vec<char> = Vec::new();
    let mut rest: usize = n;
    while rest >= 10
        invariant
            forall|head: Seq<char>|
                #![trigger head + reversed@.reverse()]
                decimal_text(rest as nat) == head ==> decimal_text(n as nat) == head
                    + reversed@.reverse(),
        decreases rest,
    {
        let ghost before = reversed@;
        let digit = (('0' as u32) + (rest % 10) as u32) as u8 as char;
        reversed.push(digit);
        proof {
            assert forall|head: Seq<char>|
                #![trigger head + reversed@.reverse()]
                decimal_text((rest / 10) as nat) == head implies decimal_text(n as nat) == head
                + reversed@.reverse() by {
                assert(reversed@.reverse() =~= seq![digit] + before.reverse());
                assert(head + reversed@.reverse() =~= head.push(digit) + before.reverse());
            }
        }
        rest = rest / 10;
    }
    let digit = (('0' as u32) + rest as u32) as u8 as char;
    let mut digits: Vec<char> = Vec::new();
    digits.push(digit);
    let mut i: usize = reversed.len();
    while i > 0
        invariant
            i <= reversed.len(),
            digits@ == seq![digit] + reversed@.reverse().take(reversed.len() - i),
        decreases i,
    {
        i -= 1;
        digits.push(reversed[i]);
        assert(digits@ =~= seq![digit] + reversed@.reverse().take(reversed.len() - i));
    }
    assert(digits@ =~= seq![digit] + reversed@.reverse());
    string_of(&digits)
}

/// Whether two texts are the same.
pub fn same_text(a: &str, b: &str) -> (same: bool)
    ensures
        same == (a@ == b@),
{
    let x = chars_of(a);
    let y = chars_of(b);
    if x.len() != y.len() {
        return false;
    }
    let mut i: usize = 0;
    while i < x.len()
        invariant
            i <= x.len(),
            x.len() == y.len(),
            x@ == a@,
            y@ == b@,
            forall|k: int| 0 <= k < i ==> x[k] == y[k],
        decreases x.len() - i,
    {
        if x[i] != y[i] {
            return false;
        }
        i += 1;
    }
    assert(x@ =~= y@);
    true
}

/// The line that starts at the index `i`, without its ending: a line feed,
/// or a carriage return and a line feed.
pub open spec fn line_at(s: Seq<char>, i: int) -> Seq<char> {
    let end = run_end(s, i, CharClass::Except('\n'));
    let raw = s.subrange(i, end);
    if end < s.len() && raw.len() > 0 && raw.last() == '\r' {
        raw.drop_last()
    } else {
        raw
    }
}

/// The lines of `s` from the index `i` on. A line ends with a line
/// feed; the last one may do without.
pub open spec fn lines_from(s: Seq<char>, i: int) -> Seq<Seq<char>>
    decreases s.len() - i,
{
    if i < 0 || i >= s.len() {
        Seq::empty()
    } else {
        let end = run_end(s, i, CharClass::Except('\n'));
        if i <= end < s.len() {
            seq![line_at(s, i)] + lines_from(s, end + 1)
        } else {
            seq![line_at(s, i)]
        }
    }
}

/// The lines of a text.
pub open spec fn lines_of(s: Seq<char>) -> Seq<Seq<char>> {
    lines_from(s, 0)
}

/// The texts of a sequence of strings.
pub open spec fn texts_view(texts: Seq<String>) -> Seq<Seq<char>> {
    Seq::new(texts.len(), |i: int| texts[i]@)
}

/// The lines of a text.
pub fn split_lines(text: &str) -> (lines: Vec<String>)
    ensures
        texts_view(lines@) == lines_of(text@),
{
    let s = chars_of(text);
    let mut lines: Vec<String> = Vec::new();
    let mut i: usize = 0;
    while i < s.len()
        invariant
            i <= s.len(),
            s@ == text@,
            lines_of(s@) == texts_view(lines@) + lines_from(s@, i as int),
        decreases s.len() - i,
    {
        let ghost before = texts_view(lines@);
        let end = scan(&s, i, CharClass::Except('\n'));
        let stop: usize = if end < s.len() && end > i && s[end - 1] == '\r' {
            end - 1
        } else {
            end
        };
        let line = slice_of(&s, i, stop);
        assert(line@ =~= line_at(s@, i as int));
        lines.push(string_of(&line));
        proof {
            assert(texts_view(lines@) =~= before.push(line@));
            assert(before + (seq![line@] + lines_from(s@, end + 1)) =~= before.push(line@)
                + lines_from(s@, end + 1));
            if end >= s.len() {
                assert(before + seq![line@] =~= before.push(line@) + lines_from(
                    s@,
                    s.len() as int,
                ));
            }
        }
        i = if end < s.len() {
            end + 1
        } else {
            end
        };
    }
    assert(texts_view(lines@) + Seq::<Seq<char>>::empty() =~= texts_view(lines@));
    lines
}

/// The pieces of `s` from the index `i` on that the separator parts: one
/// more than there are separators.
pub open spec fn pieces_from(s: Seq<char>, i: int, separator: char) -> Seq<Seq<char>>
    decreases s.len() - i,
{
    let end = run_end(s, i, CharClass::Except(separator));
    if 0 <= i <= end < s.len() {
        seq![s.subrange(i, end)] + pieces_from(s, end + 1, separator)
    } else if 0 <= i <= s.len() {
        seq![s.subrange(i, s.len() as int)]
    } else {
        Seq::empty()
    }
}

/// The pieces of `s` from the index `from` on that the separator parts.
pub fn split_from(s: &Vec<char>, from: usize, separator: char) -> (pieces: Vec<String>)
    requires
        from <= s.len(),
    ensures
        texts_view(pieces@) == pieces_from(s@, from as int, separator),
{
    let mut pieces: Vec<String> = Vec::new();
    let mut i: usize = from;
    loop
        invariant
            from <= i <= s.len(),
            pieces_from(s@, from as int, separator) == texts_view(pieces@) + pieces_from(
                s@,
                i as int,
                separator,
            ),
        decreases s.len() - i,
    {
        let ghost before = texts_view(pieces@);
        let end = scan(&s, i, CharClass::Except(separator));
        let piece = slice_of(&s, i, end);
        pieces.push(string_of(&piece));
        assert(texts_view(pieces@) =~= before.push(piece@));
        if end >= s.len() {
            assert(piece@ =~= s@.subrange(i as int, s.len() as int));
            assert(before + seq![piece@] =~= before.push(piece@));
            return pieces;
        }
        assert(before + (seq![piece@] + pieces_from(s@, end + 1, separator)) =~= before.push(
            piece@,
        ) + pieces_from(s@, end + 1, separator));
        i = end + 1;
    }
}

/// A small ASCII letter as its capital; any other character as it is.
pub open spec fn ascii_upper(c: char) -> char {
    if 'a' <= c <= 'z' {
        ((c as u32 - 32) as u8) as char
    } else {
        c
    }
}

/// A text with its small ASCII letters as capitals.
pub open spec fn ascii_uppercase(s: Seq<char>) -> Seq<char> {
    Seq::new(s.len(), |i: int| ascii_upper(s[i]))
}

/// A text with its small ASCII letters as capitals.
pub fn to_ascii_upper(s: &Vec<char>) -> (upper: Vec<char>)
    ensures
        upper@ == ascii_uppercase(s@),
{
    let mut upper: Vec<char> = Vec::new();
    let mut i: usize = 0;
    while i < s.len()
        invariant
            i <= s.len(),
            upper@ == ascii_uppercase(s@).take(i as int),
        decreases s.len() - i,
    {
        let c = s[i];
        if 'a' <= c && c <= 'z' {
            upper.push(((c as u32 - 32) as u8) as char);
        } else {
            upper.push(c);
        }
        i += 1;
        assert(upper@ =~= ascii_uppercase(s@).take(i as int));
    }
    assert(upper@ =~= ascii_uppercase(s@));
    upper
}

/// The parts of `s` before and behind the first `separator`, where there is one.
pub open spec fn split_once(s: Seq<char>, separator: char) -> Option<(Seq<char>, Seq<char>)> {
    let at = run_end(s, 0, CharClass::Except(separator));
    if 0 <= at < s.len() {
        Some((s.subrange(0, at), s.subrange(at + 1, s.len() as int)))
    } else {
        None
    }
}

/// The parts of `s` before and behind the first `separator`, where there is one.
pub fn split_first(s: &Vec<char>, separator: char) -> (parts: Option<(Vec<char>, Vec<char>)>)
    ensures
        parts.is_some() == split_once(s@, separator).is_some(),
        parts matches Some(p) ==> split_once(s@, separator) == Some((p.0@, p.1@)),
{
    let at = scan(s, 0, CharClass::Except(separator));
    if at < s.len() {
        Some((slice_of(s, 0, at), slice_of(s, at + 1, s.len())))
    } else {
        None
    }
}

/// The first `n` pieces with the separator between each two.
pub open spec fn joined_with(pieces: Seq<Seq<char>>, separator: Seq<char>, n: nat) -> Seq<char>
    decreases n,
{
    if n == 0 || n > pieces.len() {
        Seq::empty()
    } else if n == 1 {
        pieces[0]
    } else {
        joined_with(pieces, separator, (n - 1) as nat) + separator + pieces[n - 1]
    }
}

/// The views of a sequence of character vectors.
pub open spec fn pieces_view(pieces: Seq<Vec<char>>) -> Seq<Seq<char>> {
    Seq::new(pieces.len(), |i: int| pieces[i]@)
}

/// The pieces with the separator between each two.
pub fn join(pieces: &Vec<Vec<char>>, separator: &str) -> (text: Vec<char>)
    ensures
        text@ == joined_with(pieces_view(pieces@), separator@, pieces@.len()),
{
    let ghost all = pieces_view(pieces@);
    let mut out: Vec<char> = Vec::new();
    let mut i: usize = 0;
    while i < pieces.len()
        invariant
            i <= pieces.len(),
            all == pieces_view(pieces@),
            out@ == joined_with(all, separator@, i as nat),
        decreases pieces.len() - i,
    {
        assert(all[i as int] == pieces[i as int]@);
        if i > 0 {
            push_text(&mut out, separator);
        }
        append_chars(&mut out, &pieces[i]);
        i += 1;
    }
    out
}

/// A run that is known by its end: the characters from `i` up to `n` are of
/// the class, and the one at `n`, where there is one, is not.
pub proof fn lemma_run_end_is(s: Seq<char>, i: int, n: int, class: CharClass)
    requires
        0 <= i <= n <= s.len(),
        forall|k: int| i <= k < n ==> class.has(#[trigger] s[k]),
        n < s.len() ==> !class.has(s[n]),
    ensures
        run_end(s, i, class) == n,
    decreases n - i,
{
    if i < n {
        lemma_run_end_is(s, i + 1, n, class);
    }
}

/// A run that is known by its start: the characters from `n` up to `j` are
/// of the class, and the one before `n`, where there is one, is not.
pub proof fn lemma_run_start_is(s: Seq<char>, j: int, n: int, class: CharClass)
    requires
        0 <= n <= j <= s.len(),
        forall|k: int| n <= k < j ==> class.has(#[trigger] s[k]),
        n > 0 ==> !class.has(s[n - 1]),
    ensures
        run_start(s, j, class) == n,
    decreases j - n,
{
    if n < j {
        lemma_run_start_is(s, j - 1, n, class);
    }
}

/// Trimming takes a run of the class from the front and nothing from the
/// end, where the text ends with a character that is not of the class.
pub proof fn lemma_trimmed_front(s: Seq<char>, n: int, class: CharClass)
    requires
        0 <= n < s.len(),
        forall|k: int| 0 <= k < n ==> class.has(#[trigger] s[k]),
        !class.has(s[n]),
        !class.has(s.last()),
    ensures
        trimmed(s, class) == s.subrange(n, s.len() as int),
{
    lemma_run_end_is(s, 0, n, class);
    lemma_run_start_is(s, s.len() as int, s.len() as int, class);
}

/// Trimming leaves nothing of a text that is made of the class.
pub proof fn lemma_trimmed_all(s: Seq<char>, class: CharClass)
    requires
        forall|k: int| 0 <= k < s.len() ==> class.has(#[trigger] s[k]),
    ensures
        trimmed(s, class) == Seq::<char>::empty(),
{
    lemma_run_end_is(s, 0, s.len() as int, class);
}

/// Trimming takes a run of the class from the front and one from the end.
pub proof fn lemma_trimmed_is(s: Seq<char>, from: int, to: int, class: CharClass)
    requires
        0 <= from < to <= s.len(),
        forall|k: int| 0 <= k < from ==> class.has(#[trigger] s[k]),
        forall|k: int| to <= k < s.len() ==> class.has(#[trigger] s[k]),
        !class.has(s[from]),
        !class.has(s[to - 1]),
    ensures
        trimmed(s, class) == s.subrange(from, to),
{
    lemma_run_end_is(s, 0, from, class);
    lemma_run_start_is(s, s.len() as int, to, class);
}

/// A run that ends inside a text ends at the same place when more text follows.
pub proof fn lemma_run_end_in_front(x: Seq<char>, y: Seq<char>, i: int, class: CharClass)
    requires
        0 <= i <= x.len(),
        run_end(x, i, class) < x.len(),
    ensures
        run_end(x + y, i, class) == run_end(x, i, class),
    decreases x.len() - i,
{
    if i < x.len() && class.has(x[i]) {
        assert((x + y)[i] == x[i]);
        lemma_run_end_in_front(x, y, i + 1, class);
    } else if i < x.len() {
        assert((x + y)[i] == x[i]);
    }
}

/// A run behind a text ends where it ends without that text, moved by its length.
pub proof fn lemma_run_end_behind(a: Seq<char>, b: Seq<char>, j: int, class: CharClass)
    requires
        0 <= j <= b.len(),
    ensures
        run_end(a + b, a.len() + j, class) == a.len() + run_end(b, j, class),
    decreases b.len() - j,
{
    if j < b.len() {
        assert((a + b)[a.len() + j] == b[j]);
        if class.has(b[j]) {
            lemma_run_end_behind(a, b, j + 1, class);
        }
    }
}

/// The lines behind a text are the lines of what stands there.
pub proof fn lemma_lines_behind(a: Seq<char>, b: Seq<char>, j: int)
    requires
        0 <= j <= b.len(),
    ensures
        lines_from(a + b, a.len() + j) == lines_from(b, j),
    decreases b.len() - j,
{
    if j < b.len() {
        let feed = CharClass::Except('\n');
        lemma_run_end_behind(a, b, j, feed);
        lemma_run_end_bounds(b, j, feed);
        let end = run_end(b, j, feed);
        assert((a + b).subrange(a.len() + j, a.len() + end) =~= b.subrange(j, end));
        assert(line_at(a + b, a.len() + j) == line_at(b, j));
        if end < b.len() {
            lemma_lines_behind(a, b, end + 1);
        }
    }
}

/// The lines of two texts, the first of which ends its last line, are the
/// lines of the one and then the lines of the other.
pub proof fn lemma_lines_concat(x: Seq<char>, y: Seq<char>, i: int)
    requires
        0 <= i <= x.len(),
        x.len() > 0 ==> x.last() == '\n',
    ensures
        lines_from(x + y, i) == lines_from(x, i) + lines_from(y, 0),
    decreases x.len() - i,
{
    if i == x.len() {
        lemma_lines_behind(x, y, 0);
        assert(lines_from(x, i) + lines_from(y, 0) =~= lines_from(y, 0));
    } else {
        let feed = CharClass::Except('\n');
        lemma_run_end_bounds(x, i, feed);
        let end = run_end(x, i, feed);
        assert(end < x.len()) by {
            if end == x.len() {
                assert(feed.has(x[x.len() - 1]));
            }
        }
        lemma_run_end_in_front(x, y, i, feed);
        assert((x + y).subrange(i, end) =~= x.subrange(i, end));
        assert(line_at(x + y, i) == line_at(x, i));
        lemma_lines_concat(x, y, end + 1);
        assert(seq![line_at(x, i)] + (lines_from(x, end + 1) + lines_from(y, 0)) =~= (seq![
            line_at(x, i),
        ] + lines_from(x, end + 1)) + lines_from(y, 0));
    }
}

/// A text without a line end, with a line feed behind it, is one line.
pub proof fn lemma_one_line(t: Seq<char>)
    requires
        forall|i: int| 0 <= i < t.len() ==> #[trigger] t[i] != '\n',
        t.len() > 0 ==> t.last() != '\r',
    ensures
        lines_of(t + seq!['\n']) == seq![t],
{
    let s = t + seq!['\n'];
    let feed = CharClass::Except('\n');
    assert forall|k: int| 0 <= k < t.len() implies feed.has(#[trigger] s[k]) by {
        assert(s[k] == t[k]);
    }
    lemma_run_end_is(s, 0, t.len() as int, feed);
    assert(s.subrange(0, t.len() as int) =~= t);
    assert(lines_from(s, t.len() as int + 1) == Seq::<Seq<char>>::empty());
    assert(seq![t] + Seq::<Seq<char>>::empty() =~= seq![t]);
}

/// The parts of `s` between the occurrences of the non-empty `pattern`,
/// found from left to right, where `from` is the start of the part that the
/// index `i` stands in.
pub open spec fn parts_from(s: Seq<char>, from: int, i: int, pattern: Seq<char>) -> Seq<Seq<char>>
    decreases s.len() - i,
{
    if pattern.len() == 0 || i < from || from < 0 || i >= s.len() {
        if 0 <= from <= s.len() {
            seq![s.subrange(from, s.len() as int)]
        } else {
            Seq::empty()
        }
    } else if occurs_at(s, i, pattern) {
        seq![s.subrange(from, i)] + parts_from(s, i + pattern.len(), i + pattern.len(), pattern)
    } else {
        parts_from(s, from, i + 1, pattern)
    }
}

/// The parts of `s` between the occurrences of `pattern`: one more than
/// there are occurrences, and `s` itself for an empty pattern.
pub open spec fn parts_of(s: Seq<char>, pattern: Seq<char>) -> Seq<Seq<char>> {
    parts_from(s, 0, 0, pattern)
}

/// The parts of `s` between the occurrences of `pattern`.
pub fn split_by(s: &Vec<char>, pattern: &Vec<char>) -> (parts: Vec<Vec<char>>)
    ensures
        pieces_view(parts@) == parts_of(s@, pattern@),
{
    let mut parts: Vec<Vec<char>> = Vec::new();
    if pattern.len() == 0 {
        parts.push(slice_of(s, 0, s.len()));
        assert(pieces_view(parts@) =~= seq![s@.subrange(0, s.len() as int)]);
        return parts;
    }
    let mut from: usize = 0;
    let mut i: usize = 0;
    while i < s.len()
        invariant
            from <= i <= s.len(),
            pattern.len() > 0,
            parts_of(s@, pattern@) == pieces_view(parts@) + parts_from(
                s@,
                from as int,
                i as int,
                pattern@,
            ),
        decreases s.len() - i,
    {
        if matches_at(s, i, pattern) {
            let ghost before = pieces_view(parts@);
            let part = slice_of(s, from, i);
            parts.push(part);
            i += pattern.len();
            from = i;
            assert(pieces_view(parts@) =~= before.push(part@));
            assert(before + (seq![part@] + parts_from(s@, from as int, i as int, pattern@))
                =~= before.push(part@) + parts_from(s@, from as int, i as int, pattern@));
        } else {
            i += 1;
        }
    }
    let ghost before = pieces_view(parts@);
    let last = slice_of(s, from, s.len());
    parts.push(last);
    assert(pieces_view(parts@) =~= before + seq![last@]);
    parts
}

} // verus!
