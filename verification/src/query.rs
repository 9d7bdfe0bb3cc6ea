//! Read-side queries: which of them the evaluator can be handed.

use vstd::prelude::*;
use crate::json::is_digit;
use crate::pointer::{digits_value, lemma_digits_value_grows};
use crate::text::{lemma_run_end_bounds, run_end, scan, CharClass};

verus! {

/// A character that a plain index is written with: a digit, a blank, a
/// comma, a colon or a minus.
pub open spec fn plain_index_char(c: char) -> bool {
    is_digit(c) || CharClass::Blank.has(c) || c == ',' || c == ':' || c == '-'
}

/// The largest index that the evaluator takes: what sixty-three bits hold.
pub open spec fn largest_index() -> nat {
    0x7fff_ffff_ffff_ffff
}

/// The number that the digits from `j` on write.
pub open spec fn run_value(q: Seq<char>, j: int) -> nat {
    digits_value(q.subrange(j, run_end(q, j, CharClass::Digit)))
}

/// A colon stands in `q` from `from` up to `to`.
pub open spec fn has_colon(q: Seq<char>, from: int, to: int) -> bool {
    exists|k: int| from <= k < to && #[trigger] q[k] == ':'
}

/// A digit other than zero stands in `q` from `from` up to `to`.
pub open spec fn has_nonzero_digit(q: Seq<char>, from: int, to: int) -> bool {
    exists|k: int| from <= k < to && '1' <= #[trigger] q[k] <= '9'
}

/// What stands in `q` from `from` up to `to` is a plain index: one index,
/// several with commas, or a slice. It is written with the characters of
/// a plain index; a minus stands in none that has a comma; without a
/// colon, no number in it is above the largest index; and behind a second
/// colon stands a digit other than zero, so that the step of a slice is not zero.
pub open spec fn plain_index(q: Seq<char>, from: int, to: int) -> bool {
    &&& forall|j: int| from <= j < to ==> plain_index_char(#[trigger] q[j])
    &&& forall|i: int, j: int|
        from <= i < to && from <= j < to ==> !(#[trigger] q[i] == ',' && #[trigger] q[j] == '-')
    &&& has_colon(q, from, to) || forall|j: int|
        from <= j < to ==> #[trigger] run_value(q, j) <= largest_index()
    &&& forall|i: int, j: int|
        from <= i < j < to && #[trigger] q[i] == ':' && #[trigger] q[j] == ':' ==> has_nonzero_digit(
            q,
            j + 1,
            to,
        )
}

/// The bracket whose content starts at `start` is safe: where the content
/// begins as a number or as a slice, with a digit, a minus or a colon, it
/// is a plain index up to the closing bracket.
pub open spec fn safe_bracket(q: Seq<char>, start: int) -> bool {
    let first = run_end(q, start, CharClass::Blank);
    let end = run_end(q, first, CharClass::Except(']'));
    (0 <= first < q.len() && (is_digit(q[first]) || q[first] == '-' || q[first] == ':'))
        ==> plain_index(q, first, end)
}

/// Where the character at `i` stands with respect to the quoted texts of a
/// query, read from the left.
pub enum Quoting {
    /// Outside a quoted text.
    Outside,
    /// Inside a quoted text.
    Inside,
    /// Inside a quoted text, behind a backslash.
    Escaped,
}

/// Where the character at `i` stands. A quoted text begins with a single
/// or a double quote and ends with the next of either that stands
/// behind no backslash.
pub open spec fn quoting(q: Seq<char>, i: int) -> Quoting
    decreases i,
{
    if i <= 0 || i > q.len() {
        Quoting::Outside
    } else {
        quoting_behind(quoting(q, i - 1), q[i - 1])
    }
}

/// Where the character behind `c` stands, from where `c` stands.
pub open spec fn quoting_behind(before: Quoting, c: char) -> Quoting {
    match before {
        Quoting::Outside => if c == '"' || c == '\'' {
            Quoting::Inside
        } else {
            Quoting::Outside
        },
        Quoting::Inside => if c == '\\' {
            Quoting::Escaped
        } else if c == '"' || c == '\'' {
            Quoting::Outside
        } else {
            Quoting::Inside
        },
        Quoting::Escaped => Quoting::Inside,
    }
}

impl Quoting {
    /// Where the character behind `c` stands, from where `c` stands.
    fn behind(self, c: char) -> (after: Quoting)
        ensures
            after == quoting_behind(self, c),
    {
        match self {
            Quoting::Outside => if c == '"' || c == '\'' {
                Quoting::Inside
            } else {
                Quoting::Outside
            },
            Quoting::Inside => if c == '\\' {
                Quoting::Escaped
            } else if c == '"' || c == '\'' {
                Quoting::Outside
            } else {
                Quoting::Inside
            },
            Quoting::Escaped => Quoting::Inside,
        }
    }
}

/// A query that the evaluator can be handed: each of its brackets outside
/// a quoted text is safe. The evaluator stops on an index that is no
/// whole number from zero up to what sixty-three bits hold, and on a
/// slice with the step zero.
pub open spec fn safe_query(q: Seq<char>) -> bool {
    forall|i: int|
        0 <= i < q.len() && q[i] == '[' && quoting(q, i) is Outside ==> safe_bracket(q, i + 1)
}

/// Whether the digits from `from` up to `to` write a number that is an index.
fn is_index(q: &Vec<char>, from: usize, to: usize) -> (fits: bool)
    requires
        from <= to <= q.len(),
        forall|k: int| from <= k < to ==> is_digit(#[trigger] q[k]),
    ensures
        fits == (digits_value(q@.subrange(from as int, to as int)) <= largest_index()),
{
    let ghost digits = q@.subrange(from as int, to as int);
    let mut value: u64 = 0;
    let mut k: usize = from;
    while k < to
        invariant
            from <= k <= to <= q.len(),
            digits == q@.subrange(from as int, to as int),
            forall|p: int| 0 <= p < digits.len() ==> is_digit(#[trigger] digits[p]),
            value == digits_value(digits.take(k - from)),
            value <= largest_index(),
        decreases to - k,
    {
        assert(digits[k - from] == q[k as int]);
        assert(is_digit(q[k as int]));
        let digit: u64 = (q[k] as u32 - '0' as u32) as u64;
        proof {
            assert(digits.take(k - from + 1).drop_last() =~= digits.take(k - from));
            assert(digits.take(k - from + 1).last() == q[k as int]);
            lemma_digits_value_grows(digits, k - from + 1);
        }
        if value > (0x7fff_ffff_ffff_ffff - digit) / 10 {
            return false;
        }
        value = value * 10 + digit;
        k += 1;
    }
    assert(digits.take(to - from) =~= digits);
    true
}

/// Whether what stands in `q` from `from` up to `to` is a plain index.
fn is_plain_index(q: &Vec<char>, from: usize, to: usize) -> (plain: bool)
    requires
        from <= to <= q.len(),
    ensures
        plain == plain_index(q@, from as int, to as int),
{
    let mut colons: usize = 0;
    let mut last_colon: usize = from;
    let mut nonzero = false;
    let mut comma = false;
    let mut minus = false;
    let mut j: usize = from;
    while j < to
        invariant
            from <= j <= to <= q.len(),
            colons <= 2,
            forall|k: int| from <= k < j ==> plain_index_char(#[trigger] q[k]),
            colons == 0 <==> !has_colon(q@, from as int, j as int),
            colons >= 1 ==> from <= last_colon < j && q[last_colon as int] == ':' && forall|k: int|
                last_colon < k < j ==> #[trigger] q[k] != ':',
            colons == 1 ==> !has_colon(q@, from as int, last_colon as int),
            colons == 2 ==> has_colon(q@, from as int, last_colon as int),
            colons >= 1 ==> (nonzero <==> has_nonzero_digit(q@, last_colon + 1, j as int)),
            comma <==> exists|a: int| from <= a < j && #[trigger] q[a] == ',',
            minus <==> exists|a: int| from <= a < j && #[trigger] q[a] == '-',
            !(comma && minus),
        decreases to - j,
    {
        let c = q[j];
        let is_plain = ('0' <= c && c <= '9') || c == ' ' || c == '\t' || c == '\r' || c == '\n'
            || c == ',' || c == ':' || c == '-';
        if !is_plain {
            return false;
        }
        if c == ':' {
            proof {
                if colons >= 1 {
                    assert(has_colon(q@, from as int, j as int));
                }
            }
            if colons < 2 {
                colons += 1;
            }
            last_colon = j;
            nonzero = false;
        } else if '1' <= c && c <= '9' {
            nonzero = true;
        }
        if c == ',' {
            if minus {
                let ghost a = choose|a: int| from <= a < j && #[trigger] q[a] == '-';
                assert(q[j as int] == ',' && q[a] == '-');
                return false;
            }
            comma = true;
        }
        if c == '-' {
            if comma {
                let ghost a = choose|a: int| from <= a < j && #[trigger] q[a] == ',';
                assert(q[a] == ',' && q[j as int] == '-');
                return false;
            }
            minus = true;
        }
        j += 1;
    }
    assert forall|a: int, b: int| from <= a < to && from <= b < to implies !(#[trigger] q[a] == ','
        && #[trigger] q[b] == '-') by {
        if q[a] == ',' && q[b] == '-' {
            assert(comma && minus);
        }
    }
    if colons == 2 && !nonzero {
        proof {
            let a = choose|a: int| from <= a < last_colon && #[trigger] q[a] == ':';
            assert(q[a] == ':' && q[last_colon as int] == ':');
        }
        return false;
    }
    assert forall|a: int, b: int|
        from <= a < b < to && #[trigger] q[a] == ':' && #[trigger] q[b] == ':' implies has_nonzero_digit(
        q@,
        b + 1,
        to as int,
    ) by {
        assert(has_colon(q@, from as int, b));
        assert(b <= last_colon);
        assert(colons == 2);
        let k = choose|k: int| last_colon + 1 <= k < to && '1' <= #[trigger] q[k] <= '9';
        assert(b + 1 <= k < to && '1' <= q[k] <= '9');
    }
    if colons > 0 {
        return true;
    }
    let mut j: usize = from;
    while j < to
        invariant
            from <= j <= to <= q.len(),
            !has_colon(q@, from as int, to as int),
            forall|k: int| from <= k < j ==> #[trigger] run_value(q@, k) <= largest_index(),
        decreases to - j,
    {
        let end = scan(q, j, CharClass::Digit);
        proof {
            lemma_run_end_bounds(q@, j as int, CharClass::Digit);
        }
        if !is_index(q, j, end) {
            assert(run_value(q@, j as int) > largest_index());
            return false;
        }
        j += 1;
    }
    true
}

/// Whether the evaluator can be handed the query.
pub fn is_safe_query(query: &str) -> (safe: bool)
    ensures
        safe == safe_query(query@),
{
    let q = crate::text::chars_of(query);
    let mut state = Quoting::Outside;
    let mut i: usize = 0;
    while i < q.len()
        invariant
            i <= q.len(),
            q@ == query@,
            state == quoting(q@, i as int),
            forall|k: int|
                0 <= k < i && q[k] == '[' && quoting(q@, k) is Outside ==> safe_bracket(q@, k + 1),
        decreases q.len() - i,
    {
        let c = q[i];
        let outside = match state {
            Quoting::Outside => true,
            _ => false,
        };
        if outside && c == '[' {
            let first = scan(&q, i + 1, CharClass::Blank);
            if first < q.len() && (('0' <= q[first] && q[first] <= '9') || q[first] == '-'
                || q[first] == ':') {
                let end = scan(&q, first, CharClass::Except(']'));
                if !is_plain_index(&q, first, end) {
                    return false;
                }
            }
        }
        state = state.behind(c);
        i += 1;
    }
    true
}

} // verus!
