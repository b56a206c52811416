//! Lines of text as the data files hold them: fields separated by single
//! spaces, numbers in decimal.

use vstd::prelude::*;

verus! {

/// The characters that count as white space at the ends of a line.
pub open spec fn is_space(c: char) -> bool {
    let code = c as u32;
    ||| 0x09 <= code <= 0x0D
    ||| code == 0x20
    ||| code == 0x85
    ||| code == 0xA0
    ||| code == 0x1680
    ||| 0x2000 <= code <= 0x200A
    ||| code == 0x2028
    ||| code == 0x2029
    ||| code == 0x202F
    ||| code == 0x205F
    ||| code == 0x3000
}

/// `s` without the white space at its start.
pub open spec fn trim_start(s: Seq<char>) -> Seq<char>
    decreases s.len(),
{
    if s.len() > 0 && is_space(s[0]) {
        trim_start(s.drop_first())
    } else {
        s
    }
}

/// `s` without the white space at its end.
pub open spec fn trim_end(s: Seq<char>) -> Seq<char>
    decreases s.len(),
{
    if s.len() > 0 && is_space(s.last()) {
        trim_end(s.drop_last())
    } else {
        s
    }
}

/// `s` without the white space at both ends.
pub open spec fn trimmed(s: Seq<char>) -> Seq<char> {
    trim_end(trim_start(s))
}

/// The pieces into which the space characters cut `s`. There is one piece
/// more than there are spaces, and a piece may be empty.
pub open spec fn fields(s: Seq<char>) -> Seq<Seq<char>>
    decreases s.len(),
{
    if s.len() == 0 {
        seq![Seq::empty()]
    } else {
        let front = fields(s.drop_last());
        if s.last() == ' ' {
            front.push(Seq::empty())
        } else {
            front.drop_last().push(front.last().push(s.last()))
        }
    }
}

/// The value of a decimal digit.
pub open spec fn digit_value(c: char) -> Option<nat> {
    let code = c as u32;
    if 0x30 <= code <= 0x39 {
        Some((code - 0x30) as nat)
    } else {
        None
    }
}

/// The value of a sequence of decimal digits; nothing where a character is
/// no digit.
pub open spec fn digits_value(s: Seq<char>) -> Option<nat>
    decreases s.len(),
{
    if s.len() == 0 {
        Some(0nat)
    } else {
        match (digits_value(s.drop_last()), digit_value(s.last())) {
            (Some(high), Some(low)) => Some(10 * high + low),
            _ => None,
        }
    }
}

/// The value as a `usize`, where there is one and a `usize` can hold it.
pub open spec fn bounded(value: Option<nat>) -> Option<usize> {
    match value {
        Some(v) => if v <= usize::MAX {
            Some(v as usize)
        } else {
            None
        },
        None => None,
    }
}

/// The number that `s` spells: an optional `+` and then at least one decimal
/// digit, with a value that a `usize` can hold.
pub open spec fn number(s: Seq<char>) -> Option<usize> {
    let digits = if s.len() > 0 && s[0] == '+' {
        s.drop_first()
    } else {
        s
    };
    if digits.len() == 0 {
        None
    } else {
        bounded(digits_value(digits))
    }
}

/// The number in field `index` of the trimmed line; nothing where the line
/// has no such field or the field spells no number.
pub open spec fn number_at(line: Seq<char>, index: int) -> Option<usize> {
    let parts = fields(trimmed(line));
    if 0 <= index < parts.len() {
        number(parts[index])
    } else {
        None
    }
}

/// The characters of `line`, in their order.
pub fn chars_of(line: &str) -> (chars: Vec<char>)
    ensures
        chars@ == line@,
{
    let mut chars: Vec<char> = Vec::new();
    for c in it: line.chars()
        invariant
            it.seq() == line@,
            chars@ == it.seq().take(it.index() as int),
    {
        chars.push(c);
    }
    chars
}

/// Tells whether `c` counts as white space.
fn is_space_char(c: char) -> (space: bool)
    ensures
        space == is_space(c),
{
    let code: u32 = c as u32;
    (0x09 <= code && code <= 0x0D) || code == 0x20 || code == 0x85 || code == 0xA0 || code == 0x1680 || (
    0x2000 <= code && code <= 0x200A) || code == 0x2028 || code == 0x2029 || code == 0x202F || code
        == 0x205F || code == 0x3000
}

/// White space alone up to `from`, and none at `from`: trimming the start
/// leaves what begins at `from`.
proof fn lemma_trim_start_at(s: Seq<char>, from: int)
    requires
        0 <= from <= s.len(),
        forall|i: int| 0 <= i < from ==> is_space(#[trigger] s[i]),
        from < s.len() ==> !is_space(s[from]),
    ensures
        trim_start(s) == s.subrange(from, s.len() as int),
    decreases from,
{
    if from > 0 {
        let rest = s.drop_first();
        lemma_trim_start_at(rest, from - 1);
    }
}

/// White space alone from `to` on, and none just before `to`: trimming the
/// end leaves what ends at `to`.
proof fn lemma_trim_end_at(s: Seq<char>, to: int)
    requires
        0 <= to <= s.len(),
        forall|i: int| to <= i < s.len() ==> is_space(#[trigger] s[i]),
        to > 0 ==> !is_space(s[to - 1]),
    ensures
        trim_end(s) == s.subrange(0, to),
    decreases s.len() - to,
{
    if to < s.len() {
        let rest = s.drop_last();
        lemma_trim_end_at(rest, to);
    }
}

/// Finds where the trimmed line starts and ends.
fn trim_bounds(chars: &Vec<char>) -> (bounds: (usize, usize))
    ensures
        bounds.0 <= bounds.1 <= chars@.len(),
        chars@.subrange(bounds.0 as int, bounds.1 as int) == trimmed(chars@),
{
    let mut from: usize = 0;
    while from < chars.len() && is_space_char(chars[from])
        invariant
            from <= chars@.len(),
            forall|i: int| 0 <= i < from ==> is_space(#[trigger] chars@[i]),
        decreases chars@.len() - from,
    {
        from += 1;
    }
    let mut to: usize = chars.len();
    while to > from && is_space_char(chars[to - 1])
        invariant
            from <= to <= chars@.len(),
            forall|i: int| to <= i < chars@.len() ==> is_space(#[trigger] chars@[i]),
        decreases to,
    {
        to -= 1;
    }
    proof {
        let s = chars@;
        let tail = s.subrange(from as int, s.len() as int);
        lemma_trim_start_at(s, from as int);
        lemma_trim_end_at(tail, to - from);
    }
    (from, to)
}

/// The views of the vectors of `parts`.
spec fn parts_view(parts: Seq<Vec<char>>) -> Seq<Seq<char>> {
    Seq::new(parts.len(), |i: int| parts[i]@)
}

/// Cuts the characters from `from` to `to` at each space.
fn split_fields(chars: &Vec<char>, from: usize, to: usize) -> (parts: Vec<Vec<char>>)
    requires
        from <= to <= chars@.len(),
    ensures
        parts_view(parts@) == fields(chars@.subrange(from as int, to as int)),
{
    let ghost s = chars@.subrange(from as int, to as int);
    let mut parts: Vec<Vec<char>> = Vec::new();
    let mut current: Vec<char> = Vec::new();
    let mut i: usize = from;
    while i < to
        invariant
            from <= i <= to <= chars@.len(),
            s == chars@.subrange(from as int, to as int),
            parts_view(parts@).push(current@) == fields(s.take(i - from)),
        decreases to - i,
    {
        let c = chars[i];
        let ghost done = s.take(i - from);
        let ghost next = s.take(i - from + 1);
        proof {
            assert(next.drop_last() == done);
        }
        if c == ' ' {
            parts.push(current);
            current = Vec::new();
        } else {
            current.push(c);
        }
        i += 1;
    }
    parts.push(current);
    proof {
        assert(s.take(to - from) == s);
    }
    parts
}

/// Where the digits spell a value, each shorter start of them spells one
/// too, and no greater one.
proof fn lemma_digits_prefix(s: Seq<char>, upto: int)
    requires
        0 <= upto <= s.len(),
        digits_value(s) is Some,
    ensures
        digits_value(s.take(upto)) is Some,
        digits_value(s.take(upto)).unwrap() <= digits_value(s).unwrap(),
    decreases s.len(),
{
    if upto == s.len() {
        assert(s.take(upto) == s);
    } else {
        lemma_digits_prefix(s.drop_last(), upto);
        assert(s.drop_last().take(upto) == s.take(upto));
    }
}

/// Reads the number that the characters spell.
fn parse_number(field: &Vec<char>) -> (value: Option<usize>)
    ensures
        value == number(field@),
{
    let start: usize = if field.len() > 0 && field[0] == '+' {
        1
    } else {
        0
    };
    let ghost digits = field@.subrange(start as int, field@.len() as int);
    proof {
        if start == 0 {
            assert(digits == field@);
        }
    }
    if start == field.len() {
        return None;
    }
    let mut total: usize = 0;
    let mut i: usize = start;
    while i < field.len()
        invariant
            start <= i <= field@.len(),
            digits == field@.subrange(start as int, field@.len() as int),
            number(field@) == bounded(digits_value(digits)),
            digits_value(digits.take(i - start)) == Some(total as nat),
        decreases field@.len() - i,
    {
        let c: char = field[i];
        let code: u32 = c as u32;
        let ghost done = digits.take(i - start);
        let ghost next = digits.take(i - start + 1);
        proof {
            assert(next.drop_last() == done);
        }
        if code < 0x30 || code > 0x39 {
            proof {
                if digits_value(digits) is Some {
                    lemma_digits_prefix(digits, i - start + 1);
                }
            }
            return None;
        }
        let low: usize = (code - 0x30) as usize;
        if total > (usize::MAX - low) / 10 {
            proof {
                if digits_value(digits) is Some {
                    lemma_digits_prefix(digits, i - start + 1);
                }
            }
            return None;
        }
        total = 10 * total + low;
        i += 1;
    }
    proof {
        assert(digits.take(digits.len() as int) == digits);
    }
    Some(total)
}

/// Trims the line and cuts it at each space.
fn line_fields(line: &str) -> (parts: Vec<Vec<char>>)
    ensures
        parts_view(parts@) == fields(trimmed(line@)),
{
    let chars = chars_of(line);
    let (from, to) = trim_bounds(&chars);
    split_fields(&chars, from, to)
}

/// Reads the number in field `index` of the line. The line is trimmed of
/// white space at both ends and cut at each space; the fields are counted
/// from zero. Gives nothing where the line has no such field, or where the
/// field is no decimal number that a `usize` holds.
pub fn field_number(line: &str, index: usize) -> (value: Option<usize>)
    ensures
        value == number_at(line@, index as int),
{
    let parts = line_fields(line);
    if index < parts.len() {
        parse_number(&parts[index])
    } else {
        None
    }
}

/// Reads the numbers in two fields of the line, as `field_number` reads one.
/// Gives nothing unless both are there.
pub fn field_numbers(line: &str, first: usize, second: usize) -> (values: Option<(usize, usize)>)
    ensures
        values == match (number_at(line@, first as int), number_at(line@, second as int)) {
            (Some(a), Some(b)) => Some((a, b)),
            _ => None,
        },
{
    let parts = line_fields(line);
    if first < parts.len() && second < parts.len() {
        match (parse_number(&parts[first]), parse_number(&parts[second])) {
            (Some(a), Some(b)) => Some((a, b)),
            _ => None,
        }
    } else {
        None
    }
}

} // verus!
