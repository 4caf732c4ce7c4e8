//! The text form of the numbers: one decimal integer on a line.
//!
//! On input, white space around the integer is ignored and a line that holds
//! nothing but white space counts as absent. The first line that holds
//! anything else than an integer in the range of `i32` fails the input as a
//! whole. On output, every number stands on a line of its own.

use vstd::prelude::*;

verus! {

/// The characters that count as white space: those with the Unicode property
/// `White_Space`.
pub open spec fn is_white_space(c: char) -> bool {
    let u = c as u32;
    ||| 0x09 <= u <= 0x0D
    ||| u == 0x20
    ||| u == 0x85
    ||| u == 0xA0
    ||| u == 0x1680
    ||| 0x2000 <= u <= 0x200A
    ||| u == 0x2028
    ||| u == 0x2029
    ||| u == 0x202F
    ||| u == 0x205F
    ||| u == 0x3000
}

/// `s` without the white space it begins with.
pub open spec fn without_leading_white_space(s: Seq<char>) -> Seq<char>
    decreases s.len(),
{
    if s.len() > 0 && is_white_space(s.first()) {
        without_leading_white_space(s.drop_first())
    } else {
        s
    }
}

/// `s` without the white space it ends with.
pub open spec fn without_trailing_white_space(s: Seq<char>) -> Seq<char>
    decreases s.len(),
{
    if s.len() > 0 && is_white_space(s.last()) {
        without_trailing_white_space(s.drop_last())
    } else {
        s
    }
}

/// `s` without the white space around it.
pub open spec fn trimmed(s: Seq<char>) -> Seq<char> {
    without_trailing_white_space(without_leading_white_space(s))
}

/// One of the ten decimal digits `0` to `9`.
pub open spec fn is_digit(c: char) -> bool {
    '0' <= c <= '9'
}

/// The value of a sequence of decimal digits, the most significant first.
pub open spec fn digits_value(digits: Seq<char>) -> int
    decreases digits.len(),
{
    if digits.len() == 0 {
        0
    } else {
        10 * digits_value(digits.drop_last()) + (digits.last() as int - '0' as int)
    }
}

/// The digits of `s`: all of `s` but a sign that it may begin with.
pub open spec fn digits_of(s: Seq<char>) -> Seq<char> {
    if s.len() > 0 && (s[0] == '-' || s[0] == '+') {
        s.drop_first()
    } else {
        s
    }
}

/// The integer that `s` denotes, if it denotes one in the range of `i32`:
/// an optional sign `+` or `-`, then one or more decimal digits and nothing
/// else.
pub open spec fn number_of(s: Seq<char>) -> Option<int> {
    let digits = digits_of(s);
    let value = if s.len() > 0 && s[0] == '-' {
        -digits_value(digits)
    } else {
        digits_value(digits)
    };
    if digits.len() > 0 && (forall|i: int| 0 <= i < digits.len() ==> is_digit(digits[i]))
        && i32::MIN <= value <= i32::MAX {
        Some(value)
    } else {
        None
    }
}

/// What a sequence of lines holds: the numbers of the lines that are not
/// blank, in order, or the first line, without the white space around it,
/// that is neither blank nor a number.
pub open spec fn numbers_of(lines: Seq<Seq<char>>) -> Result<Seq<int>, Seq<char>>
    decreases lines.len(),
{
    if lines.len() == 0 {
        Ok(Seq::empty())
    } else {
        match numbers_of(lines.drop_last()) {
            Err(line) => Err(line),
            Ok(numbers) => {
                let last = trimmed(lines.last());
                if last.len() == 0 {
                    Ok(numbers)
                } else {
                    match number_of(last) {
                        Some(value) => Ok(numbers.push(value)),
                        None => Err(last),
                    }
                }
            },
        }
    }
}

/// The decimal digits of `value` as ASCII bytes, the most significant first
/// and without leading zeros.
pub open spec fn decimal_digits(value: nat) -> Seq<u8>
    decreases value,
{
    if value < 10 {
        seq![(48 + value) as u8]
    } else {
        decimal_digits(value / 10).push((48 + value % 10) as u8)
    }
}

/// `value` in decimal as ASCII bytes: its digits, after a `-` if it is
/// negative.
pub open spec fn decimal_text(value: int) -> Seq<u8> {
    if value < 0 {
        seq![45u8] + decimal_digits((-value) as nat)
    } else {
        decimal_digits(value as nat)
    }
}

/// The output for `numbers`: each number in decimal, in order, each followed
/// by a line feed.
pub open spec fn lines_text(numbers: Seq<i32>) -> Seq<u8>
    decreases numbers.len(),
{
    if numbers.len() == 0 {
        Seq::empty()
    } else {
        lines_text(numbers.drop_last()) + decimal_text(numbers.last() as int).push(10u8)
    }
}

/// ASCII bytes read as characters.
pub open spec fn as_chars(bytes: Seq<u8>) -> Seq<char> {
    Seq::new(bytes.len(), |i: int| bytes[i] as char)
}

/// A line of the input that is neither blank nor an integer in the range of
/// `i32`.
#[derive(Debug, PartialEq, Eq)]
pub struct ParseError {
    /// The line, without the white space around it.
    pub line: String,
}

/// Removing leading white space leaves what begins at the first character
/// that is not white space.
proof fn lemma_without_leading(s: Seq<char>, from: int)
    requires
        0 <= from <= s.len(),
        forall|i: int| 0 <= i < from ==> is_white_space(s[i]),
        from < s.len() ==> !is_white_space(s[from]),
    ensures
        without_leading_white_space(s) == s.subrange(from, s.len() as int),
    decreases from,
{
    if from == 0 {
        assert(s.subrange(0, s.len() as int) =~= s);
    } else {
        let rest = s.drop_first();
        assert forall|i: int| 0 <= i < from - 1 implies is_white_space(rest[i]) by {
            assert(rest[i] == s[i + 1]);
        }
        lemma_without_leading(rest, from - 1);
        assert(rest.subrange(from - 1, rest.len() as int) =~= s.subrange(from, s.len() as int));
    }
}

/// Removing trailing white space leaves what ends with the last character
/// that is not white space.
proof fn lemma_without_trailing(s: Seq<char>, to: int)
    requires
        0 <= to <= s.len(),
        forall|i: int| to <= i < s.len() ==> is_white_space(s[i]),
        0 < to ==> !is_white_space(s[to - 1]),
    ensures
        without_trailing_white_space(s) == s.subrange(0, to),
    decreases s.len() - to,
{
    if to == s.len() {
        assert(s.subrange(0, to) =~= s);
    } else {
        let rest = s.drop_last();
        lemma_without_trailing(rest, to);
        assert(rest.subrange(0, to) =~= s.subrange(0, to));
    }
}

/// Digits that follow can only raise the value of a sequence of digits.
proof fn lemma_digits_value_grows(digits: Seq<char>, k: int)
    requires
        0 <= k <= digits.len(),
        forall|i: int| 0 <= i < digits.len() ==> is_digit(digits[i]),
    ensures
        0 <= digits_value(digits.take(k)) <= digits_value(digits),
    decreases digits.len() - k,
{
    if k == digits.len() {
        assert(digits.take(k) =~= digits);
        lemma_digits_value_bounds(digits);
    } else {
        lemma_digits_value_grows(digits, k + 1);
        assert(digits.take(k + 1).drop_last() =~= digits.take(k));
        lemma_digits_value_bounds(digits.take(k));
    }
}

/// A sequence of digits has no negative value.
proof fn lemma_digits_value_bounds(digits: Seq<char>)
    requires
        forall|i: int| 0 <= i < digits.len() ==> is_digit(digits[i]),
    ensures
        0 <= digits_value(digits),
    decreases digits.len(),
{
    if digits.len() > 0 {
        lemma_digits_value_bounds(digits.drop_last());
    }
}

/// Once a line of a sequence of lines has failed, the lines that follow do
/// not change the failure.
proof fn lemma_first_failure_stands(lines: Seq<Seq<char>>, k: int)
    requires
        0 <= k <= lines.len(),
        numbers_of(lines.take(k)) is Err,
    ensures
        numbers_of(lines) == numbers_of(lines.take(k)),
    decreases lines.len() - k,
{
    if k == lines.len() {
        assert(lines.take(k) =~= lines);
    } else {
        assert(lines.take(k + 1).drop_last() =~= lines.take(k));
        lemma_first_failure_stands(lines, k + 1);
    }
}

/// The digits written for a number are digits, and their value is the
/// number.
proof fn lemma_decimal_digits_read_back(value: nat)
    ensures
        decimal_digits(value).len() > 0,
        forall|i: int|
            0 <= i < decimal_digits(value).len() ==> is_digit(
                #[trigger] as_chars(decimal_digits(value))[i],
            ),
        digits_value(as_chars(decimal_digits(value))) == value,
    decreases value,
{
    let text = as_chars(decimal_digits(value));
    if value < 10 {
        assert(text.drop_last() =~= Seq::<char>::empty());
        assert(digits_value(text.drop_last()) == 0);
    } else {
        lemma_decimal_digits_read_back(value / 10);
        let shorter = as_chars(decimal_digits(value / 10));
        assert(text.drop_last() =~= shorter);
        assert forall|i: int| 0 <= i < text.len() implies is_digit(#[trigger] text[i]) by {
            if i < shorter.len() {
                assert(text[i] == shorter[i]);
            }
        }
    }
}

/// What is written for a number reads back as that number: the text has no
/// white space around it and denotes the number.
pub proof fn law_written_number_reads_back(value: i32)
    ensures
        trimmed(as_chars(decimal_text(value as int))) == as_chars(decimal_text(value as int)),
        number_of(as_chars(decimal_text(value as int))) == Some(value as int),
{
    let magnitude = if value < 0 {
        (-value) as nat
    } else {
        value as nat
    };
    lemma_decimal_digits_read_back(magnitude);
    let digits = as_chars(decimal_digits(magnitude));
    let text = as_chars(decimal_text(value as int));
    assert(is_digit(digits[0]));
    assert(is_digit(digits[digits.len() - 1]));
    if value < 0 {
        assert(text.drop_first() =~= digits);
        assert(text[0] == '-');
        assert(text.last() == digits.last());
    } else {
        assert(text =~= digits);
    }
    assert(digits_of(text) == digits);
    assert(forall|i: int| 0 <= i < digits.len() ==> is_digit(digits[i]));
    lemma_without_leading(text, 0);
    assert(text.subrange(0, text.len() as int) =~= text);
    lemma_without_trailing(text, text.len() as int);
}

fn white_space(c: char) -> (r: bool)
    ensures
        r == is_white_space(c),
{
    let u = c as u32;
    (0x09 <= u && u <= 0x0D) || u == 0x20 || u == 0x85 || u == 0xA0 || u == 0x1680 || (0x2000 <= u
        && u <= 0x200A) || u == 0x2028 || u == 0x2029 || u == 0x202F || u == 0x205F || u == 0x3000
}

fn chars_of(line: &str) -> (chars: Vec<char>)
    ensures
        chars@ == line@,
{
    let mut chars: Vec<char> = Vec::new();
    for c in it: line.chars()
        invariant
            chars@ == it.seq().take(it.index()),
            it.seq() == line@,
    {
        chars.push(c);
    }
    chars
}

/// The integer that the characters `from..to` of `chars` denote, if they
/// denote one in the range of `i32`.
fn number(chars: &Vec<char>, from: usize, to: usize) -> (r: Option<i32>)
    requires
        from <= to <= chars@.len(),
    ensures
        match r {
            Some(value) => number_of(chars@.subrange(from as int, to as int)) == Some(value as int),
            None => number_of(chars@.subrange(from as int, to as int)) is None,
        },
{
    let ghost s = chars@.subrange(from as int, to as int);
    if from == to {
        return None;
    }
    let negative = chars[from] == '-';
    let first = if negative || chars[from] == '+' {
        from + 1
    } else {
        from
    };
    let ghost digits = digits_of(s);
    assert(s[0] == chars@[from as int]);
    assert(digits =~= chars@.subrange(first as int, to as int));
    if first == to {
        return None;
    }
    let mut value: i64 = 0;
    let mut i = first;
    while i < to
        invariant
            from <= first <= i <= to <= chars@.len(),
            digits == chars@.subrange(first as int, to as int),
            digits == digits_of(chars@.subrange(from as int, to as int)),
            forall|k: int| 0 <= k < i - first ==> is_digit(digits[k]),
            value == digits_value(digits.take(i - first)),
            0 <= value <= 0x8000_0000,
        decreases to - i,
    {
        let c = chars[i];
        assert(c == digits[i - first]);
        if !('0' <= c && c <= '9') {
            assert(!is_digit(digits[i - first]));
            return None;
        }
        let d = (c as u32 - '0' as u32) as i64;
        proof {
            let longer = digits.take(i - first + 1);
            assert(longer.drop_last() =~= digits.take(i - first));
            assert(longer.last() == c);
        }
        value = value * 10 + d;
        i += 1;
        assert(value == digits_value(digits.take(i - first)));
        if value > 0x8000_0000 {
            proof {
                if forall|k: int| 0 <= k < digits.len() ==> is_digit(digits[k]) {
                    lemma_digits_value_grows(digits, i - first);
                }
            }
            return None;
        }
    }
    assert(digits.take(to - first) =~= digits);
    if negative {
        Some((-value) as i32)
    } else if value == 0x8000_0000 {
        None
    } else {
        Some(value as i32)
    }
}

/// Reads one line of input: `Ok(None)` for a blank line, `Ok(Some(n))` for
/// a line that holds the integer `n`, and an error with the line's contents
/// for any other line. White space around the contents does not count.
pub fn parse_line(line: &str) -> (r: Result<Option<i32>, ParseError>)
    ensures
        match r {
            Ok(None) => trimmed(line@).len() == 0,
            Ok(Some(value)) => trimmed(line@).len() > 0 && number_of(trimmed(line@)) == Some(
                value as int,
            ),
            Err(error) => trimmed(line@).len() > 0 && number_of(trimmed(line@)) is None
                && error.line@ == trimmed(line@),
        },
{
    let chars = chars_of(line);
    let n = chars.len();
    let mut from: usize = 0;
    while from < n && white_space(chars[from])
        invariant
            from <= n == chars@.len(),
            forall|i: int| 0 <= i < from ==> is_white_space(chars@[i]),
        decreases n - from,
    {
        from += 1;
    }
    let mut to: usize = n;
    while to > from && white_space(chars[to - 1])
        invariant
            from <= to <= n == chars@.len(),
            forall|i: int| to <= i < n ==> is_white_space(chars@[i]),
        decreases to,
    {
        to -= 1;
    }
    proof {
        lemma_without_leading(chars@, from as int);
        let rest = chars@.subrange(from as int, n as int);
        assert forall|i: int| to - from <= i < rest.len() implies is_white_space(rest[i]) by {
            assert(rest[i] == chars@[i + from]);
        }
        if to > from {
            assert(rest[to - from - 1] == chars@[to - 1]);
        }
        lemma_without_trailing(rest, to - from);
        assert(rest.subrange(0, to - from) =~= chars@.subrange(from as int, to as int));
    }
    if from == to {
        return Ok(None);
    }
    match number(&chars, from, to) {
        Some(value) => Ok(Some(value)),
        None => Err(ParseError { line: line.substring_char(from, to).to_owned() }),
    }
}

/// Reads the lines of an input: the numbers of the lines that are not blank,
/// in order. The first line that is neither blank nor a number fails the
/// input as a whole, whatever the lines before it held.
pub fn parse_lines(lines: &Vec<String>) -> (r: Result<Vec<i32>, ParseError>)
    ensures
        match r {
            Ok(numbers) => numbers_of(lines.deep_view()) == Ok::<Seq<int>, Seq<char>>(
                numbers@.map_values(|n: i32| n as int),
            ),
            Err(error) => numbers_of(lines.deep_view()) == Err::<Seq<int>, Seq<char>>(error.line@),
        },
{
    let ghost all = lines.deep_view();
    let mut numbers: Vec<i32> = Vec::new();
    proof {
        assert(all.take(0) =~= Seq::<Seq<char>>::empty());
        assert(numbers@.map_values(|n: i32| n as int) =~= Seq::<int>::empty());
    }
    for i in 0..lines.len()
        invariant
            all == lines.deep_view(),
            numbers_of(all.take(i as int)) == Ok::<Seq<int>, Seq<char>>(
                numbers@.map_values(|n: i32| n as int),
            ),
    {
        proof {
            assert(all.take(i + 1).drop_last() =~= all.take(i as int));
            assert(all.take(i + 1).last() == lines@[i as int]@);
        }
        match parse_line(lines[i].as_str()) {
            Ok(None) => {},
            Ok(Some(value)) => {
                let ghost before = numbers@;
                numbers.push(value);
                assert(numbers@.map_values(|n: i32| n as int) =~= before.map_values(
                    |n: i32| n as int,
                ).push(value as int));
            },
            Err(error) => {
                proof {
                    lemma_first_failure_stands(all, i + 1);
                }
                return Err(error);
            },
        }
    }
    assert(all.take(lines.len() as int) =~= all);
    Ok(numbers)
}

/// Appends `number` in decimal to `out`.
pub fn render_number(number: i32, out: &mut Vec<u8>)
    ensures
        final(out)@ == old(out)@ + decimal_text(number as int),
{
    let negative = number < 0;
    let magnitude: u32 = if negative {
        (-(number as i64)) as u32
    } else {
        number as u32
    };
    if negative {
        out.push(45u8);
    }
    // The digits from the least significant up.
    let mut reversed: Vec<u8> = Vec::new();
    let mut rest = magnitude;
    loop
        invariant_except_break
            decimal_digits(magnitude as nat) == decimal_digits(rest as nat) + reversed@.reverse(),
        ensures
            decimal_digits(magnitude as nat) == reversed@.reverse(),
        decreases rest,
    {
        let ghost before = reversed@;
        reversed.push(48 + (rest % 10) as u8);
        assert(reversed@.reverse() =~= seq![reversed@.last()] + before.reverse());
        if rest < 10 {
            assert(seq![reversed@.last()] + before.reverse() =~= decimal_digits(rest as nat)
                + before.reverse());
            break;
        }
        assert(decimal_digits(rest as nat) + before.reverse() =~= decimal_digits(
            (rest / 10) as nat,
        ) + reversed@.reverse());
        rest = rest / 10;
    }
    let ghost start = out@;
    let mut i = reversed.len();
    while i > 0
        invariant
            i <= reversed@.len(),
            out@ == start + reversed@.reverse().take(reversed@.len() - i),
        decreases i,
    {
        i -= 1;
        let ghost written = reversed@.len() - i - 1;
        out.push(reversed[i]);
        assert(reversed@.reverse().take(written + 1) =~= reversed@.reverse().take(written).push(
            reversed@[i as int],
        ));
    }
    assert(reversed@.reverse().take(reversed@.len() as int) =~= reversed@.reverse());
    assert(out@ =~= old(out)@ + decimal_text(number as int));
}

/// Writes `numbers` out: each number in decimal on a line of its own, in
/// order.
pub fn render_lines(numbers: &[i32]) -> (text: Vec<u8>)
    ensures
        text@ == lines_text(numbers@),
{
    let mut text: Vec<u8> = Vec::new();
    assert(numbers@.take(0) =~= Seq::<i32>::empty());
    for i in 0..numbers.len()
        invariant
            text@ == lines_text(numbers@.take(i as int)),
    {
        proof {
            assert(numbers@.take(i + 1).drop_last() =~= numbers@.take(i as int));
        }
        render_number(numbers[i], &mut text);
        text.push(10u8);
        assert(text@ =~= lines_text(numbers@.take(i as int)) + decimal_text(
            numbers@[i as int] as int,
        ).push(10u8));
    }
    assert(numbers@.take(numbers@.len() as int) =~= numbers@);
    text
}

} // verus!
