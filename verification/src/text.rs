//! Characters and strings: what the parsers and the formatters share.

use vstd::prelude::*;

verus! {

/// What `char::is_whitespace` answers for a character: whether it has the
/// Unicode `White_Space` property. Which characters have it is not spelled
/// out here.
pub uninterp spec fn is_whitespace(c: char) -> bool;

/// `char::is_whitespace`: the answer depends on the character alone, and
/// `is_whitespace` is its name.
#[verifier::external_body]
pub(crate) fn char_is_whitespace(c: char) -> (white: bool)
    ensures
        white == is_whitespace(c),
{
    c.is_whitespace()
}

/// `String::push`: the text afterwards is the text before with the
/// character at its end.
#[verifier::external_body]
pub(crate) fn push_char(text: &mut String, c: char)
    ensures
        final(text)@ == old(text)@.push(c),
{
    text.push(c)
}

/// The characters of a string, one by one.
pub fn chars_of(text: &str) -> (chars: Vec<char>)
    ensures
        chars@ == text@,
{
    let mut chars: Vec<char> = Vec::new();
    for c in it: text.chars()
        invariant
            chars@ == text@.take(it.index() as int),
            it.seq() == text@,
    {
        chars.push(c);
    }
    chars
}

/// A text is blank when it holds nothing but whitespace.
pub open spec fn is_blank(text: Seq<char>) -> bool {
    forall|i: int| 0 <= i < text.len() ==> is_whitespace(#[trigger] text[i])
}

/// Decides `is_blank`.
pub fn blank(text: &str) -> (answer: bool)
    ensures
        answer == is_blank(text@),
{
    let chars = chars_of(text);
    let mut idx: usize = 0;
    while idx < chars.len()
        invariant
            idx <= chars.len(),
            chars@ == text@,
            forall|i: int| 0 <= i < idx ==> is_whitespace(#[trigger] text@[i]),
        decreases chars.len() - idx,
    {
        if !char_is_whitespace(chars[idx]) {
            return false;
        }
        idx += 1;
    }
    true
}

/// The character of a decimal digit.
pub open spec fn digit_char(digit: int) -> char {
    if digit == 0 {
        '0'
    } else if digit == 1 {
        '1'
    } else if digit == 2 {
        '2'
    } else if digit == 3 {
        '3'
    } else if digit == 4 {
        '4'
    } else if digit == 5 {
        '5'
    } else if digit == 6 {
        '6'
    } else if digit == 7 {
        '7'
    } else if digit == 8 {
        '8'
    } else {
        '9'
    }
}

/// A number in decimal notation, without sign or leading zeros.
pub open spec fn decimal(n: nat) -> Seq<char>
    decreases n,
{
    if n < 10 {
        seq![digit_char(n as int)]
    } else {
        decimal(n / 10).push(digit_char((n % 10) as int))
    }
}

/// The character of one decimal digit.
pub fn digit(value: u8) -> (c: char)
    requires
        value < 10,
    ensures
        c == digit_char(value as int),
{
    if value == 0 {
        '0'
    } else if value == 1 {
        '1'
    } else if value == 2 {
        '2'
    } else if value == 3 {
        '3'
    } else if value == 4 {
        '4'
    } else if value == 5 {
        '5'
    } else if value == 6 {
        '6'
    } else if value == 7 {
        '7'
    } else if value == 8 {
        '8'
    } else {
        '9'
    }
}

/// Appends a number in decimal notation.
pub fn push_decimal(text: &mut String, n: u128)
    ensures
        final(text)@ == old(text)@ + decimal(n as nat),
    decreases n,
{
    if n >= 10 {
        push_decimal(text, n / 10);
    }
    push_char(text, digit((n % 10) as u8));
    proof {
        if n >= 10 {
            assert(final(text)@ =~= old(text)@ + decimal(n as nat));
        } else {
            assert(final(text)@ =~= old(text)@ + decimal(n as nat));
        }
    }
}

/// A number in decimal notation.
pub fn decimal_text(n: u128) -> (text: String)
    ensures
        text@ == decimal(n as nat),
{
    let mut text = String::new();
    push_decimal(&mut text, n);
    proof {
        assert(text@ =~= decimal(n as nat));
    }
    text
}

/// A text without its leading whitespace.
pub open spec fn strip_start(text: Seq<char>) -> Seq<char>
    decreases text.len(),
{
    if text.len() > 0 && is_whitespace(text[0]) {
        strip_start(text.drop_first())
    } else {
        text
    }
}

/// A text without its trailing whitespace.
pub open spec fn strip_end(text: Seq<char>) -> Seq<char>
    decreases text.len(),
{
    if text.len() > 0 && is_whitespace(text.last()) {
        strip_end(text.drop_last())
    } else {
        text
    }
}

/// A text without the whitespace at either end.
pub open spec fn trimmed(text: Seq<char>) -> Seq<char> {
    strip_end(strip_start(text))
}

/// How many characters stand before the first separator.
pub open spec fn first_piece_len(text: Seq<char>, separator: char) -> int
    decreases text.len(),
{
    if text.len() == 0 || text[0] == separator {
        0
    } else {
        1 + first_piece_len(text.drop_first(), separator)
    }
}

/// The pieces of a text between its separators; a text without separator
/// is one piece, and so is the empty text.
pub open spec fn pieces(text: Seq<char>, separator: char) -> Seq<Seq<char>>
    decreases text.len(),
{
    let first = first_piece_len(text, separator);
    if 0 <= first < text.len() {
        seq![text.take(first)] + pieces(text.skip(first + 1), separator)
    } else {
        seq![text]
    }
}

/// The value of a decimal digit; `None` for any other character.
pub open spec fn digit_value(c: char) -> Option<int> {
    if c == '0' {
        Some(0)
    } else if c == '1' {
        Some(1)
    } else if c == '2' {
        Some(2)
    } else if c == '3' {
        Some(3)
    } else if c == '4' {
        Some(4)
    } else if c == '5' {
        Some(5)
    } else if c == '6' {
        Some(6)
    } else if c == '7' {
        Some(7)
    } else if c == '8' {
        Some(8)
    } else if c == '9' {
        Some(9)
    } else {
        None
    }
}

/// The number that a run of decimal digits denotes; `None` where a
/// character is no digit. The empty run denotes 0.
pub open spec fn digits_value(text: Seq<char>) -> Option<int>
    decreases text.len(),
{
    if text.len() == 0 {
        Some(0)
    } else {
        match (digits_value(text.drop_last()), digit_value(text.last())) {
            (Some(high), Some(low)) => Some(high * 10 + low),
            _ => None,
        }
    }
}

/// The unsigned number that a text denotes: an optional `+`, then at least
/// one decimal digit and nothing else, and a value of at most `max`.
pub open spec fn parse_unsigned(text: Seq<char>, max: int) -> Option<int> {
    let digits = if text.len() > 0 && text[0] == '+' {
        text.drop_first()
    } else {
        text
    };
    if digits.len() == 0 {
        None
    } else {
        match digits_value(digits) {
            Some(value) => if value <= max {
                Some(value)
            } else {
                None
            },
            None => None,
        }
    }
}

/// The value of one decimal digit.
pub fn digit_of(c: char) -> (value: Option<u8>)
    ensures
        match value {
            Some(v) => digit_value(c) == Some(v as int) && v < 10,
            None => digit_value(c) is None,
        },
{
    if c == '0' {
        Some(0)
    } else if c == '1' {
        Some(1)
    } else if c == '2' {
        Some(2)
    } else if c == '3' {
        Some(3)
    } else if c == '4' {
        Some(4)
    } else if c == '5' {
        Some(5)
    } else if c == '6' {
        Some(6)
    } else if c == '7' {
        Some(7)
    } else if c == '8' {
        Some(8)
    } else if c == '9' {
        Some(9)
    } else {
        None
    }
}

proof fn lemma_digits_value_grows(text: Seq<char>, upto: int)
    requires
        0 <= upto < text.len(),
        digits_value(text.take(upto)) is Some,
        digit_value(text[upto]) is Some,
    ensures
        digits_value(text.take(upto + 1)) == Some(
            digits_value(text.take(upto))->0 * 10 + digit_value(text[upto])->0,
        ),
        digits_value(text.take(upto))->0 >= 0,
{
    assert(text.take(upto + 1).drop_last() =~= text.take(upto));
    lemma_digits_not_negative(text.take(upto));
}

proof fn lemma_digits_not_negative(text: Seq<char>)
    ensures
        digits_value(text) matches Some(value) ==> value >= 0,
    decreases text.len(),
{
    if text.len() > 0 {
        lemma_digits_not_negative(text.drop_last());
    }
}

/// A run of digits with a bad prefix is bad, and one whose prefix is too
/// large is too large.
proof fn lemma_digits_prefix(text: Seq<char>, upto: int)
    requires
        0 <= upto <= text.len(),
    ensures
        digits_value(text.take(upto)) is None ==> digits_value(text) is None,
        digits_value(text) matches Some(value) ==> digits_value(text.take(upto))->0 <= value,
    decreases text.len() - upto,
{
    if upto < text.len() {
        assert(text.take(upto + 1).drop_last() =~= text.take(upto));
        lemma_digits_prefix(text, upto + 1);
        lemma_digits_not_negative(text.take(upto));
    } else {
        assert(text.take(upto) =~= text);
    }
}

/// Reads an unsigned decimal number of at most `max`.
pub fn parse_number(text: &Vec<char>, max: u64) -> (value: Option<u64>)
    ensures
        match value {
            Some(v) => parse_unsigned(text@, max as int) == Some(v as int),
            None => parse_unsigned(text@, max as int) is None,
        },
{
    let start: usize = if text.len() > 0 && text[0] == '+' {
        1
    } else {
        0
    };
    if start == text.len() {
        return None;
    }
    let ghost digits = text@.skip(start as int);
    proof {
        if start == 1 {
            assert(digits =~= text@.drop_first());
        } else {
            assert(digits =~= text@);
        }
        assert(digits.take(0) =~= Seq::<char>::empty());
    }
    let mut value: u64 = 0;
    let mut idx: usize = start;
    while idx < text.len()
        invariant
            start <= idx <= text.len(),
            digits == text@.skip(start as int),
            digits_value(digits.take(idx - start)) == Some(value as int),
            value <= max,
            digits.len() > 0,
            parse_unsigned(text@, max as int) == (match digits_value(digits) {
                Some(whole) => if whole <= max {
                    Some(whole)
                } else {
                    None
                },
                None => None,
            }),
        decreases text.len() - idx,
    {
        let ghost done = idx - start;
        proof {
            lemma_digits_prefix(digits, done + 1);
            assert(digits.take(done + 1).drop_last() =~= digits.take(done));
            assert(digits[done] == text@[idx as int]);
        }
        let low: u8 = match digit_of(text[idx]) {
            Some(low) => low,
            None => {
                proof {
                    assert(digits.take(done + 1).last() == digits[done]);
                    assert(digits_value(digits.take(done + 1)) is None);
                }
                return None;
            },
        };
        proof {
            lemma_digits_value_grows(digits, done);
        }
        if (low as u64) > max {
            return None;
        }
        if value > (max - low as u64) / 10 {
            proof {
                assert(value * 10 + low > max) by (nonlinear_arith)
                    requires
                        value > (max - low) / 10,
                        0 <= low <= max,
                        0 <= value,
                ;
            }
            return None;
        }
        proof {
            assert(value * 10 + low <= max) by (nonlinear_arith)
                requires
                    value <= (max - low) / 10,
                    0 <= low <= max,
                    0 <= value,
            ;
        }
        value = value * 10 + low as u64;
        idx += 1;
    }
    proof {
        assert(digits.take(idx - start) =~= digits);
    }
    Some(value)
}

/// The text of some characters.
pub fn string_of(chars: &Vec<char>) -> (text: String)
    ensures
        text@ == chars@,
{
    let mut text = String::new();
    let mut idx: usize = 0;
    while idx < chars.len()
        invariant
            idx <= chars.len(),
            text@ == chars@.take(idx as int),
        decreases chars.len() - idx,
    {
        push_char(&mut text, chars[idx]);
        proof {
            assert(text@ =~= chars@.take(idx as int + 1));
        }
        idx += 1;
    }
    proof {
        assert(chars@.take(idx as int) =~= chars@);
    }
    text
}

proof fn lemma_strip_start(text: Seq<char>, count: int)
    requires
        0 <= count <= text.len(),
        forall|i: int| 0 <= i < count ==> is_whitespace(#[trigger] text[i]),
        count == text.len() || !is_whitespace(text[count]),
    ensures
        strip_start(text) == text.skip(count),
    decreases count,
{
    if count > 0 {
        let rest = text.drop_first();
        assert forall|i: int| 0 <= i < count - 1 implies is_whitespace(#[trigger] rest[i]) by {
            assert(rest[i] == text[i + 1]);
        }
        lemma_strip_start(rest, count - 1);
        assert(rest.skip(count - 1) =~= text.skip(count));
    } else {
        assert(text.skip(0) =~= text);
    }
}

proof fn lemma_strip_end(text: Seq<char>, kept: int)
    requires
        0 <= kept <= text.len(),
        forall|i: int| kept <= i < text.len() ==> is_whitespace(#[trigger] text[i]),
        kept == 0 || !is_whitespace(text[kept - 1]),
    ensures
        strip_end(text) == text.take(kept),
    decreases text.len() - kept,
{
    if kept < text.len() {
        let rest = text.drop_last();
        assert(text.last() == text[text.len() - 1]);
        assert forall|i: int| kept <= i < rest.len() implies is_whitespace(#[trigger] rest[i]) by {
            assert(rest[i] == text[i]);
        }
        lemma_strip_end(rest, kept);
        assert(rest.take(kept) =~= text.take(kept));
    } else {
        assert(text.take(kept) =~= text);
        if kept > 0 {
            assert(text.last() == text[kept - 1]);
        }
    }
}

proof fn lemma_strip_start_shape(text: Seq<char>)
    ensures
        strip_start(text).len() <= text.len(),
        strip_start(text).len() > 0 ==> !is_whitespace(strip_start(text)[0]),
        strip_start(text) == text.skip(text.len() - strip_start(text).len()),
    decreases text.len(),
{
    if text.len() > 0 && is_whitespace(text[0]) {
        let rest = text.drop_first();
        lemma_strip_start_shape(rest);
        assert(rest.skip(rest.len() - strip_start(rest).len()) =~= text.skip(
            text.len() - strip_start(rest).len(),
        ));
    } else {
        assert(text.skip(0) =~= text);
    }
}

proof fn lemma_strip_end_shape(text: Seq<char>)
    ensures
        strip_end(text).len() <= text.len(),
        strip_end(text).len() > 0 ==> !is_whitespace(strip_end(text).last()),
        strip_end(text) == text.take(strip_end(text).len() as int),
    decreases text.len(),
{
    if text.len() > 0 && is_whitespace(text.last()) {
        let rest = text.drop_last();
        lemma_strip_end_shape(rest);
        assert(rest.take(strip_end(rest).len() as int) =~= text.take(
            strip_end(rest).len() as int,
        ));
    } else {
        assert(text.take(text.len() as int) =~= text);
    }
}

/// A trimmed text has no whitespace at either end, so that trimming it
/// again changes nothing.
pub proof fn lemma_trim_settles(text: Seq<char>)
    ensures
        trimmed(trimmed(text)) == trimmed(text),
        trimmed(text).len() > 0 ==> !is_whitespace(trimmed(text)[0]) && !is_whitespace(
            trimmed(text).last(),
        ),
{
    let front = strip_start(text);
    let both = strip_end(front);
    lemma_strip_start_shape(text);
    lemma_strip_end_shape(front);
    if both.len() > 0 {
        assert(both[0] == front[0]);
        assert(strip_start(both) == both);
        assert(strip_end(both) == both);
    } else {
        assert(strip_start(both) == both);
        assert(strip_end(both) == both);
    }
}

/// Some characters without the whitespace at either end.
pub fn trim_chars(text: &Vec<char>) -> (kept: Vec<char>)
    ensures
        kept@ == trimmed(text@),
{
    let mut start: usize = 0;
    while start < text.len() && char_is_whitespace(text[start])
        invariant
            start <= text.len(),
            forall|i: int| 0 <= i < start ==> is_whitespace(#[trigger] text@[i]),
        decreases text.len() - start,
    {
        start += 1;
    }
    let mut end: usize = text.len();
    while end > start && char_is_whitespace(text[end - 1])
        invariant
            start <= end <= text.len(),
            forall|i: int| end <= i < text.len() ==> is_whitespace(#[trigger] text@[i]),
        decreases end,
    {
        end -= 1;
    }
    let mut kept: Vec<char> = Vec::new();
    let mut idx: usize = start;
    while idx < end
        invariant
            start <= idx <= end <= text.len(),
            kept@ == text@.subrange(start as int, idx as int),
        decreases end - idx,
    {
        kept.push(text[idx]);
        proof {
            assert(kept@ =~= text@.subrange(start as int, idx as int + 1));
        }
        idx += 1;
    }
    proof {
        lemma_strip_start(text@, start as int);
        let rest = text@.skip(start as int);
        assert forall|i: int| end - start <= i < rest.len() implies is_whitespace(
            #[trigger] rest[i],
        ) by {
            assert(rest[i] == text@[i + start]);
        }
        if end > start {
            assert(rest[end - start - 1] == text@[end - 1]);
        }
        lemma_strip_end(rest, end - start);
        assert(rest.take(end - start) =~= text@.subrange(start as int, end as int));
    }
    kept
}

/// The texts of some pieces.
pub open spec fn texts(parts: Seq<Vec<char>>) -> Seq<Seq<char>> {
    parts.map_values(|part: Vec<char>| part@)
}

proof fn lemma_first_piece(text: Seq<char>, separator: char, count: int)
    requires
        0 <= count <= text.len(),
        forall|i: int| 0 <= i < count ==> #[trigger] text[i] != separator,
        count == text.len() || text[count] == separator,
    ensures
        first_piece_len(text, separator) == count,
    decreases count,
{
    if count > 0 {
        let rest = text.drop_first();
        assert forall|i: int| 0 <= i < count - 1 implies #[trigger] rest[i] != separator by {
            assert(rest[i] == text[i + 1]);
        }
        if count < text.len() {
            assert(rest[count - 1] == text[count]);
        }
        lemma_first_piece(rest, separator, count - 1);
    }
}

/// Cuts some characters at every separator.
pub fn split_chars(text: &Vec<char>, separator: char) -> (parts: Vec<Vec<char>>)
    ensures
        texts(parts@) == pieces(text@, separator),
        parts.len() > 0,
{
    let mut parts: Vec<Vec<char>> = Vec::new();
    let mut current: Vec<char> = Vec::new();
    let mut begun: usize = 0;
    let mut idx: usize = 0;
    proof {
        assert(text@.skip(0) =~= text@);
        assert(texts(parts@) =~= Seq::<Seq<char>>::empty());
    }
    while idx < text.len()
        invariant
            begun <= idx <= text.len(),
            current@ == text@.subrange(begun as int, idx as int),
            forall|i: int| begun <= i < idx ==> #[trigger] text@[i] != separator,
            pieces(text@, separator) == texts(parts@) + pieces(text@.skip(begun as int), separator),
        decreases text.len() - idx,
    {
        let c: char = text[idx];
        if c == separator {
            proof {
                let rest = text@.skip(begun as int);
                assert forall|i: int| 0 <= i < idx - begun implies #[trigger] rest[i]
                    != separator by {
                    assert(rest[i] == text@[i + begun]);
                }
                assert(rest[idx - begun] == text@[idx as int]);
                lemma_first_piece(rest, separator, idx - begun);
                assert(rest.take(idx - begun) =~= current@);
                assert(rest.skip(idx - begun + 1) =~= text@.skip(idx as int + 1));
                assert(texts(parts@.push(current)) =~= texts(parts@) + seq![current@]);
            }
            parts.push(current);
            current = Vec::new();
            begun = idx + 1;
            proof {
                assert(current@ =~= text@.subrange(begun as int, begun as int));
            }
        } else {
            current.push(c);
            proof {
                assert(current@ =~= text@.subrange(begun as int, idx as int + 1));
            }
        }
        idx += 1;
    }
    proof {
        let rest = text@.skip(begun as int);
        assert forall|i: int| 0 <= i < rest.len() implies #[trigger] rest[i] != separator by {
            assert(rest[i] == text@[i + begun]);
        }
        lemma_first_piece(rest, separator, rest.len() as int);
        assert(rest =~= current@);
        assert(texts(parts@.push(current)) =~= texts(parts@) + seq![current@]);
    }
    parts.push(current);
    parts
}

} // verus!
