//! Text in the shape the rest of the library needs it: character vectors,
//! decimal numbers and decoded bytes.

use vstd::prelude::*;
use vstd::utf8::{decode_utf8, valid_utf8};

verus! {

/// `String::push`: appends one character to the end of the string.
pub assume_specification[ String::push ](s: &mut String, ch: char)
    ensures
        final(s)@ == old(s)@.push(ch),
;

/// What `String::from_utf8_lossy` makes of bytes that are not valid UTF-8.
pub uninterp spec fn utf8_lossy(bytes: Seq<u8>) -> Seq<char>;

/// The text of `bytes`: the characters they encode, and where they are not valid
/// UTF-8, the text with replacement characters that `utf8_lossy` names.
pub open spec fn decoded_text(bytes: Seq<u8>) -> Seq<char> {
    if valid_utf8(bytes) {
        decode_utf8(bytes)
    } else {
        utf8_lossy(bytes)
    }
}

/// The character that stands for bytes that are not valid UTF-8.
pub open spec fn replacement_char() -> char {
    '\u{fffd}'
}

/// Calls `String::from_utf8_lossy`. Bytes that are valid UTF-8 decode to exactly
/// the characters they encode. For all others the result depends on the bytes
/// alone and holds a replacement character; how many of these stand for an
/// invalid sequence is left unsaid.
#[verifier::external_body]
pub(crate) fn lossy_text(bytes: &[u8]) -> (text: String)
    ensures
        valid_utf8(bytes@) ==> text@ == decode_utf8(bytes@),
        !valid_utf8(bytes@) ==> text@ == utf8_lossy(bytes@),
        !valid_utf8(bytes@) ==> text@.contains(replacement_char()),
{
    String::from_utf8_lossy(bytes).into_owned()
}

/// The characters of `text`, in order.
pub(crate) fn chars_of(text: &str) -> (chars: Vec<char>)
    ensures
        chars@ == text@,
{
    let mut chars: Vec<char> = Vec::new();
    for ch in it: text.chars()
        invariant
            it.seq() == text@,
            chars@ == text@.take(it.index() as int),
    {
        chars.push(ch);
    }
    assert(text@.take(text@.len() as int) == text@);
    chars
}

/// The string made of the characters from `start` up to, not with, `end`.
pub(crate) fn string_of(chars: &[char], start: usize, end: usize) -> (text: String)
    requires
        start <= end <= chars@.len(),
    ensures
        text@ == chars@.subrange(start as int, end as int),
{
    let mut text = String::new();
    let mut i: usize = start;
    while i < end
        invariant
            start <= i <= end <= chars@.len(),
            text@ == chars@.subrange(start as int, i as int),
        decreases end - i,
    {
        text.push(chars[i]);
        i = i + 1;
    }
    text
}

/// The character that writes the digit `d`.
pub open spec fn digit_char(d: nat) -> char {
    (('0' as nat) + d) as char
}

/// `n` written in base ten, without a sign and without leading zeros.
pub open spec fn decimal_text(n: nat) -> Seq<char>
    decreases n,
{
    if n < 10 {
        seq![digit_char(n)]
    } else {
        decimal_text(n / 10).push(digit_char(n % 10))
    }
}

/// `n` written in base ten, with zeros in front up to `width` characters.
pub open spec fn padded_text(n: nat, width: nat) -> Seq<char> {
    let digits = decimal_text(n);
    if digits.len() >= width {
        digits
    } else {
        Seq::new((width - digits.len()) as nat, |i: int| '0') + digits
    }
}

fn digit(d: usize) -> (ch: char)
    requires
        d < 10,
    ensures
        ch == digit_char(d as nat),
{
    let code: u8 = 48u8 + d as u8;
    code as char
}

/// Writes `n` in base ten.
pub fn decimal(n: usize) -> (text: String)
    ensures
        text@ == decimal_text(n as nat),
    decreases n,
{
    if n < 10 {
        let mut text = String::new();
        text.push(digit(n));
        text
    } else {
        let mut text = decimal(n / 10);
        text.push(digit(n % 10));
        text
    }
}

/// Writes `n` in base ten with zeros in front up to `width` characters.
pub fn padded_decimal(n: usize, width: usize) -> (text: String)
    ensures
        text@ == padded_text(n as nat, width as nat),
{
    let digits = decimal(n);
    let len: usize = digits.as_str().unicode_len();
    let mut text = String::new();
    let mut zeros: usize = 0;
    while len < width && zeros < width - len
        invariant
            len == digits@.len(),
            zeros == 0 || zeros <= width - len,
            text@ == Seq::new(zeros as nat, |i: int| '0'),
        decreases width - zeros,
    {
        text.push('0');
        zeros = zeros + 1;
    }
    text.append(digits.as_str());
    assert(text@ =~= padded_text(n as nat, width as nat));
    text
}

/// Why a text is not a decimal number.
#[derive(Debug, Clone, Copy, PartialEq, Eq, Structural)]
pub enum DecimalError {
    /// There is no character at all.
    Empty,
    /// A character stands where only a digit may.
    InvalidDigit,
    /// The number does not fit in a `usize`.
    Overflow,
}

impl DecimalError {
    /// The sentence that explains the error.
    pub open spec fn text(self) -> Seq<char> {
        match self {
            DecimalError::Empty => "cannot parse integer from empty string"@,
            DecimalError::InvalidDigit => "invalid digit found in string"@,
            DecimalError::Overflow => "number too large to fit in target type"@,
        }
    }

    /// Explains the error in a sentence.
    pub fn message(&self) -> (text: &'static str)
        ensures
            text@ == self.text(),
    {
        match self {
            DecimalError::Empty => "cannot parse integer from empty string",
            DecimalError::InvalidDigit => "invalid digit found in string",
            DecimalError::Overflow => "number too large to fit in target type",
        }
    }
}

/// Whether `ch` is one of the ten ASCII digits.
pub open spec fn is_digit(ch: char) -> bool {
    '0' <= ch <= '9'
}

/// The number that a run of digits writes. The run is read from the left: the
/// first character that is no digit, or that makes the number too large, is
/// the one reported.
pub open spec fn digits_value(digits: Seq<char>) -> Result<nat, DecimalError>
    decreases digits.len(),
{
    if digits.len() == 0 {
        Ok(0)
    } else {
        match digits_value(digits.drop_last()) {
            Err(e) => Err(e),
            Ok(value) => {
                let ch = digits.last();
                if !is_digit(ch) {
                    Err(DecimalError::InvalidDigit)
                } else if value * 10 + (ch as nat - '0' as nat) > usize::MAX {
                    Err(DecimalError::Overflow)
                } else {
                    Ok((value * 10 + (ch as nat - '0' as nat)) as nat)
                }
            },
        }
    }
}

/// The number that `text` writes: an optional plus sign, then digits only.
pub open spec fn decimal_value(text: Seq<char>) -> Result<nat, DecimalError> {
    if text.len() == 0 {
        Err(DecimalError::Empty)
    } else if text.len() > 1 && text[0] == '+' {
        digits_value(text.drop_first())
    } else {
        digits_value(text)
    }
}

/// An error in the first characters is the error of the whole run.
proof fn lemma_digits_error_stays(digits: Seq<char>, n: int)
    requires
        0 <= n <= digits.len(),
        digits_value(digits.take(n)) is Err,
    ensures
        digits_value(digits) == digits_value(digits.take(n)),
    decreases digits.len() - n,
{
    if n < digits.len() {
        assert(digits.take(n + 1).drop_last() =~= digits.take(n));
        lemma_digits_error_stays(digits, n + 1);
    } else {
        assert(digits.take(n) =~= digits);
    }
}

/// Reads a decimal number: an optional plus sign, then digits only.
pub fn parse_decimal(text: &str) -> (value: Result<usize, DecimalError>)
    ensures
        match (value, decimal_value(text@)) {
            (Ok(n), Ok(v)) => n == v,
            (Err(e), Err(f)) => e == f,
            _ => false,
        },
{
    let chars = chars_of(text);
    if chars.len() == 0 {
        return Err(DecimalError::Empty);
    }
    let first: usize = if chars.len() > 1 && chars[0] == '+' { 1 } else { 0 };
    let ghost digits = text@.skip(first as int);
    assert(first == 1 ==> digits =~= text@.drop_first());
    assert(first == 0 ==> digits =~= text@);
    let mut value: usize = 0;
    let mut i: usize = first;
    while i < chars.len()
        invariant
            first <= i <= chars@.len(),
            digits == chars@.skip(first as int),
            decimal_value(text@) == digits_value(digits),
            digits_value(digits.take(i - first)) == Ok::<nat, DecimalError>(value as nat),
        decreases chars.len() - i,
    {
        let ch = chars[i];
        proof {
            assert(digits.take(i + 1 - first).drop_last() =~= digits.take(i - first));
            assert(digits.take(i + 1 - first).last() == ch);
            if digits_value(digits.take(i + 1 - first)) is Err {
                lemma_digits_error_stays(digits, i + 1 - first);
            }
        }
        if ch < '0' || '9' < ch {
            return Err(DecimalError::InvalidDigit);
        }
        let d: usize = (ch as u32 - 48) as usize;
        if value > (usize::MAX - d) / 10 {
            return Err(DecimalError::Overflow);
        }
        value = value * 10 + d;
        i = i + 1;
    }
    assert(digits.take(digits.len() as int) =~= digits);
    Ok(value)
}

/// The number that a run of digits writes, however large.
pub open spec fn written_number(digits: Seq<char>) -> nat
    decreases digits.len(),
{
    if digits.len() == 0 {
        0
    } else {
        (written_number(digits.drop_last()) * 10 + (digits.last() as nat - '0' as nat)) as nat
    }
}

/// Whether `digits` holds digits only.
pub open spec fn all_digits(digits: Seq<char>) -> bool {
    forall|i: int| 0 <= i < digits.len() ==> '0' <= #[trigger] digits[i] <= '9'
}

/// A number is written in digits that write the number.
pub proof fn law_decimal_text_writes_number(n: nat)
    ensures
        all_digits(decimal_text(n)),
        decimal_text(n).len() > 0,
        written_number(decimal_text(n)) == n,
    decreases n,
{
    if n < 10 {
        reveal_with_fuel(written_number, 2);
    } else {
        law_decimal_text_writes_number(n / 10);
        assert(decimal_text(n).drop_last() =~= decimal_text(n / 10));
    }
}

proof fn lemma_zeros_in_front(zeros: nat, digits: Seq<char>)
    ensures
        written_number(Seq::new(zeros, |i: int| '0') + digits) == written_number(digits),
    decreases zeros + digits.len(),
{
    let all = Seq::new(zeros, |i: int| '0') + digits;
    if digits.len() > 0 {
        assert(all.drop_last() =~= Seq::new(zeros, |i: int| '0') + digits.drop_last());
        lemma_zeros_in_front(zeros, digits.drop_last());
    } else if zeros > 0 {
        let fewer = (zeros - 1) as nat;
        assert(all.drop_last() =~= Seq::new(fewer, |i: int| '0') + digits);
        lemma_zeros_in_front(fewer, digits);
    }
}

/// Zeros in front do not change the number that is written.
pub proof fn law_padded_text_writes_number(n: nat, width: nat)
    ensures
        all_digits(padded_text(n, width)),
        padded_text(n, width).len() > 0,
        padded_text(n, width).len() >= width,
        written_number(padded_text(n, width)) == n,
{
    law_decimal_text_writes_number(n);
    let digits = decimal_text(n);
    if digits.len() < width {
        lemma_zeros_in_front((width - digits.len()) as nat, digits);
    }
}

proof fn lemma_digits_value_is_written_number(digits: Seq<char>)
    ensures
        digits_value(digits) is Ok <==> all_digits(digits) && written_number(digits) <= usize::MAX,
        digits_value(digits) matches Ok(v) ==> v == written_number(digits),
    decreases digits.len(),
{
    if digits.len() > 0 {
        let front = digits.drop_last();
        lemma_digits_value_is_written_number(front);
        if all_digits(digits) {
            assert(forall|i: int| 0 <= i < front.len() ==> front[i] == digits[i]);
            assert(is_digit(digits.last()));
        } else if all_digits(front) && is_digit(digits.last()) {
            assert forall|i: int| 0 <= i < digits.len() implies is_digit(#[trigger] digits[i]) by {
                if i < front.len() {
                    assert(is_digit(front[i]));
                }
            }
        }
    }
}

/// A text is read as a number exactly when it holds digits, after a plus sign at
/// most, and the number they write fits in a `usize`. That number is the result.
pub proof fn law_decimal_value(text: Seq<char>)
    ensures
        ({
            let digits = if text.len() > 1 && text[0] == '+' {
                text.drop_first()
            } else {
                text
            };
            &&& decimal_value(text) is Ok <==> digits.len() > 0 && all_digits(digits)
                && written_number(digits) <= usize::MAX
            &&& decimal_value(text) matches Ok(v) ==> v == written_number(digits)
        }),
{
    if text.len() > 1 && text[0] == '+' {
        lemma_digits_value_is_written_number(text.drop_first());
    } else {
        lemma_digits_value_is_written_number(text);
    }
}

/// Reading a number gives back the number that was written, padded or not.
pub proof fn law_decimal_round_trip(n: usize, width: nat)
    ensures
        decimal_value(padded_text(n as nat, width)) == Ok::<nat, DecimalError>(n as nat),
        decimal_value(decimal_text(n as nat)) == Ok::<nat, DecimalError>(n as nat),
{
    let padded = padded_text(n as nat, width);
    law_padded_text_writes_number(n as nat, width);
    law_decimal_value(padded);
    assert(is_digit(padded[0]));
    let digits = decimal_text(n as nat);
    law_decimal_text_writes_number(n as nat);
    law_decimal_value(digits);
    assert(is_digit(digits[0]));
}

} // verus!
