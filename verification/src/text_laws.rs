//! What the functions on text return, for every result they can return.

use vstd::prelude::*;
use vstd::utf8::{decode_utf8_encode_utf8, encode_utf8, encode_utf8_decode_utf8, valid_utf8};

use crate::text::{
    all_digits, decimal, decimal_text, decimal_value, decoded_text, digits_value, utf8_lossy,
    law_decimal_text_writes_number, law_decimal_value, law_padded_text_writes_number,
    padded_decimal, padded_text, parse_decimal, written_number, DecimalError,
};

verus! {

/// Whether `text` is the text of `bytes`: it encodes to them, and where they encode
/// no text it is what `utf8_lossy` names.
pub open spec fn is_text_of(bytes: Seq<u8>, text: Seq<char>) -> bool {
    if valid_utf8(bytes) {
        encode_utf8(text) == bytes
    } else {
        text == utf8_lossy(bytes)
    }
}

/// Bytes have one text.
pub proof fn law_text_is_unique(bytes: Seq<u8>, text: Seq<char>)
    requires
        is_text_of(bytes, text),
    ensures
        text == decoded_text(bytes),
{
    encode_utf8_decode_utf8(text);
}

/// Bytes are decoded to their text.
pub proof fn law_text_is_decoded(bytes: Seq<u8>)
    ensures
        is_text_of(bytes, decoded_text(bytes)),
{
    if valid_utf8(bytes) {
        decode_utf8_encode_utf8(bytes);
    }
}

/// The text behind a plus sign in front, or all of it.
pub open spec fn unsigned(text: Seq<char>) -> Seq<char> {
    if text.len() > 1 && text[0] == '+' {
        text.drop_first()
    } else {
        text
    }
}

/// Whether `text` writes the number `n`: digits, after a plus sign at most.
pub open spec fn writes(text: Seq<char>, n: nat) -> bool {
    &&& unsigned(text).len() > 0
    &&& all_digits(unsigned(text))
    &&& written_number(unsigned(text)) == n
}

/// Whether the character at `i` is the first that is no digit, after digits that
/// write a number that fits in a `usize`.
pub open spec fn invalid_at(digits: Seq<char>, i: int) -> bool {
    &&& 0 <= i < digits.len()
    &&& !('0' <= digits[i] <= '9')
    &&& all_digits(digits.take(i))
    &&& written_number(digits.take(i)) <= usize::MAX
}

/// Whether the first `i` characters are digits that write a number too large for
/// a `usize`.
pub open spec fn too_large_at(digits: Seq<char>, i: int) -> bool {
    &&& 0 <= i <= digits.len()
    &&& all_digits(digits.take(i))
    &&& written_number(digits.take(i)) > usize::MAX
}

/// Whether `text` is no number, and `cause` is the first thing wrong with it.
pub open spec fn writes_none(text: Seq<char>, cause: DecimalError) -> bool {
    match cause {
        DecimalError::Empty => text.len() == 0,
        DecimalError::InvalidDigit => exists|i: int| #[trigger] invalid_at(unsigned(text), i),
        DecimalError::Overflow => exists|i: int| #[trigger] too_large_at(unsigned(text), i),
    }
}

/// Whether `text` shows the number `n`: digits that write it, without zeros in
/// front.
pub open spec fn shows(text: Seq<char>, n: nat) -> bool {
    &&& text.len() > 0
    &&& all_digits(text)
    &&& written_number(text) == n
    &&& text.len() > 1 ==> text[0] != '0'
}

/// The sentence that explains why a text is no number.
pub open spec fn explanation(cause: DecimalError) -> Seq<char> {
    match cause {
        DecimalError::Empty => "cannot parse integer from empty string"@,
        DecimalError::InvalidDigit => "invalid digit found in string"@,
        DecimalError::Overflow => "number too large to fit in target type"@,
    }
}

/// A number is written in the text that shows it.
pub proof fn law_decimal_text_shows_number(n: nat)
    ensures
        shows(decimal_text(n), n),
{
    law_decimal_text_writes_number(n);
    law_no_zeros_in_front(n);
}

/// Whether `text` shows the number `n` in at least `width` digits: digits that write
/// it, with zeros in front only to make up that many.
pub open spec fn shows_padded(text: Seq<char>, n: nat, width: nat) -> bool {
    &&& text.len() > 0
    &&& text.len() >= width
    &&& all_digits(text)
    &&& written_number(text) == n
    &&& text.len() > width && text.len() > 1 ==> text[0] != '0'
}

/// A padded number is written in a text that shows it in that many digits.
pub proof fn law_padded_text_shows_number(n: nat, width: nat)
    ensures
        shows_padded(padded_text(n, width), n, width),
{
    law_padded_text_writes_number(n, width);
    law_no_zeros_in_front(n);
}

/// A number is written in digits that write the number, without zeros in front.
pub proof fn law_decimal(n: usize, text: String)
    requires
        call_ensures(decimal, (n,), text),
    ensures
        shows(text@, n as nat),
{
    law_decimal_text_shows_number(n as nat);
}

/// A number above zero is written without zeros in front.
pub proof fn law_no_zeros_in_front(n: nat)
    ensures
        n > 0 ==> decimal_text(n)[0] != '0',
        decimal_text(n).len() > 1 ==> decimal_text(n)[0] != '0',
    decreases n,
{
    if n >= 10 {
        law_no_zeros_in_front(n / 10);
        law_decimal_text_writes_number(n / 10);
        assert(decimal_text(n)[0] == decimal_text(n / 10)[0]);
    }
}

/// A padded number is written in digits that write the number, at least as many
/// as asked for. Zeros stand in front only to make up that many.
pub proof fn law_padded_decimal(n: usize, width: usize, text: String)
    requires
        call_ensures(padded_decimal, (n, width), text),
    ensures
        shows_padded(text@, n as nat, width as nat),
{
    law_padded_text_shows_number(n as nat, width as nat);
}

proof fn lemma_digits_value(digits: Seq<char>)
    ensures
        match digits_value(digits) {
            Ok(n) => all_digits(digits) && written_number(digits) == n && n <= usize::MAX,
            Err(DecimalError::Empty) => false,
            Err(DecimalError::InvalidDigit) => exists|i: int| #[trigger] invalid_at(digits, i),
            Err(DecimalError::Overflow) => exists|i: int| #[trigger] too_large_at(digits, i),
        },
    decreases digits.len(),
{
    if digits.len() > 0 {
        let front = digits.drop_last();
        let last = digits.len() - 1;
        lemma_digits_value(front);
        assert(digits.take(last) =~= front);
        assert(digits.take(digits.len() as int) =~= digits);
        match digits_value(front) {
            Err(DecimalError::InvalidDigit) => {
                let i = choose|i: int| #[trigger] invalid_at(front, i);
                assert(digits.take(i) =~= front.take(i));
                assert(invalid_at(digits, i));
            },
            Err(_) => {
                let i = choose|i: int| #[trigger] too_large_at(front, i);
                assert(digits.take(i) =~= front.take(i));
                assert(too_large_at(digits, i));
            },
            Ok(value) => {
                if !('0' <= digits.last() <= '9') {
                    assert(invalid_at(digits, last));
                } else {
                    assert forall|i: int| 0 <= i < digits.len() implies '0' <= #[trigger] digits[i]
                        <= '9' by {
                        if i < last {
                            assert('0' <= front[i] <= '9');
                        }
                    }
                    if written_number(digits) > usize::MAX {
                        assert(too_large_at(digits, digits.len() as int));
                    }
                }
            },
        }
    }
}

/// What a text is read as: the number it writes where that fits in a `usize`, and
/// else the first thing wrong with it.
pub proof fn law_text_is_read(text: Seq<char>)
    ensures
        match decimal_value(text) {
            Ok(n) => writes(text, n) && n <= usize::MAX,
            Err(cause) => writes_none(text, cause),
        },
{
    lemma_digits_value(unsigned(text));
}

/// A text that writes a number that fits in a `usize` is read as that number.
pub proof fn law_number_is_read(text: Seq<char>, n: nat)
    requires
        writes(text, n),
        n <= usize::MAX,
    ensures
        decimal_value(text) == Ok::<nat, DecimalError>(n),
{
    law_decimal_value(text);
}

proof fn lemma_more_digits_write_more(digits: Seq<char>, i: int)
    requires
        0 <= i <= digits.len(),
        all_digits(digits),
    ensures
        written_number(digits.take(i)) <= written_number(digits),
    decreases digits.len(),
{
    if i == digits.len() {
        assert(digits.take(i) =~= digits);
    } else {
        assert(digits.drop_last().take(i) =~= digits.take(i));
        lemma_more_digits_write_more(digits.drop_last(), i);
        assert('0' <= digits[digits.len() - 1] <= '9');
    }
}

/// A text that writes a number that fits in a `usize` has nothing wrong with it,
/// and a text has at most one thing wrong with it first.
pub proof fn law_readings_exclude_each_other(
    text: Seq<char>,
    n: nat,
    cause: DecimalError,
    other: DecimalError,
)
    ensures
        writes(text, n) && n <= usize::MAX ==> !writes_none(text, cause),
        writes_none(text, cause) && writes_none(text, other) ==> cause == other,
{
    let digits = unsigned(text);
    if exists|i: int| #[trigger] too_large_at(digits, i) {
        let i = choose|i: int| #[trigger] too_large_at(digits, i);
        if writes(text, n) {
            lemma_more_digits_write_more(digits, i);
        }
        if exists|j: int| #[trigger] invalid_at(digits, j) {
            let j = choose|j: int| #[trigger] invalid_at(digits, j);
            if i <= j {
                assert(digits.take(j).take(i) =~= digits.take(i));
                lemma_more_digits_write_more(digits.take(j), i);
            } else {
                assert(digits.take(i)[j] == digits[j]);
            }
        }
    }
}

/// Reading a number gives the number that the text writes, or the first thing
/// wrong with the text.
pub proof fn law_parse_decimal(text: &str, value: Result<usize, DecimalError>)
    requires
        call_ensures(parse_decimal, (text,), value),
    ensures
        match value {
            Ok(n) => writes(text@, n as nat),
            Err(cause) => writes_none(text@, cause),
        },
{
    law_text_is_read(text@);
}

/// What was written is read back, padded or not.
pub proof fn law_written_number_is_read_back(
    n: usize,
    width: usize,
    padded: String,
    plain: String,
    text: &str,
    value: Result<usize, DecimalError>,
)
    requires
        call_ensures(padded_decimal, (n, width), padded),
        call_ensures(decimal, (n,), plain),
        text@ == padded@ || text@ == plain@,
        call_ensures(parse_decimal, (text,), value),
    ensures
        value == Ok::<usize, DecimalError>(n),
{
    law_padded_decimal(n, width, padded);
    law_decimal(n, plain);
    assert('0' <= text@[0] <= '9');
    law_number_is_read(text@, n as nat);
}

/// Each kind of error is explained in its own sentence.
pub proof fn law_decimal_error_is_explained(error: DecimalError, text: &'static str)
    requires
        call_ensures(DecimalError::message, (&error,), text),
    ensures
        text@ == explanation(error),
{
}

} // verus!
