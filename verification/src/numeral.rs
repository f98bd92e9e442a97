//! The digit alphabet of the numeric bases 2 to 36, how many digits make a
//! byte, and what a text of digits decodes to.

use vstd::prelude::*;
use vstd::arithmetic::div_mod::{
    lemma_basic_div,
    lemma_div_denominator,
    lemma_div_minus_one,
    lemma_div_multiples_vanish,
    lemma_fundamental_div_mod,
    lemma_mod_bound,
    lemma_mod_multiples_basic,
    lemma_mod_sub_multiples_vanish,
    lemma_small_mod,
};
use vstd::arithmetic::power::{lemma_pow_increases, lemma_pow_positive, pow};
use crate::byte_reader::{leading_bytes, lemma_leading_bytes, Item};
use crate::error::{ErrorType, InError};

verus! {

/// The smallest numeric base.
pub const MIN_RADIX: u8 = 2;

/// The largest numeric base: ten figures and twenty-six letters.
pub const MAX_RADIX: u8 = 36;

/// A base that has an alphabet.
pub open spec fn is_radix(radix: u8) -> bool {
    MIN_RADIX <= radix <= MAX_RADIX
}

/// Tells whether `base` is a base that has an alphabet: one of 2 to 36.
pub fn is_base(base: u8) -> (known: bool)
    ensures
        known == is_radix(base),
{
    MIN_RADIX <= base && base <= MAX_RADIX
}

/// The value that a character has as a digit, whatever the base: `'0'` to
/// `'9'` are 0 to 9, and `'a'` to `'z'` are 10 to 35, as are `'A'` to `'Z'`.
/// Any other character gets 36, which is a digit of no base.
pub open spec fn symbol_value(c: char) -> u8 {
    if '0' <= c <= '9' {
        (c as u8 - 0x30) as u8
    } else if 'a' <= c <= 'z' {
        (c as u8 - 0x61 + 10) as u8
    } else if 'A' <= c <= 'Z' {
        (c as u8 - 0x41 + 10) as u8
    } else {
        36
    }
}

/// The value of `c` as a digit of base `radix`, or `None` where it is none.
pub open spec fn digit_value(radix: u8, c: char) -> Option<u8> {
    if symbol_value(c) < radix {
        Some(symbol_value(c))
    } else {
        None
    }
}

/// The character that writes the digit `d`: a figure, or a lowercase letter
/// from 10 on.
pub open spec fn symbol_of(d: u8) -> u8 {
    if d < 10 {
        (0x30 + d) as u8
    } else {
        (0x61 + (d - 10)) as u8
    }
}

/// The character that writes `d` in base `radix`, or `None` where `d` is no
/// digit of that base.
pub open spec fn digit_symbol(radix: u8, d: u8) -> Option<u8> {
    if d < radix {
        Some(symbol_of(d))
    } else {
        None
    }
}

/// The capital of a small letter, and any other character as it is.
pub open spec fn to_uppercase(c: char) -> char {
    if 'a' <= c <= 'z' {
        ((c as u8 - 0x20) as u8) as char
    } else {
        c
    }
}

/// `k` digits of base `radix` reach every byte value, and `k - 1` do not.
pub open spec fn reaches_a_byte(radix: u8, k: nat) -> bool {
    k >= 1 && pow(radix as int, k) >= 256 && pow(radix as int, (k - 1) as nat) < 256
}

/// How many digits of base `radix` write one byte: the least count that
/// reaches every value from 0 to 255.
pub open spec fn digits_per_byte(radix: u8) -> nat {
    choose|k: nat| reaches_a_byte(radix, k)
}

/// The known digit counts: 8 for base 2, 6 for base 3, 4 up to base 6, 3 up
/// to base 15, and 2 from base 16 on.
pub open spec fn digits_per_byte_table(radix: u8) -> nat {
    if radix == 2 {
        8
    } else if radix == 3 {
        6
    } else if radix <= 6 {
        4
    } else if radix <= 15 {
        3
    } else {
        2
    }
}

/// ASCII whitespace: space, tab, line feed, form feed, carriage return.
pub open spec fn is_whitespace(byte: u8) -> bool {
    byte == 0x20 || byte == 0x09 || byte == 0x0a || byte == 0x0c || byte == 0x0d
}

/// Tells whether `byte` is ASCII whitespace.
pub fn is_ascii_whitespace(byte: u8) -> (space: bool)
    ensures
        space == is_whitespace(byte),
{
    byte == 0x20 || byte == 0x09 || byte == 0x0a || byte == 0x0c || byte == 0x0d
}

/// The characters of `input` that are not whitespace, in order: whitespace
/// separates, and is no part of the text.
pub open spec fn digits(input: Seq<u8>) -> Seq<u8> {
    input.filter(|byte: u8| !is_whitespace(byte))
}

/// How many characters at the front of `input` are whitespace.
pub open spec fn leading_whitespace(input: Seq<u8>) -> nat
    decreases input.len(),
{
    if input.len() == 0 || !is_whitespace(input[0]) {
        0
    } else {
        1 + leading_whitespace(input.skip(1))
    }
}

/// The byte is a digit of base `radix`.
pub open spec fn is_digit(radix: u8, byte: u8) -> bool {
    digit_value(radix, byte as char) is Some
}

/// How many characters at the front of `text` are digits of base `radix`.
pub open spec fn valid_prefix(radix: u8, text: Seq<u8>) -> nat
    decreases text.len(),
{
    if text.len() == 0 || !is_digit(radix, text[0]) {
        0
    } else {
        1 + valid_prefix(radix, text.skip(1))
    }
}

/// The number that the digits of `group` write in base `radix`, the most
/// significant first: each digit counts `radix` times as much as the one
/// after it.
pub open spec fn number(radix: u8, group: Seq<u8>) -> nat
    decreases group.len(),
{
    if group.len() == 0 {
        0
    } else {
        number(radix, group.drop_last()) * (radix as nat) + symbol_value(
            group.last() as char,
        ) as nat
    }
}

/// The byte that a group of digits decodes to: the number it writes, of
/// which a byte keeps the low eight bits where the number is above 255.
pub open spec fn byte_of(radix: u8, group: Seq<u8>) -> u8 {
    (number(radix, group) % 256) as u8
}

/// The `i`-th group of `text`: as many characters as make a byte.
pub open spec fn group(radix: u8, text: Seq<u8>, i: int) -> Seq<u8> {
    text.subrange(i * digits_per_byte(radix), i * digits_per_byte(radix) + digits_per_byte(radix))
}

/// How the items of `text` end, where `failure` is how the source ended
/// behind it. A character that is no digit is reported as it is reached.
/// Where all are digits, a failure of the source is reported. Where the
/// source ended well and the last group is short of a byte, the number of
/// digits that it has is reported. Where the digits make whole groups,
/// nothing follows them.
pub open spec fn ending(radix: u8, text: Seq<u8>, failure: Option<std::io::Error>) -> Seq<Item> {
    let width = digits_per_byte(radix);
    let valid = valid_prefix(radix, text);
    if valid < text.len() {
        seq![Err(ErrorType::InvalidByte(text[valid as int] as char))]
    } else if failure is Some {
        seq![Err(ErrorType::StdIO(failure->0))]
    } else if valid % width != 0 {
        seq![Err(ErrorType::ShortIO { bytes: (valid % width) as usize, expected: width as usize })]
    } else {
        Seq::empty()
    }
}

/// How many whole groups of digits stand at the front of `text`.
pub open spec fn whole_groups(radix: u8, text: Seq<u8>) -> nat {
    valid_prefix(radix, text) / digits_per_byte(radix)
}

/// The bytes of the whole groups of digits at the front of `text`, in
/// order.
pub open spec fn bytes_of(radix: u8, text: Seq<u8>) -> Seq<Item> {
    Seq::new(whole_groups(radix, text), |i: int| Ok(byte_of(radix, group(radix, text, i))))
}

/// The items that a text without whitespace decodes to: one byte for each
/// whole group of digits that stands before the first character that is no
/// digit, and then the ending.
pub open spec fn groups(radix: u8, text: Seq<u8>, failure: Option<std::io::Error>) -> Seq<Item> {
    bytes_of(radix, text) + ending(radix, text, failure)
}

/// The items that a source gives in base `radix`, where `input` are its
/// bytes and `failure` is how it ends behind them.
pub open spec fn decoded(radix: u8, input: Seq<u8>, failure: Option<std::io::Error>) -> Seq<Item> {
    groups(radix, digits(input), failure)
}

/// The digit of `byte` at `place` in base `radix`: place 0 is the least
/// significant.
pub open spec fn digit_at(radix: u8, byte: u8, place: nat) -> u8 {
    ((byte as int / pow(radix as int, place)) % (radix as int)) as u8
}

/// The text of `byte` in base `radix`: as many digits as the base needs for
/// a byte, the most significant first, with zeros in front where the value
/// is small, and letters in lowercase.
pub open spec fn text(radix: u8, byte: u8) -> Seq<u8> {
    Seq::new(
        digits_per_byte(radix),
        |i: int| symbol_of(digit_at(radix, byte, (digits_per_byte(radix) - 1 - i) as nat)),
    )
}

/// The text of `bytes` in base `radix`: the text of each byte, in order and
/// with nothing between them.
pub open spec fn encoded(radix: u8, bytes: Seq<u8>) -> Seq<u8>
    decreases bytes.len(),
{
    if bytes.len() == 0 {
        Seq::empty()
    } else {
        text(radix, bytes[0]) + encoded(radix, bytes.skip(1))
    }
}

/// The digits of a base are the first characters of the alphabet `0` to `9`,
/// `a` to `z`, as many as the base counts, each with its place in the
/// alphabet as its value. A letter counts the same in either case, and no
/// other character is a digit: not the rest of the alphabet, and nothing
/// outside it.
pub proof fn lemma_digit_value(radix: u8, c: char)
    requires
        is_radix(radix),
    ensures
        digit_value(radix, to_uppercase(c)) == digit_value(radix, c),
        digit_value(radix, c) is Some ==> digit_value(radix, c)->0 < radix,
        digit_value(radix, c) is Some <==> exists|d: u8|
            d < radix && (c == symbol_of(d) as char || c == to_uppercase(symbol_of(d) as char)),
        forall|d: u8|
            d < radix ==> digit_value(radix, #[trigger] symbol_of(d) as char) == Some(d)
                && digit_value(radix, to_uppercase(symbol_of(d) as char)) == Some(d),
        forall|d: u8|
            radix <= d < 36 ==> digit_value(radix, #[trigger] symbol_of(d) as char) is None
                && digit_value(radix, to_uppercase(symbol_of(d) as char)) is None,
        !('0' <= c <= '9' || 'a' <= c <= 'z' || 'A' <= c <= 'Z') ==> digit_value(radix, c) is None,
{
    if digit_value(radix, c) is Some {
        let d = symbol_value(c);
        assert(d < radix && (c == symbol_of(d) as char || c == to_uppercase(symbol_of(d) as char)));
    }
}

/// A digit is written by the character that reads as that digit.
pub proof fn lemma_symbol_round_trip(radix: u8, d: u8)
    requires
        is_radix(radix),
        d < radix,
    ensures
        digit_symbol(radix, d) is Some,
        digit_value(radix, digit_symbol(radix, d)->0 as char) == Some(d),
        !is_whitespace(digit_symbol(radix, d)->0),
{
}

/// The digit count of every base is the one that the table gives, and no
/// other count reaches a byte without a digit to spare.
pub proof fn lemma_digits_per_byte(radix: u8)
    requires
        is_radix(radix),
    ensures
        digits_per_byte(radix) == digits_per_byte_table(radix),
        reaches_a_byte(radix, digits_per_byte(radix)),
        forall|k: nat| reaches_a_byte(radix, k) ==> k == digits_per_byte(radix),
{
    let r = radix as int;
    let t = digits_per_byte_table(radix);
    lemma_pow_small(r);
    assert(reaches_a_byte(radix, t)) by {
        if radix == 2 {
        } else if radix == 3 {
        } else if radix <= 6 {
            assert(r * r * r * r >= 256) by (nonlinear_arith)
                requires
                    r >= 4,
            ;
            assert(r * r * r < 256) by (nonlinear_arith)
                requires
                    0 <= r <= 6,
            ;
        } else if radix <= 15 {
            assert(r * r * r >= 256) by (nonlinear_arith)
                requires
                    r >= 7,
            ;
            assert(r * r < 256) by (nonlinear_arith)
                requires
                    0 <= r <= 15,
            ;
        } else {
            assert(r * r >= 256) by (nonlinear_arith)
                requires
                    r >= 16,
            ;
        }
    }
    lemma_reaches_a_byte_unique(radix, digits_per_byte(radix), t);
    assert forall|k: nat| reaches_a_byte(radix, k) implies k == digits_per_byte(radix) by {
        lemma_reaches_a_byte_unique(radix, k, t);
    }
}

/// Reading back what was written gives the byte that was written, in every
/// base and for every byte.
pub proof fn lemma_round_trip(radix: u8, byte: u8)
    requires
        is_radix(radix),
    ensures
        decoded(radix, text(radix, byte), None) == seq![Ok::<u8, InError>(byte)],
{
    lemma_digits_per_byte(radix);
    let width = digits_per_byte(radix);
    let t = text(radix, byte);
    lemma_text_is_digits(radix, byte);
    lemma_digits_of_text(t);
    lemma_valid_prefix_is(radix, t, width);
    lemma_groups_step(radix, t, None);
    lemma_groups_empty(radix, t.skip(width as int));
    lemma_number_of_text(radix, byte, width);
    assert(t.take(width as int) =~= t);
    assert(pow(radix as int, 0) == 1) by {
        reveal(pow);
    }
    assert(byte_of(radix, t) == byte);
    assert(seq![Ok::<u8, InError>(byte)] + Seq::<Item>::empty() =~= seq![Ok::<u8, InError>(byte)]);
}

/// Reading back the text of any bytes gives those bytes, in order, and
/// nothing more.
pub proof fn lemma_round_trip_all(radix: u8, bytes: Seq<u8>)
    requires
        is_radix(radix),
    ensures
        decoded(radix, encoded(radix, bytes), None) == Seq::new(
            bytes.len(),
            |i: int| Ok::<u8, InError>(bytes[i]),
        ),
{
    lemma_encoded_is_digits(radix, bytes);
    lemma_digits_of_text(encoded(radix, bytes));
    lemma_groups_of_encoded(radix, bytes);
}

/// An input without characters decodes to no item: no byte and no error.
pub proof fn lemma_decoded_empty(radix: u8)
    requires
        is_radix(radix),
    ensures
        decoded(radix, Seq::<u8>::empty(), None) == Seq::<Item>::empty(),
{
    lemma_digits_empty(Seq::<u8>::empty());
    lemma_groups_empty(radix, Seq::<u8>::empty());
}

/// The items of an input are the bytes of the whole groups of digits that
/// stand before the first character that is no digit, and after them at
/// most one error, which is the last item.
pub proof fn lemma_decoded_items(radix: u8, input: Seq<u8>, failure: Option<std::io::Error>)
    requires
        is_radix(radix),
    ensures
        decoded(radix, input, failure) == bytes_of(radix, digits(input)) + ending(
            radix,
            digits(input),
            failure,
        ),
        bytes_of(radix, digits(input)).len() == whole_groups(radix, digits(input)),
        forall|i: int|
            0 <= i < whole_groups(radix, digits(input)) ==> #[trigger] decoded(
                radix,
                input,
                failure,
            )[i] is Ok,
        ending(radix, digits(input), failure).len() <= 1,
        ending(radix, digits(input), failure).len() == 1 ==> decoded(radix, input, failure).last()
            is Err,
{
    let text = digits(input);
    let items = decoded(radix, input, failure);
    assert forall|i: int| 0 <= i < whole_groups(radix, text) implies #[trigger] items[i] is Ok by {
        assert(items[i] == bytes_of(radix, text)[i]);
    }
    if ending(radix, text, failure).len() == 1 {
        assert(items[whole_groups(radix, text) as int] == ending(radix, text, failure)[0]);
    }
}

/// Digits that do not fill a whole number of groups, from a source that
/// ended well: every whole group decodes to its byte, and then comes one
/// report of a short read, with the number of digits that the last group
/// has. Nothing follows the report.
pub proof fn lemma_decoded_short(radix: u8, input: Seq<u8>)
    requires
        is_radix(radix),
        valid_prefix(radix, digits(input)) == digits(input).len(),
        digits(input).len() % digits_per_byte(radix) != 0,
    ensures
        whole_groups(radix, digits(input)) == digits(input).len() / digits_per_byte(radix),
        decoded(radix, input, None) == bytes_of(radix, digits(input)).push(
            Err(
                ErrorType::ShortIO {
                    bytes: (digits(input).len() % digits_per_byte(radix)) as usize,
                    expected: digits_per_byte(radix) as usize,
                },
            ),
        ),
{
    assert(decoded(radix, input, None) =~= bytes_of(radix, digits(input)).push(
        ending(radix, digits(input), None)[0],
    ));
}

/// The same of an input that holds digits only: its length counts.
pub proof fn lemma_decoded_short_digits(radix: u8, input: Seq<u8>)
    requires
        is_radix(radix),
        forall|i: int| 0 <= i < input.len() ==> is_digit(radix, #[trigger] input[i]),
        input.len() % digits_per_byte(radix) != 0,
    ensures
        whole_groups(radix, input) == input.len() / digits_per_byte(radix),
        decoded(radix, input, None) == bytes_of(radix, input).push(
            Err(
                ErrorType::ShortIO {
                    bytes: (input.len() % digits_per_byte(radix)) as usize,
                    expected: digits_per_byte(radix) as usize,
                },
            ),
        ),
{
    assert forall|i: int| 0 <= i < input.len() implies !is_whitespace(#[trigger] input[i]) by {
        assert(is_digit(radix, input[i]));
    }
    lemma_digits_of_text(input);
    lemma_valid_prefix_is(radix, input, input.len());
    lemma_decoded_short(radix, input);
}

/// A character that is no digit of the base: every whole group of digits
/// before it decodes to its byte, and then comes one report of that
/// character. Nothing follows the report, however the source ends.
pub proof fn lemma_decoded_invalid(radix: u8, input: Seq<u8>, failure: Option<std::io::Error>)
    requires
        is_radix(radix),
        valid_prefix(radix, digits(input)) < digits(input).len(),
    ensures
        !is_digit(radix, digits(input)[valid_prefix(radix, digits(input)) as int]),
        decoded(radix, input, failure) == bytes_of(radix, digits(input)).push(
            Err(
                ErrorType::InvalidByte(
                    digits(input)[valid_prefix(radix, digits(input)) as int] as char,
                ),
            ),
        ),
{
    lemma_valid_prefix(radix, digits(input));
    assert(decoded(radix, input, failure) =~= bytes_of(radix, digits(input)).push(
        ending(radix, digits(input), failure)[0],
    ));
}

/// A source that fails behind digits: every whole group decodes to its
/// byte, and then comes the failure, wrapped. Nothing follows it, and
/// digits that begin a group before the failure are not reported.
pub proof fn lemma_decoded_failed(radix: u8, input: Seq<u8>, failure: std::io::Error)
    requires
        is_radix(radix),
        valid_prefix(radix, digits(input)) == digits(input).len(),
    ensures
        whole_groups(radix, digits(input)) == digits(input).len() / digits_per_byte(radix),
        decoded(radix, input, Some(failure)) == bytes_of(radix, digits(input)).push(
            Err(ErrorType::StdIO(failure)),
        ),
{
    assert(decoded(radix, input, Some(failure)) =~= bytes_of(radix, digits(input)).push(
        ending(radix, digits(input), Some(failure))[0],
    ));
}

/// Digits that fill a whole number of groups, from a source that ended
/// well, decode to the bytes of the groups and to nothing more.
pub proof fn lemma_decoded_whole(radix: u8, input: Seq<u8>)
    requires
        is_radix(radix),
        valid_prefix(radix, digits(input)) == digits(input).len(),
        digits(input).len() % digits_per_byte(radix) == 0,
    ensures
        whole_groups(radix, digits(input)) == digits(input).len() / digits_per_byte(radix),
        decoded(radix, input, None) == bytes_of(radix, digits(input)),
{
    assert(decoded(radix, input, None) =~= bytes_of(radix, digits(input)));
}

/// An input gives no more bytes than it has characters.
pub proof fn lemma_decoded_count(radix: u8, input: Seq<u8>, failure: Option<std::io::Error>)
    requires
        is_radix(radix),
    ensures
        leading_bytes(decoded(radix, input, failure)) <= input.len(),
{
    let text = digits(input);
    let width = digits_per_byte(radix) as int;
    let valid = valid_prefix(radix, text) as int;
    input.lemma_filter_len(|byte: u8| !is_whitespace(byte));
    lemma_digits_per_byte(radix);
    lemma_valid_prefix(radix, text);
    lemma_decoded_items(radix, input, failure);
    lemma_leading_bytes(decoded(radix, input, failure));
    lemma_fundamental_div_mod(valid, width);
    lemma_mod_bound(valid, width);
    assert(valid / width <= width * (valid / width)) by (nonlinear_arith)
        requires
            width >= 1,
            valid / width >= 0,
    ;
}

/// The first powers of `r`, written out as products.
pub proof fn lemma_pow_small(r: int)
    ensures
        pow(r, 0) == 1,
        pow(r, 1) == r,
        pow(r, 2) == r * r,
        pow(r, 3) == r * r * r,
        pow(r, 4) == r * r * r * r,
        pow(r, 5) == r * r * r * r * r,
        pow(r, 6) == r * r * r * r * r * r,
        pow(r, 7) == r * r * r * r * r * r * r,
        pow(r, 8) == r * r * r * r * r * r * r * r,
{
    reveal(pow);
    assert(pow(r, 0) == 1);
    assert(pow(r, 1) == r * pow(r, 0));
    assert(pow(r, 2) == r * pow(r, 1));
    assert(pow(r, 3) == r * pow(r, 2));
    assert(pow(r, 4) == r * pow(r, 3));
    assert(pow(r, 5) == r * pow(r, 4));
    assert(pow(r, 6) == r * pow(r, 5));
    assert(pow(r, 7) == r * pow(r, 6));
    assert(pow(r, 8) == r * pow(r, 7));
    assert(r * (r * r) == r * r * r) by (nonlinear_arith);
    assert(r * (r * r * r) == r * r * r * r) by (nonlinear_arith);
    assert(r * (r * r * r * r) == r * r * r * r * r) by (nonlinear_arith);
    assert(r * (r * r * r * r * r) == r * r * r * r * r * r) by (nonlinear_arith);
    assert(r * (r * r * r * r * r * r) == r * r * r * r * r * r * r) by (nonlinear_arith);
    assert(r * (r * r * r * r * r * r * r) == r * r * r * r * r * r * r * r) by (nonlinear_arith);
}

/// At most one digit count reaches a byte without one digit to spare.
pub proof fn lemma_reaches_a_byte_unique(radix: u8, j: nat, k: nat)
    requires
        is_radix(radix),
        reaches_a_byte(radix, j),
        reaches_a_byte(radix, k),
    ensures
        j == k,
{
    if j < k {
        lemma_pow_increases(radix as nat, j, (k - 1) as nat);
    }
    if k < j {
        lemma_pow_increases(radix as nat, k, (j - 1) as nat);
    }
}

/// The text of an input starts with the input's first character unless that
/// is whitespace, and goes on with the text of what follows.
pub proof fn lemma_digits_first(input: Seq<u8>)
    requires
        input.len() > 0,
    ensures
        is_whitespace(input[0]) ==> digits(input) == digits(input.skip(1)),
        !is_whitespace(input[0]) ==> digits(input) == seq![input[0]] + digits(input.skip(1)),
{
    let keep = |byte: u8| !is_whitespace(byte);
    let first = seq![input[0]];
    assert(input =~= first + input.skip(1));
    Seq::filter_distributes_over_add(first, input.skip(1), keep);
    assert(first.filter(keep) =~= if keep(input[0]) {
        first
    } else {
        Seq::empty()
    }) by {
        reveal_with_fuel(Seq::filter, 2);
        assert(first.drop_last() =~= Seq::<u8>::empty());
    }
    assert(Seq::<u8>::empty() + digits(input.skip(1)) =~= digits(input.skip(1)));
}

/// An input without characters has no text.
pub proof fn lemma_digits_empty(input: Seq<u8>)
    requires
        input.len() == 0,
    ensures
        digits(input) == Seq::<u8>::empty(),
{
    reveal_with_fuel(Seq::filter, 1);
    assert(digits(input) =~= Seq::<u8>::empty());
}

/// A text without whitespace is all text.
pub proof fn lemma_digits_of_text(input: Seq<u8>)
    requires
        forall|i: int| 0 <= i < input.len() ==> !is_whitespace(#[trigger] input[i]),
    ensures
        digits(input) == input,
    decreases input.len(),
{
    if input.len() == 0 {
        lemma_digits_empty(input);
        assert(input =~= Seq::<u8>::empty());
    } else {
        let rest = input.skip(1);
        assert forall|i: int| 0 <= i < rest.len() implies !is_whitespace(#[trigger] rest[i]) by {
            assert(rest[i] == input[i + 1]);
        }
        lemma_digits_of_text(rest);
        lemma_digits_first(input);
        assert(seq![input[0]] + rest =~= input);
    }
}

/// Leading whitespace is no part of the text: the text starts with the
/// first character behind it, if there is one.
pub proof fn lemma_leading_whitespace(input: Seq<u8>)
    ensures
        leading_whitespace(input) <= input.len(),
        leading_whitespace(input) == input.len() ==> digits(input) == Seq::<u8>::empty(),
        leading_whitespace(input) < input.len() ==> !is_whitespace(
            input[leading_whitespace(input) as int],
        ) && digits(input) == seq![input[leading_whitespace(input) as int]] + digits(
            input.skip(leading_whitespace(input) as int + 1),
        ),
    decreases input.len(),
{
    if input.len() == 0 {
        lemma_digits_empty(input);
    } else {
        lemma_digits_first(input);
        if is_whitespace(input[0]) {
            let rest = input.skip(1);
            lemma_leading_whitespace(rest);
            let k = leading_whitespace(rest);
            if k < rest.len() {
                assert(rest[k as int] == input[k as int + 1]);
                assert(rest.skip(k as int + 1) =~= input.skip(k as int + 2));
            }
        } else {
            assert(input.skip(0int + 1) =~= input.skip(1));
        }
    }
}

/// The valid prefix holds digits only, and ends at the end of the text or
/// before a character that is no digit.
pub proof fn lemma_valid_prefix(radix: u8, text: Seq<u8>)
    ensures
        valid_prefix(radix, text) <= text.len(),
        forall|i: int| 0 <= i < valid_prefix(radix, text) ==> is_digit(radix, #[trigger] text[i]),
        valid_prefix(radix, text) < text.len() ==> !is_digit(
            radix,
            text[valid_prefix(radix, text) as int],
        ),
    decreases text.len(),
{
    if text.len() > 0 && is_digit(radix, text[0]) {
        let rest = text.skip(1);
        lemma_valid_prefix(radix, rest);
        assert forall|i: int| 0 <= i < valid_prefix(radix, text) implies is_digit(
            radix,
            #[trigger] text[i],
        ) by {
            if i > 0 {
                assert(text[i] == rest[i - 1]);
            }
        }
        if valid_prefix(radix, text) < text.len() {
            let valid = valid_prefix(radix, rest) as int;
            assert(text[valid + 1] == rest[valid]);
        }
    }
}

/// A run of `k` digits at the front of the text that cannot go on is the
/// valid prefix.
pub proof fn lemma_valid_prefix_is(radix: u8, text: Seq<u8>, k: nat)
    requires
        k <= text.len(),
        forall|i: int| 0 <= i < k ==> is_digit(radix, #[trigger] text[i]),
        k < text.len() ==> !is_digit(radix, text[k as int]),
    ensures
        valid_prefix(radix, text) == k,
    decreases k,
{
    if k > 0 {
        let rest = text.skip(1);
        assert(is_digit(radix, text[0]));
        assert forall|i: int| 0 <= i < k - 1 implies is_digit(radix, #[trigger] rest[i]) by {
            assert(rest[i] == text[i + 1]);
        }
        if k < text.len() {
            assert(rest[k - 1] == text[k as int]);
        }
        lemma_valid_prefix_is(radix, rest, (k - 1) as nat);
    }
}

/// A run of `k` digits at the front of the text is part of the valid prefix.
pub proof fn lemma_valid_prefix_at_least(radix: u8, text: Seq<u8>, k: nat)
    requires
        k <= text.len(),
        forall|i: int| 0 <= i < k ==> is_digit(radix, #[trigger] text[i]),
    ensures
        valid_prefix(radix, text) >= k,
{
    lemma_valid_prefix(radix, text);
    let valid = valid_prefix(radix, text);
    if valid < k {
        assert(is_digit(radix, text[valid as int]));
    }
}

/// A text without characters from a source that ended well decodes to no
/// item.
pub proof fn lemma_groups_empty(radix: u8, text: Seq<u8>)
    requires
        is_radix(radix),
        text.len() == 0,
    ensures
        groups(radix, text, None) == Seq::<Item>::empty(),
{
    lemma_digits_per_byte(radix);
    let width = digits_per_byte(radix);
    lemma_basic_div(0, width as int);
    lemma_small_mod(0, width);
    assert(groups(radix, text, None) =~= Seq::<Item>::empty());
}

/// A text that starts with a whole group of digits decodes to that group's
/// byte, and then to what the rest of the text decodes to.
pub proof fn lemma_groups_step(radix: u8, text: Seq<u8>, failure: Option<std::io::Error>)
    requires
        is_radix(radix),
        valid_prefix(radix, text) >= digits_per_byte(radix),
    ensures
        digits_per_byte(radix) <= text.len(),
        groups(radix, text, failure) == seq![
            Ok::<u8, InError>(byte_of(radix, text.take(digits_per_byte(radix) as int))),
        ] + groups(radix, text.skip(digits_per_byte(radix) as int), failure),
{
    lemma_digits_per_byte(radix);
    let width = digits_per_byte(radix);
    let valid = valid_prefix(radix, text);
    let rest = text.skip(width as int);
    lemma_valid_prefix(radix, text);
    assert forall|i: int| 0 <= i < valid - width implies is_digit(radix, #[trigger] rest[i]) by {
        assert(rest[i] == text[i + width]);
    }
    if valid < text.len() {
        assert(rest[valid - width] == text[valid as int]);
    }
    lemma_valid_prefix_is(radix, rest, (valid - width) as nat);
    let w = width as int;
    let v = valid as int;
    lemma_div_minus_one(v, w);
    lemma_mod_sub_multiples_vanish(v, w);
    assert((v - w) / w == v / w - 1);
    assert((v - w) % w == v % w);
    lemma_fundamental_div_mod(v, w);
    assert(ending(radix, text, failure) =~= ending(radix, rest, failure));
    let first = seq![Ok::<u8, InError>(byte_of(radix, text.take(w)))];
    let left = groups(radix, text, failure);
    let right = first + groups(radix, rest, failure);
    assert(left.len() == right.len());
    assert forall|i: int| 0 <= i < left.len() implies left[i] == right[i] by {
        if i == 0 {
            assert(0 * w == 0) by (nonlinear_arith);
            assert(group(radix, text, 0) =~= text.take(w));
        } else if i < v / w {
            assert(w * (i + 1) <= w * (v / w)) by (nonlinear_arith)
                requires
                    i + 1 <= v / w,
                    w > 0,
            ;
            assert(i * w + w == w * (i + 1)) by (nonlinear_arith);
            assert((i - 1) * w + w == i * w) by (nonlinear_arith);
            assert(i * w >= w) by (nonlinear_arith)
                requires
                    i >= 1,
                    w > 0,
            ;
            assert(group(radix, text, i) =~= group(radix, rest, i - 1));
        } else {
        }
    }
    assert(left =~= right);
}

/// A text that has a character that is no digit before its first group is
/// whole decodes to the report of that character, and to nothing more.
pub proof fn lemma_groups_invalid(radix: u8, text: Seq<u8>, failure: Option<std::io::Error>)
    requires
        is_radix(radix),
        valid_prefix(radix, text) < digits_per_byte(radix),
        valid_prefix(radix, text) < text.len(),
    ensures
        groups(radix, text, failure) == seq![
            Err::<u8, InError>(
                ErrorType::InvalidByte(text[valid_prefix(radix, text) as int] as char),
            ),
        ],
{
    let width = digits_per_byte(radix);
    let valid = valid_prefix(radix, text);
    lemma_basic_div(valid as int, width as int);
    assert(groups(radix, text, failure) =~= ending(radix, text, failure));
}

/// A text of digits that ends before its first group is whole, from a
/// source that ended well, decodes to the report of the digits that it has,
/// and to nothing more.
pub proof fn lemma_groups_short(radix: u8, text: Seq<u8>)
    requires
        is_radix(radix),
        0 < text.len() < digits_per_byte(radix),
        valid_prefix(radix, text) == text.len(),
    ensures
        groups(radix, text, None) == seq![
            Err::<u8, InError>(
                ErrorType::ShortIO {
                    bytes: text.len() as usize,
                    expected: digits_per_byte(radix) as usize,
                },
            ),
        ],
{
    let width = digits_per_byte(radix);
    let valid = valid_prefix(radix, text);
    lemma_basic_div(valid as int, width as int);
    lemma_small_mod(valid, width);
    assert(groups(radix, text, None) =~= ending(radix, text, None));
}

/// A text of digits that ends before its first group is whole, from a
/// source that failed, decodes to the failure, and to nothing more.
pub proof fn lemma_groups_failed(radix: u8, text: Seq<u8>, failure: std::io::Error)
    requires
        is_radix(radix),
        text.len() < digits_per_byte(radix),
        valid_prefix(radix, text) == text.len(),
    ensures
        groups(radix, text, Some(failure)) == seq![
            Err::<u8, InError>(ErrorType::StdIO(failure)),
        ],
{
    let width = digits_per_byte(radix);
    let valid = valid_prefix(radix, text);
    lemma_basic_div(valid as int, width as int);
    assert(groups(radix, text, Some(failure)) =~= ending(radix, text, Some(failure)));
}

/// One more digit behind a group: what stood there counts `radix` times
/// as much, and the digit is added.
pub proof fn lemma_number_push(radix: u8, group: Seq<u8>, byte: u8)
    ensures
        number(radix, group.push(byte)) == number(radix, group) * radix + symbol_value(
            byte as char,
        ),
{
    assert(group.push(byte).drop_last() =~= group);
}

/// A group of `k` digits writes a number below the `k`-th power of the base.
pub proof fn lemma_number_bound(radix: u8, group: Seq<u8>)
    requires
        is_radix(radix),
        forall|i: int| 0 <= i < group.len() ==> is_digit(radix, #[trigger] group[i]),
    ensures
        number(radix, group) < pow(radix as int, group.len()),
    decreases group.len(),
{
    reveal(pow);
    if group.len() > 0 {
        let front = group.drop_last();
        assert forall|i: int| 0 <= i < front.len() implies is_digit(radix, #[trigger] front[i]) by {
            assert(front[i] == group[i]);
        }
        lemma_number_bound(radix, front);
        assert(is_digit(radix, group[group.len() - 1]));
        let n = number(radix, front) as int;
        let d = symbol_value(group.last() as char) as int;
        let r = radix as int;
        let p = pow(r, front.len());
        assert(n * r + d < r * p) by (nonlinear_arith)
            requires
                0 <= n < p,
                0 <= d < r,
        ;
    }
}

/// The first `k` digits of the text of a byte write the byte without its
/// last digits: the byte divided by the base as often as digits are left out.
pub proof fn lemma_number_of_text(radix: u8, byte: u8, k: nat)
    requires
        is_radix(radix),
        k <= digits_per_byte(radix),
    ensures
        number(radix, text(radix, byte).take(k as int)) == byte as int / pow(
            radix as int,
            (digits_per_byte(radix) - k) as nat,
        ),
    decreases k,
{
    lemma_digits_per_byte(radix);
    let width = digits_per_byte(radix);
    let r = radix as int;
    let t = text(radix, byte);
    if k == 0 {
        assert(t.take(0) =~= Seq::<u8>::empty());
        lemma_basic_div(byte as int, pow(r, width));
    } else {
        let front = t.take(k - 1);
        assert(t.take(k as int) =~= front.push(t[k - 1]));
        lemma_number_push(radix, front, t[k - 1]);
        lemma_number_of_text(radix, byte, (k - 1) as nat);
        let place = (width - k) as nat;
        let scale = pow(r, place);
        let x = byte as int / scale;
        lemma_pow_positive(r, place);
        lemma_div_denominator(byte as int, scale, r);
        assert(pow(r, place + 1) == r * scale) by {
            reveal(pow);
        }
        assert(scale * r == r * scale) by (nonlinear_arith);
        lemma_fundamental_div_mod(x, r);
        lemma_mod_bound(x, r);
        assert((x / r) * r == r * (x / r)) by (nonlinear_arith);
        assert(digit_at(radix, byte, place) == x % r);
        assert(symbol_value(t[k - 1] as char) == digit_at(radix, byte, place));
    }
}

/// Every character of the text of a byte is a digit of the base.
pub proof fn lemma_text_is_digits(radix: u8, byte: u8)
    requires
        is_radix(radix),
    ensures
        text(radix, byte).len() == digits_per_byte(radix),
        forall|i: int|
            0 <= i < digits_per_byte(radix) ==> is_digit(radix, #[trigger] text(radix, byte)[i])
                && !is_whitespace(text(radix, byte)[i]),
{
    let width = digits_per_byte(radix);
    let t = text(radix, byte);
    assert forall|i: int| 0 <= i < width implies is_digit(radix, #[trigger] t[i]) && !is_whitespace(
        t[i],
    ) by {
        let place = (width - 1 - i) as nat;
        lemma_pow_positive(radix as int, place);
        lemma_mod_bound(byte as int / pow(radix as int, place), radix as int);
        let d = digit_at(radix, byte, place);
        assert(d < radix);
        assert(t[i] == symbol_of(d));
        lemma_symbol_round_trip(radix, d);
    }
}

/// The text of bytes holds as many digits for each byte as the base needs,
/// and nothing else.
pub proof fn lemma_encoded_is_digits(radix: u8, bytes: Seq<u8>)
    requires
        is_radix(radix),
    ensures
        encoded(radix, bytes).len() == digits_per_byte(radix) * bytes.len(),
        forall|i: int|
            0 <= i < encoded(radix, bytes).len() ==> is_digit(
                radix,
                #[trigger] encoded(radix, bytes)[i],
            ) && !is_whitespace(encoded(radix, bytes)[i]),
    decreases bytes.len(),
{
    let width = digits_per_byte(radix);
    if bytes.len() == 0 {
        assert(width * 0 == 0) by (nonlinear_arith);
    } else {
        lemma_text_is_digits(radix, bytes[0]);
        lemma_encoded_is_digits(radix, bytes.skip(1));
        assert(width * bytes.len() == width + width * (bytes.len() - 1)) by (nonlinear_arith);
    }
}

/// The byte that the text of a byte decodes to is that byte.
pub proof fn lemma_text_first(radix: u8, byte: u8)
    requires
        is_radix(radix),
    ensures
        byte_of(radix, text(radix, byte)) == byte,
{
    let width = digits_per_byte(radix);
    let t = text(radix, byte);
    lemma_digits_per_byte(radix);
    lemma_number_of_text(radix, byte, width);
    assert(t.take(width as int) =~= t);
    assert(pow(radix as int, 0) == 1) by {
        reveal(pow);
    }
}

/// The groups of the text of bytes are the texts of the bytes.
pub proof fn lemma_encoded_group(radix: u8, bytes: Seq<u8>, i: int)
    requires
        is_radix(radix),
        0 <= i < bytes.len(),
    ensures
        group(radix, encoded(radix, bytes), i) == text(radix, bytes[i]),
    decreases bytes.len(),
{
    let width = digits_per_byte(radix) as int;
    let all = encoded(radix, bytes);
    let rest = encoded(radix, bytes.skip(1));
    lemma_digits_per_byte(radix);
    lemma_encoded_is_digits(radix, bytes);
    lemma_encoded_is_digits(radix, bytes.skip(1));
    if i == 0 {
        assert(0 * width == 0) by (nonlinear_arith);
        assert(all.subrange(0, width) =~= text(radix, bytes[0]));
    } else {
        lemma_encoded_group(radix, bytes.skip(1), i - 1);
        assert(i * width == (i - 1) * width + width) by (nonlinear_arith);
        assert((i - 1) * width >= 0) by (nonlinear_arith)
            requires
                i >= 1,
                width >= 0,
        ;
        assert((i - 1) * width + width <= width * (bytes.len() - 1)) by (nonlinear_arith)
            requires
                i <= bytes.len() - 1,
                width >= 0,
        ;
        assert(all.subrange(i * width, i * width + width) =~= rest.subrange(
            (i - 1) * width,
            (i - 1) * width + width,
        ));
    }
}

/// The text of any bytes decodes to those bytes, in order, and to nothing
/// more.
pub proof fn lemma_groups_of_encoded(radix: u8, bytes: Seq<u8>)
    requires
        is_radix(radix),
    ensures
        groups(radix, encoded(radix, bytes), None) == Seq::new(
            bytes.len(),
            |i: int| Ok::<u8, InError>(bytes[i]),
        ),
{
    let width = digits_per_byte(radix) as int;
    let count = bytes.len() as int;
    let all = encoded(radix, bytes);
    let back = Seq::new(bytes.len(), |i: int| Ok::<u8, InError>(bytes[i]));
    lemma_digits_per_byte(radix);
    lemma_encoded_is_digits(radix, bytes);
    lemma_valid_prefix_is(radix, all, all.len());
    lemma_div_multiples_vanish(count, width);
    lemma_mod_multiples_basic(count, width);
    assert(width * count == count * width) by (nonlinear_arith);
    assert(ending(radix, all, None) =~= Seq::<Item>::empty());
    assert forall|i: int| 0 <= i < count implies #[trigger] groups(radix, all, None)[i]
        == back[i] by {
        lemma_encoded_group(radix, bytes, i);
        lemma_text_first(radix, bytes[i]);
    }
    assert(groups(radix, all, None) =~= back);
}

} // verus!
