//! Reading and writing bytes as groups of digits in a numeric base from 2 to
//! 36.

use vstd::prelude::*;
use vstd::arithmetic::power::{lemma_pow_increases, lemma_pow_positive, pow};
use vstd::arithmetic::div_mod::{lemma_basic_div, lemma_div_denominator, lemma_fundamental_div_mod};
use crate::byte_reader::{ByteReader, Item};
use crate::byte_writer::ByteWriter;
use crate::error::{InError, OutError};
use crate::numeral::{
    decoded,
    digit_at,
    digit_symbol,
    digit_value,
    digits,
    digits_per_byte,
    is_digit,
    is_radix,
    lemma_digits_per_byte,
    lemma_groups_empty,
    lemma_groups_failed,
    lemma_groups_invalid,
    lemma_groups_short,
    lemma_groups_step,
    lemma_number_push,
    lemma_pow_small,
    lemma_valid_prefix_at_least,
    lemma_valid_prefix_is,
    number,
    reaches_a_byte,
    symbol_of,
    text,
};
use crate::stream::{Sink, Source};
use crate::util;

verus! {

/// The digit alphabet of one numeric base, with the number of digits that
/// write a byte in it.
pub struct Base {
    base: u8,
    digits_per_byte: u8,
}

impl Base {
    /// The base is one of 2 to 36, and the digit count is the one that
    /// belongs to it.
    #[verifier::type_invariant]
    spec fn inv(&self) -> bool {
        is_radix(self.base) && self.digits_per_byte == digits_per_byte(self.base)
    }

    /// The numeric base.
    pub closed spec fn radix(&self) -> u8 {
        self.base
    }

    /// The alphabet of `base`. The digit count is found by multiplying, so
    /// that bases whose power is exactly 256 get no digit too many.
    pub fn new(base: u8) -> (alphabet: Self)
        requires
            is_radix(base),
        ensures
            alphabet.radix() == base,
    {
        let mut digits: u8 = 1;
        let mut reach: u32 = base as u32;
        proof {
            lemma_pow_small(base as int);
            lemma_pow_small(2);
        }
        while reach < 256
            invariant
                is_radix(base),
                1 <= digits <= 8,
                reach == pow(base as int, digits as nat),
                pow(2, digits as nat) <= reach,
                pow(base as int, (digits - 1) as nat) < 256,
            decreases 8 - digits,
        {
            proof {
                let d = digits as nat;
                reveal(pow);
                lemma_pow_positive(2, d);
                assert(pow(base as int, d + 1) == base * pow(base as int, d));
                assert(pow(2, d + 1) == 2 * pow(2, d));
                assert(base * pow(base as int, d) >= 2 * pow(2, d)) by (nonlinear_arith)
                    requires
                        base >= 2,
                        pow(base as int, d) >= pow(2, d),
                        pow(2, d) >= 0,
                ;
                assert(reach * base < 36 * 256 && reach * base == base * reach) by (nonlinear_arith)
                    requires
                        0 <= base <= 36,
                        0 <= reach < 256,
                ;
                lemma_pow_small(2);
            }
            reach = reach * (base as u32);
            digits = digits + 1;
        }
        proof {
            assert(reaches_a_byte(base, digits as nat));
            lemma_digits_per_byte(base);
        }
        Base { base, digits_per_byte: digits }
    }

    /// The numeric base.
    pub fn base(&self) -> (radix: u8)
        ensures
            radix == self.radix(),
    {
        self.base
    }

    /// How many digits write one byte.
    pub fn digits_per_byte(&self) -> (digits: u8)
        ensures
            digits == digits_per_byte(self.radix()),
    {
        proof {
            use_type_invariant(self);
        }
        self.digits_per_byte
    }

    /// The value of `n` as a digit of this base, or `None` where `n` is no
    /// digit of it. Letters count in either case.
    pub fn valid(&self, n: char) -> (digit: Option<u8>)
        ensures
            digit == digit_value(self.radix(), n),
    {
        let digit: u8 = if '0' <= n && n <= '9' {
            n as u8 - 0x30
        } else if 'a' <= n && n <= 'z' {
            10u8 + (n as u8 - 0x61)
        } else if 'A' <= n && n <= 'Z' {
            10u8 + (n as u8 - 0x41)
        } else {
            36u8
        };
        if digit < self.base {
            Some(digit)
        } else {
            None
        }
    }

    /// The character that writes the digit `d` in this base, or `None` where
    /// `d` is no digit of it. Letters are lowercase.
    pub fn to_char(&self, d: u8) -> (symbol: Option<u8>)
        ensures
            symbol == digit_symbol(self.radix(), d),
    {
        proof {
            use_type_invariant(self);
        }
        if d < self.base {
            if d < 10 {
                Some(0x30 + d)
            } else {
                Some(0x61 + (d - 10))
            }
        } else {
            None
        }
    }
}

/// A reader of bytes that are written as groups of digits in a numeric
/// base, each group as long as the base needs for a byte. Letters count in
/// either case, and whitespace may stand anywhere: it is skipped.
pub struct Reader<'a> {
    in_bytes: Source<'a>,
    base: Base,
    done: bool,
}

impl<'a> Reader<'a> {
    /// The numeric base of the input.
    pub closed spec fn radix(&self) -> u8 {
        self.base.radix()
    }

    /// A reader of `read` in base `base`.
    pub fn new(read: &'a [u8], base: u8) -> (reader: Self)
        requires
            is_radix(base),
        ensures
            reader.radix() == base,
            reader.pending() == decoded(base, read@, None),
    {
        Reader { in_bytes: Source::new(read), base: Base::new(base), done: false }
    }

    /// A reader in base `base` of what `source` has yet to supply.
    pub fn from_source(source: Source<'a>, base: u8) -> (reader: Self)
        requires
            is_radix(base),
        ensures
            reader.radix() == base,
            reader.pending() == decoded(base, source.rest(), source.failure()),
    {
        Reader { in_bytes: source, base: Base::new(base), done: false }
    }
}

impl<'a> ByteReader for Reader<'a> {
    /// What the rest of the input decodes to, and nothing once the sequence
    /// has ended.
    closed spec fn pending(&self) -> Seq<Item> {
        if self.done {
            Seq::empty()
        } else {
            decoded(self.base.radix(), self.in_bytes.rest(), self.in_bytes.failure())
        }
    }

    /// Reads one group of digits and gives its byte. At the end of the
    /// input before a group has begun, the sequence ends. A group that the
    /// end of the input cuts short, a character that is no digit of the
    /// base, or a failure of the source is reported once, and the sequence
    /// ends with the report.
    fn next(&mut self) -> (item: Option<Item>) {
        if self.done {
            return None;
        }
        proof {
            use_type_invariant(&self.base);
        }
        let radix: u8 = self.base.base();
        let width: u8 = self.base.digits_per_byte();
        let ghost text = digits(self.in_bytes.rest());
        let ghost failure = self.in_bytes.failure();
        let mut value: u32 = 0;
        let mut count: u8 = 0;
        proof {
            lemma_digits_per_byte(radix);
            lemma_pow_small(radix as int);
            assert(text.take(0) =~= Seq::<u8>::empty());
            assert(text.skip(0) =~= text);
        }
        while count < width
            invariant
                !self.done,
                !old(self).done,
                self.base == old(self).base,
                radix == self.base.radix(),
                is_radix(radix),
                width == digits_per_byte(radix),
                reaches_a_byte(radix, width as nat),
                text == digits(old(self).in_bytes.rest()),
                failure == old(self).in_bytes.failure(),
                failure == self.in_bytes.failure(),
                count <= width,
                count <= text.len(),
                digits(self.in_bytes.rest()) == text.skip(count as int),
                forall|i: int| 0 <= i < count ==> is_digit(radix, #[trigger] text[i]),
                value == number(radix, text.take(count as int)),
                value < pow(radix as int, count as nat),
            decreases width - count,
        {
            let ghost ahead = digits(self.in_bytes.rest());
            let in_byte = self.in_bytes.next_non_whitespace();
            match in_byte {
                None => {
                    self.done = true;
                    proof {
                        assert(ahead.len() == text.len() - count);
                        lemma_valid_prefix_is(radix, text, count as nat);
                        if count == 0 {
                            lemma_groups_empty(radix, text);
                        } else {
                            lemma_groups_short(radix, text);
                        }
                    }
                    return if count == 0 {
                        None
                    } else {
                        Some(
                            Err(
                                InError::ShortIO {
                                    bytes: count as usize,
                                    expected: width as usize,
                                },
                            ),
                        )
                    };
                },
                Some(Err(e)) => {
                    self.done = true;
                    proof {
                        assert(ahead.len() == text.len() - count);
                        lemma_valid_prefix_is(radix, text, count as nat);
                        lemma_groups_failed(radix, text, e);
                    }
                    return Some(Err(InError::StdIO(e)));
                },
                Some(Ok(in_byte)) => {
                    let in_char = in_byte as char;
                    proof {
                        assert(text.skip(count as int)[0] == in_byte);
                        assert(text[count as int] == in_byte);
                        assert(digits(self.in_bytes.rest()) =~= text.skip(count + 1)) by {
                            assert(text.skip(count as int) == seq![in_byte] + digits(
                                self.in_bytes.rest(),
                            ));
                            assert(text.skip(count as int).skip(1) =~= text.skip(count + 1));
                            assert((seq![in_byte] + digits(self.in_bytes.rest())).skip(1)
                                =~= digits(self.in_bytes.rest()));
                        }
                    }
                    match self.base.valid(in_char) {
                        Some(digit) => {
                            proof {
                                let before = text.take(count as int);
                                assert(text.take(count + 1) =~= before.push(in_byte));
                                lemma_number_push(radix, before, in_byte);
                                lemma_pow_increases(radix as nat, count as nat, (width - 1) as nat);
                                reveal(pow);
                                let n = value as int;
                                let r = radix as int;
                                let p = pow(r, count as nat);
                                assert(n * r + digit < r * p && n * r + digit < 256 * 36
                                    && n * r >= 0) by (nonlinear_arith)
                                    requires
                                        0 <= n < p,
                                        p < 256,
                                        0 <= digit < r,
                                        r <= 36,
                                ;
                            }
                            value = value * (radix as u32) + (digit as u32);
                        },
                        None => {
                            self.done = true;
                            proof {
                                lemma_valid_prefix_is(radix, text, count as nat);
                                lemma_groups_invalid(radix, text, failure);
                            }
                            return Some(Err(InError::InvalidByte(in_char)));
                        },
                    }
                },
            }
            count = count + 1;
        }
        proof {
            lemma_valid_prefix_at_least(radix, text, width as nat);
            lemma_groups_step(radix, text, failure);
        }
        Some(Ok((value % 256) as u8))
    }
}

/// A writer of bytes as groups of digits in a numeric base, each group as
/// long as the base needs for a byte.
pub struct Writer<'a> {
    out_bytes: Sink<'a>,
    base: Base,
}

impl<'a> Writer<'a> {
    /// The numeric base of the output.
    pub closed spec fn radix(&self) -> u8 {
        self.base.radix()
    }

    /// A writer in base `base` that fills `out_bytes` from its start.
    pub fn new(out_bytes: &'a mut [u8], base: u8) -> (writer: Self)
        requires
            is_radix(base),
        ensures
            writer.radix() == base,
            writer.output() == Seq::<u8>::empty(),
            writer.room() == old(out_bytes)@.len(),
            forall|byte: u8| #[trigger] writer.text(byte) == Some(text(base, byte)),
    {
        Writer { out_bytes: Sink::new(out_bytes), base: Base::new(base) }
    }

    /// The number of characters written so far.
    pub fn written(&self) -> (n: usize)
        ensures
            n == self.output().len(),
    {
        self.out_bytes.written()
    }

    /// The characters written so far: the part of the output that is filled.
    pub fn filled(&self) -> (bytes: &[u8])
        ensures
            bytes@ == self.output(),
    {
        self.out_bytes.filled()
    }
}

impl<'a> ByteWriter for Writer<'a> {
    closed spec fn output(&self) -> Seq<u8> {
        self.out_bytes.data()
    }

    closed spec fn room(&self) -> nat {
        self.out_bytes.room()
    }

    /// Every byte has a text in a numeric base.
    closed spec fn text(&self, byte: u8) -> Option<Seq<u8>> {
        Some(text(self.base.radix(), byte))
    }

    /// Writes the digits of `byte`, found from the least significant up by
    /// dividing by the base; the places above the last division stay zero.
    fn write(&mut self, byte: u8) -> (res: Result<(), OutError>) {
        proof {
            use_type_invariant(&self.base);
        }
        let radix: u8 = self.base.base();
        let width: usize = self.base.digits_per_byte() as usize;
        proof {
            lemma_digits_per_byte(radix);
            lemma_pow_small(radix as int);
        }
        let mut string: Vec<u8> = vec![0x30u8; width];
        let mut rest: u8 = byte;
        let mut i: usize = width - 1;
        loop
            invariant_except_break
                rest == byte as int / pow(radix as int, (width - 1 - i) as nat),
                forall|j: int| 0 <= j <= i ==> string[j] == 0x30,
            invariant
                radix == self.base.radix(),
                is_radix(radix),
                width == digits_per_byte(radix),
                reaches_a_byte(radix, width as nat),
                string.len() == width,
                i < width,
                forall|j: int|
                    i < j < width ==> string[j] == symbol_of(
                        digit_at(radix, byte, (width - 1 - j) as nat),
                    ),
            ensures
                forall|j: int|
                    0 <= j < width ==> string[j] == symbol_of(
                        digit_at(radix, byte, (width - 1 - j) as nat),
                    ),
            decreases i,
        {
            let digit: u8 = rest % radix;
            let ghost place = (width - 1 - i) as nat;
            let ghost scale = pow(radix as int, place);
            proof {
                lemma_pow_positive(radix as int, place);
                lemma_div_denominator(byte as int, scale, radix as int);
                reveal(pow);
                assert(pow(radix as int, place + 1) == radix * scale);
                assert(scale * radix == radix * scale) by (nonlinear_arith);
            }
            rest = rest / radix;
            let symbol = self.base.to_char(digit);
            string[i] = symbol.unwrap();
            if rest != 0 {
                proof {
                    if i == 0 {
                        lemma_basic_div(byte as int, pow(radix as int, width as nat));
                    }
                }
                i = i - 1;
            } else {
                proof {
                    let top = pow(radix as int, place + 1);
                    lemma_pow_positive(radix as int, place + 1);
                    lemma_fundamental_div_mod(byte as int, top);
                    assert(top * 0 == 0) by (nonlinear_arith);
                    assert(byte < top);
                    assert forall|j: int| 0 <= j < i implies string[j] == symbol_of(
                        digit_at(radix, byte, (width - 1 - j) as nat),
                    ) by {
                        let above = (width - 1 - j) as nat;
                        lemma_pow_increases(radix as nat, place + 1, above);
                        lemma_basic_div(byte as int, pow(radix as int, above));
                        assert(byte as int / pow(radix as int, above) == 0);
                        assert(digit_at(radix, byte, above) == 0);
                    }
                }
                break ;
            }
        }
        proof {
            assert(string@ =~= text(radix, byte));
        }
        util::write(&mut self.out_bytes, string.as_slice(), width)
    }
}

} // verus!
