//! Reading and writing bytes as strings of eight bits, `0` and `1`.

use vstd::prelude::*;
use vstd::arithmetic::power::lemma_pow_increases;
use crate::byte_reader::{ByteReader, Item};
use crate::byte_writer::ByteWriter;
use crate::error::{InError, OutError};
use crate::numeral::{
    decoded,
    digit_at,
    digits,
    digits_per_byte,
    is_digit,
    lemma_digits_per_byte,
    lemma_groups_empty,
    lemma_groups_failed,
    lemma_groups_invalid,
    lemma_groups_short,
    lemma_groups_step,
    lemma_number_bound,
    lemma_number_push,
    lemma_pow_small,
    lemma_valid_prefix_at_least,
    lemma_valid_prefix_is,
    number,
    symbol_of,
    symbol_value,
    text,
};
use crate::stream::{Sink, Source};
use crate::util;

verus! {

/// A bit of a byte is set exactly where the byte's binary digit at that
/// place is 1.
pub proof fn lemma_bit_is_digit(byte: u8, place: u8)
    requires
        place < 8,
    ensures
        (byte & (1u8 << place) != 0) == (digit_at(2, byte, place as nat) == 1),
        digit_at(2, byte, place as nat) <= 1,
{
    lemma_pow_small(2);
    assert((byte & (1u8 << place) != 0) == ((byte >> place) % 2 == 1)) by (bit_vector)
        requires
            place < 8,
    ;
    if place == 0 {
        assert(byte >> 0u8 == byte / 1) by (bit_vector);
    } else if place == 1 {
        assert(byte >> 1u8 == byte / 2) by (bit_vector);
    } else if place == 2 {
        assert(byte >> 2u8 == byte / 4) by (bit_vector);
    } else if place == 3 {
        assert(byte >> 3u8 == byte / 8) by (bit_vector);
    } else if place == 4 {
        assert(byte >> 4u8 == byte / 16) by (bit_vector);
    } else if place == 5 {
        assert(byte >> 5u8 == byte / 32) by (bit_vector);
    } else if place == 6 {
        assert(byte >> 6u8 == byte / 64) by (bit_vector);
    } else {
        assert(byte >> 7u8 == byte / 128) by (bit_vector);
    }
}

/// A reader of bytes that are written as eight binary digits each.
/// Whitespace may stand anywhere: it is skipped.
pub struct Reader<'a> {
    in_bytes: Source<'a>,
    done: bool,
}

impl<'a> Reader<'a> {
    /// A reader of `read`.
    pub fn new(read: &'a [u8]) -> (reader: Self)
        ensures
            reader.pending() == decoded(2, read@, None),
    {
        Reader { in_bytes: Source::new(read), done: false }
    }

    /// A reader of what `source` has yet to supply.
    pub fn from_source(source: Source<'a>) -> (reader: Self)
        ensures
            reader.pending() == decoded(2, source.rest(), source.failure()),
    {
        Reader { in_bytes: source, done: false }
    }
}

impl<'a> ByteReader for Reader<'a> {
    /// What the rest of the input decodes to in base 2, and nothing once
    /// the sequence has ended.
    closed spec fn pending(&self) -> Seq<Item> {
        if self.done {
            Seq::empty()
        } else {
            decoded(2, self.in_bytes.rest(), self.in_bytes.failure())
        }
    }

    /// Reads eight binary digits and gives their byte, each digit shifted
    /// in behind the ones before it. The sequence ends as that of the
    /// reader of a numeric base does.
    fn next(&mut self) -> (item: Option<Item>) {
        if self.done {
            return None;
        }
        let ghost text = digits(self.in_bytes.rest());
        let ghost failure = self.in_bytes.failure();
        let mut value: u8 = 0;
        let mut count: u8 = 0;
        proof {
            lemma_digits_per_byte(2);
            lemma_pow_small(2);
            assert(text.take(0) =~= Seq::<u8>::empty());
            assert(text.skip(0) =~= text);
        }
        while count < 8
            invariant
                !self.done,
                !old(self).done,
                digits_per_byte(2) == 8,
                text == digits(old(self).in_bytes.rest()),
                failure == old(self).in_bytes.failure(),
                failure == self.in_bytes.failure(),
                count <= 8,
                count <= text.len(),
                digits(self.in_bytes.rest()) == text.skip(count as int),
                forall|i: int| 0 <= i < count ==> is_digit(2, #[trigger] text[i]),
                value == number(2, text.take(count as int)),
                count < 8 ==> value < 128,
            decreases 8 - count,
        {
            let ghost ahead = digits(self.in_bytes.rest());
            let in_byte = self.in_bytes.next_non_whitespace();
            match in_byte {
                None => {
                    self.done = true;
                    proof {
                        assert(ahead.len() == text.len() - count);
                        lemma_valid_prefix_is(2, text, count as nat);
                        if count == 0 {
                            lemma_groups_empty(2, text);
                        } else {
                            lemma_groups_short(2, text);
                        }
                    }
                    return if count == 0 {
                        None
                    } else {
                        Some(Err(InError::ShortIO { bytes: count as usize, expected: 8 }))
                    };
                },
                Some(Err(e)) => {
                    self.done = true;
                    proof {
                        assert(ahead.len() == text.len() - count);
                        lemma_valid_prefix_is(2, text, count as nat);
                        lemma_groups_failed(2, text, e);
                    }
                    return Some(Err(InError::StdIO(e)));
                },
                Some(Ok(in_byte)) => {
                    let in_char = in_byte as char;
                    proof {
                        assert(text.skip(count as int)[0] == in_byte);
                        assert(text[count as int] == in_byte);
                        assert(digits(self.in_bytes.rest()) =~= text.skip(count + 1)) by {
                            assert(text.skip(count as int).skip(1) =~= text.skip(count + 1));
                            assert((seq![in_byte] + digits(self.in_bytes.rest())).skip(1)
                                =~= digits(self.in_bytes.rest()));
                        }
                    }
                    let bit: u8 = match in_char {
                        '0' => 0,
                        '1' => 1,
                        _ => {
                            self.done = true;
                            proof {
                                lemma_valid_prefix_is(2, text, count as nat);
                                lemma_groups_invalid(2, text, failure);
                            }
                            return Some(Err(InError::InvalidByte(in_char)));
                        },
                    };
                    proof {
                        let before = text.take(count as int);
                        let after = text.take(count + 1);
                        assert(after =~= before.push(in_byte));
                        lemma_number_push(2, before, in_byte);
                        assert(symbol_value(in_char) == bit);
                        assert((value << 1u8) | bit == 2 * value + bit) by (bit_vector)
                            requires
                                value < 128,
                                bit <= 1,
                        ;
                        assert forall|i: int| 0 <= i < after.len() implies is_digit(
                            2,
                            #[trigger] after[i],
                        ) by {
                            assert(after[i] == text[i]);
                        }
                        lemma_number_bound(2, after);
                        lemma_pow_small(2);
                        if count + 1 < 8 {
                            lemma_pow_increases(2, (count + 1) as nat, 7);
                        }
                    }
                    value = (value << 1u8) | bit;
                },
            }
            count = count + 1;
        }
        proof {
            lemma_valid_prefix_at_least(2, text, 8);
            lemma_groups_step(2, text, failure);
        }
        Some(Ok(value))
    }
}

/// A writer of bytes as eight binary digits each.
pub struct Writer<'a> {
    out_bytes: Sink<'a>,
}

impl<'a> Writer<'a> {
    /// A writer that fills `out_bytes` from its start.
    pub fn new(out_bytes: &'a mut [u8]) -> (writer: Self)
        ensures
            writer.output() == Seq::<u8>::empty(),
            writer.room() == old(out_bytes)@.len(),
            forall|byte: u8| #[trigger] writer.text(byte) == Some(text(2, byte)),
    {
        Writer { out_bytes: Sink::new(out_bytes) }
    }

    /// The number of characters written so far.
    pub fn written(&self) -> (n: usize)
        ensures
            n == self.output().len(),
    {
        self.out_bytes.written()
    }

    /// The characters written so far: the part of the output that is filled.
    pub fn filled(&self) -> (bytes: &[u8])
        ensures
            bytes@ == self.output(),
    {
        self.out_bytes.filled()
    }
}

impl<'a> ByteWriter for Writer<'a> {
    closed spec fn output(&self) -> Seq<u8> {
        self.out_bytes.data()
    }

    closed spec fn room(&self) -> nat {
        self.out_bytes.room()
    }

    /// Every byte has a text in base 2.
    closed spec fn text(&self, byte: u8) -> Option<Seq<u8>> {
        Some(text(2, byte))
    }

    /// Writes the eight bits of `byte`, the highest first, each found by a
    /// test of that bit.
    fn write(&mut self, byte: u8) -> (res: Result<(), OutError>) {
        let mut bit_string: [u8; 8] = [0x30u8;8];
        let mut i: u8 = 8;
        proof {
            lemma_digits_per_byte(2);
        }
        while i > 0
            invariant
                i <= 8,
                forall|j: int| 8 - i <= j < 8 ==> bit_string[j] == 0x30,
                forall|j: int|
                    0 <= j < 8 - i ==> bit_string[j] == symbol_of(
                        digit_at(2, byte, (7 - j) as nat),
                    ),
            decreases i,
        {
            i = i - 1;
            proof {
                lemma_bit_is_digit(byte, i);
            }
            if (byte & (1u8 << i)) != 0 {
                bit_string[(7 - i) as usize] = 0x31;
            }
        }
        proof {
            assert(bit_string@ =~= text(2, byte));
        }
        util::write(&mut self.out_bytes, bit_string.as_slice(), 8)
    }
}

} // verus!
