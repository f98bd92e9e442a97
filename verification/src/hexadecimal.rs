//! Reading and writing bytes as pairs of hexadecimal digits.

use vstd::prelude::*;
use crate::byte_reader::{ByteReader, Item};
use crate::byte_writer::ByteWriter;
use crate::error::{InError, OutError};
use crate::numeral::{
    decoded,
    digit_at,
    digit_value,
    digits,
    lemma_digits_per_byte,
    lemma_groups_empty,
    lemma_groups_failed,
    lemma_groups_invalid,
    lemma_groups_short,
    lemma_groups_step,
    lemma_number_push,
    lemma_pow_small,
    lemma_valid_prefix_at_least,
    lemma_valid_prefix_is,
    number,
    symbol_of,
    text,
};
use crate::stream::{Sink, Source};
use crate::util;

verus! {

/// A reader of bytes that are written as two hexadecimal digits each, in
/// the ranges `0` to `9`, `a` to `f` and `A` to `F`. Whitespace may stand
/// anywhere: it is skipped.
pub struct Reader<'a> {
    in_bytes: Source<'a>,
    done: bool,
}

impl<'a> Reader<'a> {
    /// A reader of `read`.
    pub fn new(read: &'a [u8]) -> (reader: Self)
        ensures
            reader.pending() == decoded(16, read@, None),
    {
        Reader { in_bytes: Source::new(read), done: false }
    }

    /// A reader of what `source` has yet to supply.
    pub fn from_source(source: Source<'a>) -> (reader: Self)
        ensures
            reader.pending() == decoded(16, source.rest(), source.failure()),
    {
        Reader { in_bytes: source, done: false }
    }

    /// The value of `n` as a hexadecimal digit, or `None` where `n` is none.
    pub fn valid(n: char) -> (digit: Option<u8>)
        ensures
            digit == digit_value(16, n),
    {
        if '0' <= n && n <= '9' {
            Some(n as u8 - 0x30)
        } else if 'a' <= n && n <= 'f' {
            Some(10u8 + (n as u8 - 0x61))
        } else if 'A' <= n && n <= 'F' {
            Some(10u8 + (n as u8 - 0x41))
        } else {
            None
        }
    }
}

impl<'a> ByteReader for Reader<'a> {
    /// What the rest of the input decodes to in base 16, and nothing once
    /// the sequence has ended.
    closed spec fn pending(&self) -> Seq<Item> {
        if self.done {
            Seq::empty()
        } else {
            decoded(16, self.in_bytes.rest(), self.in_bytes.failure())
        }
    }

    /// Reads two hexadecimal digits and gives their byte: the first digit
    /// is the high half, the second the low half. The sequence ends as that
    /// of the reader of a numeric base does.
    fn next(&mut self) -> (item: Option<Item>) {
        if self.done {
            return None;
        }
        let ghost text = digits(self.in_bytes.rest());
        let ghost failure = self.in_bytes.failure();
        proof {
            lemma_digits_per_byte(16);
        }
        let msn: u8 = match self.in_bytes.next_non_whitespace() {
            None => {
                self.done = true;
                proof {
                    lemma_groups_empty(16, text);
                }
                return None;
            },
            Some(Err(e)) => {
                self.done = true;
                proof {
                    lemma_valid_prefix_is(16, text, 0);
                    lemma_groups_failed(16, text, e);
                }
                return Some(Err(InError::StdIO(e)));
            },
            Some(Ok(msn)) => msn,
        };
        let ghost behind = digits(self.in_bytes.rest());
        proof {
            assert(text[0] == msn);
            assert(behind =~= text.skip(1));
        }
        let msn: u8 = match Self::valid(msn as char) {
            None => {
                self.done = true;
                proof {
                    lemma_valid_prefix_is(16, text, 0);
                    lemma_groups_invalid(16, text, failure);
                }
                return Some(Err(InError::InvalidByte(msn as char)));
            },
            Some(digit) => digit,
        };
        let lsn: u8 = match self.in_bytes.next_non_whitespace() {
            None => {
                self.done = true;
                proof {
                    lemma_valid_prefix_is(16, text, 1);
                    lemma_groups_short(16, text);
                }
                return Some(Err(InError::ShortIO { bytes: 1usize, expected: 2 }));
            },
            Some(Err(e)) => {
                self.done = true;
                proof {
                    lemma_valid_prefix_is(16, text, 1);
                    lemma_groups_failed(16, text, e);
                }
                return Some(Err(InError::StdIO(e)));
            },
            Some(Ok(lsn)) => lsn,
        };
        proof {
            assert(behind[0] == lsn);
            assert(text[1] == lsn);
            assert(digits(self.in_bytes.rest()) =~= text.skip(2)) by {
                assert(behind.skip(1) =~= text.skip(2));
                assert((seq![lsn] + digits(self.in_bytes.rest())).skip(1) =~= digits(
                    self.in_bytes.rest(),
                ));
            }
        }
        let lsn: u8 = match Self::valid(lsn as char) {
            None => {
                self.done = true;
                proof {
                    lemma_valid_prefix_is(16, text, 1);
                    lemma_groups_invalid(16, text, failure);
                }
                return Some(Err(InError::InvalidByte(lsn as char)));
            },
            Some(digit) => digit,
        };
        proof {
            let pair = text.take(2);
            let first = text.take(1);
            assert(pair =~= first.push(text[1]));
            assert(first =~= Seq::<u8>::empty().push(text[0]));
            lemma_number_push(16, Seq::<u8>::empty(), text[0]);
            lemma_number_push(16, first, text[1]);
            assert(number(16, pair) == msn * 16 + lsn);
            assert((msn << 4u8) | lsn == msn * 16 + lsn) by (bit_vector)
                requires
                    msn < 16,
                    lsn < 16,
            ;
            lemma_valid_prefix_at_least(16, text, 2);
            lemma_groups_step(16, text, failure);
        }
        Some(Ok((msn << 4u8) | lsn))
    }
}

/// A writer of bytes as two hexadecimal digits each, in the ranges `0` to
/// `9` and `a` to `f`.
pub struct Writer<'a> {
    out_bytes: Sink<'a>,
}

impl<'a> Writer<'a> {
    /// A writer that fills `out_bytes` from its start.
    pub fn new(out_bytes: &'a mut [u8]) -> (writer: Self)
        ensures
            writer.output() == Seq::<u8>::empty(),
            writer.room() == old(out_bytes)@.len(),
            forall|byte: u8| #[trigger] writer.text(byte) == Some(text(16, byte)),
    {
        Writer { out_bytes: Sink::new(out_bytes) }
    }

    /// The number of characters written so far.
    pub fn written(&self) -> (n: usize)
        ensures
            n == self.output().len(),
    {
        self.out_bytes.written()
    }

    /// The characters written so far: the part of the output that is filled.
    pub fn filled(&self) -> (bytes: &[u8])
        ensures
            bytes@ == self.output(),
    {
        self.out_bytes.filled()
    }

    /// The character that writes a half byte.
    fn symbol(nibble: u8) -> (symbol: u8)
        requires
            nibble < 16,
        ensures
            symbol == symbol_of(nibble),
    {
        if nibble < 10 {
            0x30 + nibble
        } else {
            0x61 + (nibble - 10)
        }
    }
}

impl<'a> ByteWriter for Writer<'a> {
    closed spec fn output(&self) -> Seq<u8> {
        self.out_bytes.data()
    }

    closed spec fn room(&self) -> nat {
        self.out_bytes.room()
    }

    /// Every byte has a text in base 16.
    closed spec fn text(&self, byte: u8) -> Option<Seq<u8>> {
        Some(text(16, byte))
    }

    /// Writes the high half of `byte` and then its low half, each as one
    /// digit.
    fn write(&mut self, byte: u8) -> (res: Result<(), OutError>) {
        proof {
            lemma_digits_per_byte(16);
            lemma_pow_small(16);
            assert((byte & 0xf0) >> 4u8 == byte / 16 && (byte & 0xf0) >> 4u8 < 16) by (bit_vector);
            assert(byte & 0x0f == byte % 16 && byte & 0x0f < 16) by (bit_vector);
            assert(digit_at(16, byte, 1) == byte / 16);
            assert(digit_at(16, byte, 0) == byte % 16);
        }
        let msn: u8 = Self::symbol((byte & 0xf0) >> 4u8);
        let lsn: u8 = Self::symbol(byte & 0x0f);
        let pair: [u8; 2] = [msn, lsn];
        proof {
            assert(pair@ =~= text(16, byte));
        }
        util::write(&mut self.out_bytes, pair.as_slice(), 2)
    }
}

} // verus!
