//! The formats by name, and a conversion between two of them.

use vstd::prelude::*;
use vstd::slice::slice_to_vec;
use vstd::string::StringSliceAdditionalSpecFns;
use crate::ascii;
use crate::base;
use crate::binary;
use crate::byte_reader::{leading_bytes, ByteReader, Item};
use crate::byte_writer::{write_output, write_room};
use crate::error::{Error, ErrorType, InError, OutError};
use crate::hexadecimal;
use crate::numeral::{
    decoded,
    digits_per_byte,
    encoded,
    is_base,
    is_radix,
    lemma_decoded_count,
    lemma_digits_per_byte,
    lemma_encoded_is_digits,
    lemma_number_push,
    lemma_round_trip_all,
    number,
    text,
};
use crate::raw;
use crate::stream::Source;
use crate::{conversion, convert, format_of, lemma_conversion_of_bytes, written, Conversion};

verus! {

/// A format of the input or of the output.
#[derive(Copy, Clone, PartialEq, Eq, PartialOrd, Ord, Debug)]
pub enum Mode {
    /// raw bytes
    Raw,
    /// binary representation (e.g. `00001101`)
    Bin,
    /// hexadecimal representation (e.g. `a4`)
    Hex,
    /// ASCII characters (e.g. `!`)
    Ascii,
    /// numeric base (2 to 36)
    Base(u8),
}

/// Why an argument names no format.
#[derive(Copy, Clone, PartialEq, Eq, Debug)]
pub enum ParseError {
    /// The argument is a number, and no base from 2 to 36.
    BaseOutOfRange,
    /// The argument is neither a number nor the name of a format.
    UnknownMode,
}

/// A decimal figure.
pub open spec fn is_figure(byte: u8) -> bool {
    0x30 <= byte <= 0x39
}

/// The number that a text of decimal figures writes, and `None` for a text
/// that is empty or holds anything but figures.
pub open spec fn decimal(figures: Seq<u8>) -> Option<nat> {
    if figures.len() > 0 && forall|i: int|
        0 <= i < figures.len() ==> is_figure(#[trigger] figures[i]) {
        Some(number(10, figures))
    } else {
        None
    }
}

/// What stands behind a plus sign at the front of an argument, or the whole
/// argument where it has none.
pub open spec fn unsigned(arg: Seq<u8>) -> Seq<u8> {
    if arg.len() > 0 && arg[0] == 0x2b {
        arg.skip(1)
    } else {
        arg
    }
}

/// The number that an argument writes, if it writes one that fits a byte:
/// decimal figures, any number of them, with or without a plus sign in
/// front.
pub open spec fn small_number(arg: Seq<u8>) -> Option<u8> {
    match decimal(unsigned(arg)) {
        Some(n) => if n <= 255 {
            Some(n as u8)
        } else {
            None
        },
        None => None,
    }
}

/// The format that an argument names, in full or by its first letter.
pub open spec fn named(arg: Seq<u8>) -> Option<Mode> {
    if arg == "raw".spec_bytes() || arg == "r".spec_bytes() {
        Some(Mode::Raw)
    } else if arg == "bin".spec_bytes() || arg == "b".spec_bytes() {
        Some(Mode::Bin)
    } else if arg == "hex".spec_bytes() || arg == "h".spec_bytes() {
        Some(Mode::Hex)
    } else if arg == "ascii".spec_bytes() || arg == "a".spec_bytes() {
        Some(Mode::Ascii)
    } else {
        None
    }
}

/// The format that an argument stands for. A number that fits a byte is a
/// numeric base, and is refused unless it is one of 2 to 36. Anything else
/// is a name, and is refused unless it is one of the four.
pub open spec fn parsed(arg: Seq<u8>) -> Result<Mode, ParseError> {
    match small_number(arg) {
        Some(base) => if is_radix(base) {
            Ok(Mode::Base(base))
        } else {
            Err(ParseError::BaseOutOfRange)
        },
        None => match named(arg) {
            Some(mode) => Ok(mode),
            None => Err(ParseError::UnknownMode),
        },
    }
}

/// Tells whether two slices hold the same bytes.
fn same(left: &[u8], right: &[u8]) -> (equal: bool)
    ensures
        equal == (left@ == right@),
{
    if left.len() != right.len() {
        return false;
    }
    let mut i: usize = 0;
    while i < left.len()
        invariant
            left@.len() == right@.len(),
            i <= left@.len(),
            left@.take(i as int) == right@.take(i as int),
        decreases left@.len() - i,
    {
        if left[i] != right[i] {
            return false;
        }
        i = i + 1;
        assert(left@.take(i as int) =~= left@.take(i - 1).push(left@[i - 1]));
        assert(right@.take(i as int) =~= right@.take(i - 1).push(right@[i - 1]));
    }
    assert(left@ =~= left@.take(i as int));
    assert(right@ =~= right@.take(i as int));
    true
}

/// Reads the number that an argument writes, if it writes one that fits a
/// byte.
fn parse_small_number(arg: &[u8]) -> (n: Option<u8>)
    ensures
        n == small_number(arg@),
{
    let start: usize = if arg.len() > 0 && arg[0] == 0x2b {
        1
    } else {
        0
    };
    let ghost figures = unsigned(arg@);
    if start == arg.len() {
        return None;
    }
    let mut value: u16 = 0;
    let mut i: usize = start;
    proof {
        assert(figures.take(0) =~= Seq::<u8>::empty());
    }
    while i < arg.len()
        invariant
            start <= i <= arg@.len(),
            start <= 1,
            figures == unsigned(arg@),
            figures == arg@.skip(start as int),
            figures.len() > 0,
            forall|j: int| 0 <= j < i - start ==> is_figure(#[trigger] figures[j]),
            value <= 256,
            number(10, figures.take(i - start)) <= 255 ==> value == number(
                10,
                figures.take(i - start),
            ),
            number(10, figures.take(i - start)) > 255 ==> value == 256,
        decreases arg@.len() - i,
    {
        let byte: u8 = arg[i];
        if byte < 0x30 || byte > 0x39 {
            assert(!is_figure(figures[i - start]));
            return None;
        }
        proof {
            let before = figures.take(i - start);
            assert(figures.take(i - start + 1) =~= before.push(byte));
            lemma_number_push(10, before, byte);
        }
        let digit: u16 = (byte - 0x30) as u16;
        value = if value * 10 + digit > 255 {
            256
        } else {
            value * 10 + digit
        };
        i = i + 1;
    }
    proof {
        assert(figures.take(i - start) =~= figures);
    }
    if value <= 255 {
        Some(value as u8)
    } else {
        None
    }
}

impl ParseError {
    /// The refusal in words.
    pub fn message(&self) -> (words: &'static str)
        ensures
            *self == ParseError::BaseOutOfRange ==> words@ == "base must be in [2,36]"@,
            *self == ParseError::UnknownMode ==> words@
                == "allowed modes: raw, bin, hex, ascii or N where N is a numeric base in [2,36]"@,
    {
        match self {
            ParseError::BaseOutOfRange => "base must be in [2,36]",
            ParseError::UnknownMode => {
                "allowed modes: raw, bin, hex, ascii or N where N is a numeric base in [2,36]"
            },
        }
    }
}

impl Mode {
    /// A numeric base is one of 2 to 36.
    pub open spec fn inv(&self) -> bool {
        match *self {
            Mode::Base(base) => is_radix(base),
            _ => true,
        }
    }

    /// Tells whether the format exists: a numeric base does if it is one of
    /// 2 to 36.
    pub fn is_format(&self) -> (known: bool)
        ensures
            known == self.inv(),
    {
        match self {
            Mode::Base(base) => is_base(*base),
            _ => true,
        }
    }

    /// The format that `arg` stands for: `raw`, `bin`, `hex` or `ascii`,
    /// each also by its first letter, or the number of a numeric base.
    pub fn parse(arg: &str) -> (res: Result<Mode, ParseError>)
        ensures
            res == parsed(arg.spec_bytes()),
            res matches Ok(mode) ==> mode.inv(),
    {
        let bytes = arg.as_bytes();
        if let Some(base) = parse_small_number(bytes) {
            if is_base(base) {
                Ok(Mode::Base(base))
            } else {
                Err(ParseError::BaseOutOfRange)
            }
        } else if same(bytes, "raw".as_bytes()) || same(bytes, "r".as_bytes()) {
            Ok(Mode::Raw)
        } else if same(bytes, "bin".as_bytes()) || same(bytes, "b".as_bytes()) {
            Ok(Mode::Bin)
        } else if same(bytes, "hex".as_bytes()) || same(bytes, "h".as_bytes()) {
            Ok(Mode::Hex)
        } else if same(bytes, "ascii".as_bytes()) || same(bytes, "a".as_bytes()) {
            Ok(Mode::Ascii)
        } else {
            Err(ParseError::UnknownMode)
        }
    }

    /// The items that a source gives when read in this format, where
    /// `input` are its bytes and `failure` is how it ends behind them.
    pub open spec fn items(&self, input: Seq<u8>, failure: Option<std::io::Error>) -> Seq<Item> {
        match *self {
            Mode::Raw => raw::decoded(input, failure),
            Mode::Bin => decoded(2, input, failure),
            Mode::Hex => decoded(16, input, failure),
            Mode::Ascii => ascii::decoded(input, failure),
            Mode::Base(base) => decoded(base, input, failure),
        }
    }

    /// The numeric base of this format, if it is one of digits.
    pub open spec fn radix(&self) -> Option<u8> {
        match *self {
            Mode::Raw => None,
            Mode::Bin => Some(2),
            Mode::Hex => Some(16),
            Mode::Ascii => None,
            Mode::Base(base) => Some(base),
        }
    }

    /// The text of a byte in this format, or `None` where it has none.
    pub open spec fn text(&self, byte: u8) -> Option<Seq<u8>> {
        match *self {
            Mode::Raw => Some(raw::text(byte)),
            Mode::Bin => Some(text(2, byte)),
            Mode::Hex => Some(text(16, byte)),
            Mode::Ascii => ascii::text(byte),
            Mode::Base(base) => Some(text(base, byte)),
        }
    }
}

/// The conversion ended because the output was full.
pub open spec fn is_short_write(result: Result<(), Error>) -> bool {
    result matches Err(Error::Out(ErrorType::ShortIO { .. }))
}

/// The longest text that a format writes for a byte: the eight digits of
/// base 2.
pub const LONGEST_TEXT: usize = 8;

/// An output with room for eight characters for each byte that the items
/// give before their first error is never full.
pub proof fn lemma_room_suffices(
    items: Seq<Item>,
    format: spec_fn(u8) -> Option<Seq<u8>>,
    output: Seq<u8>,
    room: nat,
)
    requires
        forall|byte: u8| #[trigger] format(byte) is Some ==> format(byte)->0.len() <= LONGEST_TEXT,
        room >= LONGEST_TEXT * leading_bytes(items),
    ensures
        !is_short_write(conversion(items, format, output, room).result),
    decreases items.len(),
{
    if items.len() > 0 {
        if let Ok(byte) = items[0] {
            if format(byte) is Some {
                lemma_room_suffices(
                    items.skip(1),
                    format,
                    write_output(output, format(byte), room),
                    write_room(format(byte), room),
                );
            }
        }
    }
}

/// In a format of digits, the texts of bytes one behind the other are the
/// text of the bytes.
pub proof fn lemma_written_digits(
    bytes: Seq<u8>,
    format: spec_fn(u8) -> Option<Seq<u8>>,
    radix: u8,
)
    requires
        forall|byte: u8| #[trigger] format(byte) == Some(text(radix, byte)),
    ensures
        written(bytes, format) == encoded(radix, bytes),
    decreases bytes.len(),
{
    if bytes.len() > 0 {
        lemma_written_digits(bytes.skip(1), format, radix);
    }
}

/// Written raw, bytes are their own text.
pub proof fn lemma_written_raw(bytes: Seq<u8>, format: spec_fn(u8) -> Option<Seq<u8>>)
    requires
        forall|byte: u8| #[trigger] format(byte) == Some(raw::text(byte)),
    ensures
        written(bytes, format) == bytes,
    decreases bytes.len(),
{
    if bytes.len() > 0 {
        lemma_written_raw(bytes.skip(1), format);
        assert(raw::text(bytes[0]) + bytes.skip(1) =~= bytes);
    }
}

/// How a conversion ends once its output has been handed on: where that
/// failed, with the failure as an output error, whatever the conversion
/// itself came to; otherwise as the conversion ended.
pub fn delivered(result: Result<(), Error>, delivery: Result<(), std::io::Error>) -> (res: Result<
    (),
    Error,
>)
    ensures
        res == match delivery {
            Err(e) => Err(Error::Out(ErrorType::StdIO(e))),
            Ok(_) => result,
        },
{
    match delivery {
        Err(e) => Err(Error::Out(OutError::StdIO(e))),
        Ok(_) => result,
    }
}

/// The formats of a conversion: that of the input and that of the output.
pub struct Config {
    input: Mode,
    output: Mode,
}

impl Config {
    /// The format of the input.
    pub closed spec fn input(&self) -> Mode {
        self.input
    }

    /// The format of the output.
    pub closed spec fn output(&self) -> Mode {
        self.output
    }

    /// Both formats exist.
    #[verifier::type_invariant]
    pub open spec fn inv(&self) -> bool {
        self.input().inv() && self.output().inv()
    }

    /// How the conversion of a source ends where the output takes no more
    /// than `limit` bytes: `input` are the bytes of the source, and
    /// `failure` is how it ends behind them.
    pub open spec fn outcome(
        &self,
        input: Seq<u8>,
        failure: Option<std::io::Error>,
        limit: nat,
    ) -> Conversion {
        conversion(
            self.input().items(input, failure),
            |byte: u8| self.output().text(byte),
            Seq::empty(),
            limit,
        )
    }

    /// A conversion from `input` to `output`, or `None` where one of them is
    /// a numeric base that does not exist.
    pub fn new(input: Mode, output: Mode) -> (config: Option<Self>)
        ensures
            config is Some <==> input.inv() && output.inv(),
            config matches Some(c) ==> c.inv() && c.input() == input && c.output() == output,
    {
        if input.is_format() && output.is_format() {
            Some(Config { input, output })
        } else {
            None
        }
    }

    /// Room for the output of an input of `input_len` bytes in any format:
    /// eight times as much, or as much as the machine can count.
    pub fn room_for(input_len: usize) -> (room: usize)
        ensures
            room == if LONGEST_TEXT * input_len <= usize::MAX {
                LONGEST_TEXT * input_len
            } else {
                usize::MAX as int
            },
    {
        if input_len <= usize::MAX / LONGEST_TEXT {
            LONGEST_TEXT * input_len
        } else {
            usize::MAX
        }
    }

    /// With room for eight characters for each byte of the input, a
    /// conversion never ends because the output is full.
    pub proof fn lemma_room_for(
        &self,
        input: Seq<u8>,
        failure: Option<std::io::Error>,
        limit: nat,
    )
        requires
            self.inv(),
            limit >= LONGEST_TEXT * input.len(),
        ensures
            !is_short_write(self.outcome(input, failure, limit).result),
    {
        let items = self.input().items(input, failure);
        let format = |byte: u8| self.output().text(byte);
        match self.input() {
            Mode::Raw => {
                raw::lemma_decoded_count(input, failure);
            },
            Mode::Bin => {
                lemma_decoded_count(2, input, failure);
            },
            Mode::Hex => {
                lemma_decoded_count(16, input, failure);
            },
            Mode::Ascii => {
                ascii::lemma_decoded_count(input, failure);
            },
            Mode::Base(base) => {
                lemma_decoded_count(base, input, failure);
            },
        }
        assert forall|byte: u8| #[trigger] format(byte) is Some implies format(byte)->0.len()
            <= LONGEST_TEXT by {
            match self.output() {
                Mode::Raw => {},
                Mode::Bin => {
                    lemma_digits_per_byte(2);
                },
                Mode::Hex => {
                    lemma_digits_per_byte(16);
                },
                Mode::Ascii => {},
                Mode::Base(base) => {
                    lemma_digits_per_byte(base);
                },
            }
        }
        assert(LONGEST_TEXT * leading_bytes(items) <= LONGEST_TEXT * input.len())
            by (nonlinear_arith)
            requires
                leading_bytes(items) <= input.len(),
        ;
        lemma_room_suffices(items, format, Seq::empty(), limit);
    }

    /// Bytes that are converted to a format of digits, in whatever base,
    /// and from that format back, are the bytes again: both conversions
    /// succeed where the output has room for eight characters for each
    /// byte.
    pub proof fn lemma_there_and_back(there: Config, back: Config, bytes: Seq<u8>, room: nat)
        requires
            there.inv(),
            back.inv(),
            there.input() == Mode::Raw,
            there.output().radix() is Some,
            back.input().radix() == there.output().radix(),
            back.output() == Mode::Raw,
            room >= LONGEST_TEXT * bytes.len(),
        ensures
            there.outcome(bytes, None, room).result is Ok,
            there.outcome(bytes, None, room).output == encoded(
                there.output().radix()->0,
                bytes,
            ),
            back.outcome(there.outcome(bytes, None, room).output, None, room).result is Ok,
            back.outcome(there.outcome(bytes, None, room).output, None, room).output == bytes,
    {
        let radix = there.output().radix()->0;
        let width = digits_per_byte(radix);
        let all = encoded(radix, bytes);
        let items = Seq::new(bytes.len(), |i: int| Ok::<u8, InError>(bytes[i]));
        let digits = |byte: u8| there.output().text(byte);
        let same = |byte: u8| back.output().text(byte);
        lemma_digits_per_byte(radix);
        lemma_encoded_is_digits(radix, bytes);
        assert(width * bytes.len() <= LONGEST_TEXT * bytes.len()) by (nonlinear_arith)
            requires
                width <= LONGEST_TEXT,
        ;
        assert(there.input().items(bytes, None) =~= items);
        lemma_written_digits(bytes, digits, radix);
        lemma_conversion_of_bytes(bytes, digits, Seq::empty(), room);
        assert(Seq::<u8>::empty() + all =~= all);
        lemma_round_trip_all(radix, bytes);
        assert(back.input().items(all, None) == items);
        lemma_written_raw(bytes, same);
        lemma_conversion_of_bytes(bytes, same, Seq::empty(), room);
        assert(Seq::<u8>::empty() + bytes =~= bytes);
    }

    /// Converts what `input` has yet to supply and returns how the
    /// conversion ended, with the output that it wrote: all of it after
    /// success, and what was written before the first error otherwise. The
    /// output takes no more than `limit` bytes. Base 2 is read and written
    /// as the binary format is, and base 16 as the hexadecimal format is.
    pub fn run(&self, input: Source, limit: usize) -> (res: (Result<(), Error>, Vec<u8>))
        ensures
            res.0 == self.outcome(input.rest(), input.failure(), limit as nat).result,
            res.1@ == self.outcome(input.rest(), input.failure(), limit as nat).output,
    {
        proof {
            use_type_invariant(self);
        }
        match self.input {
            Mode::Raw => {
                let mut reader = raw::Reader::from_source(input);
                self.write(&mut reader, limit)
            },
            Mode::Bin => {
                let mut reader = binary::Reader::from_source(input);
                self.write(&mut reader, limit)
            },
            Mode::Hex => {
                let mut reader = hexadecimal::Reader::from_source(input);
                self.write(&mut reader, limit)
            },
            Mode::Ascii => {
                let mut reader = ascii::Reader::from_source(input);
                self.write(&mut reader, limit)
            },
            Mode::Base(b) => {
                if b == 2 {
                    let mut reader = binary::Reader::from_source(input);
                    self.write(&mut reader, limit)
                } else if b == 16 {
                    let mut reader = hexadecimal::Reader::from_source(input);
                    self.write(&mut reader, limit)
                } else {
                    let mut reader = base::Reader::from_source(input, b);
                    self.write(&mut reader, limit)
                }
            },
        }
    }

    /// Converts what `reader` has yet to produce into the format of the
    /// output.
    fn write<I: ByteReader>(&self, reader: &mut I, limit: usize) -> (res: (
        Result<(), Error>,
        Vec<u8>,
    ))
        ensures
            res.0 == conversion(
                old(reader).pending(),
                |byte: u8| self.output().text(byte),
                Seq::empty(),
                limit as nat,
            ).result,
            res.1@ == conversion(
                old(reader).pending(),
                |byte: u8| self.output().text(byte),
                Seq::empty(),
                limit as nat,
            ).output,
    {
        proof {
            use_type_invariant(self);
        }
        let mut buffer: Vec<u8> = vec![0u8; limit];
        let ghost format = |byte: u8| self.output().text(byte);
        match self.output {
            Mode::Raw => {
                let mut writer = raw::Writer::new(buffer.as_mut_slice());
                assert(format_of(&writer) =~= format);
                let result = convert(reader, &mut writer);
                (result, slice_to_vec(writer.filled()))
            },
            Mode::Ascii => {
                let mut writer = ascii::Writer::new(buffer.as_mut_slice());
                assert(format_of(&writer) =~= format);
                let result = convert(reader, &mut writer);
                (result, slice_to_vec(writer.filled()))
            },
            Mode::Bin => {
                let mut writer = binary::Writer::new(buffer.as_mut_slice());
                assert(format_of(&writer) =~= format);
                let result = convert(reader, &mut writer);
                (result, slice_to_vec(writer.filled()))
            },
            Mode::Hex => {
                let mut writer = hexadecimal::Writer::new(buffer.as_mut_slice());
                assert(format_of(&writer) =~= format);
                let result = convert(reader, &mut writer);
                (result, slice_to_vec(writer.filled()))
            },
            Mode::Base(b) => {
                if b == 2 {
                    let mut writer = binary::Writer::new(buffer.as_mut_slice());
                    assert(format_of(&writer) =~= format);
                    let result = convert(reader, &mut writer);
                    (result, slice_to_vec(writer.filled()))
                } else if b == 16 {
                    let mut writer = hexadecimal::Writer::new(buffer.as_mut_slice());
                    assert(format_of(&writer) =~= format);
                    let result = convert(reader, &mut writer);
                    (result, slice_to_vec(writer.filled()))
                } else {
                    let mut writer = base::Writer::new(buffer.as_mut_slice(), b);
                    assert(format_of(&writer) =~= format);
                    let result = convert(reader, &mut writer);
                    (result, slice_to_vec(writer.filled()))
                }
            },
        }
    }
}

} // verus!
