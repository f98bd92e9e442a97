//! Reading and writing bytes as ASCII characters: the values 0 to 127.

use vstd::prelude::*;
use crate::byte_reader::{leading_bytes, ByteReader, Item};
use crate::byte_writer::ByteWriter;
use crate::error::{ErrorType, InError, OutError};
use crate::stream::{Sink, Source};
use crate::util;

verus! {

/// The byte is an ASCII character.
pub open spec fn is_ascii(byte: u8) -> bool {
    byte < 128
}

/// The items that a source gives when read as ASCII, where `input` are its
/// bytes and `failure` is how it ends behind them: each character as its
/// own value, up to the first byte that is none, which is reported and ends
/// the sequence. A failure of the source is reported behind the characters.
pub open spec fn decoded(input: Seq<u8>, failure: Option<std::io::Error>) -> Seq<Item>
    decreases input.len(),
{
    if input.len() == 0 {
        match failure {
            Some(e) => seq![Err(ErrorType::StdIO(e))],
            None => Seq::empty(),
        }
    } else if is_ascii(input[0]) {
        seq![Ok(input[0])] + decoded(input.skip(1), failure)
    } else {
        seq![Err(ErrorType::InvalidByte(input[0] as char))]
    }
}

/// The text of `byte` as ASCII: the byte itself where it is a character,
/// and none otherwise.
pub open spec fn text(byte: u8) -> Option<Seq<u8>> {
    if is_ascii(byte) {
        Some(seq![byte])
    } else {
        None
    }
}

/// An input without bytes gives no item.
pub proof fn lemma_decoded_empty()
    ensures
        decoded(Seq::<u8>::empty(), None) == Seq::<Item>::empty(),
{
}

/// An input gives no more bytes than it has.
pub proof fn lemma_decoded_count(input: Seq<u8>, failure: Option<std::io::Error>)
    ensures
        leading_bytes(decoded(input, failure)) <= input.len(),
    decreases input.len(),
{
    if input.len() > 0 && is_ascii(input[0]) {
        lemma_decoded_count(input.skip(1), failure);
        let behind = decoded(input.skip(1), failure);
        assert((seq![Ok::<u8, InError>(input[0])] + behind).skip(1) =~= behind);
    }
}

/// A reader of ASCII characters, one byte each.
pub struct Reader<'a> {
    in_bytes: Source<'a>,
    done: bool,
}

impl<'a> Reader<'a> {
    /// A reader of `read`.
    pub fn new(read: &'a [u8]) -> (reader: Self)
        ensures
            reader.pending() == decoded(read@, None),
    {
        Reader { in_bytes: Source::new(read), done: false }
    }

    /// A reader of what `source` has yet to supply.
    pub fn from_source(source: Source<'a>) -> (reader: Self)
        ensures
            reader.pending() == decoded(source.rest(), source.failure()),
    {
        Reader { in_bytes: source, done: false }
    }
}

impl<'a> ByteReader for Reader<'a> {
    /// What the rest of the input gives as ASCII, and nothing once the
    /// sequence has ended.
    closed spec fn pending(&self) -> Seq<Item> {
        if self.done {
            Seq::empty()
        } else {
            decoded(self.in_bytes.rest(), self.in_bytes.failure())
        }
    }

    /// Gives the next byte if it is an ASCII character. Any other byte, or
    /// a failure of the source, is reported once, and the sequence ends with
    /// the report.
    fn next(&mut self) -> (item: Option<Item>) {
        if self.done {
            return None;
        }
        let ghost input = self.in_bytes.rest();
        let ghost failure = self.in_bytes.failure();
        match self.in_bytes.next() {
            None => None,
            Some(Ok(c)) => {
                if c < 128 {
                    proof {
                        let behind = decoded(input.skip(1), failure);
                        assert((seq![Ok::<u8, InError>(c)] + behind).skip(1) =~= behind);
                    }
                    Some(Ok(c))
                } else {
                    self.done = true;
                    proof {
                        assert(seq![Err::<u8, InError>(ErrorType::InvalidByte(c as char))].skip(1)
                            =~= Seq::<Item>::empty());
                    }
                    Some(Err(InError::InvalidByte(c as char)))
                }
            },
            Some(Err(e)) => {
                self.done = true;
                proof {
                    assert(seq![Err::<u8, InError>(ErrorType::StdIO(e))].skip(1) =~= Seq::<
                        Item,
                    >::empty());
                }
                Some(Err(InError::StdIO(e)))
            },
        }
    }
}

/// A writer of ASCII characters, one byte each.
pub struct Writer<'a> {
    out_bytes: Sink<'a>,
}

impl<'a> Writer<'a> {
    /// A writer that fills `out_bytes` from its start.
    pub fn new(out_bytes: &'a mut [u8]) -> (writer: Self)
        ensures
            writer.output() == Seq::<u8>::empty(),
            writer.room() == old(out_bytes)@.len(),
            forall|byte: u8| #[trigger] writer.text(byte) == text(byte),
    {
        Writer { out_bytes: Sink::new(out_bytes) }
    }

    /// The number of characters written so far.
    pub fn written(&self) -> (n: usize)
        ensures
            n == self.output().len(),
    {
        self.out_bytes.written()
    }

    /// The characters written so far: the part of the output that is filled.
    pub fn filled(&self) -> (bytes: &[u8])
        ensures
            bytes@ == self.output(),
    {
        self.out_bytes.filled()
    }
}

impl<'a> ByteWriter for Writer<'a> {
    closed spec fn output(&self) -> Seq<u8> {
        self.out_bytes.data()
    }

    closed spec fn room(&self) -> nat {
        self.out_bytes.room()
    }

    /// Only the values below 128 have a text.
    closed spec fn text(&self, byte: u8) -> Option<Seq<u8>> {
        text(byte)
    }

    /// Writes `byte` as it is if it is an ASCII character, and refuses any
    /// other value.
    fn write(&mut self, byte: u8) -> (res: Result<(), OutError>) {
        if byte < 128 {
            let one: [u8; 1] = [byte];
            proof {
                assert(one@ =~= seq![byte]);
            }
            util::write(&mut self.out_bytes, one.as_slice(), 1)
        } else {
            Err(OutError::InvalidByte(byte))
        }
    }
}

} // verus!
