//! Reading and writing bytes as they are.

use vstd::prelude::*;
use crate::byte_reader::{leading_bytes, lemma_leading_bytes, ByteReader, Item};
use crate::byte_writer::ByteWriter;
use crate::error::{ErrorType, InError, OutError};
use crate::stream::{Sink, Source};
use crate::util;

verus! {

/// The items that a source gives when read raw, where `input` are its
/// bytes and `failure` is how it ends behind them: each byte as its own
/// value, and behind them the failure, if there is one.
pub open spec fn decoded(input: Seq<u8>, failure: Option<std::io::Error>) -> Seq<Item> {
    Seq::new(input.len(), |i: int| Ok(input[i])) + match failure {
        Some(e) => seq![Err(ErrorType::StdIO(e))],
        None => Seq::empty(),
    }
}

/// The text of `byte` when written raw: the byte itself.
pub open spec fn text(byte: u8) -> Seq<u8> {
    seq![byte]
}

/// An input without bytes gives no item.
pub proof fn lemma_decoded_empty()
    ensures
        decoded(Seq::<u8>::empty(), None) == Seq::<Item>::empty(),
{
    assert(decoded(Seq::<u8>::empty(), None) =~= Seq::<Item>::empty());
}

/// An input gives no more bytes than it has.
pub proof fn lemma_decoded_count(input: Seq<u8>, failure: Option<std::io::Error>)
    ensures
        leading_bytes(decoded(input, failure)) <= input.len(),
{
    lemma_leading_bytes(decoded(input, failure));
}

/// A reader of raw bytes: every value is valid, and nothing is skipped.
pub struct Reader<'a> {
    in_bytes: Source<'a>,
}

impl<'a> Reader<'a> {
    /// A reader of `read`.
    pub fn new(read: &'a [u8]) -> (reader: Self)
        ensures
            reader.pending() == decoded(read@, None),
    {
        Reader { in_bytes: Source::new(read) }
    }

    /// A reader of what `source` has yet to supply.
    pub fn from_source(source: Source<'a>) -> (reader: Self)
        ensures
            reader.pending() == decoded(source.rest(), source.failure()),
    {
        Reader { in_bytes: source }
    }
}

impl<'a> ByteReader for Reader<'a> {
    /// The rest of the input, byte for byte, and the failure behind it.
    closed spec fn pending(&self) -> Seq<Item> {
        decoded(self.in_bytes.rest(), self.in_bytes.failure())
    }

    /// Gives the next byte, and behind the last a failure of the source,
    /// once.
    fn next(&mut self) -> (item: Option<Item>) {
        let ghost input = self.in_bytes.rest();
        let ghost failure = self.in_bytes.failure();
        match self.in_bytes.next() {
            None => {
                proof {
                    assert(decoded(input, failure) =~= Seq::<Item>::empty());
                }
                None
            },
            Some(Ok(b)) => {
                proof {
                    assert(decoded(input, failure).skip(1) =~= decoded(input.skip(1), failure));
                }
                Some(Ok(b))
            },
            Some(Err(e)) => {
                proof {
                    let failed = seq![Err::<u8, InError>(ErrorType::StdIO(e))];
                    assert(decoded(input, failure) =~= failed);
                    assert(decoded(input, failure).skip(1) =~= decoded(input, None));
                }
                Some(Err(InError::StdIO(e)))
            },
        }
    }
}

/// A writer of raw bytes.
pub struct Writer<'a> {
    out_bytes: Sink<'a>,
}

impl<'a> Writer<'a> {
    /// A writer that fills `out_bytes` from its start.
    pub fn new(out_bytes: &'a mut [u8]) -> (writer: Self)
        ensures
            writer.output() == Seq::<u8>::empty(),
            writer.room() == old(out_bytes)@.len(),
            forall|byte: u8| #[trigger] writer.text(byte) == Some(text(byte)),
    {
        Writer { out_bytes: Sink::new(out_bytes) }
    }

    /// The number of bytes written so far.
    pub fn written(&self) -> (n: usize)
        ensures
            n == self.output().len(),
    {
        self.out_bytes.written()
    }

    /// The bytes written so far: the part of the output that is filled.
    pub fn filled(&self) -> (bytes: &[u8])
        ensures
            bytes@ == self.output(),
    {
        self.out_bytes.filled()
    }
}

impl<'a> ByteWriter for Writer<'a> {
    closed spec fn output(&self) -> Seq<u8> {
        self.out_bytes.data()
    }

    closed spec fn room(&self) -> nat {
        self.out_bytes.room()
    }

    /// Every byte is its own text.
    closed spec fn text(&self, byte: u8) -> Option<Seq<u8>> {
        Some(text(byte))
    }

    /// Writes `byte` as it is.
    fn write(&mut self, byte: u8) -> (res: Result<(), OutError>) {
        let one: [u8; 1] = [byte];
        proof {
            assert(one@ =~= seq![byte]);
        }
        util::write(&mut self.out_bytes, one.as_slice(), 1)
    }
}

} // verus!
