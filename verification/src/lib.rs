//! Conversion of a stream of bytes from one textual encoding to another:
//! raw bytes, ASCII, bit strings, hexadecimal and any numeric base from 2 to 36.
//!
//! Each encoding has a reader, which decodes the bytes of an input one item at
//! a time, and a writer, which puts the text of one byte at a time into an
//! output. [`convert`] drives any reader into any writer.

use vstd::prelude::*;
use crate::byte_reader::{ByteReader, Item};
use crate::byte_writer::{write_output, write_result, write_room, ByteWriter};
use crate::error::{Error, InError};

pub mod ascii;
pub mod base;
pub mod binary;
pub mod byte_reader;
pub mod byte_writer;
pub mod config;
pub mod error;
pub mod hexadecimal;
pub mod numeral;
pub mod raw;
pub mod stream;
pub mod util;

verus! {

/// How a conversion ends.
pub struct Conversion {
    /// Success, or the first error with its origin.
    pub result: Result<(), Error>,
    /// The items that the reader has left.
    pub rest: Seq<Item>,
    /// What the output holds.
    pub output: Seq<u8>,
    /// The room that the output has left.
    pub room: nat,
}

/// How the conversion of `items` ends in a format that writes `text(b)` for
/// the byte `b`, into an output that holds `output` and has `room` places
/// free.
///
/// The items are taken in order. The text of each byte goes to the output.
/// The first item that is an error ends the conversion as an input error.
/// The first byte that the format has no text for, or whose text does not
/// fit, ends it as an output error; of a text that does not fit, the output
/// keeps the part that did. Items behind the one that ended the conversion
/// are left unread.
pub open spec fn conversion(
    items: Seq<Item>,
    text: spec_fn(u8) -> Option<Seq<u8>>,
    output: Seq<u8>,
    room: nat,
) -> Conversion
    decreases items.len(),
{
    if items.len() == 0 {
        Conversion { result: Ok(()), rest: items, output, room }
    } else {
        match items[0] {
            Err(e) => Conversion { result: Err(Error::In(e)), rest: items.skip(1), output, room },
            Ok(byte) => {
                let after = write_output(output, text(byte), room);
                let left = write_room(text(byte), room);
                match write_result(text(byte), room, byte) {
                    Ok(_) => conversion(items.skip(1), text, after, left),
                    Err(e) => Conversion {
                        result: Err(Error::Out(e)),
                        rest: items.skip(1),
                        output: after,
                        room: left,
                    },
                }
            },
        }
    }
}

/// The texts of `bytes` in a format that writes `text(b)` for the byte `b`,
/// one behind the other, as far as the bytes have texts.
pub open spec fn written(bytes: Seq<u8>, text: spec_fn(u8) -> Option<Seq<u8>>) -> Seq<u8>
    decreases bytes.len(),
{
    if bytes.len() == 0 {
        Seq::empty()
    } else {
        match text(bytes[0]) {
            Some(t) => t + written(bytes.skip(1), text),
            None => Seq::empty(),
        }
    }
}

/// A conversion succeeds where every item is a byte, every byte has a text
/// and the texts fit the output. It then leaves no item, and the output
/// holds the texts of all bytes behind what it held before.
pub proof fn lemma_conversion_of_bytes(
    bytes: Seq<u8>,
    text: spec_fn(u8) -> Option<Seq<u8>>,
    output: Seq<u8>,
    room: nat,
)
    requires
        forall|i: int| 0 <= i < bytes.len() ==> text(#[trigger] bytes[i]) is Some,
        room >= written(bytes, text).len(),
    ensures
        conversion(Seq::new(bytes.len(), |i: int| Ok(bytes[i])), text, output, room) == (
        Conversion {
            result: Ok(()),
            rest: Seq::empty(),
            output: output + written(bytes, text),
            room: (room - written(bytes, text).len()) as nat,
        }),
    decreases bytes.len(),
{
    let items = Seq::new(bytes.len(), |i: int| Ok::<u8, InError>(bytes[i]));
    if bytes.len() == 0 {
        assert(items =~= Seq::<Item>::empty());
        assert(output + written(bytes, text) =~= output);
    } else {
        let rest = bytes.skip(1);
        let t = text(bytes[0])->0;
        assert(text(bytes[0]) is Some);
        assert forall|i: int| 0 <= i < rest.len() implies text(#[trigger] rest[i]) is Some by {
            assert(rest[i] == bytes[i + 1]);
        }
        assert(items.skip(1) =~= Seq::new(rest.len(), |i: int| Ok::<u8, InError>(rest[i])));
        assert(t.take(t.len() as int) =~= t);
        lemma_conversion_of_bytes(rest, text, output + t, (room - t.len()) as nat);
        assert((output + t) + written(rest, text) =~= output + written(bytes, text));
    }
}

/// The format of a writer: the text that it writes for each byte.
pub open spec fn format_of<O: ByteWriter + ?Sized>(writer: &O) -> spec_fn(u8) -> Option<Seq<u8>> {
    |byte: u8| writer.text(byte)
}

/// Converts byte input stream format to byte output stream format
///
/// Pulls the items of `istream` one by one and writes each byte to `ostream`
/// before it pulls the next. It stops at the first error, of the input or of
/// the output, and returns it with its origin. When the input ends without
/// an error, it returns success.
pub fn convert<I, O>(istream: &mut I, ostream: &mut O) -> (res: Result<(), Error>) where
    I: ByteReader + ?Sized,
    O: ByteWriter + ?Sized,

    ensures
        forall|byte: u8| #[trigger] final(ostream).text(byte) == old(ostream).text(byte),
        res == conversion(
            old(istream).pending(),
            format_of(old(ostream)),
            old(ostream).output(),
            old(ostream).room(),
        ).result,
        final(istream).pending() == conversion(
            old(istream).pending(),
            format_of(old(ostream)),
            old(ostream).output(),
            old(ostream).room(),
        ).rest,
        final(ostream).output() == conversion(
            old(istream).pending(),
            format_of(old(ostream)),
            old(ostream).output(),
            old(ostream).room(),
        ).output,
        final(ostream).room() == conversion(
            old(istream).pending(),
            format_of(old(ostream)),
            old(ostream).output(),
            old(ostream).room(),
        ).room,
{
    let ghost text = format_of(ostream);
    let ghost goal = conversion(istream.pending(), text, ostream.output(), ostream.room());
    loop
        invariant
            text == format_of(old(ostream)),
            forall|byte: u8| #[trigger] ostream.text(byte) == old(ostream).text(byte),
            goal == conversion(
                old(istream).pending(),
                text,
                old(ostream).output(),
                old(ostream).room(),
            ),
            goal == conversion(istream.pending(), text, ostream.output(), ostream.room()),
        decreases istream.pending().len(),
    {
        match istream.next() {
            None => {
                return Ok(());
            },
            Some(Ok(input)) => {
                if let Err(out_error) = ostream.write(input) {
                    return Err(Error::Out(out_error));
                }
            },
            Some(Err(in_error)) => {
                return Err(Error::In(in_error));
            },
        }
    }
}

} // verus!
