//! The contract of the writers.

use vstd::prelude::*;
use crate::error::{ErrorType, OutError};
use crate::stream::accepted;

verus! {

/// How many characters of `text` a sink with `room` places free takes.
pub open spec fn taken(text: Seq<u8>, room: nat) -> nat {
    accepted(text.len(), room)
}

/// What writing `byte` reports, where `text` is what the format writes for
/// it (`None`: the format has no text for it) and the sink has `room` places
/// free.
pub open spec fn write_result(text: Option<Seq<u8>>, room: nat, byte: u8) -> Result<(), OutError> {
    match text {
        None => Err(ErrorType::InvalidByte(byte)),
        Some(t) => if t.len() <= room {
            Ok(())
        } else {
            Err(ErrorType::ShortIO { bytes: room as usize, expected: t.len() as usize })
        },
    }
}

/// What the sink holds after that write, where it held `output` before: the
/// text as far as it fits, and nothing of a byte without text.
pub open spec fn write_output(output: Seq<u8>, text: Option<Seq<u8>>, room: nat) -> Seq<u8> {
    match text {
        None => output,
        Some(t) => output + t.take(taken(t, room) as int),
    }
}

/// The room that is left after that write.
pub open spec fn write_room(text: Option<Seq<u8>>, room: nat) -> nat {
    match text {
        None => room,
        Some(t) => (room - taken(t, room)) as nat,
    }
}

/// A trait for objects which are byte-oriented sinks: each takes one byte
/// value at a time and puts its text in some format into a bounded output.
pub trait ByteWriter {
    /// The characters written so far, in order.
    spec fn output(&self) -> Seq<u8>;

    /// How many more characters the output can take.
    spec fn room(&self) -> nat;

    /// The characters that stand for `byte` in this writer's format, or
    /// `None` where the format cannot represent it.
    spec fn text(&self, byte: u8) -> Option<Seq<u8>>;

    /// Writes one byte value. A value without text is refused as
    /// `InvalidByte` and nothing is written. Otherwise the text goes to the
    /// output in one operation; where it does not fit, the output keeps the
    /// part that did and the write is reported as `ShortIO`.
    fn write(&mut self, byte: u8) -> (res: Result<(), OutError>)
        ensures
            forall|b: u8| #[trigger] final(self).text(b) == old(self).text(b),
            res == write_result(old(self).text(byte), old(self).room(), byte),
            final(self).output() == write_output(
                old(self).output(),
                old(self).text(byte),
                old(self).room(),
            ),
            final(self).room() == write_room(old(self).text(byte), old(self).room()),
    ;
}

} // verus!
