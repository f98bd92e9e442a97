//! Byte sources and byte sinks in memory.

use vstd::prelude::*;
use vstd::slice::slice_subrange;
use crate::numeral::{
    digits,
    is_ascii_whitespace,
    leading_whitespace,
    lemma_leading_whitespace,
};

verus! {

/// What a source supplies next, where `rest` are the bytes that it has left
/// and `failure` is how it ends: the first of the bytes, or at their end the
/// failure, or nothing.
pub open spec fn supplied(rest: Seq<u8>, failure: Option<std::io::Error>) -> Option<
    Result<u8, std::io::Error>,
> {
    if rest.len() > 0 {
        Some(Ok(rest[0]))
    } else {
        match failure {
            Some(e) => Some(Err(e)),
            None => None,
        }
    }
}

/// A position in a slice.
struct Cursor<'a> {
    bytes: &'a [u8],
    pos: usize,
}

impl<'a> Cursor<'a> {
    /// The position never leaves the slice.
    #[verifier::type_invariant]
    spec fn inv(&self) -> bool {
        self.pos <= self.bytes@.len()
    }

    /// The bytes from the position on.
    closed spec fn rest(&self) -> Seq<u8> {
        self.bytes@.skip(self.pos as int)
    }

    /// The start of `bytes`.
    fn new(bytes: &'a [u8]) -> (cursor: Self)
        ensures
            cursor.rest() == bytes@,
    {
        Cursor { bytes, pos: 0 }
    }

    /// Gives the byte at the position and moves on behind it, or gives
    /// `None` at the end.
    fn next(&mut self) -> (byte: Option<u8>)
        ensures
            byte == if old(self).rest().len() > 0 {
                Some(old(self).rest()[0])
            } else {
                None
            },
            final(self).rest() == if old(self).rest().len() > 0 {
                old(self).rest().skip(1)
            } else {
                old(self).rest()
            },
    {
        proof {
            use_type_invariant(&*self);
        }
        if self.pos < self.bytes.len() {
            let byte: u8 = self.bytes[self.pos];
            self.pos = self.pos + 1;
            assert(self.rest() == old(self).rest().skip(1));
            Some(byte)
        } else {
            None
        }
    }
}

/// A forward-only supplier of bytes: those of a slice, in order, and at
/// their end either nothing more, or once the failure that cut the bytes
/// short where they came from.
pub struct Source<'a> {
    bytes: Cursor<'a>,
    failure: Option<std::io::Error>,
}

impl<'a> Source<'a> {
    /// The bytes that are still to come, in order.
    pub closed spec fn rest(&self) -> Seq<u8> {
        self.bytes.rest()
    }

    /// The failure that is still to come behind the bytes, if any.
    pub closed spec fn failure(&self) -> Option<std::io::Error> {
        self.failure
    }

    /// A source that will supply all of `bytes`, and then end.
    pub fn new(bytes: &'a [u8]) -> (source: Self)
        ensures
            source.rest() == bytes@,
            source.failure() is None,
    {
        Source { bytes: Cursor::new(bytes), failure: None }
    }

    /// A source that will supply all of `bytes`, and then fail with
    /// `failure`: for bytes that were read until reading failed.
    pub fn failing(bytes: &'a [u8], failure: std::io::Error) -> (source: Self)
        ensures
            source.rest() == bytes@,
            source.failure() == Some(failure),
    {
        Source { bytes: Cursor::new(bytes), failure: Some(failure) }
    }

    /// Supplies the next byte. At the end of the bytes it supplies the
    /// failure, if there is one and it was not supplied before, and `None`
    /// otherwise.
    pub fn next(&mut self) -> (byte: Option<Result<u8, std::io::Error>>)
        ensures
            byte == supplied(old(self).rest(), old(self).failure()),
            final(self).rest() == if old(self).rest().len() > 0 {
                old(self).rest().skip(1)
            } else {
                old(self).rest()
            },
            final(self).failure() == if old(self).rest().len() > 0 {
                old(self).failure()
            } else {
                None
            },
    {
        match self.bytes.next() {
            Some(byte) => Some(Ok(byte)),
            None => match self.failure.take() {
                Some(e) => Some(Err(e)),
                None => None,
            },
        }
    }

    /// Supplies the next byte that is not whitespace, and consumes the
    /// whitespace before it. Where only whitespace is left, it consumes
    /// that and supplies what stands at the end of the bytes.
    pub fn next_non_whitespace(&mut self) -> (byte: Option<Result<u8, std::io::Error>>)
        ensures
            byte == supplied(
                old(self).rest().skip(leading_whitespace(old(self).rest()) as int),
                old(self).failure(),
            ),
            final(self).rest() == if leading_whitespace(old(self).rest()) < old(
                self,
            ).rest().len() {
                old(self).rest().skip(leading_whitespace(old(self).rest()) as int + 1)
            } else {
                Seq::empty()
            },
            final(self).failure() == if leading_whitespace(old(self).rest()) < old(
                self,
            ).rest().len() {
                old(self).failure()
            } else {
                None
            },
            byte matches Some(Ok(b)) ==> digits(old(self).rest()) == seq![b] + digits(
                final(self).rest(),
            ) && final(self).failure() == old(self).failure(),
            byte matches Some(Err(e)) ==> digits(old(self).rest()) == Seq::<u8>::empty() && old(
                self,
            ).failure() == Some(e),
            byte is None ==> digits(old(self).rest()) == Seq::<u8>::empty() && old(self).failure()
                is None,
    {
        let ghost start = self.rest();
        let ghost mut skipped: nat = 0;
        proof {
            assert(start.skip(0) =~= start);
        }
        loop
            invariant
                start == old(self).rest(),
                self.failure() == old(self).failure(),
                skipped <= start.len(),
                self.rest() == start.skip(skipped as int),
                leading_whitespace(start) == skipped + leading_whitespace(self.rest()),
            decreases self.rest().len(),
        {
            match self.next() {
                None => {
                    proof {
                        lemma_leading_whitespace(start);
                        assert(self.rest() =~= Seq::<u8>::empty());
                    }
                    return None;
                },
                Some(Err(e)) => {
                    proof {
                        lemma_leading_whitespace(start);
                        assert(self.rest() =~= Seq::<u8>::empty());
                    }
                    return Some(Err(e));
                },
                Some(Ok(c)) => {
                    assert(self.rest() =~= start.skip(skipped as int + 1));
                    if is_ascii_whitespace(c) {
                        proof {
                            skipped = skipped + 1;
                        }
                    } else {
                        proof {
                            lemma_leading_whitespace(start);
                        }
                        return Some(Ok(c));
                    }
                },
            }
        }
    }
}

/// How many of `offered` bytes a sink with `room` places free takes.
pub open spec fn accepted(offered: nat, room: nat) -> nat {
    if offered <= room {
        offered
    } else {
        room
    }
}

/// A sink that fills a slice from its start and takes no more than fits.
pub struct Sink<'a> {
    buf: &'a mut [u8],
    len: usize,
}

impl<'a> Sink<'a> {
    /// The filled part never leaves the slice.
    #[verifier::type_invariant]
    spec fn inv(&self) -> bool {
        self.len <= self.buf@.len()
    }

    /// The bytes taken so far, in order.
    pub closed spec fn data(&self) -> Seq<u8> {
        self.buf@.take(self.len as int)
    }

    /// How many more bytes the sink can take.
    pub closed spec fn room(&self) -> nat {
        (self.buf@.len() - self.len) as nat
    }

    /// An empty sink over `buf`, with room for as many bytes as `buf` is long.
    pub fn new(buf: &'a mut [u8]) -> (sink: Self)
        ensures
            sink.data() == Seq::<u8>::empty(),
            sink.room() == old(buf)@.len(),
    {
        Sink { buf, len: 0 }
    }

    /// The number of bytes taken so far.
    pub fn written(&self) -> (n: usize)
        ensures
            n == self.data().len(),
    {
        proof {
            use_type_invariant(self);
        }
        self.len
    }

    /// The bytes taken so far: the part of the slice that is filled.
    pub fn filled(&self) -> (bytes: &[u8])
        ensures
            bytes@ == self.data(),
    {
        proof {
            use_type_invariant(self);
        }
        slice_subrange(self.buf, 0, self.len)
    }

    /// Takes as many bytes from the front of `bytes` as still fit, and says
    /// how many that was.
    pub fn write(&mut self, bytes: &[u8]) -> (n: usize)
        ensures
            n == accepted(bytes@.len(), old(self).room()),
            final(self).data() == old(self).data() + bytes@.take(n as int),
            final(self).room() == old(self).room() - n,
    {
        proof {
            use_type_invariant(&*self);
        }
        let total: usize = self.buf.len();
        let free: usize = total - self.len;
        let n: usize = if bytes.len() <= free {
            bytes.len()
        } else {
            free
        };
        let start: usize = self.len;
        let mut i: usize = 0;
        while i < n
            invariant
                i <= n,
                n <= bytes@.len(),
                start == old(self).len,
                self.len == start,
                self.buf@.len() == total,
                start + n <= self.buf@.len(),
                self.buf@.take(start as int) == old(self).buf@.take(start as int),
                self.buf@.subrange(start as int, start + i) == bytes@.take(i as int),
            decreases n - i,
        {
            self.buf[start + i] = bytes[i];
            i = i + 1;
            assert(self.buf@.take(start as int) =~= old(self).buf@.take(start as int));
            assert(self.buf@.subrange(start as int, start + i) =~= bytes@.take(i as int));
        }
        self.len = start + n;
        assert(self.data() =~= old(self).data() + bytes@.take(n as int));
        n
    }
}

} // verus!
