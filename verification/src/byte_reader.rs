//! The contract of the readers.

use vstd::prelude::*;
use crate::error::InError;

verus! {

/// One pull from a reader: a decoded byte value, or the error that ends the
/// sequence.
pub type Item = Result<u8, InError>;

/// The first of `items`, if there is one.
pub open spec fn head(items: Seq<Item>) -> Option<Item> {
    if items.len() == 0 {
        None
    } else {
        Some(items[0])
    }
}

/// What follows the first of `items`.
pub open spec fn tail(items: Seq<Item>) -> Seq<Item> {
    if items.len() == 0 {
        items
    } else {
        items.skip(1)
    }
}

/// How many bytes `items` give before the first error.
pub open spec fn leading_bytes(items: Seq<Item>) -> nat
    decreases items.len(),
{
    if items.len() == 0 || items[0] is Err {
        0
    } else {
        1 + leading_bytes(items.skip(1))
    }
}

/// The bytes before the first error are not more than the items, and fewer
/// where the last item is an error.
pub proof fn lemma_leading_bytes(items: Seq<Item>)
    ensures
        leading_bytes(items) <= items.len(),
        items.len() > 0 && items.last() is Err ==> leading_bytes(items) < items.len(),
    decreases items.len(),
{
    if items.len() > 0 && items[0] is Ok {
        let rest = items.skip(1);
        lemma_leading_bytes(rest);
        if rest.len() > 0 {
            assert(rest.last() == items.last());
        }
    }
}

/// A trait for objects which are byte-oriented sources: each yields a finite
/// sequence of items, one per pull and each once.
pub trait ByteReader {
    /// The items that the reader has yet to produce, in order.
    spec fn pending(&self) -> Seq<Item>;

    /// Produces the next item, or `None` when the sequence has ended.
    fn next(&mut self) -> (item: Option<Item>)
        ensures
            item == head(old(self).pending()),
            final(self).pending() == tail(old(self).pending()),
    ;
}

/// Pulls all items that `reader` has yet to produce, in order.
pub fn collect<I>(reader: &mut I) -> (items: Vec<Item>) where I: ByteReader + ?Sized
    ensures
        items@ == old(reader).pending(),
        final(reader).pending() == Seq::<Item>::empty(),
{
    let mut items: Vec<Item> = Vec::new();
    loop
        invariant
            items@ + reader.pending() == old(reader).pending(),
        ensures
            items@ == old(reader).pending(),
            reader.pending() == Seq::<Item>::empty(),
        decreases reader.pending().len(),
    {
        let ghost before = reader.pending();
        match reader.next() {
            None => {
                proof {
                    assert(reader.pending() =~= Seq::<Item>::empty());
                    assert(items@ + reader.pending() =~= items@);
                }
                break ;
            },
            Some(item) => {
                items.push(item);
                proof {
                    assert(items@ + reader.pending() =~= old(reader).pending()) by {
                        assert(before =~= seq![item] + before.skip(1));
                    }
                }
            },
        }
    }
    items
}

} // verus!
