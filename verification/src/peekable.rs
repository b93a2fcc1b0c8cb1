//! One item of lookahead for anything that yields items one at a time.

use std::iter::Peekable;
use vstd::prelude::*;
use vstd::std_specs::iter::IteratorSpec;

verus! {

/// An iterator that can show its next item without yielding it.
pub trait PeekableIterator: Iterator {
    /// The item that the next call of `next` will yield, if there is one.
    fn peek(&mut self) -> Option<&Self::Item>;
}

#[verifier::external_type_specification]
#[verifier::external_body]
#[verifier::reject_recursive_types(I)]
pub struct ExPeekable<I: Iterator>(Peekable<I>);

impl<I: Iterator> PeekableIterator for Peekable<I> {
    /// Shows the item that `next` will yield and leaves the iterator as it
    /// is: the items still to come are the same after the call as before.
    fn peek(&mut self) -> (item: Option<&Self::Item>)
        ensures
            <Self as IteratorSpec>::obeys_prophetic_iter_laws(final(self))
                == <Self as IteratorSpec>::obeys_prophetic_iter_laws(old(self)),
            <Self as IteratorSpec>::obeys_prophetic_iter_laws(final(self)) ==> {
                let coming = <Self as IteratorSpec>::remaining(old(self));
                &&& <Self as IteratorSpec>::remaining(final(self)) == coming
                &&& <Self as IteratorSpec>::will_return_none(final(self))
                    == <Self as IteratorSpec>::will_return_none(old(self))
                &&& coming.len() > 0 ==> item == Some(&coming[0])
                &&& coming.len() == 0 ==> item is None
            },
    {
        lookahead(self)
    }
}

/// `std::iter::Peekable::peek`, which returns a reference to the value that
/// `next` will return and does not advance the iterator. In the terms in
/// which `Iterator::next` is specified: where the iterator keeps to the
/// iterator laws, the result is the first of the items still to come, or
/// nothing when none is left, and those items are the same after the call.
/// Whether an iterator keeps to the laws is not claimed here.
#[verifier::external_body]
fn lookahead<I: Iterator>(iter: &mut Peekable<I>) -> (item: Option<&I::Item>)
    ensures
        <Peekable<I> as IteratorSpec>::obeys_prophetic_iter_laws(final(iter)) == <Peekable<
            I,
        > as IteratorSpec>::obeys_prophetic_iter_laws(old(iter)),
        <Peekable<I> as IteratorSpec>::obeys_prophetic_iter_laws(final(iter)) ==> {
            let coming = <Peekable<I> as IteratorSpec>::remaining(old(iter));
            &&& <Peekable<I> as IteratorSpec>::remaining(final(iter)) == coming
            &&& <Peekable<I> as IteratorSpec>::will_return_none(final(iter)) == <Peekable<
                I,
            > as IteratorSpec>::will_return_none(old(iter))
            &&& coming.len() > 0 ==> item == Some(&coming[0])
            &&& coming.len() == 0 ==> item is None
        },
{
    iter.peek()
}

} // verus!
