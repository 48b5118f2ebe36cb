//! A buffer that pulls the items of a source one at a time and keeps them
//! by position.

use vstd::prelude::*;
use vstd::std_specs::iter::IteratorSpec;
use crate::counting::fits;
use crate::size_hint::{add_scalar, add_scalar_spec, SizeHint};

verus! {

/// The items pulled so far, and the source while it may still hold more.
/// Once the source has reported its end it is let go and never asked again.
#[derive(Debug)]
pub struct LazyBuffer<I: Iterator> {
    it: Option<I>,
    buffer: Vec<I::Item>,
}

impl<I> Clone for LazyBuffer<I> where I: Clone + Iterator, I::Item: Clone {
    fn clone(&self) -> (copy: Self)
        ensures
            copy@.len() == self@.len(),
            forall|i: int| 0 <= i < self@.len() ==> cloned(#[trigger] self@[i], copy@[i]),
            copy.source() is None <==> self.source() is None,
            self.source() matches Some(it) ==> cloned(it, copy.source()->0),
    {
        LazyBuffer { it: self.it.clone(), buffer: self.buffer.clone() }
    }
}

impl<I: Iterator> LazyBuffer<I> {
    /// The items pulled so far, in the order in which they came.
    pub closed spec fn view(&self) -> Seq<I::Item> {
        self.buffer@
    }

    /// The source, as long as it has not reported its end.
    pub closed spec fn source(&self) -> Option<I> {
        self.it
    }

    /// The source, if there still is one, keeps to the laws of iterators:
    /// it hands out the items it is going to hand out, then reports its end.
    pub open spec fn lawful(&self) -> bool {
        self.source() matches Some(it) ==> it.obeys_prophetic_iter_laws()
    }

    /// The source, if there still is one, comes with a measure that bounds
    /// how often it can be asked.
    pub open spec fn measured(&self) -> bool {
        self.source() matches Some(it) ==> it.decrease() is Some
    }

    /// A buffer that holds nothing yet of what `it` is going to hand out.
    pub fn new(it: I) -> (buffer: Self)
        ensures
            buffer@ == Seq::<I::Item>::empty(),
            buffer.source() == Some(it),
    {
        LazyBuffer { it: Some(it), buffer: Vec::new() }
    }

    /// The number of items pulled so far.
    pub fn len(&self) -> (len: usize)
        ensures
            len == self@.len(),
    {
        self.buffer.len()
    }

    /// The item at position `index`.
    pub fn get(&self, index: usize) -> (item: &I::Item)
        requires
            index < self@.len(),
        ensures
            *item == self@[index as int],
    {
        &self.buffer[index]
    }

    /// Pulls one more item if the source has one, and says whether it had.
    pub fn get_next(&mut self) -> (pulled: bool)
        ensures
            pulled ==> final(self)@.len() == old(self)@.len() + 1,
            pulled ==> final(self)@.drop_last() == old(self)@,
            !pulled ==> final(self)@ == old(self)@ && final(self).source() is None,
            old(self).source() is None ==> !pulled,
            final(self)@.len() <= usize::MAX,
            old(self).lawful() ==> final(self).lawful(),
            old(self).measured() && old(self).lawful() ==> final(self).measured(),
            old(self).lawful() ==> final(self)@ + (match final(self).source() {
                Some(it) => it.remaining(),
                None => Seq::empty(),
            }) == old(self)@ + (match old(self).source() {
                Some(it) => it.remaining(),
                None => Seq::empty(),
            }),
    {
        let next = match &mut self.it {
            Some(it) => it.next(),
            None => None,
        };
        match next {
            Some(item) => {
                self.buffer.push(item);
                assert(self.buffer.len() == self@.len());
                true
            },
            None => {
                self.it = None;
                assert(self.buffer.len() == self@.len());
                false
            },
        }
    }

    /// Pulls items until `len` of them are held or the source has none left.
    pub fn prefill(&mut self, len: usize)
        ensures
            old(self)@.len() >= len ==> *final(self) == *old(self),
            old(self)@.is_prefix_of(final(self)@),
            old(self)@.len() < len ==> final(self)@.len() <= len,
            final(self)@.len() >= len || final(self).source() is None,
            old(self).lawful() ==> final(self).lawful(),
            old(self).measured() && old(self).lawful() ==> final(self).measured(),
            old(self).lawful() ==> final(self)@ + (match final(self).source() {
                Some(it) => it.remaining(),
                None => Seq::empty(),
            }) == old(self)@ + (match old(self).source() {
                Some(it) => it.remaining(),
                None => Seq::empty(),
            }),
    {
        while self.buffer.len() < len
            invariant
                old(self)@.len() >= len ==> *self == *old(self),
                old(self)@.is_prefix_of(self@),
                old(self)@.len() < len ==> self@.len() <= len,
                old(self).lawful() ==> self.lawful(),
                old(self).measured() && old(self).lawful() ==> self.measured(),
                old(self).lawful() ==> self@ + (match self.source() {
                    Some(it) => it.remaining(),
                    None => Seq::empty(),
                }) == old(self)@ + (match old(self).source() {
                    Some(it) => it.remaining(),
                    None => Seq::empty(),
                }),
            ensures
                self@.len() >= len || self.source() is None,
            decreases len - self.buffer.len(),
        {
            if !self.get_next() {
                break;
            }
        }
    }

    /// Bounds on how many items the source holds in all, those already
    /// pulled included. Once the source has reported its end both bounds are
    /// the number of items held; before that they are what the source
    /// reports of itself, raised by that number.
    pub fn size_hint(&self) -> (hint: SizeHint)
        ensures
            self.source() is None ==> hint == (self@.len() as usize, Some(self@.len() as usize)),
            exists|reported: SizeHint|
                hint == #[trigger] add_scalar_spec(reported, self@.len() as usize),
    {
        let len = self.buffer.len();
        let reported = match &self.it {
            Some(it) => source_size_hint(it),
            None => (0, Some(0)),
        };
        let hint = add_scalar(reported, len);
        assert(hint == add_scalar_spec(reported, self@.len() as usize));
        hint
    }

    /// The number of items the source holds in all, those already pulled
    /// included, or `None` where there are more than `usize::MAX`. What the
    /// source still holds is pulled and dropped.
    pub fn count(self) -> (count: Option<usize>)
        requires
            self.lawful(),
            self.measured(),
        ensures
            count == fits(
                self@.len() + (match self.source() {
                    Some(it) => it.remaining(),
                    None => Seq::empty(),
                }).len(),
            ),
    {
        let mut count = self.buffer.len();
        match self.it {
            None => Some(count),
            Some(mut it) => {
                loop
                    invariant
                        it.obeys_prophetic_iter_laws(),
                        it.decrease() is Some,
                        self.source() is Some,
                        count + it.remaining().len() == self@.len()
                            + self.source()->0.remaining().len(),
                    decreases it.decrease()->0,
                {
                    match it.next() {
                        Some(_) => {
                            count = match count.checked_add(1) {
                                Some(more) => more,
                                None => {
                                    return None;
                                },
                            };
                        },
                        None => {
                            return Some(count);
                        },
                    }
                }
            },
        }
    }
}

/// [`Iterator::size_hint`]: the bounds that the source reports of itself.
/// Nothing is claimed of them: an iterator is free to report any bounds.
#[verifier::external_body]
fn source_size_hint<I: Iterator>(it: &I) -> (reported: SizeHint) {
    it.size_hint()
}

} // verus!
