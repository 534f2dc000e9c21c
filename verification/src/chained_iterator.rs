//! A series of sequences that are traversed one after the other.
use vstd::prelude::*;

verus! {

/// The items of `iterators` from the sequence `from` on, one sequence after
/// the other.
pub open spec fn chained<T>(iterators: Seq<&Vec<T>>, from: int) -> Seq<T>
    decreases iterators.len() - from,
{
    if from < 0 || from >= iterators.len() {
        Seq::empty()
    } else {
        iterators[from]@ + chained(iterators, from + 1)
    }
}

/// Yields the items of a series of sequences: those of the first sequence,
/// then those of the second, and so on.
pub struct ChainedIterator<'a, T> {
    /// The sequence that is being traversed, once one has been taken up.
    current_iterator: Option<&'a Vec<T>>,
    /// The position of the next item within `current_iterator`.
    offset: usize,
    iterators: Vec<&'a Vec<T>>,
    /// The number of sequences that have been taken up.
    taken: usize,
}

impl<'a, T> ChainedIterator<'a, T> {
    /// The sequence that is being traversed is the one taken up last, and
    /// the position lies within it or at its end.
    pub closed spec fn wf(&self) -> bool {
        &&& self.taken <= self.iterators@.len()
        &&& match self.current_iterator {
            Some(current) => self.taken > 0 && current == self.iterators@[self.taken - 1]
                && self.offset <= current@.len(),
            None => self.taken == 0,
        }
    }

    /// The items that are yet to be yielded.
    pub closed spec fn remaining(&self) -> Seq<T> {
        match self.current_iterator {
            Some(current) => current@.subrange(self.offset as int, current@.len() as int) + chained(
                self.iterators@,
                self.taken as int,
            ),
            None => chained(self.iterators@, self.taken as int),
        }
    }

    /// An iterator over the items of `iterators`, with the first sequence
    /// taken up.
    pub fn new(iterators: Vec<&'a Vec<T>>) -> (chain: Self)
        ensures
            chain.wf(),
            chain.remaining() == chained(iterators@, 0),
    {
        if iterators.len() > 0 {
            let current_iterator = Some(iterators[0]);
            let chain = Self { current_iterator, offset: 0, iterators, taken: 1 };
            assert(iterators@[0]@.subrange(0, iterators@[0]@.len() as int) =~= iterators@[0]@);
            chain
        } else {
            Self { current_iterator: None, offset: 0, iterators, taken: 0 }
        }
    }

    /// The next item; the following sequence is taken up where the current
    /// one has come to its end. `None` once every sequence is at its end.
    pub fn next(&mut self) -> (item: Option<&'a T>)
        requires
            old(self).wf(),
        ensures
            final(self).wf(),
            match item {
                Some(item) => old(self).remaining().len() > 0 && *item == old(self).remaining()[0]
                    && final(self).remaining() == old(self).remaining().drop_first(),
                None => old(self).remaining().len() == 0 && final(self).remaining().len() == 0,
            },
    {
        loop
            invariant
                self.wf(),
                self.remaining() == old(self).remaining(),
            decreases self.iterators@.len() - self.taken,
        {
            match self.current_iterator {
                Some(iter) => {
                    if self.offset < iter.len() {
                        let item = &iter[self.offset];
                        let ghost before = self.remaining();
                        self.offset += 1;
                        assert(self.remaining() =~= before.drop_first());
                        return Some(item);
                    }
                    assert(iter@.subrange(self.offset as int, iter@.len() as int) =~= Seq::<T>::empty());
                },
                None => {},
            }
            if self.taken < self.iterators.len() {
                let ghost before = self.remaining();
                let next_iterator = self.iterators[self.taken];
                self.current_iterator = Some(next_iterator);
                self.offset = 0;
                self.taken += 1;
                assert(next_iterator@.subrange(0, next_iterator@.len() as int) =~= next_iterator@);
                assert(self.remaining() =~= before);
            } else {
                assert(self.remaining() =~= Seq::<T>::empty());
                return None;
            }
        }
    }
}

} // verus!
