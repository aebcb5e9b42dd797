//! Borrowed byte range with the method names of byte-slice APIs.
//!
//! Most of the crate takes `&[u8]`; [`Slice`] serves callers that want a type
//! of their own for a borrowed range.

use vstd::prelude::*;
use vstd::string::*;

use std::cmp::Ordering;

use crate::comparator;

verus! {

/// A borrowed range of bytes.
#[derive(Debug, Copy, Clone)]
pub struct Slice<'a> {
    data: &'a [u8],
}

impl<'a> View for Slice<'a> {
    type V = Seq<u8>;

    closed spec fn view(&self) -> Seq<u8> {
        self.data@
    }
}

impl<'a> Slice<'a> {
    pub fn new(data: &'a [u8]) -> (slice: Self)
        ensures
            slice@ == data@,
    {
        Slice { data }
    }

    /// A slice over the bytes of a vector.
    pub fn from_vec(data: &'a Vec<u8>) -> (slice: Self)
        ensures
            slice@ == data@,
    {
        Slice { data: data.as_slice() }
    }

    /// A slice over the bytes of a string.
    pub fn from_text(data: &'a str) -> (slice: Self)
        ensures
            slice@ == data.spec_bytes(),
    {
        Slice { data: data.as_bytes() }
    }

    pub fn data(&self) -> (data: &'a [u8])
        ensures
            data@ == self@,
    {
        self.data
    }

    pub fn size(&self) -> (size: usize)
        ensures
            size == self@.len(),
    {
        self.data.len()
    }

    pub fn empty(&self) -> (answer: bool)
        ensures
            answer == (self@.len() == 0),
    {
        self.data.len() == 0
    }

    /// The byte at `index`.
    pub fn at(&self, index: usize) -> (byte: u8)
        requires
            index < self@.len(),
        ensures
            byte == self@[index as int],
    {
        self.data[index]
    }

    pub fn starts_with(&self, prefix: Slice<'_>) -> (answer: bool)
        ensures
            answer == prefix@.is_prefix_of(self@),
    {
        if self.data.len() < prefix.data.len() {
            return false;
        }
        let mut index: usize = 0;
        while index < prefix.data.len()
            invariant
                prefix@.len() <= self@.len(),
                index <= prefix@.len(),
                forall|i: int| 0 <= i < index ==> prefix@[i] == self@[i],
            decreases prefix@.len() - index,
        {
            if self.data[index] != prefix.data[index] {
                assert(self@.take(prefix@.len() as int)[index as int] == self@[index as int]);
                return false;
            }
            index = index + 1;
        }
        assert(prefix@ =~= self@.take(prefix@.len() as int));
        true
    }

    /// Lexicographic comparison with `other`.
    pub fn compare(&self, other: Slice<'_>) -> (order: Ordering)
        ensures
            order == Ordering::Less <==> comparator::lex_less(self@, other@),
            order == Ordering::Greater <==> comparator::lex_less(other@, self@),
            order == Ordering::Equal <==> self@ == other@,
    {
        comparator::compare_bytes(self.data, other.data)
    }

    pub fn to_vec(&self) -> (bytes: Vec<u8>)
        ensures
            bytes@ == self@,
    {
        vstd::slice::slice_to_vec(self.data)
    }

    /// Drops the first `n` bytes.
    pub fn remove_prefix(&mut self, n: usize)
        requires
            n <= old(self)@.len(),
        ensures
            final(self)@ == old(self)@.skip(n as int),
    {
        let data: &'a [u8] = self.data;
        self.data = &data[n..data.len()];
        assert(self@ =~= old(self)@.skip(n as int));
    }

    /// Makes the slice empty.
    pub fn clear(&mut self)
        ensures
            final(self)@ == Seq::<u8>::empty(),
    {
        let data: &'a [u8] = self.data;
        self.data = &data[0..0];
        assert(self@ =~= Seq::<u8>::empty());
    }
}

} // verus!
