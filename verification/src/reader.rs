//! A source of bytes that is read from front to back.

use vstd::prelude::*;

verus! {

/// What is left to read: some bytes, and then either the end of the input or
/// a failure of the operating system.
pub struct Reader<'a> {
    rest: &'a [u8],
    fault: Option<std::io::Error>,
}

/// A `Reader` as a value.
pub struct ReaderView {
    /// The bytes that can still be read.
    pub rest: Seq<u8>,
    /// What a read past them fails with; `None` where they end the input.
    pub fault: Option<std::io::Error>,
}

impl<'a> View for Reader<'a> {
    type V = ReaderView;

    closed spec fn view(&self) -> ReaderView {
        ReaderView { rest: self.rest@, fault: self.fault }
    }
}

impl<'a> Reader<'a> {
    /// What is left to read fits in memory.
    pub proof fn lemma_fits_in_memory(&self)
        ensures
            self@.rest.len() <= usize::MAX,
    {
        assert(self.rest.len() == self.rest@.len());
    }

    /// A source that ends after `bytes`.
    pub fn new(bytes: &'a [u8]) -> (reader: Self)
        ensures
            reader@ == (ReaderView { rest: bytes@, fault: None }),
    {
        Reader { rest: bytes, fault: None }
    }

    /// A source that yields `bytes` and then fails with `fault`.
    pub fn failing(bytes: &'a [u8], fault: std::io::Error) -> (reader: Self)
        ensures
            reader@ == (ReaderView { rest: bytes@, fault: Some(fault) }),
    {
        Reader { rest: bytes, fault: Some(fault) }
    }

    /// The number of bytes that can still be read.
    pub fn remaining(&self) -> (len: usize)
        ensures
            len == self@.rest.len(),
    {
        self.rest.len()
    }

    /// Takes the next `len` bytes, or all that is left and the failure behind
    /// it where they are fewer.
    pub fn take(&mut self, len: usize) -> (taken: std::result::Result<
        Vec<u8>,
        Option<std::io::Error>,
    >)
        ensures
            match taken {
                Ok(bytes) => {
                    &&& len <= old(self)@.rest.len()
                    &&& bytes@ == old(self)@.rest.take(len as int)
                    &&& final(self)@.rest == old(self)@.rest.skip(len as int)
                    &&& final(self)@.fault == old(self)@.fault
                },
                Err(fault) => {
                    &&& old(self)@.rest.len() < len
                    &&& fault == old(self)@.fault
                    &&& final(self)@.rest == Seq::<u8>::empty()
                    &&& final(self)@.fault is None
                },
            },
    {
        if len <= self.rest.len() {
            let (taken, rest) = self.rest.split_at(len);
            self.rest = rest;
            Ok(vstd::slice::slice_to_vec(taken))
        } else {
            let (_, rest) = self.rest.split_at(self.rest.len());
            self.rest = rest;
            Err(self.fault.take())
        }
    }
}

} // verus!
