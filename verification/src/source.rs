//! The bytes that a decoder reads: a buffer in memory and a place in it.

use crate::error::DecodeError;
use crate::outside::read_u32_be;
use crate::wire::{parse_bytes, parse_word};
use vstd::prelude::*;

verus! {

/// A byte source that is read front to back. Its view is what is still
/// unread.
#[derive(Debug)]
pub struct ByteSource {
    data: Vec<u8>,
    pos: usize,
}

impl View for ByteSource {
    type V = Seq<u8>;

    closed spec fn view(&self) -> Seq<u8> {
        self.data@.skip(self.pos as int)
    }
}

impl Clone for ByteSource {
    fn clone(&self) -> (copy: Self)
        ensures
            copy@ == self@,
    {
        proof {
            use_type_invariant(self);
        }
        let data = self.data.clone();
        assert(data@ =~= self.data@);
        ByteSource { data, pos: self.pos }
    }
}

impl ByteSource {
    #[verifier::type_invariant]
    spec fn in_bounds(&self) -> bool {
        self.pos <= self.data@.len()
    }

    /// A source that will give out `data` from its first byte.
    pub fn new(data: Vec<u8>) -> (source: Self)
        ensures
            source@ == data@,
    {
        ByteSource { data, pos: 0 }
    }

    /// How many bytes are still unread.
    pub fn remaining(&self) -> (n: usize)
        ensures
            n == self@.len(),
    {
        proof {
            use_type_invariant(self);
        }
        self.data.len() - self.pos
    }

    /// The next `n` bytes, which stay unread.
    pub fn peek(&self, n: usize) -> (bytes: &[u8])
        requires
            n <= self@.len(),
        ensures
            bytes@ == self@.take(n as int),
    {
        let len = self.data.len();
        proof {
            use_type_invariant(self);
            assert(self@.len() == len - self.pos);
        }
        let bytes = vstd::slice::slice_subrange(self.data.as_slice(), self.pos, self.pos + n);
        assert(bytes@ =~= self@.take(n as int));
        bytes
    }

    /// Passes over the next `n` bytes.
    pub fn advance(&mut self, n: usize)
        requires
            n <= old(self)@.len(),
        ensures
            final(self)@ == old(self)@.skip(n as int),
    {
        let len = self.data.len();
        proof {
            use_type_invariant(&*self);
            assert(self@.len() == len - self.pos);
        }
        self.pos = self.pos + n;
        assert(self@ =~= old(self)@.skip(n as int));
    }

    /// Passes over all that is left.
    pub fn drain(&mut self)
        ensures
            final(self)@ == Seq::<u8>::empty(),
    {
        self.pos = self.data.len();
        assert(self@ =~= Seq::<u8>::empty());
    }

    /// Adds `bytes` behind what is still unread. What has been read is let go.
    pub fn feed(&mut self, bytes: &[u8])
        ensures
            final(self)@ == old(self)@ + bytes@,
    {
        let mut data = vstd::slice::slice_to_vec(self.peek(self.remaining()));
        data.extend_from_slice(bytes);
        assert(data@ =~= old(self)@ + bytes@);
        *self = ByteSource { data, pos: 0 };
        assert(self@ =~= old(self)@ + bytes@);
    }

    /// Reads one 32-bit big-endian word. A source with fewer than four bytes
    /// left is drained, and the read fails.
    pub fn read_u32(&mut self) -> (r: Result<u32, DecodeError>)
        ensures
            r == parse_word(old(self)@).result,
            final(self)@ == parse_word(old(self)@).rest,
    {
        let available = self.remaining();
        if available < 4 {
            self.drain();
            Err(DecodeError::UnexpectedEof { missing: 4 - available })
        } else {
            let n = read_u32_be(self.peek(4));
            self.advance(4);
            Ok(n)
        }
    }

    /// Reads exactly `n` bytes into a vector of their own. A source with fewer
    /// than `n` bytes left is drained, and the read fails.
    pub fn read_vec(&mut self, n: usize) -> (r: Result<Vec<u8>, DecodeError>)
        ensures
            final(self)@ == parse_bytes(old(self)@, n as nat).rest,
            match parse_bytes(old(self)@, n as nat).result {
                Ok(bytes) => r is Ok && r->Ok_0@ == bytes,
                Err(e) => r == Err::<Vec<u8>, DecodeError>(e),
            },
    {
        let available = self.remaining();
        if available < n {
            self.drain();
            return Err(DecodeError::UnexpectedEof { missing: n - available });
        }
        let bytes = vstd::slice::slice_to_vec(self.peek(n));
        self.advance(n);
        Ok(bytes)
    }

    /// Reads exactly `n` bytes into the front of `buf`, and leaves the rest of
    /// `buf` as it was. A source with fewer than `n` bytes left is drained,
    /// and the read fails with `buf` untouched.
    pub fn read_exact(&mut self, n: usize, buf: &mut [u8]) -> (r: Result<(), DecodeError>)
        requires
            n <= old(buf)@.len(),
        ensures
            final(self)@ == parse_bytes(old(self)@, n as nat).rest,
            match parse_bytes(old(self)@, n as nat).result {
                Ok(bytes) => r == Ok::<(), DecodeError>(()) && final(buf)@ == bytes + old(buf)@.skip(
                    n as int,
                ),
                Err(e) => r == Err::<(), DecodeError>(e) && final(buf)@ == old(buf)@,
            },
    {
        let available = self.remaining();
        if available < n {
            self.drain();
            return Err(DecodeError::UnexpectedEof { missing: n - available });
        }
        let bytes = self.peek(n);
        let mut i: usize = 0;
        while i < n
            invariant
                i <= n,
                n == bytes@.len(),
                n <= buf@.len(),
                buf@.len() == old(buf)@.len(),
                forall|j: int| 0 <= j < i ==> buf@[j] == bytes@[j],
                forall|j: int| i <= j < buf@.len() ==> buf@[j] == old(buf)@[j],
            decreases n - i,
        {
            buf[i] = bytes[i];
            i = i + 1;
        }
        assert(buf@ =~= bytes@ + old(buf)@.skip(n as int));
        self.advance(n);
        Ok(())
    }
}

} // verus!
