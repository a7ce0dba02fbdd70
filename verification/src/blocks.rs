//! The sub-block framing of the compressed data.
//!
//! After the byte that holds the minimum code size, the stream is a run of
//! sub-blocks: a length byte `n`, then `n` bytes of payload. A length of zero
//! closes the run. A stream that ends early is read as far as it goes.

use vstd::prelude::*;

verus! {

/// Where a block of `left` bytes that starts at `at` ends: at its full
/// length, or at the end of the stream if that comes first.
pub open spec fn block_end(stream: Seq<u8>, at: int, left: int) -> int {
    if at + left <= stream.len() {
        at + left
    } else {
        stream.len() as int
    }
}

/// The payload held by the sub-blocks whose first length byte is at `at`.
pub open spec fn payload_from(stream: Seq<u8>, at: int) -> Seq<u8>
    decreases stream.len() - at,
{
    if at < 0 || at >= stream.len() || stream[at] == 0 {
        Seq::empty()
    } else {
        let end = block_end(stream, at + 1, stream[at] as int);
        stream.subrange(at + 1, end) + payload_from(stream, end)
    }
}

/// The whole payload of a frame's compressed data: the sub-blocks that follow
/// the leading byte, joined.
pub open spec fn payload(stream: Seq<u8>) -> Seq<u8> {
    payload_from(stream, 1)
}

/// A cursor that hands out the payload one byte at a time without copying it.
pub struct BlockReader {
    /// Index of the next byte to look at.
    at: usize,
    /// Payload bytes that the current sub-block still owes.
    left: u8,
}

impl BlockReader {
    /// The payload that has not been handed out yet.
    pub closed spec fn pending(&self, stream: Seq<u8>) -> Seq<u8> {
        let end = block_end(stream, self.at as int, self.left as int);
        stream.subrange(self.at as int, end) + payload_from(stream, end)
    }

    /// The cursor lies inside the stream and what is pending is the tail of
    /// the payload.
    pub closed spec fn wf(&self, stream: Seq<u8>) -> bool {
        let all = payload(stream);
        let rest = self.pending(stream);
        &&& 1 <= self.at <= stream.len()
        &&& rest.len() <= all.len()
        &&& all.skip(all.len() - rest.len()) == rest
    }

    /// How many payload bytes have been handed out.
    pub closed spec fn consumed(&self, stream: Seq<u8>) -> int {
        payload(stream).len() - self.pending(stream).len()
    }

    /// No more can have been handed out than the payload holds.
    pub proof fn lemma_consumed_bounds(&self, stream: Seq<u8>)
        requires
            self.wf(stream),
        ensures
            0 <= self.consumed(stream) <= payload(stream).len(),
    {
    }

    /// A cursor at the start of the payload.
    pub fn new(stream: &[u8]) -> (reader: Self)
        requires
            stream@.len() >= 1,
        ensures
            reader.wf(stream@),
            reader.consumed(stream@) == 0,
    {
        let reader = BlockReader { at: 1, left: 0 };
        proof {
            assert(reader.pending(stream@) =~= payload(stream@));
            assert(payload(stream@).skip(0) =~= payload(stream@));
        }
        reader
    }

    /// Hands out the next payload byte, or `None` once the payload is used up.
    pub fn next_byte(&mut self, stream: &[u8]) -> (byte: Option<u8>)
        requires
            old(self).wf(stream@),
        ensures
            final(self).wf(stream@),
            0 <= old(self).consumed(stream@) <= payload(stream@).len(),
            match byte {
                Some(b) => {
                    &&& old(self).consumed(stream@) < payload(stream@).len()
                    &&& b == payload(stream@)[old(self).consumed(stream@)]
                    &&& final(self).consumed(stream@) == old(self).consumed(stream@) + 1
                },
                None => {
                    &&& old(self).consumed(stream@) == payload(stream@).len()
                    &&& final(self).consumed(stream@) == old(self).consumed(stream@)
                },
            },
    {
        let ghost all = payload(stream@);
        let ghost rest = self.pending(stream@);
        if self.left == 0 {
            if self.at >= stream.len() {
                assert(rest =~= Seq::<u8>::empty());
                return None;
            }
            let n = stream[self.at];
            if n == 0 {
                assert(rest =~= Seq::<u8>::empty());
                return None;
            }
            assert(stream@.subrange(self.at as int, self.at as int) =~= Seq::<u8>::empty());
            self.at = self.at + 1;
            self.left = n;
            assert(self.pending(stream@) =~= rest);
        }
        if self.at >= stream.len() {
            assert(rest =~= Seq::<u8>::empty());
            return None;
        }
        let b = stream[self.at];
        self.at = self.at + 1;
        self.left = self.left - 1;
        proof {
            assert(self.pending(stream@) =~= rest.skip(1));
            assert(rest[0] == b);
            let k = all.len() - rest.len();
            assert(all[k] == all.skip(k)[0]);
            assert(all.skip(k + 1) =~= all.skip(k).skip(1));
        }
        Some(b)
    }
}

} // verus!
