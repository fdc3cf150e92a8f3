//! A streaming base64 encoder: bytes are taken in any number of writes, and
//! each complete group of three is encoded as soon as it is full.
//!
//! The encoder holds no sink of its own: every call returns the characters
//! that are ready to be written out.

use crate::b64::encoder::{encode_bytes, encoded, lemma_encoded_append};
use vstd::seq_lib::*;
use vstd::prelude::*;

verus! {

/// The part of `all` that forms complete groups of three bytes.
pub open spec fn complete_groups(all: Seq<u8>) -> Seq<u8> {
    all.take(all.len() - all.len() % 3)
}

/// The bytes of `all` after its complete groups (fewer than three).
pub open spec fn incomplete_group(all: Seq<u8>) -> Seq<u8> {
    all.skip(all.len() - all.len() % 3)
}

/// A base64 encoder that buffers up to two pending bytes between writes.
pub struct Base64Writer {
    buffer: [u8; 3],
    offset: usize,
}

impl Base64Writer {
    /// The buffer holds `offset` pending bytes.
    pub closed spec fn well_formed(&self) -> bool {
        self.offset <= 3
    }

    /// The bytes taken but not yet encoded.
    pub closed spec fn buffered(&self) -> Seq<u8> {
        self.buffer@.take(self.offset as int)
    }

    /// Creates an encoder with nothing buffered.
    pub fn new() -> (w: Self)
        ensures
            w.well_formed(),
            w.buffered() == Seq::<u8>::empty(),
    {
        let w = Self { buffer: [0; 3], offset: 0 };
        assert(w.buffered() =~= Seq::<u8>::empty());
        w
    }

    /// Encodes what is buffered, padding an incomplete group, and empties the
    /// buffer.
    pub fn finish(&mut self) -> (out: Vec<u8>)
        requires
            old(self).well_formed(),
        ensures
            final(self).well_formed(),
            final(self).buffered() == Seq::<u8>::empty(),
            out@ == encoded(old(self).buffered()),
    {
        self.flush_buffer()
    }

    /// Encodes what is buffered (nothing when the buffer is empty) and
    /// empties the buffer.
    pub fn flush_buffer(&mut self) -> (out: Vec<u8>)
        requires
            old(self).well_formed(),
        ensures
            final(self).well_formed(),
            final(self).buffered() == Seq::<u8>::empty(),
            out@ == encoded(old(self).buffered()),
    {
        if self.offset == 0 {
            assert(self.buffered() =~= Seq::<u8>::empty());
            return Vec::new();
        }
        let mut pending: Vec<u8> = Vec::new();
        let mut i: usize = 0;
        while i < self.offset
            invariant
                self.offset <= 3,
                i <= self.offset,
                pending@ =~= self.buffer@.take(i as int),
            decreases self.offset - i,
        {
            pending.push(self.buffer[i]);
            i = i + 1;
        }
        let encoded_bytes = encode_bytes(pending.as_slice());
        self.offset = 0;
        self.buffer = [0; 3];
        assert(self.buffered() =~= Seq::<u8>::empty());
        encoded_bytes
    }

    /// Takes the bytes of `buf`; returns the encoding of every group of three
    /// that they complete, and keeps the rest buffered.
    pub fn write(&mut self, buf: &[u8]) -> (out: Vec<u8>)
        requires
            old(self).well_formed(),
            old(self).buffered().len() < 3,
        ensures
            final(self).well_formed(),
            out@ == encoded(complete_groups(old(self).buffered() + buf@)),
            final(self).buffered() == incomplete_group(old(self).buffered() + buf@),
    {
        let ghost start = self.buffered();
        let mut out: Vec<u8> = Vec::new();
        let mut i: usize = 0;
        proof {
            let p = start + buf@.take(0);
            assert(p =~= start);
            assert(complete_groups(p) =~= Seq::<u8>::empty());
            assert(incomplete_group(p) =~= start);
            assert(encoded(Seq::<u8>::empty()) =~= Seq::<u8>::empty());
        }
        while i < buf.len()
            invariant
                i <= buf@.len(),
                self.offset < 3,
                out@ == encoded(complete_groups(start + buf@.take(i as int))),
                self.buffered() == incomplete_group(start + buf@.take(i as int)),
            decreases buf@.len() - i,
        {
            let ghost p = start + buf@.take(i as int);
            let ghost q = start + buf@.take(i + 1);
            assert(q =~= p.push(buf@[i as int]));
            let byte = buf[i];
            self.buffer[self.offset] = byte;
            self.offset = self.offset + 1;
            assert(self.buffered() =~= incomplete_group(p).push(byte));
            if self.offset == 3 {
                let ghost prefix = complete_groups(p);
                let mut chunk = self.flush_buffer();
                proof {
                    assert(prefix.len() % 3 == 0);
                    lemma_encoded_append(prefix, incomplete_group(p).push(byte));
                    assert(prefix + incomplete_group(p).push(byte) =~= q);
                    assert(complete_groups(q) =~= q);
                    assert(incomplete_group(q) =~= Seq::<u8>::empty());
                }
                out.append(&mut chunk);
            } else {
                proof {
                    assert(complete_groups(q) =~= complete_groups(p));
                    assert(incomplete_group(q) =~= incomplete_group(p).push(byte));
                }
            }
            i = i + 1;
        }
        assert(buf@.take(buf@.len() as int) =~= buf@);
        out
    }
}

/// What an encoder holding `buffered` hands out over the writes `writes`,
/// one after the other, and a final `finish`.
pub open spec fn stream_output(buffered: Seq<u8>, writes: Seq<Seq<u8>>) -> Seq<u8>
    decreases writes.len(),
{
    if writes.len() == 0 {
        encoded(buffered)
    } else {
        let all = buffered + writes[0];
        encoded(complete_groups(all)) + stream_output(incomplete_group(all), writes.skip(1))
    }
}

/// Streaming gives what one-shot encoding gives: whatever the bytes are split
/// into, the writes and the final `finish` of an encoder hand out, all
/// together, the base64 encoding of the buffered bytes followed by all the
/// bytes written.
pub proof fn lemma_stream_matches_one_shot(buffered: Seq<u8>, writes: Seq<Seq<u8>>)
    ensures
        stream_output(buffered, writes) == encoded(buffered + writes.flatten()),
    decreases writes.len(),
{
    if writes.len() == 0 {
        assert(buffered + writes.flatten() =~= buffered);
    } else {
        let all = buffered + writes[0];
        let rest = writes.skip(1);
        lemma_stream_matches_one_shot(incomplete_group(all), rest);
        lemma_encoded_append(complete_groups(all), incomplete_group(all) + rest.flatten());
        assert(rest =~= writes.drop_first());
        assert(complete_groups(all) + (incomplete_group(all) + rest.flatten())
            =~= buffered + writes.flatten());
    }
}

} // verus!
