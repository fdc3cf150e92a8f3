//! A streaming base64 encoder that builds each group of four characters from
//! the 24-bit number formed by its three buffered bytes.
//!
//! It hands out exactly what [`crate::b64::writer::Base64Writer`] hands out.

use crate::b64::encode;
use crate::b64::encoder::{encode_group, encoded, lemma_encoded_append, lemma_shifted_sextets, pad};
use crate::b64::writer::{complete_groups, incomplete_group};
use vstd::prelude::*;

verus! {

/// A base64 encoder that buffers up to two pending bytes between writes.
pub struct Base64Writer {
    buffer: [u8; 3],
    offset: usize,
}

impl Base64Writer {
    /// The buffer holds `offset` pending bytes, and zeros after them.
    pub closed spec fn well_formed(&self) -> bool {
        &&& self.offset <= 3
        &&& forall|j: int| self.offset <= j < 3 ==> self.buffer@[j] == 0
    }

    /// The bytes taken but not yet encoded.
    pub closed spec fn buffered(&self) -> Seq<u8> {
        self.buffer@.take(self.offset as int)
    }

    /// Creates an encoder with nothing buffered.
    pub fn new() -> (w: Self)
        ensures
            w.well_formed(),
            w.buffered() == Seq::<u8>::empty(),
    {
        let w = Self { buffer: [0; 3], offset: 0 };
        assert(w.buffered() =~= Seq::<u8>::empty());
        w
    }

    /// Encodes what is buffered, padding an incomplete group, and empties the
    /// buffer.
    pub fn finish(&mut self) -> (out: Vec<u8>)
        requires
            old(self).well_formed(),
        ensures
            final(self).well_formed(),
            final(self).buffered() == Seq::<u8>::empty(),
            out@ == encoded(old(self).buffered()),
    {
        self.flush_buffer()
    }

    /// Encodes what is buffered (nothing when the buffer is empty) and
    /// empties the buffer.
    pub fn flush_buffer(&mut self) -> (out: Vec<u8>)
        requires
            old(self).well_formed(),
        ensures
            final(self).well_formed(),
            final(self).buffered() == Seq::<u8>::empty(),
            out@ == encoded(old(self).buffered()),
    {
        let ghost pending = self.buffered();
        let n: u32 = ((self.buffer[0] as u32) << 16) | ((self.buffer[1] as u32) << 8) | (
        self.buffer[2] as u32);

        if self.offset == 0 {
            assert(pending =~= Seq::<u8>::empty());
            return Vec::new();
        }
        proof {
            let b0 = self.buffer@[0];
            let b1 = self.buffer@[1];
            let b2 = self.buffer@[2];
            lemma_shifted_sextets(b0, b1, b2);
            assert({
                &&& (n >> 18) < 64
                &&& ((n >> 18) as u8) == ((n >> 18) as u8) & 63
                &&& (((n >> 12) & 0x3f) as u8) == ((n >> 12) as u8) & 63
                &&& (((n >> 6) & 0x3f) as u8) == ((n >> 6) as u8) & 63
                &&& ((n & 0x3f) as u8) == (n as u8) & 63
                &&& ((n >> 12) & 0x3f) < 64
                &&& ((n >> 6) & 0x3f) < 64
                &&& (n & 0x3f) < 64
            }) by (bit_vector)
                requires
                    n == ((b0 as u32) << 16) | ((b1 as u32) << 8) | (b2 as u32),
            ;
        }

        let char_1 = encode((n >> 18) as u8);
        let char_2 = encode(((n >> 12) & 0x3f) as u8);
        let char_3 = encode(((n >> 6) & 0x3f) as u8);
        let char_4 = encode((n & 0x3f) as u8);

        let mut buf = [char_1, char_2, char_3, char_4];

        let padding = 3 - self.offset;
        for idx in 0..padding
            invariant
                padding == 3 - self.offset,
                1 <= self.offset <= 3,
                buf@.len() == 4,
                forall|j: int| 0 <= j < 4 - idx ==> buf@[j] == seq![char_1, char_2, char_3, char_4][j],
                forall|j: int| 4 - idx <= j < 4 ==> buf@[j] == pad(),
        {
            buf[3 - idx] = 61;
        }

        let mut result: Vec<u8> = Vec::new();
        result.push(buf[0]);
        result.push(buf[1]);
        result.push(buf[2]);
        result.push(buf[3]);
        proof {
            assert(pending.len() == self.offset);
            assert(pending[0] == self.buffer@[0]);
            assert(pending.len() > 1 ==> pending[1] == self.buffer@[1]);
            assert(pending.len() > 2 ==> pending[2] == self.buffer@[2]);
            assert(pending.len() <= 1 ==> self.buffer@[1] == 0);
            assert(pending.len() <= 2 ==> self.buffer@[2] == 0);
            assert(result@ =~= encode_group(pending));
        }
        self.offset = 0;
        self.buffer = [0; 3];
        assert(self.buffered() =~= Seq::<u8>::empty());
        result
    }

    /// Takes the bytes of `buf`; returns the encoding of every group of three
    /// that they complete, and keeps the rest buffered.
    pub fn write(&mut self, buf: &[u8]) -> (out: Vec<u8>)
        requires
            old(self).well_formed(),
            old(self).buffered().len() < 3,
        ensures
            final(self).well_formed(),
            out@ == encoded(complete_groups(old(self).buffered() + buf@)),
            final(self).buffered() == incomplete_group(old(self).buffered() + buf@),
    {
        let ghost start = self.buffered();
        let mut out: Vec<u8> = Vec::new();
        let mut i: usize = 0;
        proof {
            let p = start + buf@.take(0);
            assert(p =~= start);
            assert(complete_groups(p) =~= Seq::<u8>::empty());
            assert(incomplete_group(p) =~= start);
            assert(encoded(Seq::<u8>::empty()) =~= Seq::<u8>::empty());
        }
        while i < buf.len()
            invariant
                i <= buf@.len(),
                self.well_formed(),
                self.offset < 3,
                out@ == encoded(complete_groups(start + buf@.take(i as int))),
                self.buffered() == incomplete_group(start + buf@.take(i as int)),
            decreases buf@.len() - i,
        {
            let ghost p = start + buf@.take(i as int);
            let ghost q = start + buf@.take(i + 1);
            assert(q =~= p.push(buf@[i as int]));
            let byte = buf[i];
            self.buffer[self.offset] = byte;
            self.offset = self.offset + 1;
            assert(self.buffered() =~= incomplete_group(p).push(byte));
            if self.offset == 3 {
                let ghost prefix = complete_groups(p);
                let mut chunk = self.flush_buffer();
                proof {
                    lemma_encoded_append(prefix, incomplete_group(p).push(byte));
                    assert(prefix + incomplete_group(p).push(byte) =~= q);
                    assert(complete_groups(q) =~= q);
                    assert(incomplete_group(q) =~= Seq::<u8>::empty());
                }
                out.append(&mut chunk);
            } else {
                proof {
                    assert(complete_groups(q) =~= complete_groups(p));
                    assert(incomplete_group(q) =~= incomplete_group(p).push(byte));
                }
            }
            i = i + 1;
        }
        assert(buf@.take(buf@.len() as int) =~= buf@);
        out
    }
}

} // verus!
