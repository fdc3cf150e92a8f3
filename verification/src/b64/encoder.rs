//! One-shot base64 encoding of byte strings (RFC 4648, with `=` padding).

use crate::b64::alphabet;
use vstd::prelude::*;

verus! {

/// The padding character `=`.
pub open spec fn pad() -> u8 {
    61u8
}

/// The four six-bit values of the three bytes `n0`, `n1`, `n2`, most significant first.
pub open spec fn sextets(n0: u8, n1: u8, n2: u8) -> (u8, u8, u8, u8) {
    (n0 >> 2, ((n0 & 3) << 4) | (n1 >> 4), ((n1 & 15) << 2) | (n2 >> 6), n2 & 63)
}

/// The four characters that encode a group of one to three bytes; a missing
/// byte counts as zero and its character is replaced by padding.
pub open spec fn encode_group(chunk: Seq<u8>) -> Seq<u8>
    recommends
        1 <= chunk.len() <= 3,
{
    let n0 = chunk[0];
    let n1 = if chunk.len() > 1 { chunk[1] } else { 0u8 };
    let n2 = if chunk.len() > 2 { chunk[2] } else { 0u8 };
    let (a, b, c, d) = sextets(n0, n1, n2);
    seq![
        alphabet(a),
        alphabet(b),
        if chunk.len() > 1 { alphabet(c) } else { pad() },
        if chunk.len() > 2 { alphabet(d) } else { pad() },
    ]
}

/// The base64 encoding of `bytes`: the groups of three bytes from the start,
/// each encoded by [`encode_group`], the last group possibly shorter.
pub open spec fn encoded(bytes: Seq<u8>) -> Seq<u8>
    decreases bytes.len(),
{
    if bytes.len() == 0 {
        Seq::empty()
    } else if bytes.len() <= 3 {
        encode_group(bytes)
    } else {
        encode_group(bytes.take(3)) + encoded(bytes.skip(3))
    }
}

/// The number of characters in the encoding of `n` bytes.
pub open spec fn encoded_len(n: nat) -> nat {
    4 * ((n + 2) / 3)
}

/// Returns the alphabet character of the low six bits of `byte`.
pub fn encode(byte: u8) -> (c: u8)
    ensures
        c == alphabet(byte & 63),
{
    assert(byte & 63 < 64) by (bit_vector);
    crate::b64::encode(byte & 63)
}

/// The six-bit values taken from the 24-bit number `n0 n1 n2` by shifting are
/// those of [`sextets`].
pub proof fn lemma_shifted_sextets(n0: u8, n1: u8, n2: u8)
    ensures
        ({
            let n: u32 = ((n0 as u32) << 16) | ((n1 as u32) << 8) | (n2 as u32);
            &&& ((n >> 18) as u8) & 63 == n0 >> 2
            &&& ((n >> 12) as u8) & 63 == ((n0 & 3) << 4) | (n1 >> 4)
            &&& ((n >> 6) as u8) & 63 == ((n1 & 15) << 2) | (n2 >> 6)
            &&& (n as u8) & 63 == n2 & 63
        }),
{
    assert({
        let n: u32 = ((n0 as u32) << 16) | ((n1 as u32) << 8) | (n2 as u32);
        &&& ((n >> 18) as u8) & 63 == n0 >> 2
        &&& ((n >> 12) as u8) & 63 == ((n0 & 3) << 4) | (n1 >> 4)
        &&& ((n >> 6) as u8) & 63 == ((n1 & 15) << 2) | (n2 >> 6)
        &&& (n as u8) & 63 == n2 & 63
    }) by (bit_vector);
}

/// Encodes one group of one to three bytes, `bytes[start..start + len]`.
fn encode_chunk(bytes: &[u8], start: usize, len: usize) -> (out: [u8; 4])
    requires
        1 <= len <= 3,
        start + len <= bytes@.len(),
    ensures
        out@ == encode_group(bytes@.subrange(start as int, start + len)),
{
    let ghost chunk = bytes@.subrange(start as int, start + len);
    let n0 = bytes[start];
    let n1 = if len > 1 { bytes[start + 1] } else { 0 };
    let n2 = if len > 2 { bytes[start + 2] } else { 0 };

    let n: u32 = ((n0 as u32) << 16) | ((n1 as u32) << 8) | (n2 as u32);

    let mut encoded = [0u8; 4];
    encoded[0] = encode((n >> 18) as u8);
    encoded[1] = encode((n >> 12) as u8);
    encoded[2] = encode((n >> 6) as u8);
    encoded[3] = encode(n as u8);

    let padding = 3 - len;
    for idx in 0..padding
        invariant
            padding == 3 - len,
            1 <= len <= 3,
            forall|j: int| 0 <= j < 4 - idx ==> encoded@[j] == unpadded_chars(n)[j],
            forall|j: int| 4 - idx <= j < 4 ==> encoded@[j] == pad(),
            encoded@.len() == 4,
    {
        encoded[3 - idx] = 61;
    }
    proof {
        lemma_shifted_sextets(n0, n1, n2);
        assert(chunk[0] == n0);
        assert(len > 1 ==> chunk[1] == n1);
        assert(len > 2 ==> chunk[2] == n2);
        assert(encoded@ =~= encode_group(chunk));
    }
    encoded
}

/// The four unpadded characters of the 24-bit number `n`.
pub open spec fn unpadded_chars(n: u32) -> Seq<u8> {
    seq![
        alphabet(((n >> 18) as u8) & 63),
        alphabet(((n >> 12) as u8) & 63),
        alphabet(((n >> 6) as u8) & 63),
        alphabet((n as u8) & 63),
    ]
}

/// Returns the base64 encoding of `bytes`.
pub fn encode_bytes(bytes: &[u8]) -> (out: Vec<u8>)
    ensures
        out@ == encoded(bytes@),
{
    let len = bytes.len();
    let mut out: Vec<u8> = Vec::new();
    let mut i: usize = 0;
    assert(bytes@.skip(0) =~= bytes@);
    while i < len
        invariant
            len == bytes@.len(),
            i <= len,
            out@ + encoded(bytes@.skip(i as int)) == encoded(bytes@),
        decreases len - i,
    {
        let rest = len - i;
        let chunk_len = if rest < 3 { rest } else { 3 };
        let group = encode_chunk(bytes, i, chunk_len);
        proof {
            let tail = bytes@.skip(i as int);
            if rest <= 3 {
                assert(bytes@.subrange(i as int, i + chunk_len) =~= tail);
                assert(bytes@.skip(i + chunk_len) =~= Seq::<u8>::empty());
            } else {
                assert(bytes@.subrange(i as int, i + 3) =~= tail.take(3));
                assert(tail.skip(3) =~= bytes@.skip(i + 3));
            }
        }
        let ghost before = out@;
        out.push(group[0]);
        out.push(group[1]);
        out.push(group[2]);
        out.push(group[3]);
        proof {
            assert(out@ =~= before + group@) by {
                assert(group@.len() == 4);
            }
        }
        i = i + chunk_len;
    }
    assert(bytes@.skip(len as int) =~= Seq::<u8>::empty());
    out
}

/// Encoding a prefix whose length is a multiple of three, then the rest,
/// gives the encoding of the whole.
pub proof fn lemma_encoded_append(a: Seq<u8>, b: Seq<u8>)
    requires
        a.len() % 3 == 0,
    ensures
        encoded(a + b) == encoded(a) + encoded(b),
    decreases a.len(),
{
    if a.len() == 0 {
        assert(a + b =~= b);
        assert(encoded(a) + encoded(b) =~= encoded(b));
    } else if b.len() == 0 && a.len() == 3 {
        assert(a + b =~= a);
        assert(encoded(a) + encoded(b) =~= encoded(a));
    } else {
        let ab = a + b;
        assert(ab.take(3) =~= a.take(3));
        assert(ab.skip(3) =~= a.skip(3) + b);
        lemma_encoded_append(a.skip(3), b);
        if a.len() == 3 {
            assert(a.take(3) =~= a);
            assert(a.skip(3) =~= Seq::<u8>::empty());
            assert(a.skip(3) + b =~= b);
        }
        assert(encoded(ab) =~= encoded(a) + encoded(b));
    }
}

/// Every group of at most three bytes is encoded by four characters.
pub proof fn lemma_encoded_len(bytes: Seq<u8>)
    ensures
        encoded(bytes).len() == encoded_len(bytes.len()),
    decreases bytes.len(),
{
    if bytes.len() > 3 {
        lemma_encoded_len(bytes.skip(3));
    }
}

/// Six-bit values are encoded by alphabet characters, never by padding.
proof fn lemma_alphabet_not_pad(v: u8)
    requires
        v < 64,
    ensures
        alphabet(v) != pad(),
{
}

/// The values of [`sextets`] are six-bit values, and they determine the bytes
/// that they are taken from.
proof fn lemma_sextets_determine_bytes(n0: u8, n1: u8, n2: u8, m0: u8, m1: u8, m2: u8)
    ensures
        ({
            let (a, b, c, d) = sextets(n0, n1, n2);
            a < 64 && b < 64 && c < 64 && d < 64
        }),
        ({
            let (a, b, c, d) = sextets(n0, n1, n2);
            let (e, f, g, h) = sextets(m0, m1, m2);
            &&& (a == e && b == f) ==> (n0 == m0 && n1 >> 4 == m1 >> 4)
            &&& (n1 >> 4 == m1 >> 4 && c == g) ==> (n1 == m1 && n2 >> 6 == m2 >> 6)
            &&& (n2 >> 6 == m2 >> 6 && d == h) ==> n2 == m2
        }),
{
    assert(n0 >> 2 < 64 && ((n0 & 3) << 4) | (n1 >> 4) < 64 && ((n1 & 15) << 2) | (n2 >> 6) < 64
        && n2 & 63 < 64) by (bit_vector);
    assert((n0 >> 2 == m0 >> 2 && ((n0 & 3) << 4) | (n1 >> 4) == ((m0 & 3) << 4) | (m1 >> 4)) ==> (
    n0 == m0 && n1 >> 4 == m1 >> 4)) by (bit_vector);
    assert((n1 >> 4 == m1 >> 4 && ((n1 & 15) << 2) | (n2 >> 6) == ((m1 & 15) << 2) | (m2 >> 6))
        ==> (n1 == m1 && n2 >> 6 == m2 >> 6)) by (bit_vector);
    assert((n2 >> 6 == m2 >> 6 && n2 & 63 == m2 & 63) ==> n2 == m2) by (bit_vector);
}

/// Groups of one to three bytes with the same encoding are the same bytes.
proof fn lemma_group_injective(x: Seq<u8>, y: Seq<u8>)
    requires
        1 <= x.len() <= 3,
        1 <= y.len() <= 3,
        encode_group(x) == encode_group(y),
    ensures
        x == y,
{
    let ex = encode_group(x);
    let ey = encode_group(y);
    let n0 = x[0];
    let n1 = if x.len() > 1 { x[1] } else { 0u8 };
    let n2 = if x.len() > 2 { x[2] } else { 0u8 };
    let m0 = y[0];
    let m1 = if y.len() > 1 { y[1] } else { 0u8 };
    let m2 = if y.len() > 2 { y[2] } else { 0u8 };
    lemma_sextets_determine_bytes(n0, n1, n2, m0, m1, m2);
    lemma_sextets_determine_bytes(m0, m1, m2, n0, n1, n2);
    let (a, b, c, d) = sextets(n0, n1, n2);
    let (e, f, g, h) = sextets(m0, m1, m2);
    lemma_alphabet_not_pad(c);
    lemma_alphabet_not_pad(d);
    lemma_alphabet_not_pad(g);
    lemma_alphabet_not_pad(h);
    assert(ex[2] == ey[2] && ex[3] == ey[3]);
    assert(x.len() > 1 <==> y.len() > 1);
    assert(x.len() > 2 <==> y.len() > 2);
    assert(x.len() == y.len());
    assert(ex[0] == ey[0] && ex[1] == ey[1]);
    crate::b64::lemma_alphabet_injective(a, e);
    crate::b64::lemma_alphabet_injective(b, f);
    if x.len() > 1 {
        crate::b64::lemma_alphabet_injective(c, g);
    }
    if x.len() > 2 {
        crate::b64::lemma_alphabet_injective(d, h);
    }
    assert(x =~= y);
}

/// Base64 encoding loses nothing: distinct byte strings have distinct
/// encodings, so every encoding decodes back to the bytes it came from.
pub proof fn lemma_encoded_injective(x: Seq<u8>, y: Seq<u8>)
    requires
        encoded(x) == encoded(y),
    ensures
        x == y,
    decreases x.len(),
{
    lemma_encoded_len(x);
    lemma_encoded_len(y);
    if x.len() == 0 || y.len() == 0 {
        assert(x.len() == 0 && y.len() == 0);
        assert(x =~= y);
    } else if x.len() <= 3 || y.len() <= 3 {
        assert(x.len() <= 3 && y.len() <= 3);
        lemma_group_injective(x, y);
    } else {
        let ex = encoded(x);
        let gx = encode_group(x.take(3));
        let gy = encode_group(y.take(3));
        assert(ex.take(4) =~= gx);
        assert(encoded(y).take(4) =~= gy);
        lemma_group_injective(x.take(3), y.take(3));
        assert(ex.skip(4) =~= encoded(x.skip(3)));
        assert(encoded(y).skip(4) =~= encoded(y.skip(3)));
        lemma_encoded_injective(x.skip(3), y.skip(3));
        assert(x =~= x.take(3) + x.skip(3));
        assert(y =~= y.take(3) + y.skip(3));
    }
}

} // verus!
