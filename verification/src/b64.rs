//! The standard base64 alphabet.

use vstd::prelude::*;

pub mod encoder;
pub mod writer;

verus! {

/// The character of the base64 alphabet that stands for the six-bit value `v`
/// (`A`-`Z`, `a`-`z`, `0`-`9`, `+`, `/`).
pub open spec fn alphabet(v: u8) -> u8
    recommends
        v < 64,
{
    if v < 26 {
        (v + 65) as u8
    } else if v < 52 {
        (v - 26 + 97) as u8
    } else if v < 62 {
        (v - 52 + 48) as u8
    } else if v == 62 {
        43u8
    } else {
        47u8
    }
}

/// Returns the alphabet character of the six-bit value `byte`.
pub fn encode(byte: u8) -> (c: u8)
    requires
        byte < 64,
    ensures
        c == alphabet(byte),
{
    if byte < 26 {
        byte + 65
    } else if byte < 52 {
        byte - 26 + 97
    } else if byte < 62 {
        byte - 52 + 48
    } else if byte == 62 {
        43
    } else {
        47
    }
}

/// Returns the position of `byte` in the base64 alphabet, or `None` when
/// `byte` is not an alphabet character.
pub fn decode(byte: u8) -> (res: Option<u8>)
    ensures
        res matches Some(v) ==> v < 64 && alphabet(v) == byte,
        res is None ==> forall|v: u8| v < 64 ==> alphabet(v) != byte,
{
    if 65 <= byte && byte <= 90 {
        Some(byte - 65)
    } else if 97 <= byte && byte <= 122 {
        Some(byte - 97 + 26)
    } else if 48 <= byte && byte <= 57 {
        Some(byte - 48 + 52)
    } else if byte == 43 {
        Some(62)
    } else if byte == 47 {
        Some(63)
    } else {
        None
    }
}

/// Distinct six-bit values have distinct alphabet characters.
pub proof fn lemma_alphabet_injective(v: u8, w: u8)
    requires
        v < 64,
        w < 64,
        alphabet(v) == alphabet(w),
    ensures
        v == w,
{
}

} // verus!
