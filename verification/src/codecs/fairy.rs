//! The combined-key buffer codec: the middle two characters of each
//! quartet are looked up by a 16-bit key holding two adjacent input bytes,
//! folding two table reads into one. The combined lookups are derived
//! mechanically from the one-byte alphabet table, so there is no second
//! source of truth to drift from it.

use vstd::prelude::*;

use crate::alphabet::{b64_char, char_of, lemma_tail_fields_zero, PAD};
use crate::codecs::{Codec, CodecBuf, CodecError};
use crate::model::{
    enc3, enc_partial, encode_len_spec, encode_spec, lemma_encode_len_add, lemma_encode_len_mono,
    lemma_encode_len_step, lemma_encode_spec_decompose, lemma_encode_spec_len,
    lemma_encode_spec_step,
};

verus! {

/// The encoder over `CodecBuf`s that uses the combined two-byte lookups.
pub struct Fairy {}

impl Default for Fairy {
    fn default() -> (r: Self)
        ensures
            r == (Fairy {  }),
    {
        Fairy {  }
    }
}

/// A 16-bit little-endian pair key built from two adjacent input bytes
/// swaps back to big-endian order, and the middle six-bit groups fall out
/// of shifts of the swapped key; a missing byte enters the key as zero and
/// contributes nothing.
proof fn lemma_pair_keys(b0: u8, b1: u8, b2: u8)
    by (bit_vector)
    ensures
        ({
            let k1 = (((b1 as u16) << 8) + (b0 as u16)) as u16;
            let k2 = (((b2 as u16) << 8) + (b1 as u16)) as u16;
            &&& ((b1 as u16) << 8) <= 0xFF00
            &&& ((b2 as u16) << 8) <= 0xFF00
            &&& ((((k1 << 8) | (k1 >> 8)) >> 4) & 0x3f) as u8 == ((b0 & 0x03) << 4) | ((b1 >> 4)
                & 0x0F)
            &&& ((((k2 << 8) | (k2 >> 8)) >> 6) & 0x3f) as u8 == ((b1 & 0x0F) << 2) | ((b2 >> 6)
                & 0x03)
        }),
{
}

/// First-position lookup: the table entry of a byte is the character of
/// its top six bits.
fn c0_lut(b: u8) -> (c: u8)
    ensures
        c == char_of(b >> 2),
{
    b64_char(b >> 2u8)
}

/// Second-position combined lookup, keyed by the little-endian pair of the
/// first two bytes.
fn c1_lut(key: u16) -> (c: u8)
    ensures
        c == char_of(((((key << 8) | (key >> 8)) >> 4) & 0x3f) as u8),
{
    let sw = (key << 8u16) | (key >> 8u16);
    b64_char(((sw >> 4u16) & 0x3f) as u8)
}

/// Third-position combined lookup, keyed by the little-endian pair of the
/// last two bytes.
fn c2_lut(key: u16) -> (c: u8)
    ensures
        c == char_of(((((key << 8) | (key >> 8)) >> 6) & 0x3f) as u8),
{
    let sw = (key << 8u16) | (key >> 8u16);
    b64_char(((sw >> 6u16) & 0x3f) as u8)
}

/// Fourth-position lookup: the character of the low six bits.
fn c3_lut(b: u8) -> (c: u8)
    ensures
        c == char_of(b & 0x3F),
{
    b64_char(b & 0x3F)
}

/// Append the four characters of the full triplet at the front of `chunk`,
/// one push per character; on overflow a prefix of them may remain.
pub fn push_chars_lut(chunk: &[u8], output: &mut CodecBuf) -> (r: Result<(), CodecError>)
    requires
        chunk@.len() >= 3,
        old(output).wf(),
    ensures
        final(output).wf(),
        r is Ok <==> old(output)@.len() + 4 <= 1024,
        r is Ok ==> final(output)@ == old(output)@ + enc3(chunk@[0], chunk@[1], chunk@[2]),
        r is Err ==> r == Err::<(), CodecError>(CodecError::BufferOverflow),
{
    let b0 = chunk[0];
    let b1 = chunk[1];
    let b2 = chunk[2];
    proof {
        lemma_pair_keys(b0, b1, b2);
    }
    match output.push(c0_lut(b0)) {
        Ok(_u) => (),
        Err(e) => {
            return Err(e);
        },
    }
    let k1: u16 = ((b1 as u16) << 8u16) + (b0 as u16);
    match output.push(c1_lut(k1)) {
        Ok(_u) => (),
        Err(e) => {
            return Err(e);
        },
    }
    let k2: u16 = ((b2 as u16) << 8u16) + (b1 as u16);
    match output.push(c2_lut(k2)) {
        Ok(_u) => (),
        Err(e) => {
            return Err(e);
        },
    }
    match output.push(c3_lut(b2)) {
        Ok(_u) => (),
        Err(e) => {
            return Err(e);
        },
    }
    proof {
        assert(output@ =~= old(output)@ + enc3(chunk@[0], chunk@[1], chunk@[2]));
    }
    Ok(())
}

/// Append the characters of a final short group of one to three bytes —
/// two, three or four characters, no padding — through the same combined
/// lookups, the missing bytes keyed as zero.
pub fn push_chars_lut_n(chunk: &[u8], output: &mut CodecBuf) -> (r: Result<(), CodecError>)
    requires
        1 <= chunk@.len() <= 3,
        old(output).wf(),
    ensures
        final(output).wf(),
        r is Ok <==> old(output)@.len() + chunk@.len() + 1 <= 1024,
        r is Ok ==> final(output)@ == old(output)@ + enc_partial(chunk@),
        r is Err ==> r == Err::<(), CodecError>(CodecError::BufferOverflow),
{
    let b0 = chunk[0];
    let b1 = if chunk.len() > 1 {
        chunk[1]
    } else {
        0
    };
    proof {
        lemma_pair_keys(b0, b1, 0);
        lemma_tail_fields_zero(b0, b1);
    }
    match output.push(c0_lut(b0)) {
        Ok(_u) => (),
        Err(e) => {
            return Err(e);
        },
    }
    let k1: u16 = ((b1 as u16) << 8u16) + (b0 as u16);
    match output.push(c1_lut(k1)) {
        Ok(_u) => (),
        Err(e) => {
            return Err(e);
        },
    }
    if chunk.len() < 2 {
        proof {
            assert(output@ =~= old(output)@ + enc_partial(chunk@));
        }
        return Ok(());
    }
    let b2 = if chunk.len() > 2 {
        chunk[2]
    } else {
        0
    };
    proof {
        lemma_pair_keys(b0, b1, b2);
    }
    let k2: u16 = ((b2 as u16) << 8u16) + (b1 as u16);
    match output.push(c2_lut(k2)) {
        Ok(_u) => (),
        Err(e) => {
            return Err(e);
        },
    }
    if chunk.len() < 3 {
        proof {
            assert(output@ =~= old(output)@ + enc_partial(chunk@));
        }
        return Ok(());
    }
    match output.push(c3_lut(b2)) {
        Ok(_u) => (),
        Err(e) => {
            return Err(e);
        },
    }
    proof {
        assert(output@ =~= old(output)@ + enc_partial(chunk@));
    }
    Ok(())
}

impl Codec for Fairy {
    fn encode_buf(&self, input: &mut CodecBuf, output: &mut CodecBuf) -> (r: Result<
        (),
        CodecError,
    >) {
        let bytes = input.as_bytes();
        let len = bytes.len();
        proof {
            assert(bytes@.take(0) =~= Seq::<u8>::empty());
        }
        let mut i: usize = 0;
        while len - i >= 3
            invariant
                i <= len,
                i % 3 == 0,
                len == bytes@.len(),
                bytes@ == old(input)@,
                input.wf(),
                *input == *old(input),
                output.wf(),
                output@ == old(output)@ + encode_spec(bytes@.take(i as int)),
                encode_spec(bytes@.take(i as int)).len() == encode_len_spec(i as int),
            decreases len - i,
        {
            proof {
                lemma_encode_len_step(i as int);
                lemma_encode_len_add(i as int, 3);
                lemma_encode_len_mono(i as int + 3, len as int);
                lemma_encode_spec_len(bytes@.take(i as int + 3));
                lemma_encode_spec_step(bytes@, i as int);
            }
            match push_chars_lut(&bytes[i..i + 3], output) {
                Ok(_u) => {
                    proof {
                        assert(output@ =~= old(output)@ + encode_spec(bytes@.take(i as int + 3)));
                    }
                },
                Err(e) => {
                    return Err(e);
                },
            }
            i = i + 3;
        }
        let rem = len - i;
        proof {
            lemma_encode_len_step(i as int);
            lemma_encode_len_add(i as int, rem as int);
            lemma_encode_spec_decompose(bytes@, i as int);
        }
        if rem == 0 {
            proof {
                assert(bytes@.take(i as int) =~= bytes@);
            }
            return Ok(());
        }
        match push_chars_lut_n(&bytes[i..len], output) {
            Ok(_u) => (),
            Err(e) => {
                return Err(e);
            },
        }
        if rem == 1 {
            match output.push(PAD) {
                Ok(_u) => (),
                Err(e) => {
                    return Err(e);
                },
            }
            match output.push(PAD) {
                Ok(_u) => (),
                Err(e) => {
                    return Err(e);
                },
            }
        } else {
            match output.push(PAD) {
                Ok(_u) => (),
                Err(e) => {
                    return Err(e);
                },
            }
        }
        proof {
            assert(bytes@.subrange(i as int, len as int) =~= bytes@.skip(i as int));
            assert(output@ =~= old(output)@ + encode_spec(bytes@));
        }
        Ok(())
    }
}

} // verus!
