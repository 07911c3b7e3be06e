//! The plainest buffer codec: each triplet is packed into one 24-bit
//! integer, split into four six-bit groups, and all four characters are
//! extended onto the output buffer at once.

use vstd::prelude::*;

use crate::alphabet::{b64_char, char_of, lemma_u32_split, PAD};
use crate::codecs::{Codec, CodecBuf, CodecError};
use crate::model::{
    enc3, encode_len_spec, encode_spec, lemma_encode_len_add, lemma_encode_len_mono,
    lemma_encode_len_step, lemma_encode_spec_decompose, lemma_encode_spec_len,
    lemma_encode_spec_step,
};

verus! {

/// The straightforward arithmetic encoder over `CodecBuf`s.
pub struct Vanilla {}

impl Default for Vanilla {
    fn default() -> (r: Self)
        ensures
            r == (Vanilla {  }),
    {
        Vanilla {  }
    }
}

/// Append the first `num_chars` characters of the quartet that encodes the
/// triplet at the front of `chunk`: all four for a full triplet, fewer for
/// a zero-padded tail. The characters go out as one slice, so nothing is
/// written when they do not fit.
pub fn push_chars(chunk: &[u8], output: &mut CodecBuf, num_chars: usize) -> (r: Result<
    (),
    CodecError,
>)
    requires
        chunk@.len() >= 3,
        num_chars <= 4,
        old(output).wf(),
    ensures
        final(output).wf(),
        r is Ok <==> old(output)@.len() + num_chars < 1024,
        r is Ok ==> final(output)@ == old(output)@ + enc3(chunk@[0], chunk@[1], chunk@[2]).take(
            num_chars as int,
        ),
        r is Err ==> *final(output) == *old(output) && r == Err::<(), CodecError>(
            CodecError::BufferOverflow,
        ),
{
    let t1 = chunk[0];
    let t2 = chunk[1];
    let t3 = chunk[2];
    proof {
        lemma_u32_split(t1, t2, t3);
    }
    let n: u32 = (((t1 as u32) << 16u32) + ((t2 as u32) << 8u32)) + (t3 as u32);
    let o0 = b64_char(((n >> 18u32) & 0x3f) as u8);
    let o1 = b64_char(((n >> 12u32) & 0x3f) as u8);
    let o2 = b64_char(((n >> 6u32) & 0x3f) as u8);
    let o3 = b64_char((n & 0x3f) as u8);
    let arr = [o0, o1, o2, o3];
    let s = arr.as_slice();
    let part = &s[0..num_chars];
    proof {
        assert(part@ =~= enc3(chunk@[0], chunk@[1], chunk@[2]).take(num_chars as int));
    }
    output.extend_by_slice(part)
}

impl Codec for Vanilla {
    fn encode_buf(&self, input: &mut CodecBuf, output: &mut CodecBuf) -> (r: Result<
        (),
        CodecError,
    >) {
        let bytes = input.as_bytes();
        let len = bytes.len();
        proof {
            assert(bytes@.take(0) =~= Seq::<u8>::empty());
        }
        let mut i: usize = 0;
        while len - i >= 3
            invariant
                i <= len,
                i % 3 == 0,
                len == bytes@.len(),
                bytes@ == old(input)@,
                input.wf(),
                *input == *old(input),
                output.wf(),
                output@ == old(output)@ + encode_spec(bytes@.take(i as int)),
                encode_spec(bytes@.take(i as int)).len() == encode_len_spec(i as int),
            decreases len - i,
        {
            proof {
                lemma_encode_len_step(i as int);
                lemma_encode_len_add(i as int, 3);
                lemma_encode_len_mono(i as int + 3, len as int);
                lemma_encode_spec_len(bytes@.take(i as int + 3));
                lemma_encode_spec_step(bytes@, i as int);
            }
            match push_chars(&bytes[i..i + 3], output, 4) {
                Ok(_u) => {
                    proof {
                        let q = enc3(bytes@[i as int], bytes@[i as int + 1], bytes@[i as int + 2]);
                        assert(q.take(4) =~= q);
                        assert(output@ =~= old(output)@ + encode_spec(bytes@.take(i as int + 3)));
                    }
                },
                Err(e) => {
                    return Err(e);
                },
            }
            i = i + 3;
        }
        let rem = len - i;
        proof {
            lemma_encode_len_step(i as int);
            lemma_encode_len_add(i as int, rem as int);
            lemma_encode_spec_decompose(bytes@, i as int);
        }
        if rem == 1 {
            let mut final_chunk = [0u8; 3];
            final_chunk[0] = bytes[i];
            proof {
                crate::alphabet::lemma_tail_fields_zero(bytes@[i as int], 0);
            }
            match push_chars(final_chunk.as_slice(), output, 2) {
                Ok(_u) => (),
                Err(e) => {
                    return Err(e);
                },
            }
            match output.push(PAD) {
                Ok(_u) => (),
                Err(e) => {
                    return Err(e);
                },
            }
            match output.push(PAD) {
                Ok(_u) => (),
                Err(e) => {
                    return Err(e);
                },
            }
            proof {
                assert(bytes@.skip(i as int) =~= seq![bytes@[i as int]]);
                assert(output@ =~= old(output)@ + encode_spec(bytes@));
            }
        } else if rem == 2 {
            let mut final_chunk = [0u8; 3];
            final_chunk[0] = bytes[i];
            final_chunk[1] = bytes[i + 1];
            proof {
                crate::alphabet::lemma_tail_fields_zero(bytes@[i as int], bytes@[i as int + 1]);
            }
            match push_chars(final_chunk.as_slice(), output, 3) {
                Ok(_u) => (),
                Err(e) => {
                    return Err(e);
                },
            }
            match output.push(PAD) {
                Ok(_u) => (),
                Err(e) => {
                    return Err(e);
                },
            }
            proof {
                assert(bytes@.skip(i as int) =~= seq![bytes@[i as int], bytes@[i as int + 1]]);
                assert(output@ =~= old(output)@ + encode_spec(bytes@));
            }
        } else {
            proof {
                assert(bytes@.take(i as int) =~= bytes@);
            }
        }
        Ok(())
    }
}

} // verus!
