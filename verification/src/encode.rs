//! The plain scalar encoder: each triplet is packed into one 24-bit
//! integer, split into four six-bit groups, and looked up in the alphabet —
//! the reference shape the other encoders are measured against.

use vstd::prelude::*;

use crate::alphabet::{b64_char, char_of, lemma_tail_fields_zero, lemma_u32_split, PAD};
use crate::ascii_to_string;
use crate::model::{
    ascii_view, enc3, encode_len_spec, encode_spec, lemma_encode_spec_ascii,
    lemma_encode_spec_decompose, lemma_encode_spec_step,
};

verus! {

/// Append the first `num_chars` characters of the quartet that encodes the
/// triplet at the front of `chunk`: all four for a full triplet, fewer for
/// a zero-padded tail.
pub fn push_chars(chunk: &[u8], output: &mut Vec<u8>, num_chars: usize)
    requires
        chunk@.len() >= 3,
        num_chars <= 4,
    ensures
        final(output)@ == old(output)@ + enc3(chunk@[0], chunk@[1], chunk@[2]).take(
            num_chars as int,
        ),
{
    let t1 = chunk[0];
    let t2 = chunk[1];
    let t3 = chunk[2];
    proof {
        lemma_u32_split(t1, t2, t3);
    }
    let n: u32 = (((t1 as u32) << 16u32) + ((t2 as u32) << 8u32)) + (t3 as u32);
    let n_split: [u32; 4] = [(n >> 18u32) & 0x3f, (n >> 12u32) & 0x3f, (n >> 6u32) & 0x3f, n
        & 0x3f];
    let ghost q = enc3(t1, t2, t3);
    proof {
        assert(q.len() == 4);
        assert(forall|k: int| 0 <= k < 4 ==> char_of(n_split@[k] as u8) == q[k]);
        assert(old(output)@ + q.take(0) =~= old(output)@);
    }
    let mut k: usize = 0;
    while k < num_chars
        invariant
            k <= num_chars <= 4,
            chunk@.len() >= 3,
            q == enc3(chunk@[0], chunk@[1], chunk@[2]),
            q.len() == 4,
            n_split@.len() == 4,
            forall|k2: int| 0 <= k2 < 4 ==> char_of(n_split@[k2] as u8) == q[k2],
            output@ == old(output)@ + q.take(k as int),
        decreases num_chars - k,
    {
        output.push(b64_char(n_split[k] as u8));
        proof {
            assert(old(output)@ + q.take(k as int + 1) =~= (old(output)@ + q.take(k as int)).push(
                q[k as int],
            ));
        }
        k = k + 1;
    }
}

/// Encode `input` into a freshly allocated string, triplet by triplet, the
/// final short group zero-padded and closed with `=`.
pub fn encode(input: &[u8]) -> (s: String)
    requires
        encode_len_spec(input@.len() as int) <= usize::MAX,
    ensures
        s@ == ascii_view(encode_spec(input@)),
{
    let len = input.len();
    let cap = if len % 3 == 0 {
        len / 3 * 4
    } else {
        len / 3 * 4 + 4
    };
    let mut output: Vec<u8> = Vec::with_capacity(cap);
    proof {
        assert(input@.take(0) =~= Seq::<u8>::empty());
    }
    let mut i: usize = 0;
    while len - i >= 3
        invariant
            i <= len,
            input@.len() == len,
            i % 3 == 0,
            output@ == encode_spec(input@.take(i as int)),
        decreases len - i,
    {
        proof {
            lemma_encode_spec_step(input@, i as int);
        }
        push_chars(&input[i..i + 3], &mut output, 4);
        proof {
            assert(input@.subrange(i as int, i as int + 3)[0] == input@[i as int]);
            assert(enc3(input@[i as int], input@[i as int + 1], input@[i as int + 2]).take(4)
                =~= enc3(input@[i as int], input@[i as int + 1], input@[i as int + 2]));
        }
        i = i + 3;
    }
    let rem = len - i;
    proof {
        lemma_encode_spec_decompose(input@, i as int);
    }
    if rem > 0 {
        let mut final_chunk = [0u8; 3];
        final_chunk[0] = input[i];
        if rem == 2 {
            final_chunk[1] = input[i + 1];
        }
        proof {
            lemma_tail_fields_zero(input@[i as int], if rem == 2 {
                input@[i as int + 1]
            } else {
                0
            });
        }
        if rem == 1 {
            push_chars(final_chunk.as_slice(), &mut output, 2);
            output.push(PAD);
            output.push(PAD);
            proof {
                assert(input@.skip(i as int) =~= seq![input@[i as int]]);
                assert(output@ =~= encode_spec(input@));
            }
        } else {
            push_chars(final_chunk.as_slice(), &mut output, 3);
            output.push(PAD);
            proof {
                assert(input@.skip(i as int) =~= seq![input@[i as int], input@[i as int + 1]]);
                assert(output@ =~= encode_spec(input@));
            }
        }
    } else {
        proof {
            assert(input@.take(i as int) =~= input@);
        }
    }
    proof {
        lemma_encode_spec_ascii(input@);
    }
    ascii_to_string(output)
}

} // verus!
