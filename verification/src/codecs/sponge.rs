//! The buffer codec that hands the byte mangling to the data_encoding
//! crate, called through contracts stated against the same model as the
//! codecs written here.

use vstd::prelude::*;

use crate::codecs::{lemma_wf_len, Codec, CodecBuf, CodecError};
use crate::model::{decode_spec, encode_spec, lemma_encode_spec_len, strip_pad};

verus! {

/// The encoder over `CodecBuf`s backed by the data_encoding crate.
pub struct Sponge {}

impl Default for Sponge {
    fn default() -> (r: Self)
        ensures
            r == (Sponge {  }),
    {
        Sponge {  }
    }
}

/// Relies on data_encoding::BASE64.encode: RFC 4648 base64 over the
/// standard alphabet with `=` padding, which is exactly what the model
/// describes. The length bound keeps the crate's own length computation
/// from panicking.
#[verifier::external_body]
fn base64_crate_encode(input: &[u8]) -> (r: Vec<u8>)
    requires
        input@.len() <= usize::MAX / 512,
    ensures
        r@ == encode_spec(input@),
{
    data_encoding::BASE64.encode(input).into_bytes()
}

/// Relies on data_encoding::BASE64.decode: a buffer that is exactly the
/// encoding of some byte sequence is accepted — it is a whole number of
/// quartets, all characters are in the alphabet, at most two `=` stand at
/// the very end and the bits they discard are zero — and decodes to that
/// sequence, which is what the model's decoding of the unpadded characters
/// yields. Nothing is claimed of other buffers: the crate accepts some
/// (concatenations of padded chunks) that the model reads differently.
#[verifier::external_body]
fn base64_crate_decode(input: &[u8]) -> (r: Option<Vec<u8>>)
    requires
        input@.len() <= usize::MAX / 8,
        exists|b: Seq<u8>| input@ == encode_spec(b),
    ensures
        r is Some,
        r matches Some(v) ==> v@ == decode_spec(strip_pad(input@)),
{
    match data_encoding::BASE64.decode(input) {
        Ok(v) => Some(v),
        Err(_) => None,
    }
}

impl Codec for Sponge {
    fn encode_buf(&self, input: &mut CodecBuf, output: &mut CodecBuf) -> (r: Result<
        (),
        CodecError,
    >) {
        proof {
            lemma_wf_len(input);
            lemma_encode_spec_len(input@);
        }
        let bytes = input.as_bytes();
        let encoded = base64_crate_encode(bytes);
        output.extend_by_slice(encoded.as_slice())
    }
}

impl Sponge {
    /// Append the decoding of `input`, which must be exactly the encoding
    /// of some byte sequence, to `output`; anything else would make the
    /// backing crate reject the buffer.
    pub fn decode_buf(&self, input: &[u8], output: &mut Vec<u8>) -> (r: Result<(), CodecError>)
        requires
            input@.len() <= usize::MAX / 8,
            exists|b: Seq<u8>| input@ == encode_spec(b),
        ensures
            r is Ok,
            final(output)@ == old(output)@ + decode_spec(strip_pad(input@)),
    {
        match base64_crate_decode(input) {
            Some(mut v) => {
                output.append(&mut v);
                Ok(())
            },
            None => Err(CodecError::Unknown),
        }
    }
}

} // verus!
