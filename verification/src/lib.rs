//! A base64 codec: a verified portable implementation whose encoder is
//! tiled into 24-byte blocks for wide stores and whose decoder is the exact
//! scalar reference, together with buffer-based streaming codecs. Every
//! entry point is proved against one mathematical model of the standard
//! `A-Z a-z 0-9 + /` alphabet with `=` padding.

use vstd::prelude::*;

pub mod alphabet;
pub mod codecs;
pub mod encode;
pub mod model;
pub mod simple;

use crate::model::{
    all_b64, ascii_view, bad_ix, decode_len_spec, decode_spec, encode_len_spec, encode_spec,
    lemma_encode_spec_ascii, lemma_encode_spec_len, seq_written, strip_pad,
};

verus! {

/// The error type for encoding and decoding.
#[derive(Debug, PartialEq, Eq, Structural)]
pub enum CodecError {
    /// A destination buffer was shorter (first field) than the exact length
    /// the call needs (second field). Nothing was written.
    OutputLengthTooShort(usize, usize),
    /// A decode input had the given length, which is neither zero nor a
    /// positive multiple of four.
    InputModError(usize),
    /// A decode input held a byte outside the alphabet; the fields are the
    /// four characters of the first quartet that holds one.
    InvalidInput(u8, u8, u8, u8),
    /// Reserved for adapters around the codec; the codec itself never
    /// produces it.
    Unknown,
}

/// The exact length of the encoding of `input`: four characters for every
/// three bytes, rounded up to a full final quartet.
pub fn encode_len(input: &[u8]) -> (n: usize)
    requires
        encode_len_spec(input@.len() as int) <= usize::MAX,
    ensures
        n == encode_len_spec(input@.len() as int),
{
    match input.len() % 3 {
        0 => input.len() / 3 * 4,
        _ => input.len() / 3 * 4 + 4,
    }
}

/// An upper bound on the decoded length of `input`: three bytes for every
/// quartet, before the final padding is known. Destinations handed to the
/// decoders must hold at least this many bytes.
pub fn decode_len(input: &[u8]) -> (n: usize)
    ensures
        n == decode_len_spec(input@.len() as int),
{
    (input.len() / 4) * 3
}

/// Relies on String::from_utf8: a buffer of ASCII bytes becomes a string of
/// exactly those characters.
#[verifier::external_body]
fn ascii_to_string(bytes: Vec<u8>) -> (s: String)
    requires
        forall|i: int| 0 <= i < bytes@.len() ==> bytes@[i] < 128,
    ensures
        s@ == ascii_view(bytes@),
{
    String::from_utf8(bytes).unwrap_or_default()
}

/// Options for encoding; the standard alphabet has none to set.
#[derive(Debug)]
pub struct EncodeOptions {}

impl Default for EncodeOptions {
    fn default() -> (r: Self)
        ensures
            r == (EncodeOptions {  }),
    {
        EncodeOptions {  }
    }
}

impl EncodeOptions {
    /// Encode `input` into a freshly allocated string.
    pub fn encode(self, input: &[u8]) -> (s: String)
        requires
            encode_len_spec(input@.len() as int) <= usize::MAX,
        ensures
            s@ == ascii_view(encode_spec(input@)),
    {
        let n = encode_len(input);
        let mut output = vec![0u8; n];
        simple::encode(input, output.as_mut_slice());
        proof {
            lemma_encode_spec_len(input@);
            lemma_encode_spec_ascii(input@);
            assert(output@ =~= encode_spec(input@));
        }
        ascii_to_string(output)
    }

    /// Encode `input` into the front of `output`, returning the number of
    /// characters written, or `OutputLengthTooShort` — with nothing written
    /// — when `output` cannot hold the whole encoding.
    pub fn encode_mut(self, input: &[u8], output: &mut [u8]) -> (r: Result<usize, CodecError>)
        requires
            encode_len_spec(input@.len() as int) <= usize::MAX,
        ensures
            ({
                match r {
                    Ok(n) => {
                        &&& n == encode_len_spec(input@.len() as int)
                        &&& n <= old(output)@.len()
                        &&& seq_written(old(output)@, final(output)@, 0, encode_spec(input@))
                    },
                    Err(e) => final(output)@ == old(output)@ && match e {
                        CodecError::OutputLengthTooShort(got, need) => {
                            &&& got == old(output)@.len()
                            &&& need == encode_len_spec(input@.len() as int)
                            &&& got < need
                        },
                        _ => false,
                    },
                }
            }),
    {
        let n = encode_len(input);
        if output.len() < n {
            Err(CodecError::OutputLengthTooShort(output.len(), n))
        } else {
            proof {
                lemma_encode_spec_len(input@);
            }
            Ok(simple::encode(input, output))
        }
    }
}

/// Options for decoding; the standard alphabet has none to set.
#[derive(Debug)]
pub struct DecodeOptions {}

impl Default for DecodeOptions {
    fn default() -> (r: Self)
        ensures
            r == (DecodeOptions {  }),
    {
        DecodeOptions {  }
    }
}

impl DecodeOptions {
    /// Decode `input` into a freshly allocated buffer holding exactly the
    /// decoded bytes.
    pub fn decode(self, input: &[u8]) -> (r: Result<Vec<u8>, CodecError>)
        ensures
            ({
                let stripped = strip_pad(input@);
                match r {
                    Ok(v) => {
                        &&& input@.len() == 0 || (input@.len() >= 4 && input@.len() % 4 == 0)
                        &&& all_b64(stripped)
                        &&& v@ == decode_spec(stripped)
                    },
                    Err(e) => decode_err_claim(input@, e),
                }
            }),
    {
        let n = decode_len(input);
        let mut output = vec![0u8; n];
        let ghost data = decode_spec(strip_pad(input@));
        match simple::decode(input, output.as_mut_slice()) {
            Ok(written) => {
                proof {
                    assert(written == data.len());
                    assert(written <= output@.len());
                    assert(output@.subrange(0, written as int) == data);
                }
                output.truncate(written);
                proof {
                    assert(output@ =~= data);
                }
                Ok(output)
            },
            Err(e) => Err(e),
        }
    }

    /// Decode `input` into the front of `output`, returning the number of
    /// bytes written. `OutputLengthTooShort` — with nothing written — when
    /// `output` is smaller than `decode_len` of the input; the decoder's
    /// own errors otherwise.
    pub fn decode_mut(self, input: &[u8], output: &mut [u8]) -> (r: Result<usize, CodecError>)
        ensures
            ({
                let stripped = strip_pad(input@);
                match r {
                    Ok(n) => {
                        &&& input@.len() == 0 || (input@.len() >= 4 && input@.len() % 4 == 0)
                        &&& all_b64(stripped)
                        &&& n == decode_spec(stripped).len()
                        &&& seq_written(old(output)@, final(output)@, 0, decode_spec(stripped))
                    },
                    Err(e) => final(output)@.len() == old(output)@.len() && match e {
                        CodecError::OutputLengthTooShort(got, need) => {
                            &&& got == old(output)@.len()
                            &&& need == decode_len_spec(input@.len() as int)
                            &&& got < need
                            &&& final(output)@ == old(output)@
                        },
                        _ => decode_err_claim(input@, e),
                    },
                }
            }),
    {
        let n = decode_len(input);
        if output.len() < n {
            Err(CodecError::OutputLengthTooShort(output.len(), n))
        } else {
            simple::decode(input, output)
        }
    }
}

/// What each decoder error says of the input: `InputModError` comes exactly
/// on a length that is neither zero nor a positive multiple of four, and
/// `InvalidInput` carries the first quartet with a byte outside the
/// alphabet.
pub open spec fn decode_err_claim(s: Seq<u8>, e: CodecError) -> bool {
    match e {
        CodecError::InputModError(l) => l == s.len() && s.len() > 0 && (s.len() < 4 || s.len() % 4
            != 0),
        CodecError::InvalidInput(a, b, c, d) => {
            &&& s.len() >= 4
            &&& s.len() % 4 == 0
            &&& !all_b64(strip_pad(s))
            &&& ({
                let g = bad_ix(strip_pad(s)) / 4;
                a == s[4 * g] && b == s[4 * g + 1] && c == s[4 * g + 2] && d == s[4 * g + 3]
            })
        },
        _ => false,
    }
}

/// Encode `input` into a freshly allocated string.
pub fn encode(input: &[u8]) -> (s: String)
    requires
        encode_len_spec(input@.len() as int) <= usize::MAX,
    ensures
        s@ == ascii_view(encode_spec(input@)),
{
    EncodeOptions::default().encode(input)
}

/// Encode `input` into the front of `output`; see
/// [`EncodeOptions::encode_mut`].
pub fn encode_mut(input: &[u8], output: &mut [u8]) -> (r: Result<usize, CodecError>)
    requires
        encode_len_spec(input@.len() as int) <= usize::MAX,
    ensures
        ({
            match r {
                Ok(n) => {
                    &&& n == encode_len_spec(input@.len() as int)
                    &&& n <= old(output)@.len()
                    &&& seq_written(old(output)@, final(output)@, 0, encode_spec(input@))
                },
                Err(e) => final(output)@ == old(output)@ && match e {
                    CodecError::OutputLengthTooShort(got, need) => {
                        &&& got == old(output)@.len()
                        &&& need == encode_len_spec(input@.len() as int)
                        &&& got < need
                    },
                    _ => false,
                },
            }
        }),
{
    EncodeOptions::default().encode_mut(input, output)
}

/// Decode `input` into a freshly allocated buffer; see
/// [`DecodeOptions::decode`].
pub fn decode(input: &[u8]) -> (r: Result<Vec<u8>, CodecError>)
    ensures
        ({
            let stripped = strip_pad(input@);
            match r {
                Ok(v) => {
                    &&& input@.len() == 0 || (input@.len() >= 4 && input@.len() % 4 == 0)
                    &&& all_b64(stripped)
                    &&& v@ == decode_spec(stripped)
                },
                Err(e) => decode_err_claim(input@, e),
            }
        }),
{
    DecodeOptions::default().decode(input)
}

/// Decode `input` into the front of `output`; see
/// [`DecodeOptions::decode_mut`].
pub fn decode_mut(input: &[u8], output: &mut [u8]) -> (r: Result<usize, CodecError>)
    ensures
        ({
            let stripped = strip_pad(input@);
            match r {
                Ok(n) => {
                    &&& input@.len() == 0 || (input@.len() >= 4 && input@.len() % 4 == 0)
                    &&& all_b64(stripped)
                    &&& n == decode_spec(stripped).len()
                    &&& seq_written(old(output)@, final(output)@, 0, decode_spec(stripped))
                },
                Err(e) => final(output)@.len() == old(output)@.len() && match e {
                    CodecError::OutputLengthTooShort(got, need) => {
                        &&& got == old(output)@.len()
                        &&& need == decode_len_spec(input@.len() as int)
                        &&& got < need
                        &&& final(output)@ == old(output)@
                    },
                    _ => decode_err_claim(input@, e),
                },
            }
        }),
{
    DecodeOptions::default().decode_mut(input, output)
}

} // verus!
