//! Buffer-based codecs: a fixed-size fill buffer and a family of encoders
//! that write into it, each proved against the same encoding model as the
//! slice-based entry points.

use vstd::prelude::*;

use crate::model::{encode_len_spec, encode_spec};

pub mod fairy;
pub mod sponge;
pub mod vanilla;

verus! {

/// Length of the fixed internal buffer; divisible by 3 so that triplet
/// boundaries line up when a full buffer is encoded.
const BUF_LEN: usize = 1024;

/// The error type of the buffer-based codecs.
#[derive(Debug, PartialEq, Eq, Structural)]
pub enum CodecError {
    /// The fixed buffer cannot take what is being appended.
    BufferOverflow,
    /// Reserved for adapters around the codecs; the codecs themselves never
    /// produce it.
    Unknown,
}

/// A fixed-size byte buffer filled from the front; what has been written so
/// far is its view.
pub struct CodecBuf {
    buf: [u8; 1024],
    buf_pos: usize,
}

impl View for CodecBuf {
    type V = Seq<u8>;

    closed spec fn view(&self) -> Seq<u8> {
        self.buf@.take(self.buf_pos as int)
    }
}

/// The chunking of `s` into pieces of `cs` bytes each, the last piece
/// possibly shorter.
pub open spec fn chunks_of(s: Seq<u8>, cs: int) -> Seq<Seq<u8>>
    decreases s.len(),
{
    if s.len() == 0 || cs <= 0 {
        Seq::empty()
    } else if s.len() <= cs {
        seq![s]
    } else {
        seq![s.take(cs)] + chunks_of(s.skip(cs), cs)
    }
}

impl CodecBuf {
    /// The fill position never passes the end of the fixed buffer.
    pub closed spec fn wf(&self) -> bool {
        self.buf_pos <= 1024
    }

    /// A fresh, empty buffer.
    pub fn new() -> (r: Self)
        ensures
            r.wf(),
            r@ == Seq::<u8>::empty(),
    {
        let r = CodecBuf { buf: [0u8; 1024], buf_pos: 0 };
        proof {
            assert(r@ =~= Seq::<u8>::empty());
        }
        r
    }

    /// Append one byte; `BufferOverflow`, with the buffer unchanged, when
    /// it is already full.
    pub fn push(&mut self, val: u8) -> (r: Result<(), CodecError>)
        requires
            old(self).wf(),
        ensures
            final(self).wf(),
            r is Ok <==> old(self)@.len() < 1024,
            r is Ok ==> final(self)@ == old(self)@.push(val),
            r is Err ==> *final(self) == *old(self) && r == Err::<(), CodecError>(
                CodecError::BufferOverflow,
            ),
    {
        if self.buf_pos >= BUF_LEN {
            return Err(CodecError::BufferOverflow);
        }
        self.buf[self.buf_pos] = val;
        self.buf_pos = self.buf_pos + 1;
        proof {
            assert(self@ =~= old(self)@.push(val));
        }
        Ok(())
    }

    /// Append a whole slice; `BufferOverflow`, with the buffer unchanged,
    /// when the slice does not fit below the last byte of the buffer.
    pub fn extend_by_slice(&mut self, slice: &[u8]) -> (r: Result<(), CodecError>)
        requires
            old(self).wf(),
        ensures
            final(self).wf(),
            r is Ok <==> old(self)@.len() + slice@.len() < 1024,
            r is Ok ==> final(self)@ == old(self)@ + slice@,
            r is Err ==> *final(self) == *old(self) && r == Err::<(), CodecError>(
                CodecError::BufferOverflow,
            ),
    {
        let n = slice.len();
        if n >= BUF_LEN - self.buf_pos {
            return Err(CodecError::BufferOverflow);
        }
        let pos = self.buf_pos;
        let mut j: usize = 0;
        while j < n
            invariant
                j <= n,
                n == slice@.len(),
                pos == self.buf_pos == old(self).buf_pos,
                pos + n < 1024,
                self.buf@.len() == 1024,
                old(self).buf@.len() == 1024,
                forall|k: int|
                    0 <= k < 1024 && !(pos <= k < pos + j) ==> self.buf@[k] == old(
                        self,
                    ).buf@[k],
                forall|k: int| 0 <= k < j ==> self.buf@[pos + k] == slice@[k],
            decreases n - j,
        {
            self.buf[pos + j] = slice[j];
            j = j + 1;
        }
        self.buf_pos = pos + n;
        proof {
            assert(self@ =~= old(self)@ + slice@);
        }
        Ok(())
    }

    /// The contents cut into pieces of `chunk_size` bytes, in order, the
    /// last piece possibly shorter.
    pub fn chunks(&self, chunk_size: usize) -> (r: Vec<Vec<u8>>)
        requires
            self.wf(),
            chunk_size > 0,
        ensures
            r.deep_view() == chunks_of(self@, chunk_size as int),
    {
        let mut r: Vec<Vec<u8>> = Vec::new();
        let n = self.buf_pos;
        proof {
            assert(r.deep_view() =~= Seq::<Seq<u8>>::empty());
            assert(self@.skip(0) =~= self@);
            assert(r.deep_view() + chunks_of(self@, chunk_size as int) =~= chunks_of(
                self@,
                chunk_size as int,
            ));
        }
        let mut i: usize = 0;
        while i < n
            invariant
                self.wf(),
                i <= n,
                n == self.buf_pos,
                chunk_size > 0,
                chunks_of(self@, chunk_size as int) == r.deep_view() + chunks_of(
                    self@.skip(i as int),
                    chunk_size as int,
                ),
            decreases n - i,
        {
            let take = if n - i < chunk_size {
                n - i
            } else {
                chunk_size
            };
            let mut piece: Vec<u8> = Vec::new();
            let mut j: usize = 0;
            while j < take
                invariant
                    j <= take,
                    i + take <= n <= 1024,
                    n == self.buf_pos,
                    self.wf(),
                    piece@.len() == j,
                    forall|k: int| 0 <= k < j ==> piece@[k] == self@[i + k],
                decreases take - j,
            {
                piece.push(self.buf[i + j]);
                proof {
                    assert(self@[i as int + j as int] == self.buf@[i as int + j as int]);
                }
                j = j + 1;
            }
            proof {
                let rest = self@.skip(i as int);
                assert(piece.deep_view() =~= piece@);
                if rest.len() <= chunk_size {
                    assert(piece@ =~= rest);
                    assert(self@.skip(i as int + take as int) =~= Seq::<u8>::empty());
                    assert(chunks_of(rest, chunk_size as int) =~= seq![piece@] + chunks_of(
                        self@.skip(i as int + take as int),
                        chunk_size as int,
                    ));
                } else {
                    assert(piece@ =~= rest.take(chunk_size as int));
                    assert(rest.skip(chunk_size as int) =~= self@.skip(i as int + take as int));
                    assert(chunks_of(rest, chunk_size as int) =~= seq![piece@] + chunks_of(
                        self@.skip(i as int + take as int),
                        chunk_size as int,
                    ));
                }
                assert(r.deep_view().push(piece@) + chunks_of(
                    self@.skip(i as int + take as int),
                    chunk_size as int,
                ) =~= r.deep_view() + chunks_of(self@.skip(i as int), chunk_size as int));
            }
            let ghost prev = r.deep_view();
            r.push(piece);
            proof {
                assert(r.deep_view() =~= prev.push(piece.deep_view()));
            }
            i = i + take;
        }
        proof {
            assert(self@.skip(i as int) =~= Seq::<u8>::empty());
            assert(r.deep_view() =~= chunks_of(self@, chunk_size as int));
        }
        r
    }

    /// Overwrite the front of the buffer with `slice` and set the fill
    /// position to its length; the slice must fit the buffer.
    pub fn copy_from_slice(&mut self, slice: &[u8])
        requires
            old(self).wf(),
            slice@.len() <= 1024,
        ensures
            final(self).wf(),
            final(self)@ == slice@,
    {
        let n = slice.len();
        let mut j: usize = 0;
        while j < n
            invariant
                j <= n,
                n == slice@.len() <= 1024,
                self.buf@.len() == 1024,
                forall|k: int| 0 <= k < j ==> self.buf@[k] == slice@[k],
            decreases n - j,
        {
            self.buf[j] = slice[j];
            j = j + 1;
        }
        self.buf_pos = n;
        proof {
            assert(self@ =~= slice@);
        }
    }

    /// Empty the buffer.
    pub fn clear(&mut self)
        requires
            old(self).wf(),
        ensures
            final(self).wf(),
            final(self)@ == Seq::<u8>::empty(),
    {
        self.buf_pos = 0;
        proof {
            assert(self@ =~= Seq::<u8>::empty());
        }
    }

    /// How many bytes the buffer holds.
    pub fn len(&self) -> (n: usize)
        requires
            self.wf(),
        ensures
            n == self@.len(),
    {
        self.buf_pos
    }

    /// The bytes written so far, as a slice.
    pub fn as_bytes(&self) -> (r: &[u8])
        requires
            self.wf(),
        ensures
            r@ == self@,
    {
        let s = self.buf.as_slice();
        let r = &s[0..self.buf_pos];
        proof {
            assert(r@ =~= self@);
        }
        r
    }
}

/// A well-formed buffer holds at most its fixed capacity.
pub proof fn lemma_wf_len(b: &CodecBuf)
    requires
        b.wf(),
    ensures
        b@.len() <= 1024,
{
}

/// Buffer-to-buffer encoders. Every implementation appends exactly the
/// base64 encoding of the input buffer's contents to the output buffer, and
/// succeeds whenever the output buffer has room below its last byte.
pub trait Codec {
    /// Append the encoding of `input`'s contents to `output`. `input` is
    /// only read. `BufferOverflow` when `output` cannot take the whole
    /// encoding; the output buffer may then hold part of it.
    fn encode_buf(&self, input: &mut CodecBuf, output: &mut CodecBuf) -> (r: Result<
        (),
        CodecError,
    >)
        requires
            old(input).wf(),
            old(output).wf(),
        ensures
            final(input).wf(),
            final(output).wf(),
            *final(input) == *old(input),
            r is Ok ==> final(output)@ == old(output)@ + encode_spec(old(input)@),
            old(output)@.len() + encode_len_spec(old(input)@.len() as int) < 1024 ==> r is Ok,
            r is Err ==> r == Err::<(), CodecError>(CodecError::BufferOverflow),
    ;
}

} // verus!
