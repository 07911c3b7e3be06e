//! The portable codec. The encoder walks the input in 24-byte blocks of
//! eight independent triplet conversions — the shape a vectorizing compiler
//! turns into wide stores — and hands any shorter tail to a scalar loop that
//! closes the final quartet with padding. The decoder is the exact scalar
//! reference: it folds the four table lookups of each quartet together with
//! a single OR and compares once against the sentinel to detect any byte
//! outside the alphabet.

use vstd::prelude::*;

use crate::alphabet::{b64_char, d0, d1, d2, d3, is_b64, BADCHAR, PAD};
use crate::alphabet::{lemma_or_keeps_sentinel, lemma_quartet_pack, lemma_val_of_char, val_of};
use crate::model::{
    all_b64, bad_ix, dec4, dec_b0, dec_b1, dec_b2, decode_len_spec, decode_spec, enc3,
    encode_len_spec, encode_spec, lemma_bad_ix, lemma_decode_len_step,
    lemma_decode_spec_decompose, lemma_decode_spec_len, lemma_decode_spec_step,
    lemma_encode_len_add, lemma_encode_len_mono, lemma_encode_len_step,
    lemma_encode_spec_decompose, lemma_encode_spec_len, lemma_encode_spec_step, seq_written,
    strip_pad,
};
use crate::CodecError;

verus! {

/// Encode the full 24-byte block of `src` at `src_i` into 32 characters of
/// `dest` at `dest_i`: eight triplet-to-quartet conversions with no
/// dependence between iterations.
fn encode_block(src: &[u8], src_i: usize, dest: &mut [u8], dest_i: usize)
    requires
        src_i + 24 <= src@.len(),
        dest_i + 32 <= old(dest)@.len(),
    ensures
        seq_written(
            old(dest)@,
            final(dest)@,
            dest_i as int,
            encode_spec(src@.subrange(src_i as int, src_i as int + 24)),
        ),
{
    let ghost blk = src@.subrange(src_i as int, src_i as int + 24);
    let src_len = src.len();
    let dest_len = dest.len();
    proof {
        assert(blk.take(0) =~= Seq::<u8>::empty());
        assert(dest@.subrange(dest_i as int, dest_i as int) =~= Seq::<u8>::empty());
    }
    let mut v: usize = 0;
    while v < 8
        invariant
            src_i + 24 <= src@.len(),
            dest_i + 32 <= old(dest)@.len(),
            src@.len() == src_len,
            old(dest)@.len() == dest_len,
            v <= 8,
            blk == src@.subrange(src_i as int, src_i as int + 24),
            encode_spec(blk.take(3 * v as int)).len() == 4 * v as int,
            seq_written(old(dest)@, dest@, dest_i as int, encode_spec(blk.take(3 * v as int))),
        decreases 8 - v,
    {
        proof {
            lemma_encode_len_step(3 * v as int);
            lemma_encode_len_add(3 * v as int, 3);
            lemma_encode_spec_len(blk.take(3 * v as int + 3));
            lemma_encode_spec_step(blk, 3 * v as int);
        }
        let i = src_i + v * 3;
        let o = dest_i + v * 4;
        let t1 = src[i];
        let t2 = src[i + 1];
        let t3 = src[i + 2];
        dest[o] = b64_char(t1 >> 2u8);
        dest[o + 1] = b64_char(((t1 & 0x03) << 4u8) | ((t2 >> 4u8) & 0x0F));
        dest[o + 2] = b64_char(((t2 & 0x0F) << 2u8) | ((t3 >> 6u8) & 0x03));
        dest[o + 3] = b64_char(t3 & 0x3F);
        proof {
            assert(blk[3 * v as int] == t1 && blk[3 * v as int + 1] == t2 && blk[3 * v as int + 2]
                == t3);
            assert(dest@.subrange(dest_i as int, dest_i as int + 4 * v as int + 4)
                =~= encode_spec(blk.take(3 * v as int)) + enc3(t1, t2, t3));
        }
        v = v + 1;
    }
    proof {
        assert(blk.take(24) =~= blk);
    }
}

/// The scalar reference encoder: consume `src` from `src_i` to its end in
/// triplets, then close a one- or two-byte tail as a quartet padded with
/// `=`. Returns the number of characters written at `dest_i`.
fn encode_tail(src: &[u8], src_i: usize, dest: &mut [u8], dest_i: usize) -> (n: usize)
    requires
        src_i <= src@.len(),
        dest_i + encode_len_spec(src@.len() - src_i) <= old(dest)@.len(),
    ensures
        n == encode_len_spec(src@.len() - src_i),
        seq_written(
            old(dest)@,
            final(dest)@,
            dest_i as int,
            encode_spec(src@.skip(src_i as int)),
        ),
{
    let ghost rem = src@.skip(src_i as int);
    let src_len = src.len();
    let dest_len = dest.len();
    proof {
        lemma_encode_len_mono(0, src@.len() - src_i);
        assert(rem.take(0) =~= Seq::<u8>::empty());
        assert(dest@.subrange(dest_i as int, dest_i as int) =~= Seq::<u8>::empty());
    }
    let mut i = src_i;
    let mut o = dest_i;
    while src_len - i >= 3
        invariant
            src_i <= i <= src@.len(),
            src@.len() == src_len,
            old(dest)@.len() == dest_len,
            (i - src_i) % 3 == 0,
            rem == src@.skip(src_i as int),
            o == dest_i + encode_len_spec(i - src_i),
            dest_i + encode_len_spec(src@.len() - src_i) <= old(dest)@.len(),
            encode_spec(rem.take(i - src_i)).len() == o - dest_i,
            seq_written(old(dest)@, dest@, dest_i as int, encode_spec(rem.take(i - src_i))),
        decreases src@.len() - i,
    {
        proof {
            lemma_encode_len_step(i - src_i);
            lemma_encode_len_add(i - src_i, 3);
            lemma_encode_len_mono(i + 3 - src_i, src@.len() - src_i);
            lemma_encode_spec_len(rem.take(i - src_i + 3));
            lemma_encode_spec_step(rem, i - src_i);
        }
        let t1 = src[i];
        let t2 = src[i + 1];
        let t3 = src[i + 2];
        dest[o] = b64_char(t1 >> 2u8);
        dest[o + 1] = b64_char(((t1 & 0x03) << 4u8) | ((t2 >> 4u8) & 0x0F));
        dest[o + 2] = b64_char(((t2 & 0x0F) << 2u8) | ((t3 >> 6u8) & 0x03));
        dest[o + 3] = b64_char(t3 & 0x3F);
        proof {
            assert(rem[i - src_i] == t1 && rem[i - src_i + 1] == t2 && rem[i - src_i + 2] == t3);
            assert(dest@.subrange(dest_i as int, o as int + 4) =~= encode_spec(
                rem.take(i - src_i),
            ) + enc3(t1, t2, t3));
        }
        i = i + 3;
        o = o + 4;
    }
    let rem_n = src.len() - i;
    proof {
        lemma_encode_len_step(i - src_i);
        lemma_encode_len_add(i - src_i, rem.len() - (i - src_i));
        lemma_encode_spec_decompose(rem, i - src_i);
        lemma_encode_spec_len(rem);
    }
    if rem_n == 1 {
        let t1 = src[i];
        dest[o] = b64_char(t1 >> 2u8);
        dest[o + 1] = b64_char((t1 & 0x03) << 4u8);
        dest[o + 2] = PAD;
        dest[o + 3] = PAD;
        proof {
            assert(rem.skip(i - src_i) =~= seq![t1]);
            assert(dest@.subrange(dest_i as int, o as int + 4) =~= encode_spec(
                rem.take(i - src_i),
            ) + encode_spec(rem.skip(i - src_i)));
        }
        o + 4 - dest_i
    } else if rem_n == 2 {
        let t1 = src[i];
        let t2 = src[i + 1];
        dest[o] = b64_char(t1 >> 2u8);
        dest[o + 1] = b64_char(((t1 & 0x03) << 4u8) | ((t2 >> 4u8) & 0x0F));
        dest[o + 2] = b64_char((t2 & 0x0F) << 2u8);
        dest[o + 3] = PAD;
        proof {
            assert(rem.skip(i - src_i) =~= seq![t1, t2]);
            assert(dest@.subrange(dest_i as int, o as int + 4) =~= encode_spec(
                rem.take(i - src_i),
            ) + encode_spec(rem.skip(i - src_i)));
        }
        o + 4 - dest_i
    } else {
        proof {
            assert(rem.take(i - src_i) =~= rem);
        }
        o - dest_i
    }
}

/// Encode `src` into `dest`, full 24-byte blocks first and the remainder
/// through the scalar tail. Returns the number of characters written, which
/// is always the encoded length of `src`; the caller sizes `dest` to at
/// least that many bytes, and bytes past it are not touched.
pub fn encode(src: &[u8], dest: &mut [u8]) -> (n: usize)
    requires
        encode_len_spec(src@.len() as int) <= old(dest)@.len(),
    ensures
        n == encode_len_spec(src@.len() as int),
        seq_written(old(dest)@, final(dest)@, 0, encode_spec(src@)),
{
    let src_len = src.len();
    let dest_len = dest.len();
    proof {
        assert(src@.take(0) =~= Seq::<u8>::empty());
        assert(dest@.subrange(0, 0) =~= Seq::<u8>::empty());
    }
    let mut src_i: usize = 0;
    let mut dest_i: usize = 0;
    while src_len - src_i >= 24
        invariant
            src_i <= src@.len(),
            src@.len() == src_len,
            old(dest)@.len() == dest_len,
            src_i % 3 == 0,
            dest_i == encode_len_spec(src_i as int),
            encode_len_spec(src@.len() as int) <= old(dest)@.len(),
            encode_spec(src@.take(src_i as int)).len() == dest_i,
            seq_written(old(dest)@, dest@, 0, encode_spec(src@.take(src_i as int))),
        decreases src@.len() - src_i,
    {
        proof {
            lemma_encode_len_add(src_i as int, 24);
            lemma_encode_len_add(src_i as int + 24, src@.len() - src_i - 24);
            lemma_encode_spec_len(src@.take(src_i as int + 24));
        }
        let ghost pre = dest@;
        encode_block(src, src_i, dest, dest_i);
        proof {
            lemma_encode_spec_decompose(src@.take(src_i as int + 24), src_i as int);
            assert(src@.take(src_i as int + 24).take(src_i as int) =~= src@.take(src_i as int));
            assert(src@.take(src_i as int + 24).skip(src_i as int) =~= src@.subrange(
                src_i as int,
                src_i as int + 24,
            ));
            assert(dest@.subrange(0, dest_i as int + 32) =~= encode_spec(
                src@.take(src_i as int + 24),
            ));
        }
        src_i = src_i + 24;
        dest_i = dest_i + 32;
    }
    proof {
        lemma_encode_len_add(src_i as int, src@.len() - src_i);
    }
    let ghost pre_tail = dest@;
    let n_tail = encode_tail(src, src_i, dest, dest_i);
    proof {
        lemma_encode_spec_decompose(src@, src_i as int);
        lemma_encode_spec_len(src@.skip(src_i as int));
        assert(dest@.subrange(0, dest_i as int + n_tail as int) =~= encode_spec(src@.take(
            src_i as int,
        )) + encode_spec(src@.skip(src_i as int)));
    }
    dest_i + n_tail
}

/// Decode one quartet of characters into three bytes. The four table
/// entries are folded with OR and compared once against the sentinel: the
/// comparison fails exactly when some character is outside the alphabet,
/// and the error then names the whole quartet.
fn decode_quartet(c0: u8, c1: u8, c2: u8, c3: u8) -> (r: Result<(u8, u8, u8), CodecError>)
    ensures
        r is Ok <==> (is_b64(c0) && is_b64(c1) && is_b64(c2) && is_b64(c3)),
        r matches Ok(t) ==> t.0 == dec_b0(c0, c1) && t.1 == dec_b1(c1, c2) && t.2 == dec_b2(
            c2,
            c3,
        ),
        r matches Err(e) ==> e == CodecError::InvalidInput(c0, c1, c2, c3),
{
    let e0 = d0(c0);
    let e1 = d1(c1);
    let e2 = d2(c2);
    let e3 = d3(c3);
    let x = ((e0 | e1) | e2) | e3;
    proof {
        lemma_or_keeps_sentinel(e0, e1);
        lemma_or_keeps_sentinel(e0 | e1, e2);
        lemma_or_keeps_sentinel((e0 | e1) | e2, e3);
        if is_b64(c0) && is_b64(c1) && is_b64(c2) && is_b64(c3) {
            lemma_val_of_char(c0);
            lemma_val_of_char(c1);
            lemma_val_of_char(c2);
            lemma_val_of_char(c3);
            lemma_quartet_pack(val_of(c0), val_of(c1), val_of(c2), val_of(c3));
        }
    }
    if x >= BADCHAR {
        Err(CodecError::InvalidInput(c0, c1, c2, c3))
    } else {
        Ok(((x & 0xFF) as u8, ((x >> 8u32) & 0xFF) as u8, ((x >> 16u32) & 0xFF) as u8))
    }
}

/// Decode `src` into `dest`: strip at most two trailing `=`, walk the
/// remaining characters a quartet at a time through the OR-and-compare
/// check, and close with the one- or two-byte tail a padded final quartet
/// leaves. Returns the number of bytes written; the caller sizes `dest` to
/// at least `decode_len` of the input, and bytes past the result are not
/// touched. The first quartet holding a byte outside the alphabet is
/// reported as `InvalidInput`; a length that is neither zero nor a positive
/// multiple of four as `InputModError`.
#[verifier::rlimit(50)]
pub fn decode(src: &[u8], dest: &mut [u8]) -> (r: Result<usize, CodecError>)
    requires
        decode_len_spec(src@.len() as int) <= old(dest)@.len(),
    ensures
        ({
            let stripped = strip_pad(src@);
            match r {
                Ok(n) => {
                    &&& src@.len() == 0 || (src@.len() >= 4 && src@.len() % 4 == 0)
                    &&& all_b64(stripped)
                    &&& n == decode_spec(stripped).len()
                    &&& n <= old(dest)@.len()
                    &&& seq_written(old(dest)@, final(dest)@, 0, decode_spec(stripped))
                },
                Err(e) => final(dest)@.len() == old(dest)@.len() && match e {
                    CodecError::InputModError(l) => l == src@.len() && src@.len() > 0 && (
                    src@.len() < 4 || src@.len() % 4 != 0),
                    CodecError::InvalidInput(a, b, c, d) => {
                        &&& src@.len() >= 4
                        &&& src@.len() % 4 == 0
                        &&& !all_b64(stripped)
                        &&& ({
                            let g = bad_ix(stripped) / 4;
                            a == src@[4 * g] && b == src@[4 * g + 1] && c == src@[4 * g + 2]
                                && d == src@[4 * g + 3]
                        })
                    },
                    _ => false,
                },
            }
        }),
{
    let src_len = src.len();
    let dest_len = dest.len();
    if src_len == 0 {
        proof {
            assert(strip_pad(src@) =~= src@);
            assert(dest@.subrange(0, 0) =~= Seq::<u8>::empty());
        }
        return Ok(0);
    }
    if src_len < 4 || src_len % 4 != 0 {
        return Err(CodecError::InputModError(src_len));
    }
    let stripped_len = if src[src_len - 1] == PAD {
        if src[src_len - 2] == PAD {
            src_len - 2
        } else {
            src_len - 1
        }
    } else {
        src_len
    };
    let ghost stripped = strip_pad(src@);
    proof {
        assert(stripped =~= src@.take(stripped_len as int));
        assert(stripped.take(0) =~= Seq::<u8>::empty());
        assert(dest@.subrange(0, 0) =~= Seq::<u8>::empty());
    }
    let mut i: usize = 0;
    let mut o: usize = 0;
    while stripped_len - i >= 4
        invariant
            i <= stripped_len <= src@.len(),
            src@.len() == src_len,
            old(dest)@.len() == dest_len,
            decode_len_spec(src_len as int) <= dest_len,
            i % 4 == 0,
            src_len % 4 == 0,
            4 <= src_len,
            src_len - 2 <= stripped_len,
            stripped == strip_pad(src@),
            stripped =~= src@.take(stripped_len as int),
            o == i / 4 * 3,
            all_b64(stripped.take(i as int)),
            decode_spec(stripped.take(i as int)).len() == o,
            seq_written(old(dest)@, dest@, 0, decode_spec(stripped.take(i as int))),
        decreases stripped_len - i,
    {
        proof {
            lemma_decode_len_step(i as int, src_len as int);
            lemma_decode_spec_len(stripped.take(i as int + 4));
            lemma_decode_spec_step(stripped, i as int);
        }
        let c0 = src[i];
        let c1 = src[i + 1];
        let c2 = src[i + 2];
        let c3 = src[i + 3];
        proof {
            assert(stripped[i as int] == c0 && stripped[i as int + 1] == c1 && stripped[i as int
                + 2] == c2 && stripped[i as int + 3] == c3);
        }
        match decode_quartet(c0, c1, c2, c3) {
            Ok(t) => {
                dest[o] = t.0;
                dest[o + 1] = t.1;
                dest[o + 2] = t.2;
                proof {
                    assert(dest@.subrange(0, o as int + 3) =~= decode_spec(
                        stripped.take(i as int),
                    ) + dec4(c0, c1, c2, c3));
                    assert forall|j: int| 0 <= j < i + 4 implies is_b64(
                        #[trigger] stripped.take(i as int + 4)[j],
                    ) by {
                        if j < i {
                            assert(stripped.take(i as int)[j] == stripped.take(i as int + 4)[j]);
                        }
                    };
                }
                i = i + 4;
                o = o + 3;
            },
            Err(e) => {
                proof {
                    assert(!is_b64(c0) || !is_b64(c1) || !is_b64(c2) || !is_b64(c3));
                    assert(!all_b64(stripped));
                    lemma_bad_ix(stripped);
                    assert forall|j: int| 0 <= j < i implies is_b64(#[trigger] stripped[j]) by {
                        assert(stripped.take(i as int)[j] == stripped[j]);
                    };
                    assert(i <= bad_ix(stripped) < i + 4);
                    assert(bad_ix(stripped) / 4 == i as int / 4) by {
                        vstd::arithmetic::div_mod::lemma_fundamental_div_mod(i as int, 4);
                        vstd::arithmetic::div_mod::lemma_fundamental_div_mod(
                            bad_ix(stripped),
                            4,
                        );
                    };
                    assert(4 * (i as int / 4) == i as int) by {
                        vstd::arithmetic::div_mod::lemma_fundamental_div_mod(i as int, 4);
                    };
                }
                return Err(e);
            },
        }
    }
    let rem_n = stripped_len - i;
    proof {
        vstd::arithmetic::div_mod::lemma_fundamental_div_mod(i as int, 4);
        vstd::arithmetic::div_mod::lemma_fundamental_div_mod(stripped_len as int, 4);
        vstd::arithmetic::div_mod::lemma_fundamental_div_mod(src_len as int, 4);
        assert(rem_n != 1);
        lemma_decode_spec_decompose(stripped, i as int);
        lemma_decode_spec_len(stripped);
        lemma_decode_spec_len(stripped.take(i as int));
    }
    if rem_n == 0 {
        proof {
            assert(stripped.take(i as int) =~= stripped);
        }
        Ok(o)
    } else {
        let c0 = src[i];
        let c1 = src[i + 1];
        proof {
            assert(stripped[i as int] == c0 && stripped[i as int + 1] == c1);
            assert(i + 4 == src_len);
        }
        let e0 = d0(c0);
        let e1 = d1(c1);
        if rem_n == 2 {
            let x = e0 | e1;
            proof {
                lemma_or_keeps_sentinel(e0, e1);
                if is_b64(c0) && is_b64(c1) {
                    lemma_val_of_char(c0);
                    lemma_val_of_char(c1);
                    lemma_quartet_pack(val_of(c0), val_of(c1), 0, 0);
                }
            }
            if x >= BADCHAR {
                proof {
                    assert(!all_b64(stripped));
                    lemma_bad_ix(stripped);
                    assert forall|j: int| 0 <= j < i implies is_b64(#[trigger] stripped[j]) by {
                        assert(stripped.take(i as int)[j] == stripped[j]);
                    };
                    assert(i <= bad_ix(stripped) < i + 2);
                    assert(bad_ix(stripped) / 4 == i as int / 4 && 4 * (i as int / 4)
                        == i as int) by {
                        vstd::arithmetic::div_mod::lemma_fundamental_div_mod(i as int, 4);
                        vstd::arithmetic::div_mod::lemma_fundamental_div_mod(
                            bad_ix(stripped),
                            4,
                        );
                    };
                }
                return Err(CodecError::InvalidInput(c0, c1, src[i + 2], src[i + 3]));
            }
            dest[o] = #[verifier::truncate] (x as u8);
            proof {
                assert(stripped.skip(i as int) =~= seq![c0, c1]);
                assert(dest@.subrange(0, o as int + 1) =~= decode_spec(stripped.take(i as int))
                    + decode_spec(stripped.skip(i as int)));
                assert forall|j: int| 0 <= j < stripped.len() implies is_b64(
                    #[trigger] stripped[j],
                ) by {
                    if j < i {
                        assert(stripped.take(i as int)[j] == stripped[j]);
                    }
                };
            }
            Ok(o + 1)
        } else {
            let c2 = src[i + 2];
            let e2 = d2(c2);
            let x = (e0 | e1) | e2;
            proof {
                assert(stripped[i as int + 2] == c2);
                lemma_or_keeps_sentinel(e0, e1);
                lemma_or_keeps_sentinel(e0 | e1, e2);
                if is_b64(c0) && is_b64(c1) && is_b64(c2) {
                    lemma_val_of_char(c0);
                    lemma_val_of_char(c1);
                    lemma_val_of_char(c2);
                    lemma_quartet_pack(val_of(c0), val_of(c1), val_of(c2), 0);
                }
            }
            if x >= BADCHAR {
                proof {
                    assert(!all_b64(stripped));
                    lemma_bad_ix(stripped);
                    assert forall|j: int| 0 <= j < i implies is_b64(#[trigger] stripped[j]) by {
                        assert(stripped.take(i as int)[j] == stripped[j]);
                    };
                    assert(i <= bad_ix(stripped) < i + 3);
                    assert(bad_ix(stripped) / 4 == i as int / 4 && 4 * (i as int / 4)
                        == i as int) by {
                        vstd::arithmetic::div_mod::lemma_fundamental_div_mod(i as int, 4);
                        vstd::arithmetic::div_mod::lemma_fundamental_div_mod(
                            bad_ix(stripped),
                            4,
                        );
                    };
                }
                return Err(CodecError::InvalidInput(c0, c1, c2, src[i + 3]));
            }
            dest[o] = (x & 0xFF) as u8;
            dest[o + 1] = ((x >> 8u32) & 0xFF) as u8;
            proof {
                assert(stripped.skip(i as int) =~= seq![c0, c1, c2]);
                assert(dest@.subrange(0, o as int + 2) =~= decode_spec(stripped.take(i as int))
                    + decode_spec(stripped.skip(i as int)));
                assert forall|j: int| 0 <= j < stripped.len() implies is_b64(
                    #[trigger] stripped[j],
                ) by {
                    if j < i {
                        assert(stripped.take(i as int)[j] == stripped[j]);
                    }
                };
            }
            Ok(o + 2)
        }
    }
}

} // verus!
