//! The mathematical model of the codec: what the encoding and the decoding
//! of a byte sequence are, and the laws the executable codecs are proved
//! against.

use vstd::prelude::*;

use crate::alphabet::{
    char_of, is_b64, lemma_char_of_val, lemma_triplet_fields, val_of, PAD,
};

verus! {

/// Length of the encoding of `n` input bytes: four characters for every
/// three bytes, and one final padded quartet for a short tail.
pub open spec fn encode_len_spec(n: int) -> int {
    if n % 3 == 0 {
        n / 3 * 4
    } else {
        n / 3 * 4 + 4
    }
}

/// Upper bound on the decoded length of `m` encoded characters, before the
/// final padding is known: three bytes for every quartet.
pub open spec fn decode_len_spec(m: int) -> int {
    m / 4 * 3
}

/// One encoding step lengthens the output by exactly one quartet, whether
/// the step consumes a full triplet or a final short group.
pub proof fn lemma_encode_len_step(k: int)
    requires
        0 <= k,
        k % 3 == 0,
    ensures
        encode_len_spec(k) == k / 3 * 4,
        encode_len_spec(k + 1) == encode_len_spec(k) + 4,
        encode_len_spec(k + 2) == encode_len_spec(k) + 4,
        encode_len_spec(k + 3) == encode_len_spec(k) + 4,
{
    vstd::arithmetic::div_mod::lemma_fundamental_div_mod(k, 3);
    vstd::arithmetic::div_mod::lemma_fundamental_div_mod(k + 1, 3);
    vstd::arithmetic::div_mod::lemma_fundamental_div_mod(k + 2, 3);
    vstd::arithmetic::div_mod::lemma_fundamental_div_mod(k + 3, 3);
}

/// Encoded lengths add across a split at a triplet boundary: only the last
/// part can carry padding.
pub proof fn lemma_encode_len_add(k: int, m: int)
    requires
        0 <= k,
        0 <= m,
        k % 3 == 0,
    ensures
        encode_len_spec(k + m) == encode_len_spec(k) + encode_len_spec(m),
{
    vstd::arithmetic::div_mod::lemma_fundamental_div_mod(k, 3);
    vstd::arithmetic::div_mod::lemma_fundamental_div_mod(m, 3);
    vstd::arithmetic::div_mod::lemma_fundamental_div_mod(k + m, 3);
}

/// The encoded length grows with the input length.
pub proof fn lemma_encode_len_mono(a: int, b: int)
    requires
        0 <= a <= b,
    ensures
        encode_len_spec(a) <= encode_len_spec(b),
{
    vstd::arithmetic::div_mod::lemma_div_is_ordered(a, b, 3);
    vstd::arithmetic::div_mod::lemma_fundamental_div_mod(a, 3);
    vstd::arithmetic::div_mod::lemma_fundamental_div_mod(b, 3);
    if a % 3 != 0 && b % 3 == 0 {
        vstd::arithmetic::div_mod::lemma_div_is_ordered(a, b - 1, 3);
        vstd::arithmetic::div_mod::lemma_fundamental_div_mod(b - 1, 3);
    }
}

/// `post` is `pre` with `data` written at offset `at` and nothing else
/// touched.
pub open spec fn seq_written(pre: Seq<u8>, post: Seq<u8>, at: int, data: Seq<u8>) -> bool {
    &&& post.len() == pre.len()
    &&& post.subrange(at, at + data.len() as int) == data
    &&& forall|i: int|
        0 <= i < pre.len() && !(at <= i < at + data.len()) ==> post[i] == pre[i]
}

/// The four characters that encode one full triplet of bytes.
pub open spec fn enc3(b0: u8, b1: u8, b2: u8) -> Seq<u8> {
    seq![
        char_of(b0 >> 2),
        char_of(((b0 & 0x03) << 4) | ((b1 >> 4) & 0x0F)),
        char_of(((b1 & 0x0F) << 2) | ((b2 >> 6) & 0x03)),
        char_of(b2 & 0x3F),
    ]
}

/// The characters (without padding) that encode a final short group of one,
/// two or three bytes: two, three or four characters.
pub open spec fn enc_partial(s: Seq<u8>) -> Seq<u8> {
    if s.len() >= 3 {
        enc3(s[0], s[1], s[2])
    } else if s.len() == 2 {
        seq![
            char_of(s[0] >> 2),
            char_of(((s[0] & 0x03) << 4) | ((s[1] >> 4) & 0x0F)),
            char_of((s[1] & 0x0F) << 2),
        ]
    } else if s.len() == 1 {
        seq![char_of(s[0] >> 2), char_of((s[0] & 0x03) << 4)]
    } else {
        Seq::empty()
    }
}

/// The padding that completes the final quartet for a tail of `n` bytes.
pub open spec fn pad_of(n: int) -> Seq<u8> {
    if n == 1 {
        seq![PAD, PAD]
    } else {
        seq![PAD]
    }
}

/// The base64 encoding of a byte sequence: full triplets become quartets of
/// alphabet characters, and a trailing short group becomes a quartet closed
/// with `=` padding.
pub open spec fn encode_spec(s: Seq<u8>) -> Seq<u8>
    decreases s.len(),
{
    if s.len() >= 3 {
        enc3(s[0], s[1], s[2]) + encode_spec(s.skip(3))
    } else if s.len() == 0 {
        Seq::empty()
    } else {
        enc_partial(s) + pad_of(s.len() as int)
    }
}

/// The encoding is as long as the length formula says.
pub proof fn lemma_encode_spec_len(s: Seq<u8>)
    ensures
        encode_spec(s).len() == encode_len_spec(s.len() as int),
    decreases s.len(),
{
    if s.len() >= 3 {
        lemma_encode_spec_len(s.skip(3));
    }
}

/// Every byte of an encoding is an alphabet character or the pad, so in
/// particular plain ASCII.
pub proof fn lemma_encode_spec_ascii(s: Seq<u8>)
    ensures
        forall|i: int|
            0 <= i < encode_spec(s).len() ==> (is_b64(#[trigger] encode_spec(s)[i])
                || encode_spec(s)[i] == PAD),
        forall|i: int| 0 <= i < encode_spec(s).len() ==> #[trigger] encode_spec(s)[i] < 128,
    decreases s.len(),
{
    if s.len() >= 3 {
        lemma_encode_spec_len(s.skip(3));
        lemma_encode_spec_ascii(s.skip(3));
    }
}

/// An encoding splits at any triplet boundary: the first `i` input bytes
/// encode to a prefix, independently of the rest.
pub proof fn lemma_encode_spec_decompose(s: Seq<u8>, i: int)
    requires
        0 <= i <= s.len(),
        i % 3 == 0,
    ensures
        encode_spec(s) == encode_spec(s.take(i)) + encode_spec(s.skip(i)),
    decreases i,
{
    if i == 0 {
        assert(s.take(0) =~= Seq::empty());
        assert(s.skip(0) =~= s);
        assert(encode_spec(s.take(0)) =~= Seq::empty());
    } else {
        lemma_encode_spec_decompose(s.skip(3), i - 3);
        assert(s.skip(3).take(i - 3) =~= s.take(i).skip(3));
        assert(s.skip(3).skip(i - 3) =~= s.skip(i));
        assert(s.take(i)[0] == s[0] && s.take(i)[1] == s[1] && s.take(i)[2] == s[2]);
        assert(encode_spec(s.take(i)) == enc3(s[0], s[1], s[2]) + encode_spec(s.take(i).skip(3)));
        assert(encode_spec(s) == enc3(s[0], s[1], s[2]) + encode_spec(s.skip(3)));
        assert(enc3(s[0], s[1], s[2]) + (encode_spec(s.skip(3).take(i - 3)) + encode_spec(
            s.skip(3).skip(i - 3),
        )) =~= (enc3(s[0], s[1], s[2]) + encode_spec(s.skip(3).take(i - 3))) + encode_spec(
            s.skip(3).skip(i - 3),
        ));
    }
}

/// Extending the encoded prefix by one more triplet appends its quartet.
pub proof fn lemma_encode_spec_step(s: Seq<u8>, i: int)
    requires
        0 <= i,
        i % 3 == 0,
        i + 3 <= s.len(),
    ensures
        encode_spec(s.take(i + 3)) == encode_spec(s.take(i)) + enc3(s[i], s[i + 1], s[i + 2]),
    decreases i,
{
    let t = s.take(i + 3);
    lemma_encode_spec_decompose(t, i);
    assert(t.take(i) =~= s.take(i));
    assert(t.skip(i) =~= seq![s[i], s[i + 1], s[i + 2]]);
    let u = t.skip(i);
    assert(encode_spec(u) == enc3(u[0], u[1], u[2]) + encode_spec(u.skip(3)));
    assert(u.skip(3) =~= Seq::empty());
    assert(encode_spec(t.take(i)) + (enc3(s[i], s[i + 1], s[i + 2]) + Seq::empty()) =~= encode_spec(
        s.take(i),
    ) + enc3(s[i], s[i + 1], s[i + 2]));
}

/// A byte sequence read as text, one character per byte; meaningful for
/// ASCII bytes, which is all an encoding contains.
pub open spec fn ascii_view(s: Seq<u8>) -> Seq<char> {
    Seq::new(s.len(), |i: int| s[i] as char)
}

/// First decoded byte of a quartet: all six bits of the first character and
/// the top two of the second.
pub open spec fn dec_b0(c0: u8, c1: u8) -> u8 {
    (val_of(c0) << 2) | (val_of(c1) >> 4)
}

/// Second decoded byte of a quartet: the low four bits of the second
/// character and the top four of the third.
pub open spec fn dec_b1(c1: u8, c2: u8) -> u8 {
    ((val_of(c1) & 0xF) << 4) | (val_of(c2) >> 2)
}

/// Third decoded byte of a quartet: the low two bits of the third character
/// and all six of the fourth.
pub open spec fn dec_b2(c2: u8, c3: u8) -> u8 {
    ((val_of(c2) & 0x3) << 6) | val_of(c3)
}

/// The three bytes decoded from one full quartet.
pub open spec fn dec4(c0: u8, c1: u8, c2: u8, c3: u8) -> Seq<u8> {
    seq![dec_b0(c0, c1), dec_b1(c1, c2), dec_b2(c2, c3)]
}

/// An encoded buffer with its trailing padding removed: at most one pair of
/// `=` or one single `=`, and only at the very end. A pad byte anywhere
/// else stays put and is caught as an invalid character.
pub open spec fn strip_pad(s: Seq<u8>) -> Seq<u8> {
    if s.len() >= 2 && s[s.len() - 2] == PAD && s[s.len() - 1] == PAD {
        s.take(s.len() - 2)
    } else if s.len() >= 1 && s[s.len() - 1] == PAD {
        s.take(s.len() - 1)
    } else {
        s
    }
}

/// Every byte of `s` is an alphabet character.
pub open spec fn all_b64(s: Seq<u8>) -> bool {
    forall|i: int| 0 <= i < s.len() ==> is_b64(#[trigger] s[i])
}

/// The index of the first byte outside the alphabet (the length of `s` if
/// there is none).
pub open spec fn bad_ix(s: Seq<u8>) -> int
    decreases s.len(),
{
    if s.len() == 0 {
        0
    } else if !is_b64(s[0]) {
        0
    } else {
        1 + bad_ix(s.skip(1))
    }
}

/// In a buffer that holds a byte outside the alphabet, `bad_ix` points at
/// the first one.
pub proof fn lemma_bad_ix(s: Seq<u8>)
    requires
        !all_b64(s),
    ensures
        0 <= bad_ix(s) < s.len(),
        !is_b64(s[bad_ix(s)]),
        forall|i: int| 0 <= i < bad_ix(s) ==> is_b64(#[trigger] s[i]),
    decreases s.len(),
{
    let j = choose|j: int| 0 <= j < s.len() && !is_b64(s[j]);
    if is_b64(s[0]) {
        assert(!is_b64(s.skip(1)[j - 1]));
        lemma_bad_ix(s.skip(1));
        assert(s[bad_ix(s)] == s.skip(1)[bad_ix(s.skip(1))]);
        assert forall|i: int| 0 <= i < bad_ix(s) implies is_b64(#[trigger] s[i]) by {
            if i >= 1 {
                assert(s[i] == s.skip(1)[i - 1]);
            }
        };
    }
}

/// The bytes decoded from a valid buffer: three for every full quartet, two
/// or one for a trailing group of three or two characters.
pub open spec fn decode_spec(s: Seq<u8>) -> Seq<u8>
    decreases s.len(),
{
    if s.len() >= 4 {
        dec4(s[0], s[1], s[2], s[3]) + decode_spec(s.skip(4))
    } else if s.len() == 3 {
        seq![dec_b0(s[0], s[1]), dec_b1(s[1], s[2])]
    } else if s.len() == 2 {
        seq![dec_b0(s[0], s[1])]
    } else {
        Seq::empty()
    }
}

/// How long the decoding of `s` is, in terms of the length of `s`.
pub proof fn lemma_decode_spec_len(s: Seq<u8>)
    ensures
        decode_spec(s).len() == s.len() / 4 * 3 + (if s.len() % 4 <= 1 {
            0int
        } else {
            s.len() % 4 - 1
        }),
    decreases s.len(),
{
    vstd::arithmetic::div_mod::lemma_fundamental_div_mod(s.len() as int, 4);
    if s.len() >= 4 {
        lemma_decode_spec_len(s.skip(4));
        vstd::arithmetic::div_mod::lemma_fundamental_div_mod(s.len() - 4, 4);
    }
}

/// Walking one quartet forward moves the output cursor by exactly three
/// bytes and stays inside the decoded-length bound.
pub proof fn lemma_decode_len_step(i: int, m: int)
    requires
        0 <= i,
        i % 4 == 0,
        i + 4 <= m,
    ensures
        (i + 4) / 4 * 3 == i / 4 * 3 + 3,
        i / 4 * 3 + 3 <= decode_len_spec(m),
{
    vstd::arithmetic::div_mod::lemma_fundamental_div_mod(i, 4);
    vstd::arithmetic::div_mod::lemma_fundamental_div_mod(i + 4, 4);
    vstd::arithmetic::div_mod::lemma_div_is_ordered(i + 4, m, 4);
}

/// A decoding splits at any quartet boundary.
pub proof fn lemma_decode_spec_decompose(s: Seq<u8>, i: int)
    requires
        0 <= i <= s.len(),
        i % 4 == 0,
    ensures
        decode_spec(s) == decode_spec(s.take(i)) + decode_spec(s.skip(i)),
    decreases i,
{
    if i == 0 {
        assert(s.take(0) =~= Seq::empty());
        assert(s.skip(0) =~= s);
    } else {
        lemma_decode_spec_decompose(s.skip(4), i - 4);
        assert(s.skip(4).take(i - 4) =~= s.take(i).skip(4));
        assert(s.skip(4).skip(i - 4) =~= s.skip(i));
        assert(s.take(i)[0] == s[0] && s.take(i)[1] == s[1] && s.take(i)[2] == s[2] && s.take(
            i,
        )[3] == s[3]);
        assert(decode_spec(s.take(i)) == dec4(s[0], s[1], s[2], s[3]) + decode_spec(
            s.take(i).skip(4),
        ));
        assert(dec4(s[0], s[1], s[2], s[3]) + (decode_spec(s.skip(4).take(i - 4)) + decode_spec(
            s.skip(4).skip(i - 4),
        )) =~= (dec4(s[0], s[1], s[2], s[3]) + decode_spec(s.skip(4).take(i - 4))) + decode_spec(
            s.skip(4).skip(i - 4),
        ));
    }
}

/// Extending the decoded prefix by one more quartet appends its three
/// bytes.
pub proof fn lemma_decode_spec_step(s: Seq<u8>, i: int)
    requires
        0 <= i,
        i % 4 == 0,
        i + 4 <= s.len(),
    ensures
        decode_spec(s.take(i + 4)) == decode_spec(s.take(i)) + dec4(
            s[i],
            s[i + 1],
            s[i + 2],
            s[i + 3],
        ),
{
    let t = s.take(i + 4);
    lemma_decode_spec_decompose(t, i);
    assert(t.take(i) =~= s.take(i));
    assert(t.skip(i) =~= seq![s[i], s[i + 1], s[i + 2], s[i + 3]]);
    let u = t.skip(i);
    assert(decode_spec(u) == dec4(u[0], u[1], u[2], u[3]) + decode_spec(u.skip(4)));
    assert(u.skip(4) =~= Seq::empty());
    assert(decode_spec(t.take(i)) + (dec4(s[i], s[i + 1], s[i + 2], s[i + 3]) + Seq::empty())
        =~= decode_spec(s.take(i)) + dec4(s[i], s[i + 1], s[i + 2], s[i + 3]));
}

/// The quartet of a triplet consists of alphabet characters, none of them
/// the pad, and decodes back to the three original bytes.
pub proof fn lemma_enc3_inverts(b0: u8, b1: u8, b2: u8)
    ensures
        forall|k: int| 0 <= k < 4 ==> is_b64(#[trigger] enc3(b0, b1, b2)[k]),
        forall|k: int| 0 <= k < 4 ==> #[trigger] enc3(b0, b1, b2)[k] != PAD,
        dec4(enc3(b0, b1, b2)[0], enc3(b0, b1, b2)[1], enc3(b0, b1, b2)[2], enc3(b0, b1, b2)[3])
            == seq![b0, b1, b2],
{
    lemma_triplet_fields(b0, b1, b2);
    lemma_char_of_val(b0 >> 2);
    lemma_char_of_val(((b0 & 0x03) << 4) | ((b1 >> 4) & 0x0F));
    lemma_char_of_val(((b1 & 0x0F) << 2) | ((b2 >> 6) & 0x03));
    lemma_char_of_val(b2 & 0x3F);
    assert(dec4(
        enc3(b0, b1, b2)[0],
        enc3(b0, b1, b2)[1],
        enc3(b0, b1, b2)[2],
        enc3(b0, b1, b2)[3],
    ) =~= seq![b0, b1, b2]);
    assert forall|k: int| 0 <= k < 4 implies is_b64(#[trigger] enc3(b0, b1, b2)[k]) && enc3(
        b0,
        b1,
        b2,
    )[k] != PAD by {
    };
}

/// Stripping trailing padding looks only at the final two bytes, so it
/// passes over any complete prefix.
pub proof fn lemma_strip_pad_append(x: Seq<u8>, y: Seq<u8>)
    requires
        y.len() >= 2,
    ensures
        strip_pad(x + y) == x + strip_pad(y),
{
    let s = x + y;
    assert(s[s.len() - 1] == y[y.len() - 1]);
    assert(s[s.len() - 2] == y[y.len() - 2]);
    if y[y.len() - 2] == PAD && y[y.len() - 1] == PAD {
        assert(s.take(s.len() - 2) =~= x + y.take(y.len() - 2));
    } else if y[y.len() - 1] == PAD {
        assert(s.take(s.len() - 1) =~= x + y.take(y.len() - 1));
    } else {
        assert(s =~= x + y);
    }
}

/// Law: decoding inverts encoding. The encoding of any byte sequence has
/// the predicted length, a whole number of quartets (at least one when the
/// input is not empty), only alphabet characters once its padding is
/// stripped, and decodes back to exactly the original bytes.
pub proof fn lemma_encode_decode_round_trip(b: Seq<u8>)
    ensures
        encode_spec(b).len() == encode_len_spec(b.len() as int),
        encode_spec(b).len() % 4 == 0,
        b.len() > 0 ==> encode_spec(b).len() >= 4,
        strip_pad(encode_spec(b)).len() % 4 != 1,
        all_b64(strip_pad(encode_spec(b))),
        decode_spec(strip_pad(encode_spec(b))) == b,
    decreases b.len(),
{
    lemma_encode_spec_len(b);
    vstd::arithmetic::div_mod::lemma_fundamental_div_mod(b.len() as int, 3);
    vstd::arithmetic::div_mod::lemma_fundamental_div_mod(encode_spec(b).len() as int, 4);
    let e = encode_spec(b);
    let stripped = strip_pad(e);
    if b.len() == 0 {
        assert(stripped =~= e);
    } else if b.len() == 1 {
        lemma_triplet_fields(b[0], 0, 0);
        lemma_char_of_val(b[0] >> 2);
        lemma_char_of_val((b[0] & 0x03) << 4);
        assert(e[2] == PAD && e[3] == PAD);
        assert(stripped =~= seq![char_of(b[0] >> 2), char_of((b[0] & 0x03) << 4)]);
        assert(decode_spec(stripped) =~= b);
    } else if b.len() == 2 {
        lemma_triplet_fields(b[0], b[1], 0);
        lemma_char_of_val(b[0] >> 2);
        lemma_char_of_val(((b[0] & 0x03) << 4) | ((b[1] >> 4) & 0x0F));
        lemma_char_of_val((b[1] & 0x0F) << 2);
        assert(e[3] == PAD && e[2] != PAD);
        assert(stripped =~= seq![
            char_of(b[0] >> 2),
            char_of(((b[0] & 0x03) << 4) | ((b[1] >> 4) & 0x0F)),
            char_of((b[1] & 0x0F) << 2),
        ]);
        assert(decode_spec(stripped) =~= b);
    } else {
        let q = enc3(b[0], b[1], b[2]);
        let rest = encode_spec(b.skip(3));
        lemma_enc3_inverts(b[0], b[1], b[2]);
        lemma_encode_decode_round_trip(b.skip(3));
        if b.len() == 3 {
            assert(rest =~= Seq::<u8>::empty());
            assert(e =~= q);
            assert(e[e.len() - 1] == q[3] && e[e.len() - 2] == q[2]);
            assert(stripped =~= q);
            assert(stripped.skip(4) =~= Seq::<u8>::empty());
            assert(decode_spec(stripped) =~= seq![b[0], b[1], b[2]]);
            assert(decode_spec(stripped) =~= b);
        } else {
            lemma_strip_pad_append(q, rest);
            let srest = strip_pad(rest);
            assert(stripped == q + srest);
            assert forall|i: int| 0 <= i < stripped.len() implies is_b64(
                #[trigger] stripped[i],
            ) by {
                if i >= 4 {
                    assert(stripped[i] == srest[i - 4]);
                }
            };
            assert(stripped[0] == q[0] && stripped[1] == q[1] && stripped[2] == q[2]
                && stripped[3] == q[3]);
            assert(stripped.skip(4) =~= srest);
            assert(decode_spec(stripped) == dec4(q[0], q[1], q[2], q[3]) + decode_spec(srest));
            assert(seq![b[0], b[1], b[2]] + b.skip(3) =~= b);
        }
    }
}

/// Law: the padding shape follows the input length. One byte over a full
/// triplet count ends the encoding in two pads, two bytes over in exactly
/// one, and a whole number of triplets leaves no pad anywhere.
pub proof fn lemma_padding_shape(b: Seq<u8>)
    ensures
        b.len() % 3 == 1 ==> encode_spec(b)[encode_spec(b).len() - 1] == PAD && encode_spec(
            b,
        )[encode_spec(b).len() - 2] == PAD,
        b.len() % 3 == 2 ==> encode_spec(b)[encode_spec(b).len() - 1] == PAD && encode_spec(
            b,
        )[encode_spec(b).len() - 2] != PAD,
        b.len() % 3 == 0 ==> all_b64(encode_spec(b)),
    decreases b.len(),
{
    lemma_encode_spec_len(b);
    let e = encode_spec(b);
    if b.len() == 0 {
    } else if b.len() == 1 {
    } else if b.len() == 2 {
        lemma_triplet_fields(b[0], b[1], 0);
        lemma_char_of_val((b[1] & 0x0F) << 2);
    } else {
        let q = enc3(b[0], b[1], b[2]);
        let rest = encode_spec(b.skip(3));
        lemma_enc3_inverts(b[0], b[1], b[2]);
        lemma_padding_shape(b.skip(3));
        lemma_encode_spec_len(b.skip(3));
        assert(b.skip(3).len() % 3 == b.len() % 3) by {
            vstd::arithmetic::div_mod::lemma_fundamental_div_mod(b.len() as int, 3);
            vstd::arithmetic::div_mod::lemma_fundamental_div_mod(b.len() - 3, 3);
        };
        if b.len() % 3 == 0 {
            assert forall|i: int| 0 <= i < e.len() implies is_b64(#[trigger] e[i]) by {
                if i >= 4 {
                    assert(e[i] == rest[i - 4]);
                }
            };
        } else {
            assert(rest.len() >= 4);
            assert(e[e.len() - 1] == rest[rest.len() - 1]);
            assert(e[e.len() - 2] == rest[rest.len() - 2]);
        }
    }
}

/// Law: one corrupted byte is always detected. Substituting a byte that is
/// neither an alphabet character nor the pad at any position of the
/// unpadded region of a well-formed encoded buffer leaves a buffer with a
/// byte outside the alphabet after pad stripping — the condition under
/// which the decoders report `InvalidInput`. (Substituting the pad byte
/// itself can shorten the unpadded region instead and is excluded.)
pub proof fn lemma_corrupted_byte_detected(s: Seq<u8>, j: int, x: u8)
    requires
        s.len() >= 4,
        s.len() % 4 == 0,
        all_b64(strip_pad(s)),
        0 <= j < strip_pad(s).len(),
        !is_b64(x),
        x != PAD,
    ensures
        !all_b64(strip_pad(s.update(j, x))),
{
    let c = strip_pad(s);
    let s2 = s.update(j, x);
    let c2 = strip_pad(s2);
    let n = s.len() as int;
    if c.len() == n {
        // no trailing pad in s
        assert(is_b64(s[n - 1]) && is_b64(s[n - 2]));
        if j < n - 2 {
            assert(s2[n - 1] == s[n - 1] && s2[n - 2] == s[n - 2]);
        }
        assert(c2 == s2);
        assert(!is_b64(c2[j]));
    } else if c.len() == n - 1 {
        // exactly one trailing pad
        assert(s[n - 1] == PAD && s[n - 2] != PAD);
        if j < n - 2 {
            assert(s2[n - 1] == s[n - 1] && s2[n - 2] == s[n - 2]);
            assert(c2 == s2.take(n - 1));
        } else {
            assert(j == n - 2);
            assert(s2[n - 2] == x && s2[n - 1] == PAD);
            assert(c2 == s2.take(n - 1));
        }
        assert(!is_b64(c2[j]));
    } else {
        // two trailing pads
        assert(s[n - 1] == PAD && s[n - 2] == PAD);
        assert(j < n - 2);
        assert(s2[n - 1] == s[n - 1] && s2[n - 2] == s[n - 2]);
        assert(c2 == s2.take(n - 2));
        assert(!is_b64(c2[j]));
    }
}

} // verus!
