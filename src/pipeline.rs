use vstd::prelude::*;

use crate::byte_mask::{
    chunk_spec, chunks_of, join_spec, lemma_params, lemma_round_trip, lemma_split_bounds, mask_of,
    split_spec,
};
use crate::byte_mask::ByteMask;
use crate::decoder::{chunk_stream, extracted, is_start, lead_pad, low_bits, zero_run, Decoder};
use crate::encoder::{embedded, stream_chunk, Encoder};
use crate::errors::Error;

verus! {

/// Hides `secret` in the carrier bytes `image`; fails when it does not fit.
pub fn encode(image: Vec<u8>, secret: &[u8], mask: ByteMask) -> (r: Result<Vec<u8>, Error>)
    requires
        mask.wf(),
    ensures
        image@.len() < secret@.len() * mask.chunks <==> r is Err,
        r is Err ==> r matches Err(Error::SecretTooLarge),
        r is Ok ==> r->Ok_0@ == embedded(
            mask.bits,
            image@.len() - secret@.len() * mask.chunks,
            secret@,
            image@,
        ),
{
    match Encoder::new(image, secret.len(), mask) {
        Err(e) => Err(e),
        Ok(mut encoder) => {
            encoder.save(secret);
            Ok(encoder.image)
        },
    }
}

/// Recovers the secret hidden in the carrier bytes `image`.
pub fn decode(image: Vec<u8>, mask: ByteMask) -> (r: Vec<u8>)
    requires
        mask.wf(),
    ensures
        r@ == extracted(mask.bits, image@),
{
    let decoder = Decoder::new(image, mask);
    decoder.save()
}

/// Writing a chunk into a carrier byte and masking it again reads the chunk back.
proof fn lemma_low_bits_read_back(bits: u8)
    requires
        1 <= bits <= 8,
    ensures
        forall|x: u8, y: u8|
            y <= mask_of(bits) ==> #[trigger] (((x & !mask_of(bits)) | y) & mask_of(bits)) == y,
{
    lemma_params(bits);
    if bits == 1 {
        assert(forall|x: u8, y: u8| y <= 1u8 ==> #[trigger] (((x & !1u8) | y) & 1u8) == y)
            by (bit_vector);
    } else if bits == 2 {
        assert(forall|x: u8, y: u8| y <= 3u8 ==> #[trigger] (((x & !3u8) | y) & 3u8) == y)
            by (bit_vector);
    } else if bits == 3 {
        assert(forall|x: u8, y: u8| y <= 7u8 ==> #[trigger] (((x & !7u8) | y) & 7u8) == y)
            by (bit_vector);
    } else if bits == 4 {
        assert(forall|x: u8, y: u8| y <= 15u8 ==> #[trigger] (((x & !15u8) | y) & 15u8) == y)
            by (bit_vector);
    } else if bits == 5 {
        assert(forall|x: u8, y: u8| y <= 31u8 ==> #[trigger] (((x & !31u8) | y) & 31u8) == y)
            by (bit_vector);
    } else if bits == 6 {
        assert(forall|x: u8, y: u8| y <= 63u8 ==> #[trigger] (((x & !63u8) | y) & 63u8) == y)
            by (bit_vector);
    } else if bits == 7 {
        assert(forall|x: u8, y: u8| y <= 127u8 ==> #[trigger] (((x & !127u8) | y) & 127u8) == y)
            by (bit_vector);
    } else {
        assert(forall|x: u8, y: u8| y <= 255u8 ==> #[trigger] (((x & !255u8) | y) & 255u8) == y)
            by (bit_vector);
    }
}

/// A non-zero byte has a non-zero chunk.
proof fn lemma_nonzero_chunk(bits: u8, v: u8)
    requires
        1 <= bits <= 8,
        v != 0,
    ensures
        exists|t: int| 0 <= t < chunks_of(bits) && #[trigger] split_spec(bits, v)[t] != 0,
{
    lemma_split_bounds(bits, v);
    lemma_split_bounds(bits, 0);
    if forall|t: int| 0 <= t < chunks_of(bits) ==> #[trigger] split_spec(bits, v)[t] == 0 {
        assert(forall|k: u8, y: u8| #[trigger] ((0u8 >> k) & y) == 0) by (bit_vector);
        assert(forall|y: u8| #[trigger] (0u8 & y) == 0) by (bit_vector);
        assert forall|t: int| 0 <= t < chunks_of(bits) implies #[trigger] split_spec(bits, 0)[t]
            == 0 by {
            let _ = chunk_spec(bits, 0, t + 1);
        }
        assert(split_spec(bits, v) =~= split_spec(bits, 0));
        lemma_round_trip(bits, v);
        lemma_round_trip(bits, 0);
    }
}

/// Some position in `lo..=hi` is the first with non-zero masked bits.
proof fn lemma_start_exists(mask: u8, carrier: Seq<u8>, lo: int, hi: int)
    requires
        0 <= lo <= hi < carrier.len(),
        carrier[hi] & mask != 0,
        forall|j: int| 0 <= j < lo ==> #[trigger] carrier[j] & mask == 0,
    ensures
        exists|i: int| lo <= i <= hi && is_start(mask, carrier, i),
    decreases hi - lo,
{
    if carrier[lo] & mask != 0 {
        assert(is_start(mask, carrier, lo));
    } else {
        assert forall|j: int| 0 <= j < lo + 1 implies #[trigger] carrier[j] & mask == 0 by {}
        lemma_start_exists(mask, carrier, lo + 1, hi);
    }
}

/// Embedding a secret and extracting it again with the same width gives the
/// secret back, whatever the carrier held, as long as the secret fits and its
/// first byte is not zero (a leading zero byte cannot be told apart from the
/// zero run in front of it).
pub proof fn lemma_embed_then_extract(bits: u8, carrier: Seq<u8>, secret: Seq<u8>)
    requires
        1 <= bits <= 8,
        carrier.len() >= secret.len() * chunks_of(bits),
        secret.len() == 0 || secret[0] != 0,
    ensures
        extracted(
            bits,
            embedded(bits, carrier.len() - secret.len() * chunks_of(bits), secret, carrier),
        ) == secret,
{
    lemma_params(bits);
    lemma_low_bits_read_back(bits);
    let c = chunks_of(bits);
    let m = mask_of(bits);
    let len = carrier.len() as int;
    let n = secret.len() as int;
    let z = len - n * c;
    let e = embedded(bits, z, secret, carrier);
    assert forall|j: int| 0 <= j < len implies #[trigger] (e[j] & m) == stream_chunk(
        bits,
        z,
        secret,
        j,
    ) by {
        if j >= z {
            let d = j - z;
            assert(d < n * c);
            vstd::arithmetic::div_mod::lemma_fundamental_div_mod(d, c);
            assert(d / c < n) by (nonlinear_arith)
                requires
                    d == c * (d / c) + d % c,
                    0 <= d % c,
                    d < n * c,
                    c > 0,
            ;
            assert(0 <= d / c) by (nonlinear_arith)
                requires
                    d >= 0,
                    c > 0,
            ;
            lemma_split_bounds(bits, secret[d / c]);
        }
    }
    if n == 0 {
        assert(!exists|i: int| is_start(m, e, i));
        assert(extracted(bits, e) =~= secret);
    } else {
        lemma_nonzero_chunk(bits, secret[0]);
        let t0 = choose|t: int| 0 <= t < c && #[trigger] split_spec(bits, secret[0])[t] != 0;
        assert(n * c >= c) by (nonlinear_arith)
            requires
                n >= 1,
                c >= 1,
        ;
        vstd::arithmetic::div_mod::lemma_fundamental_div_mod_converse(t0, c, 0, t0);
        assert(e[z + t0] & m != 0);
        assert forall|j: int| 0 <= j < z implies #[trigger] e[j] & m == 0 by {}
        lemma_start_exists(m, e, z, z + t0);
        let s = choose|i: int| is_start(m, e, i);
        assert(z <= s <= z + t0) by {
            let i0 = choose|i: int| z <= i <= z + t0 && is_start(m, e, i);
            if s < i0 {
                assert(e[s] & m == 0);
            }
            if i0 < s {
                assert(e[i0] & m == 0);
            }
        }
        let d = s - z;
        if d == 0 {
            vstd::arithmetic::div_mod::lemma_fundamental_div_mod_converse(n * c, c, n, 0);
        } else {
            assert((n - 1) * c + (c - d) == n * c - d) by (nonlinear_arith);
            vstd::arithmetic::div_mod::lemma_fundamental_div_mod_converse(
                n * c - d,
                c,
                n - 1,
                c - d,
            );
        }
        assert(lead_pad(c, len, s) == d);
        let st = chunk_stream(bits, e);
        assert(st =~= low_bits(m, e, z, len)) by {
            assert(st == zero_run(d) + low_bits(m, e, s, len));
            assert forall|j: int| 0 <= j < d implies #[trigger] e[z + j] & m == 0 by {}
        }
        vstd::arithmetic::div_mod::lemma_fundamental_div_mod_converse(n * c, c, n, 0);
        let out = extracted(bits, e);
        assert forall|k: int| 0 <= k < n implies #[trigger] out[k] == secret[k] by {
            let sub = st.subrange(k * c, k * c + c);
            assert(k * c + c <= n * c) by (nonlinear_arith)
                requires
                    k < n,
                    c >= 1,
            ;
            assert(0 <= k * c) by (nonlinear_arith)
                requires
                    k >= 0,
                    c >= 0,
            ;
            lemma_split_bounds(bits, secret[k]);
            assert forall|t: int| 0 <= t < c implies #[trigger] sub[t] == split_spec(
                bits,
                secret[k],
            )[t] by {
                vstd::arithmetic::div_mod::lemma_fundamental_div_mod_converse(k * c + t, c, k, t);
                assert(sub[t] == e[z + k * c + t] & m);
            }
            assert(sub =~= split_spec(bits, secret[k]));
            lemma_round_trip(bits, secret[k]);
        }
        assert(out =~= secret);
    }
}

} // verus!
