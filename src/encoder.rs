use vstd::prelude::*;

use crate::byte_mask::{chunks_of, mask_of, split_spec, ByteMask};
use crate::errors::Error;

verus! {

/// The chunk that carrier position `j` receives: zero inside the leading run of
/// `zeroes` positions, then the chunks of the secret's bytes in order.
pub open spec fn stream_chunk(bits: u8, zeroes: int, secret: Seq<u8>, j: int) -> u8 {
    if j < zeroes {
        0u8
    } else {
        split_spec(bits, secret[(j - zeroes) / chunks_of(bits)])[(j - zeroes) % chunks_of(bits)]
    }
}

/// The carrier after embedding: each byte keeps its high bits and takes its
/// chunk in the low `bits` bits.
pub open spec fn embedded(bits: u8, zeroes: int, secret: Seq<u8>, carrier: Seq<u8>) -> Seq<u8> {
    Seq::new(
        carrier.len(),
        |j: int| (carrier[j] & !mask_of(bits)) | stream_chunk(bits, zeroes, secret, j),
    )
}

/// Hides a secret in the low bits of a carrier, right-aligned behind a run
/// of zero chunks.
pub struct Encoder {
    pub image: Vec<u8>,
    pub mask: ByteMask,
    pub zeroes: usize,
}

impl Encoder {
    /// Checks that a secret of `secret_len` bytes fits in `image`.
    pub fn new(image: Vec<u8>, secret_len: usize, mask: ByteMask) -> (r: Result<Encoder, Error>)
        requires
            mask.wf(),
        ensures
            image@.len() < secret_len * mask.chunks <==> r matches Err(Error::SecretTooLarge),
            r is Err ==> r matches Err(Error::SecretTooLarge),
            r is Ok ==> ({
                let e = r->Ok_0;
                &&& e.image@ == image@
                &&& e.mask == mask
                &&& e.zeroes == image@.len() - secret_len * mask.chunks
            }),
    {
        let n: usize = image.len();
        match secret_len.checked_mul(mask.chunks as usize) {
            None => Err(Error::SecretTooLarge),
            Some(needed) => {
                if image.len() < needed {
                    Err(Error::SecretTooLarge)
                } else {
                    let zeroes = image.len() - needed;
                    Ok(Encoder { image, mask, zeroes })
                }
            },
        }
    }

    /// Writes the zero run and then the chunks of `secret` into the low bits
    /// of the carrier, one chunk per carrier byte.
    pub fn save(&mut self, secret: &[u8])
        requires
            old(self).mask.wf(),
            old(self).zeroes + secret@.len() * old(self).mask.chunks == old(self).image@.len(),
        ensures
            final(self).mask == old(self).mask,
            final(self).zeroes == old(self).zeroes,
            final(self).image@ == embedded(
                old(self).mask.bits,
                old(self).zeroes as int,
                secret@,
                old(self).image@,
            ),
    {
        let ghost bits = self.mask.bits;
        let ghost mask0 = self.mask;
        let ghost zeroes0 = self.zeroes;
        let ghost carrier = self.image@;
        let ghost target = embedded(bits, self.zeroes as int, secret@, carrier);
        let keep: u8 = !self.mask.mask;
        let c = self.mask.chunks as usize;
        let n: usize = self.image.len();
        let mut pos: usize = 0;
        while pos < self.zeroes
            invariant
                self.mask == mask0,
                self.zeroes == zeroes0,
                mask0.wf(),
                mask0.bits == bits,
                zeroes0 + secret@.len() * mask0.chunks == carrier.len(),
                keep == !mask_of(bits),
                self.image@.len() == carrier.len(),
                carrier.len() == n,
                self.zeroes <= carrier.len(),
                target == embedded(bits, self.zeroes as int, secret@, carrier),
                pos <= self.zeroes,
                forall|j: int| 0 <= j < pos ==> self.image@[j] == #[trigger] target[j],
                forall|j: int| pos <= j < carrier.len() ==> self.image@[j] == #[trigger] carrier[j],
            decreases self.zeroes - pos,
        {
            let p = self.image[pos];
            assert(((p & keep) | 0u8) == (p & keep)) by (bit_vector);
            self.image.set(pos, p & keep);
            pos = pos + 1;
        }
        let mut k: usize = 0;
        while k < secret.len()
            invariant
                self.mask == mask0,
                self.zeroes == zeroes0,
                mask0.wf(),
                mask0.bits == bits,
                zeroes0 + secret@.len() * mask0.chunks == carrier.len(),
                c == chunks_of(bits),
                keep == !mask_of(bits),
                self.image@.len() == carrier.len(),
                carrier.len() == n,
                self.zeroes + secret@.len() * c == carrier.len(),
                target == embedded(bits, self.zeroes as int, secret@, carrier),
                k <= secret@.len(),
                pos == self.zeroes + k * c,
                forall|j: int| 0 <= j < pos ==> self.image@[j] == #[trigger] target[j],
                forall|j: int| pos <= j < carrier.len() ==> self.image@[j] == #[trigger] carrier[j],
            decreases secret@.len() - k,
        {
            let mut it = self.mask;
            it.set_byte(secret[k]);
            let mut t: usize = 0;
            while t < c
                invariant
                    self.mask == mask0,
                    self.zeroes == zeroes0,
                    mask0.wf(),
                    mask0.bits == bits,
                    c == chunks_of(bits),
                    keep == !mask_of(bits),
                    it.wf(),
                    it.bits == bits,
                    it.mask == mask_of(bits),
                    it.chunks == c,
                    it.byte == secret@[k as int],
                    it.step == t,
                    self.image@.len() == carrier.len(),
                    carrier.len() == n,
                carrier.len() == n,
                    self.zeroes + secret@.len() * c == carrier.len(),
                    target == embedded(bits, self.zeroes as int, secret@, carrier),
                    k < secret@.len(),
                    t <= c,
                    pos == self.zeroes + k * c + t,
                    forall|j: int| 0 <= j < pos ==> self.image@[j] == #[trigger] target[j],
                    forall|j: int|
                        pos <= j < carrier.len() ==> self.image@[j] == #[trigger] carrier[j],
                decreases c - t,
            {
                assert(k * c + t < secret@.len() * c) by (nonlinear_arith)
                    requires
                        k < secret@.len(),
                        t < c,
                ;
                let chunk = it.next();
                if let Some(chunk) = chunk {
                    proof {
                        let d = pos - self.zeroes;
                        vstd::arithmetic::div_mod::lemma_fundamental_div_mod_converse(
                            d,
                            c as int,
                            k as int,
                            t as int,
                        );
                        assert(stream_chunk(bits, self.zeroes as int, secret@, pos as int)
                            == chunk);
                    }
                    let p = self.image[pos];
                    self.image.set(pos, (p & keep) | chunk);
                }
                pos = pos + 1;
                t = t + 1;
            }
            assert((k + 1) * c == k * c + c) by (nonlinear_arith);
            k = k + 1;
        }
        assert(self.image@ =~= target);
    }
}

} // verus!
