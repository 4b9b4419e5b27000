use vstd::prelude::*;

use crate::byte_mask::{chunks_of, join_spec, lemma_params, mask_of, ByteMask};

verus! {

/// Whether `i` is the first carrier position whose masked low bits are not zero.
pub open spec fn is_start(mask: u8, carrier: Seq<u8>, i: int) -> bool {
    &&& 0 <= i < carrier.len()
    &&& carrier[i] & mask != 0
    &&& forall|j: int| 0 <= j < i ==> #[trigger] carrier[j] & mask == 0
}

/// `n` zero chunks.
pub open spec fn zero_run(n: int) -> Seq<u8> {
    Seq::new(n as nat, |k: int| 0u8)
}

/// The masked low bits of the carrier bytes at positions `from..to`.
pub open spec fn low_bits(mask: u8, carrier: Seq<u8>, from: int, to: int) -> Seq<u8> {
    Seq::new((to - from) as nat, |k: int| carrier[from + k] & mask)
}

/// Zero chunks needed in front of a secret that starts at `start` so that
/// the chunks up to the end of a carrier of `len` bytes fill whole bytes.
pub open spec fn lead_pad(chunks: int, len: int, start: int) -> int {
    if (len - start) % chunks == 0 {
        0
    } else {
        chunks - (len - start) % chunks
    }
}

/// The chunks that extraction reads: nothing when every masked carrier byte
/// is zero; otherwise the re-aligning zero run and the masked carrier bytes
/// from the first non-zero one to the end.
pub open spec fn chunk_stream(bits: u8, carrier: Seq<u8>) -> Seq<u8> {
    let m = mask_of(bits);
    if exists|i: int| is_start(m, carrier, i) {
        let s = choose|i: int| is_start(m, carrier, i);
        zero_run(lead_pad(chunks_of(bits), carrier.len() as int, s)) + low_bits(
            m,
            carrier,
            s,
            carrier.len() as int,
        )
    } else {
        Seq::empty()
    }
}

/// The bytes recovered from a carrier: each complete group of `chunks_of(bits)`
/// chunks of the stream, joined; a trailing partial group is dropped.
pub open spec fn extracted(bits: u8, carrier: Seq<u8>) -> Seq<u8> {
    let st = chunk_stream(bits, carrier);
    let c = chunks_of(bits);
    Seq::new((st.len() as int / c) as nat, |k: int| join_spec(bits, st.subrange(k * c, k * c + c)))
}

/// Recovers a secret from the low bits of a carrier.
pub struct Decoder {
    pub image: Vec<u8>,
    pub mask: ByteMask,
}

impl Decoder {
    pub open spec fn wf(&self) -> bool {
        self.mask.wf()
    }

    pub fn new(image: Vec<u8>, mask: ByteMask) -> (r: Decoder)
        requires
            mask.wf(),
        ensures
            r.wf(),
            r.image@ == image@,
            r.mask == mask,
    {
        Decoder { image, mask }
    }

    /// Reads the secret back out of the carrier.
    pub fn save(&self) -> (r: Vec<u8>)
        requires
            self.wf(),
        ensures
            r@ == extracted(self.mask.bits, self.image@),
    {
        let ghost bits = self.mask.bits;
        let ghost carrier = self.image@;
        proof {
            lemma_params(bits);
        }
        let c = self.mask.chunks as usize;
        let m = self.mask.mask;
        let len = self.image.len();
        let mut buf: Vec<u8> = Vec::with_capacity(c);
        let mut out: Vec<u8> = Vec::new();
        let mut started = false;
        let ghost mut s: int = 0;
        let ghost mut consumed: Seq<u8> = Seq::empty();
        let mut i: usize = 0;
        while i < len
            invariant
                self.wf(),
                bits == self.mask.bits,
                carrier == self.image@,
                len == carrier.len(),
                c == chunks_of(bits),
                c >= 1,
                m == mask_of(bits),
                i <= len,
                !started ==> {
                    &&& forall|j: int| 0 <= j < i ==> #[trigger] carrier[j] & m == 0
                    &&& consumed.len() == 0
                },
                started ==> {
                    &&& is_start(m, carrier, s)
                    &&& s < i
                    &&& consumed == zero_run(lead_pad(c as int, len as int, s)) + low_bits(
                        m,
                        carrier,
                        s,
                        i as int,
                    )
                },
                consumed.len() == out@.len() * c + buf@.len(),
                buf@.len() < c,
                buf@ == consumed.subrange(out@.len() * c, consumed.len() as int),
                forall|k: int|
                    0 <= k < out@.len() ==> #[trigger] out@[k] == join_spec(
                        bits,
                        consumed.subrange(k * c, k * c + c),
                    ),
            decreases len - i,
        {
            let b = self.image[i] & m;
            if !started && b > 0 {
                assert(out@.len() == 0 && buf@.len() == 0) by (nonlinear_arith)
                    requires
                        0 == out@.len() * c + buf@.len(),
                        c > 0,
                ;
                let offset = (len - i) % c;
                if offset != 0 {
                    let mut q: usize = 0;
                    while q < c - offset
                        invariant
                            offset < c,
                            q <= c - offset,
                            out@.len() == 0,
                            buf@ == zero_run(q as int),
                        decreases c - offset - q,
                    {
                        buf.push(0);
                        q = q + 1;
                        assert(buf@ =~= zero_run(q as int));
                    }
                }
                started = true;
                proof {
                    s = i as int;
                    consumed = buf@;
                    assert(consumed =~= zero_run(lead_pad(c as int, len as int, s)) + low_bits(
                        m,
                        carrier,
                        s,
                        i as int,
                    ));
                    assert(buf@ =~= consumed.subrange(out@.len() * c, consumed.len() as int));
                }
            }
            if started {
                buf.push(b);
                proof {
                    let old_consumed = consumed;
                    consumed = consumed.push(b);
                    assert(consumed =~= zero_run(lead_pad(c as int, len as int, s)) + low_bits(
                        m,
                        carrier,
                        s,
                        i + 1,
                    ));
                    assert(buf@ =~= consumed.subrange(out@.len() * c, consumed.len() as int));
                    assert forall|k: int| 0 <= k < out@.len() implies #[trigger] out@[k]
                        == join_spec(bits, consumed.subrange(k * c, k * c + c)) by {
                        assert(k * c + c <= out@.len() * c) by (nonlinear_arith)
                            requires
                                k < out@.len(),
                        ;
                        assert(consumed.subrange(k * c, k * c + c) =~= old_consumed.subrange(
                            k * c,
                            k * c + c,
                        ));
                    }
                }
            }
            if buf.len() == c {
                let byte = self.mask.join_chunks(buf.as_slice());
                proof {
                    assert(buf@ =~= consumed.subrange(out@.len() * c, out@.len() * c + c));
                    assert((out@.len() + 1) * c == out@.len() * c + c) by (nonlinear_arith);
                }
                out.push(byte);
                buf.clear();
                proof {
                    assert(buf@ =~= consumed.subrange(out@.len() * c, consumed.len() as int));
                }
            }
            i = i + 1;
        }
        proof {
            vstd::arithmetic::div_mod::lemma_fundamental_div_mod_converse(
                consumed.len() as int,
                c as int,
                out@.len() as int,
                buf@.len() as int,
            );
            if started {
                assert forall|t: int| is_start(m, carrier, t) implies t == s by {
                    if t < s {
                        assert(carrier[t] & m == 0);
                    }
                    if s < t {
                        assert(carrier[s] & m == 0);
                    }
                }
                assert(consumed =~= chunk_stream(bits, carrier));
            } else {
                assert(!exists|t: int| is_start(m, carrier, t));
            }
            assert(out@ =~= extracted(bits, carrier));
        }
        out
    }
}

} // verus!
