use vstd::prelude::*;

use crate::errors::Error;

verus! {

/// Payload-bearing low bits of a carrier byte: `(1 << bits) - 1`.
pub open spec fn mask_of(bits: u8) -> u8 {
    ((1u16 << (bits as u16)) - 1u16) as u8
}

/// Number of chunks that one byte splits into: `ceil(8 / bits)`.
pub open spec fn chunks_of(bits: u8) -> int {
    (8 + bits - 1) / (bits as int)
}

/// Whether the last chunk of a byte is narrower than `bits`.
pub open spec fn padded_of(bits: u8) -> bool {
    chunks_of(bits) * bits > 8
}

/// The chunk that the `step`-th split (counted from 1) of `byte` yields.
pub open spec fn chunk_spec(bits: u8, byte: u8, step: int) -> u8 {
    if padded_of(bits) && step == chunks_of(bits) {
        byte & (mask_of(bits) >> ((bits * step - 8) as u8))
    } else {
        (byte >> ((8 - bits * step) as u8)) & mask_of(bits)
    }
}

/// All chunks of `byte`, from the most significant field to the least.
pub open spec fn split_spec(bits: u8, byte: u8) -> Seq<u8> {
    Seq::new(chunks_of(bits) as nat, |i: int| chunk_spec(bits, byte, i + 1))
}

/// Left shift applied to the chunk at index `i` when joining.
pub open spec fn join_shift(bits: u8, i: int) -> u8 {
    if bits * (i + 1) >= 8 {
        0u8
    } else {
        (8 - bits * (i + 1)) as u8
    }
}

/// The byte that the chunks in `s` join into.
pub open spec fn join_spec(bits: u8, s: Seq<u8>) -> u8
    decreases s.len(),
{
    if s.len() == 0 {
        0u8
    } else {
        join_spec(bits, s.drop_last()) | (s.last() << join_shift(bits, s.len() - 1))
    }
}

/// The derived parameters of every width, written out.
pub proof fn lemma_params(bits: u8)
    requires
        1 <= bits <= 8,
    ensures
        mask_of(bits) as int == (1u16 << (bits as u16)) - 1,
        8 <= chunks_of(bits) * bits <= 14,
        (chunks_of(bits) - 1) * bits < 8,
        padded_of(bits) <==> chunks_of(bits) * bits != 8,
        bits == 1 ==> mask_of(bits) == 0b1 && chunks_of(bits) == 8 && !padded_of(bits),
        bits == 2 ==> mask_of(bits) == 0b11 && chunks_of(bits) == 4 && !padded_of(bits),
        bits == 3 ==> mask_of(bits) == 0b111 && chunks_of(bits) == 3 && padded_of(bits),
        bits == 4 ==> mask_of(bits) == 0b1111 && chunks_of(bits) == 2 && !padded_of(bits),
        bits == 5 ==> mask_of(bits) == 0b11111 && chunks_of(bits) == 2 && padded_of(bits),
        bits == 6 ==> mask_of(bits) == 0b111111 && chunks_of(bits) == 2 && padded_of(bits),
        bits == 7 ==> mask_of(bits) == 0b1111111 && chunks_of(bits) == 2 && padded_of(bits),
        bits == 8 ==> mask_of(bits) == 0b11111111 && chunks_of(bits) == 1 && !padded_of(bits),
{
    assert(1u16 << 1u16 == 2u16) by (bit_vector);
    assert(1u16 << 2u16 == 4u16) by (bit_vector);
    assert(1u16 << 3u16 == 8u16) by (bit_vector);
    assert(1u16 << 4u16 == 16u16) by (bit_vector);
    assert(1u16 << 5u16 == 32u16) by (bit_vector);
    assert(1u16 << 6u16 == 64u16) by (bit_vector);
    assert(1u16 << 7u16 == 128u16) by (bit_vector);
    assert(1u16 << 8u16 == 256u16) by (bit_vector);
}

/// Joining the chunks of a byte gives the byte back, at every width.
pub proof fn lemma_round_trip(bits: u8, v: u8)
    requires
        1 <= bits <= 8,
    ensures
        join_spec(bits, split_spec(bits, v)) == v,
{
    lemma_params(bits);
    reveal_with_fuel(join_spec, 9);
    if bits == 1 {
        assert(
            (0u8
                | (((v >> 7u8) & 1u8) << 7u8)
                | (((v >> 6u8) & 1u8) << 6u8)
                | (((v >> 5u8) & 1u8) << 5u8)
                | (((v >> 4u8) & 1u8) << 4u8)
                | (((v >> 3u8) & 1u8) << 3u8)
                | (((v >> 2u8) & 1u8) << 2u8)
                | (((v >> 1u8) & 1u8) << 1u8)
                | (((v >> 0u8) & 1u8) << 0u8)
            ) == v
        ) by (bit_vector);
    } else if bits == 2 {
        assert(
            (0u8
                | (((v >> 6u8) & 3u8) << 6u8)
                | (((v >> 4u8) & 3u8) << 4u8)
                | (((v >> 2u8) & 3u8) << 2u8)
                | (((v >> 0u8) & 3u8) << 0u8)
            ) == v
        ) by (bit_vector);
    } else if bits == 3 {
        assert(
            (0u8
                | (((v >> 5u8) & 7u8) << 5u8)
                | (((v >> 2u8) & 7u8) << 2u8)
                | ((v & (7u8 >> 1u8)) << 0u8)
            ) == v
        ) by (bit_vector);
    } else if bits == 4 {
        assert(
            (0u8
                | (((v >> 4u8) & 15u8) << 4u8)
                | (((v >> 0u8) & 15u8) << 0u8)
            ) == v
        ) by (bit_vector);
    } else if bits == 5 {
        assert(
            (0u8
                | (((v >> 3u8) & 31u8) << 3u8)
                | ((v & (31u8 >> 2u8)) << 0u8)
            ) == v
        ) by (bit_vector);
    } else if bits == 6 {
        assert(
            (0u8
                | (((v >> 2u8) & 63u8) << 2u8)
                | ((v & (63u8 >> 4u8)) << 0u8)
            ) == v
        ) by (bit_vector);
    } else if bits == 7 {
        assert(
            (0u8
                | (((v >> 1u8) & 127u8) << 1u8)
                | ((v & (127u8 >> 6u8)) << 0u8)
            ) == v
        ) by (bit_vector);
    } else {
        assert(
            (0u8
                | (((v >> 0u8) & 255u8) << 0u8)
            ) == v
        ) by (bit_vector);
    }
}

/// A byte splits into exactly `chunks_of(bits)` chunks, none above the mask.
pub proof fn lemma_split_bounds(bits: u8, v: u8)
    requires
        1 <= bits <= 8,
    ensures
        split_spec(bits, v).len() == chunks_of(bits),
        forall|i: int|
            0 <= i < chunks_of(bits) ==> #[trigger] split_spec(bits, v)[i] <= mask_of(bits),
{
    lemma_params(bits);
    let m = mask_of(bits);
    assert(forall|x: u8, k: u8| #[trigger] ((x >> k) & m) <= m) by (bit_vector);
    assert(forall|x: u8, k: u8| #[trigger] (x & (m >> k)) <= m) by (bit_vector);
}

/// Splits bytes into chunks of `bits` bits and joins them back.
///
/// While split, `byte` is the byte being split and `step` counts the chunks
/// already handed out.
#[derive(Copy, Clone)]
pub struct ByteMask {
    pub bits: u8,
    pub mask: u8,
    pub chunks: u8,
    pub padded: bool,
    pub byte: u8,
    pub step: u8,
}

impl ByteMask {
    /// The derived fields agree with `bits`, which lies in 1..=8.
    pub open spec fn wf(&self) -> bool {
        &&& 1 <= self.bits <= 8
        &&& self.mask == mask_of(self.bits)
        &&& self.chunks == chunks_of(self.bits)
        &&& self.padded == padded_of(self.bits)
        &&& self.step <= self.chunks
    }

    pub fn new(bits: u8) -> (r: Result<ByteMask, Error>)
        ensures
            1 <= bits <= 8 <==> r is Ok,
            bits == 0 || bits > 8 <==> r == Err::<ByteMask, Error>(Error::InvalidNumberOfBits),
            r is Ok ==> ({
                let m = r->Ok_0;
                &&& m.wf()
                &&& m.bits == bits
                &&& m.byte == 0
                &&& m.step == 0
            }),
    {
        if bits == 0 || bits > 8 {
            Err(Error::InvalidNumberOfBits)
        } else {
            proof {
                lemma_params(bits);
            }
            let mask: u8 = ((1u16 << (bits as u16)) - 1u16) as u8;
            let chunks: u8 = (8 + bits - 1) / bits;
            let padded = 8 < chunks * bits;
            Ok(ByteMask { bits, mask, chunks, padded, byte: 0, step: 0 })
        }
    }

    /// Starts splitting `byte` from its first chunk; returns the new state.
    pub fn set_byte(&mut self, byte: u8) -> (r: ByteMask)
        requires
            old(self).wf(),
        ensures
            *final(self) == (ByteMask { byte, step: 0, ..*old(self) }),
            r == *final(self),
            r.wf(),
    {
        self.byte = byte;
        self.step = 0;
        *self
    }

    /// Hands out the next chunk of `byte`, or `None` once all `chunks` are out.
    pub fn next(&mut self) -> (r: Option<u8>)
        requires
            old(self).wf(),
        ensures
            final(self).wf(),
            old(self).step >= old(self).chunks ==> r is None && *final(self) == *old(self),
            old(self).step < old(self).chunks ==> {
                &&& r == Some(chunk_spec(old(self).bits, old(self).byte, old(self).step + 1))
                &&& *final(self) == (ByteMask { step: (old(self).step + 1) as u8, ..*old(self) })
            },
    {
        if self.step >= self.chunks {
            return None;
        }
        proof {
            lemma_params(self.bits);
        }
        self.step = self.step + 1;
        let bits = self.bits;
        let step = self.step;
        let chunks = self.chunks;
        assert(bits * step <= bits * chunks) by (nonlinear_arith)
            requires
                step <= chunks,
        ;
        if self.padded && self.step == self.chunks {
            let shift: u8 = self.bits * self.step - 8;
            Some(self.byte & (self.mask >> shift))
        } else {
            assert(bits * step <= 8) by (nonlinear_arith)
                requires
                    step <= chunks,
                    step < chunks || chunks * bits == 8,
                    (chunks - 1) * bits < 8,
            ;
            let shift: u8 = 8 - self.bits * self.step;
            Some((self.byte >> shift) & self.mask)
        }
    }

    /// Drains the chunks that are left of the byte being split.
    pub fn collect(self) -> (r: Vec<u8>)
        requires
            self.wf(),
        ensures
            r@ == Seq::new(
                (self.chunks - self.step) as nat,
                |i: int| chunk_spec(self.bits, self.byte, self.step + i + 1),
            ),
            self.step == 0 ==> r@ == split_spec(self.bits, self.byte),
    {
        let mut it = self;
        let mut out: Vec<u8> = Vec::new();
        while it.step < it.chunks
            invariant
                it.wf(),
                it == (ByteMask { step: it.step, ..self }),
                self.step <= it.step,
                out@ == Seq::new(
                    (it.step - self.step) as nat,
                    |i: int| chunk_spec(self.bits, self.byte, self.step + i + 1),
                ),
            decreases it.chunks - it.step,
        {
            let c = it.next();
            if let Some(c) = c {
                out.push(c);
            }
        }
        assert(out@ =~= Seq::new(
            (self.chunks - self.step) as nat,
            |i: int| chunk_spec(self.bits, self.byte, self.step + i + 1),
        ));
        out
    }

    /// Joins chunks back into a byte; missing trailing chunks count as zero.
    pub fn join_chunks(&self, chunks: &[u8]) -> (r: u8)
        requires
            self.wf(),
        ensures
            r == join_spec(self.bits, chunks@),
    {
        let mut byte: u8 = 0;
        let mut shift: u8 = 8;
        let mut i: usize = 0;
        while i < chunks.len()
            invariant
                self.wf(),
                i <= chunks@.len(),
                byte == join_spec(self.bits, chunks@.take(i as int)),
                i == 0 ==> shift == 8,
                i > 0 ==> shift == join_shift(self.bits, i - 1),
            decreases chunks@.len() - i,
        {
            let bits = self.bits;
            assert(bits * ((i as int) + 1) == bits * (i as int) + bits) by (nonlinear_arith);
            assert(i > 0 ==> bits * ((i - 1) as int + 1) == bits * (i as int));
            shift = shift.saturating_sub(self.bits);
            assert(shift == join_shift(bits, i as int));
            assert(chunks@.take(i + 1).drop_last() =~= chunks@.take(i as int));
            byte = byte | (chunks[i] << shift);
            i = i + 1;
        }
        assert(chunks@.take(i as int) =~= chunks@);
        byte
    }
}

} // verus!
