//! Bit-level packing: turning an ordered sequence of bits into a byte
//! sequence, most significant bit first, with the last partial byte padded
//! with zeros in its low-order positions.

use vstd::prelude::*;
use vstd::arithmetic::power2::{pow2, lemma_pow2_unfold, lemma2_to64};

verus! {

/// The value of a bit sequence read as a binary numeral, most significant
/// bit first.
pub open spec fn bits_value(bits: Seq<bool>) -> nat
    decreases bits.len(),
{
    if bits.len() == 0 {
        0
    } else {
        2 * bits_value(bits.drop_last()) + (if bits.last() {
            1nat
        } else {
            0nat
        })
    }
}

pub proof fn lemma_bits_value_bound(bits: Seq<bool>)
    ensures
        bits_value(bits) < pow2(bits.len()),
    decreases bits.len(),
{
    if bits.len() == 0 {
        lemma2_to64();
    } else {
        lemma_bits_value_bound(bits.drop_last());
        lemma_pow2_unfold(bits.len());
    }
}

/// A partial byte, extended on the right with zero bits up to a full byte.
pub open spec fn pad_to_byte(bits: Seq<bool>) -> Seq<bool>
    recommends
        bits.len() <= 8,
{
    bits + Seq::new((8 - bits.len()) as nat, |i: int| false)
}

/// The byte sequence that a bit sequence packs into: each group of eight
/// bits becomes one byte, most significant bit first, and a trailing
/// partial group is padded with zeros in its low-order positions.
pub open spec fn pack_bits(bits: Seq<bool>) -> Seq<u8>
    decreases bits.len(),
{
    if bits.len() == 0 {
        Seq::empty()
    } else if bits.len() < 8 {
        seq![bits_value(pad_to_byte(bits)) as u8]
    } else {
        seq![bits_value(bits.take(8)) as u8] + pack_bits(bits.skip(8))
    }
}

/// Packing distributes over concatenation as long as the first part is a
/// whole number of bytes.
pub proof fn lemma_pack_bits_append(a: Seq<bool>, b: Seq<bool>)
    requires
        a.len() % 8 == 0,
    ensures
        pack_bits(a + b) == pack_bits(a) + pack_bits(b),
    decreases a.len(),
{
    if a.len() == 0 {
        assert(a + b =~= b);
        assert(pack_bits(a) + pack_bits(b) =~= pack_bits(b));
    } else {
        assert(a.len() >= 8);
        assert((a + b).take(8) =~= a.take(8));
        assert((a + b).skip(8) =~= a.skip(8) + b);
        assert(a.skip(8).len() % 8 == 0);
        lemma_pack_bits_append(a.skip(8), b);
        assert(seq![bits_value(a.take(8)) as u8] + (pack_bits(a.skip(8)) + pack_bits(b)) =~= (
        seq![bits_value(a.take(8)) as u8] + pack_bits(a.skip(8))) + pack_bits(b));
    }
}

/// The packed form of a bit sequence occupies exactly as many bytes as it
/// takes to hold every bit: the length of the packed form is the bit count
/// divided by eight, rounded up.
pub proof fn lemma_pack_bits_len(bits: Seq<bool>)
    ensures
        pack_bits(bits).len() == (bits.len() + 7) / 8,
    decreases bits.len(),
{
    if bits.len() >= 8 {
        lemma_pack_bits_len(bits.skip(8));
    }
}

/// The longest prefix of a bit sequence that is a whole number of bytes.
pub open spec fn complete_part(bits: Seq<bool>) -> Seq<bool> {
    bits.take((bits.len() - bits.len() % 8) as int)
}

/// The bits left over after the last whole byte: fewer than eight of them.
pub open spec fn pending_part(bits: Seq<bool>) -> Seq<bool> {
    bits.skip((bits.len() - bits.len() % 8) as int)
}

/// Serializes a stream of bits into bytes, most significant bit first.
/// Whole bytes are moved to `bytes` as soon as they are complete; up to
/// seven not-yet-emitted bits wait in `buffer`, in its low-order positions.
pub struct BitWriter {
    buffer: u8,
    bit_count: u8,
    bytes: Vec<u8>,
    bits: Ghost<Seq<bool>>,
}

impl BitWriter {
    /// All bits written so far, in order.
    pub closed spec fn bits(self) -> Seq<bool> {
        self.bits@
    }

    pub closed spec fn wf(self) -> bool {
        &&& self.bit_count < 8
        &&& self.bit_count as nat == self.bits@.len() % 8
        &&& self.buffer as nat == bits_value(pending_part(self.bits@))
        &&& self.bytes@ == pack_bits(complete_part(self.bits@))
    }

    pub fn new() -> (w: Self)
        ensures
            w.wf(),
            w.bits() == Seq::<bool>::empty(),
    {
        let w = BitWriter { buffer: 0, bit_count: 0, bytes: Vec::new(), bits: Ghost(Seq::empty()) };
        proof {
            assert(complete_part(w.bits@) =~= Seq::<bool>::empty());
            assert(pending_part(w.bits@) =~= Seq::<bool>::empty());
        }
        w
    }

    /// Appends one bit to the stream.
    pub fn write_bit(&mut self, bit: bool)
        requires
            old(self).wf(),
        ensures
            final(self).wf(),
            final(self).bits() == old(self).bits().push(bit),
    {
        let ghost b = self.bits@;
        let ghost b2 = b.push(bit);
        proof {
            lemma_bits_value_bound(pending_part(b));
            lemma2_to64();
            if self.bit_count < 7 {
                vstd::arithmetic::power2::lemma_pow2_strictly_increases(
                    self.bit_count as nat,
                    7,
                );
            }
        }
        self.buffer = self.buffer * 2 + (if bit {
            1
        } else {
            0
        });
        self.bit_count = self.bit_count + 1;
        self.bits = Ghost(b2);
        if self.bit_count == 8 {
            proof {
                assert(complete_part(b2) =~= b2);
                assert(pending_part(b2) =~= Seq::<bool>::empty());
                let last8 = pending_part(b).push(bit);
                assert(last8.drop_last() =~= pending_part(b));
                assert(bits_value(last8) == self.buffer as nat);
                assert(b2 =~= complete_part(b) + last8);
                lemma_pack_bits_append(complete_part(b), last8);
                lemma_bits_value_bound(last8);
                assert(last8.take(8) =~= last8);
                assert(last8.skip(8) =~= Seq::<bool>::empty());
                assert(pack_bits(last8) == seq![bits_value(last8.take(8)) as u8] + pack_bits(
                    last8.skip(8),
                ));
                assert(pack_bits(Seq::<bool>::empty()) =~= Seq::<u8>::empty());
                assert(pack_bits(last8) =~= seq![bits_value(last8) as u8]);
                assert(pack_bits(b2) =~= pack_bits(complete_part(b)).push(
                    bits_value(last8) as u8,
                ));
            }
            self.bytes.push(self.buffer);
            self.buffer = 0;
            self.bit_count = 0;
        } else {
            proof {
                assert(complete_part(b2) =~= complete_part(b));
                assert(pending_part(b2) =~= pending_part(b).push(bit));
                assert(pending_part(b2).drop_last() =~= pending_part(b));
            }
        }
    }

    /// Finishes the stream: pads any partially filled final byte with zeros
    /// in its low-order bits and returns the whole byte sequence. The writer
    /// is spent afterwards; it accepts no further bits.
    pub fn flush(&mut self) -> (out: Vec<u8>)
        requires
            old(self).wf(),
        ensures
            out@ == pack_bits(old(self).bits()),
            final(self).bits() == old(self).bits(),
    {
        let ghost b = self.bits@;
        if self.bit_count > 0 {
            let ghost pend = pending_part(b);
            let mut v: u8 = self.buffer;
            let mut k: u8 = self.bit_count;
            let ghost padded = pend;
            let ghost pad_full = pad_to_byte(pend);
            while k < 8
                invariant
                    self.bit_count <= k <= 8,
                    pend.len() == self.bit_count as nat,
                    v as nat == bits_value(pend + Seq::new((k - self.bit_count) as nat, |i: int| false)),
                decreases 8 - k,
            {
                let ghost cur = pend + Seq::new((k - self.bit_count) as nat, |i: int| false);
                proof {
                    assert(cur.len() == k as nat);
                    lemma_bits_value_bound(cur);
                    lemma2_to64();
                    if (k as nat) < 7 {
                        vstd::arithmetic::power2::lemma_pow2_strictly_increases(k as nat, 7);
                    }
                    let nxt = pend + Seq::new((k + 1 - self.bit_count) as nat, |i: int| false);
                    assert(nxt.drop_last() =~= cur);
                    assert(!nxt.last());
                }
                v = v * 2;
                k = k + 1;
            }
            proof {
                assert(pend + Seq::new((8 - self.bit_count) as nat, |i: int| false) =~= pad_to_byte(
                    pend,
                ));
                assert(b =~= complete_part(b) + pend);
                lemma_pack_bits_append(complete_part(b), pend);
                assert(0 < pend.len() < 8);
                assert(pack_bits(pend) =~= seq![bits_value(pad_to_byte(pend)) as u8]);
                lemma_bits_value_bound(pad_to_byte(pend));
                lemma2_to64();
                assert(pack_bits(b) =~= pack_bits(complete_part(b)).push(v));
            }
            self.bytes.push(v);
        } else {
            proof {
                assert(b =~= complete_part(b));
            }
        }
        let mut out: Vec<u8> = Vec::new();
        let mut i: usize = 0;
        while i < self.bytes.len()
            invariant
                i <= self.bytes@.len(),
                out@ =~= self.bytes@.take(i as int),
            decreases self.bytes@.len() - i,
        {
            out.push(self.bytes[i]);
            i = i + 1;
        }
        proof {
            assert(out@ =~= self.bytes@);
        }
        out
    }
}

} // verus!
