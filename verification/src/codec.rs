//! The block codec: 128 values at a time, each written as its distance from
//! a per-block base value, all distances of a block at one bit width.

use bitpacking::{BitPacker, BitPacker4x};
use vstd::arithmetic::power2::pow2;
use vstd::prelude::*;

verus! {

/// Number of values in a block.
pub const BLOCK_LEN: usize = 128;

/// `bitpacking::BitPacker4x`, carried as it is: nothing inside it is read.
#[verifier::external_type_specification]
#[verifier::external_body]
pub struct ExBitPacker4x(bitpacking::BitPacker4x);

/// The bytes that `BitPacker4x::compress` writes for a block of 128 `words`
/// at width `bits`.
pub uninterp spec fn packed_words(words: Seq<u32>, bits: u8) -> Seq<u8>;

/// The words that `BitPacker4x::decompress` reads out of `bytes` at width
/// `bits`.
pub uninterp spec fn unpacked_words(bytes: Seq<u8>, bits: u8) -> Seq<u32>;

/// Every word of `words` is below `2^bits`.
pub open spec fn fits(words: Seq<u32>, bits: nat) -> bool {
    forall|i: int| 0 <= i < words.len() ==> (#[trigger] words[i] as nat) < pow2(bits)
}

/// `BitPacker4x::new`: the packer for this machine. Nothing is claimed of it.
#[verifier::external_body]
pub(crate) fn new_packer() -> BitPacker4x {
    BitPacker4x::new()
}

/// `BitPacker4x::num_bits`: the least width, at most 32, at which every word
/// of the block fits.
#[verifier::external_body]
pub(crate) fn word_width(packer: &BitPacker4x, words: &Vec<u32>) -> (bits: u8)
    requires
        words@.len() == BLOCK_LEN,
    ensures
        bits <= 32,
        fits(words@, bits as nat),
        bits > 0 ==> !fits(words@, (bits - 1) as nat),
{
    packer.num_bits(words)
}

/// `BitPacker4x::compress`: overwrites `out`, which has the length of a
/// block packed at width `bits`, with the packed words. What is written
/// depends on the words and the width alone. Where every word fits in `bits`
/// bits, unpacking what was written at the same width gives the words back.
#[verifier::external_body]
pub(crate) fn pack_words(
    packer: &BitPacker4x,
    words: &Vec<u32>,
    out: &mut Vec<u8>,
    bits: u8,
) -> (written: usize)
    requires
        words@.len() == BLOCK_LEN,
        bits <= 32,
        old(out)@.len() == 16 * bits,
    ensures
        written == 16 * bits,
        final(out)@.len() == 16 * bits,
        final(out)@ == packed_words(words@, bits),
        fits(words@, bits as nat) ==> unpacked_words(final(out)@, bits) == words@,
{
    packer.compress(words, out, bits)
}

/// `BitPacker4x::decompress`: overwrites the 128 words of `out` with what
/// `bytes`, a block packed at width `bits`, holds. What is written depends
/// on the bytes and the width alone.
#[verifier::external_body]
pub(crate) fn unpack_words(
    packer: &BitPacker4x,
    bytes: &[u8],
    out: &mut Vec<u32>,
    bits: u8,
) -> (read: usize)
    requires
        bits <= 32,
        bytes@.len() == 16 * bits,
        old(out)@.len() == BLOCK_LEN,
    ensures
        read == 16 * bits,
        final(out)@ == unpacked_words(bytes@, bits),
        final(out)@.len() == BLOCK_LEN,
{
    packer.decompress(bytes, out, bits)
}

/// Every value of the batch is at least `base`.
pub open spec fn at_or_above(base: u32, values: Seq<u32>) -> bool {
    forall|i: int| 0 <= i < values.len() ==> base <= #[trigger] values[i]
}

/// The distance of each value from `base`.
pub open spec fn offsets(base: u32, values: Seq<u32>) -> Seq<u32> {
    Seq::new(values.len(), |i: int| (values[i] - base) as u32)
}

/// `bits` is the least width at which every word fits.
pub open spec fn is_least_width(words: Seq<u32>, bits: nat) -> bool {
    &&& fits(words, bits)
    &&& forall|b: nat| b < bits ==> !fits(words, b)
}

/// Number of bytes that a block packed at width `bits` occupies.
pub open spec fn packed_len(bits: u8) -> nat {
    (BLOCK_LEN * bits / 8) as nat
}

/// `base + word`, modulo `2^32`.
pub open spec fn add_base(base: u32, word: u32) -> u32 {
    ((base + word) % 0x1_0000_0000) as u32
}

/// Each word added to `base`, modulo `2^32`.
pub open spec fn rebased(base: u32, words: Seq<u32>) -> Seq<u32> {
    Seq::new(words.len(), |i: int| add_base(base, words[i]))
}

/// The bytes of a batch packed at width `bits`: its distances from `base`,
/// packed.
pub open spec fn packed(base: u32, values: Seq<u32>, bits: u8) -> Seq<u8> {
    packed_words(offsets(base, values), bits)
}

/// The values that a packed block stands for: each of its 128 unpacked
/// words added to `base`, modulo `2^32`.
pub open spec fn unpacked(base: u32, bytes: Seq<u8>, bits: u8) -> Seq<u32> {
    Seq::new(BLOCK_LEN as nat, |i: int| add_base(base, unpacked_words(bytes, bits)[i]))
}

/// Adding the base back undoes measuring from it.
pub proof fn lemma_rebased_offsets(base: u32, values: Seq<u32>)
    requires
        at_or_above(base, values),
    ensures
        rebased(base, offsets(base, values)) == values,
{
}

/// A width that holds every word also holds them at any larger width.
pub proof fn lemma_fits_widens(words: Seq<u32>, narrow: nat, wide: nat)
    requires
        fits(words, narrow),
        narrow <= wide,
    ensures
        fits(words, wide),
{
    assert forall|i: int| 0 <= i < words.len() implies (#[trigger] words[i] as nat) < pow2(
        wide,
    ) by {
        if narrow < wide {
            vstd::arithmetic::power2::lemma_pow2_strictly_increases(narrow, wide);
        }
    }
}

/// The least width of a block is unique.
pub proof fn lemma_least_width_unique(words: Seq<u32>, a: nat, b: nat)
    requires
        is_least_width(words, a),
        is_least_width(words, b),
    ensures
        a == b,
{
}

/// Measures every value of the batch from `base`.
pub fn distances_from(base: u32, values: &[u32]) -> (words: Vec<u32>)
    requires
        at_or_above(base, values@),
    ensures
        words@ == offsets(base, values@),
{
    let mut words: Vec<u32> = Vec::new();
    let mut i: usize = 0;
    while i < values.len()
        invariant
            i <= values@.len(),
            at_or_above(base, values@),
            words@.len() == i,
            forall|j: int| 0 <= j < i ==> #[trigger] words@[j] == (values@[j] - base) as u32,
        decreases values@.len() - i,
    {
        words.push(values[i] - base);
        i += 1;
    }
    words
}

/// Adds `base` to every word in place, modulo `2^32`.
pub fn add_base_to_each(base: u32, words: &mut Vec<u32>)
    ensures
        final(words)@ == rebased(base, old(words)@),
{
    let ghost before = words@;
    let mut i: usize = 0;
    while i < words.len()
        invariant
            i <= words@.len(),
            words@.len() == before.len(),
            forall|j: int| 0 <= j < i ==> #[trigger] words@[j] == add_base(base, before[j]),
            forall|j: int| i <= j < before.len() ==> #[trigger] words@[j] == before[j],
        decreases words@.len() - i,
    {
        let word = words[i];
        words.set(i, base.wrapping_add(word));
        i += 1;
    }
}

/// The block codec. It packs the distances of 128 values from a base at one
/// bit width, and reads them back.
pub struct BlockCodec {
    packer: BitPacker4x,
}

impl BlockCodec {
    /// A codec that uses the fastest packer this machine offers. Every
    /// codec packs and unpacks alike.
    pub fn new() -> (codec: Self) {
        BlockCodec { packer: new_packer() }
    }

    /// The smallest width `b` such that every `values[i] - base` fits in `b`
    /// bits. It is at most 32.
    pub fn required_bit_width(&self, base: u32, values: &[u32]) -> (bits: u8)
        requires
            values@.len() == BLOCK_LEN,
            at_or_above(base, values@),
        ensures
            bits <= 32,
            is_least_width(offsets(base, values@), bits as nat),
    {
        let words = distances_from(base, values);
        let bits = word_width(&self.packer, &words);
        proof {
            assert forall|b: nat| b < bits implies !fits(words@, b) by {
                if fits(words@, b) {
                    lemma_fits_widens(words@, b, (bits - 1) as nat);
                }
            }
        }
        bits
    }

    /// Packs the batch at width `bits` into `128 * bits / 8` bytes: each
    /// value as its distance from `base`. Where the width holds every
    /// distance, the bytes unpack to the batch; where it does not, they are
    /// still the packed distances, and unpack to something else.
    pub fn pack(&self, base: u32, values: &[u32], bits: u8) -> (bytes: Vec<u8>)
        requires
            values@.len() == BLOCK_LEN,
            at_or_above(base, values@),
            bits <= 32,
        ensures
            bytes@ == packed(base, values@, bits),
            bytes@.len() == packed_len(bits),
            fits(offsets(base, values@), bits as nat) ==> unpacked(base, bytes@, bits) == values@,
    {
        let words = distances_from(base, values);
        let len: usize = BLOCK_LEN * (bits as usize) / 8;
        let mut bytes: Vec<u8> = vec![0u8; len];
        let _ = pack_words(&self.packer, &words, &mut bytes, bits);
        proof {
            lemma_rebased_offsets(base, values@);
        }
        bytes
    }

    /// Reads a packed block back: always 128 values, each an unpacked word
    /// added to `base`.
    pub fn unpack(&self, base: u32, bytes: &[u8], bits: u8) -> (values: Vec<u32>)
        requires
            bits <= 32,
            bytes@.len() == packed_len(bits),
        ensures
            values@.len() == BLOCK_LEN,
            values@ == unpacked(base, bytes@, bits),
    {
        let mut values: Vec<u32> = vec![0u32; BLOCK_LEN];
        let _ = unpack_words(&self.packer, bytes, &mut values, bits);
        add_base_to_each(base, &mut values);
        values
    }
}

} // verus!
