//! Bit-level codec: a byte to and from its bits, and the least significant
//! bit of a single subpixel.

use vstd::arithmetic::power2::{lemma2_to64, lemma_pow2_strictly_increases, lemma_pow2_unfold, pow2};
use vstd::prelude::*;

verus! {

/// Number of bits in a byte, and so of subpixels that carry one byte.
pub const BITS_PER_BYTE: usize = 8;

const EMPTY_BYTE: u8 = 0b_0000_0000;

const LSB_MASK: u8 = 0b_0000_0001;

const LSB_INDEX: u8 = 0;

/// Whether the least significant bit of `x` is set.
pub open spec fn lsb(x: u8) -> bool {
    x % 2 == 1
}

/// `x` with its least significant bit set to `bit` and its other seven bits kept.
pub open spec fn with_lsb(x: u8, bit: bool) -> u8 {
    if bit {
        x | 1
    } else {
        x & 0xfe
    }
}

/// Bit `index` of `x`, counting from the least significant bit.
pub open spec fn bit_at(x: u8, index: u8) -> bool {
    (x >> index) & 1 == 1
}

/// The eight bits of a byte, most significant first.
pub open spec fn byte_bits(b: u8) -> Seq<bool> {
    Seq::new(8, |i: int| bit_at(b, (7 - i) as u8))
}

/// A bit as a binary digit.
pub open spec fn bit_value(bit: bool) -> nat {
    if bit {
        1
    } else {
        0
    }
}

/// The number whose binary digits, most significant first, are `bits`.
pub open spec fn bits_value(bits: Seq<bool>) -> nat
    decreases bits.len(),
{
    if bits.len() == 0 {
        0
    } else {
        2 * bits_value(bits.drop_last()) + bit_value(bits.last())
    }
}

/// The least significant bits of a run of subpixels, in order.
pub open spec fn lsbs(px: Seq<u8>) -> Seq<bool> {
    Seq::new(px.len(), |i: int| lsb(px[i]))
}

/// The byte that a run of subpixels carries in its least significant bits.
pub open spec fn chunk_byte(chunk: Seq<u8>) -> nat {
    bits_value(lsbs(chunk))
}

/// `px` with its first subpixels' least significant bits replaced by `bits`,
/// one bit per subpixel; the subpixels past the end of `bits` are kept.
pub open spec fn with_lsbs(px: Seq<u8>, bits: Seq<bool>) -> Seq<u8> {
    Seq::new(px.len(), |i: int| if i < bits.len() { with_lsb(px[i], bits[i]) } else { px[i] })
}

/// Reading back the least significant bit yields the bit that was written.
pub proof fn lemma_lsb_of_with_lsb(x: u8, bit: bool)
    ensures
        lsb(with_lsb(x, bit)) == bit,
{
    assert((x | 1u8) % 2 == 1) by (bit_vector);
    assert((x & 0xfeu8) % 2 == 0) by (bit_vector);
}

/// A byte is the value of its own bits.
pub proof fn lemma_byte_bits_value(b: u8)
    ensures
        bits_value(byte_bits(b)) == b,
{
    let s = byte_bits(b);
    let s7 = s.drop_last();
    let s6 = s7.drop_last();
    let s5 = s6.drop_last();
    let s4 = s5.drop_last();
    let s3 = s4.drop_last();
    let s2 = s3.drop_last();
    let s1 = s2.drop_last();
    let s0 = s1.drop_last();
    assert(bits_value(s0) == 0);
    assert(bits_value(s1) == bit_value(s[0]));
    assert(bits_value(s2) == 2 * bits_value(s1) + bit_value(s[1]));
    assert(bits_value(s3) == 2 * bits_value(s2) + bit_value(s[2]));
    assert(bits_value(s4) == 2 * bits_value(s3) + bit_value(s[3]));
    assert(bits_value(s5) == 2 * bits_value(s4) + bit_value(s[4]));
    assert(bits_value(s6) == 2 * bits_value(s5) + bit_value(s[5]));
    assert(bits_value(s7) == 2 * bits_value(s6) + bit_value(s[6]));
    assert(bits_value(s) == 2 * bits_value(s7) + bit_value(s[7]));
    assert(b as int == 128 * ((b >> 7u8) & 1u8) + 64 * ((b >> 6u8) & 1u8) + 32 * ((b >> 5u8) & 1u8)
        + 16 * ((b >> 4u8) & 1u8) + 8 * ((b >> 3u8) & 1u8) + 4 * ((b >> 2u8) & 1u8) + 2 * ((b
        >> 1u8) & 1u8) + ((b >> 0u8) & 1u8)) by (bit_vector);
    assert(forall|k: u8| #![auto] k < 8 ==> ((b >> k) & 1u8 == 1u8 || (b >> k) & 1u8 == 0u8))
        by (bit_vector);
}

/// Writing the bits of a byte into eight subpixels, most significant bit
/// first, and reading their least significant bits back gives the byte again,
/// whatever the subpixels held before.
pub proof fn lemma_decode_inverts_encode(b: u8, px: Seq<u8>)
    requires
        px.len() == BITS_PER_BYTE,
    ensures
        chunk_byte(with_lsbs(px, byte_bits(b))) == b,
{
    let written = with_lsbs(px, byte_bits(b));
    assert forall|i: int| 0 <= i < 8 implies lsb(#[trigger] written[i]) == byte_bits(b)[i] by {
        lemma_lsb_of_with_lsb(px[i], byte_bits(b)[i]);
    }
    assert(lsbs(written) =~= byte_bits(b));
    lemma_byte_bits_value(b);
}

/// Writes `bit` into the least significant bit of `byte`; the other bits stay.
pub fn encode(byte: &mut u8, bit: bool)
    ensures
        *final(byte) == with_lsb(*old(byte), bit),
{
    if bit {
        set_lsb(byte)
    } else {
        clear_lsb(byte)
    }
}

/// The bits of `byte`, most significant first.
pub fn byte_to_bits(byte: &u8) -> (r: [bool; 8])
    ensures
        r@ == byte_bits(*byte),
{
    let r = [
        is_bit_index_set(byte, 7),
        is_bit_index_set(byte, 6),
        is_bit_index_set(byte, 5),
        is_bit_index_set(byte, 4),
        is_bit_index_set(byte, 3),
        is_bit_index_set(byte, 2),
        is_bit_index_set(byte, 1),
        is_bit_index_set(byte, LSB_INDEX),
    ];
    assert(r@ =~= byte_bits(*byte));
    r
}

/// The byte carried by the least significant bits of eight subpixels, the
/// first subpixel holding the most significant bit.
pub fn decode(bytes: &[u8]) -> (r: u8)
    requires
        bytes@.len() == BITS_PER_BYTE,
    ensures
        r as nat == chunk_byte(bytes@),
{
    let mut byte: u8 = EMPTY_BYTE;
    let mut i: usize = 0;
    proof {
        lemma2_to64();
    }
    while i < BITS_PER_BYTE
        invariant
            bytes@.len() == BITS_PER_BYTE,
            i <= BITS_PER_BYTE,
            byte as nat == bits_value(lsbs(bytes@.take(i as int))),
            (byte as nat) < pow2(i as nat),
        decreases BITS_PER_BYTE - i,
    {
        proof {
            lemma2_to64();
            if i < 7 {
                lemma_pow2_strictly_increases(i as nat, 7);
            }
            lemma_pow2_unfold((i + 1) as nat);
        }
        byte = 2 * byte;
        let ghost doubled = byte;
        if is_bit_index_set(&bytes[i], LSB_INDEX) {
            set_lsb(&mut byte);
        }
        proof {
            let b = bytes[i as int];
            assert((b >> 0u8) & 1u8 == 1u8 <==> b % 2 == 1) by (bit_vector);
            assert(doubled % 2 == 0 ==> (doubled | 1u8) == doubled + 1) by (bit_vector);
            let s = lsbs(bytes@.take(i + 1));
            assert(s.drop_last() =~= lsbs(bytes@.take(i as int)));
            assert(s.last() == lsb(b));
        }
        i = i + 1;
    }
    assert(bytes@.take(8) =~= bytes@);
    byte
}

fn set_lsb(byte: &mut u8)
    ensures
        *final(byte) == with_lsb(*old(byte), true),
{
    *byte |= LSB_MASK;
}

fn clear_lsb(byte: &mut u8)
    ensures
        *final(byte) == with_lsb(*old(byte), false),
{
    *byte &= !LSB_MASK;
    assert(!1u8 == 0xfeu8) by (bit_vector);
}

fn index_value(index: u8) -> (r: u8)
    requires
        index < 8,
    ensures
        r == 1u8 << index,
{
    LSB_MASK << index
}

fn is_bit_index_set(byte: &u8, index: u8) -> (r: bool)
    requires
        index < 8,
    ensures
        r == bit_at(*byte, index),
{
    let b = *byte;
    let r = b & index_value(index) != EMPTY_BYTE;
    assert(index < 8 ==> ((b & (1u8 << index)) != 0 <==> (b >> index) & 1u8 == 1u8)) by (bit_vector);
    r
}

} // verus!
