//! The payload: text framed between a start-of-text and an end-of-text byte.

use crate::lsb::{byte_bits, byte_to_bits, BITS_PER_BYTE};
use vstd::prelude::*;
use vstd::string::StringSliceAdditionalSpecFns;

verus! {

/// The start-of-text delimiter, U+0002, as a byte.
pub const START_OF_TEXT: u8 = 0x02;

/// The end-of-text delimiter, U+0003, as a byte.
pub const END_OF_TEXT: u8 = 0x03;

/// `text` between the two delimiters.
pub open spec fn framed(text: Seq<u8>) -> Seq<u8> {
    seq![START_OF_TEXT] + text + seq![END_OF_TEXT]
}

/// The bits of a byte string, eight per byte, each byte most significant bit
/// first.
pub open spec fn bits_of(bytes: Seq<u8>) -> Seq<bool> {
    Seq::new(bytes.len() * 8, |i: int| byte_bits(bytes[i / 8])[i % 8])
}

/// UTF-8 encoded data to be concealed in a carrier, held framed.
pub struct Payload {
    bytes: Vec<u8>,
}

impl View for Payload {
    type V = Seq<u8>;

    /// The framed bytes.
    closed spec fn view(&self) -> Seq<u8> {
        self.bytes@
    }
}

impl Payload {
    /// The bit length of the payload fits in a `usize`.
    pub open spec fn wf(&self) -> bool {
        self@.len() * 8 <= usize::MAX
    }

    /// Creates a payload that frames `data` between the delimiters.
    pub fn new(data: &str) -> (r: Payload)
        requires
            framed(data.spec_bytes()).len() * 8 <= usize::MAX,
        ensures
            r@ == framed(data.spec_bytes()),
            r.wf(),
    {
        let text = data.as_bytes();
        let mut bytes: Vec<u8> = Vec::with_capacity(text.len() + 2);
        bytes.push(START_OF_TEXT);
        let mut i: usize = 0;
        while i < text.len()
            invariant
                i <= text@.len(),
                text@ == data.spec_bytes(),
                bytes@ == seq![START_OF_TEXT] + text@.take(i as int),
            decreases text@.len() - i,
        {
            bytes.push(text[i]);
            i = i + 1;
            assert(bytes@ =~= seq![START_OF_TEXT] + text@.take(i as int));
        }
        bytes.push(END_OF_TEXT);
        assert(text@.take(i as int) =~= text@);
        assert(bytes@ =~= framed(data.spec_bytes()));
        Payload { bytes }
    }

    /// Whether a byte is the start-of-text delimiter.
    pub fn is_stx(byte: &u8) -> (r: bool)
        ensures
            r == (*byte == START_OF_TEXT),
    {
        *byte == START_OF_TEXT
    }

    /// Whether a byte is not the end-of-text delimiter.
    pub fn not_etx(byte: &u8) -> (r: bool)
        ensures
            r == (*byte != END_OF_TEXT),
    {
        *byte != END_OF_TEXT
    }

    /// The total number of bits of the framed payload.
    pub fn length(&self) -> (r: usize)
        requires
            self.wf(),
        ensures
            r == self@.len() * 8,
    {
        self.bytes.len() * BITS_PER_BYTE
    }

    /// The bits of the framed payload, each byte most significant bit first.
    pub fn bits(&self) -> (r: Vec<bool>)
        requires
            self.wf(),
        ensures
            r@ == bits_of(self@),
    {
        let mut r: Vec<bool> = Vec::new();
        let mut i: usize = 0;
        while i < self.bytes.len()
            invariant
                self.wf(),
                i <= self@.len(),
                r@ == bits_of(self@.take(i as int)),
            decreases self@.len() - i,
        {
            let bits = byte_to_bits(&self.bytes[i]);
            let mut j: usize = 0;
            while j < BITS_PER_BYTE
                invariant
                    self.wf(),
                    i < self@.len(),
                    j <= 8,
                    bits@ == byte_bits(self@[i as int]),
                    r@ == bits_of(self@.take(i as int)) + bits@.take(j as int),
                decreases 8 - j,
            {
                r.push(bits[j]);
                j = j + 1;
                assert(r@ =~= bits_of(self@.take(i as int)) + bits@.take(j as int));
            }
            proof {
                let prev = self@.take(i as int);
                let next = self@.take(i + 1);
                assert forall|k: int| 0 <= k < next.len() * 8 implies #[trigger] bits_of(next)[k]
                    == (bits_of(prev) + bits@)[k] by {
                    if k < prev.len() * 8 {
                        assert(k / 8 < prev.len()) by (nonlinear_arith)
                            requires 0 <= k < prev.len() * 8;
                    } else {
                        assert(k / 8 == i && k % 8 == k - prev.len() * 8) by (nonlinear_arith)
                            requires prev.len() * 8 <= k < prev.len() * 8 + 8, prev.len() == i;
                    }
                }
                assert(bits_of(next) =~= bits_of(prev) + bits@);
            }
            i = i + 1;
        }
        assert(self@.take(i as int) =~= self@);
        r
    }
}

/// The bits of any payload start with those of the start-of-text delimiter and
/// end with those of the end-of-text delimiter, whatever the text.
pub proof fn lemma_framed_bits_delimited(text: Seq<u8>)
    ensures
        bits_of(framed(text)).take(8) == byte_bits(START_OF_TEXT),
        bits_of(framed(text)).skip(bits_of(framed(text)).len() - 8) == byte_bits(END_OF_TEXT),
{
    let f = framed(text);
    let b = bits_of(f);
    assert(b.take(8) =~= byte_bits(START_OF_TEXT));
    assert forall|k: int| 0 <= k < 8 implies #[trigger] b.skip(b.len() - 8)[k] == byte_bits(
        END_OF_TEXT,
    )[k] by {
        let n = f.len();
        assert((n * 8 - 8 + k) / 8 == n - 1 && (n * 8 - 8 + k) % 8 == k) by (nonlinear_arith)
            requires 0 <= k < 8, n >= 2;
    }
    assert(b.skip(b.len() - 8) =~= byte_bits(END_OF_TEXT));
}

} // verus!
