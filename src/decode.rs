//! Reading a payload back out of a carrier.

use crate::carrier::{chunk, Carrier};
use crate::error::{string_from_utf8, SteganographyError};
use crate::lsb::{self, byte_bits, chunk_byte, lemma_decode_inverts_encode, with_lsbs};
use crate::payload::{bits_of, framed, Payload, END_OF_TEXT, START_OF_TEXT};
use vstd::prelude::*;
use vstd::utf8::{decode_utf8, encode_utf8, encode_utf8_decode_utf8, encode_utf8_valid_utf8, valid_utf8};

verus! {

/// The bytes that the least significant bits of `px` spell, eight subpixels
/// to a byte; a shorter run at the end is left out.
pub open spec fn hidden_bytes(px: Seq<u8>) -> Seq<u8> {
    Seq::new(px.len() / 8, |k: int| chunk_byte(chunk(px, k)) as u8)
}

/// `i` is the position of the first end-of-text delimiter in `s`.
pub open spec fn first_etx_at(s: Seq<u8>, i: int) -> bool {
    0 <= i < s.len() && s[i] == END_OF_TEXT && forall|j: int| 0 <= j < i ==> s[j] != END_OF_TEXT
}

/// The text of a byte stream that begins with the start-of-text delimiter
/// and holds an end-of-text delimiter after it: the bytes in between, up to
/// the first end-of-text. `None` for any other stream.
pub open spec fn framed_text(bytes: Seq<u8>) -> Option<Seq<u8>> {
    let rest = bytes.drop_first();
    if bytes.len() > 0 && bytes[0] == START_OF_TEXT && exists|i: int| first_etx_at(rest, i) {
        Some(rest.take(choose|i: int| first_etx_at(rest, i)))
    } else {
        None
    }
}

/// Reveals the UTF-8 text that a carrier conceals: the bytes between the
/// start-of-text byte in the first chunk and the first end-of-text byte after
/// it. Fails with `MalformedPayload` when the first byte is not start-of-text
/// or no end-of-text follows, and with `Utf8Error` when the bytes in between
/// are not valid UTF-8.
pub fn decode(carrier: &Carrier) -> (r: Result<String, SteganographyError>)
    ensures
        match framed_text(hidden_bytes(carrier@)) {
            None => r is Err && r->Err_0 is MalformedPayload,
            Some(t) => if valid_utf8(t) {
                r is Ok && r->Ok_0@ == decode_utf8(t)
            } else {
                r is Err && r->Err_0 is Utf8Error
            },
        },
{
    let ghost bytes = hidden_bytes(carrier@);
    let chunks = carrier.payload_chunks();
    if chunks.len() == 0 {
        return Err(SteganographyError::MalformedPayload);
    }
    let ghost rest = bytes.drop_first();
    let first = lsb::decode(chunks[0]);
    if !Payload::is_stx(&first) {
        return Err(SteganographyError::MalformedPayload);
    }
    let text_bytes_length_limit = chunks.len() - 1;
    let mut text_bytes: Vec<u8> = Vec::new();
    let mut i: usize = 1;
    let mut ended = false;
    while i < chunks.len() && !ended
        invariant
            chunks@.len() == bytes.len(),
            forall|k: int| 0 <= k < chunks@.len() ==> #[trigger] chunks@[k]@ == chunk(carrier@, k),
            forall|k: int| 0 <= k < chunks@.len() ==> #[trigger] chunks@[k]@.len() == 8,
            bytes == hidden_bytes(carrier@),
            rest == bytes.drop_first(),
            1 <= i <= chunks@.len(),
            text_bytes@ == rest.take(i - 1),
            forall|j: int| 0 <= j < i - 1 ==> rest[j] != END_OF_TEXT,
            ended ==> i < chunks@.len() && rest[i - 1] == END_OF_TEXT,
        decreases chunks@.len() - i + if ended { 0int } else { 1int },
    {
        let byte = lsb::decode(chunks[i]);
        assert(byte == rest[i - 1]);
        if Payload::not_etx(&byte) {
            text_bytes.push(byte);
            i = i + 1;
            assert(text_bytes@ =~= rest.take(i - 1));
        } else {
            ended = true;
        }
    }
    if text_bytes.len() < text_bytes_length_limit {
        proof {
            assert(first_etx_at(rest, i - 1));
            let c = choose|j: int| first_etx_at(rest, j);
            assert(c == i - 1);
        }
        match string_from_utf8(text_bytes) {
            Ok(text) => Ok(text),
            Err(e) => Err(SteganographyError::Utf8Error(e)),
        }
    } else {
        proof {
            assert forall|j: int| !first_etx_at(rest, j) by {
                if first_etx_at(rest, j) {
                    assert(rest[j] != END_OF_TEXT);
                }
            }
        }
        Err(SteganographyError::MalformedPayload)
    }
}

/// Reading back a carrier into which `bytes` were written gives `bytes` as its
/// first hidden bytes, whatever the subpixels held before.
pub proof fn lemma_written_bytes_read_back(bytes: Seq<u8>, px: Seq<u8>)
    requires
        bytes.len() * 8 <= px.len(),
    ensures
        hidden_bytes(with_lsbs(px, bits_of(bytes))).len() >= bytes.len(),
        forall|k: int|
            0 <= k < bytes.len() ==> #[trigger] hidden_bytes(with_lsbs(px, bits_of(bytes)))[k]
                == bytes[k],
{
    let w = with_lsbs(px, bits_of(bytes));
    assert(bytes.len() <= px.len() / 8) by (nonlinear_arith)
        requires bytes.len() * 8 <= px.len();
    assert forall|k: int| 0 <= k < bytes.len() implies #[trigger] hidden_bytes(w)[k]
        == bytes[k] by {
        assert(k * 8 + 8 <= bytes.len() * 8) by (nonlinear_arith)
            requires 0 <= k < bytes.len();
        let c = chunk(px, k);
        assert forall|j: int| 0 <= j < 8 implies #[trigger] chunk(w, k)[j] == with_lsbs(
            c,
            byte_bits(bytes[k]),
        )[j] by {
            assert((k * 8 + j) / 8 == k && (k * 8 + j) % 8 == j) by (nonlinear_arith)
                requires 0 <= j < 8;
        }
        assert(chunk(w, k) =~= with_lsbs(c, byte_bits(bytes[k])));
        lemma_decode_inverts_encode(bytes[k], c);
    }
}

/// Any text whose UTF-8 encoding holds no end-of-text byte, framed and written
/// into a carrier with room for all its bits, is revealed again unchanged.
pub proof fn lemma_round_trip(s: Seq<char>, px: Seq<u8>)
    requires
        forall|i: int| 0 <= i < encode_utf8(s).len() ==> encode_utf8(s)[i] != END_OF_TEXT,
        framed(encode_utf8(s)).len() * 8 <= px.len(),
    ensures
        framed_text(hidden_bytes(with_lsbs(px, bits_of(framed(encode_utf8(s)))))) == Some(
            encode_utf8(s),
        ),
        valid_utf8(encode_utf8(s)),
        decode_utf8(encode_utf8(s)) == s,
{
    let text = encode_utf8(s);
    let f = framed(text);
    lemma_written_bytes_read_back(f, px);
    let bytes = hidden_bytes(with_lsbs(px, bits_of(f)));
    let rest = bytes.drop_first();
    let n = text.len() as int;
    assert(bytes[0] == f[0]);
    assert forall|j: int| 0 <= j <= n implies #[trigger] rest[j] == f[j + 1] by {
        assert(bytes[j + 1] == f[j + 1]);
    }
    assert(first_etx_at(rest, n));
    let c = choose|j: int| first_etx_at(rest, j);
    assert(c == n);
    assert(rest.take(n) =~= text);
    encode_utf8_valid_utf8(s);
    encode_utf8_decode_utf8(s);
}

} // verus!
