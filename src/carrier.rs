//! The carrier: the subpixels of an RGB image that hold, or will hold, a payload.

use crate::error::SteganographyError;
use crate::lsb::{self, with_lsb, BITS_PER_BYTE};
use vstd::prelude::*;
use vstd::slice::slice_subrange;

verus! {

/// Fewest subpixels that a carrier may have.
pub const MIN_CARRIER_CAPACITY: usize = 27;

/// The `k`-th run of eight subpixels of `px`.
pub open spec fn chunk(px: Seq<u8>, k: int) -> Seq<u8> {
    px.subrange(k * 8, k * 8 + 8)
}

/// Image data, three 8-bit subpixels per pixel in raster order, that conceals
/// or will conceal a payload.
pub struct Carrier {
    subpixels: Vec<u8>,
}

impl View for Carrier {
    type V = Seq<u8>;

    /// The subpixels in raster order.
    closed spec fn view(&self) -> Seq<u8> {
        self.subpixels@
    }
}

impl Carrier {
    /// The carrier is not below the minimum capacity.
    pub open spec fn wf(&self) -> bool {
        self@.len() >= MIN_CARRIER_CAPACITY
    }

    /// Wraps the subpixels of an RGB image; fails when there are fewer than
    /// the minimum capacity.
    pub fn new(subpixels: Vec<u8>) -> (r: Result<Carrier, SteganographyError>)
        ensures
            r is Ok <==> subpixels@.len() >= MIN_CARRIER_CAPACITY,
            r is Ok ==> r->Ok_0@ == subpixels@ && r->Ok_0.wf(),
            r is Err ==> r->Err_0 is SmallCarrier,
    {
        if subpixels.len() >= MIN_CARRIER_CAPACITY {
            Ok(Carrier { subpixels })
        } else {
            Err(SteganographyError::SmallCarrier)
        }
    }

    /// The number of subpixels, one payload bit each.
    pub fn capacity(&self) -> (r: usize)
        ensures
            r == self@.len(),
    {
        self.subpixels.len()
    }

    /// Every subpixel, in raster order.
    pub fn subpixels(&self) -> (r: &[u8])
        ensures
            r@ == self@,
    {
        self.subpixels.as_slice()
    }

    /// The non-overlapping runs of eight subpixels, one byte's worth each, in
    /// raster order; a shorter run at the end is left out.
    pub fn payload_chunks(&self) -> (r: Vec<&[u8]>)
        ensures
            r@.len() == self@.len() / 8,
            forall|k: int| 0 <= k < r@.len() ==> #[trigger] r@[k]@ == chunk(self@, k),
            forall|k: int| 0 <= k < r@.len() ==> #[trigger] r@[k]@.len() == BITS_PER_BYTE,
    {
        let all = self.subpixels.as_slice();
        let len = all.len();
        let n = len / BITS_PER_BYTE;
        let mut r: Vec<&[u8]> = Vec::with_capacity(n);
        let mut k: usize = 0;
        while k < n
            invariant
                all@ == self@,
                len == self@.len(),
                n == self@.len() / 8,
                k <= n,
                r@.len() == k,
                forall|j: int| 0 <= j < k ==> #[trigger] r@[j]@ == chunk(self@, j),
                forall|j: int| 0 <= j < k ==> #[trigger] r@[j]@.len() == BITS_PER_BYTE,
            decreases n - k,
        {
            assert(k * 8 + 8 <= n * 8 <= len) by (nonlinear_arith)
                requires k < n, n == len / 8;
            r.push(slice_subrange(all, k * BITS_PER_BYTE, k * BITS_PER_BYTE + BITS_PER_BYTE));
            k = k + 1;
        }
        r
    }

    /// Sets the least significant bit of subpixel `i` to `bit`.
    pub(crate) fn write_lsb(&mut self, i: usize, bit: bool)
        requires
            i < old(self)@.len(),
        ensures
            final(self)@ == old(self)@.update(i as int, with_lsb(old(self)@[i as int], bit)),
    {
        let mut subpixel = self.subpixels[i];
        lsb::encode(&mut subpixel, bit);
        self.subpixels.set(i, subpixel);
    }

    /// The subpixels, possibly changed, as a plain buffer.
    pub fn unwrap(self) -> (r: Vec<u8>)
        ensures
            r@ == self@,
    {
        self.subpixels
    }
}

} // verus!
