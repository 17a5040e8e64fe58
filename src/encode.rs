//! Writing a payload into a carrier.

use crate::carrier::Carrier;
use crate::error::SteganographyError;
use crate::lsb::with_lsbs;
use crate::payload::{bits_of, Payload};
use vstd::prelude::*;

verus! {

/// Conceals a payload in a carrier, one bit in the least significant bit of
/// each subpixel from the first on; the subpixels past the payload's length are
/// left as they were. When the payload has more bits than the carrier has
/// subpixels, fails and leaves the carrier unchanged.
pub fn encode(payload: &Payload, carrier: &mut Carrier) -> (r: Result<(), SteganographyError>)
    requires
        payload.wf(),
    ensures
        r is Ok <==> payload@.len() * 8 <= old(carrier)@.len(),
        r is Ok ==> final(carrier)@ == with_lsbs(old(carrier)@, bits_of(payload@)),
        r is Err ==> final(carrier)@ == old(carrier)@ && r->Err_0 is SmallCarrier,
{
    if carrier.capacity() >= payload.length() {
        let bits = payload.bits();
        let ghost start = carrier@;
        let mut i: usize = 0;
        while i < bits.len()
            invariant
                bits@ == bits_of(payload@),
                bits@.len() <= start.len(),
                i <= bits@.len(),
                carrier@ == with_lsbs(start, bits@.take(i as int)),
            decreases bits@.len() - i,
        {
            carrier.write_lsb(i, bits[i]);
            i = i + 1;
            assert(carrier@ =~= with_lsbs(start, bits@.take(i as int)));
        }
        assert(bits@.take(i as int) =~= bits@);
        Ok(())
    } else {
        Err(SteganographyError::SmallCarrier)
    }
}

} // verus!
