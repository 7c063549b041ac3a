//! SipHash-1-3 from the `siphasher` crate, the hash behind flag
//! fingerprints.

use vstd::prelude::*;
use siphasher::sip::SipHasher13;
use std::hash::Hasher;

verus! {

#[verifier::external_type_specification]
#[verifier::external_body]
pub struct ExSipHasher13(SipHasher13);

/// The byte chunks written into a hasher so far, in order.
pub uninterp spec fn sip13_chunks(h: SipHasher13) -> Seq<Seq<u8>>;

/// The SipHash-1-3 value (keys 0 and 0) of a sequence of writes.
pub uninterp spec fn sip13_digest(chunks: Seq<Seq<u8>>) -> u64;

/// `SipHasher13::new`: a hasher with both keys 0 that has absorbed nothing.
#[verifier::external_body]
pub(crate) fn sip13_new() -> (h: SipHasher13)
    ensures
        sip13_chunks(h) == Seq::<Seq<u8>>::empty(),
{
    SipHasher13::new()
}

/// `Hasher::write` on a `SipHasher13`: the hasher has absorbed one more
/// chunk.
#[verifier::external_body]
pub(crate) fn sip13_write(h: &mut SipHasher13, bytes: &[u8])
    ensures
        sip13_chunks(*final(h)) == sip13_chunks(*old(h)).push(bytes@),
{
    h.write(bytes)
}

/// `Hasher::finish` on a `SipHasher13`: the hash of what was written, which
/// depends on the written chunks alone.
#[verifier::external_body]
pub(crate) fn sip13_finish(h: &SipHasher13) -> (r: u64)
    ensures
        r == sip13_digest(sip13_chunks(*h)),
{
    h.finish()
}

} // verus!
