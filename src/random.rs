use vstd::prelude::*;

use crate::byte_stream::SyncByteStream;
use crate::error::StreamError;
use crate::hardware_rng::{RdRandGenerator, RdSeedGenerator, SyncByteStreamOrZeroes};
use crate::os::OsRandomGenerator;
use crate::reseeding::ReseedingRandomGenerator;
use crate::xor_byte_stream::{CompositeRng, XorByteStream};
use crate::xsalsa20::XSalsa20Rng;

verus! {

/// How many bytes the XSalsa20 generator serves between two seeds: 1 GiB.
pub const RESEED_EVERY_N_BYTES: usize = 1073741824;

/// The seed stream: operating-system entropy XOR RDSEED, so that entropy
/// remains where RDSEED is missing.
pub type SeedRng = CompositeRng<OsRandomGenerator, SyncByteStreamOrZeroes<RdSeedGenerator>>;

/// The XSalsa20 generator, reseeded every 1 GiB from `S`.
pub type ReseedingXSalsa20<S> = ReseedingRandomGenerator<XSalsa20Rng, S>;

/// The random stream: RDRAND (or zeroes) XOR the reseeded XSalsa20 stream.
pub type SecureRng<S> = XorByteStream<SyncByteStreamOrZeroes<RdRandGenerator>, ReseedingXSalsa20<S>>;

/// A fresh seed stream. Never fails; the `Result` fits producer factories.
pub fn secure_seed_rng() -> (r: Result<SeedRng, StreamError>)
    ensures
        r is Ok,
        r->Ok_0.inv(),
{
    let rdseed = RdSeedGenerator::new_if_supported();
    Ok(CompositeRng::new(OsRandomGenerator, rdseed))
}

/// The XSalsa20 stream keyed from `seed_source` and reseeded every 1 GiB.
pub fn rng_xsalsa<S: SyncByteStream>(seed_source: S) -> (r: ReseedingXSalsa20<S>)
    requires
        seed_source.inv(),
    ensures
        r.inv(),
        r.settled(),
        !r.is_seeded(),
        r.reseed_every() == RESEED_EVERY_N_BYTES,
        r.seed_source() == seed_source,
        r.bytes_read() == 0,
{
    ReseedingRandomGenerator::new(RESEED_EVERY_N_BYTES, seed_source)
}

/// RDRAND where the CPU has it, zeroes otherwise.
pub fn rng_rdrand_or_zeroes() -> (r: SyncByteStreamOrZeroes<RdRandGenerator>)
    ensures
        r.inv(),
{
    RdRandGenerator::new_if_supported()
}

/// A stream of zeroes in place of RDRAND.
pub fn rng_zeroes() -> (r: SyncByteStreamOrZeroes<RdRandGenerator>)
    ensures
        r.inv(),
        r.is_zeroes_spec(),
{
    SyncByteStreamOrZeroes::new_zeroes()
}

/// The two streams that the random stream XORs: RDRAND (zeroes where it is
/// missing or `disable_rdrand` is set), and an XSalsa20 stream reseeded every
/// 1 GiB from `seed_source`. The zeroes are safe only inside that XOR.
pub fn secure_rng_parts<S: SyncByteStream>(seed_source: S, disable_rdrand: bool) -> (r: (
    SyncByteStreamOrZeroes<RdRandGenerator>,
    ReseedingXSalsa20<S>,
))
    requires
        seed_source.inv(),
    ensures
        r.0.inv(),
        r.1.inv(),
        disable_rdrand ==> r.0.is_zeroes_spec(),
        r.1.reseed_every() == RESEED_EVERY_N_BYTES,
        r.1.seed_source() == seed_source,
        r.1.bytes_read() == 0,
        !r.1.is_seeded(),
        r.1.settled(),
{
    let rng_rdrand = if disable_rdrand {
        RdRandGenerator::new_zeroes()
    } else {
        RdRandGenerator::new_if_supported()
    };
    (rng_rdrand, rng_xsalsa(seed_source))
}

/// The random stream of the wiper: RDRAND (zeroes where it is missing or
/// `disable_rdrand` is set) XOR an XSalsa20 stream reseeded every 1 GiB
/// from `seed_source`.
pub fn secure_rng<S: SyncByteStream>(seed_source: S, disable_rdrand: bool) -> (r: SecureRng<S>)
    requires
        seed_source.inv(),
    ensures
        r.inv(),
        disable_rdrand ==> r.stream1().is_zeroes_spec(),
        r.stream2().reseed_every() == RESEED_EVERY_N_BYTES,
        r.stream2().seed_source() == seed_source,
        r.stream2().bytes_read() == 0,
        !r.stream2().is_seeded(),
        r.stream2().settled(),
{
    let (rng_rdrand, rng_xsalsa) = secure_rng_parts(seed_source, disable_rdrand);
    XorByteStream::new(rng_rdrand, rng_xsalsa)
}

} // verus!
