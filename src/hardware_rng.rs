use vstd::prelude::*;

use crate::byte_stream::{fill_zero, zeroes, SyncByteStream};
use crate::error::StreamError;

verus! {

#[verifier::external_type_specification]
#[verifier::external_body]
pub struct ExRdRand(rdrand::RdRand);

#[verifier::external_type_specification]
#[verifier::external_body]
pub struct ExRdSeed(rdrand::RdSeed);

/// Relies on rdrand's `RdRand::new`: `Ok` only where the CPU offers RDRAND.
#[verifier::external_body]
fn probe_rdrand() -> (r: Option<rdrand::RdRand>) {
    rdrand::RdRand::new().ok()
}

/// Relies on rdrand's `RdSeed::new`: `Ok` only where the CPU offers RDSEED.
#[verifier::external_body]
fn probe_rdseed() -> (r: Option<rdrand::RdSeed>) {
    rdrand::RdSeed::new().ok()
}

/// Relies on rdrand's `RdRand::try_fill_bytes`, which fills the whole buffer
/// or reports a hardware failure, and never panics.
#[verifier::external_body]
fn rdrand_fill(rng: &mut rdrand::RdRand, dest: &mut [u8]) -> (ok: bool)
    ensures
        final(dest)@.len() == old(dest)@.len(),
{
    rng.try_fill_bytes(dest).is_ok()
}

/// Relies on rdrand's `RdSeed::try_fill_bytes`, which fills the whole buffer
/// or reports a hardware failure, and never panics.
#[verifier::external_body]
fn rdseed_fill(rng: &mut rdrand::RdSeed, dest: &mut [u8]) -> (ok: bool)
    ensures
        final(dest)@.len() == old(dest)@.len(),
{
    rng.try_fill_bytes(dest).is_ok()
}

/// A byte stream from the CPU's RDRAND instruction.
#[derive(Clone, Copy)]
pub struct RdRandGenerator {
    rdrand: rdrand::RdRand,
}

/// A byte stream from the CPU's RDSEED instruction.
#[derive(Clone, Copy)]
pub struct RdSeedGenerator {
    rdseed: rdrand::RdSeed,
}

/// A stream that outputs only zero bytes, the identity of XOR.
#[derive(Clone, Copy)]
pub struct ZeroesGenerator;

/// A stream that either delegates to `G` or, without one, outputs zeroes.
/// The zeroes are safe only inside an XOR composition with a stream that
/// carries entropy.
#[derive(Clone, Copy)]
pub struct SyncByteStreamOrZeroes<G> {
    stream: Option<G>,
}

impl RdRandGenerator {
    /// RDRAND where the CPU has it, zeroes otherwise.
    pub fn new_if_supported() -> (r: SyncByteStreamOrZeroes<RdRandGenerator>)
        ensures
            r.inv(),
    {
        match probe_rdrand() {
            Some(rdrand) => SyncByteStreamOrZeroes::new_stream(RdRandGenerator { rdrand }),
            None => SyncByteStreamOrZeroes::new_zeroes(),
        }
    }

    /// Zeroes, with RDRAND switched off.
    pub fn new_zeroes() -> (r: SyncByteStreamOrZeroes<RdRandGenerator>)
        ensures
            r.is_zeroes_spec(),
    {
        SyncByteStreamOrZeroes::new_zeroes()
    }
}

impl RdSeedGenerator {
    /// RDSEED where the CPU has it, zeroes otherwise.
    pub fn new_if_supported() -> (r: SyncByteStreamOrZeroes<RdSeedGenerator>)
        ensures
            r.inv(),
    {
        match probe_rdseed() {
            Some(rdseed) => SyncByteStreamOrZeroes::new_stream(RdSeedGenerator { rdseed }),
            None => SyncByteStreamOrZeroes::new_zeroes(),
        }
    }
}

impl SyncByteStream for RdRandGenerator {
    open spec fn inv(&self) -> bool {
        true
    }

    /// Any bytes: hardware randomness.
    open spec fn reads(&self, out: Seq<u8>, next: Self) -> bool {
        true
    }

    /// Fails with `SourceFailed` where the hardware reports a failure.
    fn blocking_read(&mut self, dest: &mut [u8]) -> (r: Result<(), StreamError>) {
        if rdrand_fill(&mut self.rdrand, dest) {
            Ok(())
        } else {
            Err(StreamError::SourceFailed)
        }
    }
}

impl SyncByteStream for RdSeedGenerator {
    open spec fn inv(&self) -> bool {
        true
    }

    /// Any bytes: hardware randomness.
    open spec fn reads(&self, out: Seq<u8>, next: Self) -> bool {
        true
    }

    /// Fails with `SourceFailed` where the hardware reports a failure.
    fn blocking_read(&mut self, dest: &mut [u8]) -> (r: Result<(), StreamError>) {
        if rdseed_fill(&mut self.rdseed, dest) {
            Ok(())
        } else {
            Err(StreamError::SourceFailed)
        }
    }
}

impl SyncByteStream for ZeroesGenerator {
    open spec fn inv(&self) -> bool {
        true
    }

    open spec fn reads(&self, out: Seq<u8>, next: Self) -> bool {
        out == zeroes(out.len())
    }

    open spec fn may_fail(&self, n: nat) -> bool {
        false
    }

    open spec fn sustains(&self, count: nat, len: nat) -> bool {
        true
    }

    fn blocking_read(&mut self, dest: &mut [u8]) -> (r: Result<(), StreamError>)
        ensures
            r is Ok,
    {
        fill_zero(dest);
        Ok(())
    }
}

impl<G: SyncByteStream> SyncByteStreamOrZeroes<G> {
    /// Whether this stream outputs zeroes.
    pub closed spec fn is_zeroes_spec(&self) -> bool {
        self.stream is None
    }

    /// The wrapped stream, where there is one.
    pub closed spec fn inner(&self) -> G
        recommends
            !self.is_zeroes_spec(),
    {
        self.stream->Some_0
    }

    pub fn new_stream(stream: G) -> (r: Self)
        ensures
            !r.is_zeroes_spec(),
            r.inner() == stream,
    {
        SyncByteStreamOrZeroes { stream: Some(stream) }
    }

    /// A stream of zeroes.
    pub fn new_zeroes() -> (r: Self)
        ensures
            r.is_zeroes_spec(),
    {
        SyncByteStreamOrZeroes { stream: None }
    }

    pub fn is_zeroes(&self) -> (r: bool)
        ensures
            r == self.is_zeroes_spec(),
    {
        self.stream.is_none()
    }
}

impl<G: SyncByteStream> SyncByteStream for SyncByteStreamOrZeroes<G> {
    open spec fn inv(&self) -> bool {
        !self.is_zeroes_spec() ==> self.inner().inv()
    }

    open spec fn reads(&self, out: Seq<u8>, next: Self) -> bool {
        if self.is_zeroes_spec() {
            next.is_zeroes_spec() && out == zeroes(out.len())
        } else {
            !next.is_zeroes_spec() && self.inner().reads(out, next.inner())
        }
    }

    /// A stream of zeroes never fails; otherwise the inner stream decides.
    open spec fn may_fail(&self, n: nat) -> bool {
        !self.is_zeroes_spec() && self.inner().may_fail(n)
    }

    open spec fn sustains(&self, count: nat, len: nat) -> bool {
        self.is_zeroes_spec() || self.inner().sustains(count, len)
    }

    fn blocking_read(&mut self, dest: &mut [u8]) -> (r: Result<(), StreamError>)
        ensures
            old(self).is_zeroes_spec() ==> r is Ok && final(dest)@ == zeroes(old(dest)@.len()),
            !old(self).is_zeroes_spec() ==> !final(self).is_zeroes_spec(),
    {
        match &mut self.stream {
            Some(stream) => stream.blocking_read(dest),
            None => {
                fill_zero(dest);
                Ok(())
            },
        }
    }
}

} // verus!
