use vstd::prelude::*;

use rand::rngs::OsRng;
use rand::RngCore;

use crate::byte_stream::SyncByteStream;
use crate::error::StreamError;

verus! {

/// Relies on rand's `OsRng::try_fill_bytes` (getrandom): it fills the whole
/// buffer from the operating system's secure generator or reports an error.
#[verifier::external_body]
fn os_fill(dest: &mut [u8]) -> (ok: bool)
    ensures
        final(dest)@.len() == old(dest)@.len(),
{
    OsRng.try_fill_bytes(dest).is_ok()
}

/// A byte stream from the operating system's secure random generator.
#[derive(Clone, Copy)]
pub struct OsRandomGenerator;

impl SyncByteStream for OsRandomGenerator {
    open spec fn inv(&self) -> bool {
        true
    }

    /// Any bytes: operating-system entropy.
    open spec fn reads(&self, out: Seq<u8>, next: Self) -> bool {
        true
    }

    /// Fails with `SourceFailed` where the operating system reports an error.
    fn blocking_read(&mut self, dest: &mut [u8]) -> (r: Result<(), StreamError>) {
        if os_fill(dest) {
            Ok(())
        } else {
            Err(StreamError::SourceFailed)
        }
    }
}

} // verus!
