use vstd::prelude::*;

use crate::error::StreamError;

verus! {

/// A source of bytes that fills a whole buffer per read.
pub trait SyncByteStream: Sized {
    /// What holds of the stream between reads; by default nothing.
    open spec fn inv(&self) -> bool {
        true
    }

    /// A successful read that filled the buffer with `out` may leave the stream
    /// as `next`; by default any bytes and any next state.
    open spec fn reads(&self, out: Seq<u8>, next: Self) -> bool {
        true
    }

    /// A read of `n` bytes may fail; by default any read may.
    open spec fn may_fail(&self, n: nat) -> bool {
        true
    }

    /// The next `count` reads of `len` bytes each all succeed; by default no
    /// such promise.
    open spec fn sustains(&self, count: nat, len: nat) -> bool {
        false
    }

    /// Fills `dest` entirely; a partial read is never a success.
    fn blocking_read(&mut self, dest: &mut [u8]) -> (r: Result<(), StreamError>)
        requires
            old(self).inv(),
        ensures
            final(self).inv(),
            final(dest)@.len() == old(dest)@.len(),
            r is Ok ==> old(self).reads(final(dest)@, *final(self)),
            r is Err ==> old(self).may_fail(old(dest)@.len()),
            forall|count: nat|
                count > 0 && #[trigger] old(self).sustains(count, old(dest)@.len()) ==> r is Ok
                    && final(self).sustains((count - 1) as nat, old(dest)@.len()),
    ;
}

/// A source that hands out one whole block per read.
pub trait SyncBlockSource: Sized {
    /// What holds of the source between reads; by default nothing.
    open spec fn inv(&self) -> bool {
        true
    }

    /// A successful read that returned `block` may leave the source as `next`;
    /// by default any block and any next state.
    open spec fn yields(&self, block: Seq<u8>, next: Self) -> bool {
        true
    }

    /// A read may fail; by default any read may.
    open spec fn may_fail(&self) -> bool {
        true
    }

    /// The next `count` reads all succeed, each with a block of `len` bytes;
    /// by default no such promise.
    open spec fn delivers(&self, count: nat, len: nat) -> bool {
        false
    }

    fn blocking_read(&mut self) -> (r: Result<Vec<u8>, StreamError>)
        requires
            old(self).inv(),
        ensures
            final(self).inv(),
            r is Ok ==> old(self).yields(r->Ok_0@, *final(self)),
            r is Err ==> old(self).may_fail(),
            forall|count: nat, len: nat|
                count > 0 && #[trigger] old(self).delivers(count, len) ==> r is Ok && r->Ok_0@.len()
                    == len && final(self).delivers((count - 1) as nat, len),
    ;
}

/// The sequence of `n` zero bytes.
pub open spec fn zeroes(n: nat) -> Seq<u8> {
    Seq::new(n, |i: int| 0u8)
}

/// Sets every byte of `dest` to zero.
pub fn fill_zero(dest: &mut [u8])
    ensures
        final(dest)@ == zeroes(old(dest)@.len()),
{
    let n = dest.len();
    let mut i: usize = 0;
    while i < n
        invariant
            0 <= i <= n,
            n == dest@.len(),
            forall|j: int| 0 <= j < i ==> dest@[j] == 0u8,
        decreases n - i,
    {
        dest[i] = 0;
        i += 1;
    }
    assert(dest@ =~= zeroes(n as nat));
}

} // verus!
