use vstd::prelude::*;

use crate::byte_stream::SyncByteStream;
use crate::error::StreamError;
use crate::xsalsa20::{keystream, XSalsa20Rng};
use crate::byte_stream::zeroes;

verus! {

/// Byte-wise XOR of two sequences of equal length.
pub open spec fn xor_seqs(a: Seq<u8>, b: Seq<u8>) -> Seq<u8> {
    Seq::new(a.len(), |i: int| a[i] ^ b[i])
}

/// XORs `source` into `dest`, byte for byte.
pub fn apply_xor(dest: &mut [u8], source: &[u8])
    requires
        old(dest)@.len() == source@.len(),
    ensures
        final(dest)@ == xor_seqs(source@, old(dest)@),
{
    let n = dest.len();
    let mut i: usize = 0;
    while i < n
        invariant
            0 <= i <= n,
            n == dest@.len(),
            n == source@.len(),
            n == old(dest)@.len(),
            forall|j: int| 0 <= j < i ==> #[trigger] dest@[j] == source@[j] ^ old(dest)@[j],
            forall|j: int| i <= j < n ==> #[trigger] dest@[j] == old(dest)@[j],
        decreases n - i,
    {
        let x = dest[i] ^ source[i];
        proof {
            let (a, b) = (dest@[i as int], source@[i as int]);
            assert(a ^ b == b ^ a) by (bit_vector);
        }
        dest[i] = x;
        i += 1;
    }
    assert(dest@ =~= xor_seqs(source@, old(dest)@));
}

/// The XOR of two byte streams. Each read takes as many bytes from each
/// stream as it hands out, the first stream's into a scratch buffer, the
/// second's into the destination, and XORs them; both reads run before an
/// error is reported.
#[derive(Clone, Copy)]
pub struct XorByteStream<S1, S2> {
    stream1: S1,
    stream2: S2,
}

/// The sequential XOR composer used for seeds.
pub type CompositeRng<S1, S2> = XorByteStream<S1, S2>;

impl<S1: SyncByteStream, S2: SyncByteStream> XorByteStream<S1, S2> {
    pub closed spec fn stream1(&self) -> S1 {
        self.stream1
    }

    pub closed spec fn stream2(&self) -> S2 {
        self.stream2
    }

    pub fn new(stream1: S1, stream2: S2) -> (r: Self)
        ensures
            r.stream1() == stream1,
            r.stream2() == stream2,
    {
        XorByteStream { stream1, stream2 }
    }
}

impl<S1: SyncByteStream, S2: SyncByteStream> SyncByteStream for XorByteStream<S1, S2> {
    open spec fn inv(&self) -> bool {
        self.stream1().inv() && self.stream2().inv()
    }

    /// The output is the XOR of what each stream read, position by position.
    open spec fn reads(&self, out: Seq<u8>, next: Self) -> bool {
        exists|a: Seq<u8>, b: Seq<u8>|
            {
                &&& #[trigger] self.stream1().reads(a, next.stream1())
                &&& #[trigger] self.stream2().reads(b, next.stream2())
                &&& a.len() == out.len()
                &&& b.len() == out.len()
                &&& out == xor_seqs(a, b)
            }
    }

    /// The read fails only where one of the two streams may fail.
    open spec fn may_fail(&self, n: nat) -> bool {
        self.stream1().may_fail(n) || self.stream2().may_fail(n)
    }

    open spec fn sustains(&self, count: nat, len: nat) -> bool {
        self.stream1().sustains(count, len) && self.stream2().sustains(count, len)
    }

    fn blocking_read(&mut self, dest: &mut [u8]) -> (r: Result<(), StreamError>) {
        let mut scratch: Vec<u8> = vec![0u8; dest.len()];
        let r1 = self.stream1.blocking_read(scratch.as_mut_slice());
        let r2 = self.stream2.blocking_read(dest);
        if r1.is_err() {
            return r1;
        }
        if r2.is_err() {
            return r2;
        }
        let ghost b = dest@;
        apply_xor(dest, scratch.as_slice());
        proof {
            assert(old(self).stream1().reads(scratch@, self.stream1()));
            assert(old(self).stream2().reads(b, self.stream2()));
        }
        Ok(())
    }
}

/// XOR of two keystreams: each output byte is the XOR of the two streams'
/// bytes at that position.
pub proof fn lemma_xor_of_keystreams(
    x: XorByteStream<XSalsa20Rng, XSalsa20Rng>,
    out: Seq<u8>,
    next: XorByteStream<XSalsa20Rng, XSalsa20Rng>,
)
    requires
        x.reads(out, next),
    ensures
        out == xor_seqs(
            keystream(x.stream1().seed(), x.stream1().pos() as int, out.len()),
            keystream(x.stream2().seed(), x.stream2().pos() as int, out.len()),
        ),
{
}

/// XOR of a stream with an identical copy of itself is all zeroes, for any length.
pub proof fn lemma_xor_with_itself_is_zero(
    x: XorByteStream<XSalsa20Rng, XSalsa20Rng>,
    out: Seq<u8>,
    next: XorByteStream<XSalsa20Rng, XSalsa20Rng>,
)
    requires
        x.stream1().seed() == x.stream2().seed(),
        x.stream1().pos() == x.stream2().pos(),
        x.reads(out, next),
    ensures
        out == zeroes(out.len()),
{
    let k = keystream(x.stream1().seed(), x.stream1().pos() as int, out.len());
    lemma_xor_of_keystreams(x, out, next);
    assert forall|i: int| 0 <= i < out.len() implies out[i] == 0u8 by {
        let v = k[i];
        assert(v ^ v == 0u8) by (bit_vector);
    }
    assert(out =~= zeroes(out.len()));
}

} // verus!
