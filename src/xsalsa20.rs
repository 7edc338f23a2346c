use vstd::prelude::*;

use salsa20::cipher::{KeyIvInit, StreamCipher, StreamCipherSeek};
use salsa20::XSalsa20;

use crate::byte_stream::{fill_zero, SyncByteStream};
use crate::error::StreamError;
use crate::reseeding::SeedableRandomGenerator;
use crate::block_source_byte_stream::{concat_blocks, lemma_concat_push};

verus! {

/// Length of an XSalsa20 seed: a 32-byte key followed by a 24-byte nonce.
pub const XSALSA20_SEED_LEN: usize = 56;

/// The byte at position `index` of the XSalsa20 keystream keyed by `seed`
/// (key = first 32 bytes, nonce = last 24 bytes).
pub uninterp spec fn xsalsa20_keystream_byte(seed: Seq<u8>, index: int) -> u8;

/// `len` keystream bytes of the stream keyed by `seed`, starting at byte `pos`.
pub open spec fn keystream(seed: Seq<u8>, pos: int, len: nat) -> Seq<u8> {
    Seq::new(len, |i: int| xsalsa20_keystream_byte(seed, pos + i))
}

/// Relies on salsa20's `XSalsa20`: `new_from_slices` keys the cipher with the
/// 32-byte key and 24-byte nonce (it fails only on other lengths), `seek` moves
/// to byte `pos` of the keystream, and `apply_keystream` XORs each byte of `buf`
/// with the keystream byte at its position. The keystream spans 2^64 - 1 blocks
/// of 64 bytes, so it does not end before byte `u64::MAX`.
#[verifier::external_body]
fn xsalsa20_apply_keystream(seed: &[u8], pos: u64, buf: &mut [u8])
    requires
        seed@.len() == XSALSA20_SEED_LEN,
        pos + old(buf)@.len() <= u64::MAX,
    ensures
        final(buf)@.len() == old(buf)@.len(),
        forall|i: int|
            0 <= i < old(buf)@.len() ==> #[trigger] final(buf)@[i] == old(buf)@[i]
                ^ xsalsa20_keystream_byte(seed@, pos + i),
{
    let mut cipher = XSalsa20::new_from_slices(&seed[..32], &seed[32..]).unwrap();
    cipher.seek(pos);
    cipher.apply_keystream(buf);
}

/// The byte `i` (0 = least significant) of `v` in little-endian order.
pub open spec fn le_byte(v: u64, i: int) -> u8 {
    (v >> (8 * i) as u64) as u8
}

/// The seed that `XSalsa20Rng::from_u64_seed(v)` uses: the little-endian bytes
/// of `v`, then zeroes up to 56 bytes.
pub open spec fn seed_of_u64(v: u64) -> Seq<u8> {
    Seq::new(XSALSA20_SEED_LEN as nat, |i: int| if i < 8 { le_byte(v, i) } else { 0u8 })
}

/// A byte stream that outputs the XSalsa20 keystream of its seed. Reads are
/// invariant to chunking: the stream is addressed by byte position.
pub struct XSalsa20Rng {
    seed: Vec<u8>,
    pos: u64,
}

impl XSalsa20Rng {
    /// The 56-byte seed.
    pub closed spec fn seed(&self) -> Seq<u8> {
        self.seed@
    }

    /// How many keystream bytes were read so far.
    pub closed spec fn pos(&self) -> nat {
        self.pos as nat
    }

    pub closed spec fn wf(&self) -> bool {
        self.seed@.len() == XSALSA20_SEED_LEN
    }

    /// A stream keyed by `seed` (32-byte key, then 24-byte nonce).
    pub fn from_seed_bytes(seed: Vec<u8>) -> (r: Self)
        requires
            seed@.len() == XSALSA20_SEED_LEN,
        ensures
            r.wf(),
            r.seed() == seed@,
            r.pos() == 0,
    {
        XSalsa20Rng { seed, pos: 0 }
    }

    /// A stream keyed from a small integer: its little-endian bytes open the
    /// key, everything else is zero. Not secure; meant for reproducible tests.
    pub fn from_u64_seed(seed: u64) -> (r: Self)
        ensures
            r.wf(),
            r.seed() == seed_of_u64(seed),
            r.pos() == 0,
    {
        let mut bytes: Vec<u8> = Vec::new();
        let mut i: usize = 0;
        while i < XSALSA20_SEED_LEN
            invariant
                0 <= i <= XSALSA20_SEED_LEN,
                bytes@.len() == i,
                forall|j: int| 0 <= j < i ==> bytes@[j] == seed_of_u64(seed)[j],
            decreases XSALSA20_SEED_LEN - i,
        {
            if i < 8 {
                bytes.push((seed >> (8 * i) as u64) as u8);
            } else {
                bytes.push(0u8);
            }
            i += 1;
        }
        assert(bytes@ =~= seed_of_u64(seed));
        XSalsa20Rng { seed: bytes, pos: 0 }
    }
}

impl SyncByteStream for XSalsa20Rng {
    open spec fn inv(&self) -> bool {
        self.wf()
    }

    open spec fn reads(&self, out: Seq<u8>, next: Self) -> bool {
        &&& self.wf()
        &&& next.wf()
        &&& next.seed() == self.seed()
        &&& next.pos() == self.pos() + out.len()
        &&& out == keystream(self.seed(), self.pos() as int, out.len())
    }

    /// Only a read past byte `u64::MAX` of the keystream fails.
    open spec fn may_fail(&self, n: nat) -> bool {
        self.pos() + n > u64::MAX
    }

    /// Reads that stay within the first `u64::MAX` keystream bytes succeed.
    open spec fn sustains(&self, count: nat, len: nat) -> bool {
        self.pos() + count * len <= u64::MAX
    }

    /// Fails with `EndOfStream` only where the read would pass byte `u64::MAX`.
    fn blocking_read(&mut self, dest: &mut [u8]) -> (r: Result<(), StreamError>)
        ensures
            r is Ok <==> old(self).pos() + old(dest)@.len() <= u64::MAX,
            r is Err ==> *final(self) == *old(self),
    {
        proof {
            assert forall|count: nat|
                count > 0 && #[trigger] self.sustains(count, dest@.len()) implies self.pos()
                + dest@.len() <= u64::MAX by {
                let l = dest@.len();
                assert(count * l >= l) by (nonlinear_arith)
                    requires
                        count > 0,
                ;
            }
        }
        if dest.len() as u64 > u64::MAX - self.pos {
            return Err(StreamError::EndOfStream);
        }
        let ghost before = *self;
        proof {
            assert forall|count: nat|
                count > 0 && #[trigger] before.sustains(count, dest@.len()) implies before.pos()
                + dest@.len() <= u64::MAX && before.pos() + dest@.len() + (count - 1) as nat
                * dest@.len() <= u64::MAX by {
                let l = dest@.len();
                assert(count * l == l + (count - 1) as nat * l) by (nonlinear_arith)
                    requires
                        count > 0,
                ;
            }
        }
        fill_zero(dest);
        xsalsa20_apply_keystream(self.seed.as_slice(), self.pos, dest);
        proof {
            assert forall|i: int| 0 <= i < dest@.len() implies dest@[i] == xsalsa20_keystream_byte(
                before.seed@,
                before.pos + i,
            ) by {
                let k = xsalsa20_keystream_byte(before.seed@, before.pos + i);
                assert(0u8 ^ k == k) by (bit_vector);
            }
            assert(dest@ =~= keystream(before.seed@, before.pos as int, dest@.len()));
        }
        self.pos = self.pos + dest.len() as u64;
        Ok(())
    }
}

impl SeedableRandomGenerator for XSalsa20Rng {
    open spec fn seed_len() -> nat {
        XSALSA20_SEED_LEN as nat
    }

    open spec fn keyed_output(seed: Seq<u8>, pos: int, len: nat) -> Seq<u8> {
        keystream(seed, pos, len)
    }

    open spec fn keyed_at(&self, seed: Seq<u8>, pos: nat) -> bool {
        self.wf() && self.seed() == seed && self.pos() == pos
    }

    proof fn lemma_keyed_read(g: Self, seed: Seq<u8>, pos: nat, out: Seq<u8>, next: Self) {
    }

    open spec fn keyed_may_fail(pos: nat, len: nat) -> bool {
        pos + len > u64::MAX
    }

    proof fn lemma_keyed_may_fail(g: Self, seed: Seq<u8>, pos: nat, len: nat) {
    }

    proof fn lemma_keyed_may_fail_within(total: nat, pos: nat, len: nat) {
    }

    proof fn lemma_keyed_concat(seed: Seq<u8>, pos: int, a: nat, b: nat) {
        assert(keystream(seed, pos, a) + keystream(seed, pos + a, b) =~= keystream(seed, pos, a + b));
    }

    fn seed_size() -> (r: usize) {
        XSALSA20_SEED_LEN
    }

    fn from_seed(seed: Vec<u8>) -> (r: Self) {
        XSalsa20Rng::from_seed_bytes(seed)
    }
}

/// Reads are invariant to chunking: a read of `a.len()` bytes followed by one
/// of `b.len()` bytes yields what a single read of both lengths yields.
pub proof fn lemma_chunked_reads_concatenate(
    s: XSalsa20Rng,
    a: Seq<u8>,
    mid: XSalsa20Rng,
    b: Seq<u8>,
    end: XSalsa20Rng,
)
    requires
        s.reads(a, mid),
        mid.reads(b, end),
    ensures
        s.reads(a + b, end),
{
    assert(a + b =~= keystream(s.seed(), s.pos() as int, (a.len() + b.len()) as nat));
}

/// Reads are invariant to chunking for any partition: consecutive reads that
/// take the stream through `states` yield, together, what one read of their
/// total length yields.
pub proof fn lemma_partitioned_reads(states: Seq<XSalsa20Rng>, outs: Seq<Seq<u8>>)
    requires
        outs.len() > 0,
        states.len() == outs.len() + 1,
        forall|i: int| 0 <= i < outs.len() ==> #[trigger] states[i].reads(outs[i], states[i + 1]),
    ensures
        states[0].reads(concat_blocks(outs), states.last()),
    decreases outs.len(),
{
    let n = outs.len() as int;
    if n == 1 {
        assert(outs.drop_first() =~= Seq::<Seq<u8>>::empty());
        assert(concat_blocks(outs.drop_first()) =~= Seq::<u8>::empty());
        assert(concat_blocks(outs) =~= outs[0]);
        let i0 = 0int;
        assert(states[i0].reads(outs[i0], states[i0 + 1]));
        assert(states.last() == states[1]);
    } else {
        let ps = states.take(n);
        let po = outs.take(n - 1);
        assert forall|i: int| 0 <= i < po.len() implies #[trigger] ps[i].reads(po[i], ps[i + 1]) by {
            assert(ps[i] == states[i] && ps[i + 1] == states[i + 1] && po[i] == outs[i]);
        }
        lemma_partitioned_reads(ps, po);
        assert(outs =~= po.push(outs[n - 1]));
        lemma_concat_push(po, outs[n - 1]);
        let i = n - 1;
        assert(states[i].reads(outs[i], states[i + 1]));
        assert(ps.last() == states[i]);
        assert(ps[0] == states[0]);
        lemma_chunked_reads_concatenate(states[0], concat_blocks(po), states[i], outs[i], states[i + 1]);
        assert(states.last() == states[i + 1]);
    }
}

} // verus!
