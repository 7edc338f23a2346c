use vstd::prelude::*;

use crate::block_source_byte_stream::{concat_blocks, lemma_concat_push};
use crate::byte_stream::SyncByteStream;
use crate::error::StreamError;

verus! {

/// A byte stream that can be keyed from a seed of fixed length, and whose
/// output is determined by its seed.
pub trait SeedableRandomGenerator: SyncByteStream {
    /// Length of a seed.
    spec fn seed_len() -> nat;

    /// The `len` bytes that the generator keyed by `seed` outputs from byte `pos` on.
    spec fn keyed_output(seed: Seq<u8>, pos: int, len: nat) -> Seq<u8>;

    /// This is the generator keyed by `seed`, after `pos` bytes were read from it.
    spec fn keyed_at(&self, seed: Seq<u8>, pos: nat) -> bool;

    /// A read from a keyed generator outputs its next keyed bytes.
    proof fn lemma_keyed_read(g: Self, seed: Seq<u8>, pos: nat, out: Seq<u8>, next: Self)
        requires
            g.keyed_at(seed, pos),
            g.reads(out, next),
        ensures
            out == Self::keyed_output(seed, pos as int, out.len()),
            next.keyed_at(seed, pos + out.len()),
    ;

    /// Keyed output has the length asked for, and consecutive pieces concatenate.
    proof fn lemma_keyed_concat(seed: Seq<u8>, pos: int, a: nat, b: nat)
        ensures
            Self::keyed_output(seed, pos, a).len() == a,
            Self::keyed_output(seed, pos, a) + Self::keyed_output(seed, pos + a, b)
                == Self::keyed_output(seed, pos, a + b),
    ;

    /// Whether reading `len` bytes from byte `pos` on of a keyed generator may fail.
    spec fn keyed_may_fail(pos: nat, len: nat) -> bool;

    /// A keyed generator fails only where its keyed reads may fail.
    proof fn lemma_keyed_may_fail(g: Self, seed: Seq<u8>, pos: nat, len: nat)
        requires
            g.keyed_at(seed, pos),
            g.may_fail(len),
        ensures
            Self::keyed_may_fail(pos, len),
    ;

    /// Where reading `total` bytes from the start cannot fail, no read within them can.
    proof fn lemma_keyed_may_fail_within(total: nat, pos: nat, len: nat)
        requires
            !Self::keyed_may_fail(0, total),
            pos + len <= total,
        ensures
            !Self::keyed_may_fail(pos, len),
    ;

    fn seed_size() -> (r: usize)
        ensures
            r == Self::seed_len(),
    ;

    fn from_seed(seed: Vec<u8>) -> (r: Self)
        requires
            seed@.len() == Self::seed_len(),
        ensures
            r.inv(),
            r.keyed_at(seed@, 0),
    ;
}

/// For each seed but the last, `r` bytes of the generator it keys; of the last, `used`.
pub open spec fn keyed_segments<G: SeedableRandomGenerator>(
    seeds: Seq<Seq<u8>>,
    r: nat,
    used: nat,
) -> Seq<Seq<u8>> {
    Seq::new(
        seeds.len(),
        |i: int|
            G::keyed_output(
                seeds[i],
                0,
                if i + 1 < seeds.len() {
                    r
                } else {
                    used
                },
            ),
    )
}

/// The bytes that a reseeding generator hands out: the keyed segments, in order.
pub open spec fn keyed_stream<G: SeedableRandomGenerator>(
    seeds: Seq<Seq<u8>>,
    r: nat,
    used: nat,
) -> Seq<u8> {
    concat_blocks(keyed_segments::<G>(seeds, r, used))
}

/// `a / b` rounded up.
pub open spec fn ceil_div(a: nat, b: nat) -> nat
    recommends
        b > 0,
{
    ((a + b - 1) as nat / b) as nat
}

/// Where `q * b == a + c` with `0 <= c < b` and `a > 0`, `q` is `a / b` rounded up.
proof fn lemma_ceil_div_exact(q: nat, b: nat, a: nat, c: nat)
    requires
        q * b == a + c,
        c < b,
        a > 0,
    ensures
        q == ceil_div(a, b),
{
    assert((a + b - 1) as nat == q * b + (b - 1 - c) as nat);
    vstd::arithmetic::div_mod::lemma_fundamental_div_mod_converse(
        (a + b - 1) as int,
        b as int,
        q as int,
        (b - 1 - c) as int,
    );
}

/// Where `a > j * b`, `a / b` rounded up is more than `j`.
proof fn lemma_ceil_div_above(a: nat, b: nat, j: nat)
    requires
        b > 0,
        a > j * b,
    ensures
        ceil_div(a, b) >= j + 1,
{
    assert((j + 1) * b <= a + b - 1) by (nonlinear_arith)
        requires
            a > j * b,
    ;
    vstd::arithmetic::div_mod::lemma_div_is_ordered(((j + 1) * b) as int, (a + b - 1) as int, b as int);
    vstd::arithmetic::div_mod::lemma_div_by_multiple((j + 1) as int, b as int);
}

/// Reads `len` bytes from `g` into `dest[start..start + len]`, leaving the
/// rest of `dest` as it was.
pub fn splice_read<G: SyncByteStream>(
    g: &mut G,
    dest: &mut [u8],
    start: usize,
    len: usize,
) -> (r: Result<(), StreamError>)
    requires
        old(g).inv(),
        start + len <= old(dest)@.len(),
    ensures
        final(g).inv(),
        final(dest)@.len() == old(dest)@.len(),
        final(dest)@.take(start as int) == old(dest)@.take(start as int),
        final(dest)@.skip(start + len) == old(dest)@.skip(start + len),
        r is Ok ==> old(g).reads(final(dest)@.subrange(start as int, start + len), *final(g)),
        r is Err ==> old(g).may_fail(len as nat),
{
    let (_, rest) = dest.split_at_mut(start);
    let (chunk, _) = rest.split_at_mut(len);
    let r = g.blocking_read(chunk);
    proof {
        assert(dest@.take(start as int) =~= old(dest)@.take(start as int));
        assert(dest@.skip(start + len) =~= old(dest)@.skip(start + len));
        assert(dest@.subrange(start as int, start + len) =~= chunk@);
    }
    r
}

/// A generator that re-keys an inner generator `G` from a seed source every
/// `reseed_every_n_bytes` bytes. The first read that asks for a byte keys it.
/// Once the inner generator or the seed source has failed, every later read
/// fails too.
pub struct ReseedingRandomGenerator<G, S> {
    generator: Option<G>,
    seed_source: S,
    reseed_every_n_bytes: usize,
    bytes_until_reseed: usize,
    failed: bool,
    emitted: Ghost<Seq<u8>>,
    seeds: Ghost<Seq<Seq<u8>>>,
    source_history: Ghost<Seq<S>>,
}

/// Appending to the last segment appends to the keyed stream.
proof fn lemma_extend_last<G: SeedableRandomGenerator>(
    seeds: Seq<Seq<u8>>,
    r: nat,
    used: nat,
    len: nat,
)
    requires
        seeds.len() > 0,
    ensures
        keyed_stream::<G>(seeds, r, used + len) == keyed_stream::<G>(seeds, r, used)
            + G::keyed_output(seeds.last(), used as int, len),
{
    let n = seeds.len() as int;
    let segs = keyed_segments::<G>(seeds, r, used);
    let segs2 = keyed_segments::<G>(seeds, r, used + len);
    let init = segs.take(n - 1);
    G::lemma_keyed_concat(seeds.last(), 0, used, len);
    assert(segs =~= init.push(segs[n - 1]));
    assert(segs2 =~= init.push(segs2[n - 1]));
    lemma_concat_push(init, segs[n - 1]);
    lemma_concat_push(init, segs2[n - 1]);
}

/// A new seed closes the last segment at `r` bytes and opens an empty one.
proof fn lemma_push_seed<G: SeedableRandomGenerator>(seeds: Seq<Seq<u8>>, r: nat, seed: Seq<u8>)
    ensures
        keyed_stream::<G>(seeds.push(seed), r, 0) == keyed_stream::<G>(seeds, r, r),
{
    let segs = keyed_segments::<G>(seeds, r, r);
    let segs2 = keyed_segments::<G>(seeds.push(seed), r, 0);
    G::lemma_keyed_concat(seed, 0, 0, 0);
    assert(G::keyed_output(seed, 0, 0) =~= Seq::<u8>::empty());
    assert(segs2 =~= segs.push(Seq::<u8>::empty()));
    lemma_concat_push(segs, Seq::<u8>::empty());
    assert(concat_blocks(segs) + Seq::<u8>::empty() =~= concat_blocks(segs));
}

impl<G: SeedableRandomGenerator, S: SyncByteStream> ReseedingRandomGenerator<G, S> {
    /// How many bytes the inner generator serves between two seeds.
    pub closed spec fn reseed_every(&self) -> nat {
        self.reseed_every_n_bytes as nat
    }

    /// How many bytes the current inner generator may still serve.
    pub closed spec fn budget(&self) -> nat {
        self.bytes_until_reseed as nat
    }

    /// Every byte handed out since construction, in order.
    pub closed spec fn emitted(&self) -> Seq<u8> {
        self.emitted@
    }

    /// The seeds read from the seed source since construction, in order.
    pub closed spec fn seeds(&self) -> Seq<Seq<u8>> {
        self.seeds@
    }

    pub open spec fn bytes_read(&self) -> nat {
        self.emitted().len()
    }

    pub open spec fn seed_reads(&self) -> nat {
        self.seeds().len()
    }

    pub closed spec fn seed_source(&self) -> S {
        self.seed_source
    }

    /// The seed source before each seed was read from it, then as it is now.
    pub closed spec fn source_history(&self) -> Seq<S> {
        self.source_history@
    }

    /// Each seed is what the seed source returned on one read, in order: the
    /// source went from `source_history()[i]` to `source_history()[i + 1]`
    /// while reading seed `i`.
    pub open spec fn seeds_from_source(&self) -> bool {
        let h = self.source_history();
        &&& h.len() == self.seeds().len() + 1
        &&& h.last() == self.seed_source()
        &&& forall|i: int|
            0 <= i < self.seeds().len() ==> #[trigger] h[i].reads(self.seeds()[i], h[i + 1])
    }

    /// The inner generator, where there is one.
    pub closed spec fn inner(&self) -> G {
        self.generator->Some_0
    }

    /// Whether an inner generator exists yet.
    pub closed spec fn is_seeded(&self) -> bool {
        self.generator is Some
    }

    /// Whether a read of the inner generator failed.
    pub closed spec fn has_failed(&self) -> bool {
        self.failed
    }

    pub closed spec fn wf(&self) -> bool {
        &&& self.reseed_every_n_bytes > 0
        &&& self.bytes_until_reseed <= self.reseed_every_n_bytes
        &&& self.seed_source.inv()
        &&& (!self.failed ==> self.seeds_from_source())
        &&& (self.generator is None <==> self.seeds@.len() == 0)
        &&& (self.generator is None ==> self.bytes_until_reseed == 0 && self.emitted@.len() == 0)
        &&& (self.generator is Some && !self.failed ==> {
            let g = self.generator->Some_0;
            &&& g.inv()
            &&& g.keyed_at(
                self.seeds@.last(),
                (self.reseed_every_n_bytes - self.bytes_until_reseed) as nat,
            )
            &&& self.emitted@ == keyed_stream::<G>(
                self.seeds@,
                self.reseed_every_n_bytes as nat,
                (self.reseed_every_n_bytes - self.bytes_until_reseed) as nat,
            )
        })
        &&& self.seeds@.len() * self.reseed_every_n_bytes == self.emitted@.len()
            + self.bytes_until_reseed
    }

    /// No seed was read that has not served a byte yet. Every successful read
    /// leaves the generator settled; only a read that failed right after
    /// re-keying leaves a fresh seed unused.
    pub open spec fn settled(&self) -> bool {
        &&& !self.has_failed()
        &&& self.budget() < self.reseed_every() || self.seed_reads() == 0
    }

    pub fn new(reseed_every_n_bytes: usize, seed_source: S) -> (r: Self)
        requires
            reseed_every_n_bytes > 0,
            seed_source.inv(),
        ensures
            r.wf(),
            r.settled(),
            !r.is_seeded(),
            !r.has_failed(),
            r.budget() == 0,
            r.reseed_every() == reseed_every_n_bytes,
            r.seed_source() == seed_source,
            r.emitted() == Seq::<u8>::empty(),
            r.seeds() == Seq::<Seq<u8>>::empty(),
            r.source_history() == seq![seed_source],
    {
        let ghost history = seq![seed_source];
        ReseedingRandomGenerator {
            generator: None,
            seed_source,
            reseed_every_n_bytes,
            bytes_until_reseed: 0,
            failed: false,
            emitted: Ghost(Seq::empty()),
            seeds: Ghost(Seq::empty()),
            source_history: Ghost(history),
        }
    }

    /// Reads a fresh seed and keys a new inner generator with a full budget.
    fn reseed(&mut self) -> (r: Result<(), StreamError>)
        requires
            old(self).wf(),
            !old(self).failed,
            old(self).bytes_until_reseed == 0,
        ensures
            final(self).wf(),
            r is Ok <==> !final(self).failed,
            final(self).reseed_every() == old(self).reseed_every(),
            final(self).emitted() == old(self).emitted(),
            old(self).seeds().is_prefix_of(final(self).seeds()),
            r is Ok ==> final(self).budget() == final(self).reseed_every()
                && final(self).seed_reads() == old(self).seed_reads() + 1
                && final(self).source_history() == old(self).source_history().push(
                final(self).seed_source(),
            ),
            r is Err ==> final(self).budget() == 0 && final(self).seeds() == old(self).seeds()
                && old(self).seed_source().may_fail(G::seed_len()),
            forall|count: nat|
                count > 0 && #[trigger] old(self).seed_source().sustains(count, G::seed_len())
                    ==> r is Ok && final(self).seed_source().sustains(
                    (count - 1) as nat,
                    G::seed_len(),
                ),
    {
        let mut new_seed: Vec<u8> = vec![0u8; G::seed_size()];
        let ghost src0 = self.seed_source;
        let read = self.seed_source.blocking_read(new_seed.as_mut_slice());
        if read.is_err() {
            self.failed = true;
            return read;
        }
        let ghost seed = new_seed@;
        let ghost before = self.seeds@;
        let ghost h0 = self.source_history@;
        self.generator = Some(G::from_seed(new_seed));
        self.bytes_until_reseed = self.reseed_every_n_bytes;
        self.seeds = Ghost(self.seeds@.push(seed));
        self.source_history = Ghost(self.source_history@.push(self.seed_source));
        proof {
            assert forall|i: int| 0 <= i < self.seeds@.len() implies #[trigger] self.source_history@[i].reads(
                self.seeds@[i],
                self.source_history@[i + 1],
            ) by {
                if i < before.len() {
                    assert(self.source_history@[i] == h0[i]);
                    assert(self.source_history@[i + 1] == h0[i + 1]);
                    assert(self.seeds@[i] == before[i]);
                } else {
                    assert(self.source_history@[i] == src0);
                }
            }
            let r = self.reseed_every_n_bytes as int;
            let k = before.len() as int;
            assert((k + 1) * r == k * r + r) by (nonlinear_arith);
            assert(self.seeds@.last() == seed);
            assert(before =~= self.seeds@.subrange(0, k));
            if k > 0 {
                lemma_push_seed::<G>(before, r as nat, seed);
            } else {
                assert(self.emitted@ =~= Seq::<u8>::empty());
                G::lemma_keyed_concat(seed, 0, 0, 0);
                let segs = keyed_segments::<G>(self.seeds@, r as nat, 0);
                assert(segs.len() == 1);
                assert(segs[0] == G::keyed_output(seed, 0, 0));
                assert(segs[0] =~= Seq::<u8>::empty());
                assert(segs.drop_first() =~= Seq::<Seq<u8>>::empty());
                assert(concat_blocks(segs.drop_first()) == Seq::<u8>::empty());
                assert(concat_blocks(segs) == segs[0] + concat_blocks(segs.drop_first()));
                assert(keyed_stream::<G>(self.seeds@, r as nat, 0) =~= Seq::<u8>::empty());
            }
        }
        Ok(())
    }

    /// Serves `len` bytes into `dest[start..]` from the current inner
    /// generator, within its budget.
    fn read_without_reseed(&mut self, dest: &mut [u8], start: usize, len: usize) -> (r: Result<
        (),
        StreamError,
    >)
        requires
            old(self).wf(),
            !old(self).failed,
            len <= old(self).bytes_until_reseed,
            start + len <= old(dest)@.len(),
        ensures
            final(self).wf(),
            r is Ok <==> !final(self).failed,
            final(self).reseed_every() == old(self).reseed_every(),
            final(self).seeds() == old(self).seeds(),
            final(dest)@.len() == old(dest)@.len(),
            final(dest)@.take(start as int) == old(dest)@.take(start as int),
            r is Ok ==> final(self).budget() == old(self).budget() - len && final(self).emitted()
                == old(self).emitted() + final(dest)@.subrange(start as int, start + len),
            r is Err ==> final(self).budget() == old(self).budget() && final(self).emitted()
                == old(self).emitted() && old(self).inner().may_fail(len as nat)
                && G::keyed_may_fail(0, old(self).reseed_every()) && len > 0,
            len == 0 ==> r is Ok && *final(self) == *old(self),
            final(self).source_history() == old(self).source_history(),
            final(self).seed_source() == old(self).seed_source(),
    {
        if len == 0 {
            proof {
                assert(dest@.subrange(start as int, start as int) =~= Seq::<u8>::empty());
                assert(self.emitted@ + Seq::<u8>::empty() =~= self.emitted@);
            }
            return Ok(());
        }
        let ghost used = (self.reseed_every_n_bytes - self.bytes_until_reseed) as nat;
        let ghost seeds = self.seeds@;
        let ghost g0 = self.generator->Some_0;
        let r = match &mut self.generator {
            Some(g) => splice_read(g, dest, start, len),
            None => Err(StreamError::SourceFailed),
        };
        if r.is_err() {
            proof {
                let re = self.reseed_every_n_bytes as nat;
                if !G::keyed_may_fail(0, re) {
                    G::lemma_keyed_may_fail_within(re, used, len as nat);
                    G::lemma_keyed_may_fail(g0, seeds.last(), used, len as nat);
                }
            }
            self.failed = true;
        } else {
            proof {
                let chunk = dest@.subrange(start as int, start + len);
                let g1 = self.generator->Some_0;
                G::lemma_keyed_read(g0, seeds.last(), used, chunk, g1);
                lemma_extend_last::<G>(seeds, self.reseed_every_n_bytes as nat, used, len as nat);
            }
            self.bytes_until_reseed = self.bytes_until_reseed - len;
            self.emitted = Ghost(self.emitted@ + dest@.subrange(start as int, start + len));
        }
        r
    }
}

impl<G: SeedableRandomGenerator, S: SyncByteStream> SyncByteStream for ReseedingRandomGenerator<G, S> {
    open spec fn inv(&self) -> bool {
        self.wf()
    }

    /// A read appends what it hands out to the emitted bytes, and re-keys
    /// exactly when the budget runs out.
    open spec fn reads(&self, out: Seq<u8>, next: Self) -> bool {
        &&& next.reseed_every() == self.reseed_every()
        &&& next.emitted() == self.emitted() + out
        &&& self.seeds().is_prefix_of(next.seeds())
        &&& self.source_history().is_prefix_of(next.source_history())
        &&& next.seeds_from_source()
        &&& !next.has_failed()
        &&& (self.settled() ==> next.settled())
    }

    /// Fails only after an earlier failure, where a keyed generator may fail
    /// within `reseed_every` bytes, or where the seed source does not promise
    /// the seeds that the read needs.
    open spec fn may_fail(&self, n: nat) -> bool {
        ||| self.has_failed()
        ||| (n > 0 && G::keyed_may_fail(0, self.reseed_every()))
        ||| (n > self.budget() && !self.seed_source().sustains(
            ceil_div((n - self.budget()) as nat, self.reseed_every()),
            G::seed_len(),
        ))
    }

    fn blocking_read(&mut self, dest: &mut [u8]) -> (r: Result<(), StreamError>)
        ensures
            old(self).has_failed() ==> r == Err::<(), StreamError>(StreamError::SourceFailed)
                && *final(self) == *old(self),
            !old(self).has_failed() && old(dest)@.len() == 0 ==> r is Ok && *final(self) == *old(
                self,
            ),
            r is Ok ==> final(self).seed_reads() == old(self).seed_reads() + if old(
                self,
            ).budget() >= old(dest)@.len() {
                0
            } else {
                ceil_div(
                    (old(dest)@.len() - old(self).budget()) as nat,
                    old(self).reseed_every(),
                )
            },
    {
        if self.failed {
            return Err(StreamError::SourceFailed);
        }
        let n = dest.len();
        let mut done: usize = 0;
        let ghost mut reseeded = false;
        let ghost b0 = self.budget();
        let ghost re = self.reseed_every();
        let ghost s0 = self.seed_reads();
        let ghost needed = if n > b0 {
            ceil_div((n - b0) as nat, re)
        } else {
            0nat
        };
        let ghost promised = self.seed_source().sustains(needed, G::seed_len());
        while n - done > self.bytes_until_reseed
            invariant
                self.wf(),
                !self.failed,
                done <= n,
                n == dest@.len(),
                n == old(dest)@.len(),
                self.reseed_every() == old(self).reseed_every(),
                self.emitted() == old(self).emitted() + dest@.take(done as int),
                old(self).seeds().is_prefix_of(self.seeds()),
                old(self).source_history().is_prefix_of(self.source_history()),
                !old(self).has_failed(),
                !reseeded ==> *self == *old(self),
                b0 == old(self).budget(),
                re == old(self).reseed_every(),
                s0 == old(self).seed_reads(),
                needed == (if n > b0 {
                    ceil_div((n - b0) as nat, re)
                } else {
                    0nat
                }),
                promised == old(self).seed_source().sustains(needed, G::seed_len()),
                self.seed_reads() >= s0,
                reseeded ==> self.seed_reads() > s0 && done == b0 + (self.seed_reads() - s0 - 1)
                    * re,
                promised ==> self.seed_source().sustains(
                    (needed - (self.seed_reads() - s0)) as nat,
                    G::seed_len(),
                ) && self.seed_reads() - s0 <= needed,
                !reseeded ==> done == 0 && self.seeds() == old(self).seeds() && self.budget() == old(
                    self,
                ).budget(),
                reseeded ==> self.budget() == self.reseed_every() && done < n && old(self).budget()
                    < n,
            decreases 2 * (n - done) + if self.bytes_until_reseed == 0 {
                1int
            } else {
                0
            },
        {
            let ghost done_start = done;
            let ghost budget_start = self.budget();
            if self.bytes_until_reseed > 0 {
                let k = self.bytes_until_reseed;
                let ghost e0 = self.emitted();
                let ghost d0 = dest@;
                let r = self.read_without_reseed(dest, done, k);
                if r.is_err() {
                    return r;
                }
                proof {
                    assert(dest@.take((done + k) as int) =~= dest@.take(done as int)
                        + dest@.subrange(done as int, done + k));
                }
                done = done + k;
            }
            let ghost sd0 = self.seeds();
            let ghost h0 = self.source_history();
            proof {
                let j = (self.seed_reads() - s0) as nat;
                assert(done == b0 + j * re && n > b0 + j * re) by {
                    if reseeded {
                        assert((j - 1) as nat * re + re == j * re) by (nonlinear_arith)
                            requires
                                j > 0,
                        ;
                    }
                }
                if promised {
                    lemma_ceil_div_above((n - b0) as nat, re, j);
                }
            }
            let r = self.reseed();
            if r.is_err() {
                return r;
            }
            proof {
                let o = old(self).seeds();
                assert(o =~= self.seeds().subrange(0, o.len() as int)) by {
                    assert(o =~= sd0.subrange(0, o.len() as int));
                    assert(sd0 =~= self.seeds().subrange(0, sd0.len() as int));
                }
                let oh = old(self).source_history();
                assert(oh =~= self.source_history().subrange(0, oh.len() as int)) by {
                    assert(oh =~= h0.subrange(0, oh.len() as int));
                    assert(h0 =~= self.source_history().subrange(0, h0.len() as int));
                }
                reseeded = true;
            }
        }
        let rest = n - done;
        let ghost e1 = self.emitted();
        let r = self.read_without_reseed(dest, done, rest);
        if r.is_err() {
            return r;
        }
        proof {
            assert(dest@.take(n as int) =~= dest@.take(done as int) + dest@.subrange(done as int, n as int));
            assert(dest@.take(n as int) =~= dest@);
            assert(self.emitted() == old(self).emitted() + dest@);
            let o = old(self).seeds();
            assert(o =~= self.seeds().subrange(0, o.len() as int));
            assert(o.is_prefix_of(self.seeds()));
            let oh = old(self).source_history();
            assert(oh =~= self.source_history().subrange(0, oh.len() as int));
            assert(old(self).settled() ==> self.settled());
            if reseeded {
                let s1 = self.seed_reads() as int;
                let s0 = old(self).seed_reads() as int;
                let re = self.reseed_every() as int;
                assert((s1 - s0) * re == s1 * re - s0 * re) by (nonlinear_arith);
                assert(s1 - s0 > 0) by (nonlinear_arith)
                    requires
                        (s1 - s0) * re > 0,
                        re > 0,
                ;
                lemma_ceil_div_exact(
                    (self.seed_reads() - old(self).seed_reads()) as nat,
                    self.reseed_every(),
                    (n - old(self).budget()) as nat,
                    self.budget(),
                );
            }
        }
        Ok(())
    }
}

/// What a reseeding generator hands out: for each seed it read but the last,
/// `R` bytes of the generator that seed keys, then the bytes used so far of
/// the generator keyed by the last seed.
pub proof fn lemma_reseeding_output<G: SeedableRandomGenerator, S: SyncByteStream>(
    g: ReseedingRandomGenerator<G, S>,
)
    requires
        g.wf(),
        !g.has_failed(),
    ensures
        g.seeds_from_source(),
        g.seed_reads() > 0 ==> g.emitted() == keyed_stream::<G>(
            g.seeds(),
            g.reseed_every(),
            (g.reseed_every() - g.budget()) as nat,
        ),
        g.seed_reads() == 0 ==> g.emitted() == Seq::<u8>::empty(),
{
}

/// Reseeding cadence: in a settled generator the seeds, each the result of
/// one read of the seed source, number one per started run of `reseed_every`
/// bytes, that is `bytes_read / R` rounded up (none before the first byte is
/// asked for).
pub proof fn lemma_reseed_cadence<G: SeedableRandomGenerator, S: SyncByteStream>(
    g: ReseedingRandomGenerator<G, S>,
)
    requires
        g.wf(),
        g.settled(),
    ensures
        g.seed_reads() == ceil_div(g.bytes_read(), g.reseed_every()),
        g.seeds_from_source(),
{
    let q = g.seed_reads();
    let re = g.reseed_every();
    let br = g.bytes_read();
    let b = g.budget();
    assert(q * re == br + b);
    if q == 0 {
        assert(br == 0);
        assert((re - 1) as nat / re == 0) by (nonlinear_arith)
            requires
                re > 0,
        ;
    } else {
        assert(b < re);
        if br == 0 {
            assert(false) by (nonlinear_arith)
                requires
                    q * re == b,
                    b < re,
                    q > 0,
            ;
        }
        lemma_ceil_div_exact(q, re, br, b);
    }
}

/// A clone is a new generator on a clone of the seed source, with fresh
/// state: it does not share the keystream position of the generator it was cloned from.
impl<G: SeedableRandomGenerator, S: SyncByteStream + Clone> Clone for ReseedingRandomGenerator<G, S> {
    fn clone(&self) -> (r: Self)
        ensures
            !r.is_seeded(),
            !r.has_failed(),
            r.budget() == 0,
            r.reseed_every() == self.reseed_every(),
            r.emitted() == Seq::<u8>::empty(),
            r.seeds() == Seq::<Seq<u8>>::empty(),
            r.source_history() == seq![r.seed_source()],
            self.reseed_every() > 0 && r.seed_source().inv() ==> r.wf() && r.settled(),
    {
        let seed_source = self.seed_source.clone();
        let ghost history = seq![seed_source];
        ReseedingRandomGenerator {
            generator: None,
            seed_source,
            reseed_every_n_bytes: self.reseed_every_n_bytes,
            bytes_until_reseed: 0,
            failed: false,
            emitted: Ghost(Seq::empty()),
            seeds: Ghost(Seq::empty()),
            source_history: Ghost(history),
        }
    }
}

} // verus!
