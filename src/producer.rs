use vstd::prelude::*;

use crate::block_source_byte_stream::{
    concat_blocks, lemma_concat_push, yields_chain, BlockSourceByteStream,
};
use crate::xsalsa20::{keystream, XSalsa20Rng};
use crate::byte_stream::{SyncBlockSource, SyncByteStream};
use crate::error::StreamError;

verus! {

#[verifier::external_type_specification]
#[verifier::external_body]
#[verifier::reject_recursive_types(T)]
pub struct ExReceiver<T>(flume::Receiver<T>);

/// Relies on flume's `Receiver::recv`: it blocks until a product arrives and
/// fails only once every sender is gone and the channel is empty.
#[verifier::external_body]
fn channel_recv<T>(receiver: &flume::Receiver<T>) -> (r: Option<T>) {
    receiver.recv().ok()
}

/// Relies on flume's `Receiver::try_recv`: a product if one is waiting, else
/// whether the channel is merely empty or has lost all senders.
#[verifier::external_body]
fn channel_try_recv<T>(receiver: &flume::Receiver<T>) -> (r: Result<T, StreamError>)
    ensures
        r is Err ==> r->Err_0 == StreamError::Empty || r->Err_0 == StreamError::Disconnected,
{
    match receiver.try_recv() {
        Ok(product) => Ok(product),
        Err(flume::TryRecvError::Empty) => Err(StreamError::Empty),
        Err(flume::TryRecvError::Disconnected) => Err(StreamError::Disconnected),
    }
}

/// Relies on flume's `Receiver::drain`: takes every product waiting right now,
/// in channel order, without blocking.
#[verifier::external_body]
fn channel_drain<T>(receiver: &flume::Receiver<T>) -> (r: Vec<T>) {
    receiver.drain().collect()
}

/// Relies on flume's `Receiver::len`: the number of products waiting right now.
#[verifier::external_body]
fn channel_len<T>(receiver: &flume::Receiver<T>) -> (r: usize) {
    receiver.len()
}

/// Relies on flume's `Receiver::clone`: another handle on the same channel.
#[verifier::external_body]
fn channel_clone<T>(receiver: &flume::Receiver<T>) -> (r: flume::Receiver<T>) {
    receiver.clone()
}

/// A handle that takes products out of a producer's channel. Several handles
/// on one channel split the products: each product reaches one of them.
pub trait ProductReceiver<T> {
    /// Waits for the next product; fails once the producer is gone.
    fn blocking_get_product(&self) -> (r: Result<T, StreamError>);

    /// Every product waiting right now, in order; possibly none.
    fn get_all_available_products(&self) -> (r: Vec<T>);

    /// The next product if one is waiting.
    fn try_get_product(&self) -> (r: Result<T, StreamError>);

    /// How many products wait in the channel (advisory only).
    fn num_products_in_buffer(&self) -> (r: usize);
}

/// Every waiting product, or, where none waits, the next one to arrive.
pub fn blocking_get_batch<T, R: ProductReceiver<T>>(receiver: &R) -> (r: Result<Vec<T>, StreamError>)
    ensures
        r is Ok ==> r->Ok_0@.len() > 0,
{
    let batch = receiver.get_all_available_products();
    if batch.len() > 0 {
        return Ok(batch);
    }
    match receiver.blocking_get_product() {
        Ok(product) => {
            let mut single: Vec<T> = Vec::new();
            single.push(product);
            Ok(single)
        },
        Err(e) => Err(e),
    }
}

/// A receiver on the bounded channel of a thread-pool producer.
#[verifier::reject_recursive_types(T)]
pub struct ThreadPoolProductReceiver<T> {
    receiver: flume::Receiver<T>,
}

impl<T> ThreadPoolProductReceiver<T> {
    /// A handle on the channel whose receiving end is `receiver`.
    pub fn from_channel(receiver: flume::Receiver<T>) -> (r: Self) {
        ThreadPoolProductReceiver { receiver }
    }

    /// Another handle on the same channel.
    pub fn clone_receiver(&self) -> (r: Self) {
        ThreadPoolProductReceiver { receiver: channel_clone(&self.receiver) }
    }
}

impl<T> ProductReceiver<T> for ThreadPoolProductReceiver<T> {
    fn blocking_get_product(&self) -> (r: Result<T, StreamError>)
        ensures
            r is Err ==> r->Err_0 == StreamError::Disconnected,
    {
        match channel_recv(&self.receiver) {
            Some(product) => Ok(product),
            None => Err(StreamError::Disconnected),
        }
    }

    fn get_all_available_products(&self) -> (r: Vec<T>) {
        channel_drain(&self.receiver)
    }

    fn try_get_product(&self) -> (r: Result<T, StreamError>)
        ensures
            r is Err ==> r->Err_0 == StreamError::Empty || r->Err_0 == StreamError::Disconnected,
    {
        channel_try_recv(&self.receiver)
    }

    fn num_products_in_buffer(&self) -> (r: usize) {
        channel_len(&self.receiver)
    }
}

/// A block source whose blocks are the products of a receiver.
pub struct ProductBlockSource<R> {
    receiver: R,
}

impl<R: ProductReceiver<Vec<u8>>> ProductBlockSource<R> {
    pub fn new(receiver: R) -> (r: Self) {
        ProductBlockSource { receiver }
    }
}

impl<R: ProductReceiver<Vec<u8>>> SyncBlockSource for ProductBlockSource<R> {
    open spec fn inv(&self) -> bool {
        true
    }

    /// Any block: what the producer's workers made.
    open spec fn yields(&self, block: Seq<u8>, next: Self) -> bool {
        true
    }

    fn blocking_read(&mut self) -> (r: Result<Vec<u8>, StreamError>) {
        self.receiver.blocking_get_product()
    }
}

/// A byte stream over the products of `receiver`. Other receivers of the same
/// producer get other blocks, so this stream sees only part of the products.
pub fn byte_stream_from_producer<R: ProductReceiver<Vec<u8>>>(receiver: R) -> (r:
    BlockSourceByteStream<ProductBlockSource<R>>)
    ensures
        r.inv(),
        r.buffered() == Seq::<u8>::empty(),
{
    BlockSourceByteStream::new(ProductBlockSource::new(receiver))
}

/// A block source that cuts a byte stream into blocks of `block_size` bytes:
/// the production step of a byte-stream producer.
pub struct ByteStreamBlockSource<S> {
    stream: S,
    block_size: usize,
}

impl<S: SyncByteStream> ByteStreamBlockSource<S> {
    pub closed spec fn stream(&self) -> S {
        self.stream
    }

    pub closed spec fn block_size(&self) -> nat {
        self.block_size as nat
    }

    pub fn new(stream: S, block_size: usize) -> (r: Self)
        ensures
            r.stream() == stream,
            r.block_size() == block_size,
    {
        ByteStreamBlockSource { stream, block_size }
    }
}

impl<S: SyncByteStream> SyncBlockSource for ByteStreamBlockSource<S> {
    open spec fn inv(&self) -> bool {
        self.stream().inv()
    }

    /// The next `block_size` bytes of the stream.
    open spec fn yields(&self, block: Seq<u8>, next: Self) -> bool {
        &&& block.len() == self.block_size()
        &&& next.block_size() == self.block_size()
        &&& self.stream().reads(block, next.stream())
    }

    open spec fn may_fail(&self) -> bool {
        self.stream().may_fail(self.block_size())
    }

    open spec fn delivers(&self, count: nat, len: nat) -> bool {
        len == self.block_size() && self.stream().sustains(count, len)
    }

    fn blocking_read(&mut self) -> (r: Result<Vec<u8>, StreamError>) {
        let mut buffer: Vec<u8> = vec![0u8; self.block_size];
        let read = self.stream.blocking_read(buffer.as_mut_slice());
        match read {
            Ok(()) => Ok(buffer),
            Err(e) => Err(e),
        }
    }
}

/// A block adapter over blocks cut from an XSalsa20 stream, as the producer
/// path builds it.
pub type KeystreamBlocks = BlockSourceByteStream<ByteStreamBlockSource<XSalsa20Rng>>;

/// The keystream position of the next byte the adapter hands out.
pub open spec fn logical_pos(x: KeystreamBlocks) -> int {
    x.source().stream().pos() - x.buffered().len()
}

/// The buffered bytes are the keystream bytes just before the inner stream's position.
pub open spec fn keystream_aligned(x: KeystreamBlocks) -> bool {
    let g = x.source().stream();
    &&& g.wf()
    &&& x.buffered().len() <= g.pos()
    &&& x.buffered() == keystream(g.seed(), logical_pos(x), x.buffered().len())
}

proof fn lemma_keystream_concat(seed: Seq<u8>, p: int, a: nat, b: nat)
    ensures
        keystream(seed, p, a) + keystream(seed, p + a, b) == keystream(seed, p, a + b),
{
    assert(keystream(seed, p, a) + keystream(seed, p + a, b) =~= keystream(seed, p, a + b));
}

/// The blocks of a chain cut from an XSalsa20 stream are consecutive keystream bytes.
proof fn lemma_keystream_chain(
    states: Seq<ByteStreamBlockSource<XSalsa20Rng>>,
    blocks: Seq<Seq<u8>>,
    k: int,
)
    requires
        yields_chain(states, blocks),
        states[0].stream().wf(),
        0 <= k <= blocks.len(),
    ensures
        ({
            let g0 = states[0].stream();
            let c = concat_blocks(blocks.take(k));
            &&& states[k].stream().wf()
            &&& states[k].stream().seed() == g0.seed()
            &&& states[k].stream().pos() == g0.pos() + c.len()
            &&& c == keystream(g0.seed(), g0.pos() as int, c.len())
        }),
    decreases k,
{
    let g0 = states[0].stream();
    if k == 0 {
        assert(blocks.take(0) =~= Seq::<Seq<u8>>::empty());
        assert(concat_blocks(Seq::<Seq<u8>>::empty()) =~= Seq::<u8>::empty());
        assert(keystream(g0.seed(), g0.pos() as int, 0) =~= Seq::<u8>::empty());
    } else {
        lemma_keystream_chain(states, blocks, k - 1);
        let c = concat_blocks(blocks.take(k - 1));
        let i = k - 1;
        assert(states[i].yields(blocks[i], states[i + 1]));
        assert(blocks.take(k) =~= blocks.take(k - 1).push(blocks[k - 1]));
        lemma_concat_push(blocks.take(k - 1), blocks[k - 1]);
        lemma_keystream_concat(g0.seed(), g0.pos() as int, c.len(), blocks[k - 1].len());
    }
}

/// Reading through the block adapter gives the same bytes as reading the
/// XSalsa20 stream directly: each read returns the keystream bytes at the
/// adapter's position, whatever the block size and however the reads cut
/// across block boundaries.
pub proof fn lemma_block_adapter_reads_keystream(x: KeystreamBlocks, out: Seq<u8>, next: KeystreamBlocks)
    requires
        keystream_aligned(x),
        x.reads(out, next),
    ensures
        out == keystream(x.source().stream().seed(), logical_pos(x), out.len()),
        keystream_aligned(next),
        next.source().stream().seed() == x.source().stream().seed(),
        logical_pos(next) == logical_pos(x) + out.len(),
{
    let (states, blocks) = choose|states: Seq<ByteStreamBlockSource<XSalsa20Rng>>, blocks: Seq<Seq<u8>>|
        {
            &&& yields_chain(states, blocks)
            &&& #[trigger] states[0] == x.source()
            &&& states.last() == next.source()
            &&& x.buffered() + #[trigger] concat_blocks(blocks) == out + next.buffered()
        };
    let g = x.source().stream();
    let seed = g.seed();
    lemma_keystream_chain(states, blocks, blocks.len() as int);
    assert(blocks.take(blocks.len() as int) =~= blocks);
    let c = concat_blocks(blocks);
    let b = x.buffered().len();
    let lp = logical_pos(x);
    lemma_keystream_concat(seed, lp, b, c.len());
    let all = keystream(seed, lp, b + c.len());
    assert(all == out + next.buffered());
    assert(out =~= all.take(out.len() as int));
    assert(next.buffered() =~= all.skip(out.len() as int));
    assert(out == keystream(seed, lp, out.len()));
    assert(next.buffered() =~= keystream(seed, lp + out.len(), next.buffered().len()));
}

} // verus!
