use vstd::prelude::*;

use std::collections::VecDeque;

use crate::byte_stream::{SyncBlockSource, SyncByteStream};
use crate::error::StreamError;

verus! {

/// The bytes of `blocks`, one block after the other.
pub open spec fn concat_blocks(blocks: Seq<Seq<u8>>) -> Seq<u8>
    decreases blocks.len(),
{
    if blocks.len() == 0 {
        Seq::empty()
    } else {
        blocks[0] + concat_blocks(blocks.drop_first())
    }
}

/// Appending a block appends its bytes.
pub proof fn lemma_concat_push(blocks: Seq<Seq<u8>>, b: Seq<u8>)
    ensures
        concat_blocks(blocks.push(b)) == concat_blocks(blocks) + b,
    decreases blocks.len(),
{
    if blocks.len() == 0 {
        assert(blocks.push(b).drop_first() =~= Seq::<Seq<u8>>::empty());
        assert(concat_blocks(Seq::<Seq<u8>>::empty()) =~= Seq::<u8>::empty());
        assert(concat_blocks(blocks.push(b)) =~= b);
    } else {
        assert(blocks.push(b).drop_first() =~= blocks.drop_first().push(b));
        lemma_concat_push(blocks.drop_first(), b);
        assert(concat_blocks(blocks.push(b)) =~= concat_blocks(blocks) + b);
    }
}

/// The views of the blocks held in a deque.
pub open spec fn block_views(blocks: Seq<Vec<u8>>) -> Seq<Seq<u8>> {
    blocks.map_values(|b: Vec<u8>| b@)
}

/// An ordered list of owned byte blocks with a read cursor into the head block.
pub struct Buffer {
    blocks: VecDeque<Vec<u8>>,
    current_pos: usize,
    buffer_size: usize,
}

impl Buffer {
    /// The bytes not read yet, in order.
    pub closed spec fn view(&self) -> Seq<u8> {
        concat_blocks(block_views(self.blocks@)).skip(self.current_pos as int)
    }

    /// Unread bytes of the head block; 0 without blocks.
    pub closed spec fn head_remaining(&self) -> nat {
        if self.blocks@.len() > 0 {
            (self.blocks@[0]@.len() - self.current_pos) as nat
        } else {
            0
        }
    }

    /// Number of blocks held.
    pub closed spec fn num_blocks(&self) -> nat {
        self.blocks@.len()
    }

    /// No block is empty, the cursor lies inside the head block (or is 0 when
    /// there is none), and the cached size is the number of unread bytes.
    pub closed spec fn wf(&self) -> bool {
        &&& forall|i: int| 0 <= i < self.blocks@.len() ==> #[trigger] self.blocks@[i]@.len() > 0
        &&& (self.blocks@.len() == 0 ==> self.current_pos == 0)
        &&& (self.blocks@.len() > 0 ==> self.current_pos < self.blocks@[0]@.len())
        &&& self.buffer_size == self.view().len()
    }

    pub fn new() -> (r: Self)
        ensures
            r.wf(),
            r.view() == Seq::<u8>::empty(),
    {
        let r = Buffer { blocks: VecDeque::new(), current_pos: 0, buffer_size: 0 };
        assert(block_views(r.blocks@) =~= Seq::<Seq<u8>>::empty());
        assert(r.view() =~= Seq::<u8>::empty());
        r
    }

    /// Appends the bytes of `data` behind the unread ones.
    pub fn push(&mut self, data: Vec<u8>)
        requires
            old(self).wf(),
            old(self).view().len() + data@.len() <= usize::MAX,
        ensures
            final(self).wf(),
            final(self).view() == old(self).view() + data@,
    {
        if data.len() == 0 {
            assert(self.view() =~= self.view() + data@);
            return;
        }
        let ghost old_blocks = block_views(self.blocks@);
        proof {
            lemma_concat_push(old_blocks, data@);
        }
        self.buffer_size = self.buffer_size + data.len();
        self.blocks.push_back(data);
        proof {
            assert(block_views(self.blocks@) =~= old_blocks.push(data@));
            assert(self.view() =~= old(self).view() + data@);
        }
    }

    /// Number of unread bytes.
    pub fn len(&self) -> (r: usize)
        requires
            self.wf(),
        ensures
            r == self.view().len(),
    {
        self.buffer_size
    }

    /// Takes the first `dest.len()` unread bytes into `dest`; fails, changing
    /// nothing, when fewer are held.
    pub fn pop(&mut self, dest: &mut [u8]) -> (r: Result<(), StreamError>)
        requires
            old(self).wf(),
        ensures
            final(self).wf(),
            final(dest)@.len() == old(dest)@.len(),
            r is Ok <==> old(dest)@.len() <= old(self).view().len(),
            r is Ok ==> final(dest)@ == old(self).view().take(old(dest)@.len() as int)
                && final(self).view() == old(self).view().skip(old(dest)@.len() as int),
            r is Err ==> *final(self) == *old(self) && final(dest)@ == old(dest)@,
    {
        if self.buffer_size < dest.len() {
            return Err(StreamError::NotEnoughBytes);
        }
        let ghost v0 = self.view();
        let n = dest.len();
        let mut filled: usize = 0;
        while filled < n
            invariant
                self.wf(),
                0 <= filled <= n,
                n == dest@.len(),
                n <= v0.len(),
                dest@.take(filled as int) == v0.take(filled as int),
                self.view() == v0.skip(filled as int),
            decreases n - filled,
        {
            let ghost d_before = dest@;
            let copied = self.fill_from_first(dest, filled);
            proof {
                assert(dest@.take((filled + copied) as int) =~= v0.take((filled + copied) as int)) by {
                    assert forall|k: int| 0 <= k < filled + copied implies dest@[k] == v0[k] by {
                        if k < filled {
                            assert(d_before.take(filled as int)[k] == v0.take(filled as int)[k]);
                        } else {
                            let j = k - filled;
                            assert(dest@[filled + j] == v0.skip(filled as int)[j]);
                        }
                    }
                }
                assert(self.view() =~= v0.skip((filled + copied) as int));
            }
            filled = filled + copied;
        }
        assert(dest@ =~= dest@.take(n as int));
        Ok(())
    }

    /// Copies unread bytes of the head block into `dest[start..]`, as many as
    /// fit, marks them read and drops the head block once it is used up.
    /// Returns how many bytes were copied, at least one.
    fn fill_from_first(&mut self, dest: &mut [u8], start: usize) -> (copied: usize)
        requires
            old(self).wf(),
            start < old(dest)@.len(),
            old(dest)@.len() - start <= old(self).view().len(),
        ensures
            final(self).wf(),
            0 < copied <= old(dest)@.len() - start,
            copied == if old(self).head_remaining() < old(dest)@.len() - start {
                old(self).head_remaining()
            } else {
                (old(dest)@.len() - start) as nat
            },
            copied == old(self).head_remaining() ==> final(self).num_blocks() == old(
                self,
            ).num_blocks() - 1,
            copied < old(self).head_remaining() ==> final(self).num_blocks() == old(
                self,
            ).num_blocks() && final(self).head_remaining() == old(self).head_remaining() - copied,
            final(dest)@.len() == old(dest)@.len(),
            forall|k: int| 0 <= k < start ==> #[trigger] final(dest)@[k] == old(dest)@[k],
            forall|k: int|
                0 <= k < copied ==> #[trigger] final(dest)@[start + k] == old(self).view()[k],
            final(self).view() == old(self).view().skip(copied as int),
    {
        let ghost bv = block_views(self.blocks@);
        proof {
            if self.blocks@.len() == 0 {
                assert(bv =~= Seq::<Seq<u8>>::empty());
                assert(concat_blocks(bv) =~= Seq::<u8>::empty());
            }
            assert(bv[0] == self.blocks@[0]@);
            assert(concat_blocks(bv) == bv[0] + concat_blocks(bv.drop_first()));
        }
        let pos = self.current_pos;
        let front_len = self.blocks[0].len();
        let available = front_len - pos;
        let dest_len = dest.len();
        let wanted = dest_len - start;
        let copied = if available < wanted { available } else { wanted };
        let ghost v0 = self.view();
        let mut k: usize = 0;
        while k < copied
            invariant
                0 <= k <= copied,
                copied <= available,
                available == front_len - pos,
                pos < front_len,
                start + copied <= dest_len,
                dest_len == dest@.len(),
                self.blocks@.len() > 0,
                front_len == self.blocks@[0]@.len(),
                v0 == self.view(),
                v0 == (self.blocks@[0]@ + concat_blocks(bv.drop_first())).skip(pos as int),
                bv == block_views(self.blocks@),
                dest@.len() == old(dest)@.len(),
                forall|j: int| 0 <= j < start ==> #[trigger] dest@[j] == old(dest)@[j],
                forall|j: int| 0 <= j < k ==> #[trigger] dest@[start + j] == v0[j],
            decreases copied - k,
        {
            let b = self.blocks[0][pos + k];
            proof {
                assert(v0[k as int] == self.blocks@[0]@[pos + k]);
            }
            dest[start + k] = b;
            k += 1;
        }
        self.buffer_size = self.buffer_size - copied;
        if pos + copied == front_len {
            let ghost rest = bv.drop_first();
            self.blocks.pop_front();
            self.current_pos = 0;
            proof {
                assert(block_views(self.blocks@) =~= rest);
                assert(self.view() =~= v0.skip(copied as int));
            }
        } else {
            self.current_pos = pos + copied;
            proof {
                assert(self.view() =~= v0.skip(copied as int));
            }
        }
        copied
    }
}

} // verus!

verus! {

/// `states[i]` handed out `blocks[i]` and became `states[i + 1]`, for every block.
pub open spec fn yields_chain<B: SyncBlockSource>(states: Seq<B>, blocks: Seq<Seq<u8>>) -> bool {
    &&& states.len() == blocks.len() + 1
    &&& forall|i: int|
        0 <= i < blocks.len() ==> #[trigger] states[i].yields(blocks[i], states[i + 1])
}

/// A byte stream that serves reads from the blocks of a block source. Where
/// other consumers share the source, this stream sees only the blocks it read.
pub struct BlockSourceByteStream<B> {
    block_source: B,
    buffer: Buffer,
}

impl<B: SyncBlockSource> BlockSourceByteStream<B> {
    /// The block source read from.
    pub closed spec fn source(&self) -> B {
        self.block_source
    }

    /// Bytes of blocks already read but not handed out yet.
    pub closed spec fn buffered(&self) -> Seq<u8> {
        self.buffer.view()
    }

    pub closed spec fn wf(&self) -> bool {
        self.buffer.wf()
    }

    pub fn new(block_source: B) -> (r: Self)
        ensures
            r.wf(),
            r.source() == block_source,
            r.buffered() == Seq::<u8>::empty(),
    {
        BlockSourceByteStream { block_source, buffer: Buffer::new() }
    }

    /// Reads blocks until at least `min_buffer_size` bytes are buffered. An
    /// empty block ends the stream; so does a total beyond `usize::MAX`.
    fn fill_buffer_sync(&mut self, min_buffer_size: usize) -> (r: (
        Result<(), StreamError>,
        Ghost<(Seq<B>, Seq<Seq<u8>>)>,
    ))
        requires
            old(self).wf(),
            old(self).source().inv(),
        ensures
            final(self).wf(),
            final(self).source().inv(),
            ({
                let (states, blocks) = r.1@;
                &&& yields_chain(states, blocks)
                &&& states[0] == old(self).source()
                &&& final(self).buffered() == old(self).buffered() + concat_blocks(blocks)
            }),
            r.0 is Ok ==> final(self).buffered().len() >= min_buffer_size && r.1@.0.last()
                == final(self).source(),
            r.0 is Err ==> final(self).buffered().len() < min_buffer_size && (r.0 == Err::<
                (),
                StreamError,
            >(StreamError::EndOfStream) || r.1@.0.last().may_fail()),
            old(self).buffered().len() >= min_buffer_size ==> r.0 is Ok && *final(self) == *old(
                self,
            ),
            r.0 is Err ==> !old(self).supplied(min_buffer_size as nat),
    {
        let ghost mut states: Seq<B> = seq![self.block_source];
        let ghost mut blocks: Seq<Seq<u8>> = Seq::empty();
        let ghost b0 = self.buffered();
        let ghost promised = self.supplied(min_buffer_size as nat);
        let ghost (c0, l0) = if promised {
            choose|count: nat, len: nat|
                {
                    &&& len > 0
                    &&& #[trigger] self.source().delivers(count, len)
                    &&& self.buffered().len() + count * len >= min_buffer_size
                    &&& min_buffer_size + len <= usize::MAX + 1
                }
        } else {
            (0nat, 0nat)
        };
        let ghost mut left = c0;
        proof {
            assert(concat_blocks(blocks) =~= Seq::<u8>::empty());
            assert(b0 + concat_blocks(blocks) =~= b0);
        }
        while self.buffer.len() < min_buffer_size
            invariant
                self.wf(),
                self.source().inv(),
                yields_chain(states, blocks),
                states[0] == old(self).source(),
                states.last() == self.source(),
                self.buffered() == b0 + concat_blocks(blocks),
                b0 == old(self).buffered(),
                b0.len() >= min_buffer_size ==> *self == *old(self),
                promised == old(self).supplied(min_buffer_size as nat),
                promised ==> {
                    &&& l0 > 0
                    &&& self.source().delivers(left, l0)
                    &&& self.buffered().len() + left * l0 >= min_buffer_size
                    &&& min_buffer_size + l0 <= usize::MAX + 1
                },
            decreases
                if self.buffered().len() < min_buffer_size {
                    min_buffer_size - self.buffered().len()
                } else {
                    0
                },
        {
            let ghost s_before = self.block_source;
            let ghost len_before = self.buffered().len();
            proof {
                if promised {
                    assert(left > 0) by {
                        if left == 0 {
                            assert(left * l0 == 0);
                        }
                    }
                }
            }
            let next_block = match self.block_source.blocking_read() {
                Ok(b) => b,
                Err(e) => {
                    return (Err(e), Ghost((states, blocks)));
                },
            };
            if next_block.len() == 0 || next_block.len() > usize::MAX - self.buffer.len() {
                return (Err(StreamError::EndOfStream), Ghost((states, blocks)));
            }
            proof {
                let ns = states.push(self.block_source);
                let nb = blocks.push(next_block@);
                assert forall|i: int| 0 <= i < nb.len() implies #[trigger] ns[i].yields(
                    nb[i],
                    ns[i + 1],
                ) by {
                    if i < blocks.len() {
                        assert(ns[i] == states[i] && nb[i] == blocks[i] && ns[i + 1] == states[i + 1]);
                    } else {
                        assert(ns[i] == s_before && nb[i] == next_block@);
                    }
                }
                lemma_concat_push(blocks, next_block@);
                states = ns;
                blocks = nb;
                if promised {
                    let l2 = (left - 1) as nat;
                    assert(left * l0 == l0 + l2 * l0) by (nonlinear_arith)
                        requires
                            left > 0,
                            l2 == left - 1,
                    ;
                    left = l2;
                }
            }
            self.buffer.push(next_block);
            proof {
                assert(self.buffered() =~= b0 + concat_blocks(blocks));
                assert(self.buffered().len() > len_before);
            }
        }
        (Ok(()), Ghost((states, blocks)))
    }
}

impl<B: SyncBlockSource> BlockSourceByteStream<B> {
    /// The source promises enough non-empty blocks of one length for the
    /// buffer to reach `n` bytes, and that length keeps the total within `usize`.
    pub open spec fn supplied(&self, n: nat) -> bool {
        exists|count: nat, len: nat|
            {
                &&& len > 0
                &&& #[trigger] self.source().delivers(count, len)
                &&& self.buffered().len() + count * len >= n
                &&& n + len <= usize::MAX + 1
            }
    }

    /// After a failed read every block taken from the source is still
    /// buffered, behind the bytes buffered before.
    pub open spec fn kept_blocks(&self, next: Self) -> bool {
        exists|states: Seq<B>, blocks: Seq<Seq<u8>>|
            {
                &&& yields_chain(states, blocks)
                &&& #[trigger] states[0] == self.source()
                &&& next.buffered() == self.buffered() + #[trigger] concat_blocks(blocks)
            }
    }
}

impl<B: SyncBlockSource> SyncByteStream for BlockSourceByteStream<B> {
    open spec fn inv(&self) -> bool {
        self.wf() && self.source().inv()
    }

    /// The bytes handed out, followed by those still buffered, are the bytes
    /// buffered before, followed by the blocks read from the source.
    open spec fn reads(&self, out: Seq<u8>, next: Self) -> bool {
        exists|states: Seq<B>, blocks: Seq<Seq<u8>>|
            {
                &&& yields_chain(states, blocks)
                &&& #[trigger] states[0] == self.source()
                &&& states.last() == next.source()
                &&& self.buffered() + #[trigger] concat_blocks(blocks) == out + next.buffered()
            }
    }

    /// Fails only where the buffer is short and the source does not promise
    /// enough blocks.
    open spec fn may_fail(&self, n: nat) -> bool {
        self.buffered().len() < n && !self.supplied(n)
    }

    fn blocking_read(&mut self, dest: &mut [u8]) -> (r: Result<(), StreamError>)
        ensures
            old(self).buffered().len() >= old(dest)@.len() ==> r is Ok && final(self).source()
                == old(self).source() && final(dest)@ == old(self).buffered().take(
                old(dest)@.len() as int,
            ) && final(self).buffered() == old(self).buffered().skip(old(dest)@.len() as int),
            r is Err ==> final(dest)@ == old(dest)@ && old(self).kept_blocks(*final(self))
                && final(self).buffered().len() < old(dest)@.len(),
    {
        let (filled, blocks_read) = self.fill_buffer_sync(dest.len());
        if filled.is_err() {
            proof {
                let (states, blocks) = blocks_read@;
                assert(states[0] == old(self).source());
            }
            return filled;
        }
        let ghost (states, blocks) = blocks_read@;
        let ghost mid = self.buffered();
        let popped = self.buffer.pop(dest);
        proof {
            assert(popped is Ok);
            assert(dest@ + self.buffered() =~= mid);
            assert(states[0] == old(self).source());
        }
        Ok(())
    }
}

} // verus!
