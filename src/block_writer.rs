use vstd::prelude::*;

use crate::block_source_byte_stream::{block_views, concat_blocks, lemma_concat_push};

verus! {

/// What one vectored write into the destination came to.
#[derive(Debug, Clone, Copy, PartialEq, Eq, Structural)]
pub enum WriteOutcome {
    /// The destination took this many bytes.
    Accepted(usize),
    /// The write was interrupted before taking any byte.
    Interrupted,
    /// The destination reported that it is full.
    StorageFull,
    /// Any other error.
    Failed,
}

/// What the writer does after a write.
#[derive(Debug, Clone, Copy, PartialEq, Eq, Structural)]
pub enum WriterAction {
    /// Go on writing.
    Continue,
    /// The destination is full: stop cleanly, the wipe is done.
    Finish,
    /// A fatal error.
    Fail,
}

/// The writer's decision after a write: a full destination ends the wipe, a
/// write that took nothing or failed otherwise is fatal, anything else goes on.
pub fn writer_action(outcome: WriteOutcome) -> (r: WriterAction)
    ensures
        r == match outcome {
            WriteOutcome::Accepted(n) => if n > 0 {
                WriterAction::Continue
            } else {
                WriterAction::Fail
            },
            WriteOutcome::Interrupted => WriterAction::Continue,
            WriteOutcome::StorageFull => WriterAction::Finish,
            WriteOutcome::Failed => WriterAction::Fail,
        },
{
    match outcome {
        WriteOutcome::Accepted(n) => if n > 0 {
            WriterAction::Continue
        } else {
            WriterAction::Fail
        },
        WriteOutcome::Interrupted => WriterAction::Continue,
        WriteOutcome::StorageFull => WriterAction::Finish,
        WriteOutcome::Failed => WriterAction::Fail,
    }
}

/// Number of bytes in the first `i` blocks of `batch`.
pub open spec fn prefix_len(batch: Seq<Vec<u8>>, i: int) -> nat {
    concat_blocks(block_views(batch.take(i))).len()
}

/// Number of bytes in `batch`.
pub open spec fn batch_len(batch: Seq<Vec<u8>>) -> nat {
    prefix_len(batch, batch.len() as int)
}

proof fn lemma_prefix_step(batch: Seq<Vec<u8>>, i: int)
    requires
        0 <= i < batch.len(),
    ensures
        prefix_len(batch, i + 1) == prefix_len(batch, i) + batch[i]@.len(),
{
    assert(block_views(batch.take(i + 1)) =~= block_views(batch.take(i)).push(batch[i]@));
    lemma_concat_push(block_views(batch.take(i)), batch[i]@);
}

proof fn lemma_prefix_monotone(batch: Seq<Vec<u8>>, i: int, j: int)
    requires
        0 <= i <= j <= batch.len(),
    ensures
        prefix_len(batch, i) <= prefix_len(batch, j),
    decreases j - i,
{
    if i < j {
        lemma_prefix_monotone(batch, i, j - 1);
        lemma_prefix_step(batch, j - 1);
    }
}

/// How far a batch of blocks has been written: the first byte not yet taken by
/// the destination is byte `offset` of block `block`. Empty blocks are skipped.
pub struct BatchCursor {
    block: usize,
    offset: usize,
    consumed: Ghost<nat>,
}

impl BatchCursor {
    /// Bytes of the batch that the destination took.
    pub closed spec fn consumed(&self) -> nat {
        self.consumed@
    }

    pub closed spec fn block_spec(&self) -> nat {
        self.block as nat
    }

    pub closed spec fn offset_spec(&self) -> nat {
        self.offset as nat
    }

    pub closed spec fn wf(&self, batch: Seq<Vec<u8>>) -> bool {
        &&& self.block <= batch.len()
        &&& (self.block < batch.len() ==> self.offset < batch[self.block as int]@.len())
        &&& (self.block == batch.len() ==> self.offset == 0)
        &&& self.consumed@ == prefix_len(batch, self.block as int) + self.offset
    }

    /// Moves past empty blocks.
    fn skip_empty(&mut self, batch: &Vec<Vec<u8>>)
        requires
            old(self).block <= batch@.len(),
            old(self).offset == 0,
            old(self).consumed@ == prefix_len(batch@, old(self).block as int),
        ensures
            final(self).wf(batch@),
            final(self).consumed() == old(self).consumed(),
    {
        while self.block < batch.len() && batch[self.block].len() == 0
            invariant
                self.block <= batch@.len(),
                self.offset == 0,
                self.consumed@ == old(self).consumed@,
                self.consumed@ == prefix_len(batch@, self.block as int),
            decreases batch@.len() - self.block,
        {
            proof {
                lemma_prefix_step(batch@, self.block as int);
            }
            self.block = self.block + 1;
        }
    }

    /// A cursor at the start of `batch`.
    pub fn new(batch: &Vec<Vec<u8>>) -> (r: Self)
        ensures
            r.wf(batch@),
            r.consumed() == 0,
    {
        let mut c = BatchCursor { block: 0, offset: 0, consumed: Ghost(0) };
        proof {
            assert(block_views(batch@.take(0)) =~= Seq::<Seq<u8>>::empty());
            assert(concat_blocks(Seq::<Seq<u8>>::empty()) =~= Seq::<u8>::empty());
        }
        c.skip_empty(batch);
        c
    }

    /// Index of the first block with bytes left.
    pub fn block(&self) -> (r: usize)
        ensures
            r == self.block_spec(),
    {
        self.block
    }

    /// How many bytes of that block were written.
    pub fn offset(&self) -> (r: usize)
        ensures
            r == self.offset_spec(),
    {
        self.offset
    }

    /// The bytes still to write, as slices for a vectored write: the rest of
    /// the current block, then every later block.
    pub fn pending<'a>(&self, batch: &'a Vec<Vec<u8>>) -> (r: Vec<&'a [u8]>)
        requires
            self.wf(batch@),
        ensures
            r@.len() == batch@.len() - self.block_spec(),
            forall|i: int|
                0 < i < r@.len() ==> #[trigger] r@[i]@ == batch@[self.block_spec() + i]@,
            r@.len() > 0 ==> r@[0]@ == batch@[self.block_spec() as int]@.skip(
                self.offset_spec() as int,
            ),
    {
        let mut r: Vec<&'a [u8]> = Vec::new();
        let n = batch.len();
        if self.block < n {
            let first = batch[self.block].as_slice();
            let (_, rest) = first.split_at(self.offset);
            proof {
                assert(rest@ =~= batch@[self.block as int]@.skip(self.offset as int));
            }
            r.push(rest);
            let mut i = self.block + 1;
            while i < n
                invariant
                    self.block < i <= n,
                    n == batch@.len(),
                    r@.len() == i - self.block,
                    r@[0]@ == batch@[self.block as int]@.skip(self.offset as int),
                    forall|j: int| 0 < j < r@.len() ==> #[trigger] r@[j]@ == batch@[self.block + j]@,
                decreases n - i,
            {
                r.push(batch[i].as_slice());
                i += 1;
            }
        }
        r
    }

    /// Whether the destination took the whole batch.
    pub fn is_done(&self, batch: &Vec<Vec<u8>>) -> (r: bool)
        requires
            self.wf(batch@),
        ensures
            r == (self.consumed() == batch_len(batch@)),
            self.consumed() <= batch_len(batch@),
    {
        proof {
            if self.block < batch@.len() {
                lemma_prefix_step(batch@, self.block as int);
                lemma_prefix_monotone(batch@, self.block + 1, batch@.len() as int);
            }
        }
        self.block == batch.len()
    }

    /// Records that the destination took `n` more bytes.
    pub fn advance(&mut self, batch: &Vec<Vec<u8>>, n: usize)
        requires
            old(self).wf(batch@),
            old(self).consumed() + n <= batch_len(batch@),
        ensures
            final(self).wf(batch@),
            final(self).consumed() == old(self).consumed() + n,
    {
        let mut left = n;
        let nb = batch.len();
        while left > 0
            invariant
                nb == batch@.len(),
                self.wf(batch@),
                self.consumed() + left == old(self).consumed() + n,
                self.consumed() + left <= batch_len(batch@),
            decreases left,
        {
            proof {
                assert(self.block < batch@.len());
                lemma_prefix_step(batch@, self.block as int);
            }
            let available = batch[self.block].len() - self.offset;
            if left < available {
                self.offset = self.offset + left;
                self.consumed = Ghost((self.consumed@ + left) as nat);
                left = 0;
            } else {
                left = left - available;
                self.block = self.block + 1;
                self.offset = 0;
                self.consumed = Ghost(prefix_len(batch@, self.block as int));
                self.skip_empty(batch);
            }
        }
    }
}

} // verus!
