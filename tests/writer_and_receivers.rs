use std::collections::HashSet;

use hddwiper::block_writer::{writer_action, BatchCursor, WriteOutcome, WriterAction};
use hddwiper::byte_stream::{SyncBlockSource, SyncByteStream};
use hddwiper::error::StreamError;
use hddwiper::xsalsa20::XSalsa20Rng;
use hddwiper::producer::{
    ByteStreamBlockSource, blocking_get_batch, byte_stream_from_producer, ProductReceiver, ThreadPoolProductReceiver,
};

#[test]
fn writer_finishes_on_full_and_fails_on_errors() {
    assert_eq!(writer_action(WriteOutcome::Accepted(5)), WriterAction::Continue);
    assert_eq!(writer_action(WriteOutcome::Accepted(0)), WriterAction::Fail);
    assert_eq!(writer_action(WriteOutcome::Interrupted), WriterAction::Continue);
    assert_eq!(writer_action(WriteOutcome::StorageFull), WriterAction::Finish);
    assert_eq!(writer_action(WriteOutcome::Failed), WriterAction::Fail);
}

#[test]
fn cursor_tracks_partial_vectored_writes() {
    let batch = vec![vec![1u8, 2, 3], vec![], vec![4, 5], vec![6]];
    let mut c = BatchCursor::new(&batch);
    assert_eq!((c.block(), c.offset()), (0, 0));
    c.advance(&batch, 2);
    assert_eq!((c.block(), c.offset()), (0, 2));
    assert_eq!(c.pending(&batch), vec![&[3u8][..], &[][..], &[4, 5][..], &[6][..]]);
    c.advance(&batch, 1);
    assert_eq!((c.block(), c.offset()), (2, 0));
    assert!(!c.is_done(&batch));
    c.advance(&batch, 3);
    assert!(c.is_done(&batch));
    assert_eq!((c.block(), c.offset()), (4, 0));
}

#[test]
fn cursor_of_empty_blocks_is_done() {
    let batch: Vec<Vec<u8>> = vec![vec![], vec![]];
    let c = BatchCursor::new(&batch);
    assert!(c.is_done(&batch));
}

#[test]
fn receivers_split_products_exactly_once() {
    let (sender, receiver) = flume::bounded::<u64>(4);
    let r1 = ThreadPoolProductReceiver::from_channel(receiver);
    let r2 = r1.clone_receiver();
    for i in 0..4u64 {
        sender.send(i).unwrap();
    }
    assert_eq!(r1.num_products_in_buffer(), 4);
    let a = r1.blocking_get_product().unwrap();
    let b = r2.try_get_product().unwrap();
    let rest = r2.get_all_available_products();
    let mut seen: HashSet<u64> = HashSet::new();
    seen.insert(a);
    seen.insert(b);
    for p in rest {
        seen.insert(p);
    }
    assert_eq!(seen.len(), 4);
    assert!(seen.iter().all(|&v| v < 4));
    assert_eq!(r1.try_get_product(), Err(StreamError::Empty));
    drop(sender);
    assert_eq!(r1.try_get_product(), Err(StreamError::Disconnected));
    assert_eq!(r2.blocking_get_product(), Err(StreamError::Disconnected));
}

#[test]
fn batch_takes_all_waiting_products_in_order() {
    let (sender, receiver) = flume::bounded::<u64>(8);
    let r = ThreadPoolProductReceiver::from_channel(receiver);
    sender.send(1).unwrap();
    sender.send(2).unwrap();
    sender.send(3).unwrap();
    assert_eq!(blocking_get_batch(&r), Ok(vec![1, 2, 3]));
    sender.send(4).unwrap();
    assert_eq!(blocking_get_batch(&r), Ok(vec![4]));
    drop(sender);
    assert_eq!(blocking_get_batch(&r), Err(StreamError::Disconnected));
}

#[test]
fn byte_stream_over_a_channel_concatenates_its_blocks() {
    let (sender, receiver) = flume::bounded::<Vec<u8>>(8);
    let mut stream = byte_stream_from_producer(ThreadPoolProductReceiver::from_channel(receiver));
    sender.send(vec![1, 2]).unwrap();
    sender.send(vec![3, 4, 5]).unwrap();
    let mut out = [0u8; 4];
    stream.blocking_read(&mut out).unwrap();
    assert_eq!(out, [1, 2, 3, 4]);
    drop(sender);
    let mut more = [0u8; 2];
    assert_eq!(stream.blocking_read(&mut more), Err(StreamError::Disconnected));
}

/// An in-memory destination that takes at most `capacity` bytes, then reports
/// that it is full.
struct MemorySink {
    data: Vec<u8>,
    capacity: usize,
}

impl MemorySink {
    /// Writes what fits of `slices`, as a vectored write would.
    fn write_vectored(&mut self, slices: &[&[u8]]) -> WriteOutcome {
        if self.data.len() >= self.capacity {
            return WriteOutcome::StorageFull;
        }
        let mut taken = 0;
        for s in slices {
            let room = self.capacity - self.data.len();
            let n = s.len().min(room);
            self.data.extend_from_slice(&s[..n]);
            taken += n;
            if n < s.len() {
                break;
            }
        }
        WriteOutcome::Accepted(taken)
    }
}

/// Runs the writer's bookkeeping over batches until the sink is full; returns
/// the bytes counted as written.
fn write_batches(sink: &mut MemorySink, batches: &[Vec<Vec<u8>>]) -> u64 {
    let mut written = 0u64;
    for batch in batches {
        let mut cursor = BatchCursor::new(batch);
        while !cursor.is_done(batch) {
            let outcome = sink.write_vectored(&cursor.pending(batch));
            match writer_action(outcome) {
                WriterAction::Continue => {
                    if let WriteOutcome::Accepted(n) = outcome {
                        cursor.advance(batch, n);
                        written += n as u64;
                    }
                }
                WriterAction::Finish => return written,
                WriterAction::Fail => panic!("write failed"),
            }
        }
    }
    written
}

fn keystream_blocks(num_batches: usize, blocks_per_batch: usize, block_size: usize) -> Vec<Vec<Vec<u8>>> {
    let mut source = ByteStreamBlockSource::new(XSalsa20Rng::from_u64_seed(9), block_size);
    (0..num_batches)
        .map(|_| (0..blocks_per_batch).map(|_| source.blocking_read().unwrap()).collect())
        .collect()
}

#[test]
fn writer_fills_a_10240_byte_sink_with_the_keystream() {
    let batches = keystream_blocks(5, 3, 1024);
    let mut sink = MemorySink { data: Vec::new(), capacity: 10240 };
    let written = write_batches(&mut sink, &batches);
    assert_eq!(written, 10240);
    assert_eq!(sink.data.len(), 10240);
    let mut expected = vec![0u8; 10240];
    XSalsa20Rng::from_u64_seed(9).blocking_read(&mut expected).unwrap();
    assert_eq!(sink.data, expected);
}

#[test]
fn writer_stops_at_once_on_a_full_sink() {
    let batches = keystream_blocks(2, 2, 1024);
    let mut sink = MemorySink { data: Vec::new(), capacity: 0 };
    assert_eq!(write_batches(&mut sink, &batches), 0);
    assert!(sink.data.is_empty());
}

#[test]
fn writer_counts_only_accepted_bytes() {
    let batches = vec![vec![vec![1u8, 2, 3, 4, 5], vec![6, 7, 8, 9, 10]]];
    let mut sink = MemorySink { data: Vec::new(), capacity: 7 };
    assert_eq!(write_batches(&mut sink, &batches), 7);
    assert_eq!(sink.data, vec![1, 2, 3, 4, 5, 6, 7]);
}
