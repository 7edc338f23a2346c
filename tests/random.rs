use std::cell::Cell;
use std::rc::Rc;

use hddwiper::byte_stream::SyncByteStream;
use hddwiper::error::StreamError;
use hddwiper::hardware_rng::{RdRandGenerator, RdSeedGenerator, SyncByteStreamOrZeroes, ZeroesGenerator};
use hddwiper::os::OsRandomGenerator;
use hddwiper::random::{rng_xsalsa, rng_zeroes, secure_rng, secure_seed_rng, RESEED_EVERY_N_BYTES};
use hddwiper::reseeding::{ReseedingRandomGenerator, SeedableRandomGenerator};
use hddwiper::xor_byte_stream::{apply_xor, CompositeRng, XorByteStream};
use hddwiper::xsalsa20::XSalsa20Rng;

fn keystream_of(seed: u64, len: usize) -> Vec<u8> {
    let mut out = vec![0u8; len];
    XSalsa20Rng::from_u64_seed(seed).blocking_read(&mut out).unwrap();
    out
}

#[test]
fn xsalsa20_blocking_read() {
    // Just making sure it doesn't crash
    let mut data = [0u8; 1024];
    XSalsa20Rng::from_u64_seed(0).blocking_read(&mut data).unwrap();
}

#[test]
fn different_block_sizes_still_sync_read_same_data() {
    let mut stream1 = XSalsa20Rng::from_u64_seed(0);
    let mut stream2 = XSalsa20Rng::from_u64_seed(0);
    let mut lhs = [0; 1234];
    let mut rhs = [0; 1234];
    stream1.blocking_read(&mut lhs).unwrap();
    stream2.blocking_read(&mut rhs[..1]).unwrap();
    stream2.blocking_read(&mut rhs[1..10]).unwrap();
    stream2.blocking_read(&mut rhs[10..100]).unwrap();
    stream2.blocking_read(&mut rhs[100..1000]).unwrap();
    stream2.blocking_read(&mut rhs[1000..1234]).unwrap();
    assert_eq!(lhs, rhs);
}

#[test]
fn xsalsa20_known_answer_and_seeds_differ() {
    // The keystream is a real cipher output: not zero, and it depends on the seed.
    let a = keystream_of(0, 64);
    let b = keystream_of(1, 64);
    assert_ne!(a, vec![0u8; 64]);
    assert_ne!(a, b);
    // A 56-byte seed whose key starts with the little-endian bytes of 1 is the same stream.
    let mut seed = vec![0u8; 56];
    seed[0] = 1;
    let mut c = vec![0u8; 64];
    XSalsa20Rng::from_seed(seed).blocking_read(&mut c).unwrap();
    assert_eq!(b, c);
}

#[test]
fn os_blocking_read() {
    // Just making sure it doesn't crash
    let mut data = [0u8; 1024];
    OsRandomGenerator.blocking_read(&mut data).unwrap();
}

#[test]
fn xor_of_two_streams() {
    let stream1 = XSalsa20Rng::from_u64_seed(1);
    let stream2 = XSalsa20Rng::from_u64_seed(2);
    let mut composite = CompositeRng::new(stream1, stream2);

    let mut result = [0u8; 100];
    composite.blocking_read(&mut result).unwrap();

    let expected1 = keystream_of(1, 100);
    let expected2 = keystream_of(2, 100);
    for i in 0..100 {
        assert_eq!(result[i], expected1[i] ^ expected2[i]);
    }
}

#[test]
fn xor_with_itself_produces_zeroes() {
    let stream1 = XSalsa20Rng::from_u64_seed(42);
    let stream2 = XSalsa20Rng::from_u64_seed(42);
    let mut composite = CompositeRng::new(stream1, stream2);

    let mut result = [0u8; 100];
    composite.blocking_read(&mut result).unwrap();

    assert!(result.iter().all(|&b| b == 0));
}

#[test]
fn multiple_reads_produce_different_data() {
    let stream1 = XSalsa20Rng::from_u64_seed(1);
    let stream2 = XSalsa20Rng::from_u64_seed(2);
    let mut composite = CompositeRng::new(stream1, stream2);

    let mut result1 = [0u8; 100];
    let mut result2 = [0u8; 100];
    composite.blocking_read(&mut result1).unwrap();
    composite.blocking_read(&mut result2).unwrap();

    assert_ne!(result1, result2);
}

#[test]
fn composite_rng_macro_two_streams() {
    let stream1 = XSalsa20Rng::from_u64_seed(1);
    let stream2 = XSalsa20Rng::from_u64_seed(2);
    let mut composite = CompositeRng::new(stream1, stream2);

    let mut result = [0u8; 100];
    composite.blocking_read(&mut result).unwrap();

    assert_eq!(result.len(), 100);
}

#[test]
fn composite_rng_macro_three_streams() {
    let stream1 = XSalsa20Rng::from_u64_seed(1);
    let stream2 = XSalsa20Rng::from_u64_seed(2);
    let stream3 = XSalsa20Rng::from_u64_seed(3);
    let mut composite = CompositeRng::new(stream1, CompositeRng::new(stream2, stream3));

    let mut result = [0u8; 100];
    composite.blocking_read(&mut result).unwrap();

    let expected1 = keystream_of(1, 100);
    let expected2 = keystream_of(2, 100);
    let expected3 = keystream_of(3, 100);
    for i in 0..100 {
        assert_eq!(result[i], expected1[i] ^ expected2[i] ^ expected3[i]);
    }
}

#[test]
fn xor_of_identical_streams_is_one_mebibyte_of_zeroes() {
    let mut composite = XorByteStream::new(XSalsa20Rng::from_u64_seed(7), XSalsa20Rng::from_u64_seed(7));
    let mut result = vec![0xffu8; 1024 * 1024];
    composite.blocking_read(&mut result).unwrap();
    assert!(result.iter().all(|&b| b == 0));
}

#[test]
fn xor_of_two_keystreams_over_one_mebibyte() {
    let len = 1024 * 1024;
    let mut composite = XorByteStream::new(XSalsa20Rng::from_u64_seed(3), XSalsa20Rng::from_u64_seed(4));
    let mut result = vec![0u8; len];
    composite.blocking_read(&mut result).unwrap();
    let a = keystream_of(3, len);
    let b = keystream_of(4, len);
    for i in 0..len {
        assert_eq!(result[i], a[i] ^ b[i]);
    }
}

#[test]
fn apply_xor_combines_bytewise() {
    let mut dest = [0b1100u8, 0xff, 0];
    apply_xor(&mut dest, &[0b1010, 0x0f, 0]);
    assert_eq!(dest, [0b0110, 0xf0, 0]);
}

#[test]
fn zero_streams_output_zeroes() {
    let mut data = [7u8; 33];
    ZeroesGenerator.blocking_read(&mut data).unwrap();
    assert_eq!(data, [0u8; 33]);
    let mut data = [7u8; 33];
    let mut zeroes = rng_zeroes();
    assert!(zeroes.is_zeroes());
    zeroes.blocking_read(&mut data).unwrap();
    assert_eq!(data, [0u8; 33]);
    let mut data = [7u8; 9];
    let mut disabled = RdRandGenerator::new_zeroes();
    disabled.blocking_read(&mut data).unwrap();
    assert_eq!(data, [0u8; 9]);
}

#[test]
fn stream_or_zeroes_delegates_to_its_stream() {
    let mut wrapped = SyncByteStreamOrZeroes::new_stream(XSalsa20Rng::from_u64_seed(5));
    assert!(!wrapped.is_zeroes());
    let mut data = vec![0u8; 40];
    wrapped.blocking_read(&mut data).unwrap();
    assert_eq!(data, keystream_of(5, 40));
}

#[test]
fn hardware_generators_fill_buffers() {
    let mut data = [0u8; 64];
    RdRandGenerator::new_if_supported().blocking_read(&mut data).unwrap();
    RdSeedGenerator::new_if_supported().blocking_read(&mut data).unwrap();
    let mut seed_rng = secure_seed_rng().unwrap();
    seed_rng.blocking_read(&mut data).unwrap();
}

/// A seed source whose n-th seed is n in every byte; it counts its reads.
#[derive(Clone)]
struct CountingSeeds {
    reads: Rc<Cell<usize>>,
}

impl SyncByteStream for CountingSeeds {
    fn blocking_read(&mut self, dest: &mut [u8]) -> Result<(), StreamError> {
        let n = self.reads.get();
        dest.fill(n as u8);
        self.reads.set(n + 1);
        Ok(())
    }
}

fn keystream_of_seed_byte(b: u8, len: usize) -> Vec<u8> {
    let mut out = vec![0u8; len];
    XSalsa20Rng::from_seed(vec![b; 56]).blocking_read(&mut out).unwrap();
    out
}

#[test]
fn reseeding_reads_three_seeds_for_250_bytes() {
    let reads = Rc::new(Cell::new(0));
    let mut g = ReseedingRandomGenerator::<XSalsa20Rng, _>::new(100, CountingSeeds { reads: reads.clone() });
    let mut out = vec![0u8; 250];
    g.blocking_read(&mut out).unwrap();
    assert_eq!(reads.get(), 3);
    assert_eq!(out[..100].to_vec(), keystream_of_seed_byte(0, 100));
    assert_eq!(out[100..200].to_vec(), keystream_of_seed_byte(1, 100));
    assert_eq!(out[200..].to_vec(), keystream_of_seed_byte(2, 50));
}

#[test]
fn reseeding_cadence_matches_bytes_read() {
    for chunk in [1usize, 7, 100, 101, 250] {
        let reads = Rc::new(Cell::new(0));
        let mut g = ReseedingRandomGenerator::<XSalsa20Rng, _>::new(100, CountingSeeds { reads: reads.clone() });
        assert_eq!(reads.get(), 0);
        let mut total = 0usize;
        for _ in 0..6 {
            let mut out = vec![0u8; chunk];
            g.blocking_read(&mut out).unwrap();
            total += chunk;
            assert_eq!(reads.get(), (total + 99) / 100);
        }
    }
}

#[test]
fn reseeding_exact_budget_does_not_reseed_until_next_byte() {
    let reads = Rc::new(Cell::new(0));
    let mut g = ReseedingRandomGenerator::<XSalsa20Rng, _>::new(100, CountingSeeds { reads: reads.clone() });
    let mut out = vec![0u8; 100];
    g.blocking_read(&mut out).unwrap();
    assert_eq!(reads.get(), 1);
    let mut empty: Vec<u8> = Vec::new();
    g.blocking_read(&mut empty).unwrap();
    assert_eq!(reads.get(), 1);
    let mut one = vec![0u8; 1];
    g.blocking_read(&mut one).unwrap();
    assert_eq!(reads.get(), 2);
    assert_eq!(one, keystream_of_seed_byte(1, 1));
}

#[test]
fn secure_rng_without_rdrand_is_the_reseeded_keystream() {
    let reads = Rc::new(Cell::new(0));
    let mut rng = secure_rng(CountingSeeds { reads: reads.clone() }, true);
    let mut out = vec![0u8; 300];
    rng.blocking_read(&mut out).unwrap();
    assert_eq!(reads.get(), 1);
    assert_eq!(out, keystream_of_seed_byte(0, 300));
    assert_eq!(RESEED_EVERY_N_BYTES, 1024 * 1024 * 1024);
    let mut x = rng_xsalsa(CountingSeeds { reads: Rc::new(Cell::new(0)) });
    let mut first = vec![0u8; 10];
    x.blocking_read(&mut first).unwrap();
    assert_eq!(first, keystream_of_seed_byte(0, 10));
}

/// A seed source that always fails.
struct FailingSeeds;

impl SyncByteStream for FailingSeeds {
    fn blocking_read(&mut self, _dest: &mut [u8]) -> Result<(), StreamError> {
        Err(StreamError::SourceFailed)
    }
}

#[test]
fn reseeding_fails_for_good_after_a_seed_source_failure() {
    let mut g = ReseedingRandomGenerator::<XSalsa20Rng, _>::new(100, FailingSeeds);
    let mut empty: Vec<u8> = Vec::new();
    g.blocking_read(&mut empty).unwrap();
    let mut out = vec![0u8; 5];
    assert_eq!(g.blocking_read(&mut out), Err(StreamError::SourceFailed));
    assert_eq!(g.blocking_read(&mut empty), Err(StreamError::SourceFailed));
}

#[test]
fn reseeding_clone_starts_fresh() {
    let reads = Rc::new(Cell::new(0));
    let mut g = ReseedingRandomGenerator::<XSalsa20Rng, _>::new(100, CountingSeeds { reads: reads.clone() });
    let mut out = vec![0u8; 30];
    g.blocking_read(&mut out).unwrap();
    let mut c = g.clone();
    let mut from_clone = vec![0u8; 10];
    c.blocking_read(&mut from_clone).unwrap();
    // The clone read its own seed (the second one of the shared counter).
    assert_eq!(reads.get(), 2);
    assert_eq!(from_clone, keystream_of_seed_byte(1, 10));
    let mut more = vec![0u8; 10];
    g.blocking_read(&mut more).unwrap();
    assert_eq!(more, keystream_of_seed_byte(0, 40)[30..].to_vec());
}

#[test]
fn seed_stream_can_be_cloned() {
    let seed_rng = secure_seed_rng().unwrap();
    let mut copy = seed_rng.clone();
    let mut data = [0u8; 56];
    copy.blocking_read(&mut data).unwrap();
}
