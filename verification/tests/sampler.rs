use picobench::{Sampler, SamplerConfig};

/// Runs a sampler against a routine that takes `ns_per_iter` per iteration.
fn drive(config: SamplerConfig, ns_per_iter: u64) -> (Sampler, Vec<u64>) {
    let mut sampler = Sampler::new(config);
    let mut batches = Vec::new();
    while let Some(n) = sampler.next_batch() {
        batches.push(n);
        sampler.record(n.saturating_mul(ns_per_iter));
        assert!(batches.len() < 10_000);
    }
    (sampler, batches)
}

#[test]
fn warmup_batches_double_until_the_warmup_time() {
    let config = SamplerConfig { warmup_ns: 1_000, sample_time_ns: 10_000, sample_size: 5 };
    let (sampler, batches) = drive(config, 10);
    // 1+2+...+64 iterations of 10 ns: 1270 ns, the first total not below 1000.
    assert_eq!(&batches[..7], &[1, 2, 4, 8, 16, 32, 64]);
    // ceil(500_000 * 127 / 1270) iterations per sample.
    assert_eq!(sampler.sample_batch(), 50_000);
    assert_eq!(&batches[7..], &[50_000; 5]);
    assert_eq!(sampler.samples(), &[500_000; 5]);
    assert_eq!(sampler.sample_iters(), 250_000);
}

#[test]
fn sampling_runs_until_the_sample_time() {
    let config = SamplerConfig { warmup_ns: 100, sample_time_ns: 2_000_000, sample_size: 1 };
    let (sampler, _) = drive(config, 1_000);
    // warm-up: 1 iteration of 1000 ns; samples of 500 iterations, 500 µs each.
    assert_eq!(sampler.sample_batch(), 500);
    assert_eq!(sampler.samples().len(), 4);
    assert_eq!(sampler.sample_iters(), 2_000);
}

#[test]
fn no_warmup_still_runs_the_sample_size() {
    let config = SamplerConfig { warmup_ns: 0, sample_time_ns: 0, sample_size: 3 };
    let (sampler, batches) = drive(config, 10);
    // Without a warm-up every sample runs one iteration.
    assert_eq!(batches, vec![1, 1, 1]);
    assert_eq!(sampler.sample_batch(), 1);
    assert_eq!(sampler.samples(), &[10, 10, 10]);
    assert_eq!(sampler.sample_iters(), 3);
}

#[test]
fn at_least_sample_size_iterations_are_sampled() {
    let config = SamplerConfig { warmup_ns: 0, sample_time_ns: 0, sample_size: 1 };
    let (sampler, batches) = drive(config, 0);
    assert_eq!(batches, vec![1]);
    assert!(sampler.sample_iters() >= 1);
}

#[test]
fn warmup_stops_when_the_iteration_count_would_overflow() {
    let config = SamplerConfig { warmup_ns: 1, sample_time_ns: 1, sample_size: 5 };
    let mut sampler = Sampler::new(config);
    let mut warmup = 0;
    while sampler.next_batch() != Some(u64::MAX) {
        sampler.record(0);
        warmup += 1;
    }
    // 64 doubling batches of no time; the 65th would overflow.
    assert_eq!(warmup, 64);
    sampler.record(0);
    // A warm-up of no time asks for as many iterations as possible per sample.
    assert_eq!(sampler.next_batch(), Some(u64::MAX));
    assert_eq!(sampler.sample_batch(), u64::MAX);
    sampler.record(0);
    assert_eq!(sampler.samples(), &[0]);
    // The next sample would overflow the total.
    assert_eq!(sampler.next_batch(), Some(u64::MAX));
    sampler.record(0);
    assert_eq!(sampler.next_batch(), None);
    assert_eq!(sampler.samples().len(), 1);
    assert_eq!(sampler.sample_iters(), u64::MAX);
}

#[test]
fn recording_with_nothing_pending_changes_nothing() {
    let config = SamplerConfig { warmup_ns: 0, sample_time_ns: 0, sample_size: 0 };
    let mut sampler = Sampler::new(config);
    assert_eq!(sampler.next_batch(), None);
    sampler.record(123);
    assert_eq!(sampler.next_batch(), None);
    assert!(sampler.samples().is_empty());
    assert_eq!(sampler.config(), config);
}

#[test]
fn sample_time_saturates() {
    let config = SamplerConfig { warmup_ns: 1, sample_time_ns: u64::MAX, sample_size: 0 };
    let mut sampler = Sampler::new(config);
    sampler.record(5);
    assert_eq!(sampler.next_batch(), Some(100_000));
    sampler.record(u64::MAX - 1);
    sampler.record(10);
    assert_eq!(sampler.next_batch(), None);
    assert_eq!(sampler.samples(), &[u64::MAX - 1, 10]);
}
