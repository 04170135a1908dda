use vstd::prelude::*;
use crate::units::two_to;

verus! {

/// How long one sample should take: the iterations per sample are chosen
/// from the warm-up so that a sample lasts about this long (500 µs).
pub const SAMPLE_TARGET_NS: u64 = 500_000;

/// What a benchmark asks of its measurement, in nanoseconds and iterations.
#[derive(Clone, Copy, Debug, PartialEq, Eq, Structural)]
pub struct SamplerConfig {
    /// Time to run the routine before samples are taken.
    pub warmup_ns: u64,
    /// Least total time of the samples.
    pub sample_time_ns: u64,
    /// The minimum number of iterations to run the benchmark for,
    /// regardless of the time taken. Sampling goes on until this many
    /// samples were taken, and every sample runs at least one iteration.
    pub sample_size: u64,
}

/// The abstract state of a [`Sampler`].
pub struct SamplerView {
    pub config: SamplerConfig,
    /// Time spent in warm-up batches so far.
    pub warmup_time: u64,
    /// Iterations run in warm-up batches so far.
    pub warmup_iters: u64,
    /// Iterations of the next warm-up batch.
    pub warmup_batch: u64,
    /// Warm-up ended because its iteration count would overflow.
    pub warmup_cut: bool,
    /// Time of each sample, in the order taken.
    pub samples: Seq<u64>,
    /// Total time of the samples, saturated at `u64::MAX`.
    pub sample_time: u64,
    /// Total iterations of the samples.
    pub sample_iters: u64,
    /// Sampling ended because its iteration count would overflow.
    pub sampling_cut: bool,
}

/// The least integer not below `n / d`.
pub open spec fn ceil_div(n: int, d: int) -> int
    recommends
        d > 0,
{
    (n + d - 1) / d
}

/// The iterations per sample after a warm-up of `iters` iterations that
/// took `time` ns: `ceil(SAMPLE_TARGET_NS / (time / iters))`, saturated at
/// `u64::MAX`; `u64::MAX` when the warm-up took no time, and `1` when it
/// ran no iteration, so that every sample runs the routine at least once.
pub open spec fn batch_for(time: u64, iters: u64) -> u64 {
    if iters == 0 {
        1
    } else if time == 0 {
        u64::MAX
    } else {
        let q = ceil_div(SAMPLE_TARGET_NS * iters, time as int);
        if q > u64::MAX {
            u64::MAX
        } else {
            q as u64
        }
    }
}

/// `a + b`, saturated at `u64::MAX`.
pub open spec fn sat_add(a: u64, b: u64) -> u64 {
    if a + b > u64::MAX {
        u64::MAX
    } else {
        (a + b) as u64
    }
}

/// The sum of the values in `s`.
pub open spec fn sum(s: Seq<u64>) -> int
    decreases s.len(),
{
    if s.len() == 0 {
        0
    } else {
        sum(s.drop_last()) + s.last()
    }
}

/// The state of a new sampler.
pub open spec fn initial_view(config: SamplerConfig) -> SamplerView {
    SamplerView {
        config,
        warmup_time: 0,
        warmup_iters: 0,
        warmup_batch: 1,
        warmup_cut: false,
        samples: Seq::empty(),
        sample_time: 0,
        sample_iters: 0,
        sampling_cut: false,
    }
}

impl SamplerView {
    /// Warm-up goes on while its time is below the warm-up time.
    pub open spec fn warming(self) -> bool {
        !self.warmup_cut && self.warmup_time < self.config.warmup_ns
    }

    /// After warm-up, sampling goes on while the samples are too few or
    /// too short in total.
    pub open spec fn sampling(self) -> bool {
        &&& !self.warming()
        &&& !self.sampling_cut
        &&& (self.sample_time < self.config.sample_time_ns || self.samples.len()
            < self.config.sample_size)
    }

    /// The iterations of every sample, fixed by the warm-up.
    pub open spec fn sample_batch(self) -> u64 {
        batch_for(self.warmup_time, self.warmup_iters)
    }

    /// The iterations of the next batch to run, or `None` when done.
    pub open spec fn pending(self) -> Option<u64> {
        if self.warming() {
            Some(self.warmup_batch)
        } else if self.sampling() {
            Some(self.sample_batch())
        } else {
            None
        }
    }

    /// The state after the pending batch ran and took `elapsed` ns.
    pub open spec fn after(self, elapsed: u64) -> SamplerView {
        if self.warming() {
            if self.warmup_iters + self.warmup_batch > u64::MAX {
                SamplerView { warmup_cut: true, ..self }
            } else {
                SamplerView {
                    warmup_time: sat_add(self.warmup_time, elapsed),
                    warmup_iters: (self.warmup_iters + self.warmup_batch) as u64,
                    warmup_batch: if 2 * self.warmup_batch > u64::MAX {
                        u64::MAX
                    } else {
                        (2 * self.warmup_batch) as u64
                    },
                    ..self
                }
            }
        } else if self.sampling() {
            if self.sample_iters + self.sample_batch() > u64::MAX {
                SamplerView { sampling_cut: true, ..self }
            } else {
                SamplerView {
                    samples: self.samples.push(elapsed),
                    sample_time: sat_add(self.sample_time, elapsed),
                    sample_iters: (self.sample_iters + self.sample_batch()) as u64,
                    ..self
                }
            }
        } else {
            self
        }
    }

    /// What holds of every state that a sampler reaches.
    pub open spec fn inv(self) -> bool {
        &&& self.warmup_batch == if self.warmup_iters + 1 > u64::MAX {
            u64::MAX as int
        } else {
            self.warmup_iters + 1
        }
        &&& exists|n: nat| self.warmup_iters + 1 == #[trigger] two_to(n)
        &&& self.sample_iters == self.sample_batch() * self.samples.len()
        &&& self.sample_time == if sum(self.samples) > u64::MAX {
            u64::MAX as int
        } else {
            sum(self.samples) as int
        }
        &&& self.samples.len() > 0 ==> !self.warming()
    }
}

/// A new sampler is in a state of the invariant.
pub proof fn lemma_initial_inv(config: SamplerConfig)
    ensures
        initial_view(config).inv(),
{
    let v = initial_view(config);
    assert(v.warmup_iters + 1 == two_to(0));
}

/// Running the pending batch keeps the invariant: warm-up batches double
/// and their total is one less than a power of two, every sample runs the
/// same number of iterations, and the sample time is the saturated sum of
/// the samples.
pub proof fn lemma_after_keeps_inv(v: SamplerView, elapsed: u64)
    requires
        v.inv(),
    ensures
        v.after(elapsed).inv(),
{
    let w = v.after(elapsed);
    if v.warming() {
        assert(v.samples.len() == 0) by {
            if v.samples.len() > 0 {
                assert(!v.warming());
            }
        }
        if v.warmup_iters + v.warmup_batch <= u64::MAX {
            let n = choose|n: nat| v.warmup_iters + 1 == #[trigger] two_to(n);
            assert(w.warmup_iters + 1 == two_to(n + 1));
        }
        assert(w.samples.len() == 0);
        assert(w.sample_iters == 0) by (nonlinear_arith)
            requires
                v.sample_iters == v.sample_batch() * v.samples.len(),
                v.samples.len() == 0,
                w.sample_iters == v.sample_iters,
        ;
        assert(w.sample_iters == w.sample_batch() * w.samples.len());
    } else if v.sampling() {
        if v.sample_iters + v.sample_batch() <= u64::MAX {
            let b = v.sample_batch() as int;
            let l = v.samples.len() as int;
            assert(b * l + b == b * (l + 1)) by (nonlinear_arith);
            assert(w.samples.drop_last() =~= v.samples);
            assert(sum(w.samples) == sum(v.samples) + elapsed);
        }
    }
}

/// Every sample runs at least one iteration.
pub proof fn lemma_sample_batch_positive(time: u64, iters: u64)
    ensures
        batch_for(time, iters) >= 1,
{
    if iters > 0 && time > 0 {
        let n = SAMPLE_TARGET_NS * iters;
        assert(ceil_div(n, time as int) >= 1) by (nonlinear_arith)
            requires
                n >= 1,
                time >= 1,
        ;
    }
}

/// A sample lasts about `SAMPLE_TARGET_NS` at the warm-up's rate: after a
/// warm-up of `iters > 0` iterations that took `time > 0` ns, the sample
/// batch `b` is the least count of iterations whose time at that rate,
/// `b * time / iters`, reaches the target, that is `b * time` is at least
/// `SAMPLE_TARGET_NS * iters` and `(b - 1) * time` is below it (when that
/// count fits in `u64`; otherwise `u64::MAX`). Only a warm-up that took no
/// time gives `u64::MAX` without that bound being reached.
pub proof fn lemma_sample_batch_lasts_the_target(time: u64, iters: u64)
    ensures
        iters > 0 && time > 0 && SAMPLE_TARGET_NS * iters <= u64::MAX * time ==> {
            let b = batch_for(time, iters);
            &&& b * time >= SAMPLE_TARGET_NS * iters
            &&& (b - 1) * time < SAMPLE_TARGET_NS * iters
        },
        iters > 0 && time > 0 && SAMPLE_TARGET_NS * iters > u64::MAX * time ==> batch_for(time, iters)
            == u64::MAX,
        iters > 0 && time == 0 ==> batch_for(time, iters) == u64::MAX,
        iters == 0 ==> batch_for(time, iters) == 1,
{
    if iters > 0 && time > 0 {
        let n: int = SAMPLE_TARGET_NS * iters;
        let t: int = time as int;
        let q = ceil_div(n, t);
        assert(q * t >= n && (q - 1) * t < n) by (nonlinear_arith)
            requires
                q == (n + t - 1) / t,
                t >= 1,
                n >= 0,
        ;
        if n <= u64::MAX * t {
            assert(q <= u64::MAX) by (nonlinear_arith)
                requires
                    (q - 1) * t < n,
                    n <= u64::MAX * t,
                    t >= 1,
            ;
        } else {
            assert(q > u64::MAX) by (nonlinear_arith)
                requires
                    q * t >= n,
                    n > u64::MAX * t,
                    t >= 1,
            ;
        }
    }
}

/// When nothing is pending and sampling was not cut short by an overflow,
/// the samples reach the least total time and the least count, and so the
/// benchmark ran at least `sample_size` iterations in its samples.
pub proof fn lemma_done_meets_targets(v: SamplerView)
    requires
        v.inv(),
        v.pending() is None,
        !v.sampling_cut,
    ensures
        v.sample_time >= v.config.sample_time_ns,
        v.samples.len() >= v.config.sample_size,
        v.sample_iters >= v.config.sample_size,
{
    lemma_sample_batch_positive(v.warmup_time, v.warmup_iters);
    let b = v.sample_batch() as int;
    let l = v.samples.len() as int;
    assert(b * l >= l) by (nonlinear_arith)
        requires
            b >= 1,
            l >= 0,
    ;
}

/// A bound on the batches still to come: it drops with every batch that
/// runs, so every run ends, whatever times the batches take.
pub open spec fn remaining(v: SamplerView) -> nat {
    let top = u64::MAX as nat + 1;
    let warm: nat = if v.warming() {
        (top - v.warmup_iters) as nat
    } else {
        0
    };
    let samp: nat = if v.sampling_cut {
        0
    } else {
        (top - v.sample_iters) as nat
    };
    warm * (top + 1) + samp
}

/// Every batch that runs brings the run closer to its end: from a state of
/// the invariant with a batch pending, the state after that batch has a
/// smaller [`remaining`], so no run goes on forever.
pub proof fn lemma_every_run_ends(v: SamplerView, elapsed: u64)
    requires
        v.inv(),
        v.pending() is Some,
    ensures
        remaining(v.after(elapsed)) < remaining(v),
{
    lemma_sample_batch_positive(v.warmup_time, v.warmup_iters);
    let w = v.after(elapsed);
    let top = u64::MAX as nat + 1;
    if v.warming() {
        let a: nat = (top - v.warmup_iters) as nat;
        let b: nat = if w.warming() {
            (top - w.warmup_iters) as nat
        } else {
            0
        };
        assert(b < a);
        assert(b * (top + 1) + top + 1 <= a * (top + 1)) by (nonlinear_arith)
            requires
                b < a,
        ;
    }
}

/// The decisions of a benchmark run: a warm-up whose batches double until
/// the warm-up time is spent, then samples of a fixed number of iterations
/// (at least one) until both the least sample time and `sample_size` samples
/// are reached, and so at least `sample_size` iterations were sampled.
/// The caller runs each batch and reports the time it took.
pub struct Sampler {
    config: SamplerConfig,
    warmup_time: u64,
    warmup_iters: u64,
    warmup_batch: u64,
    warmup_cut: bool,
    samples: Vec<u64>,
    sample_time: u64,
    sample_iters: u64,
    sampling_cut: bool,
}

fn batch_for_exec(time: u64, iters: u64) -> (b: u64)
    ensures
        b == batch_for(time, iters),
{
    if iters == 0 {
        1
    } else if time == 0 {
        u64::MAX
    } else {
        let num: u128 = 500_000u128 * (iters as u128);
        let t: u128 = time as u128;
        let q: u128 = (num + t - 1) / t;
        if q > 18446744073709551615u128 {
            u64::MAX
        } else {
            q as u64
        }
    }
}

impl View for Sampler {
    type V = SamplerView;

    closed spec fn view(&self) -> SamplerView {
        SamplerView {
            config: self.config,
            warmup_time: self.warmup_time,
            warmup_iters: self.warmup_iters,
            warmup_batch: self.warmup_batch,
            warmup_cut: self.warmup_cut,
            samples: self.samples@,
            sample_time: self.sample_time,
            sample_iters: self.sample_iters,
            sampling_cut: self.sampling_cut,
        }
    }
}

impl Sampler {
    /// A sampler that has run nothing yet.
    pub fn new(config: SamplerConfig) -> (s: Sampler)
        ensures
            s@ == initial_view(config),
    {
        Sampler {
            config,
            warmup_time: 0,
            warmup_iters: 0,
            warmup_batch: 1,
            warmup_cut: false,
            samples: Vec::new(),
            sample_time: 0,
            sample_iters: 0,
            sampling_cut: false,
        }
    }

    /// The iterations of the batch to run next, or `None` when the run is
    /// over.
    pub fn next_batch(&self) -> (b: Option<u64>)
        ensures
            b == self@.pending(),
    {
        if !self.warmup_cut && self.warmup_time < self.config.warmup_ns {
            Some(self.warmup_batch)
        } else if !self.sampling_cut && (self.sample_time < self.config.sample_time_ns
            || (self.samples.len() as u64) < self.config.sample_size) {
            Some(batch_for_exec(self.warmup_time, self.warmup_iters))
        } else {
            None
        }
    }

    /// Takes note that the pending batch ran and took `elapsed` ns; with
    /// nothing pending, nothing changes.
    pub fn record(&mut self, elapsed: u64)
        ensures
            final(self)@ == old(self)@.after(elapsed),
    {
        if !self.warmup_cut && self.warmup_time < self.config.warmup_ns {
            match self.warmup_iters.checked_add(self.warmup_batch) {
                Some(iters) => {
                    self.warmup_time = self.warmup_time.saturating_add(elapsed);
                    self.warmup_iters = iters;
                    self.warmup_batch = match self.warmup_batch.checked_mul(2) {
                        Some(b) => b,
                        None => u64::MAX,
                    };
                },
                None => {
                    self.warmup_cut = true;
                },
            }
        } else if !self.sampling_cut && (self.sample_time < self.config.sample_time_ns
            || (self.samples.len() as u64) < self.config.sample_size) {
            let batch = batch_for_exec(self.warmup_time, self.warmup_iters);
            match self.sample_iters.checked_add(batch) {
                Some(iters) => {
                    self.samples.push(elapsed);
                    self.sample_time = self.sample_time.saturating_add(elapsed);
                    self.sample_iters = iters;
                },
                None => {
                    self.sampling_cut = true;
                },
            }
        }
    }

    /// The configuration the sampler was made with.
    pub fn config(&self) -> (c: SamplerConfig)
        ensures
            c == self@.config,
    {
        self.config
    }

    /// The time of each sample, in nanoseconds, in the order taken.
    pub fn samples(&self) -> (s: &[u64])
        ensures
            s@ == self@.samples,
    {
        self.samples.as_slice()
    }

    /// The iterations run in each sample.
    pub fn sample_batch(&self) -> (b: u64)
        ensures
            b == self@.sample_batch(),
    {
        batch_for_exec(self.warmup_time, self.warmup_iters)
    }

    /// The total iterations of the samples.
    pub fn sample_iters(&self) -> (n: u64)
        ensures
            n == self@.sample_iters,
    {
        self.sample_iters
    }
}

} // verus!
