use vstd::prelude::*;
use crate::config::{mode_arg, mode_arg_spec, Config, Mode};
use crate::parser::parse_sample_spec;
use crate::parser::parse_sample;
use crate::stats::{lemma_sum_bounds, mean_of, sum_of};
use crate::text::{dec_digits, format_u64};

verus! {

/// Frame-count policy for one trial. The grid modes always run the base
/// count; the Naive mode backs off as the population grows, by the first
/// step whose population limit exceeds the requested population. The
/// thresholds are data, not code, so a harness can trade confidence for
/// wall-clock time explicitly.
pub struct FramePolicy {
    /// Frames for the grid modes, and for Naive below every step.
    pub base_frames: u32,
    /// `(population limit, frames)` steps for the Naive mode, tried in order.
    pub naive_steps: Vec<(u32, u32)>,
    /// Frames for the Naive mode at or above every step's limit.
    pub naive_tail: u32,
}

/// First-match lookup in the Naive back-off steps.
pub open spec fn steps_frames(steps: Seq<(u32, u32)>, num_boids: u32) -> Option<u32>
    decreases steps.len(),
{
    if steps.len() == 0 {
        None
    } else if num_boids < steps[0].0 {
        Some(steps[0].1)
    } else {
        steps_frames(steps.drop_first(), num_boids)
    }
}

impl FramePolicy {
    /// The frame count this policy assigns to a trial.
    pub open spec fn frames_spec(self, mode: Mode, num_boids: u32) -> u32 {
        if mode is Naive {
            match steps_frames(self.naive_steps@, num_boids) {
                Some(f) => f,
                None => self.naive_tail,
            }
        } else {
            self.base_frames
        }
    }

    pub fn frames_for(&self, mode: Mode, num_boids: u32) -> (r: u32)
        ensures
            r == self.frames_spec(mode, num_boids),
    {
        match mode {
            Mode::Naive => {
                let mut i: usize = 0;
                proof {
                    assert(self.naive_steps@.skip(0int) =~= self.naive_steps@);
                }
                while i < self.naive_steps.len()
                    invariant
                        mode is Naive,
                        i <= self.naive_steps@.len(),
                        steps_frames(self.naive_steps@, num_boids) == steps_frames(
                            self.naive_steps@.skip(i as int),
                            num_boids,
                        ),
                    decreases self.naive_steps@.len() - i,
                {
                    let (limit, frames) = self.naive_steps[i];
                    proof {
                        assert(self.naive_steps@.skip(i as int).drop_first() =~= self
                            .naive_steps@.skip(i + 1));
                        assert(self.naive_steps@.skip(i as int)[0] == self.naive_steps@[
                            i as int]);
                    }
                    if num_boids < limit {
                        proof {
                            assert(steps_frames(self.naive_steps@.skip(i as int), num_boids)
                                == Some(frames));
                        }
                        return frames;
                    }
                    i = i + 1;
                }
                proof {
                    assert(self.naive_steps@.skip(self.naive_steps@.len() as int)
                        =~= Seq::<(u32, u32)>::empty());
                }
                self.naive_tail
            },
            _ => self.base_frames,
        }
    }
}

/// The back-off the harness ships with: grid modes always run 2000 frames;
/// the Naive mode steps down at 50, 100, 150 and 200 thousand boids.
pub fn default_frame_policy() -> (p: FramePolicy)
    ensures
        p.base_frames == 2000,
        p.naive_tail == 20,
        p.naive_steps@ == seq![
            (50000u32, 2000u32),
            (100000u32, 200u32),
            (150000u32, 100u32),
            (200000u32, 50u32),
        ],
{
    let mut steps: Vec<(u32, u32)> = Vec::new();
    steps.push((50000, 2000));
    steps.push((100000, 200));
    steps.push((150000, 100));
    steps.push((200000, 50));
    proof {
        assert(steps@ =~= seq![
            (50000u32, 2000u32),
            (100000u32, 200u32),
            (150000u32, 100u32),
            (200000u32, 50u32),
        ]);
    }
    FramePolicy { base_frames: 2000, naive_steps: steps, naive_tail: 20 }
}

/// Number of leading samples a trial discards as warm-up: a fixed
/// percentage of the requested frame count, rounded down.
pub fn warmup_count(total_frames: u32, warmup_percent: u32) -> (r: u32)
    requires
        warmup_percent <= 100,
    ensures
        r == total_frames * warmup_percent / 100,
        r <= total_frames,
{
    proof {
        vstd::arithmetic::mul::lemma_mul_upper_bound(
            total_frames as int,
            u32::MAX as int,
            warmup_percent as int,
            100,
        );
        vstd::arithmetic::mul::lemma_mul_inequality(
            warmup_percent as int,
            100,
            total_frames as int,
        );
        vstd::arithmetic::div_mod::lemma_div_is_ordered(
            total_frames as int * warmup_percent as int,
            total_frames as int * 100,
            100,
        );
        vstd::arithmetic::div_mod::lemma_div_by_multiple(total_frames as int, 100);
    }
    let wide: u64 = (total_frames as u64) * (warmup_percent as u64) / 100;
    wide as u32
}

/// The samples that survive the warm-up discard: all but the first
/// `warmup` of them.
pub open spec fn retained_of(samples: Seq<u64>, warmup: int) -> Seq<u64> {
    if samples.len() <= warmup {
        Seq::empty()
    } else {
        samples.skip(warmup)
    }
}

/// Streaming aggregator for one trial. It counts every sample the parser
/// recognises, discards the first `warmup` of them as startup transients,
/// and averages whatever remains — so a prematurely terminated trial still
/// yields a (degraded) mean over the samples that did arrive.
pub struct TrialAccum {
    warmup: usize,
    count: usize,
    sum: u128,
    samples: Ghost<Seq<u64>>,
}

impl TrialAccum {
    /// Every sample recognised so far, in arrival order.
    pub closed spec fn samples(self) -> Seq<u64> {
        self.samples@
    }

    /// How many leading samples are discarded.
    pub closed spec fn warmup_spec(self) -> int {
        self.warmup as int
    }

    pub closed spec fn wf(self) -> bool {
        &&& self.count == self.samples@.len()
        &&& self.sum == sum_of(retained_of(self.samples@, self.warmup as int))
    }

    pub fn new(warmup: usize) -> (a: TrialAccum)
        ensures
            a.wf(),
            a.samples() == Seq::<u64>::empty(),
            a.warmup_spec() == warmup,
    {
        TrialAccum { warmup, count: 0, sum: 0, samples: Ghost(Seq::empty()) }
    }

    /// Accounts one recognised sample.
    pub fn feed_sample(&mut self, v: u64)
        requires
            old(self).wf(),
            old(self).samples().len() < usize::MAX,
        ensures
            final(self).wf(),
            final(self).samples() == old(self).samples().push(v),
            final(self).warmup_spec() == old(self).warmup_spec(),
    {
        proof {
            let kept = retained_of(self.samples@, self.warmup as int);
            lemma_sum_bounds(kept);
            vstd::arithmetic::mul::lemma_mul_inequality(
                kept.len() as int,
                usize::MAX as int,
                u64::MAX as int,
            );
        }
        if self.count >= self.warmup {
            self.sum = self.sum + (v as u128);
        }
        self.count = self.count + 1;
        proof {
            let w = self.warmup as int;
            let prev = self.samples@;
            self.samples = Ghost(prev.push(v));
            if prev.len() >= w {
                assert(prev.push(v).skip(w) =~= prev.skip(w).push(v));
                assert(retained_of(prev.push(v), w) == retained_of(prev, w).push(v));
                crate::stats::lemma_sum_push(retained_of(prev, w), v);
            } else {
                assert(retained_of(prev.push(v), w) =~= Seq::<u64>::empty());
            }
        }
    }

    /// Feeds one raw output line: a line that parses as a sample is
    /// accounted, every other line leaves the aggregate unchanged.
    pub fn feed_line(&mut self, line: &[u8]) -> (matched: bool)
        requires
            old(self).wf(),
            old(self).samples().len() < usize::MAX,
        ensures
            final(self).wf(),
            final(self).warmup_spec() == old(self).warmup_spec(),
            matched == (parse_sample_spec(line@) is Some),
            parse_sample_spec(line@) matches Some(v) ==> final(self).samples() == old(
                self,
            ).samples().push(v),
            parse_sample_spec(line@) is None ==> *final(self) == *old(self),
    {
        match parse_sample(line) {
            Some(v) => {
                self.feed_sample(v);
                true
            },
            None => false,
        }
    }

    /// The trial's statistic: the mean of the retained samples, or nothing
    /// if every sample fell inside the warm-up window.
    pub fn finish(&self) -> (r: Option<u64>)
        requires
            self.wf(),
        ensures
            self.samples().len() > self.warmup_spec() ==> r == Some(
                mean_of(self.samples().skip(self.warmup_spec())) as u64,
            ),
            self.samples().len() <= self.warmup_spec() ==> r is None,
    {
        if self.count > self.warmup {
            let retained = self.count - self.warmup;
            proof {
                let skipped = self.samples@.skip(self.warmup as int);
                assert(skipped == retained_of(self.samples@, self.warmup as int));
                lemma_sum_bounds(skipped);
                vstd::arithmetic::div_mod::lemma_div_is_ordered(
                    sum_of(skipped),
                    skipped.len() as int * u64::MAX as int,
                    skipped.len() as int,
                );
                vstd::arithmetic::mul::lemma_mul_is_commutative(
                    skipped.len() as int,
                    u64::MAX as int,
                );
                vstd::arithmetic::div_mod::lemma_div_by_multiple(
                    u64::MAX as int,
                    skipped.len() as int,
                );
            }
            Some((self.sum / (retained as u128)) as u64)
        } else {
            None
        }
    }
}

/// The command-line arguments that request one trial from the simulator,
/// in the order the simulator expects them.
pub open spec fn invocation_args_spec(c: Config, frames: u32) -> Seq<Seq<u8>> {
    seq![
        seq![45u8, 109u8, 111u8, 100u8, 101u8],
        mode_arg_spec(c.mode),
        seq![45u8, 102u8, 114u8, 97u8, 109u8, 101u8, 115u8],
        dec_digits(frames as nat),
        seq![45u8, 98u8, 111u8, 105u8, 100u8, 115u8],
        dec_digits(c.num_boids as nat),
        seq![45u8, 98u8, 108u8, 111u8, 99u8, 107u8, 115u8, 105u8, 122u8, 101u8],
        dec_digits(c.block_size as nat),
    ]
}

/// Builds the argument list for one trial: `-mode`, `-frames`, `-boids`
/// and `-blocksize`, each followed by its value.
pub fn invocation_args(c: &Config, frames: u32) -> (r: Vec<Vec<u8>>)
    ensures
        r@.map_values(|a: Vec<u8>| a@) == invocation_args_spec(*c, frames),
{
    let mut r: Vec<Vec<u8>> = Vec::new();
    let mut flag: Vec<u8> = Vec::new();
    flag.push(45);
    flag.push(109);
    flag.push(111);
    flag.push(100);
    flag.push(101);
    proof {
        assert(flag@ =~= seq![45u8, 109u8, 111u8, 100u8, 101u8]);
    }
    r.push(flag);
    r.push(mode_arg(c.mode));
    let mut flag: Vec<u8> = Vec::new();
    flag.push(45);
    flag.push(102);
    flag.push(114);
    flag.push(97);
    flag.push(109);
    flag.push(101);
    flag.push(115);
    proof {
        assert(flag@ =~= seq![45u8, 102u8, 114u8, 97u8, 109u8, 101u8, 115u8]);
    }
    r.push(flag);
    r.push(format_u64(frames as u64));
    let mut flag: Vec<u8> = Vec::new();
    flag.push(45);
    flag.push(98);
    flag.push(111);
    flag.push(105);
    flag.push(100);
    flag.push(115);
    proof {
        assert(flag@ =~= seq![45u8, 98u8, 111u8, 105u8, 100u8, 115u8]);
    }
    r.push(flag);
    r.push(format_u64(c.num_boids as u64));
    let mut flag: Vec<u8> = Vec::new();
    flag.push(45);
    flag.push(98);
    flag.push(108);
    flag.push(111);
    flag.push(99);
    flag.push(107);
    flag.push(115);
    flag.push(105);
    flag.push(122);
    flag.push(101);
    proof {
        assert(flag@ =~= seq![45u8, 98u8, 108u8, 111u8, 99u8, 107u8, 115u8, 105u8, 122u8, 101u8]);
    }
    r.push(flag);
    r.push(format_u64(c.block_size as u64));
    proof {
        assert(r@.map_values(|a: Vec<u8>| a@) =~= invocation_args_spec(*c, frames));
    }
    r
}

} // verus!
