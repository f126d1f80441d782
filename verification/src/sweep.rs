use vstd::prelude::*;
use crate::config::{Config, Mode};
use crate::stats::reduce_spec;
use crate::stats::reduce_trials;
use crate::store::{
    contains_config, lemma_lookup_contains, lookup_spec, record_text, Measurement, ResultsStore,
};
use crate::text::STAT_MAX;

verus! {

/// What the sweep driver must do next for one configuration.
#[derive(Clone, Copy, PartialEq, Eq, Structural, Debug)]
pub enum SweepAction {
    /// The statistic is already cached: publish it as it stands.
    Publish(u64),
    /// Nothing is cached yet: run the trials for this configuration.
    Measure,
}

/// The decision rule of the sweep: look up before computing.
pub open spec fn decide_spec(t: Seq<Measurement>, c: Config) -> SweepAction {
    match lookup_spec(t, c) {
        Some(s) => SweepAction::Publish(s),
        None => SweepAction::Measure,
    }
}

/// Decides one sweep step from the store alone.
pub fn plan_step(store: &ResultsStore, c: &Config) -> (a: SweepAction)
    ensures
        a == decide_spec(store@, *c),
{
    match store.lookup(c) {
        Some(s) => SweepAction::Publish(s),
        None => SweepAction::Measure,
    }
}

/// Completes one fresh measurement: reduces the trial statistics to the
/// robust summary, appends the record to the store, and returns the
/// statistic to publish together with the line to persist.
pub fn record_measurement(store: &mut ResultsStore, c: Config, trials: &Vec<u64>) -> (r: (
    u64,
    Vec<u8>,
))
    requires
        c.wf(),
        trials@.len() >= 2,
        trials@.len() % 2 == 0,
        forall|k: int| 0 <= k < trials@.len() ==> trials@[k] <= STAT_MAX,
    ensures
        r.0 == reduce_spec(trials@),
        final(store)@ == old(store)@.push(Measurement { config: c, stat_milli: r.0 }),
        r.1@ == record_text(Measurement { config: c, stat_milli: r.0 }),
        (Measurement { config: c, stat_milli: r.0 }).wf(),
{
    let stat = reduce_trials(trials);
    let m = Measurement { config: c, stat_milli: stat };
    let line = store.append(m);
    (stat, line)
}

/// Ascending population sizes `start, start + step, ...`, every one at
/// most `end`, stopping before the first that would pass it.
pub fn boids_range(start: u32, step: u32, end: u32) -> (r: Vec<u32>)
    requires
        step > 0,
    ensures
        forall|i: int| 0 <= i < r@.len() ==> r@[i] == start + i * step && r@[i] <= end,
        start + r@.len() * step > end,
{
    let mut r: Vec<u32> = Vec::new();
    let mut cur: u64 = start as u64;
    proof {
        vstd::arithmetic::mul::lemma_mul_by_zero_is_zero(step as int);
    }
    while cur <= end as u64
        invariant
            step > 0,
            cur == start + r@.len() * step,
            forall|i: int| 0 <= i < r@.len() ==> r@[i] == start + i * step && r@[i] <= end,
        decreases end as int + step as int - cur as int,
    {
        let ghost l = r@.len() as int;
        r.push(cur as u32);
        cur = cur + (step as u64);
        proof {
            assert((l + 1) * step == l * step + step) by (nonlinear_arith);
        }
    }
    r
}

/// The default block sizes the harness sweeps, ascending.
pub fn default_block_sizes() -> (r: Vec<u32>)
    ensures
        r@ == seq![64u32, 128u32, 256u32, 512u32, 1024u32],
{
    let mut r: Vec<u32> = Vec::new();
    r.push(64);
    r.push(128);
    r.push(256);
    r.push(512);
    r.push(1024);
    proof {
        assert(r@ =~= seq![64u32, 128u32, 256u32, 512u32, 1024u32]);
    }
    r
}

/// The three configurations of one (block size, population) cell, in the
/// order the sweep visits them.
pub open spec fn cell_configs(block_size: u32, num_boids: u32) -> Seq<Config> {
    seq![
        Config { mode: Mode::Naive, num_boids, block_size },
        Config { mode: Mode::Uniform, num_boids, block_size },
        Config { mode: Mode::Coherent, num_boids, block_size },
    ]
}

/// All configurations of one block size: populations ascending, the three
/// modes inside each population.
pub open spec fn block_configs(block_size: u32, boids: Seq<u32>) -> Seq<Config>
    decreases boids.len(),
{
    if boids.len() == 0 {
        Seq::empty()
    } else {
        block_configs(block_size, boids.drop_last()) + cell_configs(block_size, boids.last())
    }
}

/// The full sweep order: block sizes outer, populations inner, both in the
/// order given.
pub open spec fn sweep_order(blocks: Seq<u32>, boids: Seq<u32>) -> Seq<Config>
    decreases blocks.len(),
{
    if blocks.len() == 0 {
        Seq::empty()
    } else {
        sweep_order(blocks.drop_last(), boids) + block_configs(blocks.last(), boids)
    }
}

/// Enumerates the whole configuration space in sweep order.
pub fn sweep_configs(blocks: &Vec<u32>, boids: &Vec<u32>) -> (r: Vec<Config>)
    ensures
        r@ == sweep_order(blocks@, boids@),
{
    let mut r: Vec<Config> = Vec::new();
    let mut bi: usize = 0;
    proof {
        assert(blocks@.take(0int) =~= Seq::<u32>::empty());
        assert(r@ =~= sweep_order(blocks@.take(0int), boids@));
    }
    while bi < blocks.len()
        invariant
            bi <= blocks@.len(),
            r@ == sweep_order(blocks@.take(bi as int), boids@),
        decreases blocks@.len() - bi,
    {
        let b = blocks[bi];
        let mut ni: usize = 0;
        proof {
            assert(boids@.take(0int) =~= Seq::<u32>::empty());
            assert(r@ + block_configs(b, boids@.take(0int)) =~= r@);
        }
        while ni < boids.len()
            invariant
                ni <= boids@.len(),
                bi < blocks@.len(),
                b == blocks@[bi as int],
                r@ == sweep_order(blocks@.take(bi as int), boids@) + block_configs(
                    b,
                    boids@.take(ni as int),
                ),
            decreases boids@.len() - ni,
        {
            let n = boids[ni];
            r.push(Config { mode: Mode::Naive, num_boids: n, block_size: b });
            r.push(Config { mode: Mode::Uniform, num_boids: n, block_size: b });
            r.push(Config { mode: Mode::Coherent, num_boids: n, block_size: b });
            proof {
                assert(boids@.take(ni + 1).drop_last() =~= boids@.take(ni as int));
                assert(boids@.take(ni + 1).last() == boids@[ni as int]);
                assert(r@ =~= sweep_order(blocks@.take(bi as int), boids@) + block_configs(
                    b,
                    boids@.take(ni + 1),
                ));
            }
            ni = ni + 1;
        }
        proof {
            assert(boids@.take(boids@.len() as int) =~= boids@);
            assert(blocks@.take(bi + 1).drop_last() =~= blocks@.take(bi as int));
            assert(blocks@.take(bi + 1).last() == blocks@[bi as int]);
        }
        bi = bi + 1;
    }
    proof {
        assert(blocks@.take(blocks@.len() as int) =~= blocks@);
    }
    r
}

/// The configurations a sweep still has to measure, in sweep order.
pub fn missing_configs(store: &ResultsStore, configs: &Vec<Config>) -> (r: Vec<Config>)
    ensures
        r@ == configs@.filter(|c: Config| lookup_spec(store@, c) is None),
{
    let ghost pred = |c: Config| lookup_spec(store@, c) is None;
    let mut r: Vec<Config> = Vec::new();
    let mut i: usize = 0;
    proof {
        broadcast use vstd::seq_lib::group_seq_properties;

        assert(configs@.take(0int) =~= Seq::<Config>::empty());
        assert(configs@.take(0int).filter(pred) =~= Seq::<Config>::empty());
    }
    while i < configs.len()
        invariant
            i <= configs@.len(),
            pred == (|c: Config| lookup_spec(store@, c) is None),
            r@ == configs@.take(i as int).filter(pred),
        decreases configs@.len() - i,
    {
        let c = configs[i];
        let keep = match store.lookup(&c) {
            Some(_) => false,
            None => true,
        };
        if keep {
            r.push(c);
        }
        proof {
            configs@.take(i as int).lemma_filter_push(configs@[i as int], pred);
            assert(configs@.take(i + 1) =~= configs@.take(i as int).push(configs@[i as int]));
        }
        i = i + 1;
    }
    proof {
        assert(configs@.take(configs@.len() as int) =~= configs@);
    }
    r
}

/// Resumability of the sweep: once every configuration of a sweep is
/// recorded in the store, a second sweep publishes from the cache
/// everywhere — no configuration is left to measure.
pub proof fn lemma_sweep_idempotent(t: Seq<Measurement>, cs: Seq<Config>)
    requires
        forall|i: int| 0 <= i < cs.len() ==> contains_config(t, #[trigger] cs[i]),
    ensures
        forall|i: int| 0 <= i < cs.len() ==> decide_spec(t, #[trigger] cs[i]) is Publish,
        cs.filter(|c: Config| lookup_spec(t, c) is None) == Seq::<Config>::empty(),
{
    assert forall|i: int| 0 <= i < cs.len() implies decide_spec(t, #[trigger] cs[i])
        is Publish by {
        lemma_lookup_contains(t, cs[i]);
    }
    let pred = |c: Config| lookup_spec(t, c) is None;
    assert forall|i: int| 0 <= i < cs.len() implies !#[trigger] pred(cs[i]) by {
        lemma_lookup_contains(t, cs[i]);
    }
    assert(cs.all(|c: Config| !pred(c)));
    cs.lemma_all_neg_filter_empty(pred);
    assert(cs.filter(pred) =~= Seq::<Config>::empty());
}

} // verus!
