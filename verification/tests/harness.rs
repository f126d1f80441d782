use boid_bench::config::{mode_name, mode_of_name, Config, Mode};
use boid_bench::executor::{default_frame_policy, invocation_args, warmup_count, TrialAccum};
use boid_bench::parser::{is_error_line, parse_sample};
use boid_bench::series::{SeriesPoint, Surface};
use boid_bench::stats::{reduce_trials, sort_stats};
use boid_bench::store::{format_record, parse_record, Measurement, ResultsStore};
use boid_bench::sweep::{
    boids_range, default_block_sizes, missing_configs, plan_step, record_measurement,
    sweep_configs, SweepAction,
};
use boid_bench::text::{format_stat, format_u64, parse_stat, parse_u32};

fn cfg(mode: Mode, num_boids: u32, block_size: u32) -> Config {
    Config::new(mode, num_boids, block_size)
}

#[test]
fn sample_parser_accepts_fps_line() {
    assert_eq!(parse_sample(b"FPS 123.45"), Some(123450));
}

#[test]
fn sample_parser_ignores_error_line() {
    assert_eq!(parse_sample(b"ERROR disk full"), None);
    assert!(is_error_line(b"ERROR disk full"));
}

#[test]
fn sample_parser_ignores_empty_line() {
    assert_eq!(parse_sample(b""), None);
    assert!(!is_error_line(b""));
}

#[test]
fn sample_parser_rejects_malformed_numeric() {
    assert_eq!(parse_sample(b"FPS abc"), None);
    assert_eq!(parse_sample(b"FPS 1.2.3"), None);
    assert_eq!(parse_sample(b"FPS "), None);
    assert_eq!(parse_sample(b"FPS 12 34"), None);
}

#[test]
fn sample_parser_plain_and_fractional_values() {
    assert_eq!(parse_sample(b"FPS 60"), Some(60_000));
    assert_eq!(parse_sample(b"FPS 0.5"), Some(500));
    assert_eq!(parse_sample(b"FPS 1."), Some(1000));
    assert_eq!(parse_sample(b"FPS .5"), Some(500));
    // Digits past the stored precision are truncated.
    assert_eq!(parse_sample(b"FPS 1.23456"), Some(1234));
}

#[test]
fn error_marker_must_open_the_line() {
    assert!(!is_error_line(b"XERROR oh"));
    assert!(!is_error_line(b"ERRO"));
    assert!(is_error_line(b"ERRORS everywhere"));
}

#[test]
fn median_of_six_reduction() {
    let trials = vec![10_000u64, 20_000, 30_000, 40_000, 50_000, 60_000];
    assert_eq!(reduce_trials(&trials), 35_000);
}

#[test]
fn median_of_six_reduction_unsorted_input() {
    let trials = vec![60_000u64, 10_000, 50_000, 20_000, 40_000, 30_000];
    assert_eq!(reduce_trials(&trials), 35_000);
}

#[test]
fn sort_stats_orders_ascending() {
    let v = vec![3_000u64, 1_000, 2_000];
    let s = sort_stats(&v);
    assert_eq!(s, vec![1_000, 2_000, 3_000]);
}

#[test]
fn warmup_discard_means_last_ninety_of_hundred() {
    let mut acc = TrialAccum::new(10);
    for i in 1u64..=100 {
        acc.feed_sample(i * 1000);
    }
    // mean of 11..=100 is 55.5, i.e. 55500 in thousandths
    assert_eq!(acc.finish(), Some(55_500));
}

#[test]
fn warmup_discard_through_line_feed() {
    let mut acc = TrialAccum::new(1);
    assert!(acc.feed_line(b"FPS 10"));
    assert!(!acc.feed_line(b"ERROR transient"));
    assert!(acc.feed_line(b"FPS 20"));
    assert!(acc.feed_line(b"FPS 40"));
    // first sample is warm-up; mean of 20 and 40
    assert_eq!(acc.finish(), Some(30_000));
}

#[test]
fn trial_with_only_warmup_samples_yields_nothing() {
    let mut acc = TrialAccum::new(5);
    for _ in 0..5 {
        acc.feed_sample(1000);
    }
    assert_eq!(acc.finish(), None);
}

#[test]
fn warmup_count_is_percentage_rounded_down() {
    assert_eq!(warmup_count(2000, 10), 200);
    assert_eq!(warmup_count(100, 10), 10);
    assert_eq!(warmup_count(25, 10), 2);
    assert_eq!(warmup_count(0, 10), 0);
}

#[test]
fn frame_policy_backs_off_for_naive_only() {
    let p = default_frame_policy();
    assert_eq!(p.frames_for(Mode::Naive, 40_000), 2000);
    assert_eq!(p.frames_for(Mode::Naive, 60_000), 200);
    assert_eq!(p.frames_for(Mode::Naive, 120_000), 100);
    assert_eq!(p.frames_for(Mode::Naive, 160_000), 50);
    assert_eq!(p.frames_for(Mode::Naive, 250_000), 20);
    assert_eq!(p.frames_for(Mode::Uniform, 250_000), 2000);
    assert_eq!(p.frames_for(Mode::Coherent, 500_000), 2000);
}

#[test]
fn frame_policy_threshold_edges() {
    let p = default_frame_policy();
    assert_eq!(p.frames_for(Mode::Naive, 49_999), 2000);
    assert_eq!(p.frames_for(Mode::Naive, 50_000), 200);
    assert_eq!(p.frames_for(Mode::Naive, 200_000), 20);
}

#[test]
fn invocation_arguments_in_simulator_order() {
    let c = cfg(Mode::Uniform, 5000, 128);
    let args = invocation_args(&c, 2000);
    let expect: Vec<&[u8]> = vec![
        b"-mode",
        b"ScatteredGrid",
        b"-frames",
        b"2000",
        b"-boids",
        b"5000",
        b"-blocksize",
        b"128",
    ];
    assert_eq!(args.len(), expect.len());
    for (got, want) in args.iter().zip(expect.iter()) {
        assert_eq!(got.as_slice(), *want);
    }
}

#[test]
fn mode_names_round_trip() {
    assert_eq!(mode_name(Mode::Naive), b"Naive".to_vec());
    assert_eq!(mode_name(Mode::Uniform), b"Scattered".to_vec());
    assert_eq!(mode_name(Mode::Coherent), b"Coherent".to_vec());
    assert_eq!(mode_of_name(b"Naive"), Some(Mode::Naive));
    assert_eq!(mode_of_name(b"Scattered"), Some(Mode::Uniform));
    assert_eq!(mode_of_name(b"Coherent"), Some(Mode::Coherent));
    assert_eq!(mode_of_name(b"naive"), None);
    assert_eq!(mode_of_name(b"ScatteredGrid"), None);
}

#[test]
fn numeric_fields_parse_exactly() {
    assert_eq!(parse_u32(b"4294967295"), Some(u32::MAX));
    assert_eq!(parse_u32(b"4294967296"), None);
    assert_eq!(parse_u32(b"00123"), Some(123));
    assert_eq!(parse_u32(b""), None);
    assert_eq!(parse_u32(b"12a"), None);
}

#[test]
fn statistic_field_parses_exactly() {
    assert_eq!(parse_stat(b"123.45"), Some(123_450));
    assert_eq!(parse_stat(b"2000"), Some(2_000_000));
    assert_eq!(parse_stat(b"."), None);
    assert_eq!(parse_stat(b""), None);
    assert_eq!(parse_stat(b"12.3.4"), None);
}

#[test]
fn statistic_formatting_has_three_fraction_digits() {
    assert_eq!(format_stat(35_000), b"35.000".to_vec());
    assert_eq!(format_stat(123_450), b"123.450".to_vec());
    assert_eq!(format_stat(5), b"0.005".to_vec());
    assert_eq!(format_u64(0), b"0".to_vec());
    assert_eq!(format_u64(1024), b"1024".to_vec());
}

#[test]
fn record_line_has_fixed_field_order() {
    let m = Measurement { config: cfg(Mode::Naive, 5000, 64), stat_milli: 123_450 };
    assert_eq!(format_record(&m), b"64 5000 Naive 123.450".to_vec());
}

#[test]
fn record_round_trip_through_text() {
    let m = Measurement { config: cfg(Mode::Uniform, 15_000, 512), stat_milli: 87_125 };
    let line = format_record(&m);
    assert_eq!(parse_record(line.as_slice()), Some(m));
}

#[test]
fn record_parser_rejects_corrupt_lines() {
    assert_eq!(parse_record(b"64 5000 Bogus 123.45"), None);
    assert_eq!(parse_record(b"64 5000 Naive"), None);
    assert_eq!(parse_record(b"64 x Naive 123.45"), None);
    assert_eq!(parse_record(b"0 5000 Naive 123.45"), None);
    assert_eq!(parse_record(b"64 0 Naive 123.45"), None);
    assert_eq!(parse_record(b""), None);
}

#[test]
fn record_parser_accepts_short_statistic_forms() {
    // a table may hold bare or short fractional statistics; they still load
    assert_eq!(
        parse_record(b"64 5000 Naive 123.45"),
        Some(Measurement { config: cfg(Mode::Naive, 5000, 64), stat_milli: 123_450 })
    );
    assert_eq!(
        parse_record(b"128 10000 Coherent 2000"),
        Some(Measurement { config: cfg(Mode::Coherent, 10_000, 128), stat_milli: 2_000_000 })
    );
}

#[test]
fn store_round_trip_after_append() {
    let mut store = ResultsStore::new();
    let c = cfg(Mode::Coherent, 25_000, 256);
    let (stat, line) = record_measurement(
        &mut store,
        c,
        &vec![10_000u64, 20_000, 30_000, 40_000, 50_000, 60_000],
    );
    assert_eq!(stat, 35_000);
    let reloaded = ResultsStore::from_lines(&vec![line]);
    assert_eq!(reloaded.len(), 1);
    assert_eq!(reloaded.get(0), Measurement { config: c, stat_milli: 35_000 });
    assert_eq!(reloaded.lookup(&c), Some(35_000));
}

#[test]
fn store_load_skips_corrupt_lines() {
    let lines = vec![
        b"64 5000 Naive 100.000".to_vec(),
        b"garbage line".to_vec(),
        b"128 10000 Coherent 2000".to_vec(),
    ];
    let store = ResultsStore::from_lines(&lines);
    assert_eq!(store.len(), 2);
    assert_eq!(store.lookup(&cfg(Mode::Naive, 5000, 64)), Some(100_000));
    assert_eq!(store.lookup(&cfg(Mode::Coherent, 10_000, 128)), Some(2_000_000));
    assert_eq!(store.lookup(&cfg(Mode::Uniform, 5000, 64)), None);
}

#[test]
fn store_lookup_returns_first_match() {
    let mut store = ResultsStore::new();
    let c = cfg(Mode::Naive, 5000, 64);
    store.append(Measurement { config: c, stat_milli: 1000 });
    store.append(Measurement { config: c, stat_milli: 2000 });
    assert_eq!(store.lookup(&c), Some(1000));
}

#[test]
fn sweep_enumeration_order_blocks_outer() {
    let blocks = vec![64u32, 128];
    let boids = vec![5000u32, 10_000];
    let cs = sweep_configs(&blocks, &boids);
    assert_eq!(cs.len(), 12);
    assert_eq!(cs[0], cfg(Mode::Naive, 5000, 64));
    assert_eq!(cs[1], cfg(Mode::Uniform, 5000, 64));
    assert_eq!(cs[2], cfg(Mode::Coherent, 5000, 64));
    assert_eq!(cs[3], cfg(Mode::Naive, 10_000, 64));
    assert_eq!(cs[6], cfg(Mode::Naive, 5000, 128));
    assert_eq!(cs[11], cfg(Mode::Coherent, 10_000, 128));
}

#[test]
fn population_range_is_ascending_with_step() {
    let r = boids_range(5000, 5000, 20_000);
    assert_eq!(r, vec![5000, 10_000, 15_000, 20_000]);
    let r2 = boids_range(5000, 5000, 19_999);
    assert_eq!(r2, vec![5000, 10_000, 15_000]);
    let r3 = boids_range(10, 3, 9);
    assert!(r3.is_empty());
}

#[test]
fn default_block_sizes_are_the_five_powers() {
    assert_eq!(default_block_sizes(), vec![64, 128, 256, 512, 1024]);
}

#[test]
fn sweep_is_idempotent_after_completion() {
    let blocks = vec![64u32, 128];
    let boids = vec![5000u32, 10_000];
    let configs = sweep_configs(&blocks, &boids);
    let mut store = ResultsStore::new();

    // first sweep: everything is missing, so everything is measured
    let missing = missing_configs(&store, &configs);
    assert_eq!(missing.len(), configs.len());
    let trials = vec![10_000u64, 20_000, 30_000, 40_000, 50_000, 60_000];
    let mut executor_runs = 0usize;
    for c in configs.iter() {
        match plan_step(&store, c) {
            SweepAction::Measure => {
                executor_runs += 1;
                record_measurement(&mut store, *c, &trials);
            }
            SweepAction::Publish(_) => {}
        }
    }
    assert_eq!(executor_runs, configs.len());

    // second sweep: every lookup succeeds, zero executor invocations
    let missing_after = missing_configs(&store, &configs);
    assert!(missing_after.is_empty());
    for c in configs.iter() {
        assert_eq!(store.lookup(c), Some(35_000));
        match plan_step(&store, c) {
            SweepAction::Publish(s) => assert_eq!(s, 35_000),
            SweepAction::Measure => panic!("second sweep tried to measure"),
        }
    }
}

#[test]
fn series_orders_population_coordinates() {
    let blocks = vec![64u32];
    let mut surface = Surface::new(&blocks);
    for (stat, boids) in [(100_000u64, 5000u32), (90_000, 10_000), (80_000, 15_000)] {
        let c = cfg(Mode::Naive, boids, 64);
        surface.publish(&c, stat);
    }
    let points = surface.snapshot(Mode::Naive, 64);
    assert_eq!(points.len(), 3);
    for w in points.windows(2) {
        assert!(w[0].num_boids <= w[1].num_boids);
    }
    assert_eq!(points[0], SeriesPoint { stat_milli: 100_000, num_boids: 5000 });
    assert_eq!(points[2], SeriesPoint { stat_milli: 80_000, num_boids: 15_000 });
}

#[test]
fn surface_keeps_series_separate() {
    let blocks = vec![64u32, 128];
    let mut surface = Surface::new(&blocks);
    assert!(surface.contains(Mode::Naive, 64));
    assert!(surface.contains(Mode::Coherent, 128));
    assert!(!surface.contains(Mode::Naive, 63));
    surface.publish(&cfg(Mode::Naive, 5000, 64), 111_000);
    surface.publish(&cfg(Mode::Coherent, 5000, 64), 222_000);
    assert_eq!(surface.snapshot(Mode::Naive, 64).len(), 1);
    assert_eq!(surface.snapshot(Mode::Coherent, 64).len(), 1);
    assert_eq!(surface.snapshot(Mode::Uniform, 64).len(), 0);
    assert_eq!(surface.snapshot(Mode::Naive, 128).len(), 0);
    assert_eq!(surface.last_boids(Mode::Naive, 64), Some(5000));
    assert_eq!(surface.last_boids(Mode::Uniform, 64), None);
}

#[test]
fn snapshot_of_unknown_key_is_empty() {
    let surface = Surface::new(&vec![64u32]);
    assert!(surface.snapshot(Mode::Naive, 999).is_empty());
}
