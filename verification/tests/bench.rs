use blkspeed::bench::{
    overhead, per_pass_duration, scratch_size, usable_span, Config, Msg, PassKind, PassResult, Status, RAND_BLOCK,
    SCRATCH_MAX, SCRATCH_MIN, SEQ_BLOCK,
};
use blkspeed::double::Double;
use blkspeed::meter::{fraction, mean_latency, Meter};
use blkspeed::pass::{Pass, Walk};
use blkspeed::path::path_components;
use blkspeed::rng::Rng;
use blkspeed::scratch::{scratch_name, scratch_path, Fill, Next, Preparation, ScratchError};
use blkspeed::time::Duration;
use blkspeed::worker::{after_open, bypass_unsupported, job_for, Action, Job, Opened, Worker};

fn config(passes: Vec<PassKind>, write: bool) -> Config {
    Config {
        read_path: "/dev/null".to_string(),
        read_is_dir: false,
        read_size: 1 << 30,
        write_dir: if write { Some("/tmp".to_string()) } else { None },
        free_space: 100 << 30,
        direct: true,
        budget: Duration::from_secs(40),
        passes,
    }
}

fn float(x: Double) -> f64 {
    let (mant, exp) = x.parts();
    mant as f64 * 2f64.powi(exp)
}

#[test]
fn budget_is_split_across_runnable_passes_only() {
    let all = config(PassKind::all(), true);
    let slice = per_pass_duration(&all);
    assert!(slice.nanos * 4 <= all.budget.nanos, "must stay inside the budget");
    assert!(slice.nanos >= Duration::from_secs(8).nanos);

    // Without a writable filesystem the two write passes are dropped, and
    // the reads get the time instead.
    let reads_only = config(PassKind::all(), false);
    assert!(per_pass_duration(&reads_only).nanos > slice.nanos);
}

#[test]
fn budget_shares_are_exact() {
    assert_eq!(per_pass_duration(&config(PassKind::all(), true)).nanos, 8_750_000_000);
    assert_eq!(per_pass_duration(&config(PassKind::all(), false)).nanos, 19_900_000_000);
    // Nothing can run, and the whole budget goes to one share.
    assert_eq!(per_pass_duration(&config(vec![PassKind::SeqWrite], false)).nanos, 39_800_000_000);
    let mut small = config(vec![PassKind::SeqRead], false);
    small.budget = Duration::from_millis(100);
    assert_eq!(per_pass_duration(&small).nanos, 0);
}

#[test]
fn scratch_never_eats_more_than_an_eighth_of_free_space() {
    assert_eq!(scratch_size(800 << 20), 100 << 20);
    assert_eq!(scratch_size(1 << 40), SCRATCH_MAX);
}

#[test]
fn usable_span_rejects_tiny_targets() {
    assert_eq!(usable_span(10_000, 4096).unwrap(), 8192);
    assert!(usable_span(100, 4096).is_err());
}

#[test]
fn tiny_targets_are_named() {
    assert_eq!(usable_span(4096, 4096), Ok(4096));
    assert_eq!(
        usable_span(4095, 4096),
        Err("target is smaller than one 4096-byte block".to_string())
    );
    assert_eq!(usable_span(u64::MAX, SEQ_BLOCK), Ok(u64::MAX - (SEQ_BLOCK as u64 - 1)));
}

#[test]
fn random_offsets_are_aligned_and_in_range() {
    let mut rng = Rng::new(7);
    let span = 1 << 20;
    for _ in 0..1000 {
        let off = rng.aligned_offset(span, RAND_BLOCK);
        assert_eq!(off % RAND_BLOCK as u64, 0);
        assert!(off + RAND_BLOCK as u64 <= span);
    }
}

#[test]
fn generators_are_seeded_from_the_clock() {
    let mut a = Rng::from_clock(Some((1_700_000_000, 123_456_789)));
    let mut b = Rng::new(1_700_000_000 ^ 123_456_789);
    assert_eq!(a.next_u64(), b.next_u64());
    let mut c = Rng::from_clock(None);
    let mut d = Rng::new(0x2545F4914F6CDD1D);
    assert_eq!(c.next_u64(), d.next_u64());
    // Zero is the one state that is never left.
    let mut e = Rng::new(0);
    let mut f = Rng::new(1);
    assert_eq!(e.next_u64(), f.next_u64());
}

#[test]
fn generated_numbers_are_those_of_xorshift64star() {
    let mut rng = Rng::new(42);
    let mut x: u64 = 42;
    for _ in 0..100 {
        x ^= x << 13;
        x ^= x >> 7;
        x ^= x << 17;
        assert_eq!(rng.next_u64(), x.wrapping_mul(0x2545F4914F6CDD1D));
    }
}

fn at(millis: u64) -> Duration {
    Duration::from_millis(1000 + millis)
}

#[test]
fn read_pass_measures_a_regular_file() {
    // Every read takes a millisecond and gives a whole block.
    let size: u64 = 100 << 20;
    let walk = Walk::new(PassKind::RandRead, size, Rng::new(3)).unwrap();
    let mut pass = Pass::begin(PassKind::RandRead, walk, true, Duration::from_millis(300), 0, at(0));
    let mut now: u64 = 0;
    let mut progress = 0;
    while let Some(offset) = pass.step(at(now), false) {
        assert_eq!(offset % RAND_BLOCK as u64, 0);
        assert!(offset + RAND_BLOCK as u64 <= size);
        now += 1;
        if let Some(msg) = pass.moved(RAND_BLOCK as u64, Duration::from_millis(1), at(now)) {
            match msg {
                Msg::Progress { index, fraction, bytes, rate_now } => {
                    assert_eq!(index, 0);
                    assert_eq!(bytes, now * RAND_BLOCK as u64);
                    assert!((float(fraction.value()) - now as f64 / 300.0).abs() < 1e-12);
                    assert!((float(rate_now) - 4_096_000.0).abs() < 1e-3);
                }
                _ => panic!("unexpected event"),
            }
            progress += 1;
        }
    }
    let result = pass.finish(at(now));
    assert_eq!(result.status, Status::Done);
    assert!(result.ops > 0);
    assert_eq!(result.bytes, result.ops * RAND_BLOCK as u64);
    assert!(float(result.rate()) > 0.0);
    assert!(progress > 0, "should emit progress");
    assert_eq!(result.ops, 300);
    assert_eq!(progress, 2);
    assert_eq!(result.avg_latency, Duration::from_millis(1));
    assert_eq!(result.max_latency, Duration::from_millis(1));
}

#[test]
fn stop_flag_ends_a_pass_early() {
    let walk = Walk::new(PassKind::SeqRead, 100 << 20, Rng::new(3)).unwrap();
    let mut pass = Pass::begin(PassKind::SeqRead, walk, true, Duration::from_secs(30), 0, at(0));
    assert_eq!(pass.step(at(1), true), None);
    let result = pass.finish(at(1));
    assert!(result.elapsed.nanos < Duration::from_secs(5).nanos);
}

#[test]
fn passes_end_at_their_deadline() {
    let walk = Walk::new(PassKind::SeqRead, 100 << 20, Rng::new(3)).unwrap();
    let mut pass = Pass::begin(PassKind::SeqRead, walk, true, Duration::from_millis(10), 0, at(0));
    assert_eq!(pass.step(at(9), false), Some(0));
    assert_eq!(pass.step(at(10), false), None);
}

#[test]
fn sequential_reads_wrap_around_behind_the_last_block() {
    let block = SEQ_BLOCK as u64;
    let mut walk = Walk::new(PassKind::SeqRead, 2 * block + 5, Rng::new(1)).unwrap();
    let offsets: Vec<u64> = (0..5).map(|_| walk.next()).collect();
    assert_eq!(offsets, vec![0, block, 2 * block, 0, block]);
    // The end of the file starts the walk over.
    walk.rewind();
    assert_eq!(walk.next(), 0);
}

#[test]
fn writes_never_go_past_the_scratch_file() {
    let block = SEQ_BLOCK as u64;
    let mut walk = Walk::new(PassKind::SeqWrite, 3 * block, Rng::new(1)).unwrap();
    let offsets: Vec<u64> = (0..7).map(|_| walk.next()).collect();
    assert_eq!(offsets, vec![0, block, 2 * block, 0, block, 2 * block, 0]);
    let mut random = Walk::new(PassKind::RandWrite, 3 * block, Rng::new(1)).unwrap();
    for _ in 0..1000 {
        assert!(random.next() + RAND_BLOCK as u64 <= 3 * block);
    }
}

#[test]
fn an_empty_read_is_not_counted_and_starts_over() {
    let walk = Walk::new(PassKind::SeqRead, 100 << 20, Rng::new(3)).unwrap();
    let mut pass = Pass::begin(PassKind::SeqRead, walk, false, Duration::from_secs(1), 0, at(0));
    assert_eq!(pass.step(at(0), false), Some(0));
    assert_eq!(pass.step(at(0), false), Some(SEQ_BLOCK as u64));
    assert!(pass.moved(0, Duration::from_millis(500), at(500)).is_none());
    assert_eq!(pass.step(at(500), false), Some(0));
    let result = pass.finish(at(600));
    assert_eq!((result.ops, result.bytes), (0, 0));
    assert_eq!(result.avg_latency, Duration::zero());
    assert_eq!(result.max_latency, Duration::zero());
}

#[test]
fn reports_are_a_sample_window_apart() {
    let mut meter = Meter::new(at(0), Duration::from_secs(10));
    meter.record(10, Duration::from_millis(1));
    assert!(meter.maybe_report(0, Duration::from_secs(10), at(149)).is_none());
    assert!(meter.maybe_report(0, Duration::from_secs(10), at(150)).is_some());
    meter.record(10, Duration::from_millis(2));
    assert!(meter.maybe_report(0, Duration::from_secs(10), at(299)).is_none());
    assert!(meter.maybe_report(0, Duration::from_secs(10), at(300)).is_some());
}

#[test]
fn the_longest_latency_is_kept() {
    let mut meter = Meter::new(at(0), Duration::from_secs(10));
    for ms in [3u64, 9, 4] {
        meter.record(1, Duration::from_millis(ms));
    }
    let r = meter.finish(PassKind::SeqRead, SEQ_BLOCK, false, at(30));
    assert_eq!(r.max_latency, Duration::from_millis(9));
    assert_eq!(r.avg_latency, Duration::from_millis(10));
    assert!(!r.direct);
}

#[test]
fn fractions_are_those_of_floating_point() {
    for (a, b) in [(0u64, 7u64), (1, 3), (150_000_000, 8_750_000_000), (7, 7), (9, 7), (123_456_789_012, 600_000_000_000)] {
        let x = std::time::Duration::from_nanos(a).as_secs_f64();
        let y = std::time::Duration::from_nanos(b).as_secs_f64();
        let f = fraction(Duration { nanos: a }, Duration { nanos: b });
        assert_eq!(float(f.value()), (x / y).clamp(0.0, 1.0), "{}/{}", a, b);
    }
    assert_eq!(float(fraction(Duration::zero(), Duration::zero()).value()), 1.0);
}

#[test]
fn mean_latencies_are_those_of_floating_point() {
    let mut x: u64 = 88172645463325252;
    for i in 0..3000u32 {
        x ^= x << 13;
        x ^= x >> 7;
        x ^= x << 17;
        let nanos = (x >> (20 + i % 40)) % 700_000_000_000;
        let ops = 1 + (x % 9_000_017) % (1 + (1 << (i % 24)));
        let expected = std::time::Duration::from_nanos(nanos).div_f64(ops as f64);
        let got = mean_latency(Duration { nanos }, ops);
        assert_eq!(got.nanos as u128, expected.as_nanos(), "{} / {}", nanos, ops);
    }
}

fn result(bytes: u64, ops: u64, nanos: u64) -> PassResult {
    let mut r = PassResult::empty(PassKind::SeqRead, Status::Done);
    r.bytes = bytes;
    r.ops = ops;
    r.elapsed = Duration { nanos };
    r
}

#[test]
fn rates_of_results_are_those_of_floating_point() {
    for (bytes, ops, nanos) in [
        (10u64 << 30, 2560u64, 10_000_000_000u64),
        (1, 1, 3),
        (u64::MAX, u64::MAX, 1),
        (123_456_789, 42, 999_999_999),
        (7, 3, 18_446_744_073_709_551_615),
        (0, 0, 5),
    ] {
        let r = result(bytes, ops, nanos);
        let s = std::time::Duration::from_nanos(nanos).as_secs_f64();
        assert_eq!(float(r.rate()), bytes as f64 / s);
        assert_eq!(float(r.iops()), ops as f64 / s);
    }
    assert_eq!(float(result(5, 5, 0).rate()), 0.0);
    assert_eq!(float(result(5, 5, 0).iops()), 0.0);
}

#[test]
fn a_filled_scratch_file_has_no_sparse_holes() {
    // Only what has been written is kept, in whole blocks.
    let p = Preparation::begin(100 << 30, Some(Duration::from_secs(10))).unwrap();
    assert_eq!(p.size, SCRATCH_MAX);
    assert_eq!(p.sized(false), Ok(Next::Fill(Duration::from_secs(10))));
    let mut fill = Fill::begin(p.size, Duration::from_secs(10), at(0));
    let mut written = 0u64;
    while let Some(offset) = fill.step(at(written >> 22), false) {
        assert_eq!(offset, written);
        written += SEQ_BLOCK as u64;
        fill.wrote();
    }
    assert_eq!(written, p.size);
    assert_eq!(fill.trim(), None);
    let size = p.filled(written).unwrap();
    assert!(size >= SEQ_BLOCK as u64);
    assert_eq!(size % SEQ_BLOCK as u64, 0);
    assert_eq!(size, written);
}

#[test]
fn filling_stops_at_the_budget_and_trims_the_file() {
    let p = Preparation::begin(100 << 30, Some(Duration::from_millis(1))).unwrap();
    let mut fill = Fill::begin(p.size, Duration::from_millis(1), at(0));
    // Each block takes a third of a millisecond.
    let mut micros = 0u64;
    while fill.step(Duration { nanos: at(0).nanos + micros * 1000 }, false).is_some() {
        fill.wrote();
        micros += 333;
    }
    assert_eq!(fill.trim(), Some(4 * SEQ_BLOCK as u64));
    let size = p.filled(fill.offset).unwrap();
    assert!(size < scratch_size(100 << 30));
    assert_eq!(Some(size), fill.trim());
}

#[test]
fn filling_stops_when_the_run_does() {
    let fill = Fill::begin(SCRATCH_MAX, Duration::from_secs(1), at(0));
    assert_eq!(fill.step(at(0), true), None);
    assert_eq!(fill.trim(), Some(0));
}

#[test]
fn scratch_files_can_fail_for_three_reasons() {
    let e = Preparation::begin(SCRATCH_MIN * 8 - 1, None).unwrap_err();
    assert_eq!(e, ScratchError::NoRoom(SCRATCH_MIN * 8 - 1));
    assert_eq!(e.text(), "needs 512 MiB free, only 512 MiB available");
    assert_eq!(
        Preparation::begin(100 << 20, None).unwrap_err().text(),
        "needs 512 MiB free, only 100 MiB available"
    );
    let p = Preparation::begin(SCRATCH_MIN * 8, None).unwrap();
    assert_eq!(p.size, SCRATCH_MIN);
    assert_eq!(p.sized(true), Err(ScratchError::Cancelled));
    assert_eq!(p.sized(false), Ok(Next::Ready));
    assert_eq!(ScratchError::Cancelled.text(), "cancelled");
    assert_eq!(p.filled(SCRATCH_MIN / 8 - 1), Err(ScratchError::TooSlow));
    assert_eq!(p.filled(SCRATCH_MIN / 8), Ok(SCRATCH_MIN / 8));
    assert_eq!(
        ScratchError::TooSlow.text(),
        "device too slow to prepare a read sample within the budget"
    );
}

#[test]
fn scratch_files_are_named_after_process_and_count() {
    assert_eq!(scratch_name(4711, 2), ".blkspeed-scratch-4711-2.tmp");
}

#[test]
fn scratch_files_lie_directly_in_their_directory() {
    let name = ".blkspeed-scratch-4711-2.tmp";
    for (dir, path) in [
        ("/mnt/usb", "/mnt/usb/.blkspeed-scratch-4711-2.tmp"),
        ("/mnt/usb/", "/mnt/usb/.blkspeed-scratch-4711-2.tmp"),
        ("/", "/.blkspeed-scratch-4711-2.tmp"),
        (".", "./.blkspeed-scratch-4711-2.tmp"),
        ("", ".blkspeed-scratch-4711-2.tmp"),
    ] {
        let made = scratch_path(dir, 4711, 2);
        assert_eq!(made, path);
        let mut parts = path_components(dir);
        parts.push(name.to_string());
        assert_eq!(path_components(&made), parts);
        assert_eq!(std::path::Path::new(dir).join(name), std::path::PathBuf::from(&made));
    }
}

#[test]
fn only_the_scratch_file_is_opened_for_writing() {
    let file = "/mnt/.blkspeed-scratch-1-0.tmp";
    let opened = |action: &Action| action.access("/dev/sdb", file).map(|a| (a.path, a.write));
    let run = |job: Job| Action::Run { index: 0, kind: PassKind::SeqRead, job, slice: at(1) };
    assert_eq!(opened(&Action::Prepare(None)), Some((file.to_string(), true)));
    assert_eq!(opened(&run(Job::WriteScratch(7))), Some((file.to_string(), true)));
    assert_eq!(opened(&run(Job::ReadScratch(7))), Some((file.to_string(), false)));
    assert_eq!(opened(&run(Job::ReadTarget(7))), Some(("/dev/sdb".to_string(), false)));
    assert_eq!(opened(&run(Job::Skip("no".to_string()))), None);
    assert_eq!(opened(&Action::Check), None);
    assert_eq!(opened(&Action::Stop), None);
}

#[test]
fn without_a_directory_nothing_is_opened_for_writing() {
    let kinds = [PassKind::SeqRead, PassKind::SeqWrite, PassKind::RandRead, PassKind::RandWrite];
    let mut worker = Worker::new(config(kinds.to_vec(), false));
    let (_, mut action) = worker.begin();
    for _ in 0..16 {
        if let Some(a) = action.access("/dev/sdb", "/mnt/x.tmp") {
            assert_eq!((a.path.as_str(), a.write), ("/dev/sdb", false));
        }
        action = match action {
            Action::Prepare(_) => unreachable!(),
            Action::Check => worker.checked(false).1,
            Action::Run { .. } => worker.ran(Err("no".to_string())).1,
            Action::Stop => return,
        };
    }
    panic!("the run does not end");
}

#[test]
fn directory_targets_read_through_the_scratch_file() {
    let mut cfg = config(PassKind::all(), true);
    cfg.read_path = "/tmp".to_string();
    cfg.read_is_dir = true;
    assert!(cfg.read_via_scratch());
    // Filling costs time, so the per-pass slice must shrink accordingly.
    assert!(overhead(&cfg).nanos > cfg.budget.nanos / 4);

    cfg.read_path = "/dev/null".to_string();
    cfg.read_is_dir = false;
    assert!(!cfg.read_via_scratch());
}

#[test]
fn only_an_unsupported_bypass_falls_back_to_the_cache() {
    assert!(bypass_unsupported(Some(22)));
    assert!(!bypass_unsupported(Some(13)));
    assert!(!bypass_unsupported(None));
    assert_eq!(after_open(true, Err(Some(22))), Opened::Retry);
    assert_eq!(after_open(true, Err(Some(13))), Opened::Fail);
    assert_eq!(after_open(true, Err(None)), Opened::Fail);
    assert_eq!(after_open(false, Err(Some(22))), Opened::Fail);
    assert_eq!(after_open(true, Ok(())), Opened::Use(true));
    // A file that was opened in a second attempt does not bypass the cache.
    assert_eq!(after_open(false, Ok(())), Opened::Use(false));
}

#[test]
fn jobs_write_only_to_the_scratch_file() {
    let dir = config(PassKind::all(), true);
    let none = config(PassKind::all(), false);
    assert!(matches!(job_for(&dir, PassKind::SeqWrite, Some(7)), Job::WriteScratch(7)));
    match job_for(&dir, PassKind::SeqWrite, None) {
        Job::Skip(why) => assert_eq!(why, "scratch file unavailable"),
        _ => panic!("must be skipped"),
    }
    match job_for(&none, PassKind::RandWrite, Some(7)) {
        Job::Skip(why) => assert_eq!(why, "no writable filesystem on this device"),
        _ => panic!("must be skipped"),
    }
    assert!(matches!(job_for(&dir, PassKind::SeqRead, Some(7)), Job::ReadTarget(n) if n == 1 << 30));
    let mut through = config(PassKind::all(), true);
    through.read_is_dir = true;
    assert!(matches!(job_for(&through, PassKind::RandRead, Some(7)), Job::ReadScratch(7)));
    match job_for(&through, PassKind::RandRead, None) {
        Job::Skip(why) => assert_eq!(why, "no readable scratch file on this filesystem"),
        _ => panic!("must be skipped"),
    }
}

fn names(events: &[Msg]) -> Vec<String> {
    events
        .iter()
        .map(|m| match m {
            Msg::Phase(p) => format!("phase {}", p),
            Msg::PassStart { index } => format!("start {}", index),
            Msg::PassDone { index, result } => format!("done {} {:?}", index, result.status),
            Msg::Progress { index, .. } => format!("progress {}", index),
            Msg::Finished => "finished".to_string(),
            Msg::Fatal(e) => format!("fatal {}", e),
        })
        .collect()
}

#[test]
fn a_run_reports_every_pass_in_order() {
    let mut w = Worker::new(config(PassKind::all(), true));
    assert_eq!(w.slice.nanos, 8_750_000_000);
    let (events, action) = w.begin();
    assert_eq!(names(&events), vec!["phase preparing scratch file"]);
    assert!(matches!(action, Action::Prepare(None)));
    let (events, action) = w.prepared(Ok(64 << 20));
    assert!(events.is_empty());
    assert!(matches!(action, Action::Check));
    let mut seen = Vec::new();
    for i in 0..4usize {
        let (events, action) = w.checked(false);
        seen.extend(names(&events));
        match action {
            Action::Run { index, kind, slice, .. } => {
                assert_eq!((index, kind), (i, PassKind::all()[i]));
                assert_eq!(slice.nanos, 8_750_000_000);
                let outcome = if i == 1 {
                    Err("I/O error".to_string())
                } else {
                    Ok(PassResult::empty(kind, Status::Done))
                };
                let (events, action) = w.ran(outcome);
                seen.extend(names(&events));
                assert_eq!(matches!(action, Action::Stop), i == 3);
            }
            _ => panic!("must run"),
        }
    }
    assert_eq!(
        seen,
        vec![
            "start 0",
            "done 0 Done",
            "start 1",
            "done 1 Failed(\"I/O error\")",
            "start 2",
            "done 2 Done",
            "start 3",
            "done 3 Done",
        ]
    );
}

#[test]
fn a_run_goes_on_without_its_scratch_file() {
    let mut w = Worker::new(config(vec![PassKind::SeqWrite, PassKind::SeqRead], true));
    let _ = w.begin();
    let (events, _) = w.prepared(Err("no space".to_string()));
    assert_eq!(names(&events), vec!["phase scratch file unavailable: no space"]);
    let (events, action) = w.checked(false);
    assert_eq!(names(&events), vec!["start 0", "done 0 Skipped(\"scratch file unavailable\")"]);
    assert!(matches!(action, Action::Check));
    let (events, action) = w.checked(true);
    assert!(events.is_empty());
    assert!(matches!(action, Action::Stop));
}

#[test]
fn a_run_without_writes_prepares_nothing() {
    let w = Worker::new(config(vec![PassKind::SeqRead], true));
    let (events, action) = w.begin();
    assert!(events.is_empty());
    assert!(matches!(action, Action::Check));
    let empty = Worker::new(config(vec![], true));
    assert!(matches!(empty.begin().1, Action::Stop));
    let mut dir = config(vec![PassKind::SeqRead], true);
    dir.read_is_dir = true;
    match Worker::new(dir).begin().1 {
        Action::Prepare(Some(d)) => assert_eq!(d.nanos, 40_000_000_000 / 3),
        _ => panic!("must be filled"),
    }
}

#[test]
fn passes_have_names_and_blocks() {
    let all = PassKind::all();
    let labels: Vec<&str> = all.iter().map(|k| k.label()).collect();
    assert_eq!(labels, ["Sequential read", "Random read", "Sequential write", "Random write"]);
    let shorts: Vec<&str> = all.iter().map(|k| k.short()).collect();
    assert_eq!(shorts, ["seq_read", "rand_read", "seq_write", "rand_write"]);
    let blocks: Vec<usize> = all.iter().map(|k| k.block_size()).collect();
    assert_eq!(blocks, [4 << 20, 4 << 10, 4 << 20, 4 << 10]);
    assert!(config(all, true).has(true));
    assert!(!config(vec![PassKind::SeqRead], true).has(true));
}

#[test]
fn steps_of_the_generator_are_one_to_one() {
    let mut seen: Vec<u64> = (1..2000u64).map(blkspeed::rng::stir).collect();
    assert!(seen.iter().all(|&x| x != 0));
    seen.sort();
    seen.dedup();
    assert_eq!(seen.len(), 1999);
    assert_eq!(blkspeed::rng::stir(0), 0);
}

#[test]
fn the_smallest_scratch_file_holds_a_block_of_every_pass() {
    for kind in PassKind::all() {
        assert!(Walk::new(kind, SCRATCH_MIN / 8, Rng::new(1)).is_ok());
        assert!(Walk::new(kind, kind.block_size() as u64 - 1, Rng::new(1)).is_err());
    }
}
