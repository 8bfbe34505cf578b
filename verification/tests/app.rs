use blkspeed::app::{App, Effect, Key, PassView, Probe, Screen, SPARK_LEN};
use blkspeed::bench::{Msg, PassKind, PassResult, Status};
use blkspeed::device::{Device, Kind, Mount};
use blkspeed::double::{Double, Share};
use blkspeed::meter::fraction;
use blkspeed::theme::Mode;
use blkspeed::time::Duration;

fn device(name: &str, writable: bool) -> Device {
    Device {
        name: name.to_string(),
        path: "/dev/zero".to_string(),
        kind: Kind::Disk,
        size: 1 << 30,
        model: "test".to_string(),
        rotational: Some(false),
        removable: false,
        mount: if writable {
            Some(Mount {
                path: "/tmp".to_string(),
                fstype: "tmpfs".to_string(),
                writable: true,
                free: 100 << 30,
            })
        } else {
            None
        },
        mount_inherited: false,
    }
}

fn app(devices: Vec<Device>) -> App {
    App::new(devices, Mode::Dark, true, Duration::from_secs(40))
}

const PROBE: Probe = Probe { readable: true, is_dir: false };

fn now() -> Duration {
    Duration::from_secs(100)
}

fn float(x: Double) -> f64 {
    let (mant, exp) = x.parts();
    mant as f64 * 2f64.powi(exp)
}

fn half() -> Share {
    fraction(Duration::from_secs(1), Duration::from_secs(2))
}

#[test]
fn selection_wraps_in_both_directions() {
    let mut a = app(vec![device("a", false), device("b", false)]);
    assert_eq!(a.list.selected(), Some(0));
    a.on_up();
    assert_eq!(a.list.selected(), Some(1));
    a.on_down();
    assert_eq!(a.list.selected(), Some(0));
}

#[test]
fn selection_keys_do_nothing_outside_the_picker() {
    let mut a = app(vec![device("a", false), device("b", false)]);
    a.screen = Screen::Running;
    a.on_down();
    assert_eq!(a.list.selected(), Some(0));
}

#[test]
fn empty_device_list_reports_instead_of_panicking() {
    let mut a = app(Vec::new());
    a.on_enter(PROBE, now());
    assert_eq!(a.screen, Screen::Select);
    assert!(a.message.is_some());
}

#[test]
fn write_passes_are_configured_only_with_a_writable_mount() {
    let a = app(vec![device("a", false)]);
    assert!(a.config(false).unwrap().write_dir.is_none());

    let b = app(vec![device("b", true)]);
    assert!(b.config(false).unwrap().write_dir.is_some());
}

#[test]
fn escape_backs_out_one_level_at_a_time() {
    let mut a = app(vec![device("a", false)]);
    a.screen = Screen::Results;
    a.on_escape();
    assert_eq!(a.screen, Screen::Select);
    assert!(!a.should_quit);
    a.on_escape();
    assert!(a.should_quit);
}

#[test]
fn cache_bypass_toggles_only_when_idle() {
    let mut a = app(vec![device("a", false)]);
    a.handle_key('c', PROBE, now());
    assert!(!a.direct);
    a.screen = Screen::Running;
    a.handle_key('c', PROBE, now());
    assert!(!a.direct, "must not change mid-run");
}

#[test]
fn theme_toggle_flips_the_mode() {
    let mut a = app(vec![device("a", false)]);
    assert_eq!(a.theme.mode, Mode::Dark);
    a.handle_key('t', PROBE, now());
    assert_eq!(a.theme.mode, Mode::Light);
}

#[test]
fn overall_progress_counts_finished_passes_as_whole() {
    let mut a = app(vec![device("a", false)]);
    a.views = PassKind::all().into_iter().map(PassView::new).collect();
    assert_eq!(float(a.overall()), 0.0);

    a.views[0].status = Status::Done;
    a.views[1].status = Status::Running;
    a.views[1].fraction = half();
    assert!((float(a.overall()) - 0.375).abs() < 1e-9);
}

#[test]
fn unfinished_passes_are_marked_when_a_run_stops_early() {
    let mut a = app(vec![device("a", false)]);
    a.views = PassKind::all().into_iter().map(PassView::new).collect();
    a.views[0].status = Status::Done;
    a.started = Some(now());
    a.apply(Msg::Finished, Duration::from_secs(103));

    assert_eq!(a.screen, Screen::Results);
    assert!(matches!(a.views[1].status, Status::Skipped(_)));
    assert!(a.finished.is_some());
    assert_eq!(a.finished, Some(Duration::from_secs(3)));
    assert_eq!(a.views[1].status, Status::Skipped("not run".to_string()));
    assert_eq!(a.views[0].status, Status::Done);
    assert_eq!(a.phase, "done");
}

#[test]
fn sparkline_history_is_bounded() {
    let mut a = app(vec![device("a", false)]);
    for i in 0..(SPARK_LEN * 2) {
        a.push_spark(Double::from_u64(i as u64 * 1000));
    }
    assert_eq!(a.spark.len(), SPARK_LEN);
    // Oldest points are dropped, newest kept.
    assert_eq!(*a.spark.back().unwrap(), (SPARK_LEN * 2 - 1) as u64);
}

#[test]
fn sparkline_heights_are_those_of_floating_point() {
    let mut a = app(vec![]);
    for n in [0u64, 1, 999, 1000, 1001, 123_456_789, 1 << 53, u64::MAX] {
        a.push_spark(Double::from_u64(n));
        assert_eq!(*a.spark.back().unwrap(), (n as f64 / 1000.0) as u64);
    }
    a.push_spark(Double::from_parts(1 << 52, -300).unwrap());
    assert_eq!(*a.spark.back().unwrap(), 0);
    a.push_spark(Double::from_parts(1 << 52, 60).unwrap());
    assert_eq!(*a.spark.back().unwrap(), u64::MAX);
}

#[test]
fn a_start_gives_the_configuration_of_the_selected_device() {
    let mut a = app(vec![device("a", false), device("b", true)]);
    a.on_down();
    let effect = a.on_key(Key::Enter, false, Probe { readable: true, is_dir: true }, now());
    match effect {
        Effect::Start(c) => {
            assert_eq!(c.read_path, "/dev/zero");
            assert!(c.read_is_dir);
            assert_eq!(c.read_size, 1 << 30);
            assert_eq!(c.write_dir, Some("/tmp".to_string()));
            assert_eq!(c.free_space, 100 << 30);
            assert!(c.direct);
            assert_eq!(c.budget, Duration::from_secs(40));
            assert_eq!(c.passes, PassKind::all());
        }
        _ => panic!("must start"),
    }
    assert!(a.is_running());
    assert!(a.working);
    assert_eq!(a.started, Some(now()));
    assert_eq!(a.phase, "starting");
    assert_eq!(a.views.len(), 4);
    assert!(a.views.iter().all(|v| v.status == Status::Pending));
    // A run is not started twice.
    assert!(matches!(a.on_enter(PROBE, now()), Effect::Nothing));
    assert!(matches!(a.on_escape(), Effect::Stop));
    assert_eq!(a.screen, Screen::Results);
    assert_eq!(a.message, Some("run cancelled".to_string()));
    assert!(matches!(a.handle_key('r', PROBE, now()), Effect::Start(_)));
}

#[test]
fn a_blocked_device_is_not_started() {
    let mut a = app(vec![device("a", false)]);
    let effect = a.start(Probe { readable: false, is_dir: false }, now());
    assert!(matches!(effect, Effect::Nothing));
    assert_eq!(a.screen, Screen::Select);
    assert_eq!(
        a.message,
        Some("no read permission on /dev/zero — try running with sudo".to_string())
    );
    assert!(!a.starts_at_once(Probe { readable: false, is_dir: false }));
    assert!(a.starts_at_once(PROBE));
    assert!(!app(vec![device("a", false), device("b", false)]).starts_at_once(PROBE));
}

#[test]
fn control_c_always_quits() {
    let mut a = app(vec![device("a", false)]);
    let _ = a.start(PROBE, now());
    assert!(matches!(a.on_key(Key::Char('c'), true, PROBE, now()), Effect::Stop));
    assert!(a.should_quit);
    let mut b = app(vec![device("a", false)]);
    assert!(matches!(b.on_key(Key::Char('C'), false, PROBE, now()), Effect::Nothing));
    assert!(!b.direct);
    assert_eq!(b.message, Some("cache bypass off".to_string()));
    b.on_key(Key::Char('c'), false, PROBE, now());
    assert_eq!(b.message, Some("cache bypass on".to_string()));
    b.on_key(Key::Other, false, PROBE, now());
    b.on_key(Key::Char('J'), false, PROBE, now());
    assert!(!b.should_quit);
    assert!(matches!(b.on_key(Key::Char('q'), false, PROBE, now()), Effect::Nothing));
    assert!(b.should_quit);
}

#[test]
fn selection_steps_undo_each_other() {
    let mut a = app(vec![device("a", false), device("b", false), device("c", false)]);
    for i in 0..3usize {
        a.list.select(Some(i));
        a.on_down();
        assert_eq!(a.list.selected(), Some((i + 1) % 3));
        a.on_up();
        assert_eq!(a.list.selected(), Some(i));
    }
    a.list.select(None);
    a.on_key(Key::Down, false, PROBE, now());
    assert_eq!(a.list.selected(), Some(1));
    let mut empty = app(vec![]);
    empty.on_up();
    assert_eq!(empty.list.selected(), None);
}

#[test]
fn events_of_the_worker_are_shown() {
    let mut a = app(vec![device("a", true)]);
    let _ = a.start(PROBE, now());
    a.apply(Msg::Phase("preparing scratch file".to_string()), now());
    assert_eq!(a.phase, "preparing scratch file");
    a.apply(Msg::PassStart { index: 1 }, now());
    assert_eq!(a.phase, "Random read");
    assert_eq!(a.views[1].status, Status::Running);
    a.apply(
        Msg::Progress { index: 1, fraction: half(), bytes: 77, rate_now: Double::from_u64(5_500) },
        now(),
    );
    assert_eq!(a.views[1].bytes, 77);
    assert_eq!(float(a.views[1].fraction.value()), 0.5);
    assert_eq!(a.spark.back(), Some(&5));
    let mut r = PassResult::empty(PassKind::RandRead, Status::Done);
    r.bytes = 88;
    a.apply(Msg::PassDone { index: 1, result: Box::new(r) }, now());
    assert_eq!(a.views[1].status, Status::Done);
    assert_eq!(a.views[1].bytes, 88);
    assert_eq!(float(a.views[1].fraction.value()), 1.0);
    assert_eq!(a.results().len(), 1);
    // Events of passes that there are not.
    a.apply(Msg::PassStart { index: 9 }, now());
    assert_eq!(a.phase, "");
    let none = PassResult::empty(PassKind::RandRead, Status::Done);
    a.apply(Msg::PassDone { index: 9, result: Box::new(none) }, now());
    assert_eq!(a.results().len(), 1);
    a.apply(Msg::Fatal("broken".to_string()), now());
    assert_eq!(a.message, Some("broken".to_string()));
    assert_eq!(a.screen, Screen::Results);
    assert!(a.cancel());
    assert!(!a.cancel());
}

#[test]
fn toggles_undo_themselves() {
    let mut a = app(vec![device("a", false)]);
    let theme = a.theme;
    for key in ['t', 't', 'c', 'c'] {
        a.handle_key(key, PROBE, now());
    }
    assert_eq!(a.theme, theme);
    assert!(a.direct);
}

#[test]
fn overall_progress_takes_any_number_of_passes() {
    let mut a = app(vec![]);
    a.views = (0..100_000).map(|_| PassView::new(PassKind::SeqRead)).collect();
    for v in a.views.iter_mut() {
        v.status = Status::Done;
    }
    assert_eq!(float(a.overall()), 1.0);
    for v in a.views.iter_mut() {
        v.status = Status::Running;
        v.fraction = fraction(Duration { nanos: 1 }, Duration { nanos: 3 });
    }
    let third = std::time::Duration::from_nanos(1).as_secs_f64() / std::time::Duration::from_nanos(3).as_secs_f64();
    let sum: f64 = a.views.iter().map(|_| third).sum();
    assert_eq!(float(a.overall()), sum / 100_000.0);
}

#[test]
fn a_run_that_nobody_stops_shows_every_result() {
    let mut a = app(vec![device("a", false)]);
    let config = match a.start(PROBE, now()) {
        Effect::Start(c) => c,
        _ => panic!("must start"),
    };
    let mut worker = blkspeed::worker::Worker::new(config);
    let (mut events, mut action) = worker.begin();
    loop {
        for e in events {
            a.apply(e, now());
        }
        let next = match action {
            blkspeed::worker::Action::Check => worker.checked(false),
            blkspeed::worker::Action::Run { kind, .. } => worker.ran(Ok(PassResult::empty(kind, Status::Done))),
            _ => break,
        };
        events = next.0;
        action = next.1;
    }
    a.apply(Msg::Finished, now());
    let shown: Vec<Status> = a.views.iter().map(|v| v.status.clone()).collect();
    let skipped = Status::Skipped("no writable filesystem on this device".to_string());
    assert_eq!(shown, vec![Status::Done, Status::Done, skipped.clone(), skipped]);
    assert_eq!(a.results().len(), 4);
    assert_eq!(a.screen, Screen::Results);
}
