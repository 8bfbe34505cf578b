use blkspeed::bench::PassKind;
use blkspeed::options::{parse_passes, plan, unknown_theme, Options, Plan, Request, DEFAULT_BUDGET_SECS};
use blkspeed::theme::Mode;
use blkspeed::time::Duration;

fn opts(args: &[&str]) -> Result<Option<Options>, String> {
    let list: Vec<String> = args.iter().map(|s| s.to_string()).collect();
    match Options::parse(&list, Mode::Dark) {
        Ok(Request::Run(o)) => Ok(Some(o)),
        Ok(_) => Ok(None),
        Err(e) => Err(e),
    }
}

#[test]
fn defaults_bypass_the_cache_and_run_every_pass() {
    let o = opts(&[]).unwrap().unwrap();
    assert!(o.direct);
    assert_eq!(o.passes.len(), 4);
    assert_eq!(o.budget, Duration::from_secs(DEFAULT_BUDGET_SECS));
}

#[test]
fn flags_accept_both_separated_and_inline_values() {
    let a = opts(&["--budget", "30"]).unwrap().unwrap();
    let b = opts(&["--budget=30"]).unwrap().unwrap();
    assert_eq!(a.budget, b.budget);
    assert_eq!(a.budget, Duration::from_secs(30));
}

#[test]
fn budget_is_bounded_to_something_sane() {
    assert!(opts(&["--budget", "1"]).is_err());
    assert!(opts(&["--budget", "9999"]).is_err());
    assert!(opts(&["--budget", "abc"]).is_err());
}

#[test]
fn pass_lists_are_parsed_and_deduplicated() {
    let o = opts(&["--passes", "seq_read,seq_read,rand_write"])
        .unwrap()
        .unwrap();
    assert_eq!(o.passes, vec![PassKind::SeqRead, PassKind::RandWrite]);
    assert!(opts(&["--passes", "nope"]).is_err());
    assert!(opts(&["--passes", ""]).is_err());
}

#[test]
fn unknown_options_and_missing_values_are_rejected() {
    assert!(opts(&["--wat"]).is_err());
    assert!(opts(&["--budget"]).is_err());
    assert!(opts(&["--theme", "purple"]).is_err());
}

#[test]
fn help_and_version_stop_before_running() {
    assert!(opts(&["--help"]).unwrap().is_none());
    assert!(opts(&["--version"]).unwrap().is_none());
}

#[test]
fn help_and_version_are_told_apart() {
    let parse = |s: &str| Options::parse(&vec![s.to_string()], Mode::Dark);
    assert!(matches!(parse("-h"), Ok(Request::Help)));
    assert!(matches!(parse("--help=yes"), Ok(Request::Help)));
    assert!(matches!(parse("-V"), Ok(Request::Version)));
}

#[test]
fn errors_say_what_is_wrong() {
    assert_eq!(opts(&["--wat"]).unwrap_err(), "unknown option \"--wat\"");
    assert_eq!(opts(&["--w\ta=3"]).unwrap_err(), "unknown option \"--w\\ta\"");
    assert_eq!(opts(&["-t"]).unwrap_err(), "-t needs a value");
    assert_eq!(opts(&["--theme", "pur\"ple"]).unwrap_err(), "unknown theme \"pur\\\"ple\" (auto, dark or light)");
    assert_eq!(opts(&["-p", "seq_read, nope"]).unwrap_err(), "unknown pass \"nope\"");
    assert_eq!(opts(&["-p", " , "]).unwrap_err(), "no passes selected");
    assert_eq!(opts(&["-b", "4"]).unwrap_err(), "budget must be between 5 and 600 seconds");
    assert_eq!(opts(&["-b", "601"]).unwrap_err(), "budget must be between 5 and 600 seconds");
    assert_eq!(opts(&["-b", "5.5"]).unwrap_err(), "budget must be a whole number of seconds");
    assert_eq!(unknown_theme("x"), "unknown theme x (auto, dark or light)");
}

#[test]
fn every_option_is_taken() {
    let o = opts(&[
        "-t", "/dev/sda", "-b=5", "-p", "rand_write, seq_write", "--no-direct", "--theme=light", "-l", "-j",
    ])
    .unwrap()
    .unwrap();
    assert_eq!(o.target, Some("/dev/sda".to_string()));
    assert_eq!(o.budget, Duration::from_secs(5));
    assert_eq!(o.passes, vec![PassKind::RandWrite, PassKind::SeqWrite]);
    assert!(!o.direct);
    assert_eq!(o.theme, Mode::Light);
    assert!(o.list && o.json);
    assert!(opts(&["--no-direct", "--direct"]).unwrap().unwrap().direct);
    // Only the first equals sign counts, and a value may look like an option.
    assert_eq!(opts(&["--target=a=b"]).unwrap().unwrap().target, Some("a=b".to_string()));
    assert_eq!(opts(&["-t", "--list"]).unwrap().unwrap().target, Some("--list".to_string()));
    assert_eq!(opts(&["-b", "+600"]).unwrap().unwrap().budget, Duration::from_secs(600));
}

#[test]
fn passes_are_named_once() {
    assert_eq!(
        parse_passes("rand_read,,seq_read ,rand_read"),
        Ok(vec![PassKind::RandRead, PassKind::SeqRead])
    );
}

#[test]
fn plans_follow_the_options() {
    let mut o = opts(&[]).unwrap().unwrap();
    assert_eq!(plan(&o, 0), Plan::Interactive);
    o.target = Some("x".to_string());
    assert_eq!(plan(&o, 0), Plan::NoDevices);
    assert_eq!(plan(&o, 1), Plan::Interactive);
    o.json = true;
    assert_eq!(plan(&o, 1), Plan::Headless);
    o.list = true;
    assert_eq!(plan(&o, 0), Plan::List);
}
