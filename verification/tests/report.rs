use blkspeed::app::{App, Probe};
use blkspeed::bench::{Msg, PassKind, PassResult, Status};
use blkspeed::device::{Device, Kind, Mount};
use blkspeed::report::{headless, hear, json_str, list_text, report, Heard, Refusal, Subject};
use blkspeed::text::truncate;
use blkspeed::theme::Mode;
use blkspeed::time::Duration;

#[test]
fn json_strings_escape_control_characters() {
    assert_eq!(json_str(r#"a"b\c"#), r#""a\"b\\c""#);
    assert_eq!(json_str("line\nbreak"), r#""line\nbreak""#);
    assert_eq!(json_str("\u{1}"), r#""\u0001""#);
}

#[test]
fn model_names_are_truncated_with_an_ellipsis() {
    assert_eq!(truncate("short", 10), "short");
    assert_eq!(truncate("abcdefghij", 5), "abcd…");
}

#[test]
fn every_control_character_is_escaped() {
    for n in 0..32u32 {
        let c = char::from_u32(n).unwrap();
        let expected = match c {
            '\n' => "\\n".to_string(),
            '\r' => "\\r".to_string(),
            '\t' => "\\t".to_string(),
            _ => format!("\\u{:04x}", n),
        };
        assert_eq!(json_str(&c.to_string()), format!("\"{}\"", expected));
    }
    assert_eq!(json_str("é—🔒"), "\"é—🔒\"");
}

#[test]
fn truncation_keeps_short_limits() {
    assert_eq!(truncate("abc", 0), "…");
    assert_eq!(truncate("abc", 1), "…");
    assert_eq!(truncate("", 0), "");
}

fn device(name: &str, size: u64) -> Device {
    Device {
        name: name.to_string(),
        path: format!("/dev/{}", name),
        kind: Kind::Disk,
        size,
        model: "A model with a name that is far too long".to_string(),
        rotational: Some(false),
        removable: false,
        mount: Some(Mount { path: "/".to_string(), fstype: "ext4".to_string(), writable: true, free: 1 << 40 }),
        mount_inherited: false,
    }
}

#[test]
fn devices_are_listed_in_columns() {
    let mut b = device("sdb", 1 << 30);
    b.mount = None;
    b.rotational = None;
    b.model = "x".to_string();
    let text = list_text(&vec![device("nvme0n1", 500_107_862_016), b]);
    let mut expected = format!("{:<14} {:>10}  {:<6} {:<24} MOUNT\n", "DEVICE", "SIZE", "MEDIA", "MODEL");
    expected += &format!("{:<14} {:>10}  {:<6} {:<24} {}\n", "nvme0n1", "466 GiB", "SSD", "A model with a name tha…", "/");
    expected += &format!("{:<14} {:>10}  {:<6} {:<24} {}\n", "sdb", "1.00 GiB", "—", "x", "—");
    assert_eq!(text, expected);
    assert_eq!(list_text(&vec![]), "no block devices found\n");
}

fn measured() -> PassResult {
    PassResult {
        kind: PassKind::SeqRead,
        block_size: 4 << 20,
        bytes: 10 << 30,
        ops: 2560,
        elapsed: Duration::from_secs(10),
        avg_latency: Duration { nanos: 3_906_250 },
        max_latency: Duration::from_millis(12),
        direct: true,
        status: Status::Done,
    }
}

#[test]
fn results_are_reported_as_json() {
    let results = vec![
        measured(),
        PassResult::empty(PassKind::SeqWrite, Status::Skipped("read-only \"fs\"".to_string())),
        PassResult::empty(PassKind::RandWrite, Status::Failed("I/O".to_string())),
        PassResult::empty(PassKind::RandRead, Status::Pending),
    ];
    let subject = Subject { name: "/mnt/x".to_string(), model: "m".to_string(), size: 99, direct: false };
    let text = report(&subject, Duration { nanos: 28_400_400_000 }, &results);
    let expected = "{\n  \"device\": \"/mnt/x\",\n  \"model\": \"m\",\n  \"size_bytes\": 99,\n  \"cache_bypass_requested\": false,\n  \"total_seconds\": 28.400,\n  \"passes\": [\n    {\"pass\": \"seq_read\", \"status\": \"ok\", \"block_bytes\": 4194304, \"bytes\": 10737418240, \"seconds\": 10.000, \"bytes_per_second\": 1073741824, \"human\": \"1.07 GB/s\", \"iops\": 256, \"avg_latency_us\": 3906.2, \"max_latency_us\": 12000.0, \"cache_bypassed\": true},\n    {\"pass\": \"seq_write\", \"status\": \"skipped\", \"note\": \"read-only \\\"fs\\\"\"},\n    {\"pass\": \"rand_write\", \"status\": \"failed\", \"note\": \"I/O\"},\n    {\"pass\": \"rand_read\", \"status\": \"incomplete\", \"note\": \"\"}\n  ]\n}\n";
    assert_eq!(text, expected);
}

#[test]
fn a_report_without_passes_has_an_empty_list() {
    let subject = Subject { name: "x".to_string(), model: "m".to_string(), size: 0, direct: true };
    let text = report(&subject, Duration::zero(), &vec![]);
    assert!(text.ends_with("\"total_seconds\": 0.000,\n  \"passes\": [\n  ]\n}\n"));
}

#[test]
fn headless_runs_need_a_usable_device() {
    let probe = Probe { readable: true, is_dir: false };
    let none = App::new(vec![], Mode::Dark, true, Duration::from_secs(40));
    let e = headless(&none, probe).unwrap_err();
    assert!(matches!(e, Refusal::NoDevice));
    assert_eq!(e.text(), "no device selected");
    let app = App::new(vec![device("sda", 5)], Mode::Dark, true, Duration::from_secs(40));
    let e = headless(&app, Probe { readable: false, is_dir: false }).unwrap_err();
    assert_eq!(e.text(), "no read permission on /dev/sda — try running with sudo");
    let (subject, config) = headless(&app, probe).unwrap();
    assert_eq!((subject.name.as_str(), subject.size, subject.direct), ("sda", 5, true));
    assert_eq!(config.write_dir, Some("/".to_string()));
}

#[test]
fn results_are_collected_until_the_end() {
    let mut results = Vec::new();
    assert!(matches!(hear(&mut results, Msg::Phase("x".to_string())), Heard::More));
    assert!(matches!(hear(&mut results, Msg::PassStart { index: 0 }), Heard::More));
    let done = Msg::PassDone { index: 0, result: Box::new(measured()) };
    assert!(matches!(hear(&mut results, done), Heard::More));
    assert_eq!(results.len(), 1);
    match hear(&mut results, Msg::Fatal("broken".to_string())) {
        Heard::Failed(e) => assert_eq!(e, "broken"),
        _ => panic!("must fail"),
    }
    assert!(matches!(hear(&mut results, Msg::Finished), Heard::Finished));
}

fn read_back(s: &str) -> String {
    let mut out = String::new();
    let mut it = s.chars();
    while let Some(c) = it.next() {
        if c != '\\' {
            out.push(c);
            continue;
        }
        match it.next().unwrap() {
            'n' => out.push('\n'),
            'r' => out.push('\r'),
            't' => out.push('\t'),
            'u' => {
                let code: String = (0..4).map(|_| it.next().unwrap()).collect();
                out.push(char::from_u32(u32::from_str_radix(&code, 16).unwrap()).unwrap());
            }
            c => out.push(c),
        }
    }
    out
}

#[test]
fn json_strings_are_read_back() {
    for s in ["", "plain", "a\"b\\c\u{0}\u{1f}\u{7f}é\n\r\t", "\\u0041", "\\\\\""] {
        let text = json_str(s);
        let inner = &text[1..text.len() - 1];
        assert!(inner.chars().all(|c| c as u32 >= 32));
        assert_eq!(read_back(inner), s);
    }
}
