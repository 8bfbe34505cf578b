use blkspeed::double::Double;
use blkspeed::format::{block_size, bytes, iops, latency, rate, secs};
use blkspeed::time::Duration;

fn micros(n: u64) -> Duration {
    Duration { nanos: n * 1000 }
}

#[test]
fn rates_scale_in_si_units() {
    assert_eq!(rate(Double::from_u64(999)), "999 B/s");
    assert_eq!(rate(Double::from_u64(1_000)), "1.00 kB/s");
    assert_eq!(rate(Double::from_u64(1_234_567)), "1.23 MB/s");
    assert_eq!(rate(Double::from_u64(3_500_000_000)), "3.50 GB/s");
    assert_eq!(rate(Double::zero()), "—");
}

#[test]
fn sizes_scale_in_iec_units() {
    assert_eq!(bytes(1024), "1.00 KiB");
    assert_eq!(bytes(500_107_862_016), "466 GiB");
}

#[test]
fn block_sizes_are_compact() {
    assert_eq!(block_size(4096), "4K");
    assert_eq!(block_size(4 << 20), "4M");
    assert_eq!(block_size(512), "512B");
}

#[test]
fn latency_picks_a_readable_unit() {
    assert_eq!(latency(micros(120)), "120 µs");
    assert_eq!(latency(micros(2500)), "2.50 ms");
}

fn scaled(value: f64, base: f64, units: [&'static str; 7]) -> (f64, &'static str) {
    let mut v = value;
    let mut i = 0;
    while v >= base && i + 1 < units.len() {
        v /= base;
        i += 1;
    }
    (v, units[i])
}

fn places(v: f64) -> usize {
    if v >= 100.0 {
        0
    } else if v >= 10.0 {
        1
    } else {
        2
    }
}

fn float_rate(v: f64) -> String {
    let (x, u) = scaled(v, 1000.0, ["B", "kB", "MB", "GB", "TB", "PB", "EB"]);
    format!("{:.*} {}/s", places(x), x, u)
}

fn float_bytes(n: u64) -> String {
    let (x, u) = scaled(n as f64, 1024.0, ["B", "KiB", "MiB", "GiB", "TiB", "PiB", "EiB"]);
    format!("{:.*} {}", places(x), x, u)
}

fn samples() -> Vec<u64> {
    let mut out = vec![0, 1, 2, 9, 10, 11, 99, 100, 101, 999, 1000, 1001, 1023, 1024, 1025];
    for k in 0..64u32 {
        for d in [-2i128, -1, 0, 1, 2] {
            let v = (1i128 << k) + d;
            if v >= 0 && v <= u64::MAX as i128 {
                out.push(v as u64);
            }
        }
    }
    for k in 0..19u32 {
        for m in [1u64, 2, 5, 9] {
            let v = 10u64.pow(k).saturating_mul(m);
            out.push(v);
            out.push(v.saturating_sub(1));
            out.push(v.saturating_add(1));
            out.push(v.saturating_mul(10).saturating_sub(v / 2));
        }
    }
    let mut x: u64 = 88172645463325252;
    for i in 0..4000u32 {
        x ^= x << 13;
        x ^= x >> 7;
        x ^= x << 17;
        out.push(x >> (i % 64));
    }
    out.push(u64::MAX);
    out
}

#[test]
fn sizes_are_those_of_floating_point() {
    for n in samples() {
        assert_eq!(bytes(n), float_bytes(n), "{}", n);
    }
}

#[test]
fn rates_are_those_of_floating_point() {
    for n in samples() {
        if n > 0 {
            assert_eq!(rate(Double::from_u64(n)), float_rate(n as f64), "{}", n);
        }
    }
}

#[test]
fn operations_per_second_are_those_of_floating_point() {
    for n in samples() {
        let v = n as f64;
        let expected = if v >= 1_000_000.0 {
            format!("{:.2}M", v / 1_000_000.0)
        } else if v >= 1_000.0 {
            format!("{:.1}k", v / 1_000.0)
        } else {
            format!("{:.0}", v)
        };
        let shown = iops(Double::from_u64(n));
        if n > 0 {
            assert_eq!(shown, expected, "{}", n);
        }
    }
}

#[test]
fn spans_of_time_are_those_of_floating_point() {
    for n in samples() {
        let d = std::time::Duration::from_nanos(n);
        assert_eq!(secs(Duration { nanos: n }), format!("{:.1}s", d.as_secs_f64()), "{}", n);
    }
}

#[test]
fn latencies_are_those_of_floating_point() {
    for n in samples() {
        let d = std::time::Duration::from_nanos(n);
        let us = d.as_secs_f64() * 1e6;
        let shown = latency(Duration { nanos: n });
        if us >= 1_000_000.0 {
            assert_eq!(shown, format!("{:.2} s", us / 1e6), "{}", n);
        } else if us >= 1000.0 {
            assert_eq!(shown, format!("{:.2} ms", us / 1000.0), "{}", n);
        } else if us > 0.0 {
            assert_eq!(shown, format!("{:.0} µs", us), "{}", n);
        }
    }
}

#[test]
fn nothing_measured_is_a_dash() {
    assert_eq!(latency(Duration::zero()), "—");
    assert_eq!(iops(Double::zero()), "—");
    assert_eq!(secs(Duration::zero()), "0.0s");
    assert_eq!(bytes(0), "0.00 B");
}
