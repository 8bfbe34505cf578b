//! What is printed without the terminal interface: the list of devices and the
//! results as JSON.

use vstd::prelude::*;

use crate::app::{chosen, config_of, App, Probe};
use crate::bench::{per_second, short, Config, Msg, MsgView, PassResult, ResultView, Status, StatusView};
use crate::device::{media_text, obstacle, Device, DeviceView};
use crate::double::decimal_text;
use crate::format::{bytes, in_micros, micros, rate, rate_text, size_text};
use crate::number::{decimal, number};
use crate::text::{
    align_right, chars, code_point, holds, law_columns_hold_their_text, lemma_column_holds, lemma_holds_end, lemma_holds_more, lemma_holds_three, pad, padded,
    right_aligned, truncate, truncated,
};
use crate::time::{seconds, Duration};

verus! {

/// A hexadecimal digit.
pub open spec fn hex_digit(d: nat) -> char {
    if d < 10 {
        (48 + d) as char
    } else {
        (87 + d) as char
    }
}

fn hex(d: u32) -> (r: char)
    requires
        d < 16,
    ensures
        r == hex_digit(d as nat),
{
    if d < 10 {
        (48u8 + d as u8) as char
    } else {
        (87u8 + d as u8) as char
    }
}

/// How a character is written inside a JSON string.
pub open spec fn json_char(c: char) -> Seq<char> {
    if c == '"' {
        seq!['\\', '"']
    } else if c == '\\' {
        seq!['\\', '\\']
    } else if c == '\n' {
        seq!['\\', 'n']
    } else if c == '\r' {
        seq!['\\', 'r']
    } else if c == '\t' {
        seq!['\\', 't']
    } else if (c as int) < 32 {
        seq!['\\', 'u', '0', '0', hex_digit(c as nat / 16), hex_digit(c as nat % 16)]
    } else {
        seq![c]
    }
}

/// How a text is written inside a JSON string.
pub open spec fn json_body(s: Seq<char>) -> Seq<char>
    decreases s.len(),
{
    if s.len() == 0 {
        Seq::empty()
    } else {
        json_body(s.drop_last()) + json_char(s.last())
    }
}

/// A text as a JSON string.
pub open spec fn json_text(s: Seq<char>) -> Seq<char> {
    seq!['"'] + json_body(s) + seq!['"']
}

fn push_json(out: &mut String, c: char)
    ensures
        final(out)@ == old(out)@ + json_char(c),
{
    let ghost start = out@;
    let n: u32 = code_point(c);
    if c == '"' || c == '\\' {
        out.push('\\');
        out.push(c);
        assert(out@ =~= start + seq!['\\', c]);
    } else if c == '\n' {
        out.push('\\');
        out.push('n');
        assert(out@ =~= start + seq!['\\', 'n']);
    } else if c == '\r' {
        out.push('\\');
        out.push('r');
        assert(out@ =~= start + seq!['\\', 'r']);
    } else if c == '\t' {
        out.push('\\');
        out.push('t');
        assert(out@ =~= start + seq!['\\', 't']);
    } else if n < 32 {
        out.push('\\');
        out.push('u');
        out.push('0');
        out.push('0');
        out.push(hex(n / 16));
        out.push(hex(n % 16));
        assert(out@ =~= start + json_char(c));
    } else {
        out.push(c);
        assert(out@ =~= start + seq![c]);
    }
}

/// A text as a JSON string.
pub fn json_str(s: &str) -> (r: String)
    ensures
        r@ == json_text(s@),
{
    let v = chars(s);
    let mut out = String::new();
    out.push('"');
    let mut i: usize = 0;
    assert(out@ =~= seq!['"'] + json_body(s@.take(0)));
    while i < v.len()
        invariant
            i <= v@.len(),
            v@ == s@,
            out@ == seq!['"'] + json_body(s@.take(i as int)),
        decreases v@.len() - i,
    {
        push_json(&mut out, v[i]);
        proof {
            assert(s@.take(i + 1).drop_last() =~= s@.take(i as int));
            assert(out@ =~= seq!['"'] + json_body(s@.take(i + 1)));
        }
        i += 1;
    }
    assert(s@.take(i as int) =~= s@);
    out.push('"');
    assert(out@ =~= json_text(s@));
    out
}

/// The value of a hexadecimal digit.
pub open spec fn hex_value(c: char) -> int {
    if '0' <= c <= '9' {
        c as int - 48
    } else {
        c as int - 87
    }
}

/// What the inside of a JSON string stands for, as a reader of JSON takes it: a
/// backslash begins an escape of two characters, or of six behind a `u`.
pub open spec fn json_read(s: Seq<char>) -> Seq<char>
    decreases s.len(),
{
    if s.len() == 0 {
        Seq::empty()
    } else if s[0] != '\\' || s.len() == 1 {
        seq![s[0]] + json_read(s.skip(1))
    } else if s[1] == 'u' && s.len() >= 6 {
        let code = hex_value(s[2]) * 4096 + hex_value(s[3]) * 256 + hex_value(s[4]) * 16 + hex_value(s[5]);
        seq![code as char] + json_read(s.skip(6))
    } else {
        let c = if s[1] == 'n' {
            '\n'
        } else if s[1] == 'r' {
            '\r'
        } else if s[1] == 't' {
            '\t'
        } else {
            s[1]
        };
        seq![c] + json_read(s.skip(2))
    }
}

proof fn lemma_read_char(c: char, rest: Seq<char>)
    ensures
        json_read(json_char(c) + rest) == seq![c] + json_read(rest),
{
    let s = json_char(c) + rest;
    if json_char(c).len() == 1 {
        assert(s[0] == c);
        assert(s.skip(1) =~= rest);
    } else if json_char(c).len() == 2 {
        assert(s[0] == '\\' && s[1] == json_char(c)[1]);
        assert(s.skip(2) =~= rest);
    } else {
        let n = c as nat;
        assert(s[0] == '\\' && s[1] == 'u' && s[2] == '0' && s[3] == '0');
        assert(s[4] == hex_digit(n / 16) && s[5] == hex_digit(n % 16));
        assert(s.skip(6) =~= rest);
        assert(hex_value(s[4]) == n / 16);
        assert(hex_value(s[5]) == n % 16);
        assert(hex_value(s[2]) == 0 && hex_value(s[3]) == 0);
        assert((n / 16) * 16 + n % 16 == n);
    }
}

proof fn lemma_read_body(s: Seq<char>, rest: Seq<char>)
    ensures
        json_read(json_body(s) + rest) == s + json_read(rest),
    decreases s.len(),
{
    if s.len() == 0 {
        assert(json_body(s) + rest =~= rest);
        assert(s + json_read(rest) =~= json_read(rest));
    } else {
        let init = s.drop_last();
        let tail = json_char(s.last()) + rest;
        assert(json_body(s) + rest =~= json_body(init) + tail);
        lemma_read_body(init, tail);
        lemma_read_char(s.last(), rest);
        assert(init + (seq![s.last()] + json_read(rest)) =~= s + json_read(rest));
    }
}

/// A text that is written as a JSON string is read back as it was.
pub proof fn law_json_strings_read_back(s: Seq<char>)
    ensures
        json_read(json_text(s).subrange(1, json_text(s).len() - 1)) == s,
{
    assert(json_text(s).subrange(1, json_text(s).len() - 1) =~= json_body(s) + Seq::<char>::empty());
    lemma_read_body(s, Seq::empty());
    assert(s + json_read(Seq::empty()) =~= s);
}

proof fn lemma_printable(c: char, k: int)
    requires
        0 <= k < json_char(c).len(),
    ensures
        json_char(c)[k] as int >= 32,
{
}

/// Nothing inside a JSON string is a control character.
pub proof fn law_json_strings_hold_no_control_characters(s: Seq<char>, i: int)
    requires
        0 <= i < json_body(s).len(),
    ensures
        json_body(s)[i] as int >= 32,
    decreases s.len(),
{
    if s.len() > 0 {
        let init = json_body(s.drop_last());
        if i < init.len() {
            law_json_strings_hold_no_control_characters(s.drop_last(), i);
        } else {
            assert(json_body(s)[i] == json_char(s.last())[i - init.len()]);
            lemma_printable(s.last(), i - init.len());
        }
    }
}

/// The name and the note of a status other than a measured one.
pub open spec fn status_note(status: StatusView) -> (Seq<char>, Seq<char>) {
    match status {
        StatusView::Skipped(why) => ("skipped"@, why),
        StatusView::Failed(why) => ("failed"@, why),
        _ => ("incomplete"@, ""@),
    }
}

/// True or false.
pub open spec fn bool_text(b: bool) -> Seq<char> {
    if b {
        "true"@
    } else {
        "false"@
    }
}

fn bool_name(b: bool) -> (r: &'static str)
    ensures
        r@ == bool_text(b),
{
    if b {
        "true"
    } else {
        "false"
    }
}

/// A result as a JSON object.
pub open spec fn result_text(r: ResultView) -> Seq<char> {
    let nanos = r.elapsed.nanos as nat;
    let speed = per_second(r.bytes as nat, nanos);
    if r.status is Done {
        "    {\"pass\": "@ + json_text(short(r.kind)) + ", \"status\": \"ok\", \"block_bytes\": "@ + decimal(
            r.block_size as nat,
        ) + ", \"bytes\": "@ + decimal(r.bytes as nat) + ", \"seconds\": "@ + decimal_text(seconds(nanos), 3)
            + ", \"bytes_per_second\": "@ + decimal_text(speed, 0) + ", \"human\": "@ + json_text(
            rate_text(speed),
        ) + ", \"iops\": "@ + decimal_text(per_second(r.ops as nat, nanos), 0)
            + ", \"avg_latency_us\": "@ + decimal_text(micros(r.avg_latency.nanos as nat), 1)
            + ", \"max_latency_us\": "@ + decimal_text(micros(r.max_latency.nanos as nat), 1)
            + ", \"cache_bypassed\": "@ + bool_text(r.direct) + "}"@
    } else {
        let (status, note) = status_note(r.status);
        "    {\"pass\": "@ + json_text(short(r.kind)) + ", \"status\": \""@ + status + "\", \"note\": "@ + json_text(
            note,
        ) + "}"@
    }
}

/// A result as a JSON object.
pub fn result_json(r: &PassResult) -> (s: String)
    ensures
        s@ == result_text(r@),
{
    let mut out = "    {\"pass\": ".to_string();
    out.append(json_str(r.kind.short()).as_str());
    let (status, note) = match &r.status {
        Status::Done => {
            out.append(", \"status\": \"ok\", \"block_bytes\": ");
            out.append(number(r.block_size as u64).as_str());
            out.append(", \"bytes\": ");
            out.append(number(r.bytes).as_str());
            out.append(", \"seconds\": ");
            r.elapsed.as_secs().push_fixed(&mut out, 3);
            out.append(", \"bytes_per_second\": ");
            r.rate().push_fixed(&mut out, 0);
            out.append(", \"human\": ");
            out.append(json_str(rate(r.rate()).as_str()).as_str());
            out.append(", \"iops\": ");
            r.iops().push_fixed(&mut out, 0);
            out.append(", \"avg_latency_us\": ");
            in_micros(r.avg_latency).push_fixed(&mut out, 1);
            out.append(", \"max_latency_us\": ");
            in_micros(r.max_latency).push_fixed(&mut out, 1);
            out.append(", \"cache_bypassed\": ");
            out.append(bool_name(r.direct));
            out.append("}");
            return out;
        },
        Status::Skipped(why) => ("skipped", why.as_str()),
        Status::Failed(why) => ("failed", why.as_str()),
        _ => ("incomplete", ""),
    };
    out.append(", \"status\": \"");
    out.append(status);
    out.append("\", \"note\": ");
    out.append(json_str(note).as_str());
    out.append("}");
    out
}

/// The first `n` of some results as lines, with a comma behind each but the last
/// of all.
pub open spec fn result_lines(results: Seq<ResultView>, n: nat) -> Seq<char>
    decreases n,
{
    if n == 0 {
        Seq::empty()
    } else {
        result_lines(results, (n - 1) as nat) + result_text(results[n - 1]) + (if n == results.len() {
            "\n"@
        } else {
            ",\n"@
        })
    }
}

/// What a report is of.
#[derive(Debug)]
pub struct Subject {
    pub name: String,
    pub model: String,
    pub size: u64,
    /// Whether a bypass of the cache was asked for.
    pub direct: bool,
}

/// A report as JSON.
pub open spec fn report_text(subject: Subject, total: nat, results: Seq<ResultView>) -> Seq<char> {
    "{\n  \"device\": "@ + json_text(subject.name@) + ",\n  \"model\": "@ + json_text(subject.model@)
        + ",\n  \"size_bytes\": "@ + decimal(subject.size as nat) + ",\n  \"cache_bypass_requested\": "@
        + bool_text(subject.direct) + ",\n  \"total_seconds\": "@ + decimal_text(seconds(total), 3)
        + ",\n  \"passes\": [\n"@ + result_lines(results, results.len()) + "  ]\n}\n"@
}

fn lines_json(results: &Vec<PassResult>) -> (r: String)
    ensures
        r@ == result_lines(results.deep_view(), results@.len()),
{
    let ghost all = results.deep_view();
    let mut out = String::new();
    let mut i: usize = 0;
    assert(out@ =~= result_lines(all, 0));
    while i < results.len()
        invariant
            i <= results@.len(),
            all == results.deep_view(),
            all.len() == results@.len(),
            out@ == result_lines(all, i as nat),
        decreases results@.len() - i,
    {
        assert(all[i as int] == results@[i as int]@);
        out.append(result_json(&results[i]).as_str());
        if i == results.len() - 1 {
            out.append("\n");
        } else {
            out.append(",\n");
        }
        i += 1;
    }
    out
}

/// A report as JSON: what was measured, how long it took, and each result.
pub fn report(subject: &Subject, total: Duration, results: &Vec<PassResult>) -> (r: String)
    ensures
        r@ == report_text(*subject, total.nanos as nat, results.deep_view()),
{
    let mut out = "{\n  \"device\": ".to_string();
    out.append(json_str(subject.name.as_str()).as_str());
    out.append(",\n  \"model\": ");
    out.append(json_str(subject.model.as_str()).as_str());
    out.append(",\n  \"size_bytes\": ");
    out.append(number(subject.size).as_str());
    out.append(",\n  \"cache_bypass_requested\": ");
    out.append(bool_name(subject.direct));
    out.append(",\n  \"total_seconds\": ");
    total.as_secs().push_fixed(&mut out, 3);
    out.append(",\n  \"passes\": [\n");
    out.append(lines_json(results).as_str());
    out.append("  ]\n}\n");
    out
}

/// Why there is nothing to measure without the terminal interface.
#[derive(Debug)]
pub enum Refusal {
    NoDevice,
    /// The selected device cannot be tested.
    Blocked(String),
}

impl Refusal {
    /// What is said of it.
    pub fn text(&self) -> (r: String)
        ensures
            r@ == match self {
                Refusal::NoDevice => "no device selected"@,
                Refusal::Blocked(why) => why@,
            },
    {
        match self {
            Refusal::NoDevice => "no device selected".to_string(),
            Refusal::Blocked(why) => why.clone(),
        }
    }
}

/// What a run without the terminal interface measures, and what its report is
/// of.
pub fn headless(app: &App, probe: Probe) -> (r: Result<(Subject, Config), Refusal>)
    ensures
        match r {
            Ok((subject, config)) => {
                &&& chosen(app@) is Some
                &&& obstacle(chosen(app@)->0, probe.readable) is None
                &&& subject.name@ == chosen(app@)->0.name
                &&& subject.model@ == chosen(app@)->0.model
                &&& subject.size == chosen(app@)->0.size
                &&& subject.direct == app@.direct
                &&& config_of(app@, probe.is_dir) == Some(config@)
            },
            Err(Refusal::NoDevice) => chosen(app@) is None,
            Err(Refusal::Blocked(why)) => chosen(app@) is Some && obstacle(
                chosen(app@)->0,
                probe.readable,
            ) == Some(why@),
        },
{
    let subject = match app.selected() {
        None => {
            return Err(Refusal::NoDevice);
        },
        Some(d) => {
            if let Some(why) = d.blocker(probe.readable) {
                return Err(Refusal::Blocked(why));
            }
            Subject {
                name: d.name.clone(),
                model: d.model.clone(),
                size: d.size,
                direct: app.direct,
            }
        },
    };
    match app.config(probe.is_dir) {
        Some(config) => Ok((subject, config)),
        None => Err(Refusal::NoDevice),
    }
}

/// What is to be done after an event of the worker.
#[derive(Debug)]
pub enum Heard {
    /// Wait for the next one.
    More,
    /// Give up: the run has failed.
    Failed(String),
    /// Print the report.
    Finished,
}

/// Takes in an event of the worker: results are kept, and all others but the end
/// and a failure are passed over.
pub fn hear(results: &mut Vec<PassResult>, msg: Msg) -> (r: Heard)
    ensures
        final(results).deep_view() == match msg@ {
            MsgView::PassDone { result, .. } => old(results).deep_view().push(result),
            _ => old(results).deep_view(),
        },
        match r {
            Heard::Finished => msg@ is Finished,
            Heard::Failed(why) => msg@ == MsgView::Fatal(why@),
            Heard::More => !(msg@ is Finished) && !(msg@ is Fatal),
        },
{
    let ghost before = results.deep_view();
    match msg {
        Msg::PassDone { result, .. } => {
            results.push(*result);
            assert(results.deep_view() =~= before.push((*result)@));
            Heard::More
        },
        Msg::Fatal(why) => Heard::Failed(why),
        Msg::Finished => Heard::Finished,
        _ => Heard::More,
    }
}

/// Columns of the list of devices.
pub open spec fn columns(
    name: Seq<char>,
    size: Seq<char>,
    media: Seq<char>,
    model: Seq<char>,
    mount: Seq<char>,
) -> Seq<char> {
    padded(name, 14) + " "@ + right_aligned(size, 10) + "  "@ + padded(media, 6) + " "@ + padded(model, 24) + " "@
        + mount + "\n"@
}

fn row(name: &str, size: &str, media: &str, model: &str, mount: &str) -> (r: String)
    ensures
        r@ == columns(name@, size@, media@, model@, mount@),
{
    let mut out = pad(name, 14);
    out.append(" ");
    out.append(align_right(size, 10).as_str());
    out.append("  ");
    out.append(pad(media, 6).as_str());
    out.append(" ");
    out.append(pad(model, 24).as_str());
    out.append(" ");
    out.append(mount);
    out.append("\n");
    out
}

/// A device as a row of the list.
pub open spec fn device_row(d: DeviceView) -> Seq<char> {
    columns(
        d.name,
        size_text(d.size as nat),
        media_text(d.rotational),
        truncated(d.model, 24),
        match d.mount {
            Some(m) => m.path,
            None => "—"@,
        },
    )
}

/// Devices as rows of the list.
pub open spec fn device_rows(devices: Seq<DeviceView>) -> Seq<char>
    decreases devices.len(),
{
    if devices.len() == 0 {
        Seq::empty()
    } else {
        device_rows(devices.drop_last()) + device_row(devices.last())
    }
}

/// The list of devices.
pub open spec fn listing(devices: Seq<DeviceView>) -> Seq<char> {
    if devices.len() == 0 {
        "no block devices found\n"@
    } else {
        columns("DEVICE"@, "SIZE"@, "MEDIA"@, "MODEL"@, "MOUNT"@) + device_rows(devices)
    }
}

/// The list of devices.
pub fn list_text(devices: &Vec<Device>) -> (r: String)
    ensures
        r@ == listing(devices.deep_view()),
{
    let ghost all = devices.deep_view();
    assert(all.len() == devices@.len());
    if devices.len() == 0 {
        return "no block devices found\n".to_string();
    }
    let mut out = row("DEVICE", "SIZE", "MEDIA", "MODEL", "MOUNT");
    let ghost head = out@;
    let mut i: usize = 0;
    assert(out@ =~= head + device_rows(all.take(0)));
    while i < devices.len()
        invariant
            i <= devices@.len(),
            all == devices.deep_view(),
            all.len() == devices@.len(),
            out@ == head + device_rows(all.take(i as int)),
        decreases devices@.len() - i,
    {
        let d = &devices[i];
        assert(all.take(i + 1).drop_last() =~= all.take(i as int));
        assert(all.take(i + 1).last() == d@);
        let mount = match &d.mount {
            Some(m) => m.path.as_str(),
            None => "—",
        };
        let line = row(
            d.name.as_str(),
            bytes(d.size).as_str(),
            d.media(),
            truncate(d.model.as_str(), 24).as_str(),
            mount,
        );
        out.append(line.as_str());
        assert(out@ =~= head + device_rows(all.take(i + 1)));
        i += 1;
    }
    assert(all.take(i as int) =~= all);
    out
}

/// Whether the inside of a JSON string holds no quote that would end it: a
/// backslash guards what follows it.
pub open spec fn unbroken(s: Seq<char>) -> bool
    decreases s.len(),
{
    if s.len() == 0 {
        true
    } else if s[0] == '\\' {
        s.len() >= 2 && unbroken(s.skip(2))
    } else {
        s[0] != '"' && unbroken(s.skip(1))
    }
}

proof fn lemma_unbroken_char(c: char, rest: Seq<char>)
    requires
        unbroken(rest),
    ensures
        unbroken(json_char(c) + rest),
{
    let s = json_char(c) + rest;
    if json_char(c).len() == 1 {
        assert(s.skip(1) =~= rest);
    } else if json_char(c).len() == 2 {
        assert(s.skip(2) =~= rest);
    } else {
        let n = c as nat;
        let t = s.skip(2);
        assert(s[0] == '\\');
        assert(48 <= hex_digit(n / 16) as int <= 102 && hex_digit(n / 16) != '\\');
        assert(48 <= hex_digit(n % 16) as int <= 102 && hex_digit(n % 16) != '\\');
        assert(t[0] == '0' && t[1] == '0' && t[2] == hex_digit(n / 16) && t[3] == hex_digit(n % 16));
        assert(t.skip(1).skip(1).skip(1).skip(1) =~= rest);
        assert(unbroken(t.skip(1).skip(1).skip(1)));
        assert(unbroken(t.skip(1).skip(1)));
        assert(unbroken(t.skip(1)));
        assert(unbroken(t));
    }
}

proof fn lemma_unbroken_body(s: Seq<char>, rest: Seq<char>)
    requires
        unbroken(rest),
    ensures
        unbroken(json_body(s) + rest),
    decreases s.len(),
{
    if s.len() == 0 {
        assert(json_body(s) + rest =~= rest);
    } else {
        lemma_unbroken_char(s.last(), rest);
        lemma_unbroken_body(s.drop_last(), json_char(s.last()) + rest);
        assert(json_body(s) + rest =~= json_body(s.drop_last()) + (json_char(s.last()) + rest));
    }
}

/// A text that is written as a JSON string begins and ends with a quote, and has
/// none in between that would end it before.
pub proof fn law_json_strings_end_where_they_should(s: Seq<char>)
    ensures
        json_text(s).len() >= 2,
        json_text(s)[0] == '"',
        json_text(s).last() == '"',
        unbroken(json_text(s).subrange(1, json_text(s).len() - 1)),
{
    lemma_unbroken_body(s, Seq::empty());
    assert(json_text(s).subrange(1, json_text(s).len() - 1) =~= json_body(s) + Seq::<char>::empty());
}

/// What is written of a measured pass, field by field: each name is followed by
/// the value that it stands for.
#[verifier::rlimit(60)]
pub proof fn law_measured_results_are_written_out(r: ResultView)
    requires
        r.status is Done,
    ensures
        ({
            let s = result_text(r);
            let nanos = r.elapsed.nanos as nat;
            let rate = per_second(r.bytes as nat, nanos);
            &&& holds(s, "\"bytes\": "@ + decimal(r.bytes as nat) + ", "@)
            &&& holds(s, "\"block_bytes\": "@ + decimal(r.block_size as nat) + ", "@)
            &&& holds(s, "\"seconds\": "@ + decimal_text(seconds(nanos), 3) + ", "@)
            &&& holds(s, "\"bytes_per_second\": "@ + decimal_text(rate, 0) + ", "@)
            &&& holds(s, "\"human\": "@ + json_text(rate_text(rate)) + ", "@)
            &&& holds(s, "\"iops\": "@ + decimal_text(per_second(r.ops as nat, nanos), 0) + ", "@)
            &&& holds(s, "\"avg_latency_us\": "@ + decimal_text(micros(r.avg_latency.nanos as nat), 1) + ", "@)
            &&& holds(s, "\"max_latency_us\": "@ + decimal_text(micros(r.max_latency.nanos as nat), 1) + ", "@)
            &&& r.direct ==> holds(s, "\"cache_bypassed\": true}"@)
            &&& !r.direct ==> holds(s, "\"cache_bypassed\": false}"@)
            &&& holds(s, "\"pass\": "@ + json_text(short(r.kind)) + ", "@)
            &&& holds(s, "\"status\": \"ok\""@)
        }),
{
    let nanos = r.elapsed.nanos as nat;
    let rate = per_second(r.bytes as nat, nanos);
    let v0 = json_text(short(r.kind));
    let v1 = decimal(r.block_size as nat);
    let v2 = decimal(r.bytes as nat);
    let v3 = decimal_text(seconds(nanos), 3);
    let v4 = decimal_text(rate, 0);
    let v5 = json_text(rate_text(rate));
    let v6 = decimal_text(per_second(r.ops as nat, nanos), 0);
    let v7 = decimal_text(micros(r.avg_latency.nanos as nat), 1);
    let v8 = decimal_text(micros(r.max_latency.nanos as nat), 1);
    let p0 = "    {\"pass\": "@;
    let p1 = p0 + v0 + ", \"status\": \"ok\", \"block_bytes\": "@;
    let p2 = p1 + v1 + ", \"bytes\": "@;
    let p3 = p2 + v2 + ", \"seconds\": "@;
    let p4 = p3 + v3 + ", \"bytes_per_second\": "@;
    let p5 = p4 + v4 + ", \"human\": "@;
    let p6 = p5 + v5 + ", \"iops\": "@;
    let p7 = p6 + v6 + ", \"avg_latency_us\": "@;
    let p8 = p7 + v7 + ", \"max_latency_us\": "@;
    let p9 = p8 + v8 + ", \"cache_bypassed\": "@;
    let s = p9 + bool_text(r.direct) + "}"@;
    assert(s == result_text(r));
    lemma_field_names();
    lemma_member("    {"@, "\"pass\": "@, Seq::empty(), v0, ", \"status\": \"ok\", \"block_bytes\": "@);
    assert(Seq::<char>::empty() + ("    {"@ + "\"pass\": "@) =~= p0);
    lemma_holds_ok(p0 + v0);
    lemma_member(
        ", \"status\": \"ok\", "@,
        "\"block_bytes\": "@,
        p0 + v0,
        v1,
        ", \"bytes\": "@,
    );
    lemma_member(", "@, "\"bytes\": "@, p1 + v1, v2, ", \"seconds\": "@);
    lemma_member(", "@, "\"seconds\": "@, p2 + v2, v3, ", \"bytes_per_second\": "@);
    lemma_member(", "@, "\"bytes_per_second\": "@, p3 + v3, v4, ", \"human\": "@);
    lemma_member(", "@, "\"human\": "@, p4 + v4, v5, ", \"iops\": "@);
    lemma_member(", "@, "\"iops\": "@, p5 + v5, v6, ", \"avg_latency_us\": "@);
    lemma_member(", "@, "\"avg_latency_us\": "@, p6 + v6, v7, ", \"max_latency_us\": "@);
    lemma_member(", "@, "\"max_latency_us\": "@, p7 + v7, v8, ", \"cache_bypassed\": "@);
    let parts = seq![p1, p2, p3, p4, p5, p6, p7, p8, p9, s];
    let rests = seq![
        v1 + ", \"bytes\": "@,
        v2 + ", \"seconds\": "@,
        v3 + ", \"bytes_per_second\": "@,
        v4 + ", \"human\": "@,
        v5 + ", \"iops\": "@,
        v6 + ", \"avg_latency_us\": "@,
        v7 + ", \"max_latency_us\": "@,
        v8 + ", \"cache_bypassed\": "@,
        bool_text(r.direct) + "}"@,
    ];
    assert forall|k: int| 0 <= k < 9 implies parts[k + 1] == #[trigger] parts[k] + rests[k] by {
        assert(p2 =~= p1 + rests[0]);
        assert(p3 =~= p2 + rests[1]);
        assert(p4 =~= p3 + rests[2]);
        assert(p5 =~= p4 + rests[3]);
        assert(p6 =~= p5 + rests[4]);
        assert(p7 =~= p6 + rests[5]);
        assert(p8 =~= p7 + rests[6]);
        assert(p9 =~= p8 + rests[7]);
        assert(s =~= p9 + rests[8]);
    }
    lemma_carried(parts, rests, 0, "\"pass\": "@ + v0 + ", "@);
    lemma_carried(parts, rests, 0, "\"status\": \"ok\""@);
    lemma_carried(parts, rests, 1, "\"block_bytes\": "@ + v1 + ", "@);
    lemma_carried(parts, rests, 2, "\"bytes\": "@ + v2 + ", "@);
    lemma_carried(parts, rests, 3, "\"seconds\": "@ + v3 + ", "@);
    lemma_carried(parts, rests, 4, "\"bytes_per_second\": "@ + v4 + ", "@);
    lemma_carried(parts, rests, 5, "\"human\": "@ + v5 + ", "@);
    lemma_carried(parts, rests, 6, "\"iops\": "@ + v6 + ", "@);
    lemma_carried(parts, rests, 7, "\"avg_latency_us\": "@ + v7 + ", "@);
    lemma_carried(parts, rests, 8, "\"max_latency_us\": "@ + v8 + ", "@);
    lemma_bypass_named(p8 + v8, r.direct);
}

proof fn lemma_carried(parts: Seq<Seq<char>>, rests: Seq<Seq<char>>, k: int, part: Seq<char>)
    requires
        parts.len() == rests.len() + 1,
        0 <= k < parts.len(),
        forall|j: int| 0 <= j < rests.len() ==> parts[j + 1] == #[trigger] parts[j] + rests[j],
        holds(parts[k], part),
    ensures
        holds(parts.last(), part),
    decreases parts.len() - k,
{
    if k < rests.len() {
        lemma_holds_more(parts[k], part, rests[k]);
        assert(parts[k + 1] == parts[k] + rests[k]);
        lemma_carried(parts, rests, k + 1, part);
    }
}

proof fn lemma_member(before: Seq<char>, name: Seq<char>, head: Seq<char>, value: Seq<char>, next: Seq<char>)
    requires
        ", "@.is_prefix_of(next),
    ensures
        holds(head + (before + name) + value + next, name + value + ", "@),
{
    let tail = next.skip(", "@.len() as int);
    lemma_holds_three(head + before, name, value, ", "@);
    lemma_holds_more(head + before + name + value + ", "@, name + value + ", "@, tail);
    assert(next =~= ", "@ + tail) by {
        assert(next.take(", "@.len() as int) =~= ", "@);
    }
    assert(head + (before + name) + value + next =~= head + before + name + value + ", "@ + tail);
}

#[verifier::rlimit(60)]
proof fn lemma_field_names()
    ensures
        "    {\"pass\": "@ == "    {"@ + "\"pass\": "@,
        ", \"status\": \"ok\", \"block_bytes\": "@ == ", \"status\": \"ok\", "@ + "\"block_bytes\": "@,
        ", \"bytes\": "@ == ", "@ + "\"bytes\": "@,
        ", \"seconds\": "@ == ", "@ + "\"seconds\": "@,
        ", \"bytes_per_second\": "@ == ", "@ + "\"bytes_per_second\": "@,
        ", \"human\": "@ == ", "@ + "\"human\": "@,
        ", \"iops\": "@ == ", "@ + "\"iops\": "@,
        ", \"avg_latency_us\": "@ == ", "@ + "\"avg_latency_us\": "@,
        ", \"max_latency_us\": "@ == ", "@ + "\"max_latency_us\": "@,
        ", "@.is_prefix_of(", \"status\": \"ok\", \"block_bytes\": "@),
        ", "@.is_prefix_of(", \"bytes\": "@),
        ", "@.is_prefix_of(", \"seconds\": "@),
        ", "@.is_prefix_of(", \"bytes_per_second\": "@),
        ", "@.is_prefix_of(", \"human\": "@),
        ", "@.is_prefix_of(", \"iops\": "@),
        ", "@.is_prefix_of(", \"avg_latency_us\": "@),
        ", "@.is_prefix_of(", \"max_latency_us\": "@),
        ", "@.is_prefix_of(", \"cache_bypassed\": "@),
{
    reveal_strlit("    {\"pass\": ");
    reveal_strlit("    {");
    reveal_strlit("\"pass\": ");
    reveal_strlit(", \"status\": \"ok\", \"block_bytes\": ");
    reveal_strlit(", \"status\": \"ok\", ");
    reveal_strlit("\"block_bytes\": ");
    reveal_strlit(", \"bytes\": ");
    reveal_strlit("\"bytes\": ");
    reveal_strlit(", \"seconds\": ");
    reveal_strlit("\"seconds\": ");
    reveal_strlit(", \"bytes_per_second\": ");
    reveal_strlit("\"bytes_per_second\": ");
    reveal_strlit(", \"human\": ");
    reveal_strlit("\"human\": ");
    reveal_strlit(", \"iops\": ");
    reveal_strlit("\"iops\": ");
    reveal_strlit(", \"avg_latency_us\": ");
    reveal_strlit("\"avg_latency_us\": ");
    reveal_strlit(", \"max_latency_us\": ");
    reveal_strlit("\"max_latency_us\": ");
    reveal_strlit(", \"cache_bypassed\": ");
    reveal_strlit(", ");
    assert("    {\"pass\": "@ =~= "    {"@ + "\"pass\": "@);
    assert(", \"status\": \"ok\", \"block_bytes\": "@ =~= ", \"status\": \"ok\", "@ + "\"block_bytes\": "@);
    assert(", \"bytes\": "@ =~= ", "@ + "\"bytes\": "@);
    assert(", \"seconds\": "@ =~= ", "@ + "\"seconds\": "@);
    assert(", \"bytes_per_second\": "@ =~= ", "@ + "\"bytes_per_second\": "@);
    assert(", \"human\": "@ =~= ", "@ + "\"human\": "@);
    assert(", \"iops\": "@ =~= ", "@ + "\"iops\": "@);
    assert(", \"avg_latency_us\": "@ =~= ", "@ + "\"avg_latency_us\": "@);
    assert(", \"max_latency_us\": "@ =~= ", "@ + "\"max_latency_us\": "@);
    assert(", \"status\": \"ok\", \"block_bytes\": "@.take(2) =~= ", "@);
    assert(", \"bytes\": "@.take(2) =~= ", "@);
    assert(", \"seconds\": "@.take(2) =~= ", "@);
    assert(", \"bytes_per_second\": "@.take(2) =~= ", "@);
    assert(", \"human\": "@.take(2) =~= ", "@);
    assert(", \"iops\": "@.take(2) =~= ", "@);
    assert(", \"avg_latency_us\": "@.take(2) =~= ", "@);
    assert(", \"max_latency_us\": "@.take(2) =~= ", "@);
    assert(", \"cache_bypassed\": "@.take(2) =~= ", "@);
}

proof fn lemma_ok_literal()
    ensures
        ", \"status\": \"ok\", \"block_bytes\": "@ == ", "@ + "\"status\": \"ok\""@
            + ", \"block_bytes\": "@,
{
    reveal_strlit(", \"status\": \"ok\", \"block_bytes\": ");
    reveal_strlit("\"status\": \"ok\"");
    reveal_strlit(", \"block_bytes\": ");
    reveal_strlit(", ");
    assert(", \"status\": \"ok\", \"block_bytes\": "@ =~= ", "@ + "\"status\": \"ok\""@
        + ", \"block_bytes\": "@);
}

proof fn lemma_holds_ok(head: Seq<char>)
    ensures
        holds(head + ", \"status\": \"ok\", \"block_bytes\": "@, "\"status\": \"ok\""@),
{
    lemma_ok_literal();
    let part = "\"status\": \"ok\""@;
    lemma_holds_end(", "@, part);
    lemma_holds_more(", "@ + part, part, ", \"block_bytes\": "@);
    lemma_holds_more(", "@ + part + ", \"block_bytes\": "@, part, head);
}

#[verifier::rlimit(60)]
proof fn lemma_bypass_literals()
    ensures
        ", \"cache_bypassed\": "@ + "true"@ + "}"@ == ", "@ + "\"cache_bypassed\": true}"@,
        ", \"cache_bypassed\": "@ + "false"@ + "}"@ == ", "@ + "\"cache_bypassed\": false}"@,
{
    reveal_strlit(", \"cache_bypassed\": ");
    reveal_strlit("\"cache_bypassed\": true}");
    reveal_strlit("\"cache_bypassed\": false}");
    reveal_strlit("true");
    reveal_strlit("false");
    reveal_strlit("}");
    reveal_strlit(", ");
    assert(", \"cache_bypassed\": "@ + "true"@ + "}"@ =~= ", "@ + "\"cache_bypassed\": true}"@);
    assert(", \"cache_bypassed\": "@ + "false"@ + "}"@ =~= ", "@ + "\"cache_bypassed\": false}"@);
}

proof fn lemma_bypass_named(head: Seq<char>, direct: bool)
    ensures
        direct ==> holds(
            head + ", \"cache_bypassed\": "@ + bool_text(direct) + "}"@,
            "\"cache_bypassed\": true}"@,
        ),
        !direct ==> holds(
            head + ", \"cache_bypassed\": "@ + bool_text(direct) + "}"@,
            "\"cache_bypassed\": false}"@,
        ),
{
    lemma_bypass_literals();
    if direct {
        lemma_holds_split(head, ", \"cache_bypassed\": "@, "true"@, "}"@, ", "@, "\"cache_bypassed\": true}"@);
    } else {
        lemma_holds_split(head, ", \"cache_bypassed\": "@, "false"@, "}"@, ", "@, "\"cache_bypassed\": false}"@);
    }
}

proof fn lemma_holds_split(
    head: Seq<char>,
    a: Seq<char>,
    b: Seq<char>,
    c: Seq<char>,
    x: Seq<char>,
    part: Seq<char>,
)
    requires
        a + b + c == x + part,
    ensures
        holds(head + a + b + c, part),
{
    lemma_holds_end(head + x, part);
    assert(head + a + b + c =~= head + (a + b + c));
    assert(head + x + part =~= head + (x + part));
}

/// A pass that was not measured is written with the reason, and what it is is
/// named as what it is.
pub proof fn law_other_results_are_written_with_their_reason(r: ResultView, why: Seq<char>)
    ensures
        r.status == StatusView::Skipped(why) ==> holds(
            result_text(r),
            "skipped"@ + "\", \"note\": "@ + json_text(why),
        ),
        r.status == StatusView::Failed(why) ==> holds(
            result_text(r),
            "failed"@ + "\", \"note\": "@ + json_text(why),
        ),
        !(r.status is Done) ==> holds(
            result_text(r),
            "    {\"pass\": "@ + json_text(short(r.kind)) + ", \"status\": \""@,
        ),
{
    if !(r.status is Done) {
        let (status, note) = status_note(r.status);
        let head = "    {\"pass\": "@ + json_text(short(r.kind)) + ", \"status\": \""@;
        let a = "\", \"note\": "@;
        let b = json_text(note);
        let end = "}"@;
        lemma_holds_three(head, status, a, b);
        lemma_holds_more(head + status + a + b, status + a + b, end);
        lemma_holds_end(Seq::empty(), head);
        assert(Seq::<char>::empty() + head =~= head);
        lemma_holds_more(head, head, status + a + b + end);
        assert(head + (status + a + b + end) =~= result_text(r));
    }
}

proof fn lemma_lines_hold(results: Seq<ResultView>, n: nat, i: int)
    requires
        0 <= i < n <= results.len(),
    ensures
        holds(result_lines(results, n), result_text(results[i])),
    decreases n,
{
    let m = (n - 1) as nat;
    let end = if n == results.len() {
        "\n"@
    } else {
        ",\n"@
    };
    let one = result_text(results[n - 1]);
    let head = result_lines(results, m);
    if i == n - 1 {
        lemma_holds_end(head, one);
        lemma_holds_more(head + one, one, end);
    } else {
        lemma_lines_hold(results, m, i);
        lemma_holds_more(head, result_text(results[i]), one);
        lemma_holds_more(head + one, result_text(results[i]), end);
    }
}

/// A report names its device and says how large that is, how long the run took
/// and whether a bypass of the cache was asked for, and it holds every result.
#[verifier::rlimit(60)]
pub proof fn law_reports_hold_every_result(subject: Subject, total: nat, results: Seq<ResultView>, i: int)
    requires
        0 <= i < results.len(),
    ensures
        ({
            let s = report_text(subject, total, results);
            &&& holds(s, result_text(results[i]))
            &&& holds(s, "{\n  \"device\": "@ + json_text(subject.name@) + ",\n  \"model\": "@)
            &&& holds(s, ",\n  \"model\": "@ + json_text(subject.model@) + ",\n  \"size_bytes\": "@)
            &&& holds(
                s,
                ",\n  \"size_bytes\": "@ + decimal(subject.size as nat)
                    + ",\n  \"cache_bypass_requested\": "@,
            )
            &&& holds(
                s,
                ",\n  \"cache_bypass_requested\": "@ + (if subject.direct {
                    "true"@
                } else {
                    "false"@
                }) + ",\n  \"total_seconds\": "@,
            )
            &&& holds(
                s,
                ",\n  \"total_seconds\": "@ + decimal_text(seconds(total), 3) + ",\n  \"passes\": [\n"@,
            )
        }),
{
    let s = report_text(subject, total, results);
    let l0 = "{\n  \"device\": "@;
    let l1 = ",\n  \"model\": "@;
    let l2 = ",\n  \"size_bytes\": "@;
    let l3 = ",\n  \"cache_bypass_requested\": "@;
    let l4 = ",\n  \"total_seconds\": "@;
    let l5 = ",\n  \"passes\": [\n"@;
    let v0 = json_text(subject.name@);
    let v1 = json_text(subject.model@);
    let v2 = decimal(subject.size as nat);
    let v3 = bool_text(subject.direct);
    let v4 = decimal_text(seconds(total), 3);
    let lines = result_lines(results, results.len());
    let p0 = Seq::<char>::empty() + l0 + v0 + l1;
    let p1 = l0 + v0 + l1 + v1 + l2;
    let p2 = p1 + v2 + l3;
    let p3 = p2 + v3 + l4;
    let p4 = p3 + v4 + l5;
    let p5 = p4 + lines;
    lemma_holds_three(Seq::empty(), l0, v0, l1);
    lemma_holds_three(l0 + v0, l1, v1, l2);
    lemma_holds_three(l0 + v0 + l1 + v1, l2, v2, l3);
    lemma_holds_three(p1 + v2, l3, v3, l4);
    lemma_holds_three(p2 + v3, l4, v4, l5);
    lemma_lines_hold(results, results.len(), i);
    lemma_holds_more(lines, result_text(results[i]), p4);
    let parts = seq![p0, p1, p2, p3, p4, p5, s];
    let rests = seq![v1 + l2, v2 + l3, v3 + l4, v4 + l5, lines, "  ]\n}\n"@];
    assert forall|k: int| 0 <= k < 6 implies parts[k + 1] == #[trigger] parts[k] + rests[k] by {
        assert(p1 =~= p0 + rests[0]);
        assert(p2 =~= p1 + rests[1]);
        assert(p3 =~= p2 + rests[2]);
        assert(p4 =~= p3 + rests[3]);
    }
    lemma_carried(parts, rests, 0, l0 + v0 + l1);
    lemma_carried(parts, rests, 1, l1 + v1 + l2);
    lemma_carried(parts, rests, 2, l2 + v2 + l3);
    lemma_carried(parts, rests, 3, l3 + v3 + l4);
    lemma_carried(parts, rests, 4, l4 + v4 + l5);
    lemma_carried(parts, rests, 5, result_text(results[i]));
}

proof fn lemma_rows_hold(devices: Seq<DeviceView>, i: int)
    requires
        0 <= i < devices.len(),
    ensures
        holds(device_rows(devices), device_row(devices[i])),
    decreases devices.len(),
{
    let init = devices.drop_last();
    let last = device_row(devices.last());
    if i == devices.len() - 1 {
        lemma_holds_end(device_rows(init), last);
    } else {
        lemma_rows_hold(init, i);
        assert(init[i] == devices[i]);
        lemma_holds_more(device_rows(init), device_row(devices[i]), last);
    }
}

/// The list shows every device, in a line that begins with its name and holds
/// its size, its model as far as there is room, and the path of its mount.
pub proof fn law_list_shows_every_device(devices: Seq<DeviceView>, i: int)
    requires
        0 <= i < devices.len(),
    ensures
        ({
            let d = devices[i];
            let row = device_row(d);
            &&& holds(listing(devices), row)
            &&& d.name.is_prefix_of(row)
            &&& holds(row, size_text(d.size as nat))
            &&& holds(row, truncated(d.model, 24))
            &&& d.rotational == Some(true) ==> holds(row, "HDD"@)
            &&& d.rotational == Some(false) ==> holds(row, "SSD"@)
            &&& d.mount is Some ==> holds(row, d.mount->0.path + "\n"@)
            &&& d.mount is None ==> holds(row, "—"@ + "\n"@)
        }),
{
    let d = devices[i];
    let row = device_row(d);
    lemma_rows_hold(devices, i);
    lemma_holds_more(
        device_rows(devices),
        row,
        columns("DEVICE"@, "SIZE"@, "MEDIA"@, "MODEL"@, "MOUNT"@),
    );
    lemma_columns(
        d.name,
        size_text(d.size as nat),
        media_text(d.rotational),
        truncated(d.model, 24),
        match d.mount {
            Some(m) => m.path,
            None => "—"@,
        },
    );
}

#[verifier::rlimit(60)]
proof fn lemma_columns(name: Seq<char>, size: Seq<char>, media: Seq<char>, model: Seq<char>, mount: Seq<char>)
    ensures
        name.is_prefix_of(columns(name, size, media, model, mount)),
        holds(columns(name, size, media, model, mount), size),
        holds(columns(name, size, media, model, mount), media),
        holds(columns(name, size, media, model, mount), model),
        holds(columns(name, size, media, model, mount), mount + "\n"@),
{
    let row = columns(name, size, media, model, mount);
    let a = padded(name, 14) + " "@;
    let b = a + right_aligned(size, 10) + "  "@;
    let c = b + padded(media, 6) + " "@;
    let e = c + padded(model, 24) + " "@;
    let end = "\n"@;
    assert(row == e + mount + end);
    law_columns_hold_their_text(name, 14);
    assert(row.take(name.len() as int) =~= padded(name, 14).take(name.len() as int));
    lemma_column_holds(size, 10);
    lemma_column_holds(media, 6);
    lemma_column_holds(model, 24);
    lemma_holds_more(right_aligned(size, 10), size, a);
    lemma_holds_more(a + right_aligned(size, 10), size, "  "@ + padded(media, 6) + " "@ + padded(model, 24) + " "@ + mount + end);
    assert(row =~= a + right_aligned(size, 10) + ("  "@ + padded(media, 6) + " "@ + padded(model, 24) + " "@
        + mount + end));
    lemma_holds_more(padded(media, 6), media, b);
    lemma_holds_more(b + padded(media, 6), media, " "@ + padded(model, 24) + " "@ + mount + end);
    assert(row =~= b + padded(media, 6) + (" "@ + padded(model, 24) + " "@ + mount + end));
    lemma_holds_more(padded(model, 24), model, c);
    lemma_holds_more(c + padded(model, 24), model, " "@ + mount + end);
    assert(row =~= c + padded(model, 24) + (" "@ + mount + end));
    lemma_holds_end(e, mount + end);
    assert(e + (mount + end) =~= row);
}

/// A run without the terminal interface measures the selected device, with what
/// was asked for, just where that can be read and holds something.
pub proof fn law_headless_runs_measure_the_selected_device(
    app: App,
    probe: Probe,
    r: Result<(Subject, Config), Refusal>,
)
    requires
        call_ensures(headless, (&app, probe), r),
    ensures
        ({
            let a = app@;
            let there = a.selected is Some && a.selected->0 < a.devices.len();
            let d = a.devices[a.selected->0 as int];
            &&& r is Ok <==> there && d.size > 0 && probe.readable
            &&& r matches Ok((subject, config)) ==> {
                &&& subject.name@ == d.name && subject.model@ == d.model && subject.size == d.size
                &&& subject.direct == a.direct
                &&& config@.read_path == d.path && config@.read_size == d.size
                &&& config@.read_is_dir == probe.is_dir
                &&& config@.direct == a.direct && config@.budget == a.budget && config@.passes == a.passes
                &&& config@.write_dir is Some <==> d.mount is Some && d.mount->0.writable
                &&& config@.write_dir is Some ==> config@.write_dir->0 == d.mount->0.path
            }
            &&& r matches Err(e) ==> (e is NoDevice <==> !there)
        }),
{
}

/// Without the terminal interface every result is kept, as it was reported and in
/// that order, and nothing else is. The run is over when it says so, and has
/// failed when it says that.
pub proof fn law_reported_results_are_kept(results: &mut Vec<PassResult>, msg: Msg, r: Heard)
    requires
        call_ensures(hear, (results, msg), r),
    ensures
        msg@ matches MsgView::PassDone { result, .. } ==> final(results).deep_view() == old(
            results,
        ).deep_view().push(result),
        !(msg@ is PassDone) ==> final(results).deep_view() == old(results).deep_view(),
        r is Finished <==> msg@ is Finished,
        r is Failed <==> msg@ is Fatal,
        r is More <==> !(msg@ is Finished) && !(msg@ is Fatal),
        r matches Heard::Failed(why) ==> msg@ == MsgView::Fatal(why@),
{
}

/// A comma stands behind every result but the last.
pub proof fn law_results_are_told_apart_by_commas(results: Seq<ResultView>, n: nat)
    requires
        0 < n <= results.len(),
    ensures
        n < results.len() ==> result_lines(results, n) == result_lines(results, (n - 1) as nat) + result_text(
            results[n - 1],
        ) + ",\n"@,
        n == results.len() ==> result_lines(results, n) == result_lines(results, (n - 1) as nat) + result_text(
            results[n - 1],
        ) + "\n"@,
        result_lines(results, 0).len() == 0,
{
}

} // verus!
