//! What the screens say: every line of text with its styles.

use vstd::arithmetic::power2::lemma2_to64;
use vstd::prelude::*;

use crate::app::{chosen, law_results_are_those_of_the_passes, overall_progress, results_of, App, AppView, PassState, PassView, Screen};
use crate::bench::{
    block_of, label, jumps, per_second, scratch_bytes, scratch_size, writes, PassKind, PassResult, ResultView, Status,
    StatusView,
};
use crate::device::{media_text, obstacle, scratch_dir, Device, DeviceView, Kind};
use crate::double::{
    below, close, decimal_text, law_products_are_close, lemma_close_follows, lemma_close_scales, lemma_integer_size,
    lemma_value_sign, product, rounded, value_of, zero, Double, Dyadic,
};
use crate::format::{
    block_size, block_text, bytes, iops, iops_text, latency, latency_text, rate, rate_text, secs, secs_text, size_text,
};
use crate::meter::since;
use crate::ratio::lemma_swap;
use crate::text::{
    align_right, holds, lemma_column_holds, lemma_holds_end, lemma_holds_more, lemma_holds_three, pad, padded,
    right_aligned,
};
use crate::theme::{mode_label, plain, strong, unstyled, Color, Style, Theme};
use crate::time::{lemma_count_is_close, Duration};

verus! {

/// A piece of text with a style.
#[derive(Debug)]
pub struct Span {
    pub text: String,
    pub style: Style,
}

/// The values of a piece of text.
pub ghost struct SpanView {
    pub text: Seq<char>,
    pub style: Style,
}

impl View for Span {
    type V = SpanView;

    open spec fn view(&self) -> SpanView {
        SpanView { text: self.text@, style: self.style }
    }
}

impl DeepView for Span {
    type V = SpanView;

    open spec fn deep_view(&self) -> SpanView {
        self@
    }
}

/// A piece of text with a style.
pub open spec fn styled(text: Seq<char>, style: Style) -> SpanView {
    SpanView { text, style }
}

impl Span {
    /// A piece of text with a style.
    pub fn new(text: &str, style: Style) -> (r: Span)
        ensures
            r@ == styled(text@, style),
    {
        Span { text: text.to_string(), style }
    }

    fn of(text: String, style: Style) -> (r: Span)
        ensures
            r@ == styled(text@, style),
    {
        Span { text, style }
    }

    fn line(self) -> (r: Vec<Span>)
        ensures
            r.deep_view() == seq![self@],
    {
        let r = vec![self];
        assert(r.deep_view() =~= seq![self@]);
        r
    }
}

fn push_line(lines: &mut Vec<Vec<Span>>, line: Vec<Span>)
    ensures
        final(lines).deep_view() == old(lines).deep_view().push(line.deep_view()),
{
    let ghost before = lines.deep_view();
    lines.push(line);
    assert(lines.deep_view() =~= before.push(line.deep_view()));
}

fn empty_line() -> (r: Vec<Span>)
    ensures
        r.deep_view() == Seq::<SpanView>::empty(),
{
    let r: Vec<Span> = Vec::new();
    assert(r.deep_view() =~= Seq::<SpanView>::empty());
    r
}

fn no_lines() -> (r: Vec<Vec<Span>>)
    ensures
        r.deep_view() == Seq::<Seq<SpanView>>::empty(),
{
    let r: Vec<Vec<Span>> = Vec::new();
    assert(r.deep_view() =~= Seq::<Seq<SpanView>>::empty());
    r
}

/// The line at the top: what the program is and how it is set.
pub open spec fn header_line(a: AppView) -> Seq<SpanView> {
    let theme = a.theme;
    seq![
        styled("blkspeed"@, strong(theme.heading)),
        styled("  non-destructive disk speed test"@, plain(theme.dim)),
        styled("   "@, unstyled()),
        styled("I/O: "@, plain(theme.dim)),
        if a.direct {
            styled("direct (cache bypassed)"@, plain(theme.good))
        } else {
            styled("buffered (cached)"@, plain(theme.warn))
        },
        styled("   budget: "@, plain(theme.dim)),
        styled(secs_text(a.budget.nanos as nat), plain(theme.fg)),
        styled("   theme: "@, plain(theme.dim)),
        styled(mode_label(theme.mode), plain(theme.fg)),
    ]
}

/// The line at the top.
pub fn header(app: &App) -> (r: Vec<Span>)
    ensures
        r.deep_view() == header_line(app@),
{
    let theme = app.theme;
    let cache = if app.direct {
        Span::new("direct (cache bypassed)", Style::plain(theme.good))
    } else {
        Span::new("buffered (cached)", Style::plain(theme.warn))
    };
    let r = vec![
        Span::new("blkspeed", theme.title()),
        Span::new("  non-destructive disk speed test", theme.dimmed()),
        Span::new("   ", Style::unstyled()),
        Span::new("I/O: ", theme.dimmed()),
        cache,
        Span::new("   budget: ", theme.dimmed()),
        Span::of(secs(app.budget), theme.text()),
        Span::new("   theme: ", theme.dimmed()),
        Span::new(theme.mode.label(), theme.text()),
    ];
    assert(r.deep_view() =~= header_line(app@));
    r
}

/// A device in the picker. Partitions are indented so that the flat list still
/// reads as a tree.
pub open spec fn device_line(d: DeviceView, theme: Theme, readable: bool) -> Seq<SpanView> {
    let indent = if d.kind == Kind::Partition {
        "  └ "@
    } else {
        ""@
    };
    let fixed = seq![
        styled(indent + padded(d.name, 12), plain(theme.fg)),
        styled(right_aligned(size_text(d.size as nat), 9) + "  "@, plain(theme.fg)),
        styled(padded(media_text(d.rotational), 6), plain(theme.dim)),
    ];
    let removable = if d.removable {
        seq![styled("removable "@, plain(theme.dim))]
    } else {
        Seq::empty()
    };
    let mount = match d.mount {
        Some(m) => seq![styled(m.path + " "@, plain(theme.accent))],
        None => Seq::empty(),
    };
    let lock = if !readable {
        seq![styled("🔒 needs root"@, plain(theme.bad))]
    } else {
        Seq::empty()
    };
    fixed + removable + mount + lock
}

fn push_span(line: &mut Vec<Span>, span: Span)
    ensures
        final(line).deep_view() == old(line).deep_view() + seq![span@],
{
    let ghost before = line.deep_view();
    line.push(span);
    assert(line.deep_view() =~= before + seq![span@]);
}

/// A device in the picker.
pub fn device_item(d: &Device, theme: &Theme, readable: bool) -> (r: Vec<Span>)
    ensures
        r.deep_view() == device_line(d@, *theme, readable),
{
    let mut name = if d.kind == Kind::Partition {
        "  └ ".to_string()
    } else {
        "".to_string()
    };
    name.append(pad(d.name.as_str(), 12).as_str());
    let mut size = align_right(bytes(d.size).as_str(), 9);
    size.append("  ");
    let mut spans = vec![
        Span::of(name, theme.text()),
        Span::of(size, theme.text()),
        Span::of(pad(d.media(), 6), theme.dimmed()),
    ];
    assert(spans.deep_view() =~= device_line(d@, *theme, readable).take(3));
    if d.removable {
        push_span(&mut spans, Span::new("removable ", theme.dimmed()));
    }
    if let Some(m) = &d.mount {
        let mut path = m.path.clone();
        path.append(" ");
        push_span(&mut spans, Span::of(path, Style::plain(theme.accent)));
    }
    if !readable {
        push_span(&mut spans, Span::new("🔒 needs root", Style::plain(theme.bad)));
    }
    assert(spans.deep_view() =~= device_line(d@, *theme, readable));
    spans
}

/// A named value.
pub open spec fn field_line(name: Seq<char>, value: Seq<char>, theme: Theme) -> Seq<SpanView> {
    seq![styled(padded(name, 12), plain(theme.dim)), styled(value, plain(theme.fg))]
}

/// A named value.
pub fn field(name: &str, value: &str, theme: &Theme) -> (r: Vec<Span>)
    ensures
        r.deep_view() == field_line(name@, value@, *theme),
{
    let r = vec![Span::of(pad(name, 12), theme.dimmed()), Span::new(value, theme.text())];
    assert(r.deep_view() =~= field_line(name@, value@, *theme));
    r
}

/// Where a device is mounted. A whole disk is rarely mounted itself, so a
/// borrowed filesystem is not said to be mounted there.
pub open spec fn mount_details(d: DeviceView, theme: Theme) -> Seq<Seq<SpanView>> {
    match d.mount {
        Some(m) => seq![
            field_line(
                if d.mount_inherited {
                    "Filesystem"@
                } else {
                    "Mounted at"@
                },
                m.path,
                theme,
            ),
            field_line("Filesystem"@, m.fstype, theme),
            field_line("Free space"@, size_text(m.free as nat), theme),
        ],
        None => seq![field_line("Mounted at"@, "not mounted"@, theme)],
    }
}

/// What the tests touch. Being explicit about that is the whole point of the
/// non-destructive claim, so it gets prominent space.
pub open spec fn test_details(d: DeviceView, theme: Theme) -> Seq<Seq<SpanView>> {
    let write = match scratch_dir(d) {
        Some(dir) => seq![
            seq![styled("Write test: temporary file, removed afterwards"@, plain(theme.good))],
            seq![
                styled(
                    "  "@ + dir + "/.blkspeed-scratch  ("@ + size_text(
                        scratch_bytes(d.mount->0.free as nat),
                    ) + ")"@,
                    plain(theme.dim),
                ),
            ],
        ],
        None => seq![
            seq![styled("Write test: skipped — no writable filesystem here"@, plain(theme.warn))],
        ],
    };
    write.push(seq![styled("Read test: raw device, opened read-only"@, plain(theme.good))])
}

/// A remark below an empty line, where there is one.
pub open spec fn remark(text: Option<Seq<char>>, color: Color) -> Seq<Seq<SpanView>> {
    match text {
        Some(t) => seq![Seq::empty(), seq![styled(t, plain(color))]],
        None => Seq::empty(),
    }
}

/// What is said of the selected device.
pub open spec fn details_lines(d: DeviceView, theme: Theme, readable: bool, message: Option<Seq<char>>) -> Seq<
    Seq<SpanView>,
> {
    let first = seq![
        field_line("Device"@, d.path, theme),
        field_line("Model"@, d.model, theme),
        field_line("Capacity"@, size_text(d.size as nat), theme),
        field_line("Media"@, media_text(d.rotational), theme),
    ];
    let warning = match obstacle(d, readable) {
        Some(reason) => Some("⚠ "@ + reason),
        None => None,
    };
    (first + mount_details(d, theme)).push(Seq::empty()) + test_details(d, theme) + remark(
        warning,
        theme.bad,
    ) + remark(message, theme.warn)
}

fn push_mount(lines: &mut Vec<Vec<Span>>, d: &Device, theme: &Theme)
    ensures
        final(lines).deep_view() == old(lines).deep_view() + mount_details(d@, *theme),
{
    let ghost before = lines.deep_view();
    match &d.mount {
        Some(m) => {
            let name = if d.mount_inherited {
                "Filesystem"
            } else {
                "Mounted at"
            };
            push_line(lines, field(name, m.path.as_str(), theme));
            push_line(lines, field("Filesystem", m.fstype.as_str(), theme));
            push_line(lines, field("Free space", bytes(m.free).as_str(), theme));
        },
        None => {
            push_line(lines, field("Mounted at", "not mounted", theme));
        },
    }
    assert(lines.deep_view() =~= before + mount_details(d@, *theme));
}

fn push_tests(lines: &mut Vec<Vec<Span>>, d: &Device, theme: &Theme)
    ensures
        final(lines).deep_view() == old(lines).deep_view() + test_details(d@, *theme),
{
    let ghost before = lines.deep_view();
    match d.write_dir() {
        Some(dir) => {
            let free: u64 = match &d.mount {
                Some(m) => m.free,
                None => 0,
            };
            let mut place = "  ".to_string();
            place.append(dir);
            place.append("/.blkspeed-scratch  (");
            place.append(bytes(scratch_size(free)).as_str());
            place.append(")");
            push_line(
                lines,
                Span::new(
                    "Write test: temporary file, removed afterwards",
                    Style::plain(theme.good),
                ).line(),
            );
            push_line(lines, Span::of(place, theme.dimmed()).line());
        },
        None => {
            push_line(
                lines,
                Span::new(
                    "Write test: skipped — no writable filesystem here",
                    Style::plain(theme.warn),
                ).line(),
            );
        },
    }
    push_line(
        lines,
        Span::new("Read test: raw device, opened read-only", Style::plain(theme.good)).line(),
    );
    assert(lines.deep_view() =~= before + test_details(d@, *theme));
}

fn push_remark(lines: &mut Vec<Vec<Span>>, text: Option<String>, color: Color)
    ensures
        final(lines).deep_view() == old(lines).deep_view() + remark(text.deep_view(), color),
{
    let ghost before = lines.deep_view();
    match text {
        Some(t) => {
            push_line(lines, empty_line());
            push_line(lines, Span::of(t, Style::plain(color)).line());
        },
        None => {},
    }
    assert(lines.deep_view() =~= before + remark(text.deep_view(), color));
}

fn copy_text(text: &Option<String>) -> (r: Option<String>)
    ensures
        r.deep_view() == text.deep_view(),
{
    match text {
        Some(t) => Some(t.clone()),
        None => None,
    }
}

/// What is said of the selected device.
pub fn details(d: &Device, theme: &Theme, readable: bool, message: &Option<String>) -> (r: Vec<Vec<Span>>)
    ensures
        r.deep_view() == details_lines(d@, *theme, readable, message.deep_view()),
{
    let mut lines = no_lines();
    push_line(&mut lines, field("Device", d.path.as_str(), theme));
    push_line(&mut lines, field("Model", d.model.as_str(), theme));
    push_line(&mut lines, field("Capacity", bytes(d.size).as_str(), theme));
    push_line(&mut lines, field("Media", d.media(), theme));
    assert(lines.deep_view() =~= seq![
        field_line("Device"@, d@.path, *theme),
        field_line("Model"@, d@.model, *theme),
        field_line("Capacity"@, size_text(d@.size as nat), *theme),
        field_line("Media"@, media_text(d@.rotational), *theme),
    ]);
    push_mount(&mut lines, d, theme);
    push_line(&mut lines, empty_line());
    push_tests(&mut lines, d, theme);
    let warning = match d.blocker(readable) {
        Some(reason) => {
            let mut s = "⚠ ".to_string();
            s.append(reason.as_str());
            Some(s)
        },
        None => None,
    };
    push_remark(&mut lines, warning, theme.bad);
    push_remark(&mut lines, copy_text(message), theme.warn);
    lines
}

/// Where the scratch file would go is always said of a device that has a
/// writable filesystem, and that there is none of any other; so is that the
/// device is only read.
pub proof fn law_details_say_what_is_touched(d: DeviceView, theme: Theme, readable: bool, message: Option<Seq<char>>)
    ensures
        details_lines(d, theme, readable, message).contains(
            seq![styled("Read test: raw device, opened read-only"@, plain(theme.good))],
        ),
        scratch_dir(d) is Some ==> details_lines(d, theme, readable, message).contains(
            seq![styled("Write test: temporary file, removed afterwards"@, plain(theme.good))],
        ),
        scratch_dir(d) is None ==> details_lines(d, theme, readable, message).contains(
            seq![styled("Write test: skipped — no writable filesystem here"@, plain(theme.warn))],
        ),
{
    let all = details_lines(d, theme, readable, message);
    let k = 4 + mount_details(d, theme).len() + 1;
    let tests = test_details(d, theme);
    assert(all[k as int] == tests[0]);
    assert(all[k + tests.len() - 1] == tests[tests.len() - 1]);
}

/// What is shown above the gauge of the whole run.
pub open spec fn overall_label(a: AppView, now: Duration) -> Seq<char> {
    let elapsed = match a.started {
        Some(s) => since(s.nanos as nat, now.nanos as nat),
        None => 0,
    };
    decimal_text(product(overall_progress(a.views), rounded(100, 1)), 0) + "%  ·  "@ + secs_text(elapsed)
        + " elapsed  ·  "@ + a.phase
}

/// What is shown on the gauge of the whole run.
pub fn overall_text(app: &App, now: Duration) -> (r: String)
    ensures
        r@ == overall_label(app@, now),
{
    let elapsed = match app.started {
        Some(s) => now.saturating_sub(s),
        None => Duration::zero(),
    };
    let hundred = Double::from_u64(100);
    proof {
        lemma2_to64();
        lemma_integer_size(hundred@.exp, 100, 6);
    }
    let percent = app.overall().times(hundred);
    let mut out = String::new();
    percent.push_fixed(&mut out, 0);
    assert(out@ =~= decimal_text(percent@, 0));
    out.append("%  ·  ");
    out.append(secs(elapsed).as_str());
    out.append(" elapsed  ·  ");
    out.append(app.phase.as_str());
    out
}

/// The largest of some numbers.
pub open spec fn largest(data: Seq<u64>) -> u64
    decreases data.len(),
{
    if data.len() == 0 {
        0
    } else if data.last() > largest(data.drop_last()) {
        data.last()
    } else {
        largest(data.drop_last())
    }
}

/// What is shown above the sparkline.
pub open spec fn spark_title(spark: Seq<u64>) -> Seq<char> {
    "Throughput  (peak "@ + rate_text(product(rounded(largest(spark) as nat, 1), rounded(1000, 1))) + ")"@
}

/// The points of the sparkline.
pub fn spark_data(app: &App) -> (r: Vec<u64>)
    ensures
        r@ == app@.spark,
{
    let mut out: Vec<u64> = Vec::new();
    let mut i: usize = 0;
    while i < app.spark.len()
        invariant
            i <= app.spark@.len(),
            out@ == app.spark@.take(i as int),
        decreases app.spark@.len() - i,
    {
        out.push(app.spark[i]);
        assert(app.spark@.take(i + 1) =~= app.spark@.take(i as int).push(app.spark@[i as int]));
        i += 1;
    }
    assert(app.spark@.take(i as int) =~= app.spark@);
    out
}

/// What is shown above the sparkline of some points.
pub fn throughput(data: &Vec<u64>) -> (r: String)
    ensures
        r@ == spark_title(data@),
{
    let mut peak: u64 = 0;
    let mut i: usize = 0;
    while i < data.len()
        invariant
            i <= data@.len(),
            peak == largest(data@.take(i as int)),
        decreases data@.len() - i,
    {
        assert(data@.take(i + 1).drop_last() =~= data@.take(i as int));
        if data[i] > peak {
            peak = data[i];
        }
        i += 1;
    }
    assert(data@.take(i as int) =~= data@);
    let thousand = Double::from_u64(1000);
    proof {
        lemma2_to64();
        lemma_integer_size(thousand@.exp, 1000, 9);
    }
    let mut out = "Throughput  (peak ".to_string();
    out.append(rate(Double::from_u64(peak).times(thousand)).as_str());
    out.append(")");
    out
}

/// The mark of a status and its style.
pub open spec fn marker(status: StatusView, theme: Theme) -> (Seq<char>, Style) {
    match status {
        StatusView::Pending => ("○"@, plain(theme.dim)),
        StatusView::Running => ("●"@, plain(theme.accent)),
        StatusView::Done => ("✓"@, plain(theme.good)),
        StatusView::Skipped(_) => ("–"@, plain(theme.dim)),
        StatusView::Failed(_) => ("✗"@, plain(theme.bad)),
    }
}

/// A pass of a run: its mark, name and block size.
pub open spec fn pass_line(v: PassState, theme: Theme) -> Seq<SpanView> {
    seq![
        styled(marker(v.status, theme).0 + " "@, marker(v.status, theme).1),
        styled(label(v.kind), plain(theme.fg)),
        styled(" "@ + block_text(block_of(v.kind) as nat), plain(theme.dim)),
    ]
}

/// A pass of a run: its mark, name and block size.
pub fn pass_label(v: &PassView, theme: &Theme) -> (r: Vec<Span>)
    ensures
        r.deep_view() == pass_line(v@, *theme),
{
    let (mark, style) = match &v.status {
        Status::Pending => ("○", theme.dimmed()),
        Status::Running => ("●", Style::plain(theme.accent)),
        Status::Done => ("✓", Style::plain(theme.good)),
        Status::Skipped(_) => ("–", theme.dimmed()),
        Status::Failed(_) => ("✗", Style::plain(theme.bad)),
    };
    let mut first = mark.to_string();
    first.append(" ");
    let mut last = " ".to_string();
    last.append(block_size(v.kind.block_size()).as_str());
    let r = vec![
        Span::of(first, style),
        Span::new(v.kind.label(), theme.text()),
        Span::of(last, theme.dimmed()),
    ];
    assert(r.deep_view() =~= pass_line(v@, *theme));
    r
}

/// What stands behind the name of a pass.
#[derive(Debug)]
pub enum Outcome {
    /// Why it did not run.
    Note(Span),
    /// What is shown on its gauge.
    Gauge(String),
}

/// The values of what stands behind the name of a pass.
pub ghost enum OutcomeView {
    Note(SpanView),
    Gauge(Seq<char>),
}

impl View for Outcome {
    type V = OutcomeView;

    open spec fn view(&self) -> OutcomeView {
        match self {
            Outcome::Note(s) => OutcomeView::Note(s@),
            Outcome::Gauge(s) => OutcomeView::Gauge(s@),
        }
    }
}

/// What stands behind the name of a pass. Skipped and failed passes show their
/// reason in place of a progress bar, so that the screen never goes back to
/// being ambiguous.
pub open spec fn outcome_of(v: PassState, theme: Theme) -> OutcomeView {
    match v.status {
        StatusView::Skipped(why) => OutcomeView::Note(styled(why, plain(theme.dim))),
        StatusView::Failed(why) => OutcomeView::Note(styled(why, plain(theme.bad))),
        StatusView::Done => OutcomeView::Gauge(
            match v.result {
                Some(r) => rate_text(per_second(r.bytes as nat, r.elapsed.nanos as nat)) + "  ("@ + size_text(
                    r.bytes as nat,
                ) + ")"@,
                None => Seq::empty(),
            },
        ),
        _ => OutcomeView::Gauge(
            rate_text(v.rate_now) + "  ("@ + size_text(v.bytes as nat) + " so far)"@,
        ),
    }
}

/// What stands behind the name of a pass.
pub fn pass_outcome(v: &PassView, theme: &Theme) -> (r: Outcome)
    ensures
        r@ == outcome_of(v@, *theme),
{
    match &v.status {
        Status::Skipped(why) => Outcome::Note(Span::new(why.as_str(), theme.dimmed())),
        Status::Failed(why) => Outcome::Note(Span::new(why.as_str(), Style::plain(theme.bad))),
        Status::Done => match &v.result {
            Some(r) => {
                let mut s = rate(r.rate());
                s.append("  (");
                s.append(bytes(r.bytes).as_str());
                s.append(")");
                Outcome::Gauge(s)
            },
            None => Outcome::Gauge(String::new()),
        },
        _ => {
            let mut s = rate(v.rate_now);
            s.append("  (");
            s.append(bytes(v.bytes).as_str());
            s.append(" so far)");
            Outcome::Gauge(s)
        },
    }
}

/// The heading of the results.
pub open spec fn results_head(theme: Theme) -> Seq<SpanView> {
    seq![
        styled("Pass"@, plain(theme.dim)),
        styled("Block"@, plain(theme.dim)),
        styled("Speed"@, plain(theme.dim)),
        styled("IOPS"@, plain(theme.dim)),
        styled("Transferred"@, plain(theme.dim)),
        styled("Avg lat"@, plain(theme.dim)),
        styled("Max lat"@, plain(theme.dim)),
        styled("Cache"@, plain(theme.dim)),
    ]
}

/// The heading of the results.
pub fn results_header(theme: &Theme) -> (r: Vec<Span>)
    ensures
        r.deep_view() == results_head(*theme),
{
    let r = vec![
        Span::new("Pass", theme.dimmed()),
        Span::new("Block", theme.dimmed()),
        Span::new("Speed", theme.dimmed()),
        Span::new("IOPS", theme.dimmed()),
        Span::new("Transferred", theme.dimmed()),
        Span::new("Avg lat", theme.dimmed()),
        Span::new("Max lat", theme.dimmed()),
        Span::new("Cache", theme.dimmed()),
    ];
    assert(r.deep_view() =~= results_head(*theme));
    r
}

/// Whether the cache was bypassed.
pub open spec fn cache_cell(direct: bool, theme: Theme) -> SpanView {
    if direct {
        styled("bypassed"@, plain(theme.good))
    } else {
        styled("buffered"@, plain(theme.warn))
    }
}

/// A measured pass in the table of results.
pub open spec fn measured_cells(r: ResultView, theme: Theme) -> Seq<SpanView> {
    seq![
        styled(label(r.kind), strong(theme.fg)),
        styled(block_text(r.block_size as nat), unstyled()),
        styled(
            rate_text(per_second(r.bytes as nat, r.elapsed.nanos as nat)),
            strong(theme.accent),
        ),
        styled(iops_text(per_second(r.ops as nat, r.elapsed.nanos as nat)), unstyled()),
        styled(size_text(r.bytes as nat), unstyled()),
        styled(latency_text(r.avg_latency.nanos as nat), unstyled()),
        styled(latency_text(r.max_latency.nanos as nat), unstyled()),
        cache_cell(r.direct, theme),
    ]
}

/// A pass in the table of results. Only a short marker fits the column of one
/// that was not measured; the reason goes in the summary, where it has room.
pub open spec fn result_cells(v: PassState, theme: Theme) -> Seq<SpanView> {
    if v.status is Done && v.result is Some {
        measured_cells(v.result->0, theme)
    } else {
        let word = match v.status {
            StatusView::Skipped(_) => styled("skipped"@, plain(theme.dim)),
            StatusView::Failed(_) => styled("failed"@, plain(theme.bad)),
            _ => styled("not run"@, plain(theme.dim)),
        };
        seq![
            styled(label(v.kind), unstyled()),
            styled(block_text(block_of(v.kind) as nat), unstyled()),
            word,
        ]
    }
}

fn measured_row(r: &PassResult, theme: &Theme) -> (c: Vec<Span>)
    ensures
        c.deep_view() == measured_cells(r@, *theme),
{
    let cache = if r.direct {
        Span::new("bypassed", Style::plain(theme.good))
    } else {
        Span::new("buffered", Style::plain(theme.warn))
    };
    let c = vec![
        Span::new(r.kind.label(), Style::strong(theme.fg)),
        Span::of(block_size(r.block_size), Style::unstyled()),
        Span::of(rate(r.rate()), Style::strong(theme.accent)),
        Span::of(iops(r.iops()), Style::unstyled()),
        Span::of(bytes(r.bytes), Style::unstyled()),
        Span::of(latency(r.avg_latency), Style::unstyled()),
        Span::of(latency(r.max_latency), Style::unstyled()),
        cache,
    ];
    assert(c.deep_view() =~= measured_cells(r@, *theme));
    c
}

/// A pass in the table of results.
pub fn result_row(v: &PassView, theme: &Theme) -> (r: Vec<Span>)
    ensures
        r.deep_view() == result_cells(v@, *theme),
{
    if v.status.is_done() {
        if let Some(r) = &v.result {
            return measured_row(r, theme);
        }
    }
    let word = match &v.status {
        Status::Skipped(_) => Span::new("skipped", theme.dimmed()),
        Status::Failed(_) => Span::new("failed", Style::plain(theme.bad)),
        _ => Span::new("not run", theme.dimmed()),
    };
    let r = vec![
        Span::new(v.kind.label(), Style::unstyled()),
        Span::of(block_size(v.kind.block_size()), Style::unstyled()),
        word,
    ];
    assert(r.deep_view() =~= result_cells(v@, *theme));
    r
}

/// The best rate of the sequential passes that were measured, of those that read
/// or of those that write.
pub open spec fn best_rate(results: Seq<ResultView>, write: bool) -> Dyadic
    decreases results.len(),
{
    if results.len() == 0 {
        zero()
    } else {
        let best = best_rate(results.drop_last(), write);
        let r = results.last();
        let speed = per_second(r.bytes as nat, r.elapsed.nanos as nat);
        if writes(r.kind) == write && !jumps(r.kind) && r.status is Done && below(best, speed) {
            speed
        } else {
            best
        }
    }
}

fn find_best(results: &Vec<&PassResult>, write: bool) -> (r: Double)
    ensures
        r@ == best_rate(results.deep_view(), write),
{
    let ghost all = results.deep_view();
    let mut best = Double::zero();
    let mut i: usize = 0;
    while i < results.len()
        invariant
            i <= results@.len(),
            all == results.deep_view(),
            all.len() == results@.len(),
            best@ == best_rate(all.take(i as int), write),
        decreases results@.len() - i,
    {
        let r = results[i];
        assert(all.take(i + 1).drop_last() =~= all.take(i as int));
        assert(all.take(i + 1).last() == r@);
        if r.kind.is_write() == write && !r.kind.is_random() && r.status.is_done() {
            let speed = r.rate();
            if best.is_below(speed) {
                best = speed;
            }
        }
        i += 1;
    }
    assert(all.take(i as int) =~= all);
    best
}

/// The rates of the sequential passes, where one was measured.
pub open spec fn rates_line(results: Seq<ResultView>, theme: Theme) -> Seq<Seq<SpanView>> {
    let read = best_rate(results, false);
    let write = best_rate(results, true);
    if read.mant > 0 || write.mant > 0 {
        seq![
            seq![
                styled(padded("Sequential"@, 12), plain(theme.dim)),
                styled("read "@, plain(theme.dim)),
                styled(rate_text(read), plain(theme.good)),
                styled("   write "@, plain(theme.dim)),
                styled(rate_text(write), plain(theme.good)),
            ],
        ]
    } else {
        Seq::empty()
    }
}

/// The full text for a pass that was skipped or failed.
pub open spec fn reason_line(v: PassState, theme: Theme) -> Option<Seq<SpanView>> {
    match v.status {
        StatusView::Skipped(why) => Some(
            seq![styled(label(v.kind) + ": "@, plain(theme.dim)), styled(why, plain(theme.dim))],
        ),
        StatusView::Failed(why) => Some(
            seq![styled(label(v.kind) + ": "@, plain(theme.dim)), styled(why, plain(theme.bad))],
        ),
        _ => None,
    }
}

/// The full text for every pass that was skipped or failed.
pub open spec fn reason_lines(views: Seq<PassState>, theme: Theme) -> Seq<Seq<SpanView>>
    decreases views.len(),
{
    if views.len() == 0 {
        Seq::empty()
    } else {
        let init = reason_lines(views.drop_last(), theme);
        match reason_line(views.last(), theme) {
            Some(line) => init.push(line),
            None => init,
        }
    }
}

/// Whether a result was measured through the cache.
pub open spec fn is_buffered(r: ResultView) -> bool {
    !r.direct && r.status is Done
}

/// Whether one of some results was measured through the cache.
pub open spec fn any_buffered(results: Seq<ResultView>) -> bool {
    exists|i: int| 0 <= i < results.len() && is_buffered(#[trigger] results[i])
}

/// The warning about figures that include the cache.
pub open spec fn warning_line(theme: Theme) -> Seq<SpanView> {
    seq![
        styled(
            "⚠ some passes fell back to buffered I/O — those figures include the page cache"@,
            plain(theme.warn),
        ),
    ]
}

/// The summary of a run.
pub open spec fn summary_lines(a: AppView) -> Seq<Seq<SpanView>> {
    let theme = a.theme;
    let results = results_of(a.views);
    let device = match chosen(a) {
        Some(d) => seq![field_line("Device"@, d.path + " — "@ + d.model, theme)],
        None => Seq::empty(),
    };
    let total = match a.finished {
        Some(t) => seq![field_line("Total time"@, secs_text(t.nanos as nat), theme)],
        None => Seq::empty(),
    };
    let warning = if any_buffered(results) {
        seq![warning_line(theme)]
    } else {
        Seq::empty()
    };
    let message = match a.message {
        Some(m) => seq![seq![styled(m, plain(theme.warn))]],
        None => Seq::empty(),
    };
    device + total + rates_line(results, theme) + reason_lines(a.views, theme) + warning + message
}

fn push_rates(lines: &mut Vec<Vec<Span>>, results: &Vec<&PassResult>, theme: &Theme)
    ensures
        final(lines).deep_view() == old(lines).deep_view() + rates_line(results.deep_view(), *theme),
{
    let ghost before = lines.deep_view();
    let read = find_best(results, false);
    let write = find_best(results, true);
    if !read.is_zero() || !write.is_zero() {
        let line = vec![
            Span::of(pad("Sequential", 12), theme.dimmed()),
            Span::new("read ", theme.dimmed()),
            Span::of(rate(read), Style::plain(theme.good)),
            Span::new("   write ", theme.dimmed()),
            Span::of(rate(write), Style::plain(theme.good)),
        ];
        assert(line.deep_view() =~= rates_line(results.deep_view(), *theme)[0]);
        push_line(lines, line);
    }
    assert(lines.deep_view() =~= before + rates_line(results.deep_view(), *theme));
}

fn push_reasons(lines: &mut Vec<Vec<Span>>, app: &App)
    ensures
        final(lines).deep_view() == old(lines).deep_view() + reason_lines(app@.views, app@.theme),
{
    let ghost before = lines.deep_view();
    let ghost all = app@.views;
    let theme = app.theme;
    let mut i: usize = 0;
    assert(lines.deep_view() =~= before + reason_lines(all.take(0), theme));
    while i < app.views.len()
        invariant
            i <= app.views@.len(),
            all == app.views.deep_view(),
            all.len() == app.views@.len(),
            lines.deep_view() == before + reason_lines(all.take(i as int), theme),
        decreases app.views@.len() - i,
    {
        let v = &app.views[i];
        let ghost mid = lines.deep_view();
        assert(all.take(i + 1).drop_last() =~= all.take(i as int));
        assert(all.take(i + 1).last() == v@);
        let mut name = v.kind.label().to_string();
        name.append(": ");
        match &v.status {
            Status::Skipped(why) => {
                let line = vec![
                    Span::of(name, theme.dimmed()),
                    Span::new(why.as_str(), Style::plain(theme.dim)),
                ];
                assert(line.deep_view() =~= reason_line(v@, theme)->0);
                push_line(lines, line);
            },
            Status::Failed(why) => {
                let line = vec![
                    Span::of(name, theme.dimmed()),
                    Span::new(why.as_str(), Style::plain(theme.bad)),
                ];
                assert(line.deep_view() =~= reason_line(v@, theme)->0);
                push_line(lines, line);
            },
            _ => {},
        }
        assert(lines.deep_view() =~= before + reason_lines(all.take(i + 1), theme));
        i += 1;
    }
    assert(all.take(i as int) =~= all);
}

fn has_buffered(results: &Vec<&PassResult>) -> (r: bool)
    ensures
        r == any_buffered(results.deep_view()),
{
    let ghost all = results.deep_view();
    let mut i: usize = 0;
    while i < results.len()
        invariant
            i <= results@.len(),
            all == results.deep_view(),
            all.len() == results@.len(),
            forall|k: int| 0 <= k < i ==> !is_buffered(#[trigger] all[k]),
        decreases results@.len() - i,
    {
        let r = results[i];
        assert(all[i as int] == r@);
        if !r.direct && r.status.is_done() {
            assert(is_buffered(all[i as int]));
            return true;
        }
        i += 1;
    }
    false
}

/// The summary of a run.
pub fn summary(app: &App) -> (r: Vec<Vec<Span>>)
    ensures
        r.deep_view() == summary_lines(app@),
{
    let theme = app.theme;
    let mut lines = no_lines();
    if let Some(d) = app.selected() {
        let mut what = d.path.clone();
        what.append(" — ");
        what.append(d.model.as_str());
        push_line(&mut lines, field("Device", what.as_str(), &theme));
    }
    let ghost device = match chosen(app@) {
        Some(d) => seq![field_line("Device"@, d.path + " — "@ + d.model, theme)],
        None => Seq::empty(),
    };
    assert(lines.deep_view() =~= device);
    if let Some(total) = app.finished {
        push_line(&mut lines, field("Total time", secs(total).as_str(), &theme));
    }
    let ghost total = match app@.finished {
        Some(t) => seq![field_line("Total time"@, secs_text(t.nanos as nat), theme)],
        None => Seq::empty(),
    };
    assert(lines.deep_view() =~= device + total);
    let results = app.results();
    push_rates(&mut lines, &results, &theme);
    push_reasons(&mut lines, app);
    let ghost so_far = lines.deep_view();
    let ghost warning = if any_buffered(results_of(app@.views)) {
        seq![warning_line(theme)]
    } else {
        Seq::empty()
    };
    if has_buffered(&results) {
        push_line(
            &mut lines,
            Span::new(
                "⚠ some passes fell back to buffered I/O — those figures include the page cache",
                Style::plain(theme.warn),
            ).line(),
        );
    }
    assert(lines.deep_view() =~= so_far + warning);
    if let Some(message) = &app.message {
        push_line(&mut lines, Span::new(message.as_str(), Style::plain(theme.warn)).line());
    }
    assert(lines.deep_view() =~= summary_lines(app@));
    lines
}

/// Figures that were measured through the cache are never passed off as those of
/// the device: the summary of a run with such a pass carries the warning, and
/// the row of the pass says so.
pub proof fn law_buffered_results_are_labelled(a: AppView, i: int)
    requires
        0 <= i < a.views.len(),
        a.views[i].status is Done,
        a.views[i].result is Some,
        is_buffered(a.views[i].result->0),
    ensures
        summary_lines(a).contains(warning_line(a.theme)),
        result_cells(a.views[i], a.theme).last() == styled("buffered"@, plain(a.theme.warn)),
{
    lemma_results_hold(a.views, i);
    let results = results_of(a.views);
    let k = choose|k: int| 0 <= k < results.len() && #[trigger] results[k] == a.views[i].result->0;
    assert(is_buffered(results[k]));
    let n = match chosen(a) {
        Some(_) => 1int,
        None => 0,
    } + match a.finished {
        Some(_) => 1int,
        None => 0,
    } + rates_line(results, a.theme).len() + reason_lines(a.views, a.theme).len();
    assert(summary_lines(a)[n] == warning_line(a.theme));
}

proof fn lemma_results_hold(views: Seq<PassState>, i: int)
    requires
        0 <= i < views.len(),
        views[i].result is Some,
    ensures
        exists|k: int| 0 <= k < results_of(views).len() && #[trigger] results_of(views)[k] == views[i].result->0,
    decreases views.len(),
{
    let init = results_of(views.drop_last());
    if i == views.len() - 1 {
        assert(results_of(views)[init.len() as int] == views[i].result->0);
    } else {
        lemma_results_hold(views.drop_last(), i);
        let k = choose|k: int| 0 <= k < init.len() && #[trigger] init[k] == views[i].result->0;
        assert(results_of(views)[k] == views[i].result->0);
    }
}

/// The keys of a screen and what they do.
pub open spec fn keys(screen: Screen) -> Seq<(Seq<char>, Seq<char>)> {
    match screen {
        Screen::Select => seq![
            ("↑/↓"@, "select"@),
            ("enter"@, "start"@),
            ("c"@, "cache bypass"@),
            ("t"@, "theme"@),
            ("q"@, "quit"@),
        ],
        Screen::Running => seq![("esc"@, "cancel"@), ("t"@, "theme"@), ("q"@, "quit"@)],
        Screen::Results => seq![
            ("r"@, "rerun"@),
            ("esc"@, "back"@),
            ("t"@, "theme"@),
            ("q"@, "quit"@),
        ],
    }
}

/// The line at the bottom, for some keys and what they do.
pub open spec fn key_line(list: Seq<(Seq<char>, Seq<char>)>, theme: Theme) -> Seq<SpanView>
    decreases list.len(),
{
    if list.len() == 0 {
        Seq::empty()
    } else {
        key_line(list.drop_last(), theme) + seq![
            styled(" "@ + list.last().0 + " "@, strong(theme.accent)),
            styled(list.last().1 + "   "@, plain(theme.dim)),
        ]
    }
}

/// The line at the bottom: which keys there are.
pub fn footer(screen: Screen, theme: &Theme) -> (r: Vec<Span>)
    ensures
        r.deep_view() == key_line(keys(screen), *theme),
{
    let list: Vec<(&str, &str)> = match screen {
        Screen::Select => vec![
            ("↑/↓", "select"),
            ("enter", "start"),
            ("c", "cache bypass"),
            ("t", "theme"),
            ("q", "quit"),
        ],
        Screen::Running => vec![("esc", "cancel"), ("t", "theme"), ("q", "quit")],
        Screen::Results => vec![("r", "rerun"), ("esc", "back"), ("t", "theme"), ("q", "quit")],
    };
    let ghost all = keys(screen);
    assert(list@.len() == all.len());
    assert forall|k: int| 0 <= k < list@.len() implies #[trigger] list@[k].0@ == all[k].0 && list@[k].1@
        == all[k].1 by {}
    let mut spans = empty_line();
    let mut i: usize = 0;
    assert(spans.deep_view() =~= key_line(all.take(0), *theme));
    while i < list.len()
        invariant
            i <= list@.len() == all.len(),
            forall|k: int|
                0 <= k < list@.len() ==> #[trigger] list@[k].0@ == all[k].0 && list@[k].1@ == all[k].1,
            spans.deep_view() == key_line(all.take(i as int), *theme),
        decreases list@.len() - i,
    {
        assert(all.take(i + 1).drop_last() =~= all.take(i as int));
        let ghost before = spans.deep_view();
        let mut key = " ".to_string();
        key.append(list[i].0);
        key.append(" ");
        let mut what = list[i].1.to_string();
        what.append("   ");
        assert(list@[i as int].0@ == all[i as int].0);
        push_span(&mut spans, Span::of(key, Style::strong(theme.accent)));
        push_span(&mut spans, Span::of(what, theme.dimmed()));
        assert(spans.deep_view() =~= key_line(all.take(i + 1), *theme));
        i += 1;
    }
    assert(all.take(i as int) =~= all);
    spans
}

/// Whether a line says a text, in one of its pieces.
pub open spec fn says(line: Seq<SpanView>, text: Seq<char>) -> bool {
    exists|i: int| 0 <= i < line.len() && (#[trigger] line[i]).text == text
}

/// The line at the top says whether the cache is bypassed, and how long a run may
/// take: it differs for any two settings that differ in the former.
#[verifier::rlimit(60)]
pub proof fn law_header_says_how_it_is_set(a: AppView, b: AppView)
    ensures
        a.direct ==> says(header_line(a), "direct (cache bypassed)"@),
        !a.direct ==> says(header_line(a), "buffered (cached)"@),
        says(header_line(a), secs_text(a.budget.nanos as nat)),
        a.theme.mode is Dark ==> says(header_line(a), "dark"@),
        a.theme.mode is Light ==> says(header_line(a), "light"@),
        a.direct != b.direct ==> header_line(a) != header_line(b),
{
    reveal_strlit("direct (cache bypassed)");
    reveal_strlit("buffered (cached)");
    assert("direct (cache bypassed)"@.len() == 23 && "buffered (cached)"@.len() == 17);
    let line = header_line(a);
    assert(line[4].text == line[4].text);
    assert(line[6].text == secs_text(a.budget.nanos as nat));
    assert(line[8].text == mode_label(a.theme.mode));
    assert(header_line(b)[4].text == header_line(b)[4].text);
    if a.direct != b.direct {
        assert(line[4].text.len() != header_line(b)[4].text.len());
    }
}

/// A device of the picker is shown with its name, its size and where it is
/// mounted, and marked just where it cannot be read.
pub proof fn law_picker_shows_what_is_known(d: DeviceView, theme: Theme, readable: bool)
    ensures
        ({
            let line = device_line(d, theme, readable);
            &&& holds(line[0].text, d.name)
            &&& holds(line[1].text, size_text(d.size as nat))
            &&& d.mount is Some ==> says(line, d.mount->0.path + " "@)
            &&& d.removable ==> says(line, "removable "@)
            &&& !readable ==> line.last().text == "🔒 needs root"@ && line.last().style == plain(theme.bad)
            &&& device_line(d, theme, false).len() == device_line(d, theme, true).len() + 1
            &&& line.len() >= 3
        }),
{
    let line = device_line(d, theme, readable);
    let indent = if d.kind == Kind::Partition {
        "  └ "@
    } else {
        ""@
    };
    lemma_column_holds(d.name, 12);
    lemma_holds_more(padded(d.name, 12), d.name, indent);
    let size = size_text(d.size as nat);
    lemma_column_holds(size, 9);
    lemma_holds_more(right_aligned(size, 9), size, "  "@);
    assert(line[0].text == indent + padded(d.name, 12));
    assert(line[1].text == right_aligned(size, 9) + "  "@);
    let k: int = if d.removable {
        4
    } else {
        3
    };
    if d.removable {
        assert(line[3].text == "removable "@);
    }
    if d.mount is Some {
        assert(line[k].text == d.mount->0.path + " "@);
    }
}

/// What is said of a device names it and its model, its capacity, and its
/// filesystem with the space that is free there, or that it is not mounted. A
/// borrowed filesystem is not said to be mounted there.
#[verifier::rlimit(60)]
pub proof fn law_details_say_what_is_known(d: DeviceView, theme: Theme, readable: bool, message: Option<Seq<char>>)
    ensures
        ({
            let all = details_lines(d, theme, readable, message);
            &&& all.contains(field_line("Device"@, d.path, theme))
            &&& all.contains(field_line("Model"@, d.model, theme))
            &&& all.contains(field_line("Capacity"@, size_text(d.size as nat), theme))
            &&& d.mount is Some ==> {
                let m = d.mount->0;
                &&& all.contains(field_line("Filesystem"@, m.fstype, theme))
                &&& all.contains(field_line("Free space"@, size_text(m.free as nat), theme))
                &&& !d.mount_inherited ==> all.contains(field_line("Mounted at"@, m.path, theme))
                &&& d.mount_inherited ==> all.contains(field_line("Filesystem"@, m.path, theme))
            }
            &&& d.mount is None ==> all.contains(field_line("Mounted at"@, "not mounted"@, theme))
            &&& message is Some ==> all.last() == seq![styled(message->0, plain(theme.warn))]
        }),
{
    let all = details_lines(d, theme, readable, message);
    assert(all[0] == field_line("Device"@, d.path, theme));
    assert(all[1] == field_line("Model"@, d.model, theme));
    assert(all[2] == field_line("Capacity"@, size_text(d.size as nat), theme));
    let mounts = mount_details(d, theme);
    assert(all[4] == mounts[0]);
    if d.mount is Some {
        assert(all[5] == mounts[1]);
        assert(all[6] == mounts[2]);
    }
}

/// The best rate is no lower than that of any sequential pass of its direction
/// that was measured, and it is the rate of one of them, or none at all.
pub proof fn law_best_rate_is_the_best(results: Seq<ResultView>, write: bool)
    ensures
        forall|i: int|
            0 <= i < results.len() && counts_as(#[trigger] results[i], write) ==> !below(
                best_rate(results, write),
                per_second(results[i].bytes as nat, results[i].elapsed.nanos as nat),
            ),
        best_rate(results, write) == zero() || exists|i: int|
            0 <= i < results.len() && counts_as(#[trigger] results[i], write) && best_rate(results, write)
                == per_second(results[i].bytes as nat, results[i].elapsed.nanos as nat),
    decreases results.len(),
{
    if results.len() > 0 {
        let init = results.drop_last();
        law_best_rate_is_the_best(init, write);
        let old = best_rate(init, write);
        let now = best_rate(results, write);
        assert(results[results.len() - 1] == results.last());
        assert forall|i: int| 0 <= i < results.len() && counts_as(#[trigger] results[i], write) implies !below(
            now,
            per_second(results[i].bytes as nat, results[i].elapsed.nanos as nat),
        ) by {
            if i < init.len() {
                assert(init[i] == results[i]);
            }
        }
        if now == old && old != zero() {
            let i = choose|i: int|
                0 <= i < init.len() && counts_as(#[trigger] init[i], write) && old == per_second(
                    init[i].bytes as nat,
                    init[i].elapsed.nanos as nat,
                );
            assert(counts_as(results[i], write));
        } else if now != old {
            assert(counts_as(results[results.len() - 1], write));
        }
    }
}

/// Whether a result is of a sequential pass of a direction that was measured.
pub open spec fn counts_as(r: ResultView, write: bool) -> bool {
    &&& r.status is Done
    &&& if write {
        r.kind == PassKind::SeqWrite
    } else {
        r.kind == PassKind::SeqRead
    }
}

/// Each figure of a measured pass stands under the heading that names it.
#[verifier::rlimit(60)]
pub proof fn law_figures_stand_under_their_headings(v: PassState, theme: Theme)
    requires
        v.status is Done,
        v.result is Some,
    ensures
        ({
            let head = results_head(theme);
            let row = result_cells(v, theme);
            let r = v.result->0;
            let nanos = r.elapsed.nanos as nat;
            &&& head.len() == 8 && row.len() == 8
            &&& forall|i: int|
                0 <= i < 8 ==> {
                    &&& (#[trigger] head[i]).text == "Pass"@ ==> row[i].text == label(r.kind)
                    &&& head[i].text == "Block"@ ==> row[i].text == block_text(r.block_size as nat)
                    &&& head[i].text == "Speed"@ ==> row[i].text == rate_text(
                        per_second(r.bytes as nat, nanos),
                    )
                    &&& head[i].text == "IOPS"@ ==> row[i].text == iops_text(per_second(r.ops as nat, nanos))
                    &&& head[i].text == "Transferred"@ ==> row[i].text == size_text(r.bytes as nat)
                    &&& head[i].text == "Avg lat"@ ==> row[i].text == latency_text(
                        r.avg_latency.nanos as nat,
                    )
                    &&& head[i].text == "Max lat"@ ==> row[i].text == latency_text(
                        r.max_latency.nanos as nat,
                    )
                    &&& head[i].text == "Cache"@ ==> row[i].text == if r.direct {
                        "bypassed"@
                    } else {
                        "buffered"@
                    }
                }
            &&& says(head, "Pass"@) && says(head, "Block"@) && says(head, "Speed"@) && says(head, "IOPS"@)
            &&& says(head, "Transferred"@) && says(head, "Avg lat"@) && says(head, "Max lat"@)
            &&& says(head, "Cache"@)
        }),
{
    reveal_strlit("Pass");
    reveal_strlit("Block");
    reveal_strlit("Speed");
    reveal_strlit("IOPS");
    reveal_strlit("Transferred");
    reveal_strlit("Avg lat");
    reveal_strlit("Max lat");
    reveal_strlit("Cache");
    let head = results_head(theme);
    assert("Pass"@.len() == 4 && "Pass"@[0] == 'P');
    assert("IOPS"@.len() == 4 && "IOPS"@[0] == 'I');
    assert("Block"@.len() == 5 && "Block"@[0] == 'B');
    assert("Speed"@.len() == 5 && "Speed"@[0] == 'S');
    assert("Cache"@.len() == 5 && "Cache"@[0] == 'C');
    assert("Transferred"@.len() == 11);
    assert("Avg lat"@.len() == 7 && "Avg lat"@[0] == 'A');
    assert("Max lat"@.len() == 7 && "Max lat"@[0] == 'M');
    assert(head[0].text == "Pass"@ && head[1].text == "Block"@ && head[2].text == "Speed"@);
    assert(head[3].text == "IOPS"@ && head[4].text == "Transferred"@ && head[5].text == "Avg lat"@);
    assert(head[6].text == "Max lat"@ && head[7].text == "Cache"@);
}

/// A pass that was not measured shows no figures, and is marked as what it is.
pub proof fn law_unmeasured_passes_show_no_figures(v: PassState, theme: Theme)
    requires
        !(v.status is Done) || v.result is None,
    ensures
        ({
            let row = result_cells(v, theme);
            &&& row.len() == 3
            &&& row[0].text == label(v.kind)
            &&& v.status is Skipped ==> row[2].text == "skipped"@
            &&& v.status is Failed ==> row[2].text == "failed"@
            &&& v.status is Pending || v.status is Running ==> row[2].text == "not run"@
        }),
{
}

proof fn lemma_reasons_hold(views: Seq<PassState>, theme: Theme, i: int)
    requires
        0 <= i < views.len(),
        reason_line(views[i], theme) is Some,
    ensures
        reason_lines(views, theme).contains(reason_line(views[i], theme)->0),
    decreases views.len(),
{
    let init = views.drop_last();
    let old = reason_lines(init, theme);
    let now = reason_lines(views, theme);
    if i == views.len() - 1 {
        assert(now[old.len() as int] == reason_line(views[i], theme)->0);
    } else {
        assert(init[i] == views[i]);
        lemma_reasons_hold(init, theme, i);
        let k = old.index_of(reason_line(views[i], theme)->0);
        assert(now[k] == old[k]);
    }
}

/// The summary says why every pass that was skipped or failed was, under the name
/// of the pass; which device was measured, and how long the run took; and it
/// warns of the cache where a measured pass went through it.
#[verifier::rlimit(60)]
pub proof fn law_summary_explains_itself(a: AppView, i: int, why: Seq<char>)
    requires
        0 <= i < a.views.len(),
    ensures
        a.views[i].status == StatusView::Skipped(why) || a.views[i].status == StatusView::Failed(why)
            ==> exists|k: int|
            0 <= k < summary_lines(a).len() && says(#[trigger] summary_lines(a)[k], why) && says(
                summary_lines(a)[k],
                label(a.views[i].kind) + ": "@,
            ),
        a.finished is Some ==> summary_lines(a).contains(
            field_line("Total time"@, secs_text(a.finished->0.nanos as nat), a.theme),
        ),
        chosen(a) is Some ==> summary_lines(a).contains(
            field_line("Device"@, chosen(a)->0.path + " — "@ + chosen(a)->0.model, a.theme),
        ),
        a.message is Some ==> summary_lines(a).last() == seq![styled(a.message->0, plain(a.theme.warn))],
        any_buffered(results_of(a.views)) ==> summary_lines(a).contains(warning_line(a.theme)),
{
    let theme = a.theme;
    let results = results_of(a.views);
    let device = match chosen(a) {
        Some(d) => seq![field_line("Device"@, d.path + " — "@ + d.model, theme)],
        None => Seq::empty(),
    };
    let total = match a.finished {
        Some(t) => seq![field_line("Total time"@, secs_text(t.nanos as nat), theme)],
        None => Seq::empty(),
    };
    let warning = if any_buffered(results) {
        seq![warning_line(theme)]
    } else {
        Seq::empty()
    };
    let message = match a.message {
        Some(m) => seq![seq![styled(m, plain(theme.warn))]],
        None => Seq::empty(),
    };
    let reasons = reason_lines(a.views, theme);
    let all = summary_lines(a);
    let head = device + total + rates_line(results, theme);
    assert(all == head + reasons + warning + message);
    if chosen(a) is Some {
        assert(all[0] == device[0]);
    }
    if a.finished is Some {
        assert(all[device.len() as int] == total[0]);
    }
    if any_buffered(results) {
        assert(all[(head.len() + reasons.len()) as int] == warning[0]);
    }
    if a.views[i].status == StatusView::Skipped(why) || a.views[i].status == StatusView::Failed(why) {
        lemma_reasons_hold(a.views, theme, i);
        let line = reason_line(a.views[i], theme)->0;
        let k = reasons.index_of(line);
        assert(all[head.len() + k] == line);
        assert(line[1].text == why);
        assert(line[0].text == label(a.views[i].kind) + ": "@);
        assert(says(all[head.len() + k], why));
    }
}

/// A pass that did not run shows why in place of a bar; one that ran shows the
/// rate of its result, and one that runs the rate of the moment.
pub proof fn law_outcomes_are_shown(v: PassState, theme: Theme, why: Seq<char>)
    ensures
        v.status == StatusView::Skipped(why) || v.status == StatusView::Failed(why) ==> outcome_of(v, theme) is Note
            && outcome_of(v, theme)->Note_0.text == why,
        v.status is Done && v.result is Some ==> outcome_of(v, theme) is Gauge && rate_text(
            per_second(v.result->0.bytes as nat, v.result->0.elapsed.nanos as nat),
        ).is_prefix_of(outcome_of(v, theme)->Gauge_0) && holds(
            outcome_of(v, theme)->Gauge_0,
            size_text(v.result->0.bytes as nat),
        ),
        v.status is Running ==> outcome_of(v, theme) is Gauge && rate_text(v.rate_now).is_prefix_of(
            outcome_of(v, theme)->Gauge_0,
        ) && holds(outcome_of(v, theme)->Gauge_0, size_text(v.bytes as nat)),
{
    if v.status is Done && v.result is Some {
        let r = v.result->0;
        let a = rate_text(per_second(r.bytes as nat, r.elapsed.nanos as nat));
        let b = size_text(r.bytes as nat);
        let s = a + "  ("@ + b + ")"@;
        assert(s.take(a.len() as int) =~= a);
        lemma_holds_end(a + "  ("@, b);
        lemma_holds_more(a + "  ("@ + b, b, ")"@);
    }
    if v.status is Running {
        let a = rate_text(v.rate_now);
        let b = size_text(v.bytes as nat);
        let s = a + "  ("@ + b + " so far)"@;
        assert(s.take(a.len() as int) =~= a);
        lemma_holds_end(a + "  ("@, b);
        lemma_holds_more(a + "  ("@ + b, b, " so far)"@);
    }
}

/// Passes in different states are marked differently.
pub proof fn law_marks_tell_states_apart(a: StatusView, b: StatusView, theme: Theme)
    requires
        marker(a, theme).0 == marker(b, theme).0,
    ensures
        a is Pending <==> b is Pending,
        a is Running <==> b is Running,
        a is Done <==> b is Done,
        a is Skipped <==> b is Skipped,
        a is Failed <==> b is Failed,
{
    reveal_strlit("○");
    reveal_strlit("●");
    reveal_strlit("✓");
    reveal_strlit("–");
    reveal_strlit("✗");
    assert("○"@[0] != "●"@[0] && "○"@[0] != "✓"@[0] && "○"@[0] != "–"@[0] && "○"@[0] != "✗"@[0]);
    assert("●"@[0] != "✓"@[0] && "●"@[0] != "–"@[0] && "●"@[0] != "✗"@[0]);
    assert("✓"@[0] != "–"@[0] && "✓"@[0] != "✗"@[0] && "–"@[0] != "✗"@[0]);
}

/// The peak is no lower than any point of the history, and it is one of them, or
/// zero.
pub proof fn law_peak_is_the_largest_point(data: Seq<u64>)
    ensures
        forall|i: int| 0 <= i < data.len() ==> #[trigger] data[i] <= largest(data),
        largest(data) == 0 || data.contains(largest(data)),
    decreases data.len(),
{
    if data.len() > 0 {
        let init = data.drop_last();
        law_peak_is_the_largest_point(init);
        assert forall|i: int| 0 <= i < data.len() implies #[trigger] data[i] <= largest(data) by {
            if i < init.len() {
                assert(init[i] == data[i]);
            }
        }
        if largest(data) == largest(init) && largest(init) != 0 {
            let k = init.index_of(largest(init));
            assert(data[k] == largest(data));
        } else if largest(data) != 0 {
            assert(data[data.len() - 1] == largest(data));
        }
    }
}

/// The summary does not warn of the cache where no measured pass went through it.
pub proof fn law_no_warning_without_a_cause(a: AppView)
    requires
        forall|i: int|
            0 <= i < a.views.len() && (#[trigger] a.views[i]).result is Some && a.views[i].result->0.status is Done
                ==> a.views[i].result->0.direct,
        a.message is None,
    ensures
        !summary_lines(a).contains(warning_line(a.theme)),
{
    let theme = a.theme;
    let results = results_of(a.views);
    law_results_are_those_of_the_passes(a.views);
    assert(!any_buffered(results)) by {
        if any_buffered(results) {
            let k = choose|k: int| 0 <= k < results.len() && is_buffered(#[trigger] results[k]);
            let i = choose|i: int| k <= i < a.views.len() && (#[trigger] a.views[i]).result == Some(results[k]);
            assert(a.views[i].result->0.direct);
        }
    }
    lemma_reasons_are_pairs(a.views, theme);
    let all = summary_lines(a);
    if all.contains(warning_line(theme)) {
        let k = all.index_of(warning_line(theme));
        assert(all[k].len() == 1);
        let rates = rates_line(results, theme);
        let reasons = reason_lines(a.views, theme);
        let n = all.len() - reasons.len();
        if k >= n {
            assert(all[k] == reasons[k - n]);
        }
    }
}

proof fn lemma_reasons_are_pairs(views: Seq<PassState>, theme: Theme)
    ensures
        forall|i: int|
            0 <= i < reason_lines(views, theme).len() ==> (#[trigger] reason_lines(views, theme)[i]).len() == 2,
    decreases views.len(),
{
    if views.len() > 0 {
        lemma_reasons_are_pairs(views.drop_last(), theme);
        let old = reason_lines(views.drop_last(), theme);
        let now = reason_lines(views, theme);
        assert forall|i: int| 0 <= i < now.len() implies (#[trigger] now[i]).len() == 2 by {
            if i < old.len() {
                assert(now[i] == old[i]);
            }
        }
    }
}

/// The rates of the sequential passes stand behind the words that name them, and
/// are shown just where there is one.
pub proof fn law_sequential_rates_are_named(results: Seq<ResultView>, theme: Theme)
    ensures
        ({
            let read = best_rate(results, false);
            let write = best_rate(results, true);
            let lines = rates_line(results, theme);
            &&& lines.len() == 1 <==> read.mant > 0 || write.mant > 0
            &&& lines.len() == 1 ==> {
                &&& lines[0].len() == 5
                &&& lines[0][1].text == "read "@ && lines[0][2].text == rate_text(read)
                &&& lines[0][3].text == "   write "@ && lines[0][4].text == rate_text(write)
            }
        }),
{
}

/// The gauge of a run says how far it has come in percent, how long it has taken
/// since it was started, and what it is about.
pub proof fn law_gauge_says_how_far_a_run_is(a: AppView, start: Duration, now: Duration)
    requires
        a.started == Some(start),
        start.nanos <= now.nanos,
    ensures
        ({
            let s = overall_label(a, now);
            &&& holds(s, secs_text((now.nanos - start.nanos) as nat) + " elapsed  ·  "@ + a.phase)
            &&& exists|v: Dyadic|
                (#[trigger] decimal_text(v, 0) + "%  ·  "@).is_prefix_of(s) && close(
                    value_of(v),
                    value_of(overall_progress(a.views)) * 100real,
                    3,
                )
        }),
{
    let p = overall_progress(a.views);
    let c = rounded(100, 1);
    let v = product(p, c);
    let t = secs_text((now.nanos - start.nanos) as nat);
    let head = decimal_text(v, 0) + "%  ·  "@;
    let s = overall_label(a, now);
    assert(s == head + t + " elapsed  ·  "@ + a.phase);
    lemma_holds_three(head, t, " elapsed  ·  "@, a.phase);
    assert(s.take(head.len() as int) =~= head);
    lemma_count_is_close(100);
    assert(100nat as real == 100real);
    law_products_are_close(p, c);
    lemma_value_sign(p);
    let w = value_of(p);
    lemma_close_scales(value_of(c), 100real, 1, w);
    lemma_swap(100real, w);
    lemma_swap(value_of(c), w);
    lemma_close_follows(w * 100real, w * value_of(c), value_of(v), 1, 1);
}

/// The peak above the history is its largest point, which counts thousands.
pub proof fn law_peak_counts_thousands(spark: Seq<u64>)
    ensures
        exists|x: Dyadic|
            spark_title(spark) == "Throughput  (peak "@ + #[trigger] rate_text(x) + ")"@ && close(
                value_of(x),
                (largest(spark) as real) * 1000real,
                5,
            ),
{
    let a = rounded(largest(spark) as nat, 1);
    let b = rounded(1000, 1);
    let x = product(a, b);
    let n = largest(spark) as nat as real;
    lemma_count_is_close(largest(spark) as nat);
    lemma_count_is_close(1000);
    assert(1000nat as real == 1000real);
    law_products_are_close(a, b);
    lemma_value_sign(a);
    lemma_value_sign(b);
    lemma_close_scales(value_of(a), n, 1, value_of(b));
    lemma_close_scales(value_of(b), 1000real, 1, n);
    lemma_swap(1000real, n);
    lemma_swap(value_of(b), n);
    lemma_close_follows(n * 1000real, n * value_of(b), value_of(a) * value_of(b), 1, 1);
    lemma_close_follows(n * 1000real, value_of(a) * value_of(b), value_of(x), 3, 1);
    assert(spark_title(spark) == "Throughput  (peak "@ + rate_text(x) + ")"@);
}

/// A pass of a run is shown with the mark of its state, its name, and the size of
/// its blocks.
pub proof fn law_passes_are_named(v: PassState, theme: Theme)
    ensures
        ({
            let line = pass_line(v, theme);
            &&& line.len() == 3
            &&& line[0].text == marker(v.status, theme).0 + " "@
            &&& line[1].text == label(v.kind)
            &&& line[2].text == " "@ + block_text(block_of(v.kind) as nat)
        }),
{
}

/// The line at the bottom names every key of the screen with what it does: how to
/// start from the picker, how to cancel a run, how to run it again, and how to
/// leave from everywhere.
pub proof fn law_footer_names_the_keys(screen: Screen, theme: Theme, list: Seq<(Seq<char>, Seq<char>)>, i: int)
    ensures
        keys(screen).contains(("q"@, "quit"@)),
        keys(screen).contains(("t"@, "theme"@)),
        screen == Screen::Select ==> keys(screen).contains(("enter"@, "start"@)) && keys(screen).contains(
            ("c"@, "cache bypass"@),
        ),
        screen == Screen::Running ==> keys(screen).contains(("esc"@, "cancel"@)),
        screen == Screen::Results ==> keys(screen).contains(("r"@, "rerun"@)) && keys(screen).contains(
            ("esc"@, "back"@),
        ),
        0 <= i < list.len() ==> says(key_line(list, theme), " "@ + list[i].0 + " "@) && says(
            key_line(list, theme),
            list[i].1 + "   "@,
        ),
{
    let k = keys(screen);
    match screen {
        Screen::Select => {
            assert(k[4] == ("q"@, "quit"@) && k[3] == ("t"@, "theme"@));
            assert(k[1] == ("enter"@, "start"@) && k[2] == ("c"@, "cache bypass"@));
        },
        Screen::Running => {
            assert(k[2] == ("q"@, "quit"@) && k[1] == ("t"@, "theme"@) && k[0] == ("esc"@, "cancel"@));
        },
        Screen::Results => {
            assert(k[3] == ("q"@, "quit"@) && k[2] == ("t"@, "theme"@));
            assert(k[0] == ("r"@, "rerun"@) && k[1] == ("esc"@, "back"@));
        },
    }
    if 0 <= i < list.len() {
        lemma_key_line(list, theme, i);
        let line = key_line(list, theme);
        assert(line[2 * i].text == " "@ + list[i].0 + " "@);
        assert(line[2 * i + 1].text == list[i].1 + "   "@);
    }
}

proof fn lemma_key_line(list: Seq<(Seq<char>, Seq<char>)>, theme: Theme, i: int)
    requires
        0 <= i < list.len(),
    ensures
        key_line(list, theme).len() == 2 * list.len(),
        key_line(list, theme)[2 * i].text == " "@ + list[i].0 + " "@,
        key_line(list, theme)[2 * i + 1].text == list[i].1 + "   "@,
    decreases list.len(),
{
    let init = list.drop_last();
    if i < init.len() {
        lemma_key_line(init, theme, i);
        assert(init[i] == list[i]);
    } else if init.len() > 0 {
        lemma_key_line(init, theme, 0);
    } else {
        assert(key_line(init, theme).len() == 0);
    }
}

} // verus!
