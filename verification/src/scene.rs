//! One full frame: which widgets there are, what they hold and where they stand.

use ratatui::layout::{Constraint, Direction, Layout, Rect};
use ratatui::widgets::{Block, Borders, Padding};
use vstd::prelude::*;

use crate::app::{chosen, overall_progress, App, AppView, PassState, PassView, Screen};
use crate::bench::Status;
use crate::device::DeviceView;
use crate::double::{Double, Dyadic};
use crate::text::{lines, split_lines};
use crate::theme::{gauge_style, plain, selected_style, strong, unstyled, Style, Theme};
use crate::time::Duration;
use crate::ui::{
    details, details_lines, device_item, device_line, footer, header, header_line, key_line, keys, outcome_of,
    overall_label, overall_text, pass_label, pass_line, pass_outcome, result_cells, result_row, results_head,
    results_header, spark_data, spark_title, styled, summary, summary_lines, throughput, Outcome, OutcomeView, Span,
    SpanView,
};

verus! {

/// A rectangle of the terminal.
#[derive(Debug, Clone, Copy, PartialEq, Eq, Structural)]
pub struct Area {
    pub x: u16,
    pub y: u16,
    pub width: u16,
    pub height: u16,
}

/// How much of an area a part of it wants.
#[derive(Debug, Clone, Copy, PartialEq, Eq, Structural)]
pub enum Part {
    Length(u16),
    Min(u16),
    Percentage(u16),
}

/// Which way the parts of an area follow each other.
#[derive(Debug, Clone, Copy, PartialEq, Eq, Structural)]
pub enum Flow {
    /// From top to bottom.
    Down,
    /// From left to right.
    Across,
}

/// Whether a call of `Layout::split` of the `ratatui` crate on an area, a flow and
/// some parts has given these areas. It may give others another time.
pub uninterp spec fn split_gave(area: Area, flow: Flow, parts: Seq<Part>, areas: Seq<Area>) -> bool;

/// Whether areas are the outcome of splitting an area: one for each part, in the
/// columns of the whole where they follow each other downwards, and in its rows
/// where they do so across.
pub open spec fn parted(area: Area, flow: Flow, parts: Seq<Part>, areas: Seq<Area>) -> bool {
    &&& split_gave(area, flow, parts, areas)
    &&& areas.len() == parts.len()
    &&& flow == Flow::Down ==> forall|i: int|
        0 <= i < areas.len() ==> (#[trigger] areas[i]).x == area.x && areas[i].width == area.width
    &&& flow == Flow::Across ==> forall|i: int|
        0 <= i < areas.len() ==> (#[trigger] areas[i]).y == area.y && areas[i].height == area.height
}

/// The parts of an area, by `Layout::split` of the `ratatui` crate: one area for
/// each part, all in the same columns as the whole where they follow each other
/// downwards, and in the same rows where they do so across. That they came back for
/// this area, this flow and these parts is said by `split_gave`. Where a part
/// begins and how much it gets is not stated: the solver that decides that walks
/// hash maps whose order differs from run to run.
#[verifier::external_body]
fn split(area: Area, flow: Flow, parts: &Vec<Part>) -> (r: Vec<Area>)
    ensures
        split_gave(area, flow, parts@, r@),
        r@.len() == parts@.len(),
        flow == Flow::Down ==> forall|i: int|
            0 <= i < r@.len() ==> (#[trigger] r@[i]).x == area.x && r@[i].width == area.width,
        flow == Flow::Across ==> forall|i: int|
            0 <= i < r@.len() ==> (#[trigger] r@[i]).y == area.y && r@[i].height == area.height,
{
    let direction = match flow {
        Flow::Down => Direction::Vertical,
        Flow::Across => Direction::Horizontal,
    };
    let constraints = parts.iter().map(|p| match p {
        Part::Length(n) => Constraint::Length(*n),
        Part::Min(n) => Constraint::Min(*n),
        Part::Percentage(n) => Constraint::Percentage(*n),
    });
    let whole = Rect { x: area.x, y: area.y, width: area.width, height: area.height };
    let rects = Layout::new(direction, constraints).split(whole);
    rects.iter().map(|r| Area { x: r.x, y: r.y, width: r.width, height: r.height }).collect()
}

/// A sum held to the largest coordinate.
pub open spec fn held_sum(a: u16, b: u16) -> u16 {
    if a + b <= u16::MAX {
        (a + b) as u16
    } else {
        u16::MAX
    }
}

/// The smaller of two coordinates.
pub open spec fn lesser(a: u16, b: u16) -> u16 {
    if a <= b {
        a
    } else {
        b
    }
}

/// What a frame leaves of an area: all but a border around it and one column
/// more on either side.
pub open spec fn framed_area(a: Area) -> Area {
    Area {
        x: held_sum(lesser(held_sum(a.x, 1), held_sum(a.x, a.width)), 1),
        y: lesser(held_sum(a.y, 1), held_sum(a.y, a.height)),
        width: if a.width >= 4 {
            (a.width - 4) as u16
        } else {
            0
        },
        height: if a.height >= 2 {
            (a.height - 2) as u16
        } else {
            0
        },
    }
}

/// What a frame leaves of an area, by `Block::inner` of the `ratatui` crate for a
/// block with all borders and a horizontal padding of one: the border takes a
/// row or column on each side and the padding one more column on the left and on
/// the right, held to what there is.
#[verifier::external_body]
fn inside(area: Area) -> (r: Area)
    ensures
        r == framed_area(area),
{
    let whole = Rect { x: area.x, y: area.y, width: area.width, height: area.height };
    let r = Block::default()
        .borders(Borders::ALL)
        .padding(Padding::horizontal(1))
        .inner(whole);
    Area { x: r.x, y: r.y, width: r.width, height: r.height }
}

/// A border around a widget, with a title or without.
#[derive(Debug)]
pub struct Frame {
    pub title: Option<Span>,
    pub border: Style,
}

/// The values of a border.
pub ghost struct FrameView {
    pub title: Option<SpanView>,
    pub border: Style,
}

impl View for Frame {
    type V = FrameView;

    open spec fn view(&self) -> FrameView {
        FrameView { title: self.title.deep_view(), border: self.border }
    }
}

impl DeepView for Frame {
    type V = FrameView;

    open spec fn deep_view(&self) -> FrameView {
        self@
    }
}

/// A border with a title.
pub open spec fn titled(theme: Theme, title: Seq<char>) -> FrameView {
    FrameView {
        title: Some(styled(" "@ + title + " "@, strong(theme.heading))),
        border: plain(theme.border),
    }
}

/// A border without a title.
pub open spec fn untitled(theme: Theme) -> FrameView {
    FrameView { title: None, border: plain(theme.border) }
}

fn frame(theme: &Theme, title: &str) -> (r: Frame)
    ensures
        r@ == titled(*theme, title@),
{
    let mut s = " ".to_string();
    s.append(title);
    s.append(" ");
    Frame { title: Some(Span { text: s, style: theme.title() }), border: Style::plain(theme.border) }
}

/// What is shown in an area.
pub enum Widget {
    /// Lines of text, broken where they are too long where `wrap` is set.
    Text { lines: Vec<Vec<Span>>, style: Style, wrap: bool },
    /// Lines of which one may be selected, marked with a symbol.
    List { items: Vec<Vec<Span>>, selected: Option<usize>, highlight: Style, symbol: String },
    /// A bar that is filled in part.
    Gauge { style: Style, ratio: Double, label: String },
    /// Nothing, inside a border around other widgets.
    Blank,
    /// A history of numbers.
    Spark { data: Vec<u64>, style: Style },
    /// Rows of cells in columns of these widths.
    Table { header: Vec<Span>, rows: Vec<Vec<Span>>, widths: Vec<u16>, style: Style },
}

/// The values of a widget.
pub ghost enum WidgetView {
    Text { lines: Seq<Seq<SpanView>>, style: Style, wrap: bool },
    List {
        items: Seq<Seq<SpanView>>,
        selected: Option<usize>,
        highlight: Style,
        symbol: Seq<char>,
    },
    Gauge { style: Style, ratio: Dyadic, label: Seq<char> },
    Blank,
    Spark { data: Seq<u64>, style: Style },
    Table {
        header: Seq<SpanView>,
        rows: Seq<Seq<SpanView>>,
        widths: Seq<u16>,
        style: Style,
    },
}

impl View for Widget {
    type V = WidgetView;

    open spec fn view(&self) -> WidgetView {
        match self {
            Widget::Text { lines, style, wrap } => WidgetView::Text {
                lines: lines.deep_view(),
                style: *style,
                wrap: *wrap,
            },
            Widget::List { items, selected, highlight, symbol } => WidgetView::List {
                items: items.deep_view(),
                selected: *selected,
                highlight: *highlight,
                symbol: symbol@,
            },
            Widget::Gauge { style, ratio, label } => WidgetView::Gauge {
                style: *style,
                ratio: ratio@,
                label: label@,
            },
            Widget::Blank => WidgetView::Blank,
            Widget::Spark { data, style } => WidgetView::Spark {
                data: data@,
                style: *style,
            },
            Widget::Table { header, rows, widths, style } => WidgetView::Table {
                header: header.deep_view(),
                rows: rows.deep_view(),
                widths: widths@,
                style: *style,
            },
        }
    }
}

/// A widget in its area, with a border around it or without.
pub struct Placed {
    pub area: Area,
    pub frame: Option<Frame>,
    pub widget: Widget,
}

/// The values of a widget in its area.
pub ghost struct PlacedView {
    pub area: Area,
    pub frame: Option<FrameView>,
    pub widget: WidgetView,
}

impl View for Placed {
    type V = PlacedView;

    open spec fn view(&self) -> PlacedView {
        PlacedView { area: self.area, frame: self.frame.deep_view(), widget: self.widget@ }
    }
}

impl DeepView for Placed {
    type V = PlacedView;

    open spec fn deep_view(&self) -> PlacedView {
        self@
    }
}

/// A widget without a border in its area.
pub open spec fn at(area: Area, widget: WidgetView) -> PlacedView {
    PlacedView { area, frame: None, widget }
}

/// A widget with a border in its area.
pub open spec fn framed(area: Area, frame: FrameView, widget: WidgetView) -> PlacedView {
    PlacedView { area, frame: Some(frame), widget }
}

fn put(out: &mut Vec<Placed>, area: Area, widget: Widget)
    ensures
        final(out).deep_view() == old(out).deep_view().push(at(area, widget@)),
{
    let ghost before = out.deep_view();
    out.push(Placed { area, frame: None, widget });
    assert(out.deep_view() =~= before.push(at(area, widget@)));
}

fn put_framed(out: &mut Vec<Placed>, area: Area, frame: Frame, widget: Widget)
    ensures
        final(out).deep_view() == old(out).deep_view().push(framed(area, frame@, widget@)),
{
    let ghost before = out.deep_view();
    out.push(Placed { area, frame: Some(frame), widget });
    assert(out.deep_view() =~= before.push(framed(area, frame@, widget@)));
}

fn nothing() -> (r: Vec<Placed>)
    ensures
        r.deep_view() == Seq::<PlacedView>::empty(),
{
    let r: Vec<Placed> = Vec::new();
    assert(r.deep_view() =~= Seq::<PlacedView>::empty());
    r
}

/// One line without a border.
pub open spec fn bare_line(line: Seq<SpanView>) -> WidgetView {
    WidgetView::Text { lines: seq![line], style: unstyled(), wrap: false }
}

fn one_line(line: Vec<Span>) -> (r: Widget)
    ensures
        r@ == bare_line(line.deep_view()),
{
    let lines = vec![line];
    assert(lines.deep_view() =~= seq![line.deep_view()]);
    Widget::Text { lines, style: Style::unstyled(), wrap: false }
}

/// What is shown where there are no devices.
pub open spec fn hint_text() -> Seq<char> {
    "No block devices found.\n\nOn Linux this reads /sys/block; on macOS it uses diskutil.\nYou can also point the test at any path with --target <path>."@
}

/// What is shown where there are no devices.
pub open spec fn hint_widget(theme: Theme) -> WidgetView {
    WidgetView::Text {
        lines: lines(hint_text()).map_values(|l: Seq<char>| seq![styled(l, unstyled())]),
        style: plain(theme.fg),
        wrap: true,
    }
}

fn hint(theme: &Theme) -> (r: Widget)
    ensures
        r@ == hint_widget(*theme),
{
    let list = split_lines(
        "No block devices found.\n\nOn Linux this reads /sys/block; on macOS it uses diskutil.\nYou can also point the test at any path with --target <path>.",
    );
    let ghost texts = list.deep_view();
    let mut out: Vec<Vec<Span>> = Vec::new();
    let mut i: usize = 0;
    while i < list.len()
        invariant
            i <= list@.len(),
            texts == list.deep_view(),
            texts.len() == list@.len(),
            out@.len() == i,
            forall|k: int|
                0 <= k < i ==> (#[trigger] out@[k]).deep_view() == seq![styled(texts[k], unstyled())],
        decreases list@.len() - i,
    {
        assert(texts[i as int] == list@[i as int]@);
        let line = vec![Span::new(list[i].as_str(), Style::unstyled())];
        assert(line.deep_view() =~= seq![styled(texts[i as int], unstyled())]);
        out.push(line);
        i += 1;
    }
    assert(out.deep_view() =~= texts.map_values(|l: Seq<char>| seq![styled(l, unstyled())]));
    Widget::Text { lines: out, style: theme.text(), wrap: true }
}

/// The list of the picker.
pub open spec fn list_widget(a: AppView, readable: Seq<bool>) -> WidgetView {
    WidgetView::List {
        items: Seq::new(
            a.devices.len(),
            |i: int| device_line(a.devices[i], a.theme, readable[i]),
        ),
        selected: a.selected,
        highlight: selected_style(a.theme),
        symbol: "▌"@,
    }
}

/// What is said of a device.
pub open spec fn details_widget(d: DeviceView, theme: Theme, readable: bool, message: Option<Seq<char>>) -> WidgetView {
    WidgetView::Text {
        lines: details_lines(d, theme, readable, message),
        style: unstyled(),
        wrap: true,
    }
}

/// The picker in its areas: the whole of it without devices, else the list and
/// what is said of the selected one.
pub open spec fn picker(a: AppView, readable: Seq<bool>, whole: Area, left: Area, right: Area) -> Seq<PlacedView> {
    if a.devices.len() == 0 {
        seq![framed(whole, titled(a.theme, "Devices"@), hint_widget(a.theme))]
    } else {
        match chosen(a) {
            Some(d) => seq![
                framed(left, titled(a.theme, "Devices"@), list_widget(a, readable)),
                framed(
                    right,
                    titled(a.theme, "Details"@),
                    details_widget(d, a.theme, readable[a.selected->0 as int], a.message),
                ),
            ],
            None => seq![framed(left, titled(a.theme, "Devices"@), list_widget(a, readable))],
        }
    }
}

fn device_list(app: &App, readable: &Vec<bool>) -> (r: Widget)
    requires
        readable@.len() == app.devices@.len(),
    ensures
        r@ == list_widget(app@, readable@),
{
    let mut items: Vec<Vec<Span>> = Vec::new();
    let mut i: usize = 0;
    while i < app.devices.len()
        invariant
            i <= app.devices@.len() == readable@.len(),
            items@.len() == i,
            forall|k: int|
                0 <= k < i ==> (#[trigger] items@[k]).deep_view() == device_line(
                    app.devices@[k]@,
                    app.theme,
                    readable@[k],
                ),
        decreases app.devices@.len() - i,
    {
        items.push(device_item(&app.devices[i], &app.theme, readable[i]));
        i += 1;
    }
    assert(items.deep_view() =~= Seq::new(
        app@.devices.len(),
        |i: int| device_line(app@.devices[i], app@.theme, readable@[i]),
    ));
    Widget::List {
        items,
        selected: app.list.selected(),
        highlight: app.theme.selected(),
        symbol: "▌".to_string(),
    }
}

/// The picker in its areas. `readable` says of each device whether it can be
/// opened for reading.
pub fn select_scene(app: &App, readable: &Vec<bool>, whole: Area, left: Area, right: Area) -> (r: Vec<Placed>)
    requires
        readable@.len() == app.devices@.len(),
    ensures
        r.deep_view() == picker(app@, readable@, whole, left, right),
{
    assert(app.devices.deep_view().len() == app.devices@.len());
    let mut out = nothing();
    if app.devices.len() == 0 {
        put_framed(&mut out, whole, frame(&app.theme, "Devices"), hint(&app.theme));
    } else {
        put_framed(&mut out, left, frame(&app.theme, "Devices"), device_list(app, readable));
        if let Some(i) = app.list.selected() {
            if i < app.devices.len() {
                assert(app.devices.deep_view()[i as int] == app.devices@[i as int]@);
                let lines = details(&app.devices[i], &app.theme, readable[i], &app.message);
                put_framed(
                    &mut out,
                    right,
                    frame(&app.theme, "Details"),
                    Widget::Text { lines, style: Style::unstyled(), wrap: true },
                );
            }
        }
    }
    assert(out.deep_view() =~= picker(app@, readable@, whole, left, right));
    out
}

/// What stands behind the name of a pass.
pub open spec fn outcome_widget(v: PassState, theme: Theme) -> WidgetView {
    match outcome_of(v, theme) {
        OutcomeView::Note(s) => bare_line(seq![s]),
        OutcomeView::Gauge(label) => WidgetView::Gauge {
            style: gauge_style(theme),
            ratio: v.fraction,
            label,
        },
    }
}

/// The passes of a run, each in an area for its name and one for the rest.
pub open spec fn passes_placed(views: Seq<PassState>, theme: Theme, rows: Seq<(Area, Area)>) -> Seq<PlacedView>
    decreases views.len(),
{
    if views.len() == 0 {
        Seq::empty()
    } else {
        let n = views.len() - 1;
        passes_placed(views.drop_last(), theme, rows).push(
            at(rows[n].0, bare_line(pass_line(views[n], theme))),
        ).push(at(rows[n].1, outcome_widget(views[n], theme)))
    }
}

/// A run in its areas.
pub open spec fn running(a: AppView, now: Duration, top: Area, middle: Area, rows: Seq<(Area, Area)>, bottom: Area) -> Seq<
    PlacedView,
> {
    let theme = a.theme;
    (seq![
        framed(
            top,
            titled(theme, "Overall"@),
            WidgetView::Gauge {
                style: gauge_style(theme),
                ratio: overall_progress(a.views),
                label: overall_label(a, now),
            },
        ),
        framed(middle, titled(theme, "Passes"@), WidgetView::Blank),
    ] + passes_placed(a.views, theme, rows)).push(
        framed(
            bottom,
            titled(theme, spark_title(a.spark)),
            WidgetView::Spark { data: a.spark, style: plain(theme.accent) },
        ),
    )
}

fn put_pass(out: &mut Vec<Placed>, v: &PassView, theme: &Theme, row: (Area, Area))
    ensures
        final(out).deep_view() == old(out).deep_view().push(
            at(row.0, bare_line(pass_line(v@, *theme))),
        ).push(at(row.1, outcome_widget(v@, *theme))),
{
    put(out, row.0, one_line(pass_label(v, theme)));
    match pass_outcome(v, theme) {
        Outcome::Note(s) => {
            let line = vec![s];
            assert(line.deep_view() =~= seq![s@]);
            put(out, row.1, one_line(line));
        },
        Outcome::Gauge(label) => {
            put(
                out,
                row.1,
                Widget::Gauge { style: theme.gauge(), ratio: v.fraction.value(), label },
            );
        },
    }
}

/// A run in its areas, with a pair of them for each pass.
pub fn running_scene(
    app: &App,
    now: Duration,
    top: Area,
    middle: Area,
    rows: &Vec<(Area, Area)>,
    bottom: Area,
) -> (r: Vec<Placed>)
    requires
        rows@.len() == app.views@.len(),
    ensures
        r.deep_view() == running(app@, now, top, middle, rows@, bottom),
{
    let theme = app.theme;
    let mut out = nothing();
    put_framed(
        &mut out,
        top,
        frame(&theme, "Overall"),
        Widget::Gauge {
            style: theme.gauge(),
            ratio: app.overall(),
            label: overall_text(app, now),
        },
    );
    put_framed(&mut out, middle, frame(&theme, "Passes"), Widget::Blank);
    let ghost first = out.deep_view();
    let ghost all = app@.views;
    let mut i: usize = 0;
    assert(first + passes_placed(all.take(0), theme, rows@) =~= first);
    while i < app.views.len()
        invariant
            i <= app.views@.len() == rows@.len(),
            all == app.views.deep_view(),
            all.len() == app.views@.len(),
            out.deep_view() == first + passes_placed(all.take(i as int), theme, rows@),
        decreases app.views@.len() - i,
    {
        let ghost before = out.deep_view();
        assert(all.take(i + 1).drop_last() =~= all.take(i as int));
        assert(all.take(i + 1)[i as int] == app.views@[i as int]@);
        put_pass(&mut out, &app.views[i], &theme, rows[i]);
        assert(out.deep_view() =~= first + passes_placed(all.take(i + 1), theme, rows@));
        i += 1;
    }
    assert(all.take(i as int) =~= all);
    let data = spark_data(app);
    let title = throughput(&data);
    put_framed(
        &mut out,
        bottom,
        frame(&theme, title.as_str()),
        Widget::Spark { data, style: Style::plain(theme.accent) },
    );
    assert(out.deep_view() =~= running(app@, now, top, middle, rows@, bottom));
    out
}

/// Widths of the columns of the results.
pub open spec fn column_widths() -> Seq<u16> {
    seq![18, 6, 12, 8, 12, 10, 10, 9]
}

/// The results of a run in their areas.
pub open spec fn outcome(a: AppView, table: Area, below: Area) -> Seq<PlacedView> {
    let theme = a.theme;
    seq![
        framed(
            table,
            titled(theme, "Results"@),
            WidgetView::Table {
                header: results_head(theme),
                rows: a.views.map_values(|v: PassState| result_cells(v, theme)),
                widths: column_widths(),
                style: plain(theme.fg),
            },
        ),
        framed(
            below,
            titled(theme, "Summary"@),
            WidgetView::Text { lines: summary_lines(a), style: unstyled(), wrap: true },
        ),
    ]
}

/// The results of a run in their areas.
pub fn results_scene(app: &App, table: Area, below: Area) -> (r: Vec<Placed>)
    ensures
        r.deep_view() == outcome(app@, table, below),
{
    let theme = app.theme;
    let mut rows: Vec<Vec<Span>> = Vec::new();
    let mut i: usize = 0;
    while i < app.views.len()
        invariant
            i <= app.views@.len(),
            rows@.len() == i,
            forall|k: int|
                0 <= k < i ==> (#[trigger] rows@[k]).deep_view() == result_cells(app.views@[k]@, theme),
        decreases app.views@.len() - i,
    {
        rows.push(result_row(&app.views[i], &theme));
        i += 1;
    }
    assert(rows.deep_view() =~= app@.views.map_values(|v: PassState| result_cells(v, theme)));
    let widths: Vec<u16> = vec![18, 6, 12, 8, 12, 10, 10, 9];
    assert(widths@ =~= column_widths());
    let mut out = nothing();
    put_framed(
        &mut out,
        table,
        frame(&theme, "Results"),
        Widget::Table {
            header: results_header(&theme),
            rows,
            widths,
            style: theme.text(),
        },
    );
    put_framed(
        &mut out,
        below,
        frame(&theme, "Summary"),
        Widget::Text { lines: summary(app), style: Style::unstyled(), wrap: true },
    );
    assert(out.deep_view() =~= outcome(app@, table, below));
    out
}

/// How many passes were skipped or failed.
pub open spec fn notes(views: Seq<PassState>) -> nat
    decreases views.len(),
{
    if views.len() == 0 {
        0
    } else {
        let s = views.last().status;
        notes(views.drop_last()) + if s is Skipped || s is Failed {
            1nat
        } else {
            0nat
        }
    }
}

/// Rows of the summary: five and one for each note, and no more than leave six
/// for the table, but three at least.
pub open spec fn summary_rows(views: Seq<PassState>, height: u16) -> int {
    let most = if height >= 9 {
        height - 6
    } else {
        3
    };
    if 5 + notes(views) <= most {
        5int + notes(views)
    } else {
        most
    }
}

/// Rows of the summary. It grows to fit however many notes there are, so that a
/// run where everything was skipped still explains itself.
pub fn summary_height(app: &App, height: u16) -> (r: u16)
    requires
        notes(app@.views) <= u16::MAX - 5,
    ensures
        r == summary_rows(app@.views, height),
{
    let ghost all = app@.views;
    let mut count: usize = 0;
    let mut i: usize = 0;
    while i < app.views.len()
        invariant
            i <= app.views@.len(),
            all == app.views.deep_view(),
            all.len() == app.views@.len(),
            count == notes(all.take(i as int)),
            count <= i,
        decreases app.views@.len() - i,
    {
        assert(all.take(i + 1).drop_last() =~= all.take(i as int));
        assert(all.take(i + 1).last() == app.views@[i as int]@);
        match &app.views[i].status {
            Status::Skipped(_) => {
                count = count + 1;
            },
            Status::Failed(_) => {
                count = count + 1;
            },
            _ => {},
        }
        i += 1;
    }
    assert(all.take(i as int) =~= all);
    let most: u16 = if height >= 9 {
        height - 6
    } else {
        3
    };
    let wanted: u16 = 5 + count as u16;
    if wanted <= most {
        wanted
    } else {
        most
    }
}

/// How a frame is parted: a line in a border at the top, the screen that is
/// shown, and a line at the bottom.
pub open spec fn frame_parts() -> Seq<Part> {
    seq![Part::Length(3), Part::Min(6), Part::Length(1)]
}

/// How the picker is parted: the list and what is said of the selected device.
pub open spec fn picker_parts() -> Seq<Part> {
    seq![Part::Percentage(58), Part::Percentage(42)]
}

/// How a run is parted: the overall gauge, the passes and the sparkline.
pub open spec fn run_parts() -> Seq<Part> {
    seq![Part::Length(3), Part::Min(6), Part::Length(7)]
}

/// How the passes of a run are parted: two rows for each.
pub open spec fn pass_parts(count: nat) -> Seq<Part> {
    Seq::new(count, |i: int| Part::Length(2))
}

/// How the rows of a pass are parted: its name and what stands behind it.
pub open spec fn pass_columns() -> Seq<Part> {
    seq![Part::Length(24), Part::Min(10)]
}

/// How the results are parted: the table and the summary.
pub open spec fn results_parts(summary: u16) -> Seq<Part> {
    seq![Part::Min(4), Part::Length(summary)]
}

/// Whether a pair of areas is what the rows of a pass are parted into.
pub open spec fn pass_pair(row: Area, pair: (Area, Area)) -> bool {
    exists|c: Seq<Area>| #[trigger] parted(row, Flow::Across, pass_columns(), c) && pair == (c[0], c[1])
}

/// Whether each pass has a pair of areas from its own rows inside the border of
/// the middle part of a run.
pub open spec fn pass_areas(middle: Area, count: nat, pairs: Seq<(Area, Area)>) -> bool {
    &&& pairs.len() == count
    &&& exists|rows: Seq<Area>|
        {
            &&& #[trigger] parted(framed_area(middle), Flow::Down, pass_parts(count), rows)
            &&& forall|i: int| 0 <= i < count ==> pass_pair(rows[i], #[trigger] pairs[i])
        }
}

/// Whether these are the widgets of the screen that is shown, in the parts of an
/// area that belong to them.
pub open spec fn body(a: AppView, readable: Seq<bool>, now: Duration, area: Area, shown: Seq<PlacedView>) -> bool {
    match a.screen {
        Screen::Select => exists|h: Seq<Area>| #[trigger]
            parted(area, Flow::Across, picker_parts(), h) && shown == picker(a, readable, area, h[0], h[1]),
        Screen::Running => exists|p: Seq<Area>, pairs: Seq<(Area, Area)>|
            {
                &&& #[trigger] parted(area, Flow::Down, run_parts(), p)
                &&& #[trigger] pass_areas(p[1], a.views.len(), pairs)
                &&& shown == running(a, now, p[0], p[1], pairs, p[2])
            },
        Screen::Results => exists|p: Seq<Area>| #[trigger]
            parted(area, Flow::Down, results_parts(summary_rows(a.views, area.height) as u16), p) && shown
                == outcome(a, p[0], p[1]),
    }
}

/// A full frame: a line at the top, the screen that is shown, and a line at the
/// bottom.
pub open spec fn whole_frame(a: AppView, top: Area, shown: Seq<PlacedView>, bottom: Area) -> Seq<PlacedView> {
    (seq![framed(top, untitled(a.theme), bare_line(header_line(a)))] + shown).push(
        at(bottom, bare_line(key_line(keys(a.screen), a.theme))),
    )
}

/// Whether these are the widgets of a full frame, in the parts of an area that
/// belong to them.
pub open spec fn drawn(a: AppView, readable: Seq<bool>, now: Duration, area: Area, all: Seq<PlacedView>) -> bool {
    exists|p: Seq<Area>, shown: Seq<PlacedView>|
        {
            &&& #[trigger] parted(area, Flow::Down, frame_parts(), p)
            &&& #[trigger] body(a, readable, now, p[1], shown)
            &&& all == whole_frame(a, p[0], shown, p[2])
        }
}

fn pass_rows(app: &App, middle: Area) -> (r: Vec<(Area, Area)>)
    ensures
        pass_areas(middle, app@.views.len(), r@),
{
    let ghost count = app@.views.len();
    assert(count == app.views@.len());
    let mut parts: Vec<Part> = Vec::new();
    let mut i: usize = 0;
    while i < app.views.len()
        invariant
            i <= app.views@.len(),
            parts@.len() == i,
            forall|k: int| 0 <= k < i ==> #[trigger] parts@[k] == Part::Length(2),
        decreases app.views@.len() - i,
    {
        parts.push(Part::Length(2));
        i += 1;
    }
    assert(parts@ =~= pass_parts(count));
    let rows = split(inside(middle), Flow::Down, &parts);
    let mut out: Vec<(Area, Area)> = Vec::new();
    let mut j: usize = 0;
    while j < rows.len()
        invariant
            j <= rows@.len(),
            out@.len() == j,
            forall|k: int| 0 <= k < j ==> pass_pair(rows@[k], #[trigger] out@[k]),
        decreases rows@.len() - j,
    {
        let wish = vec![Part::Length(24), Part::Min(10)];
        assert(wish@ =~= pass_columns());
        let columns = split(rows[j], Flow::Across, &wish);
        assert(parted(rows@[j as int], Flow::Across, pass_columns(), columns@));
        out.push((columns[0], columns[1]));
        j += 1;
    }
    assert(parted(framed_area(middle), Flow::Down, pass_parts(count), rows@));
    out
}

fn draw_body(app: &App, readable: &Vec<bool>, now: Duration, area: Area) -> (r: Vec<Placed>)
    requires
        readable@.len() == app.devices@.len(),
        app@.screen == Screen::Results ==> notes(app@.views) <= u16::MAX - 5,
    ensures
        body(app@, readable@, now, area, r.deep_view()),
{
    match app.screen {
        Screen::Select => {
            let wish = vec![Part::Percentage(58), Part::Percentage(42)];
            assert(wish@ =~= picker_parts());
            let halves = split(area, Flow::Across, &wish);
            assert(parted(area, Flow::Across, picker_parts(), halves@));
            let r = select_scene(app, readable, area, halves[0], halves[1]);
            assert(body(app@, readable@, now, area, r.deep_view()));
            r
        },
        Screen::Running => {
            let wish = vec![Part::Length(3), Part::Min(6), Part::Length(7)];
            assert(wish@ =~= run_parts());
            let parts = split(area, Flow::Down, &wish);
            assert(parted(area, Flow::Down, run_parts(), parts@));
            let rows = pass_rows(app, parts[1]);
            assert(pass_areas(parts@[1], app@.views.len(), rows@));
            let r = running_scene(app, now, parts[0], parts[1], &rows, parts[2]);
            assert(body(app@, readable@, now, area, r.deep_view()));
            r
        },
        Screen::Results => {
            let height: u16 = summary_height(app, area.height);
            assert(height == summary_rows(app@.views, area.height) as u16);
            let wish = vec![Part::Min(4), Part::Length(height)];
            assert(wish@ =~= results_parts(height));
            let parts = split(area, Flow::Down, &wish);
            assert(parted(area, Flow::Down, results_parts(height), parts@));
            let r = results_scene(app, parts[0], parts[1]);
            assert(body(app@, readable@, now, area, r.deep_view()));
            r
        },
    }
}

/// A full frame for an area. What is shown is fixed by the application, and so
/// are the parts that are asked for and which widget goes into which of them;
/// only where these parts come to lie rests on the layout of the terminal.
pub fn draw(app: &App, readable: &Vec<bool>, now: Duration, area: Area) -> (r: Vec<Placed>)
    requires
        readable@.len() == app.devices@.len(),
        app@.screen == Screen::Results ==> notes(app@.views) <= u16::MAX - 5,
    ensures
        drawn(app@, readable@, now, area, r.deep_view()),
{
    let wish = vec![Part::Length(3), Part::Min(6), Part::Length(1)];
    assert(wish@ =~= frame_parts());
    let parts = split(area, Flow::Down, &wish);
    assert(parted(area, Flow::Down, frame_parts(), parts@));
    let mut out = nothing();
    put_framed(
        &mut out,
        parts[0],
        Frame { title: None, border: Style::plain(app.theme.border) },
        one_line(header(app)),
    );
    let ghost first = out.deep_view();
    let mut middle = draw_body(app, readable, now, parts[1]);
    let ghost shown = middle.deep_view();
    assert(body(app@, readable@, now, parts@[1], shown));
    let ghost had = out@;
    let ghost list = middle@;
    out.append(&mut middle);
    assert(out@ =~= had + list);
    assert(out.deep_view() =~= first + shown);
    put(&mut out, parts[2], one_line(footer(app.screen, &app.theme)));
    assert(out.deep_view() =~= whole_frame(app@, parts@[0], shown, parts@[2]));
    out
}

/// The picker shows every device in its list, in the order of the list, and what
/// is said beside it is said of the selected one.
pub proof fn law_picker_shows_every_device(a: AppView, readable: Seq<bool>, whole: Area, left: Area, right: Area, i: int)
    requires
        0 <= i < a.devices.len(),
        readable.len() == a.devices.len(),
    ensures
        ({
            let shown = picker(a, readable, whole, left, right);
            &&& shown.len() >= 1
            &&& shown[0].area == left
            &&& shown[0].widget is List
            &&& shown[0].widget->items.len() == a.devices.len()
            &&& shown[0].widget->items[i] == device_line(a.devices[i], a.theme, readable[i])
            &&& shown[0].widget->selected == a.selected
            &&& a.selected == Some(i as usize) && i <= usize::MAX ==> {
                &&& shown.len() == 2
                &&& shown[1].area == right
                &&& shown[1].widget is Text
                &&& shown[1].widget->Text_lines == details_lines(
                    a.devices[i],
                    a.theme,
                    readable[i],
                    a.message,
                )
            }
        }),
{
}

proof fn lemma_passes_placed(views: Seq<PassState>, theme: Theme, rows: Seq<(Area, Area)>, i: int)
    requires
        0 <= i < views.len() <= rows.len(),
    ensures
        passes_placed(views, theme, rows).len() == 2 * views.len(),
        passes_placed(views, theme, rows)[2 * i] == at(rows[i].0, bare_line(pass_line(views[i], theme))),
        passes_placed(views, theme, rows)[2 * i + 1] == at(rows[i].1, outcome_widget(views[i], theme)),
    decreases views.len(),
{
    let init = views.drop_last();
    if i < init.len() {
        lemma_passes_placed(init, theme, rows, i);
        assert(init[i] == views[i]);
    } else if init.len() > 0 {
        lemma_passes_placed(init, theme, rows, 0);
    } else {
        assert(passes_placed(init, theme, rows).len() == 0);
    }
}

/// A run shows each of its passes in the rows of that pass: its name, and how far
/// it has come or what came of it; above them how far the whole has come, and
/// below them the history of its rate.
pub proof fn law_run_shows_every_pass(
    a: AppView,
    now: Duration,
    top: Area,
    middle: Area,
    rows: Seq<(Area, Area)>,
    bottom: Area,
    i: int,
)
    requires
        0 <= i < a.views.len() == rows.len(),
    ensures
        ({
            let shown = running(a, now, top, middle, rows, bottom);
            &&& shown.len() == 2 * a.views.len() + 3
            &&& shown[0].area == top && shown[0].widget is Gauge
            &&& shown[0].widget->ratio == overall_progress(a.views)
            &&& shown[2 + 2 * i] == at(rows[i].0, bare_line(pass_line(a.views[i], a.theme)))
            &&& shown[3 + 2 * i].area == rows[i].1
            &&& shown[3 + 2 * i].widget matches WidgetView::Gauge { ratio, .. } ==> ratio == a.views[i].fraction
            &&& a.views[i].status is Running || a.views[i].status is Pending || a.views[i].status is Done
                ==> shown[3 + 2 * i].widget is Gauge
            &&& a.views[i].status is Skipped || a.views[i].status is Failed ==> shown[3 + 2 * i].widget is Text
            &&& shown.last().area == bottom && shown.last().widget is Spark
            &&& shown.last().widget->data == a.spark
        }),
{
    lemma_passes_placed(a.views, a.theme, rows, i);
}

/// The results show a row for every pass, under as many headings as there are
/// columns, and the summary below them.
pub proof fn law_results_show_every_pass(a: AppView, table: Area, below: Area, i: int)
    requires
        0 <= i < a.views.len(),
    ensures
        ({
            let shown = outcome(a, table, below);
            &&& shown.len() == 2
            &&& shown[0].area == table && shown[0].widget is Table
            &&& shown[0].widget->rows.len() == a.views.len()
            &&& shown[0].widget->rows[i] == result_cells(a.views[i], a.theme)
            &&& shown[0].widget->header == results_head(a.theme)
            &&& shown[0].widget->widths.len() == shown[0].widget->header.len()
            &&& shown[1].area == below && shown[1].widget is Text
            &&& shown[1].widget->Text_lines == summary_lines(a)
            &&& shown[1].widget->wrap
        }),
{
}

proof fn lemma_notes(views: Seq<PassState>)
    ensures
        notes(views) <= views.len(),
    decreases views.len(),
{
    if views.len() > 0 {
        lemma_notes(views.drop_last());
    }
}

/// The summary has a row for every pass that was skipped or failed and five more,
/// where there is room for these; it never has fewer than three, and leaves six
/// to the table where it can.
pub proof fn law_summary_has_room_for_its_notes(views: Seq<PassState>, v: PassState, height: u16)
    ensures
        summary_rows(views, height) >= 3,
        summary_rows(views, height) <= 5 + notes(views),
        height >= 9 ==> summary_rows(views, height) + 6 <= height,
        notes(views) + 11 <= height ==> summary_rows(views, height) == 5 + notes(views),
        v.status is Skipped || v.status is Failed ==> notes(views.push(v)) == notes(views) + 1,
        v.status is Done || v.status is Pending || v.status is Running ==> notes(views.push(v)) == notes(views),
        notes(Seq::empty()) == 0,
        notes(views) <= views.len(),
{
    lemma_notes(views);
    assert(views.push(v).drop_last() =~= views);
}

/// A frame shows the line at the top first, then the screen, and the line at the
/// bottom last, which names the keys of that screen.
pub proof fn law_frames_end_with_their_keys(a: AppView, top: Area, shown: Seq<PlacedView>, bottom: Area)
    ensures
        ({
            let all = whole_frame(a, top, shown, bottom);
            &&& all.len() == shown.len() + 2
            &&& all[0].area == top && all[0].widget == bare_line(header_line(a))
            &&& all.subrange(1, all.len() - 1) == shown
            &&& all.last().area == bottom && all.last().widget == bare_line(
                key_line(keys(a.screen), a.theme),
            )
        }),
{
    let all = whole_frame(a, top, shown, bottom);
    assert(all.subrange(1, all.len() - 1) =~= shown);
}

} // verus!
