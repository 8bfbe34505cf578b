use blkspeed::app::{App, PassView, Screen};
use blkspeed::bench::{PassKind, PassResult, Status};
use blkspeed::device::{Device, Kind, Mount};
use blkspeed::double::Double;
use blkspeed::meter::fraction;
use blkspeed::scene::{draw, Area, Frame, Placed, Widget};
use blkspeed::theme::{Color, Mode, Style};
use blkspeed::time::Duration;
use blkspeed::ui::Span;
use ratatui::backend::TestBackend;
use ratatui::layout::{Constraint, Rect};
use ratatui::text::Line;
use ratatui::widgets::{
    Block, Borders, Cell, Gauge, List, ListItem, ListState, Padding, Paragraph, Row, Sparkline, Table, Wrap,
};
use ratatui::Terminal;

fn device(mounted: bool) -> Device {
    Device {
        name: "nvme0n1".to_string(),
        path: "/dev/nvme0n1".to_string(),
        kind: Kind::Disk,
        size: 1 << 40,
        model: "Test SSD".to_string(),
        rotational: Some(false),
        removable: false,
        mount: if mounted {
            Some(Mount {
                path: "/".to_string(),
                fstype: "ext4".to_string(),
                writable: true,
                free: 100 << 30,
            })
        } else {
            None
        },
        mount_inherited: mounted,
    }
}

fn app() -> App {
    let mut a = App::new(
        vec![device(true), device(false)],
        Mode::Dark,
        true,
        Duration::from_secs(40),
    );
    a.views = PassKind::all().into_iter().map(PassView::new).collect();
    a
}

fn color(c: Color) -> ratatui::style::Color {
    match c {
        Color::Reset => ratatui::style::Color::Reset,
        Color::Red => ratatui::style::Color::Red,
        Color::Green => ratatui::style::Color::Green,
        Color::Blue => ratatui::style::Color::Blue,
        Color::Magenta => ratatui::style::Color::Magenta,
        Color::Cyan => ratatui::style::Color::Cyan,
        Color::Gray => ratatui::style::Color::Gray,
        Color::DarkGray => ratatui::style::Color::DarkGray,
        Color::LightRed => ratatui::style::Color::LightRed,
        Color::LightGreen => ratatui::style::Color::LightGreen,
        Color::LightYellow => ratatui::style::Color::LightYellow,
        Color::LightCyan => ratatui::style::Color::LightCyan,
    }
}

fn style(s: Style) -> ratatui::style::Style {
    let mut out = ratatui::style::Style::default();
    if let Some(c) = s.fg {
        out = out.fg(color(c));
    }
    if let Some(c) = s.bg {
        out = out.bg(color(c));
    }
    if s.bold {
        out = out.add_modifier(ratatui::style::Modifier::BOLD);
    }
    if s.reversed {
        out = out.add_modifier(ratatui::style::Modifier::REVERSED);
    }
    out
}

fn span(s: &Span) -> ratatui::text::Span<'static> {
    ratatui::text::Span::styled(s.text.clone(), style(s.style))
}

fn line(spans: &[Span]) -> Line<'static> {
    Line::from(spans.iter().map(span).collect::<Vec<_>>())
}

fn block(frame: &Option<Frame>) -> Block<'static> {
    match frame {
        None => Block::default(),
        Some(f) => {
            let b = Block::default()
                .borders(Borders::ALL)
                .border_style(style(f.border))
                .padding(Padding::horizontal(1));
            match &f.title {
                Some(t) => b.title(span(t)),
                None => b,
            }
        }
    }
}

fn float(x: Double) -> f64 {
    let (mant, exp) = x.parts();
    mant as f64 * 2f64.powi(exp)
}

fn show(f: &mut ratatui::Frame, p: &Placed) {
    let area = Rect { x: p.area.x, y: p.area.y, width: p.area.width, height: p.area.height };
    let block = block(&p.frame);
    match &p.widget {
        Widget::Text { lines, style: s, wrap } => {
            let text = Paragraph::new(lines.iter().map(|l| line(l)).collect::<Vec<_>>()).style(style(*s)).block(block);
            if *wrap {
                f.render_widget(text.wrap(Wrap { trim: false }), area);
            } else {
                f.render_widget(text, area);
            }
        }
        Widget::List { items, selected, highlight, symbol } => {
            let list = List::new(items.iter().map(|l| ListItem::new(line(l))).collect::<Vec<_>>())
                .block(block)
                .highlight_style(style(*highlight))
                .highlight_symbol(symbol.as_str());
            let mut state = ListState::default();
            state.select(*selected);
            f.render_stateful_widget(list, area, &mut state);
        }
        Widget::Gauge { style: s, ratio, label } => {
            f.render_widget(
                Gauge::default().block(block).gauge_style(style(*s)).ratio(float(*ratio)).label(label.clone()),
                area,
            );
        }
        Widget::Blank => f.render_widget(block, area),
        Widget::Spark { data, style: s } => {
            f.render_widget(Sparkline::default().block(block).data(data.clone()).style(style(*s)), area);
        }
        Widget::Table { header, rows, widths, style: s } => {
            let cells = |r: &Vec<Span>| Row::new(r.iter().map(|c| Cell::from(span(c))).collect::<Vec<_>>());
            let widths: Vec<Constraint> = widths.iter().map(|w| Constraint::Length(*w)).collect();
            f.render_widget(
                Table::new(rows.iter().map(cells).collect::<Vec<_>>(), widths)
                    .header(cells(header))
                    .column_spacing(1)
                    .style(style(*s))
                    .block(block),
                area,
            );
        }
    }
}

fn render(app: &App, width: u16, height: u16) -> String {
    let readable: Vec<bool> = app.devices.iter().map(|_| false).collect();
    let now = Duration::from_secs(100);
    let mut terminal = Terminal::new(TestBackend::new(width, height)).unwrap();
    terminal
        .draw(|f| {
            let area = f.area();
            let area = Area { x: area.x, y: area.y, width: area.width, height: area.height };
            for p in draw(app, &readable, now, area).iter() {
                show(f, p);
            }
        })
        .unwrap();
    terminal
        .backend()
        .buffer()
        .content()
        .iter()
        .map(|c| c.symbol())
        .collect()
}

#[test]
fn selection_screen_shows_devices_and_the_write_target() {
    let a = app();
    let out = render(&a, 130, 40);
    assert!(out.contains("nvme0n1"));
    assert!(out.contains("Test SSD"));
    // The non-destructive contract must be visible, not just documented.
    assert!(out.contains("removed afterwards"));
    assert!(out.contains("read-only"));
}

#[test]
fn unwritable_devices_say_the_write_test_is_skipped() {
    let mut a = app();
    a.list.select(Some(1));
    let out = render(&a, 130, 40);
    assert!(out.contains("no writable filesystem"));
}

#[test]
fn running_screen_shows_progress_and_live_rates() {
    let mut a = app();
    a.screen = Screen::Running;
    a.started = Some(Duration::from_secs(100));
    a.views[0].status = Status::Running;
    a.views[0].fraction = fraction(Duration::from_secs(1), Duration::from_secs(2));
    a.views[0].rate_now = Double::from_u64(1_500_000_000);
    a.spark.extend([1u64, 5, 3, 9]);

    let out = render(&a, 130, 40);
    assert!(out.contains("Sequential read"));
    assert!(out.contains("1.50 GB/s"));
}

#[test]
fn results_screen_reports_rates_and_skips() {
    let mut a = app();
    a.screen = Screen::Results;
    a.finished = Some(Duration::from_secs(38));
    a.views[0].status = Status::Done;
    a.views[0].result = Some(PassResult {
        kind: PassKind::SeqRead,
        block_size: 4 << 20,
        bytes: 10 << 30,
        ops: 2560,
        elapsed: Duration::from_secs(10),
        avg_latency: Duration { nanos: 3_900_000 },
        max_latency: Duration::from_millis(12),
        direct: true,
        status: Status::Done,
    });
    a.views[2].status = Status::Skipped("read-only filesystem".to_string());

    let out = render(&a, 130, 40);
    assert!(
        out.contains("1.07 GB/s"),
        "expected the sequential read rate"
    );
    assert!(out.contains("bypassed"));
    assert!(out.contains("read-only filesystem"));
}

#[test]
fn buffered_results_carry_a_warning() {
    let mut a = app();
    a.screen = Screen::Results;
    let r = PassResult {
        kind: PassKind::SeqRead,
        block_size: 4 << 20,
        bytes: 1 << 30,
        ops: 256,
        elapsed: Duration::from_secs(1),
        avg_latency: Duration { nanos: 100_000 },
        max_latency: Duration { nanos: 900_000 },
        direct: false,
        status: Status::Done,
    };
    a.views[0].status = Status::Done;
    a.views[0].result = Some(r.clone());
    let out = render(&a, 130, 40);
    assert!(
        out.contains("page cache"),
        "must not pass off cached numbers"
    );
    assert!(out.contains("buffered"));
    let mut direct = r;
    direct.direct = true;
    a.views[0].result = Some(direct);
    assert!(!render(&a, 130, 40).contains("page cache"));
}

#[test]
fn every_screen_survives_a_tiny_terminal() {
    // Layout maths and gauge ratios both panic on bad input, and a user
    // resizing the window must never take the process down mid-run.
    for screen in [Screen::Select, Screen::Running, Screen::Results] {
        for (w, h) in [(20, 5), (1, 1), (40, 8), (200, 60)] {
            let mut a = app();
            a.screen = screen;
            a.started = Some(Duration::from_secs(100));
            render(&a, w, h);
        }
    }
}

#[test]
fn an_empty_device_list_renders_guidance() {
    let a = App::new(Vec::new(), Mode::Light, true, Duration::from_secs(40));
    let out = render(&a, 100, 30);
    assert!(out.contains("No block devices found"));
    assert!(out.contains("--target"));
}

fn texts(app: &App, readable: bool, area: Area) -> Vec<String> {
    let readable: Vec<bool> = app.devices.iter().map(|_| readable).collect();
    draw(app, &readable, Duration::from_secs(107), area)
        .iter()
        .map(|p| match &p.widget {
            Widget::Text { lines, .. } => {
                let rows: Vec<String> =
                    lines.iter().map(|l| l.iter().map(|s| s.text.as_str()).collect::<String>()).collect();
                rows.join("\n")
            }
            Widget::List { items, .. } => {
                let rows: Vec<String> =
                    items.iter().map(|l| l.iter().map(|s| s.text.as_str()).collect::<String>()).collect();
                rows.join("\n")
            }
            Widget::Gauge { label, .. } => label.clone(),
            Widget::Blank => "".to_string(),
            Widget::Spark { data, .. } => format!("{:?}", data),
            Widget::Table { rows, .. } => {
                let rows: Vec<String> = rows
                    .iter()
                    .map(|l| l.iter().map(|s| s.text.clone()).collect::<Vec<_>>().join("|"))
                    .collect();
                rows.join("\n")
            }
        })
        .collect()
}

const WHOLE: Area = Area { x: 0, y: 0, width: 130, height: 40 };

#[test]
fn the_picker_says_exactly_this() {
    let mut a = app();
    a.message = Some("hello".to_string());
    let out = texts(&a, false, WHOLE);
    assert_eq!(
        out[0],
        "blkspeed  non-destructive disk speed test   I/O: direct (cache bypassed)   budget: 40.0s   theme: dark"
    );
    assert_eq!(
        out[1],
        "nvme0n1      1.00 TiB  SSD   / 🔒 needs root\nnvme0n1      1.00 TiB  SSD   🔒 needs root"
    );
    assert_eq!(
        out[2],
        "Device      /dev/nvme0n1\nModel       Test SSD\nCapacity    1.00 TiB\nMedia       SSD\nFilesystem  /\nFilesystem  ext4\nFree space  100 GiB\n\nWrite test: temporary file, removed afterwards\n  //.blkspeed-scratch  (1.00 GiB)\nRead test: raw device, opened read-only\n\n⚠ no read permission on /dev/nvme0n1 — try running with sudo\n\nhello"
    );
    assert_eq!(out[3], " ↑/↓ select    enter start    c cache bypass    t theme    q quit   ");
}

#[test]
fn a_run_says_exactly_this() {
    let mut a = app();
    a.screen = Screen::Running;
    a.started = Some(Duration::from_secs(100));
    a.phase = "Sequential read".to_string();
    a.views[0].status = Status::Running;
    a.views[0].fraction = fraction(Duration::from_secs(1), Duration::from_secs(2));
    a.views[0].rate_now = Double::from_u64(1_500_000_000);
    a.views[0].bytes = 1 << 30;
    a.views[1].status = Status::Failed("I/O error".to_string());
    a.views[2].status = Status::Skipped("not here".to_string());
    a.spark.extend([1u64, 5, 3, 9]);
    let out = texts(&a, true, WHOLE);
    assert_eq!(out[1], "62%  ·  7.0s elapsed  ·  Sequential read");
    assert_eq!(&out[3..5], ["● Sequential read 4M", "1.50 GB/s  (1.00 GiB so far)"]);
    assert_eq!(&out[5..7], ["✗ Random read 4K", "I/O error"]);
    assert_eq!(&out[7..9], ["– Sequential write 4M", "not here"]);
    assert_eq!(&out[9..11], ["○ Random write 4K", "—  (0.00 B so far)"]);
    assert_eq!(out[11], "[1, 5, 3, 9]");
    assert_eq!(out[12], " esc cancel    t theme    q quit   ");
}

#[test]
fn results_say_exactly_this() {
    let mut a = app();
    a.screen = Screen::Results;
    a.finished = Some(Duration::from_secs(38));
    let mut r = PassResult::empty(PassKind::SeqRead, Status::Done);
    r.bytes = 10 << 30;
    r.ops = 2560;
    r.elapsed = Duration::from_secs(10);
    r.avg_latency = Duration { nanos: 3_900_000 };
    r.max_latency = Duration::from_millis(12);
    a.views[0].status = Status::Done;
    a.views[0].result = Some(r);
    a.views[1].status = Status::Failed("I/O error".to_string());
    let out = texts(&a, true, WHOLE);
    assert_eq!(
        out[1],
        "Sequential read|4M|1.07 GB/s|256|10.0 GiB|3.90 ms|12.00 ms|buffered\nRandom read|4K|failed\nSequential write|4M|not run\nRandom write|4K|not run"
    );
    assert_eq!(
        out[2],
        "Device      /dev/nvme0n1 — Test SSD\nTotal time  38.0s\nSequential  read 1.07 GB/s   write —\nRandom read: I/O error\n⚠ some passes fell back to buffered I/O — those figures include the page cache"
    );
    assert_eq!(out[3], " r rerun    esc back    t theme    q quit   ");
}

#[test]
fn the_throughput_title_has_the_peak() {
    let mut a = app();
    a.screen = Screen::Running;
    a.spark.extend([1u64, 5_000, 3]);
    let readable = vec![true, true];
    let placed = draw(&a, &readable, Duration::zero(), WHOLE);
    let title = placed[placed.len() - 2].frame.as_ref().unwrap().title.as_ref().unwrap().text.clone();
    assert_eq!(title, " Throughput  (peak 5.00 MB/s) ");
}

#[test]
fn areas_are_parts_of_the_terminal() {
    let mut a = app();
    a.screen = Screen::Running;
    let placed = draw(&a, &vec![true, true], Duration::zero(), WHOLE);
    let area = |i: usize| (placed[i].area.x, placed[i].area.y, placed[i].area.width, placed[i].area.height);
    assert_eq!(area(0), (0, 0, 130, 3));
    assert_eq!(area(1), (0, 3, 130, 3));
    assert_eq!(area(2), (0, 6, 130, 26));
    // Inside the border and its padding.
    assert_eq!(area(3), (2, 7, 24, 2));
    assert_eq!(area(4), (26, 7, 102, 2));
    assert_eq!(area(12), (0, 39, 130, 1));
    a.screen = Screen::Results;
    let placed = draw(&a, &vec![true, true], Duration::zero(), WHOLE);
    assert_eq!(placed[2].area.height, 5);
    a.views[0].status = Status::Skipped("x".to_string());
    let placed = draw(&a, &vec![true, true], Duration::zero(), WHOLE);
    assert_eq!(placed[2].area.height, 6);
}
