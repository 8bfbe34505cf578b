//! Application state and input handling, free of rendering and terminal
//! concerns. Where something has to be done outside, a method says so in its
//! result.

use std::collections::VecDeque;

use vstd::arithmetic::power2::lemma2_to64;
use vstd::prelude::*;

use crate::bench::{
    all_passes, copy_passes, label, law_passes_are_told_apart, Config, ConfigView, Msg, MsgView, PassKind, PassResult, ResultView, Status, StatusView,
};
use crate::device::{obstacle, scratch_dir, Device, DeviceView};
use crate::double::{
    at_least, at_most_one, close, law_quotients_are_close, law_sums_are_close, law_sums_of_parts_stay_small,
    lemma_close_adds, lemma_close_follows, lemma_close_quotient, lemma_close_widens, lemma_integer_size,
    lemma_value_sign, one, quotient, rounded, small, sum, value_of, whole_part, zero, Double, Dyadic, Share,
};
use crate::format::lemma_divided;
use crate::meter::since;
use crate::ratio::{lemma_nothing, lemma_ratio_sign};
use crate::text::{lower, to_lower};
use crate::theme::{other, palette, Mode, Theme};
use crate::time::{lemma_count_is_close, Duration};
use crate::worker::{course, fitting, law_every_pass_is_reported_in_order, WorkerView};

verus! {

/// Points kept for the live throughput sparkline (~15s at one point per frame
/// pair, which is enough to show the shape of a pass without scrolling).
pub const SPARK_LEN: usize = 120;

/// What is shown.
#[derive(Debug, Clone, Copy, PartialEq, Eq, Structural)]
pub enum Screen {
    Select,
    Running,
    Results,
}

/// Which item of a list is selected.
#[derive(Debug, Clone, Copy, PartialEq, Eq, Structural)]
pub struct ListState {
    pub selected: Option<usize>,
}

impl ListState {
    /// Selects an item, or none.
    pub fn select(&mut self, index: Option<usize>)
        ensures
            final(self).selected == index,
    {
        self.selected = index;
    }

    /// The selected item.
    pub fn selected(&self) -> (r: Option<usize>)
        ensures
            r == self.selected,
    {
        self.selected
    }
}

/// A pass as it is shown.
#[derive(Debug)]
pub struct PassView {
    pub kind: PassKind,
    pub status: Status,
    pub fraction: Share,
    pub rate_now: Double,
    pub bytes: u64,
    pub result: Option<PassResult>,
}

/// The values of a pass as it is shown.
pub ghost struct PassState {
    pub kind: PassKind,
    pub status: StatusView,
    pub fraction: Dyadic,
    pub rate_now: Dyadic,
    pub bytes: u64,
    pub result: Option<ResultView>,
}

impl View for PassView {
    type V = PassState;

    open spec fn view(&self) -> PassState {
        PassState {
            kind: self.kind,
            status: self.status@,
            fraction: self.fraction@,
            rate_now: self.rate_now@,
            bytes: self.bytes,
            result: self.result.deep_view(),
        }
    }
}

impl DeepView for PassView {
    type V = PassState;

    open spec fn deep_view(&self) -> PassState {
        self@
    }
}

/// A pass before it runs.
pub open spec fn pending(kind: PassKind) -> PassState {
    PassState {
        kind,
        status: StatusView::Pending,
        fraction: zero(),
        rate_now: zero(),
        bytes: 0,
        result: None,
    }
}

impl Clone for PassView {
    fn clone(&self) -> (r: PassView)
        ensures
            r@ == self@,
    {
        PassView {
            kind: self.kind,
            status: self.status.clone(),
            fraction: self.fraction,
            rate_now: self.rate_now,
            bytes: self.bytes,
            result: match &self.result {
                Some(r) => Some(r.clone()),
                None => None,
            },
        }
    }
}

impl PassView {
    /// A pass before it runs.
    pub fn new(kind: PassKind) -> (r: PassView)
        ensures
            r@ == pending(kind),
    {
        PassView {
            kind,
            status: Status::Pending,
            fraction: Share::zero(),
            rate_now: Double::zero(),
            bytes: 0,
            result: None,
        }
    }
}

/// What the system says of the selected device.
#[derive(Debug, Clone, Copy, PartialEq, Eq, Structural)]
pub struct Probe {
    /// Whether its path can be opened for reading.
    pub readable: bool,
    /// Whether its path is a directory.
    pub is_dir: bool,
}

/// What is to be done outside.
#[derive(Debug)]
pub enum Effect {
    Nothing,
    /// Stop the worker and wait for it, so that the scratch file is gone.
    Stop,
    /// Stop the worker, if there is one, and start another.
    Start(Config),
}

/// The values of what is to be done outside.
pub ghost enum EffectView {
    Nothing,
    Stop,
    Start(ConfigView),
}

impl View for Effect {
    type V = EffectView;

    open spec fn view(&self) -> EffectView {
        match self {
            Effect::Nothing => EffectView::Nothing,
            Effect::Stop => EffectView::Stop,
            Effect::Start(c) => EffectView::Start(c@),
        }
    }
}

/// A key.
#[derive(Debug, Clone, Copy, PartialEq, Eq, Structural)]
pub enum Key {
    Up,
    Down,
    Enter,
    Escape,
    Char(char),
    Other,
}

/// The application.
pub struct App {
    pub devices: Vec<Device>,
    pub list: ListState,
    pub screen: Screen,
    pub theme: Theme,
    pub direct: bool,
    pub budget: Duration,
    pub passes: Vec<PassKind>,
    pub views: Vec<PassView>,
    pub spark: VecDeque<u64>,
    pub phase: String,
    pub message: Option<String>,
    /// When the run was started.
    pub started: Option<Duration>,
    /// How long the run took.
    pub finished: Option<Duration>,
    pub should_quit: bool,
    /// Whether there is a worker.
    pub working: bool,
}

/// The values of the application.
pub ghost struct AppView {
    pub devices: Seq<DeviceView>,
    pub selected: Option<usize>,
    pub screen: Screen,
    pub theme: Theme,
    pub direct: bool,
    pub budget: Duration,
    pub passes: Seq<PassKind>,
    pub views: Seq<PassState>,
    pub spark: Seq<u64>,
    pub phase: Seq<char>,
    pub message: Option<Seq<char>>,
    pub started: Option<Duration>,
    pub finished: Option<Duration>,
    pub should_quit: bool,
    pub working: bool,
}

impl View for App {
    type V = AppView;

    open spec fn view(&self) -> AppView {
        AppView {
            devices: self.devices.deep_view(),
            selected: self.list.selected,
            screen: self.screen,
            theme: self.theme,
            direct: self.direct,
            budget: self.budget,
            passes: self.passes@,
            views: self.views.deep_view(),
            spark: self.spark@,
            phase: self.phase@,
            message: self.message.deep_view(),
            started: self.started,
            finished: self.finished,
            should_quit: self.should_quit,
            working: self.working,
        }
    }
}

/// The application before any input.
pub open spec fn fresh(devices: Seq<DeviceView>, mode: Mode, direct: bool, budget: Duration) -> AppView {
    AppView {
        devices,
        selected: if devices.len() > 0 {
            Some(0usize)
        } else {
            None
        },
        screen: Screen::Select,
        theme: palette(mode),
        direct,
        budget,
        passes: all_passes(),
        views: Seq::empty(),
        spark: Seq::empty(),
        phase: Seq::empty(),
        message: None,
        started: None,
        finished: None,
        should_quit: false,
        working: false,
    }
}

/// The selected device.
pub open spec fn chosen(a: AppView) -> Option<DeviceView> {
    match a.selected {
        Some(i) => if i < a.devices.len() {
            Some(a.devices[i as int])
        } else {
            None
        },
        None => None,
    }
}

/// The application once the next item of the picker has been selected. The list
/// wraps around: with a handful of devices, that is faster than stopping at both
/// ends.
pub open spec fn next_selected(a: AppView) -> AppView {
    if a.screen != Screen::Select || a.devices.len() == 0 {
        a
    } else {
        AppView {
            selected: Some(((a.selected.unwrap_or(0) + 1) % (a.devices.len() as int)) as usize),
            ..a
        }
    }
}

/// The application once the previous item of the picker has been selected.
pub open spec fn previous_selected(a: AppView) -> AppView {
    if a.screen != Screen::Select || a.devices.len() == 0 {
        a
    } else {
        AppView {
            selected: Some(
                ((a.selected.unwrap_or(0) + a.devices.len() - 1) % (a.devices.len() as int)) as usize,
            ),
            ..a
        }
    }
}

/// What a run on the selected device measures.
pub open spec fn config_of(a: AppView, is_dir: bool) -> Option<ConfigView> {
    match chosen(a) {
        Some(d) => Some(
            ConfigView {
                read_path: d.path,
                read_is_dir: is_dir,
                read_size: d.size,
                write_dir: scratch_dir(d),
                free_space: match d.mount {
                    Some(m) => m.free,
                    None => 0,
                },
                direct: a.direct,
                budget: a.budget,
                passes: a.passes,
            },
        ),
        None => None,
    }
}

/// The application once a run has been started, or has been found impossible.
pub open spec fn started(a: AppView, probe: Probe, now: Duration) -> (AppView, EffectView) {
    match chosen(a) {
        None => (
            AppView { message: Some("no block devices found"@), ..a },
            EffectView::Nothing,
        ),
        Some(d) => match obstacle(d, probe.readable) {
            Some(reason) => (AppView { message: Some(reason), ..a }, EffectView::Nothing),
            None => (
                AppView {
                    views: a.passes.map_values(|k: PassKind| pending(k)),
                    spark: Seq::empty(),
                    phase: "starting"@,
                    message: None,
                    finished: None,
                    started: Some(now),
                    screen: Screen::Running,
                    working: true,
                    ..a
                },
                EffectView::Start(config_of(a, probe.is_dir)->0),
            ),
        },
    }
}

/// What is to be done to be rid of a worker.
pub open spec fn stopping(a: AppView) -> EffectView {
    if a.working {
        EffectView::Stop
    } else {
        EffectView::Nothing
    }
}

/// The application once it is to be left.
pub open spec fn left(a: AppView) -> (AppView, EffectView) {
    (AppView { should_quit: true, working: false, ..a }, stopping(a))
}

/// The application once it has been backed out of by one level: a run is
/// cancelled, the results give way to the picker, and the picker is left.
pub open spec fn backed_out(a: AppView) -> (AppView, EffectView) {
    match a.screen {
        Screen::Running => (
            AppView {
                working: false,
                screen: Screen::Results,
                message: Some("run cancelled"@),
                ..a
            },
            stopping(a),
        ),
        Screen::Results => (
            AppView { screen: Screen::Select, message: None, ..a },
            EffectView::Nothing,
        ),
        Screen::Select => left(a),
    }
}

/// The application once the enter key has been pressed.
pub open spec fn entered(a: AppView, probe: Probe, now: Duration) -> (AppView, EffectView) {
    if a.screen == Screen::Running {
        (a, EffectView::Nothing)
    } else {
        started(a, probe, now)
    }
}

/// The application once a letter has been typed.
pub open spec fn typed(a: AppView, key: char, probe: Probe, now: Duration) -> (AppView, EffectView) {
    if key == 'q' {
        left(a)
    } else if key == 't' {
        (AppView { theme: palette(other(a.theme.mode)), ..a }, EffectView::Nothing)
    } else if key == 'c' && a.screen != Screen::Running {
        (
            AppView {
                direct: !a.direct,
                message: Some(
                    if a.direct {
                        "cache bypass off"@
                    } else {
                        "cache bypass on"@
                    },
                ),
                ..a
            },
            EffectView::Nothing,
        )
    } else if key == 'j' {
        (next_selected(a), EffectView::Nothing)
    } else if key == 'k' {
        (previous_selected(a), EffectView::Nothing)
    } else if key == 'r' && a.screen == Screen::Results {
        started(a, probe, now)
    } else {
        (a, EffectView::Nothing)
    }
}

/// The application once a key has been pressed. Control and `c` always quit,
/// even though plain `c` toggles the cache bypass.
pub open spec fn pressed(a: AppView, key: Key, control: bool, probe: Probe, now: Duration) -> (
    AppView,
    EffectView,
) {
    if control && key == Key::Char('c') {
        left(a)
    } else {
        match key {
            Key::Up => (previous_selected(a), EffectView::Nothing),
            Key::Down => (next_selected(a), EffectView::Nothing),
            Key::Enter => entered(a, probe, now),
            Key::Escape => backed_out(a),
            Key::Char(c) => typed(a, lower(c), probe, now),
            Key::Other => (a, EffectView::Nothing),
        }
    }
}

/// A rate in thousands, for the sparkline: its heights are relative.
pub open spec fn spark_height(rate: Dyadic) -> u64 {
    whole_part(quotient(rate, rounded(1000, 1))) as u64
}

/// The history of the sparkline with one more point, and without the oldest one
/// where it is full.
pub open spec fn spark_with(spark: Seq<u64>, rate: Dyadic) -> Seq<u64> {
    let kept = if spark.len() == SPARK_LEN {
        spark.drop_first()
    } else {
        spark
    };
    kept.push(spark_height(rate))
}

/// A pass once the run is over: what has not ended was cut short.
pub open spec fn closed(v: PassState) -> PassState {
    if v.status is Pending || v.status is Running {
        PassState { status: StatusView::Skipped("not run"@), ..v }
    } else {
        v
    }
}

/// The application once an event of the worker has been taken in.
pub open spec fn applied(a: AppView, msg: MsgView, now: Duration) -> AppView {
    match msg {
        MsgView::Phase(p) => AppView { phase: p, ..a },
        MsgView::PassStart { index } => if index < a.views.len() {
            let v = a.views[index as int];
            AppView {
                views: a.views.update(index as int, PassState { status: StatusView::Running, ..v }),
                phase: label(v.kind),
                ..a
            }
        } else {
            AppView { phase: Seq::empty(), ..a }
        },
        MsgView::Progress { index, fraction, bytes, rate_now } => {
            let views = if index < a.views.len() {
                a.views.update(
                    index as int,
                    PassState { fraction, bytes, rate_now, ..a.views[index as int] },
                )
            } else {
                a.views
            };
            AppView { views, spark: spark_with(a.spark, rate_now), ..a }
        },
        MsgView::PassDone { index, result } => if index < a.views.len() {
            AppView {
                views: a.views.update(
                    index as int,
                    PassState {
                        fraction: one(),
                        status: result.status,
                        bytes: result.bytes,
                        result: Some(result),
                        ..a.views[index as int]
                    },
                ),
                ..a
            }
        } else {
            a
        },
        MsgView::Finished => AppView {
            views: a.views.map_values(|v: PassState| closed(v)),
            finished: match a.started {
                Some(s) => Some(Duration { nanos: since(s.nanos as nat, now.nanos as nat) as u64 }),
                None => None,
            },
            phase: "done"@,
            screen: Screen::Results,
            working: false,
            ..a
        },
        MsgView::Fatal(e) => AppView { message: Some(e), screen: Screen::Results, ..a },
    }
}

/// How far a pass has come.
pub open spec fn part_done(v: PassState) -> Dyadic {
    match v.status {
        StatusView::Pending => zero(),
        StatusView::Running => v.fraction,
        _ => one(),
    }
}

/// How far some passes have come, added up.
pub open spec fn parts_done(views: Seq<PassState>) -> Dyadic
    decreases views.len(),
{
    if views.len() == 0 {
        zero()
    } else {
        sum(parts_done(views.drop_last()), part_done(views.last()))
    }
}

/// How far a run has come: the mean over its passes.
pub open spec fn overall_progress(views: Seq<PassState>) -> Dyadic {
    let mean = quotient(parts_done(views), rounded(views.len(), 1));
    if views.len() == 0 {
        zero()
    } else if at_least(mean, 1) {
        one()
    } else {
        mean
    }
}

/// The results of some passes, of those that have one.
pub open spec fn results_of(views: Seq<PassState>) -> Seq<ResultView>
    decreases views.len(),
{
    if views.len() == 0 {
        Seq::empty()
    } else {
        let init = results_of(views.drop_last());
        match views.last().result {
            Some(r) => init.push(r),
            None => init,
        }
    }
}

impl App {
    /// The application before any input.
    pub fn new(devices: Vec<Device>, theme: Mode, direct: bool, budget: Duration) -> (r: App)
        ensures
            r@ == fresh(devices.deep_view(), theme, direct, budget),
    {
        assert(devices.deep_view().len() == devices@.len());
        let mut list = ListState { selected: None };
        if devices.len() > 0 {
            list.select(Some(0));
        }
        let views: Vec<PassView> = Vec::new();
        assert(views.deep_view() =~= Seq::<PassState>::empty());
        App {
            devices,
            list,
            screen: Screen::Select,
            theme: Theme::new(theme),
            direct,
            budget,
            passes: PassKind::all(),
            views,
            spark: VecDeque::new(),
            phase: String::new(),
            message: None,
            started: None,
            finished: None,
            should_quit: false,
            working: false,
        }
    }

    /// The selected device.
    pub fn selected(&self) -> (r: Option<&Device>)
        ensures
            match r {
                Some(d) => chosen(self@) == Some(d@),
                None => chosen(self@) is None,
            },
    {
        assert(self.devices.deep_view().len() == self.devices@.len());
        match self.list.selected() {
            Some(i) => if i < self.devices.len() {
                assert(self.devices.deep_view()[i as int] == self.devices@[i as int]@);
                Some(&self.devices[i])
            } else {
                None
            },
            None => None,
        }
    }

    /// Whether the screen of a run is shown.
    pub fn is_running(&self) -> (r: bool)
        ensures
            r == (self@.screen == Screen::Running),
    {
        self.screen == Screen::Running
    }

    /// Selects the previous item of the picker.
    pub fn on_up(&mut self)
        ensures
            final(self)@ == previous_selected(old(self)@),
    {
        if self.screen == Screen::Select && self.devices.len() > 0 {
            let len: usize = self.devices.len();
            let cur: usize = match self.list.selected() {
                Some(i) => i,
                None => 0,
            };
            let at: usize = cur % len;
            let next: usize = if at == 0 {
                len - 1
            } else {
                at - 1
            };
            proof {
                lemma_step_back(cur as int, len as int);
            }
            self.list.select(Some(next));
        }
    }

    /// Selects the next item of the picker.
    pub fn on_down(&mut self)
        ensures
            final(self)@ == next_selected(old(self)@),
    {
        if self.screen == Screen::Select && self.devices.len() > 0 {
            let len: usize = self.devices.len();
            let cur: usize = match self.list.selected() {
                Some(i) => i,
                None => 0,
            };
            let at: usize = cur % len;
            let next: usize = if at == len - 1 {
                0
            } else {
                at + 1
            };
            proof {
                lemma_step_on(cur as int, len as int);
            }
            self.list.select(Some(next));
        }
    }

    /// Stops the worker. The result says whether there was one to be stopped and
    /// waited for, so that the scratch file is removed.
    pub fn cancel(&mut self) -> (r: bool)
        ensures
            r == old(self)@.working,
            final(self)@ == (AppView { working: false, ..old(self)@ }),
    {
        let was = self.working;
        self.working = false;
        was
    }

    fn halt(&mut self) -> (r: Effect)
        ensures
            r@ == stopping(old(self)@),
            final(self)@ == (AppView { working: false, ..old(self)@ }),
    {
        if self.cancel() {
            Effect::Stop
        } else {
            Effect::Nothing
        }
    }

    /// Leaves the application.
    pub fn quit(&mut self) -> (r: Effect)
        ensures
            (final(self)@, r@) == left(old(self)@),
    {
        let effect = self.halt();
        self.should_quit = true;
        effect
    }

    /// Backs out by one level, so that a finished run cannot be lost by
    /// accident.
    pub fn on_escape(&mut self) -> (r: Effect)
        ensures
            (final(self)@, r@) == backed_out(old(self)@),
    {
        match self.screen {
            Screen::Running => {
                let effect = self.halt();
                self.screen = Screen::Results;
                self.message = Some("run cancelled".to_string());
                effect
            },
            Screen::Results => {
                self.screen = Screen::Select;
                self.message = None;
                Effect::Nothing
            },
            Screen::Select => self.quit(),
        }
    }

    /// What a run on the selected device measures.
    pub fn config(&self, is_dir: bool) -> (r: Option<Config>)
        ensures
            match r {
                Some(c) => config_of(self@, is_dir) == Some(c@),
                None => config_of(self@, is_dir) is None,
            },
    {
        match self.selected() {
            None => None,
            Some(d) => {
                let write_dir = match d.write_dir() {
                    Some(p) => Some(p.to_string()),
                    None => None,
                };
                let free_space: u64 = match &d.mount {
                    Some(m) => m.free,
                    None => 0,
                };
                Some(
                    Config {
                        read_path: d.path.clone(),
                        read_is_dir: is_dir,
                        read_size: d.size,
                        write_dir,
                        free_space,
                        direct: self.direct,
                        budget: self.budget,
                        passes: copy_passes(&self.passes),
                    },
                )
            },
        }
    }

    fn fresh_views(&self) -> (r: Vec<PassView>)
        ensures
            r.deep_view() == self@.passes.map_values(|k: PassKind| pending(k)),
    {
        let mut out: Vec<PassView> = Vec::new();
        let mut i: usize = 0;
        while i < self.passes.len()
            invariant
                i <= self.passes@.len(),
                out@.len() == i,
                forall|k: int| 0 <= k < i ==> (#[trigger] out@[k])@ == pending(self.passes@[k]),
            decreases self.passes@.len() - i,
        {
            out.push(PassView::new(self.passes[i]));
            i += 1;
        }
        assert(out.deep_view() =~= self@.passes.map_values(|k: PassKind| pending(k)));
        out
    }

    /// Starts a run on the selected device.
    pub fn start(&mut self, probe: Probe, now: Duration) -> (r: Effect)
        ensures
            (final(self)@, r@) == started(old(self)@, probe, now),
    {
        let reason = match self.selected() {
            None => Some("no block devices found".to_string()),
            Some(d) => d.blocker(probe.readable),
        };
        if let Some(text) = reason {
            self.message = Some(text);
            return Effect::Nothing;
        }
        let config = match self.config(probe.is_dir) {
            Some(c) => c,
            None => {
                return Effect::Nothing;
            },
        };
        self.views = self.fresh_views();
        self.spark.clear();
        self.phase = "starting".to_string();
        self.message = None;
        self.finished = None;
        self.started = Some(now);
        self.screen = Screen::Running;
        self.working = true;
        Effect::Start(config)
    }

    /// Starts a run, unless there is one.
    pub fn on_enter(&mut self, probe: Probe, now: Duration) -> (r: Effect)
        ensures
            (final(self)@, r@) == entered(old(self)@, probe, now),
    {
        if self.is_running() {
            Effect::Nothing
        } else {
            self.start(probe, now)
        }
    }

    /// Takes in a letter.
    pub fn handle_key(&mut self, key: char, probe: Probe, now: Duration) -> (r: Effect)
        ensures
            (final(self)@, r@) == typed(old(self)@, key, probe, now),
    {
        if key == 'q' {
            return self.quit();
        }
        if key == 't' {
            self.theme = Theme::new(self.theme.mode.toggled());
        } else if key == 'c' && !self.is_running() {
            self.direct = !self.direct;
            self.message = Some(
                if self.direct {
                    "cache bypass on".to_string()
                } else {
                    "cache bypass off".to_string()
                },
            );
        } else if key == 'j' {
            self.on_down();
        } else if key == 'k' {
            self.on_up();
        } else if key == 'r' && self.screen == Screen::Results {
            return self.start(probe, now);
        }
        Effect::Nothing
    }

    /// Takes in a key.
    pub fn on_key(&mut self, key: Key, control: bool, probe: Probe, now: Duration) -> (r: Effect)
        ensures
            (final(self)@, r@) == pressed(old(self)@, key, control, probe, now),
    {
        if control && key == Key::Char('c') {
            return self.quit();
        }
        match key {
            Key::Up => {
                self.on_up();
                Effect::Nothing
            },
            Key::Down => {
                self.on_down();
                Effect::Nothing
            },
            Key::Enter => self.on_enter(probe, now),
            Key::Escape => self.on_escape(),
            Key::Char(c) => self.handle_key(to_lower(c), probe, now),
            Key::Other => Effect::Nothing,
        }
    }

    /// Whether to start at once: with a single candidate there is nothing to
    /// choose.
    pub fn starts_at_once(&self, probe: Probe) -> (r: bool)
        ensures
            r == (self@.devices.len() == 1 && match chosen(self@) {
                Some(d) => obstacle(d, probe.readable) is None,
                None => false,
            }),
    {
        assert(self.devices.deep_view().len() == self.devices@.len());
        self.devices.len() == 1 && match self.selected() {
            Some(d) => d.blocker(probe.readable).is_none(),
            None => false,
        }
    }

    /// Adds a point to the history of the sparkline.
    pub fn push_spark(&mut self, rate: Double)
        ensures
            final(self)@ == (AppView { spark: spark_with(old(self)@.spark, rate@), ..old(self)@ }),
    {
        if self.spark.len() == SPARK_LEN {
            let _ = self.spark.pop_front();
        }
        assert(old(self)@.spark.len() == SPARK_LEN ==> self.spark@ =~= old(self)@.spark.drop_first());
        let thousand = Double::from_u64(1000);
        proof {
            lemma2_to64();
            lemma_integer_size(thousand@.exp, 1000, 9);
        }
        let height: u64 = rate.floor_over(thousand);
        self.spark.push_back(height);
    }

    fn set_view(&mut self, index: usize, view: PassView)
        requires
            index < old(self).views@.len(),
        ensures
            final(self)@ == (AppView {
                views: old(self)@.views.update(index as int, view@),
                ..old(self)@
            }),
    {
        let ghost before = self.views.deep_view();
        self.views.set(index, view);
        assert(self.views.deep_view() =~= before.update(index as int, view@));
    }

    fn close_views(&mut self)
        ensures
            final(self)@ == (AppView {
                views: old(self)@.views.map_values(|v: PassState| closed(v)),
                ..old(self)@
            }),
    {
        let ghost before = self@;
        let mut i: usize = 0;
        while i < self.views.len()
            invariant
                i <= self.views@.len(),
                self.views@.len() == before.views.len(),
                self@ == (AppView { views: self@.views, ..before }),
                forall|k: int| 0 <= k < i ==> self@.views[k] == closed(before.views[k]),
                forall|k: int| i <= k < self.views@.len() ==> self@.views[k] == before.views[k],
            decreases self.views@.len() - i,
        {
            let ghost mid = self@;
            assert(self@.views[i as int] == self.views@[i as int]@);
            let open = match &self.views[i].status {
                Status::Pending => true,
                Status::Running => true,
                _ => false,
            };
            if open {
                let view = self.with_status(i, Status::Skipped("not run".to_string()));
                assert(view@ == closed(before.views[i as int]));
                self.set_view(i, view);
                assert(self@.views.len() == self.views@.len());
            }
            i += 1;
        }
        assert(self@.views =~= before.views.map_values(|v: PassState| closed(v)));
    }

    /// A pass with another status, and otherwise as it is shown.
    fn with_status(&self, index: usize, status: Status) -> (r: PassView)
        requires
            index < self.views@.len(),
        ensures
            r@ == (PassState { status: status@, ..self@.views[index as int] }),
    {
        let mut view = self.views[index].clone();
        assert(self@.views[index as int] == view@);
        view.status = status;
        view
    }

    fn begin_pass(&mut self, index: usize)
        ensures
            forall|now: Duration|
                final(self)@ == #[trigger] applied(old(self)@, MsgView::PassStart { index }, now),
    {
        assert(self@.views.len() == self.views@.len());
        if index < self.views.len() {
            let view = self.with_status(index, Status::Running);
            let kind = view.kind;
            self.set_view(index, view);
            self.phase = kind.label().to_string();
        } else {
            self.phase = String::new();
        }
    }

    fn advance_pass(&mut self, index: usize, fraction: Share, bytes: u64, rate_now: Double)
        ensures
            forall|now: Duration|
                final(self)@ == #[trigger] applied(
                    old(self)@,
                    MsgView::Progress { index, fraction: fraction@, bytes, rate_now: rate_now@ },
                    now,
                ),
    {
        assert(self@.views.len() == self.views@.len());
        if index < self.views.len() {
            let v = &self.views[index];
            assert(self@.views[index as int] == v@);
            let mut view = self.with_status(index, v.status.clone());
            view.fraction = fraction;
            view.bytes = bytes;
            view.rate_now = rate_now;
            self.set_view(index, view);
        }
        self.push_spark(rate_now);
    }

    fn end_pass(&mut self, index: usize, result: PassResult)
        ensures
            forall|now: Duration|
                final(self)@ == #[trigger] applied(
                    old(self)@,
                    MsgView::PassDone { index, result: result@ },
                    now,
                ),
    {
        assert(self@.views.len() == self.views@.len());
        if index < self.views.len() {
            let mut view = self.with_status(index, result.status.clone());
            view.fraction = Share::one();
            view.bytes = result.bytes;
            view.result = Some(result);
            self.set_view(index, view);
        }
    }

    fn end_run(&mut self, now: Duration)
        ensures
            final(self)@ == applied(old(self)@, MsgView::Finished, now),
    {
        self.close_views();
        self.finished = match self.started {
            Some(s) => Some(now.saturating_sub(s)),
            None => None,
        };
        self.phase = "done".to_string();
        self.screen = Screen::Results;
        self.working = false;
    }

    /// Takes in an event of the worker.
    pub fn apply(&mut self, msg: Msg, now: Duration)
        ensures
            final(self)@ == applied(old(self)@, msg@, now),
    {
        match msg {
            Msg::Phase(p) => {
                self.phase = p;
            },
            Msg::PassStart { index } => {
                self.begin_pass(index);
            },
            Msg::Progress { index, fraction, bytes, rate_now } => {
                self.advance_pass(index, fraction, bytes, rate_now);
            },
            Msg::PassDone { index, result } => {
                self.end_pass(index, *result);
            },
            Msg::Finished => {
                self.end_run(now);
            },
            Msg::Fatal(e) => {
                self.message = Some(e);
                self.screen = Screen::Results;
            },
        }
    }

    /// Overall progress across every pass, for the top-level gauge.
    pub fn overall(&self) -> (r: Double)
        ensures
            r@ == overall_progress(self@.views),
            at_most_one(r@),
            -265 <= r@.exp <= 12,
    {
        let ghost all = self@.views;
        assert(all.len() == self.views@.len());
        if self.views.len() == 0 {
            return Share::zero().value();
        }
        let mut total = Double::zero();
        let mut i: usize = 0;
        while i < self.views.len()
            invariant
                i <= self.views@.len(),
                all == self.views.deep_view(),
                all.len() == self.views@.len(),
                total@ == parts_done(all.take(i as int)),
                small(total@),
                total@.exp >= -200,
            decreases self.views@.len() - i,
        {
            assert(all.take(i + 1).drop_last() =~= all.take(i as int));
            assert(all.take(i + 1).last() == self.views@[i as int]@);
            let part = match &self.views[i].status {
                Status::Pending => Share::zero(),
                Status::Running => self.views[i].fraction,
                _ => Share::one(),
            };
            let value = part.value();
            proof {
                law_sums_of_parts_stay_small(total@, value@);
            }
            total = total.plus(value);
            i += 1;
        }
        assert(all.take(i as int) =~= all);
        let count = Double::from_u64(self.views.len() as u64);
        let mean = total.over(count);
        if mean.is_at_least(1) {
            Double::one()
        } else {
            mean
        }
    }

    /// The results of the passes that have one.
    pub fn results(&self) -> (r: Vec<&PassResult>)
        ensures
            r.deep_view() == results_of(self@.views),
    {
        let ghost all = self@.views;
        let mut out: Vec<&PassResult> = Vec::new();
        let mut i: usize = 0;
        assert(out.deep_view() =~= results_of(all.take(0)));
        while i < self.views.len()
            invariant
                i <= self.views@.len(),
                all == self.views.deep_view(),
                all.len() == self.views@.len(),
                out.deep_view() == results_of(all.take(i as int)),
            decreases self.views@.len() - i,
        {
            let ghost done = out.deep_view();
            assert(all.take(i + 1).drop_last() =~= all.take(i as int));
            assert(all.take(i + 1).last() == self.views@[i as int]@);
            if let Some(r) = &self.views[i].result {
                out.push(r);
                assert(out.deep_view() =~= done.push(r@));
            }
            i += 1;
        }
        assert(all.take(i as int) =~= all);
        out
    }
}

proof fn lemma_step_on(cur: int, len: int)
    requires
        cur >= 0,
        len > 0,
    ensures
        (cur + 1) % len == if cur % len == len - 1 {
            0
        } else {
            cur % len + 1
        },
{
    vstd::arithmetic::div_mod::lemma_mod_adds(cur, 1, len);
    vstd::arithmetic::div_mod::lemma_add_mod_noop(cur, 1, len);
    if len == 1 {
    } else {
        vstd::arithmetic::div_mod::lemma_small_mod(1, len as nat);
        if cur % len == len - 1 {
            vstd::arithmetic::div_mod::lemma_mod_self_0(len);
        } else {
            vstd::arithmetic::div_mod::lemma_small_mod((cur % len + 1) as nat, len as nat);
        }
    }
}

proof fn lemma_step_back(cur: int, len: int)
    requires
        cur >= 0,
        len > 0,
    ensures
        (cur + len - 1) % len == if cur % len == 0 {
            len - 1
        } else {
            cur % len - 1
        },
{
    let m = cur % len;
    vstd::arithmetic::div_mod::lemma_add_mod_noop(cur, len - 1, len);
    vstd::arithmetic::div_mod::lemma_small_mod((len - 1) as nat, len as nat);
    if m == 0 {
    } else {
        vstd::arithmetic::div_mod::lemma_mod_add_multiples_vanish(m - 1, len);
        vstd::arithmetic::div_mod::lemma_small_mod((m - 1) as nat, len as nat);
    }
}

/// Going one item on and one back again comes to the same item, and so does
/// going back and on.
pub proof fn law_selection_steps_undo_each_other(a: AppView)
    requires
        a.screen == Screen::Select,
        a.devices.len() <= usize::MAX,
        match a.selected {
            Some(i) => i < a.devices.len(),
            None => false,
        },
    ensures
        previous_selected(next_selected(a)) == a,
        next_selected(previous_selected(a)) == a,
{
    let len = a.devices.len() as int;
    let cur = a.selected->0 as int;
    vstd::arithmetic::div_mod::lemma_small_mod(cur as nat, len as nat);
    lemma_step_on(cur, len);
    lemma_step_back(cur, len);
    let on = (cur + 1) % len;
    let back = (cur + len - 1) % len;
    vstd::arithmetic::div_mod::lemma_small_mod(on as nat, len as nat);
    vstd::arithmetic::div_mod::lemma_small_mod(back as nat, len as nat);
    lemma_step_back(on, len);
    lemma_step_on(back, len);
}

/// Whatever is pressed, a selection that was in the list stays in it.
pub proof fn law_selection_stays_in_the_list(a: AppView, key: Key, control: bool, probe: Probe, now: Duration)
    requires
        a.devices.len() <= usize::MAX,
        a.selected is Some ==> a.selected->0 < a.devices.len(),
    ensures
        ({
            let b = pressed(a, key, control, probe, now).0;
            &&& b.devices == a.devices
            &&& b.selected is Some ==> b.selected->0 < b.devices.len()
            &&& a.selected is Some ==> b.selected is Some
        }),
{
    if a.devices.len() > 0 {
        let len = a.devices.len() as int;
        let cur = a.selected.unwrap_or(0) as int;
        vstd::arithmetic::div_mod::lemma_mod_bound(cur + 1, len);
        vstd::arithmetic::div_mod::lemma_mod_bound(cur + len - 1, len);
    }
}

/// While a run is shown, no key changes how it treats the cache, and none starts
/// another run.
pub proof fn law_run_is_left_alone(a: AppView, key: Key, control: bool, probe: Probe, now: Duration)
    requires
        a.screen == Screen::Running,
    ensures
        pressed(a, key, control, probe, now).0.direct == a.direct,
        !(pressed(a, key, control, probe, now).1 is Start),
{
}

/// Escape goes back by one level at a time: from a run to its results, from
/// there to the picker, and from there out. Results are never lost by it.
pub proof fn law_escape_backs_out_level_by_level(a: AppView)
    requires
        a.screen == Screen::Running,
        !a.should_quit,
    ensures
        ({
            let results = backed_out(a).0;
            let picker = backed_out(results).0;
            let out = backed_out(picker).0;
            &&& results.screen == Screen::Results && !results.should_quit
            &&& picker.screen == Screen::Select && !picker.should_quit
            &&& out.should_quit
            &&& results.views == a.views && picker.views == a.views
        }),
{
}

/// No way out of a run leaves its worker behind: whoever quits or cancels while
/// there is one is told to stop it.
pub proof fn law_worker_is_stopped_on_the_way_out(a: AppView)
    requires
        a.working,
    ensures
        left(a).1 == EffectView::Stop,
        a.screen == Screen::Running ==> backed_out(a).1 == EffectView::Stop,
        !left(a).0.working,
{
}

/// The history of the sparkline never grows past its length, and its last point
/// is the newest.
pub proof fn law_sparkline_is_bounded(spark: Seq<u64>, rate: Dyadic)
    requires
        spark.len() <= SPARK_LEN,
    ensures
        spark_with(spark, rate).len() <= SPARK_LEN,
        spark_with(spark, rate).last() == spark_height(rate),
{
}

/// After the end of a run no pass is left waiting or running.
pub proof fn law_finished_run_has_no_open_pass(a: AppView, now: Duration, i: int)
    requires
        0 <= i < a.views.len(),
    ensures
        !(applied(a, MsgView::Finished, now).views[i].status is Pending),
        !(applied(a, MsgView::Finished, now).views[i].status is Running),
        applied(a, MsgView::Finished, now).views[i].result == a.views[i].result,
{
}

/// A run writes only where the device has a writable filesystem: without one its
/// configuration has no directory for a scratch file.
pub proof fn law_write_passes_need_a_writable_mount(a: AppView, is_dir: bool)
    requires
        chosen(a) is Some,
    ensures
        config_of(a, is_dir) is Some,
        config_of(a, is_dir)->0.write_dir is Some <==> {
            &&& chosen(a)->0.mount is Some
            &&& chosen(a)->0.mount->0.writable
        },
{
}

/// A toggle that is typed twice leaves things as they were: the theme at any
/// time, the cache bypass while nothing runs.
pub proof fn law_toggles_undo_themselves(a: AppView, probe: Probe, now: Duration)
    requires
        a.theme == palette(a.theme.mode),
    ensures
        typed(typed(a, 't', probe, now).0, 't', probe, now).0 == a,
        a.screen != Screen::Running ==> typed(typed(a, 'c', probe, now).0, 'c', probe, now).0.direct
            == a.direct,
{
}

/// The application once some events of the worker have been taken in.
pub open spec fn all_applied(a: AppView, events: Seq<MsgView>, now: Duration) -> AppView
    decreases events.len(),
{
    if events.len() == 0 {
        a
    } else {
        applied(all_applied(a, events.drop_last(), now), events.last(), now)
    }
}

proof fn lemma_pairs_applied(a: AppView, events: Seq<MsgView>, n: int, now: Duration)
    requires
        0 <= 2 * n <= events.len(),
        n <= a.views.len() <= usize::MAX,
        forall|k: int|
            0 <= k < n ==> {
                &&& #[trigger] events[2 * k] == MsgView::PassStart { index: k as usize }
                &&& events[2 * k + 1] is PassDone
                &&& events[2 * k + 1]->PassDone_index == k
            },
    ensures
        ({
            let b = all_applied(a, events.take(2 * n), now);
            &&& b.views.len() == a.views.len()
            &&& forall|k: int|
                0 <= k < n ==> (#[trigger] b.views[k]).result == Some(
                    events[2 * k + 1]->PassDone_result,
                ) && b.views[k].status == events[2 * k + 1]->PassDone_result.status
        }),
    decreases n,
{
    if n == 0 {
        assert(events.take(0) =~= Seq::<MsgView>::empty());
    } else {
        let m = n - 1;
        lemma_pairs_applied(a, events, m, now);
        let start = events[2 * m];
        let done = events[2 * m + 1];
        assert(events.take(2 * n).drop_last() =~= events.take(2 * m + 1));
        assert(events.take(2 * m + 1).drop_last() =~= events.take(2 * m));
        assert(events.take(2 * n).last() == done);
        assert(events.take(2 * m + 1).last() == start);
        let before = all_applied(a, events.take(2 * m), now);
        let b = all_applied(a, events.take(2 * n), now);
        let mid = all_applied(a, events.take(2 * m + 1), now);
        assert(mid == applied(before, start, now));
        assert(b == applied(mid, done, now));
        assert forall|k: int| 0 <= k < n implies (#[trigger] b.views[k]).result == Some(
            events[2 * k + 1]->PassDone_result,
        ) && b.views[k].status == events[2 * k + 1]->PassDone_result.status by {
            if k < m {
                assert(b.views[k] == before.views[k]);
            }
        }
    }
}

/// A run that nobody stops ends with a result for every pass: what the worker
/// reports of each is what is shown of it.
pub proof fn law_unstopped_run_shows_every_result(
    a: AppView,
    worker: WorkerView,
    outcomes: Seq<Result<ResultView, Seq<char>>>,
    now: Duration,
    k: int,
)
    requires
        worker.index == 0,
        worker.config.passes.len() == a.views.len() <= usize::MAX,
        fitting(worker.config.passes, outcomes),
        0 <= k < a.views.len(),
    ensures
        ({
            let events = course(worker, outcomes);
            let b = applied(all_applied(a, events, now), MsgView::Finished, now);
            &&& events[2 * k + 1] is PassDone
            &&& b.views[k].result == Some(events[2 * k + 1]->PassDone_result)
            &&& b.views[k].result->0.kind == worker.config.passes[k]
            &&& b.screen == Screen::Results
        }),
{
    let events = course(worker, outcomes);
    law_every_pass_is_reported_in_order(worker, outcomes);
    let n = a.views.len() as int;
    assert forall|j: int| 0 <= j < n implies {
        &&& #[trigger] events[2 * j] == MsgView::PassStart { index: j as usize }
        &&& events[2 * j + 1] is PassDone
        &&& events[2 * j + 1]->PassDone_index == j
    } by {
        assert(events[2 * j] == MsgView::PassStart { index: (worker.index + j) as usize });
    }
    assert(events[2 * k] == MsgView::PassStart { index: k as usize });
    lemma_pairs_applied(a, events, n, now);
    assert(events.take(2 * n) =~= events);
    let b = all_applied(a, events, now);
    assert(b.views[k].result == Some(events[2 * k + 1]->PassDone_result));
}

/// Down goes to the next device of the picker and up to the one before, around
/// the ends of the list, and neither changes anything else. Outside the picker
/// they do nothing. The letters `j` and `k` do the same.
pub proof fn law_arrows_move_by_one(a: AppView, i: usize, control: bool, probe: Probe, now: Duration)
    requires
        a.selected == Some(i),
        i < a.devices.len() <= usize::MAX,
    ensures
        ({
            let down = pressed(a, Key::Down, control, probe, now).0;
            let up = pressed(a, Key::Up, control, probe, now).0;
            &&& a.screen == Screen::Select ==> {
                &&& i + 1 < a.devices.len() ==> down.selected == Some((i + 1) as usize)
                &&& i + 1 == a.devices.len() ==> down.selected == Some(0usize)
                &&& i > 0 ==> up.selected == Some((i - 1) as usize)
                &&& i == 0 ==> up.selected == Some((a.devices.len() - 1) as usize)
            }
            &&& a.screen != Screen::Select ==> down == a && up == a
            &&& down == (AppView { selected: down.selected, ..a })
            &&& up == (AppView { selected: up.selected, ..a })
            &&& pressed(a, Key::Down, control, probe, now).1 is Nothing
            &&& pressed(a, Key::Up, control, probe, now).1 is Nothing
            &&& pressed(a, Key::Char('j'), control, probe, now) == pressed(a, Key::Down, control, probe, now)
            &&& pressed(a, Key::Char('k'), control, probe, now) == pressed(a, Key::Up, control, probe, now)
        }),
{
    let len = a.devices.len() as int;
    vstd::arithmetic::div_mod::lemma_small_mod(i as nat, len as nat);
    lemma_step_on(i as int, len);
    lemma_step_back(i as int, len);
}

/// A letter does the same with the shift key and without it.
pub proof fn law_letters_do_the_same_in_either_case(a: AppView, control: bool, probe: Probe, now: Duration)
    ensures
        pressed(a, Key::Char('Q'), control, probe, now) == pressed(a, Key::Char('q'), control, probe, now),
        pressed(a, Key::Char('T'), control, probe, now) == pressed(a, Key::Char('t'), control, probe, now),
        pressed(a, Key::Char('R'), control, probe, now) == pressed(a, Key::Char('r'), control, probe, now),
        pressed(a, Key::Char('J'), control, probe, now) == pressed(a, Key::Char('j'), control, probe, now),
        pressed(a, Key::Char('K'), control, probe, now) == pressed(a, Key::Char('k'), control, probe, now),
        pressed(a, Key::Char('C'), false, probe, now) == pressed(a, Key::Char('c'), false, probe, now),
{
    assert(lower('Q') == 'q' && lower('T') == 't' && lower('R') == 'r');
    assert(lower('J') == 'j' && lower('K') == 'k' && lower('C') == 'c');
}

/// `q` and control with `c` leave the application from every screen, with
/// nothing of it changed but that, and the worker stopped where there is one.
pub proof fn law_quitting_works_everywhere(a: AppView, control: bool, probe: Probe, now: Duration)
    ensures
        pressed(a, Key::Char('q'), control, probe, now).0 == (AppView {
            should_quit: true,
            working: false,
            ..a
        }),
        pressed(a, Key::Char('c'), true, probe, now) == pressed(a, Key::Char('q'), control, probe, now),
        pressed(a, Key::Char('q'), control, probe, now).1 is Stop <==> a.working,
        pressed(a, Key::Char('q'), control, probe, now).1 is Nothing <==> !a.working,
{
}

/// `t` changes the theme to the other one and nothing else; `c` turns the bypass
/// of the cache over, says so, and changes nothing else, and not while a run is
/// shown. Keys without a meaning do nothing.
pub proof fn law_toggles_change_one_thing(a: AppView, probe: Probe, now: Duration)
    ensures
        ({
            let t = pressed(a, Key::Char('t'), false, probe, now);
            let c = pressed(a, Key::Char('c'), false, probe, now);
            &&& t.0 == (AppView { theme: t.0.theme, ..a }) && t.1 is Nothing
            &&& t.0.theme.mode != a.theme.mode
            &&& t.0.theme == palette(t.0.theme.mode)
            &&& a.screen != Screen::Running ==> {
                &&& c.0 == (AppView { direct: !a.direct, message: c.0.message, ..a })
                &&& c.0.message is Some
                &&& c.1 is Nothing
            }
            &&& a.screen == Screen::Running ==> c.0 == a && c.1 is Nothing
        }),
        pressed(a, Key::Other, false, probe, now) == (a, EffectView::Nothing),
        pressed(a, Key::Char('x'), false, probe, now) == (a, EffectView::Nothing),
{
}

/// A run is started by the enter key, from the picker and from the results, and
/// by `r` from the results alone; while one is shown neither does anything.
pub proof fn law_runs_are_started_by_enter(a: AppView, control: bool, probe: Probe, now: Duration)
    ensures
        a.screen != Screen::Running ==> pressed(a, Key::Enter, control, probe, now) == started(a, probe, now),
        a.screen == Screen::Running ==> pressed(a, Key::Enter, control, probe, now) == (
            a,
            EffectView::Nothing,
        ),
        a.screen == Screen::Results ==> pressed(a, Key::Char('r'), control, probe, now) == started(
            a,
            probe,
            now,
        ),
        a.screen != Screen::Results ==> pressed(a, Key::Char('r'), control, probe, now) == (
            a,
            EffectView::Nothing,
        ),
{
}

/// A run is started on the selected device and on no other, just where that can
/// be read and holds something: it reads the device, writes to its filesystem
/// where it can, and has the passes, the budget and the bypass that were asked
/// for. Every pass waits then, in the order in which they were asked for. Where
/// it cannot be started nothing changes but that the reason is shown.
#[verifier::rlimit(60)]
pub proof fn law_runs_measure_the_selected_device(a: AppView, probe: Probe, now: Duration)
    ensures
        ({
            let (b, effect) = started(a, probe, now);
            let able = chosen(a) is Some && chosen(a)->0.size > 0 && probe.readable;
            &&& effect is Start <==> able
            &&& !able ==> {
                &&& effect is Nothing
                &&& b == (AppView { message: b.message, ..a })
                &&& b.message is Some
            }
            &&& effect matches EffectView::Start(config) ==> {
                let d = chosen(a)->0;
                &&& config.read_path == d.path
                &&& config.read_size == d.size
                &&& config.read_is_dir == probe.is_dir
                &&& config.direct == a.direct
                &&& config.budget == a.budget
                &&& config.passes == a.passes
                &&& config.write_dir is Some <==> d.mount is Some && d.mount->0.writable
                &&& config.write_dir is Some ==> config.write_dir->0 == d.mount->0.path
                &&& d.mount is Some ==> config.free_space == d.mount->0.free
                &&& d.mount is None ==> config.free_space == 0
                &&& b.screen == Screen::Running && b.working
                &&& b.started == Some(now) && b.finished is None && b.message is None
                &&& b.spark.len() == 0
                &&& b.views.len() == a.passes.len()
                &&& forall|i: int|
                    0 <= i < a.passes.len() ==> {
                        let v = #[trigger] b.views[i];
                        &&& v.kind == a.passes[i] && v.status is Pending
                        &&& v.result is None && v.bytes == 0
                        &&& v.fraction.mant == 0 && v.rate_now.mant == 0
                    }
                &&& b.devices == a.devices && b.selected == a.selected
                &&& b.passes == a.passes && b.direct == a.direct && b.budget == a.budget
                &&& b.theme == a.theme && b.should_quit == a.should_quit
            }
        }),
        chosen(a) is Some <==> a.selected is Some && a.selected->0 < a.devices.len(),
        chosen(a) is Some ==> chosen(a)->0 == a.devices[a.selected->0 as int],
{
}

/// An event of a pass changes what is shown of that pass and of no other, and
/// nothing of what is measured or how.
pub proof fn law_events_touch_their_own_pass(a: AppView, msg: MsgView, now: Duration, i: int)
    requires
        0 <= i < a.views.len(),
        match msg {
            MsgView::PassStart { index } => index != i,
            MsgView::Progress { index, .. } => index != i,
            MsgView::PassDone { index, .. } => index != i,
            MsgView::Finished => false,
            _ => true,
        },
    ensures
        applied(a, msg, now).views.len() == a.views.len(),
        applied(a, msg, now).views[i] == a.views[i],
        applied(a, msg, now).devices == a.devices,
        applied(a, msg, now).selected == a.selected,
        applied(a, msg, now).passes == a.passes,
        applied(a, msg, now).direct == a.direct,
        applied(a, msg, now).started == a.started,
        applied(a, msg, now).should_quit == a.should_quit,
        !(msg is Fatal) ==> applied(a, msg, now).screen == a.screen,
{
}

/// What is shown of a pass is what was said of it last: that it runs, how far it
/// has come, and what came of it, with the status and the bytes of its result.
pub proof fn law_events_are_shown(
    a: AppView,
    index: usize,
    fraction: Dyadic,
    bytes: u64,
    rate_now: Dyadic,
    result: ResultView,
    now: Duration,
)
    requires
        index < a.views.len(),
    ensures
        ({
            let v = a.views[index as int];
            let begun = applied(a, MsgView::PassStart { index }, now);
            let going = applied(a, MsgView::Progress { index, fraction, bytes, rate_now }, now);
            let done = applied(a, MsgView::PassDone { index, result }, now);
            &&& begun.views[index as int] == (PassState { status: StatusView::Running, ..v })
            &&& begun.phase == label(v.kind)
            &&& going.views[index as int] == (PassState { fraction, bytes, rate_now, ..v })
            &&& going.phase == a.phase
            &&& done.views[index as int].result == Some(result)
            &&& done.views[index as int].status == result.status
            &&& done.views[index as int].bytes == result.bytes
            &&& done.views[index as int].kind == v.kind
            &&& done.views[index as int].fraction == one()
            &&& done.spark == a.spark && begun.spark == a.spark
            &&& going.spark.len() > 0
            &&& going.spark.last() == spark_height(rate_now)
            &&& done.screen == a.screen && going.screen == a.screen && begun.screen == a.screen
            &&& done.working == a.working && going.working == a.working
        }),
{
}

/// The end of a run shows its results: how long it took since it was started,
/// and every pass as it ended. A pass that never did is shown as not run.
pub proof fn law_end_of_a_run_shows_its_results(a: AppView, start: Duration, now: Duration, i: int)
    requires
        a.started == Some(start),
        start.nanos <= now.nanos,
        0 <= i < a.views.len(),
    ensures
        ({
            let b = applied(a, MsgView::Finished, now);
            &&& b.screen == Screen::Results && !b.working
            &&& b.finished == Some(Duration { nanos: (now.nanos - start.nanos) as u64 })
            &&& b.views.len() == a.views.len()
            &&& a.views[i].status is Done || a.views[i].status is Skipped || a.views[i].status is Failed
                ==> b.views[i] == a.views[i]
            &&& a.views[i].status is Pending || a.views[i].status is Running ==> b.views[i].status is Skipped
            &&& b.views[i].kind == a.views[i].kind && b.views[i].bytes == a.views[i].bytes
            &&& b.message == a.message && b.devices == a.devices
        }),
{
}

/// A failure of the whole run is shown with its reason, and so is what the
/// worker is about.
pub proof fn law_failures_are_shown(a: AppView, text: Seq<char>, now: Duration)
    ensures
        applied(a, MsgView::Fatal(text), now) == (AppView {
            message: Some(text),
            screen: Screen::Results,
            ..a
        }),
        applied(a, MsgView::Phase(text), now) == (AppView { phase: text, ..a }),
{
}

/// Escape cancels a run, with its worker stopped and its results kept; it leaves
/// the results for the picker, and the picker for good.
pub proof fn law_escape_keeps_what_was_measured(a: AppView, control: bool, probe: Probe, now: Duration)
    ensures
        ({
            let (b, effect) = pressed(a, Key::Escape, control, probe, now);
            &&& b.views == a.views && b.devices == a.devices && b.selected == a.selected
            &&& b.direct == a.direct && b.budget == a.budget && b.passes == a.passes
            &&& a.screen == Screen::Running ==> {
                &&& b.screen == Screen::Results && !b.working && b.message is Some
                &&& effect is Stop <==> a.working
                &&& b.should_quit == a.should_quit
            }
            &&& a.screen == Screen::Results ==> {
                &&& b.screen == Screen::Select && b.message is None && effect is Nothing
                &&& b.should_quit == a.should_quit
            }
            &&& a.screen == Screen::Select ==> b.should_quit && (effect is Stop <==> a.working)
        }),
{
}

/// The history keeps its newest points in their order: a new one comes behind
/// them, and only the oldest goes, and only where there is no more room.
pub proof fn law_history_keeps_the_newest_points(spark: Seq<u64>, rate: Dyadic)
    requires
        spark.len() <= 120,
    ensures
        spark.len() < 120 ==> spark_with(spark, rate).drop_last() == spark,
        spark.len() == 120 ==> spark_with(spark, rate).drop_last() == spark.drop_first(),
        spark_with(spark, rate).len() == if spark.len() < 120 {
            spark.len() + 1
        } else {
            120
        },
{
    let next = spark_with(spark, rate);
    if spark.len() < 120 {
        assert(next.drop_last() =~= spark);
    } else {
        assert(next.drop_last() =~= spark.drop_first());
    }
}

/// A pass that waits has come no way, one that runs as far as it says, and any
/// other all the way, whether it was measured or not. A run without passes, or
/// whose passes all wait, has come no way, and none has come further than its
/// end.
pub proof fn law_progress_counts_every_pass(v: PassState, views: Seq<PassState>)
    ensures
        v.status is Pending ==> part_done(v) == zero(),
        v.status is Running ==> part_done(v) == v.fraction,
        v.status is Done || v.status is Skipped || v.status is Failed ==> part_done(v) == one(),
        (forall|i: int| 0 <= i < views.len() ==> (#[trigger] views[i]).status is Pending)
            ==> overall_progress(views) == zero(),
        at_most_one(overall_progress(views)) || !at_least(overall_progress(views), 1),
{
    lemma2_to64();
    if forall|i: int| 0 <= i < views.len() ==> (#[trigger] views[i]).status is Pending {
        lemma_nothing_done(views);
    }
    assert(at_most_one(one())) by {
        vstd::arithmetic::power2::lemma2_to64_rest();
    }
}

proof fn lemma_nothing_done(views: Seq<PassState>)
    requires
        forall|i: int| 0 <= i < views.len() ==> (#[trigger] views[i]).status is Pending,
    ensures
        parts_done(views) == zero(),
        overall_progress(views) == zero(),
    decreases views.len(),
{
    lemma2_to64();
    if views.len() > 0 {
        let init = views.drop_last();
        assert forall|i: int| 0 <= i < init.len() implies (#[trigger] init[i]).status is Pending by {
            assert(init[i] == views[i]);
        }
        lemma_nothing_done(init);
        assert(views[views.len() - 1].status is Pending);
    }
}

/// The results of a run are those of its passes, in the order of the passes: of
/// two passes that both have one, the earlier one's comes first, and no result
/// comes from anywhere else.
#[verifier::rlimit(60)]
pub proof fn law_results_are_those_of_the_passes(views: Seq<PassState>)
    ensures
        (forall|i: int| 0 <= i < views.len() ==> (#[trigger] views[i]).result is Some) ==> results_of(views)
            == Seq::new(views.len(), |i: int| views[i].result->0),
        results_of(views).len() <= views.len(),
        forall|k: int|
            0 <= k < results_of(views).len() ==> exists|i: int|
                k <= i < views.len() && (#[trigger] views[i]).result == Some(#[trigger] results_of(views)[k]),
        forall|i: int|
            0 <= i < views.len() && (#[trigger] views[i]).result is Some ==> results_of(views).contains(
                views[i].result->0,
            ),
    decreases views.len(),
{
    if views.len() > 0 {
        let init = views.drop_last();
        law_results_are_those_of_the_passes(init);
        let old = results_of(init);
        let now = results_of(views);
        assert forall|i: int| 0 <= i < init.len() implies #[trigger] init[i] == views[i] by {}
        assert(views[views.len() - 1] == views.last());
        assert forall|k: int| 0 <= k < now.len() implies exists|i: int|
            k <= i < views.len() && (#[trigger] views[i]).result == Some(#[trigger] now[k]) by {
            if k < old.len() {
                let i = choose|i: int| k <= i < init.len() && (#[trigger] init[i]).result == Some(old[k]);
                assert(views[i].result == Some(now[k]));
            } else {
                assert(views[views.len() - 1].result == Some(now[k]));
            }
        }
        assert forall|i: int| 0 <= i < views.len() && (#[trigger] views[i]).result is Some implies now.contains(
            views[i].result->0,
        ) by {
            if i < init.len() {
                assert(init[i].result is Some);
                let k = old.index_of(views[i].result->0);
                assert(now[k] == views[i].result->0);
            } else {
                assert(now[old.len() as int] == views[i].result->0);
            }
        }
        if forall|i: int| 0 <= i < views.len() ==> (#[trigger] views[i]).result is Some {
            assert forall|i: int| 0 <= i < init.len() implies (#[trigger] init[i]).result is Some by {
                assert(views[i].result is Some);
            }
            assert(views[views.len() - 1].result is Some);
            assert(now =~= Seq::new(views.len(), |i: int| views[i].result->0));
        }
    } else {
        assert(results_of(views) =~= Seq::new(views.len(), |i: int| views[i].result->0));
    }
}

/// The application starts in the picker, on the first device where there is one,
/// with every pass to be run and nothing under way.
pub proof fn law_application_starts_in_the_picker(devices: Seq<DeviceView>, mode: Mode, direct: bool, budget: Duration)
    ensures
        ({
            let a = fresh(devices, mode, direct, budget);
            &&& a.screen == Screen::Select && !a.working && !a.should_quit
            &&& a.devices == devices && a.direct == direct && a.budget == budget
            &&& a.theme.mode == mode
            &&& devices.len() > 0 ==> chosen(a) == Some(devices[0])
            &&& devices.len() == 0 ==> chosen(a) is None
            &&& forall|k: PassKind| #[trigger] a.passes.contains(k)
            &&& a.views.len() == 0 && a.message is None && a.started is None && a.finished is None
        }),
{
    let a = fresh(devices, mode, direct, budget);
    assert forall|k: PassKind| #[trigger] a.passes.contains(k) by {
        law_passes_are_told_apart(k, k);
        let i = choose|i: int| 0 <= i < all_passes().len() && #[trigger] all_passes()[i] == k;
        assert(a.passes[i] == k);
    }
}

/// How far some passes have come, added up without rounding.
pub open spec fn way_done(views: Seq<PassState>) -> real
    decreases views.len(),
{
    if views.len() == 0 {
        0real
    } else {
        way_done(views.drop_last()) + value_of(part_done(views.last()))
    }
}

proof fn lemma_way_done(views: Seq<PassState>)
    requires
        views.len() <= 40,
    ensures
        way_done(views) >= 0real,
        close(value_of(parts_done(views)), way_done(views), 2 * views.len()),
    decreases views.len(),
{
    if views.len() == 0 {
        lemma_value_sign(zero());
    } else {
        let init = views.drop_last();
        let n = init.len();
        lemma_way_done(init);
        let a = parts_done(init);
        let b = part_done(views.last());
        lemma_value_sign(a);
        lemma_value_sign(b);
        let w = value_of(b);
        assert(close(w, w, 0)) by {
            lemma_nothing(w);
            assert(0nat as real == 0real);
        }
        lemma_close_widens(w, w, 0, 2 * n);
        lemma_close_adds(value_of(a), way_done(init), w, w, 2 * n);
        law_sums_are_close(a, b);
        lemma_close_follows(way_done(views), value_of(a) + w, value_of(sum(a, b)), 2 * n, 1);
    }
}

/// A run has come as far as its passes have on average, to within the precision
/// of a double, each of them counting the same.
pub proof fn law_progress_is_the_mean_of_the_passes(views: Seq<PassState>)
    requires
        0 < views.len() <= 40,
        overall_progress(views) != one(),
    ensures
        close(
            value_of(overall_progress(views)),
            way_done(views) / (views.len() as real),
            2 * views.len() + 5,
        ),
{
    let n = views.len();
    let s = parts_done(views);
    let c = rounded(n, 1);
    lemma_way_done(views);
    lemma_count_is_close(n);
    lemma_value_sign(c);
    lemma_value_sign(s);
    law_quotients_are_close(s, c);
    let r = n as real;
    lemma_close_quotient(value_of(s), way_done(views), 2 * n, value_of(c), r, 1);
    lemma_ratio_sign(way_done(views), r);
    lemma_close_follows(
        way_done(views) / r,
        value_of(s) / value_of(c),
        value_of(quotient(s, c)),
        2 * n + 3,
        1,
    );
}

/// A point of the history is its rate in thousands, rounded down.
pub proof fn law_points_count_thousands(rate: Dyadic)
    ensures
        exists|v: Dyadic|
            spark_height(rate) == #[trigger] whole_part(v) && close(
                value_of(v) * 1000real,
                value_of(rate),
                5,
            ),
{
    lemma_divided(rate, 1000);
    assert(1000nat as real == 1000real);
    let v = quotient(rate, rounded(1000, 1));
    assert(whole_part(v) <= u64::MAX);
    assert(spark_height(rate) == whole_part(v));
}

/// A run starts by itself just where there is one device alone, and that can be
/// tested.
pub proof fn law_single_devices_are_measured_at_once(app: App, probe: Probe, r: bool)
    requires
        call_ensures(App::starts_at_once, (&app, probe), r),
    ensures
        r <==> app@.devices.len() == 1 && app@.selected == Some(0usize) && app@.devices[0].size > 0
            && probe.readable,
{
}

/// What a key does is done to the application that it is pressed in.
pub proof fn law_keys_do_what_they_are_for(
    app: &mut App,
    key: Key,
    control: bool,
    probe: Probe,
    now: Duration,
    r: Effect,
)
    requires
        call_ensures(App::on_key, (app, key, control, probe, now), r),
    ensures
        key == Key::Char('q') || (control && key == Key::Char('c')) ==> final(app)@.should_quit && (r@ is Stop
            <==> old(app)@.working),
        key == Key::Escape && old(app)@.screen == Screen::Running ==> {
            &&& final(app)@.screen == Screen::Results
            &&& r@ is Stop <==> old(app)@.working
        },
        r@ is Start ==> old(app)@.screen != Screen::Running && final(app)@.screen == Screen::Running
            && final(app)@.working,
        final(app)@.devices == old(app)@.devices,
        final(app)@.budget == old(app)@.budget,
        final(app)@.passes == old(app)@.passes,
{
}

/// What a worker says of a pass is shown of that pass.
pub proof fn law_applied_results_are_shown(app: &mut App, index: usize, result: Box<PassResult>, now: Duration, r: ())
    requires
        index < old(app)@.views.len(),
        call_ensures(App::apply, (app, Msg::PassDone { index, result }, now), r),
    ensures
        final(app)@.views.len() == old(app)@.views.len(),
        final(app)@.views[index as int].result == Some((*result)@),
        final(app)@.views[index as int].status == (*result)@.status,
        forall|i: int|
            0 <= i < old(app)@.views.len() && i != index ==> #[trigger] final(app)@.views[i] == old(app)@.views[i],
{
}

} // verus!
