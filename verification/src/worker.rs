//! The course of a run: which file each pass works on, what is skipped and why,
//! and which events are sent in which order. The file work is the caller's.

use vstd::prelude::*;

use crate::bench::{
    blank, fills, has_pass, overhead, per_pass_duration, reserved, runnable, share, writes, Config, ConfigView, Msg, MsgView,
    PassKind, PassResult, ResultView, Status, StatusView,
};
use crate::path::{components, join};
use crate::scratch::{file_name, law_scratch_file_lies_in_its_directory};
use crate::time::Duration;

verus! {

/// The error number `EINVAL` of the `libc` crate, which is 22 on Linux, where
/// files are opened past the cache, and on macOS.
#[verifier::external_body]
fn invalid_argument() -> (r: i32)
    ensures
        r == 22,
{
    libc::EINVAL
}

/// Whether opening a file without the cache failed because its filesystem does
/// not support that. Any other error would recur with the cache.
pub fn bypass_unsupported(error: Option<i32>) -> (r: bool)
    ensures
        r == (error == Some(22i32)),
{
    match error {
        Some(e) => e == invalid_argument(),
        None => false,
    }
}

/// What comes of an attempt to open a file.
#[derive(Debug, Clone, Copy, PartialEq, Eq, Structural)]
pub enum Opened {
    /// Use the file; whether the cache is bypassed.
    Use(bool),
    /// Try again, through the cache.
    Retry,
    /// Give up, with the error.
    Fail,
}

/// What comes of an attempt to open a file past the cache or through it, given
/// the number of its error where it failed. A file is said to bypass the cache
/// only where it was opened so: a filesystem that does not support that is read
/// or written through the cache, and its results say so.
pub fn after_open(direct: bool, tried: Result<(), Option<i32>>) -> (r: Opened)
    ensures
        r == match tried {
            Ok(_) => Opened::Use(direct),
            Err(e) => if direct && e == Some(22i32) {
                Opened::Retry
            } else {
                Opened::Fail
            },
        },
{
    match tried {
        Ok(_) => Opened::Use(direct),
        Err(e) => if direct && bypass_unsupported(e) {
            Opened::Retry
        } else {
            Opened::Fail
        },
    }
}

/// The file that a pass works on, with its size, or why there is none.
#[derive(Debug)]
pub enum Job {
    /// Write to the scratch file.
    WriteScratch(u64),
    /// Read the scratch file.
    ReadScratch(u64),
    /// Read the device or file that was named.
    ReadTarget(u64),
    Skip(String),
}

/// The values of a job.
pub ghost enum JobView {
    WriteScratch(u64),
    ReadScratch(u64),
    ReadTarget(u64),
    Skip(Seq<char>),
}

impl View for Job {
    type V = JobView;

    open spec fn view(&self) -> JobView {
        match self {
            Job::WriteScratch(size) => JobView::WriteScratch(*size),
            Job::ReadScratch(size) => JobView::ReadScratch(*size),
            Job::ReadTarget(size) => JobView::ReadTarget(*size),
            Job::Skip(why) => JobView::Skip(why@),
        }
    }
}

/// The job of a pass, with a scratch file of some size or without one.
pub open spec fn job(config: ConfigView, kind: PassKind, scratch: Option<u64>) -> JobView {
    if writes(kind) {
        match (config.write_dir, scratch) {
            (None, _) => JobView::Skip("no writable filesystem on this device"@),
            (Some(_), None) => JobView::Skip("scratch file unavailable"@),
            (Some(_), Some(size)) => JobView::WriteScratch(size),
        }
    } else if config.read_is_dir {
        match scratch {
            None => JobView::Skip("no readable scratch file on this filesystem"@),
            Some(size) => JobView::ReadScratch(size),
        }
    } else {
        JobView::ReadTarget(config.read_size)
    }
}

/// The job of a pass.
pub fn job_for(config: &Config, kind: PassKind, scratch: Option<u64>) -> (r: Job)
    ensures
        r@ == job(config@, kind, scratch),
{
    if kind.is_write() {
        if config.write_dir.is_none() {
            return Job::Skip("no writable filesystem on this device".to_string());
        }
        match scratch {
            None => Job::Skip("scratch file unavailable".to_string()),
            Some(size) => Job::WriteScratch(size),
        }
    } else if config.read_via_scratch() {
        match scratch {
            None => Job::Skip("no readable scratch file on this filesystem".to_string()),
            Some(size) => Job::ReadScratch(size),
        }
    } else {
        Job::ReadTarget(config.read_size)
    }
}

/// Nothing but the scratch file is ever written, and only where there is a
/// directory for it: no job writes to the device or file that was named.
pub proof fn law_only_the_scratch_file_is_written(config: ConfigView, kind: PassKind, scratch: Option<u64>)
    ensures
        writes(kind) ==> {
            ||| job(config, kind, scratch) is Skip
            ||| config.write_dir is Some && scratch is Some && job(config, kind, scratch)
                == JobView::WriteScratch(scratch->0)
        },
        !writes(kind) ==> !(job(config, kind, scratch) is WriteScratch),
{
}

/// What the caller has to do next.
#[derive(Debug)]
pub enum Action {
    /// Prepare the scratch file, and fill it within this time where it is given.
    Prepare(Option<Duration>),
    /// See whether the run has been stopped.
    Check,
    /// Run a pass of this length on a file.
    Run { index: usize, kind: PassKind, job: Job, slice: Duration },
    /// Remove the scratch file; the run is over.
    Stop,
}

/// The values of an action.
pub ghost enum ActionView {
    Prepare(Option<Duration>),
    Check,
    Run { index: usize, kind: PassKind, job: JobView, slice: Duration },
    Stop,
}

impl View for Action {
    type V = ActionView;

    open spec fn view(&self) -> ActionView {
        match self {
            Action::Prepare(fill) => ActionView::Prepare(*fill),
            Action::Check => ActionView::Check,
            Action::Run { index, kind, job, slice } => ActionView::Run {
                index: *index,
                kind: *kind,
                job: job@,
                slice: *slice,
            },
            Action::Stop => ActionView::Stop,
        }
    }
}

/// How a file is opened.
#[derive(Debug)]
pub struct Access {
    pub path: String,
    /// Whether it is opened for writing, or only for reading.
    pub write: bool,
}

/// The values of an access.
pub ghost struct AccessView {
    pub path: Seq<char>,
    pub write: bool,
}

impl View for Access {
    type V = AccessView;

    open spec fn view(&self) -> AccessView {
        AccessView { path: self.path@, write: self.write }
    }
}

/// The file that an action opens, and how, given the paths of the target and of
/// the scratch file. Every action opens one file at most.
pub open spec fn access(action: ActionView, target: Seq<char>, scratch: Seq<char>) -> Option<AccessView> {
    match action {
        ActionView::Prepare(_) => Some(AccessView { path: scratch, write: true }),
        ActionView::Run { job, .. } => match job {
            JobView::WriteScratch(_) => Some(AccessView { path: scratch, write: true }),
            JobView::ReadScratch(_) => Some(AccessView { path: scratch, write: false }),
            JobView::ReadTarget(_) => Some(AccessView { path: target, write: false }),
            JobView::Skip(_) => None,
        },
        _ => None,
    }
}

impl Action {
    /// The file that the action opens, and how.
    pub fn access(&self, target: &str, scratch: &str) -> (r: Option<Access>)
        ensures
            match r {
                Some(a) => access(self@, target@, scratch@) == Some(a@),
                None => access(self@, target@, scratch@) is None,
            },
    {
        match self {
            Action::Prepare(_) => Some(Access { path: scratch.to_string(), write: true }),
            Action::Run { job, .. } => match job {
                Job::WriteScratch(_) => Some(Access { path: scratch.to_string(), write: true }),
                Job::ReadScratch(_) => Some(Access { path: scratch.to_string(), write: false }),
                Job::ReadTarget(_) => Some(Access { path: target.to_string(), write: false }),
                Job::Skip(_) => None,
            },
            _ => None,
        }
    }
}

/// A run that is under way.
#[derive(Debug)]
pub struct Worker {
    pub config: Config,
    /// Length of each pass.
    pub slice: Duration,
    /// Size of the scratch file, where there is one.
    pub scratch: Option<u64>,
    /// The pass that is under way or comes next.
    pub index: usize,
}

/// The values of a run.
pub ghost struct WorkerView {
    pub config: ConfigView,
    pub slice: Duration,
    pub scratch: Option<u64>,
    pub index: int,
}

impl View for Worker {
    type V = WorkerView;

    open spec fn view(&self) -> WorkerView {
        WorkerView {
            config: self.config@,
            slice: self.slice,
            scratch: self.scratch,
            index: self.index as int,
        }
    }
}

/// Whether the run needs a scratch file and has a place for it.
pub open spec fn prepares(config: ConfigView) -> bool {
    config.write_dir is Some && (has_pass(config, true) || fills(config))
}

/// What follows when a run has come to a pass: a look at whether it has been
/// stopped, or its end behind the last pass.
pub open spec fn onwards(config: ConfigView, index: int) -> ActionView {
    if index < config.passes.len() {
        ActionView::Check
    } else {
        ActionView::Stop
    }
}

/// The first events and action of a run.
pub open spec fn begun(config: ConfigView) -> (Seq<MsgView>, ActionView) {
    if prepares(config) {
        (
            seq![MsgView::Phase("preparing scratch file"@)],
            ActionView::Prepare(
                if fills(config) {
                    Some(Duration { nanos: reserved(config) as u64 })
                } else {
                    None
                },
            ),
        )
    } else {
        (Seq::empty(), onwards(config, 0))
    }
}

/// What follows when the scratch file has been prepared, or could not be: the
/// run goes on either way, as any results are worth having.
pub open spec fn after_prepare(worker: WorkerView, result: Result<u64, Seq<char>>) -> (
    WorkerView,
    Seq<MsgView>,
    ActionView,
) {
    match result {
        Ok(size) => (
            WorkerView { scratch: Some(size), ..worker },
            Seq::empty(),
            onwards(worker.config, worker.index),
        ),
        Err(e) => (
            worker,
            seq![MsgView::Phase("scratch file unavailable: "@ + e)],
            onwards(worker.config, worker.index),
        ),
    }
}

/// What follows a look at whether the run has been stopped: its end, or the
/// next pass, which is reported as started and, where it is skipped, as done.
pub open spec fn after_check(worker: WorkerView, stopped: bool) -> (
    WorkerView,
    Seq<MsgView>,
    ActionView,
) {
    let index = worker.index as usize;
    let kind = worker.config.passes[worker.index];
    if stopped {
        (worker, Seq::empty(), ActionView::Stop)
    } else {
        match job(worker.config, kind, worker.scratch) {
            JobView::Skip(why) => (
                WorkerView { index: worker.index + 1, ..worker },
                seq![
                    MsgView::PassStart { index },
                    MsgView::PassDone { index, result: blank(kind, StatusView::Skipped(why)) },
                ],
                onwards(worker.config, worker.index + 1),
            ),
            job => (
                worker,
                seq![MsgView::PassStart { index }],
                ActionView::Run { index, kind, job, slice: worker.slice },
            ),
        }
    }
}

/// What follows when a pass has run or failed: it is reported as done.
pub open spec fn after_run(worker: WorkerView, result: Result<ResultView, Seq<char>>) -> (
    WorkerView,
    Seq<MsgView>,
    ActionView,
) {
    let kind = worker.config.passes[worker.index];
    let done = match result {
        Ok(r) => r,
        Err(e) => blank(kind, StatusView::Failed(e)),
    };
    (
        WorkerView { index: worker.index + 1, ..worker },
        seq![MsgView::PassDone { index: worker.index as usize, result: done }],
        onwards(worker.config, worker.index + 1),
    )
}

/// Whether a run asks for an action: it is what one of its steps gives.
pub open spec fn asks(worker: WorkerView, action: ActionView) -> bool {
    ||| action == begun(worker.config).1
    ||| exists|result: Result<u64, Seq<char>>| action == (#[trigger] after_prepare(worker, result)).2
    ||| exists|stopped: bool| action == (#[trigger] after_check(worker, stopped)).2
    ||| exists|result: Result<ResultView, Seq<char>>|
        action == (#[trigger] after_run(worker, result)).2
}

/// A run destroys nothing. Whatever it asks for, a file is opened for writing
/// only if it is the scratch file, directly in the directory for it, and if
/// there is no such directory none is. The target that was named is opened for
/// reading only.
pub proof fn law_only_the_scratch_file_is_opened_for_writing(
    worker: WorkerView,
    action: ActionView,
    scratch: Seq<char>,
    process: nat,
    count: nat,
)
    requires
        asks(worker, action),
        worker.config.write_dir matches Some(dir) ==> scratch == join(dir, file_name(process, count)),
    ensures
        access(action, worker.config.read_path, scratch) matches Some(a) ==> {
            &&& a.write ==> {
                &&& worker.config.write_dir is Some
                &&& a.path == scratch
                &&& components(a.path) == components(worker.config.write_dir->0).push(
                    file_name(process, count),
                )
            }
            &&& !a.write ==> a.path == worker.config.read_path || a.path == scratch
        },
        action matches ActionView::Run { job: JobView::ReadTarget(_), .. } ==> access(
            action,
            worker.config.read_path,
            scratch,
        ) == Some(AccessView { path: worker.config.read_path, write: false }),
{
    if let Some(dir) = worker.config.write_dir {
        law_scratch_file_lies_in_its_directory(dir, process, count);
    }
}

impl Worker {
    /// A run before its first step.
    pub fn new(config: Config) -> (r: Worker)
        requires
            runnable(config@).len() <= u32::MAX,
        ensures
            r@ == (WorkerView {
                config: config@,
                slice: Duration { nanos: share(config@) as u64 },
                scratch: None,
                index: 0,
            }),
    {
        let slice = per_pass_duration(&config);
        Worker { config, slice, scratch: None, index: 0 }
    }

    fn onwards(&self) -> (r: Action)
        ensures
            r@ == onwards(self@.config, self@.index),
    {
        if self.index < self.config.passes.len() {
            Action::Check
        } else {
            Action::Stop
        }
    }

    /// The first step.
    pub fn begin(&self) -> (r: (Vec<Msg>, Action))
        requires
            self@.index == 0,
        ensures
            (r.0.deep_view(), r.1@) == begun(self@.config),
    {
        let fill = self.config.needs_fill();
        let mut events: Vec<Msg> = Vec::new();
        if self.config.write_dir.is_some() && (self.config.has(true) || fill) {
            events.push(Msg::Phase("preparing scratch file".to_string()));
            let budget = if fill {
                Some(overhead(&self.config))
            } else {
                None
            };
            assert(events.deep_view() =~= seq![MsgView::Phase("preparing scratch file"@)]);
            return (events, Action::Prepare(budget));
        }
        assert(events.deep_view() =~= Seq::<MsgView>::empty());
        let action = self.onwards();
        (events, action)
    }

    /// Takes in the size of the scratch file, or why there is none.
    pub fn prepared(&mut self, result: Result<u64, String>) -> (r: (Vec<Msg>, Action))
        ensures
            (final(self)@, r.0.deep_view(), r.1@) == after_prepare(
                old(self)@,
                match result {
                    Ok(size) => Ok(size),
                    Err(e) => Err(e@),
                },
            ),
    {
        let mut events: Vec<Msg> = Vec::new();
        match result {
            Ok(size) => {
                self.scratch = Some(size);
                assert(events.deep_view() =~= Seq::<MsgView>::empty());
            },
            Err(e) => {
                let mut s = "scratch file unavailable: ".to_string();
                s.append(e.as_str());
                events.push(Msg::Phase(s));
                assert(events.deep_view() =~= seq![MsgView::Phase("scratch file unavailable: "@ + e@)]);
            },
        }
        let action = self.onwards();
        (events, action)
    }

    /// Takes in whether the run has been stopped.
    pub fn checked(&mut self, stopped: bool) -> (r: (Vec<Msg>, Action))
        requires
            old(self).index < old(self).config.passes@.len(),
        ensures
            (final(self)@, r.0.deep_view(), r.1@) == after_check(old(self)@, stopped),
    {
        let mut events: Vec<Msg> = Vec::new();
        if stopped {
            assert(events.deep_view() =~= Seq::<MsgView>::empty());
            return (events, Action::Stop);
        }
        let index: usize = self.index;
        assert(index < self.config.passes.len());
        let kind = self.config.passes[index];
        events.push(Msg::PassStart { index });
        match job_for(&self.config, kind, self.scratch) {
            Job::Skip(why) => {
                let ghost reason = why@;
                let result = PassResult::empty(kind, Status::Skipped(why));
                events.push(Msg::PassDone { index, result: Box::new(result) });
                self.index = index + 1;
                assert(events.deep_view() =~= seq![
                    MsgView::PassStart { index },
                    MsgView::PassDone { index, result: blank(kind, StatusView::Skipped(reason)) },
                ]);
                let action = self.onwards();
                (events, action)
            },
            job => {
                assert(events.deep_view() =~= seq![MsgView::PassStart { index }]);
                (events, Action::Run { index, kind, job, slice: self.slice })
            },
        }
    }

    /// Takes in the result of the pass that was to be run, or why it failed.
    pub fn ran(&mut self, result: Result<PassResult, String>) -> (r: (Vec<Msg>, Action))
        requires
            old(self).index < old(self).config.passes@.len(),
            result is Ok ==> result->Ok_0.kind == old(self).config.passes@[old(self).index as int],
        ensures
            (final(self)@, r.0.deep_view(), r.1@) == after_run(
                old(self)@,
                match result {
                    Ok(r) => Ok(r@),
                    Err(e) => Err(e@),
                },
            ),
    {
        let index: usize = self.index;
        assert(index < self.config.passes.len());
        let kind = self.config.passes[index];
        let result = match result {
            Ok(r) => r,
            Err(e) => PassResult::empty(kind, Status::Failed(e)),
        };
        let ghost done = result@;
        let mut events: Vec<Msg> = Vec::new();
        events.push(Msg::PassDone { index, result: Box::new(result) });
        assert(events.deep_view() =~= seq![MsgView::PassDone { index, result: done }]);
        self.index = index + 1;
        let action = self.onwards();
        (events, action)
    }
}

/// The events of a run that nobody stops, from a look at its next pass to its
/// end, where `outcomes` says what comes of each pass that runs.
pub open spec fn course(worker: WorkerView, outcomes: Seq<Result<ResultView, Seq<char>>>) -> Seq<MsgView>
    decreases worker.config.passes.len() - worker.index,
{
    if 0 <= worker.index < worker.config.passes.len() {
        let (checked, events, action) = after_check(worker, false);
        if action is Run {
            let (ran, more, _) = after_run(checked, outcomes[worker.index]);
            events + more + course(ran, outcomes)
        } else {
            events + course(checked, outcomes)
        }
    } else {
        Seq::empty()
    }
}

/// Whether each result is that of its own pass.
pub open spec fn fitting(passes: Seq<PassKind>, outcomes: Seq<Result<ResultView, Seq<char>>>) -> bool {
    forall|i: int|
        0 <= i < passes.len() && outcomes[i] is Ok ==> (#[trigger] outcomes[i])->Ok_0.kind == passes[i]
}

/// Whether what is reported of a pass is what came of it: the very result where
/// it ran, the error where it failed, and a reason where it was skipped, which a
/// write pass without a directory always is and a read pass of the target never.
pub open spec fn told(
    worker: WorkerView,
    i: int,
    came: Result<ResultView, Seq<char>>,
    result: ResultView,
) -> bool {
    let kind = worker.config.passes[i];
    let write = kind == PassKind::SeqWrite || kind == PassKind::RandWrite;
    let skipped = if write {
        worker.config.write_dir is None || worker.scratch is None
    } else {
        worker.config.read_is_dir && worker.scratch is None
    };
    if skipped {
        result.status is Skipped && result.bytes == 0 && result.ops == 0
    } else {
        match came {
            Ok(r) => result == r,
            Err(e) => result.status == StatusView::Failed(e) && result.bytes == 0 && result.ops == 0,
        }
    }
}

/// In a run that nobody stops, every pass is reported as started and then as
/// done, once each and in order, whether it ran, failed or was skipped; and what
/// is reported of it is a result of its own kind, which tells what came of it.
#[verifier::rlimit(60)]
pub proof fn law_every_pass_is_reported_in_order(
    worker: WorkerView,
    outcomes: Seq<Result<ResultView, Seq<char>>>,
)
    requires
        0 <= worker.index <= worker.config.passes.len() <= usize::MAX,
        fitting(worker.config.passes, outcomes),
    ensures
        course(worker, outcomes).len() == 2 * (worker.config.passes.len() - worker.index),
        forall|k: int|
            0 <= k < worker.config.passes.len() - worker.index ==> {
                &&& #[trigger] course(worker, outcomes)[2 * k] == MsgView::PassStart {
                    index: (worker.index + k) as usize,
                }
                &&& course(worker, outcomes)[2 * k + 1] is PassDone
                &&& course(worker, outcomes)[2 * k + 1]->PassDone_index == worker.index + k
                &&& course(worker, outcomes)[2 * k + 1]->PassDone_result.kind
                    == worker.config.passes[worker.index + k]
                &&& told(
                    worker,
                    worker.index + k,
                    outcomes[worker.index + k],
                    course(worker, outcomes)[2 * k + 1]->PassDone_result,
                )
            },
    decreases worker.config.passes.len() - worker.index,
{
    if worker.index < worker.config.passes.len() {
        let (checked, events, action) = after_check(worker, false);
        let (ran, more, _) = after_run(checked, outcomes[worker.index]);
        let rest = if action is Run {
            ran
        } else {
            checked
        };
        let first = if action is Run {
            events + more
        } else {
            events
        };
        law_every_pass_is_reported_in_order(rest, outcomes);
        let all = course(worker, outcomes);
        assert(all =~= first + course(rest, outcomes));
        assert(first.len() == 2);
        assert forall|k: int| 0 <= k < worker.config.passes.len() - worker.index implies {
            &&& #[trigger] all[2 * k] == MsgView::PassStart { index: (worker.index + k) as usize }
            &&& all[2 * k + 1] is PassDone
            &&& all[2 * k + 1]->PassDone_index == worker.index + k
            &&& all[2 * k + 1]->PassDone_result.kind == worker.config.passes[worker.index + k]
            &&& told(
                worker,
                worker.index + k,
                outcomes[worker.index + k],
                all[2 * k + 1]->PassDone_result,
            )
        } by {
            if k > 0 {
                assert(rest.index + (k - 1) == worker.index + k);
                assert(all[2 * k] == course(rest, outcomes)[2 * (k - 1)]);
                assert(all[2 * k + 1] == course(rest, outcomes)[2 * (k - 1) + 1]);
            } else {
                assert(outcomes[worker.index] is Ok ==> outcomes[worker.index]->Ok_0.kind
                    == worker.config.passes[worker.index]);
                assert(all[0] == first[0] && all[1] == first[1]);
            }
        }
    }
}

/// What is reported of a pass that ran is the very result it gave, whatever the
/// configuration asked for: its rate, its latencies, and whether the cache was
/// bypassed. One that failed is reported with its error and nothing measured.
pub proof fn law_results_are_reported_as_measured(worker: WorkerView, r: ResultView, e: Seq<char>)
    requires
        0 <= worker.index < worker.config.passes.len() <= usize::MAX,
    ensures
        after_run(worker, Ok(r)).1 == seq![
            MsgView::PassDone { index: worker.index as usize, result: r },
        ],
        ({
            let events = after_run(worker, Err(e)).1;
            &&& events.len() == 1
            &&& events[0] is PassDone
            &&& events[0]->PassDone_index == worker.index
            &&& events[0]->PassDone_result.status == StatusView::Failed(e)
            &&& events[0]->PassDone_result.kind == worker.config.passes[worker.index]
            &&& events[0]->PassDone_result.bytes == 0
            &&& events[0]->PassDone_result.ops == 0
            &&& events[0]->PassDone_result.elapsed.nanos == 0
            &&& !events[0]->PassDone_result.direct
        }),
        after_run(worker, Ok(r)).0 == after_run(worker, Err(e)).0,
        after_run(worker, Ok(r)).0.index == worker.index + 1,
        after_run(worker, Ok(r)).0.config == worker.config,
        after_run(worker, Ok(r)).0.scratch == worker.scratch,
        after_run(worker, Ok(r)).0.slice == worker.slice,
        (after_run(worker, Ok(r)).2 is Stop) == (worker.index + 1 == worker.config.passes.len()),
        !(after_run(worker, Ok(r)).2 is Run) && !(after_run(worker, Ok(r)).2 is Prepare),
{
}

/// A pass is skipped only for want of a file: a write pass that has no directory
/// or no scratch file in it, and a read pass of a directory without one. Any
/// other works on the scratch file where it writes or the target is a directory,
/// and else on the target, over the whole of its size.
pub proof fn law_jobs_fit_their_pass(config: ConfigView, kind: PassKind, scratch: Option<u64>)
    ensures
        ({
            let j = job(config, kind, scratch);
            let write = kind == PassKind::SeqWrite || kind == PassKind::RandWrite;
            &&& write && config.write_dir is Some && scratch is Some ==> j == JobView::WriteScratch(
                scratch->0,
            )
            &&& !write && config.read_is_dir && scratch is Some ==> j == JobView::ReadScratch(scratch->0)
            &&& !write && !config.read_is_dir ==> j == JobView::ReadTarget(config.read_size)
            &&& j is Skip <==> {
                ||| write && (config.write_dir is None || scratch is None)
                ||| !write && config.read_is_dir && scratch is None
            }
        }),
{
}

/// A scratch file is prepared just where there is a directory for it and a pass
/// that needs it: one that writes, or one that reads while the target is a
/// directory. It is filled only for the latter, in a third of the budget. A run
/// that needs none begins with its first pass at once.
#[verifier::rlimit(60)]
pub proof fn law_scratch_file_is_prepared_where_needed(config: ConfigView)
    ensures
        ({
            let writing = exists|i: int|
                0 <= i < config.passes.len() && ((#[trigger] config.passes[i]) is SeqWrite
                    || config.passes[i] is RandWrite);
            let reading = exists|i: int|
                0 <= i < config.passes.len() && ((#[trigger] config.passes[i]) is SeqRead
                    || config.passes[i] is RandRead);
            let action = begun(config).1;
            &&& action is Prepare <==> config.write_dir is Some && (writing || (config.read_is_dir
                && reading))
            &&& action matches ActionView::Prepare(fill) ==> {
                &&& fill is Some <==> config.read_is_dir && reading
                &&& fill is Some ==> 3 * fill->0.nanos <= config.budget.nanos < 3 * (fill->0.nanos + 1)
                &&& begun(config).0.len() == 1
                &&& begun(config).0[0] is Phase
            }
            &&& !(action is Prepare) ==> begun(config).0.len() == 0
            &&& !(action is Prepare) && config.passes.len() > 0 ==> action is Check
            &&& config.passes.len() == 0 ==> action is Stop
        }),
{
    assert forall|i: int| 0 <= i < config.passes.len() implies writes(#[trigger] config.passes[i]) == (
    config.passes[i] is SeqWrite || config.passes[i] is RandWrite) by {}
    if exists|i: int|
        0 <= i < config.passes.len() && ((#[trigger] config.passes[i]) is SeqWrite
            || config.passes[i] is RandWrite) {
        let i = choose|i: int|
            0 <= i < config.passes.len() && ((#[trigger] config.passes[i]) is SeqWrite
                || config.passes[i] is RandWrite);
        assert(writes(config.passes[i]) == true);
    }
    if exists|i: int|
        0 <= i < config.passes.len() && ((#[trigger] config.passes[i]) is SeqRead
            || config.passes[i] is RandRead) {
        let i = choose|i: int|
            0 <= i < config.passes.len() && ((#[trigger] config.passes[i]) is SeqRead
                || config.passes[i] is RandRead);
        assert(writes(config.passes[i]) == false);
    }
}

/// A run takes in the size of its scratch file, or says why there is none, and
/// goes on with its first pass either way.
pub proof fn law_run_goes_on_without_its_scratch_file(worker: WorkerView, size: u64, e: Seq<char>)
    requires
        worker.index < worker.config.passes.len(),
    ensures
        after_prepare(worker, Ok(size)).0 == (WorkerView { scratch: Some(size), ..worker }),
        after_prepare(worker, Ok(size)).1.len() == 0,
        after_prepare(worker, Ok(size)).2 is Check,
        after_prepare(worker, Err(e)).0 == worker,
        after_prepare(worker, Err(e)).1.len() == 1,
        after_prepare(worker, Err(e)).1[0] is Phase,
        after_prepare(worker, Err(e)).1[0]->Phase_0.len() >= e.len(),
        after_prepare(worker, Err(e)).1[0]->Phase_0.skip(
            after_prepare(worker, Err(e)).1[0]->Phase_0.len() - e.len(),
        ) == e,
        after_prepare(worker, Err(e)).2 is Check,
{
    let text = after_prepare(worker, Err(e)).1[0]->Phase_0;
    assert(text.skip(text.len() - e.len()) =~= e);
}

/// A run that is stopped ends at once, with nothing reported. One that is not
/// reports its next pass as started, and runs it for its share of the budget,
/// with the file that fits it, or reports it as skipped and goes on.
pub proof fn law_next_pass_is_run_or_skipped(worker: WorkerView)
    requires
        0 <= worker.index < worker.config.passes.len() <= usize::MAX,
    ensures
        after_check(worker, true) == (worker, Seq::<MsgView>::empty(), ActionView::Stop),
        ({
            let (next, events, action) = after_check(worker, false);
            let kind = worker.config.passes[worker.index];
            let j = job(worker.config, kind, worker.scratch);
            &&& events.len() > 0 && events[0] == MsgView::PassStart { index: worker.index as usize }
            &&& !(j is Skip) ==> {
                &&& next == worker
                &&& events.len() == 1
                &&& action == ActionView::Run {
                    index: worker.index as usize,
                    kind,
                    job: j,
                    slice: worker.slice,
                }
            }
            &&& j matches JobView::Skip(why) ==> {
                &&& next == (WorkerView { index: worker.index + 1, ..worker })
                &&& events.len() == 2
                &&& events[1] is PassDone
                &&& events[1]->PassDone_index == worker.index
                &&& events[1]->PassDone_result.status == StatusView::Skipped(why)
                &&& events[1]->PassDone_result.kind == kind
                &&& events[1]->PassDone_result.bytes == 0
                &&& (action is Check) == (worker.index + 1 < worker.config.passes.len())
                &&& action is Check || action is Stop
            }
        }),
{
}

/// A file that was opened past the cache is said to bypass it, and one that was
/// opened through it is not, whatever was tried before. A second attempt is made
/// only without the bypass, and never a third.
pub proof fn law_bypass_is_never_claimed_in_vain(
    tried: Result<(), Option<i32>>,
    again: Result<(), Option<i32>>,
    direct: bool,
    first: Opened,
    second: Opened,
)
    requires
        call_ensures(after_open, (direct, tried), first),
        call_ensures(after_open, (false, again), second),
    ensures
        first matches Opened::Use(bypassed) ==> bypassed == direct && tried is Ok,
        tried is Ok ==> first is Use,
        tried is Err && !direct ==> first is Fail,
        first is Retry <==> direct && tried is Err && tried->Err_0 == Some(22i32),
        second matches Opened::Use(bypassed) ==> !bypassed && again is Ok,
        !(second is Retry),
{
}

/// A worker reports the result of a pass that ran as it was handed in, in every
/// field, and goes on to the next pass.
pub proof fn law_worker_reports_what_it_is_handed(
    worker: &mut Worker,
    result: PassResult,
    out: (Vec<Msg>, Action),
)
    requires
        old(worker).index < old(worker).config.passes@.len(),
        result.kind == old(worker).config.passes@[old(worker).index as int],
        call_ensures(Worker::ran, (worker, Ok::<PassResult, String>(result)), out),
    ensures
        out.0.deep_view() == seq![
            MsgView::PassDone { index: old(worker).index, result: result@ },
        ],
        final(worker).index == old(worker).index + 1,
        final(worker)@.config == old(worker)@.config,
        final(worker).scratch == old(worker).scratch,
        final(worker).slice == old(worker).slice,
{
    assert(old(worker)@.index == old(worker).index as int);
    assert(final(worker)@.index == final(worker).index as int);
}

/// Every pass of a run gets the same time, which is the share of the budget of
/// one pass that can run.
pub proof fn law_worker_gives_each_pass_its_share(config: Config, r: Worker, slice: Duration)
    requires
        runnable(config@).len() <= u32::MAX,
        call_ensures(Worker::new, (config,), r),
        call_ensures(per_pass_duration, (&config,), slice),
    ensures
        r.slice.nanos == slice.nanos,
        r.index == 0 && r.scratch is None,
        r@.config == config@,
{
}

} // verus!
