//! What a run measures: the passes, the configuration, the results, and how the
//! time budget and the free space are shared out.
//!
//! Non-destructive by construction: the block device is only ever opened
//! read-only, and every write goes to a scratch file on a mounted filesystem
//! which is removed when the run ends.

use vstd::prelude::*;

use crate::double::{
    close, law_quotients_are_close, lemma_close_follows, lemma_close_quotient, quotient, rounded,
    value_of, zero, Double, Dyadic, Share,
};
use crate::number::{decimal, number};
use crate::ratio::lemma_ratio_sign;
use crate::time::{law_seconds_are_nanoseconds_by_a_billion, lemma_count_is_close, seconds, Duration};

verus! {

/// 4 MiB: enough to saturate NVMe.
pub const SEQ_BLOCK: usize = 4194304;

/// 4 KiB: the classic IOPS block size.
pub const RAND_BLOCK: usize = 4096;

/// Upper bound on the scratch file. Large enough that a fast drive cannot serve
/// the whole thing from its SLC cache in one pass, small enough to create in a
/// couple of seconds on a slow SD card.
pub const SCRATCH_MAX: u64 = 1073741824;

/// Smallest scratch file worth creating.
pub const SCRATCH_MIN: u64 = 67108864;

/// Never consume more than this fraction of the free space on the target.
pub const SCRATCH_FREE_FRACTION: u64 = 8;

/// One measurement.
#[derive(Debug, Clone, Copy, PartialEq, Eq, Hash, Structural)]
pub enum PassKind {
    SeqRead,
    RandRead,
    SeqWrite,
    RandWrite,
}

/// Every pass, in the order in which they run.
pub open spec fn all_passes() -> Seq<PassKind> {
    seq![PassKind::SeqRead, PassKind::RandRead, PassKind::SeqWrite, PassKind::RandWrite]
}

/// Full name of a pass.
pub open spec fn label(kind: PassKind) -> Seq<char> {
    match kind {
        PassKind::SeqRead => "Sequential read"@,
        PassKind::RandRead => "Random read"@,
        PassKind::SeqWrite => "Sequential write"@,
        PassKind::RandWrite => "Random write"@,
    }
}

/// Name of a pass on the command line and in reports.
pub open spec fn short(kind: PassKind) -> Seq<char> {
    match kind {
        PassKind::SeqRead => "seq_read"@,
        PassKind::RandRead => "rand_read"@,
        PassKind::SeqWrite => "seq_write"@,
        PassKind::RandWrite => "rand_write"@,
    }
}

/// Whether a pass writes.
pub open spec fn writes(kind: PassKind) -> bool {
    kind == PassKind::SeqWrite || kind == PassKind::RandWrite
}

/// Whether a pass jumps to random offsets.
pub open spec fn jumps(kind: PassKind) -> bool {
    kind == PassKind::RandRead || kind == PassKind::RandWrite
}

/// Bytes per operation of a pass.
pub open spec fn block_of(kind: PassKind) -> usize {
    if jumps(kind) {
        RAND_BLOCK
    } else {
        SEQ_BLOCK
    }
}

impl PassKind {
    /// Every pass, in the order in which they run.
    pub fn all() -> (r: Vec<PassKind>)
        ensures
            r@ == all_passes(),
    {
        let r = vec![PassKind::SeqRead, PassKind::RandRead, PassKind::SeqWrite, PassKind::RandWrite];
        assert(r@ =~= all_passes());
        r
    }

    /// Full name.
    pub fn label(self) -> (r: &'static str)
        ensures
            r@ == label(self),
    {
        match self {
            PassKind::SeqRead => "Sequential read",
            PassKind::RandRead => "Random read",
            PassKind::SeqWrite => "Sequential write",
            PassKind::RandWrite => "Random write",
        }
    }

    /// Name on the command line and in reports.
    pub fn short(self) -> (r: &'static str)
        ensures
            r@ == short(self),
    {
        match self {
            PassKind::SeqRead => "seq_read",
            PassKind::RandRead => "rand_read",
            PassKind::SeqWrite => "seq_write",
            PassKind::RandWrite => "rand_write",
        }
    }

    /// Whether the pass writes.
    pub fn is_write(self) -> (r: bool)
        ensures
            r == writes(self),
    {
        match self {
            PassKind::SeqWrite | PassKind::RandWrite => true,
            PassKind::SeqRead | PassKind::RandRead => false,
        }
    }

    /// Whether the pass jumps to random offsets.
    pub fn is_random(self) -> (r: bool)
        ensures
            r == jumps(self),
    {
        match self {
            PassKind::RandRead | PassKind::RandWrite => true,
            PassKind::SeqRead | PassKind::SeqWrite => false,
        }
    }

    /// Bytes per operation.
    pub fn block_size(self) -> (r: usize)
        ensures
            r == block_of(self),
    {
        if self.is_random() {
            RAND_BLOCK
        } else {
            SEQ_BLOCK
        }
    }
}

/// What to measure, and within which limits.
#[derive(Debug)]
pub struct Config {
    /// Block device (or file) to read from. Opened read-only, always.
    pub read_path: String,
    /// Whether `read_path` is a directory.
    pub read_is_dir: bool,
    pub read_size: u64,
    /// Directory for the scratch file. `None` disables the write passes.
    pub write_dir: Option<String>,
    pub free_space: u64,
    /// Bypass the page cache (`O_DIRECT` / `F_NOCACHE`).
    pub direct: bool,
    /// Wall-clock budget for the whole run, split across the enabled passes.
    pub budget: Duration,
    pub passes: Vec<PassKind>,
}

/// The values of a configuration.
pub ghost struct ConfigView {
    pub read_path: Seq<char>,
    pub read_is_dir: bool,
    pub read_size: u64,
    pub write_dir: Option<Seq<char>>,
    pub free_space: u64,
    pub direct: bool,
    pub budget: Duration,
    pub passes: Seq<PassKind>,
}

impl View for Config {
    type V = ConfigView;

    open spec fn view(&self) -> ConfigView {
        ConfigView {
            read_path: self.read_path@,
            read_is_dir: self.read_is_dir,
            read_size: self.read_size,
            write_dir: self.write_dir.deep_view(),
            free_space: self.free_space,
            direct: self.direct,
            budget: self.budget,
            passes: self.passes@,
        }
    }
}

/// A copy of some passes.
pub(crate) fn copy_passes(passes: &Vec<PassKind>) -> (r: Vec<PassKind>)
    ensures
        r@ == passes@,
{
    let mut out: Vec<PassKind> = Vec::new();
    let mut i: usize = 0;
    while i < passes.len()
        invariant
            i <= passes@.len(),
            out@ == passes@.take(i as int),
        decreases passes@.len() - i,
    {
        out.push(passes[i]);
        assert(passes@.take(i + 1) =~= passes@.take(i as int).push(passes@[i as int]));
        i += 1;
    }
    assert(passes@.take(i as int) =~= passes@);
    out
}

impl Clone for Config {
    fn clone(&self) -> (r: Config)
        ensures
            r@ == self@,
    {
        Config {
            read_path: self.read_path.clone(),
            read_is_dir: self.read_is_dir,
            read_size: self.read_size,
            write_dir: match &self.write_dir {
                Some(d) => Some(d.clone()),
                None => None,
            },
            free_space: self.free_space,
            direct: self.direct,
            budget: self.budget,
            passes: copy_passes(&self.passes),
        }
    }
}

/// Whether some pass of the configuration writes, or reads.
pub open spec fn has_pass(config: ConfigView, want_write: bool) -> bool {
    exists|i: int| 0 <= i < config.passes.len() && writes(#[trigger] config.passes[i]) == want_write
}

/// Whether the read passes need a scratch file filled with data.
pub open spec fn fills(config: ConfigView) -> bool {
    config.read_is_dir && has_pass(config, false)
}

impl Config {
    /// A directory target (`--target /mnt/sd`) measures the filesystem rather
    /// than a raw device, so the read passes have to read the scratch file —
    /// you cannot `read()` a directory.
    pub fn read_via_scratch(&self) -> (r: bool)
        ensures
            r == self@.read_is_dir,
    {
        self.read_is_dir
    }

    /// Whether some pass writes, or reads.
    pub fn has(&self, want_write: bool) -> (r: bool)
        ensures
            r == has_pass(self@, want_write),
    {
        let mut i: usize = 0;
        while i < self.passes.len()
            invariant
                i <= self.passes@.len(),
                forall|j: int| 0 <= j < i ==> writes(#[trigger] self.passes@[j]) != want_write,
            decreases self.passes@.len() - i,
        {
            if self.passes[i].is_write() == want_write {
                assert(writes(self@.passes[i as int]) == want_write);
                return true;
            }
            i += 1;
        }
        false
    }

    /// Whether the read passes need a scratch file filled with data.
    pub fn needs_fill(&self) -> (r: bool)
        ensures
            r == fills(self@),
    {
        self.read_via_scratch() && self.has(false)
    }
}

/// How far a pass has come, or why it did not run.
#[derive(Debug, PartialEq)]
pub enum Status {
    Pending,
    Running,
    Done,
    Skipped(String),
    Failed(String),
}

/// The values of a status.
pub ghost enum StatusView {
    Pending,
    Running,
    Done,
    Skipped(Seq<char>),
    Failed(Seq<char>),
}

impl View for Status {
    type V = StatusView;

    open spec fn view(&self) -> StatusView {
        match self {
            Status::Pending => StatusView::Pending,
            Status::Running => StatusView::Running,
            Status::Done => StatusView::Done,
            Status::Skipped(s) => StatusView::Skipped(s@),
            Status::Failed(s) => StatusView::Failed(s@),
        }
    }
}

impl Clone for Status {
    fn clone(&self) -> (r: Status)
        ensures
            r@ == self@,
    {
        match self {
            Status::Pending => Status::Pending,
            Status::Running => Status::Running,
            Status::Done => Status::Done,
            Status::Skipped(s) => Status::Skipped(s.clone()),
            Status::Failed(s) => Status::Failed(s.clone()),
        }
    }
}

impl Status {
    /// Whether the pass ran to its end.
    pub fn is_done(&self) -> (r: bool)
        ensures
            r == (self@ is Done),
    {
        match self {
            Status::Done => true,
            _ => false,
        }
    }
}

/// What a pass measured.
#[derive(Debug)]
pub struct PassResult {
    pub kind: PassKind,
    pub block_size: usize,
    pub bytes: u64,
    pub ops: u64,
    pub elapsed: Duration,
    pub avg_latency: Duration,
    pub max_latency: Duration,
    /// Whether cache bypass was actually in effect. Filesystems that reject
    /// `O_DIRECT` fall back to buffered I/O, and the result must say so.
    pub direct: bool,
    pub status: Status,
}

/// The values of a result.
pub ghost struct ResultView {
    pub kind: PassKind,
    pub block_size: usize,
    pub bytes: u64,
    pub ops: u64,
    pub elapsed: Duration,
    pub avg_latency: Duration,
    pub max_latency: Duration,
    pub direct: bool,
    pub status: StatusView,
}

impl View for PassResult {
    type V = ResultView;

    open spec fn view(&self) -> ResultView {
        ResultView {
            kind: self.kind,
            block_size: self.block_size,
            bytes: self.bytes,
            ops: self.ops,
            elapsed: self.elapsed,
            avg_latency: self.avg_latency,
            max_latency: self.max_latency,
            direct: self.direct,
            status: self.status@,
        }
    }
}

impl DeepView for PassResult {
    type V = ResultView;

    open spec fn deep_view(&self) -> ResultView {
        self@
    }
}

impl Clone for PassResult {
    fn clone(&self) -> (r: PassResult)
        ensures
            r@ == self@,
    {
        PassResult {
            kind: self.kind,
            block_size: self.block_size,
            bytes: self.bytes,
            ops: self.ops,
            elapsed: self.elapsed,
            avg_latency: self.avg_latency,
            max_latency: self.max_latency,
            direct: self.direct,
            status: self.status.clone(),
        }
    }
}

/// The result of a pass that measured nothing.
pub open spec fn blank(kind: PassKind, status: StatusView) -> ResultView {
    ResultView {
        kind,
        block_size: block_of(kind),
        bytes: 0,
        ops: 0,
        elapsed: Duration { nanos: 0 },
        avg_latency: Duration { nanos: 0 },
        max_latency: Duration { nanos: 0 },
        direct: false,
        status,
    }
}

/// A count per second of a span of time, in double precision; none where no
/// time has passed.
pub open spec fn per_second(count: nat, nanos: nat) -> Dyadic {
    if nanos == 0 {
        zero()
    } else {
        quotient(rounded(count, 1), seconds(nanos))
    }
}

/// A count per second of a span of time.
pub(crate) fn count_per_second(count: u64, span: Duration) -> (r: Double)
    ensures
        r@ == per_second(count as nat, span.nanos as nat),
{
    if span.nanos == 0 {
        Double::zero()
    } else {
        Double::from_u64(count).over(span.as_secs())
    }
}

impl PassResult {
    /// The result of a pass that measured nothing.
    pub fn empty(kind: PassKind, status: Status) -> (r: PassResult)
        ensures
            r@ == blank(kind, status@),
    {
        PassResult {
            kind,
            block_size: kind.block_size(),
            bytes: 0,
            ops: 0,
            elapsed: Duration::zero(),
            avg_latency: Duration::zero(),
            max_latency: Duration::zero(),
            direct: false,
            status,
        }
    }

    /// Bytes per second.
    pub fn rate(&self) -> (r: Double)
        ensures
            r@ == per_second(self.bytes as nat, self.elapsed.nanos as nat),
    {
        count_per_second(self.bytes, self.elapsed)
    }

    /// Operations per second.
    pub fn iops(&self) -> (r: Double)
        ensures
            r@ == per_second(self.ops as nat, self.elapsed.nanos as nat),
    {
        count_per_second(self.ops, self.elapsed)
    }
}

/// Progress and lifecycle events from the worker.
#[derive(Debug)]
pub enum Msg {
    Phase(String),
    PassStart { index: usize },
    Progress {
        index: usize,
        fraction: Share,
        bytes: u64,
        /// Throughput over the last sample window, for the live gauge.
        rate_now: Double,
    },
    PassDone { index: usize, result: Box<PassResult> },
    Finished,
    Fatal(String),
}

/// The values of an event.
pub ghost enum MsgView {
    Phase(Seq<char>),
    PassStart { index: usize },
    Progress { index: usize, fraction: Dyadic, bytes: u64, rate_now: Dyadic },
    PassDone { index: usize, result: ResultView },
    Finished,
    Fatal(Seq<char>),
}

impl View for Msg {
    type V = MsgView;

    open spec fn view(&self) -> MsgView {
        match self {
            Msg::Phase(s) => MsgView::Phase(s@),
            Msg::PassStart { index } => MsgView::PassStart { index: *index },
            Msg::Progress { index, fraction, bytes, rate_now } => MsgView::Progress {
                index: *index,
                fraction: fraction@,
                bytes: *bytes,
                rate_now: rate_now@,
            },
            Msg::PassDone { index, result } => MsgView::PassDone { index: *index, result: (**result)@ },
            Msg::Finished => MsgView::Finished,
            Msg::Fatal(s) => MsgView::Fatal(s@),
        }
    }
}

impl DeepView for Msg {
    type V = MsgView;

    open spec fn deep_view(&self) -> MsgView {
        self@
    }
}

impl Clone for Msg {
    fn clone(&self) -> (r: Msg)
        ensures
            r@ == self@,
    {
        match self {
            Msg::Phase(s) => Msg::Phase(s.clone()),
            Msg::PassStart { index } => Msg::PassStart { index: *index },
            Msg::Progress { index, fraction, bytes, rate_now } => Msg::Progress {
                index: *index,
                fraction: *fraction,
                bytes: *bytes,
                rate_now: *rate_now,
            },
            Msg::PassDone { index, result } => {
                let copy: PassResult = (**result).clone();
                Msg::PassDone { index: *index, result: Box::new(copy) }
            },
            Msg::Finished => Msg::Finished,
            Msg::Fatal(s) => Msg::Fatal(s.clone()),
        }
    }
}

/// Whether a pass can run: a write pass needs a directory for its scratch file.
pub open spec fn can_run(config: ConfigView, kind: PassKind) -> bool {
    !writes(kind) || config.write_dir is Some
}

/// The passes that can run.
pub open spec fn runnable(config: ConfigView) -> Seq<PassKind> {
    config.passes.filter(|k: PassKind| can_run(config, k))
}

/// How many passes share the budget; one at least.
pub open spec fn shares(config: ConfigView) -> nat {
    if runnable(config).len() == 0 {
        1
    } else {
        runnable(config).len()
    }
}

/// Nanoseconds reserved for preparing the scratch file. Reading through it
/// means that it must be filled with real data first, which is far more
/// expensive than merely creating it.
pub open spec fn reserved(config: ConfigView) -> nat {
    if config.write_dir is None {
        200_000_000
    } else if fills(config) {
        config.budget.nanos as nat / 3
    } else {
        config.budget.nanos as nat / 8
    }
}

/// Nanoseconds for each pass: an even share of what is left of the budget.
pub open spec fn share(config: ConfigView) -> nat {
    if config.budget.nanos <= reserved(config) {
        0
    } else {
        (config.budget.nanos - reserved(config)) as nat / shares(config)
    }
}

/// Time reserved for scratch preparation, so the total run stays inside the
/// budget the user asked for.
pub fn overhead(config: &Config) -> (r: Duration)
    ensures
        r.nanos == reserved(config@),
{
    if config.write_dir.is_none() {
        return Duration::from_millis(200);
    }
    if config.needs_fill() {
        config.budget.split(3)
    } else {
        config.budget.split(8)
    }
}

/// Split the budget evenly across the passes that will actually run.
pub fn per_pass_duration(config: &Config) -> (r: Duration)
    requires
        runnable(config@).len() <= u32::MAX,
    ensures
        r.nanos == share(config@),
{
    let mut count: usize = 0;
    let mut i: usize = 0;
    let ghost view = config@;
    let ghost pred = |k: PassKind| can_run(view, k);
    assert(config.passes@.take(0).filter(pred) =~= Seq::<PassKind>::empty()) by {
        reveal(Seq::filter);
    }
    while i < config.passes.len()
        invariant
            i <= config.passes@.len(),
            count <= i,
            view == config@,
            pred == (|k: PassKind| can_run(view, k)),
            count == config.passes@.take(i as int).filter(pred).len(),
        decreases config.passes@.len() - i,
    {
        let kind = config.passes[i];
        proof {
            assert(config.passes@.take(i + 1) =~= config.passes@.take(i as int).push(kind));
            config.passes@.take(i as int).lemma_filter_push(kind, pred);
        }
        if !kind.is_write() || config.write_dir.is_some() {
            count = count + 1;
        }
        i += 1;
    }
    assert(config.passes@.take(i as int) =~= config.passes@);
    assert(count == runnable(config@).len());
    let parts: u32 = if count == 0 {
        1
    } else {
        count as u32
    };
    assert(parts == shares(config@));
    let left = config.budget.saturating_sub(overhead(config));
    left.split(parts)
}

/// The passes that run, each for its share, stay inside the budget, and do so
/// together with the reserved time wherever that does alone. No longer share
/// would: one nanosecond more for each pass exceeds the budget.
pub proof fn law_run_stays_inside_the_budget(config: ConfigView)
    ensures
        shares(config) * share(config) <= config.budget.nanos,
        runnable(config).len() * share(config) <= shares(config) * share(config),
        reserved(config) <= config.budget.nanos ==> {
            &&& shares(config) * share(config) + reserved(config) <= config.budget.nanos
            &&& shares(config) * (share(config) + 1) + reserved(config) > config.budget.nanos
        },
        config.budget.nanos <= reserved(config) ==> share(config) == 0,
{
    let n = shares(config);
    assert(runnable(config).len() * share(config) <= n * share(config)) by (nonlinear_arith)
        requires
            runnable(config).len() <= n,
    ;
    if reserved(config) < config.budget.nanos {
        let left = (config.budget.nanos - reserved(config)) as nat;
        assert(n * (left / n) <= left && n * (left / n + 1) > left) by (nonlinear_arith)
            requires
                n > 0,
        ;
    } else {
        assert(n * 0 == 0 && n * (0 + 1) == n) by (nonlinear_arith);
    }
}

/// Bytes of a scratch file: the upper bound or an eighth of the free space,
/// whichever is less.
pub open spec fn scratch_bytes(free: nat) -> nat {
    if free / SCRATCH_FREE_FRACTION as nat <= SCRATCH_MAX {
        free / SCRATCH_FREE_FRACTION as nat
    } else {
        SCRATCH_MAX as nat
    }
}

/// Size of the scratch file for an amount of free space.
pub fn scratch_size(free: u64) -> (r: u64)
    ensures
        r == scratch_bytes(free as nat),
        r <= SCRATCH_MAX,
        r * SCRATCH_FREE_FRACTION <= free,
{
    let part: u64 = free / SCRATCH_FREE_FRACTION;
    if part <= SCRATCH_MAX {
        part
    } else {
        SCRATCH_MAX
    }
}

/// Why a target cannot be measured in blocks of a size.
pub open spec fn too_small_text(block: nat) -> Seq<char> {
    "target is smaller than one "@ + decimal(block) + "-byte block"@
}

/// Largest offset span that is a whole number of blocks.
pub fn usable_span(size: u64, block: usize) -> (r: Result<u64, String>)
    requires
        block > 0,
    ensures
        match r {
            Ok(span) => size >= block && span == size - size % block as u64,
            Err(e) => size < block && e@ == too_small_text(block as nat),
        },
{
    proof {
        vstd::arithmetic::div_mod::lemma_mod_decreases(size as nat, block as nat);
    }
    let rest: u64 = size % (block as u64);
    let span: u64 = size - rest;
    if span < block as u64 {
        proof {
            if size >= block {
                assert(size / block as u64 >= 1) by (nonlinear_arith)
                    requires
                        size >= block,
                        block > 0,
                ;
                vstd::arithmetic::div_mod::lemma_fundamental_div_mod(size as int, block as int);
                assert(block * (size as int / block as int) >= block) by (nonlinear_arith)
                    requires
                        size as int / block as int >= 1,
                        block > 0,
                ;
            }
        }
        let mut e = "target is smaller than one ".to_string();
        e.append(number(block as u64).as_str());
        e.append("-byte block");
        return Err(e);
    }
    proof {
        if size < block {
            vstd::arithmetic::div_mod::lemma_small_mod(size as nat, block as nat);
        }
    }
    Ok(span)
}

/// The passes of a configuration that can run: all that read, and those that
/// write where there is a directory for it.
pub open spec fn able(config: ConfigView) -> Seq<PassKind> {
    config.passes.filter(
        |k: PassKind|
            k == PassKind::SeqRead || k == PassKind::RandRead || config.write_dir is Some,
    )
}

/// The passes that can run use up the budget, and nobody else has a part of it:
/// together with the time reserved for the scratch file they stay inside it, and
/// one nanosecond more for each of them would not. A pass that cannot run costs
/// the others nothing.
pub proof fn law_runnable_passes_use_up_the_budget(config: ConfigView)
    requires
        able(config).len() >= 1,
        reserved(config) <= config.budget.nanos,
    ensures
        able(config).len() * share(config) + reserved(config) <= config.budget.nanos,
        able(config).len() * (share(config) + 1) + reserved(config) > config.budget.nanos,
{
    lemma_able(config);
    law_run_stays_inside_the_budget(config);
}

proof fn lemma_able(config: ConfigView)
    ensures
        able(config) == runnable(config),
{
    let p = |k: PassKind| can_run(config, k);
    let q = |k: PassKind|
        k == PassKind::SeqRead || k == PassKind::RandRead || config.write_dir is Some;
    assert(p =~= q);
}

/// Two configurations that differ only in passes that cannot run give each pass
/// the same time.
pub proof fn law_passes_that_cannot_run_cost_nothing(config: ConfigView)
    requires
        config.write_dir is None,
        able(config).len() >= 1,
    ensures
        share(config) == share(ConfigView { passes: able(config), ..config }),
{
    let less = ConfigView { passes: able(config), ..config };
    lemma_able(config);
    let p = |k: PassKind| can_run(config, k);
    assert(p =~= (|k: PassKind| can_run(less, k)));
    assert forall|i: int| 0 <= i < able(config).len() implies p(#[trigger] able(config)[i]) by {
        config.passes.lemma_filter_pred(p, i);
    }
    lemma_filter_of_all(able(config), p);
}

proof fn lemma_filter_of_all(s: Seq<PassKind>, p: spec_fn(PassKind) -> bool)
    requires
        forall|i: int| 0 <= i < s.len() ==> p(#[trigger] s[i]),
    ensures
        s.filter(p) == s,
    decreases s.len(),
{
    if s.len() == 0 {
        assert(s.filter(p) =~= s) by {
            reveal(Seq::filter);
        }
    } else {
        let init = s.drop_last();
        assert forall|i: int| 0 <= i < init.len() implies p(#[trigger] init[i]) by {
            assert(init[i] == s[i]);
        }
        lemma_filter_of_all(init, p);
        init.lemma_filter_push(s.last(), p);
        assert(init.push(s.last()) =~= s);
        assert(p(s[s.len() - 1]));
    }
}

/// Preparing the scratch file is given an eighth of the budget, a third where
/// the file has to be filled so that it can be read, and a fifth of a second
/// where there is no place for one.
pub proof fn law_reserved_time_fits_the_preparation(config: ConfigView)
    ensures
        config.write_dir is None ==> 5 * reserved(config) == 1_000_000_000,
        config.write_dir is Some && config.read_is_dir && has_pass(config, false) ==> 3 * reserved(config)
            <= config.budget.nanos < 3 * (reserved(config) + 1),
        config.write_dir is Some && !(config.read_is_dir && has_pass(config, false)) ==> 8
            * reserved(config) <= config.budget.nanos < 8 * (reserved(config) + 1),
{
}

/// A scratch file is as large as may be: an eighth of the free space, but a
/// gibibyte at most. More free space never makes it smaller.
pub proof fn law_scratch_file_is_as_large_as_may_be(free: nat, more: nat)
    requires
        free <= more,
    ensures
        8 * scratch_bytes(free) <= free,
        scratch_bytes(free) <= 1024 * 1024 * 1024,
        8 * (scratch_bytes(free) + 1) > free || scratch_bytes(free) == 1024 * 1024 * 1024,
        scratch_bytes(free) <= scratch_bytes(more),
{
}

/// Every pass has names of its own, and either reads or writes, in large blocks
/// one after another or in small ones anywhere.
#[verifier::rlimit(60)]
pub proof fn law_passes_are_told_apart(a: PassKind, b: PassKind)
    ensures
        short(a) == short(b) ==> a == b,
        label(a) == label(b) ==> a == b,
        writes(a) == writes(b) && jumps(a) == jumps(b) ==> a == b,
        jumps(a) ==> block_of(a) == 4 * 1024,
        !jumps(a) ==> block_of(a) == 4 * 1024 * 1024,
        exists|i: int| 0 <= i < all_passes().len() && #[trigger] all_passes()[i] == a,
        all_passes().no_duplicates(),
{
    reveal_strlit("Sequential read");
    reveal_strlit("Random read");
    reveal_strlit("Sequential write");
    reveal_strlit("Random write");
    reveal_strlit("seq_read");
    reveal_strlit("rand_read");
    reveal_strlit("seq_write");
    reveal_strlit("rand_write");
    assert("seq_write"@[0] == 's' && "rand_read"@[0] == 'r');
    assert("seq_write"@.len() == 9 && "rand_read"@.len() == 9);
    assert("seq_read"@.len() == 8 && "rand_write"@.len() == 10);
    assert("Sequential read"@.len() == 15 && "Random read"@.len() == 11);
    assert("Sequential write"@.len() == 16 && "Random write"@.len() == 12);
    let k = match a {
        PassKind::SeqRead => 0int,
        PassKind::RandRead => 1,
        PassKind::SeqWrite => 2,
        PassKind::RandWrite => 3,
    };
    assert(all_passes()[k] == a);
}

/// The names of passes say what they do: whether they read or write, and whether
/// in sequence or at random.
#[verifier::rlimit(60)]
pub proof fn law_pass_names_say_what_they_do(a: PassKind)
    ensures
        short(a) == (if jumps(a) {
            "rand_"@
        } else {
            "seq_"@
        }) + (if writes(a) {
            "write"@
        } else {
            "read"@
        }),
        label(a) == (if jumps(a) {
            "Random "@
        } else {
            "Sequential "@
        }) + (if writes(a) {
            "write"@
        } else {
            "read"@
        }),
{
    reveal_strlit("Sequential read");
    reveal_strlit("Random read");
    reveal_strlit("Sequential write");
    reveal_strlit("Random write");
    reveal_strlit("seq_read");
    reveal_strlit("rand_read");
    reveal_strlit("seq_write");
    reveal_strlit("rand_write");
    reveal_strlit("rand_");
    reveal_strlit("seq_");
    reveal_strlit("Random ");
    reveal_strlit("Sequential ");
    reveal_strlit("write");
    reveal_strlit("read");
    assert("rand_read"@ =~= "rand_"@ + "read"@);
    assert("rand_write"@ =~= "rand_"@ + "write"@);
    assert("seq_read"@ =~= "seq_"@ + "read"@);
    assert("seq_write"@ =~= "seq_"@ + "write"@);
    assert("Random read"@ =~= "Random "@ + "read"@);
    assert("Random write"@ =~= "Random "@ + "write"@);
    assert("Sequential read"@ =~= "Sequential "@ + "read"@);
    assert("Sequential write"@ =~= "Sequential "@ + "write"@);
}

/// A result without a measurement shows none: no bytes, no operations, no time,
/// and no claim that the cache was bypassed.
pub proof fn law_blank_results_claim_nothing(kind: PassKind, status: Status, r: PassResult)
    requires
        call_ensures(PassResult::empty, (kind, status), r),
    ensures
        r.kind == kind && r.status@ == status@,
        r.bytes == 0 && r.ops == 0,
        r.elapsed.nanos == 0 && r.avg_latency.nanos == 0 && r.max_latency.nanos == 0,
        !r.direct,
        r.block_size == block_of(kind),
{
}

/// The span of a target is the largest number of whole blocks in it; a target
/// that does not hold one has none.
pub proof fn law_span_is_whole_blocks(size: u64, block: usize, r: Result<u64, String>)
    requires
        block > 0,
        call_ensures(usable_span, (size, block), r),
    ensures
        r is Ok <==> size >= block,
        r matches Ok(span) ==> span % block as u64 == 0 && span <= size < span + block,
{
    if size >= block {
        let b = block as int;
        let s = size as int;
        vstd::arithmetic::div_mod::lemma_mod_bound(s, b);
        vstd::arithmetic::div_mod::lemma_fundamental_div_mod(s, b);
        vstd::arithmetic::div_mod::lemma_mod_multiples_basic(s / b, b);
        assert((s / b) * b == b * (s / b)) by (nonlinear_arith);
    }
}

/// A rate is a count divided by the seconds that it took, to within the precision
/// of a double, for any count and any time; without time there is none.
pub proof fn law_rates_are_counts_over_seconds(count: nat, nanos: nat)
    ensures
        nanos > 0 ==> close(
            value_of(per_second(count, nanos)),
            (count as real) / ((nanos as real) / 1_000_000_000real),
            13,
        ),
        nanos == 0 ==> per_second(count, nanos) == zero(),
{
    if nanos > 0 {
        let n = rounded(count, 1);
        let s = seconds(nanos);
        let t = (nanos as real) / 1_000_000_000real;
        lemma_ratio_sign(nanos as real, 1_000_000_000real);
        lemma_count_is_close(count);
        law_seconds_are_nanoseconds_by_a_billion(nanos);
        law_quotients_are_close(n, s);
        lemma_close_quotient(value_of(n), count as real, 1, value_of(s), t, 8);
        let f = (count as real) / t;
        lemma_ratio_sign(count as real, t);
        lemma_close_follows(f, value_of(n) / value_of(s), value_of(per_second(count, nanos)), 11, 1);
    }
}

/// The rate of a result is its bytes per second, and its number of operations
/// per second goes by the same time.
pub proof fn law_results_give_their_rates(result: PassResult, rate: Double, iops: Double)
    requires
        result.elapsed.nanos > 0,
        call_ensures(PassResult::rate, (&result,), rate),
        call_ensures(PassResult::iops, (&result,), iops),
    ensures
        ({
            let time = (result.elapsed.nanos as real) / 1_000_000_000real;
            &&& close(value_of(rate@), (result.bytes as real) / time, 13)
            &&& close(value_of(iops@), (result.ops as real) / time, 13)
        }),
{
    law_rates_are_counts_over_seconds(result.bytes as nat, result.elapsed.nanos as nat);
    law_rates_are_counts_over_seconds(result.ops as nat, result.elapsed.nanos as nat);
}

} // verus!
