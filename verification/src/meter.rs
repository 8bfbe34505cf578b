//! Metering of a pass: what was moved, how long it took, and when to report.
//!
//! A moment is a span of time since some fixed origin, the same for every call.

use vstd::prelude::*;

use crate::bench::{count_per_second, per_second, Msg, MsgView, PassKind, PassResult, ResultView, Status, StatusView};
use crate::double::{
    at_least, close, law_quotients_are_close, lemma_close_follows, lemma_close_quotient, lemma_close_scales, lemma_value_is_ratio, lemma_value_sign, one, over, quotient, rounded, under, value_of, Double, Dyadic, Share,
};
use crate::format::{law_nearest_is_half_off_at_most, nearest};
use crate::ratio::{
    lemma_cancel, lemma_is_ratio, lemma_last_two, lemma_nothing, lemma_product_is_real, lemma_ratio, lemma_ratio_sign,
    lemma_regroup, lemma_spread,
};
use crate::time::{law_seconds_are_nanoseconds_by_a_billion, lemma_count_is_close, seconds, Duration};

verus! {

/// Sample window for the live rate readout. Short enough to feel responsive,
/// long enough that a single slow 4 MiB read does not make it jump around.
pub const SAMPLE_NANOS: u64 = 150_000_000;

/// The part of a span of time that has passed, one at most. Nothing is left of
/// a span of no time.
pub open spec fn fraction_of(elapsed: nat, total: nat) -> Dyadic {
    if total == 0 || at_least(quotient(seconds(elapsed), seconds(total)), 1) {
        one()
    } else {
        quotient(seconds(elapsed), seconds(total))
    }
}

/// The part of a span of time that has passed, one at most.
pub fn fraction(elapsed: Duration, total: Duration) -> (r: Share)
    ensures
        r@ == fraction_of(elapsed.nanos as nat, total.nanos as nat),
{
    if total.nanos == 0 {
        return Share::one();
    }
    Share::held(elapsed.as_secs().over(total.as_secs()))
}

/// Nanoseconds per operation, to the nearest one; none without operations.
pub open spec fn mean(elapsed: nat, ops: nat) -> nat {
    if ops == 0 {
        0
    } else {
        let q = quotient(seconds(elapsed), rounded(ops, 1));
        let n = nearest(over(q) * 1_000_000_000, under(q));
        if n > u64::MAX {
            u64::MAX as nat
        } else {
            n
        }
    }
}

/// Time per operation.
pub fn mean_latency(elapsed: Duration, ops: u64) -> (r: Duration)
    ensures
        r.nanos == mean(elapsed.nanos as nat, ops as nat),
{
    if ops == 0 {
        return Duration::zero();
    }
    let q = elapsed.as_secs().over(Double::from_u64(ops));
    let n: u128 = q.nearest_times(1_000_000_000);
    if n > u64::MAX as u128 {
        Duration { nanos: u64::MAX }
    } else {
        Duration { nanos: n as u64 }
    }
}

/// Time from one moment to a later one; none where it is not later.
pub open spec fn since(then: nat, now: nat) -> nat {
    if now >= then {
        (now - then) as nat
    } else {
        0
    }
}

/// Counts what a pass moves and times it.
#[derive(Debug, Clone, Copy)]
pub struct Meter {
    /// When the pass began.
    pub started: Duration,
    /// When the pass is over.
    pub deadline: Duration,
    pub bytes: u64,
    pub ops: u64,
    pub max_latency: Duration,
    /// When progress was last reported.
    pub last_report: Duration,
    /// What had been moved by then.
    pub last_bytes: u64,
}

impl Meter {
    /// What was reported last is never more than what was moved.
    pub open spec fn valid(self) -> bool {
        self.last_bytes <= self.bytes
    }

    /// A meter for a pass of some length that begins now.
    pub fn new(now: Duration, duration: Duration) -> (r: Meter)
        requires
            now.nanos + duration.nanos <= u64::MAX,
        ensures
            r.valid(),
            r == (Meter {
                started: now,
                deadline: Duration { nanos: (now.nanos + duration.nanos) as u64 },
                bytes: 0,
                ops: 0,
                max_latency: Duration { nanos: 0 },
                last_report: now,
                last_bytes: 0,
            }),
    {
        Meter {
            started: now,
            deadline: Duration { nanos: now.nanos + duration.nanos },
            bytes: 0,
            ops: 0,
            max_latency: Duration::zero(),
            last_report: now,
            last_bytes: 0,
        }
    }

    /// Whether the pass goes on.
    pub fn running(&self, now: Duration) -> (r: bool)
        ensures
            r == (now.nanos < self.deadline.nanos),
    {
        now.nanos < self.deadline.nanos
    }

    /// Counts one operation.
    pub fn record(&mut self, n: u64, latency: Duration)
        requires
            old(self).valid(),
            old(self).bytes + n <= u64::MAX,
            old(self).ops < u64::MAX,
        ensures
            final(self).valid(),
            *final(self) == recorded(*old(self), n, latency),
    {
        self.bytes = self.bytes + n;
        self.ops = self.ops + 1;
        if latency.nanos > self.max_latency.nanos {
            self.max_latency = latency;
        }
    }

    /// A progress event, at most once per sample window.
    pub fn maybe_report(&mut self, index: usize, duration: Duration, now: Duration) -> (r: Option<Msg>)
        requires
            old(self).valid(),
        ensures
            final(self).valid(),
            (r is Some) == due(*old(self), now),
            match r {
                Some(msg) => {
                    &&& msg@ == report(*old(self), index, duration, now)
                    &&& *final(self) == reported(*old(self), now)
                },
                None => *final(self) == *old(self),
            },
    {
        let since = now.saturating_sub(self.last_report);
        if since.nanos < SAMPLE_NANOS {
            return None;
        }
        let rate_now = count_per_second(self.bytes - self.last_bytes, since);
        self.last_report = now;
        self.last_bytes = self.bytes;
        let elapsed = now.saturating_sub(self.started);
        Some(
            Msg::Progress {
                index,
                fraction: fraction(elapsed, duration),
                bytes: self.bytes,
                rate_now,
            },
        )
    }

    /// The result of a pass that ends now.
    pub fn finish(self, kind: PassKind, block_size: usize, direct: bool, now: Duration) -> (r: PassResult)
        ensures
            r@ == measured(self, kind, block_size, direct, now),
    {
        let elapsed = now.saturating_sub(self.started);
        PassResult {
            kind,
            block_size,
            bytes: self.bytes,
            ops: self.ops,
            elapsed,
            avg_latency: mean_latency(elapsed, self.ops),
            max_latency: self.max_latency,
            direct,
            status: Status::Done,
        }
    }
}

/// A meter that has counted one more operation.
pub open spec fn recorded(meter: Meter, n: u64, latency: Duration) -> Meter {
    Meter {
        bytes: (meter.bytes + n) as u64,
        ops: (meter.ops + 1) as u64,
        max_latency: if latency.nanos > meter.max_latency.nanos {
            latency
        } else {
            meter.max_latency
        },
        ..meter
    }
}

/// Whether a sample window has passed since the last report.
pub open spec fn due(meter: Meter, now: Duration) -> bool {
    since(meter.last_report.nanos as nat, now.nanos as nat) >= SAMPLE_NANOS
}

/// A meter that has reported.
pub open spec fn reported(meter: Meter, now: Duration) -> Meter {
    Meter { last_report: now, last_bytes: meter.bytes, ..meter }
}

/// The progress event of a meter at a moment.
pub open spec fn report(meter: Meter, index: usize, duration: Duration, now: Duration) -> MsgView {
    MsgView::Progress {
        index,
        fraction: fraction_of(
            since(meter.started.nanos as nat, now.nanos as nat),
            duration.nanos as nat,
        ),
        bytes: meter.bytes,
        rate_now: per_second(
            (meter.bytes - meter.last_bytes) as nat,
            since(meter.last_report.nanos as nat, now.nanos as nat),
        ),
    }
}

/// The result of a pass that ends at a moment.
pub open spec fn measured(
    meter: Meter,
    kind: PassKind,
    block_size: usize,
    direct: bool,
    now: Duration,
) -> ResultView {
    let elapsed = since(meter.started.nanos as nat, now.nanos as nat);
    ResultView {
        kind,
        block_size,
        bytes: meter.bytes,
        ops: meter.ops,
        elapsed: Duration { nanos: elapsed as u64 },
        avg_latency: Duration { nanos: mean(elapsed, meter.ops as nat) as u64 },
        max_latency: meter.max_latency,
        direct,
        status: StatusView::Done,
    }
}

/// A meter that counts only whole blocks has moved its operations times the
/// block, and goes on so.
pub proof fn law_bytes_are_operations_times_block(meter: Meter, block: u64, latency: Duration)
    requires
        meter.bytes == meter.ops * block,
        meter.bytes + block <= u64::MAX,
        meter.ops < u64::MAX,
    ensures
        recorded(meter, block, latency).bytes == recorded(meter, block, latency).ops * block,
{
    assert((meter.ops + 1) * block == meter.ops * block + block) by (nonlinear_arith);
}

/// After a report the next one is due a whole sample window later, and not
/// sooner, whatever is counted in between.
pub proof fn law_reports_are_a_window_apart(
    meter: Meter,
    first: Duration,
    n: u64,
    latency: Duration,
    second: Duration,
)
    requires
        due(meter, first),
    ensures
        due(recorded(reported(meter, first), n, latency), second) == (second.nanos >= first.nanos
            + SAMPLE_NANOS),
{
}

/// A pass is timed from its start to the moment at which it is finished, also
/// where that lies behind its deadline: what a flush takes is counted. The rest
/// of its result is what was counted, for the kind, block and way of access that
/// it had.
pub proof fn law_pass_is_timed_to_its_end(
    meter: Meter,
    kind: PassKind,
    block_size: usize,
    direct: bool,
    now: Duration,
    r: PassResult,
)
    requires
        now.nanos >= meter.started.nanos,
        call_ensures(Meter::finish, (meter, kind, block_size, direct, now), r),
    ensures
        r.elapsed.nanos == now.nanos - meter.started.nanos,
        r.bytes == meter.bytes,
        r.ops == meter.ops,
        r.max_latency == meter.max_latency,
        r.kind == kind,
        r.block_size == block_size,
        r.direct == direct,
        r.status@ is Done,
        r.avg_latency.nanos == mean((now.nanos - meter.started.nanos) as nat, meter.ops as nat),
{
}

/// A pass that is finished later took longer by just that time, and has moved no
/// more for it.
pub proof fn law_later_ends_take_longer(
    meter: Meter,
    kind: PassKind,
    block_size: usize,
    direct: bool,
    now: Duration,
    later: Duration,
)
    requires
        meter.started.nanos <= now.nanos <= later.nanos,
    ensures
        measured(meter, kind, block_size, direct, later).elapsed.nanos - measured(
            meter,
            kind,
            block_size,
            direct,
            now,
        ).elapsed.nanos == later.nanos - now.nanos,
        measured(meter, kind, block_size, direct, later).bytes == measured(
            meter,
            kind,
            block_size,
            direct,
            now,
        ).bytes,
{
}

/// The meter of a pass after some operations, each with its bytes and its
/// latency.
pub open spec fn counted(meter: Meter, steps: Seq<(u64, Duration)>) -> Meter
    decreases steps.len(),
{
    if steps.len() == 0 {
        meter
    } else {
        recorded(counted(meter, steps.drop_last()), steps.last().0, steps.last().1)
    }
}

/// Bytes of some operations together.
pub open spec fn total(steps: Seq<(u64, Duration)>) -> nat
    decreases steps.len(),
{
    if steps.len() == 0 {
        0
    } else {
        total(steps.drop_last()) + steps.last().0 as nat
    }
}

/// Every operation is counted once, with all its bytes, and the longest latency
/// is that of one of them and no shorter than any. What is counted changes
/// nothing of when the pass began and when it is over.
pub proof fn law_every_operation_is_counted(meter: Meter, steps: Seq<(u64, Duration)>)
    requires
        meter.bytes + total(steps) <= u64::MAX,
        meter.ops + steps.len() <= u64::MAX,
    ensures
        counted(meter, steps).bytes == meter.bytes + total(steps),
        counted(meter, steps).ops == meter.ops + steps.len(),
        forall|i: int|
            0 <= i < steps.len() ==> counted(meter, steps).max_latency.nanos >= (#[trigger] steps[i]).1.nanos,
        counted(meter, steps).max_latency.nanos >= meter.max_latency.nanos,
        counted(meter, steps).max_latency == meter.max_latency || exists|i: int|
            0 <= i < steps.len() && counted(meter, steps).max_latency == (#[trigger] steps[i]).1,
        counted(meter, steps).started == meter.started,
        counted(meter, steps).deadline == meter.deadline,
        counted(meter, steps).last_report == meter.last_report,
        counted(meter, steps).last_bytes == meter.last_bytes,
    decreases steps.len(),
{
    if steps.len() > 0 {
        let init = steps.drop_last();
        law_every_operation_is_counted(meter, init);
        assert forall|i: int| 0 <= i < steps.len() implies counted(meter, steps).max_latency.nanos
            >= (#[trigger] steps[i]).1.nanos by {
            if i < init.len() {
                assert(init[i] == steps[i]);
            }
        }
        let before = counted(meter, init).max_latency;
        if counted(meter, steps).max_latency == before && before != meter.max_latency {
            let i = choose|i: int| 0 <= i < init.len() && before == (#[trigger] init[i]).1;
            assert(steps[i].1 == before);
        } else if counted(meter, steps).max_latency != before {
            assert(steps[steps.len() - 1].1 == counted(meter, steps).max_latency);
        }
    }
}

/// A pass goes on for its whole duration and no longer, and begins with nothing
/// counted.
pub proof fn law_pass_lasts_its_duration(start: Duration, duration: Duration, now: Duration, m: Meter, on: bool)
    requires
        start.nanos + duration.nanos <= u64::MAX,
        call_ensures(Meter::new, (start, duration), m),
        call_ensures(Meter::running, (&m, now), on),
    ensures
        on == (now.nanos < start.nanos + duration.nanos),
        m.started == start,
        m.bytes == 0 && m.ops == 0 && m.max_latency.nanos == 0,
        m.last_report == start && m.last_bytes == 0,
{
}

/// A report says how much has been moved in all, its rate covers what was moved
/// since the last report over just that time, and the part of the pass that has
/// passed is counted from its start. It changes nothing but what the next report
/// starts from.
pub proof fn law_reports_cover_their_window(meter: Meter, index: usize, duration: Duration, now: Duration)
    requires
        meter.valid(),
        now.nanos >= meter.last_report.nanos,
        now.nanos >= meter.started.nanos,
    ensures
        due(meter, now) == (now.nanos - meter.last_report.nanos >= 150_000_000),
        ({
            let msg = report(meter, index, duration, now);
            &&& msg is Progress
            &&& msg->Progress_index == index
            &&& msg->Progress_bytes == meter.bytes
            &&& msg->rate_now == per_second(
                (meter.bytes - meter.last_bytes) as nat,
                (now.nanos - meter.last_report.nanos) as nat,
            )
            &&& msg->fraction == fraction_of(
                (now.nanos - meter.started.nanos) as nat,
                duration.nanos as nat,
            )
        }),
        ({
            let next = reported(meter, now);
            &&& next.last_report == now && next.last_bytes == meter.bytes
            &&& next.bytes == meter.bytes && next.ops == meter.ops
            &&& next.max_latency == meter.max_latency
            &&& next.started == meter.started && next.deadline == meter.deadline
        }),
{
}

/// The average latency is the time divided by the operations, to the nanosecond,
/// or to within the precision of a double where that is coarser. Without
/// operations there is none.
pub proof fn law_average_latency_is_time_over_operations(elapsed: nat, ops: nat)
    ensures
        ops == 0 ==> mean(elapsed, ops) == 0,
        ops > 0 && mean(elapsed, ops) < u64::MAX ==> {
            let exact = (elapsed as real) / (ops as real);
            let slack = exact * 13real / 9007199254740992real + 1real / 2real;
            &&& mean(elapsed, ops) as real <= exact + slack
            &&& exact <= mean(elapsed, ops) as real + slack
        },
{
    if ops > 0 && mean(elapsed, ops) < u64::MAX {
        let s = seconds(elapsed);
        let n = rounded(ops, 1);
        let q = quotient(s, n);
        let k = ops as real;
        let e = elapsed as real;
        let billion = 1_000_000_000real;
        let t = e / billion;
        law_seconds_are_nanoseconds_by_a_billion(elapsed);
        lemma_count_is_close(ops);
        lemma_value_sign(n);
        lemma_value_sign(s);
        law_quotients_are_close(s, n);
        lemma_ratio_sign(e, billion);
        lemma_close_quotient(value_of(s), t, 8, value_of(n), k, 1);
        let f = t / k;
        lemma_ratio_sign(t, k);
        lemma_close_follows(f, value_of(s) / value_of(n), value_of(q), 11, 1);
        let exact = e / k;
        lemma_last_two(f, billion, k);
        lemma_is_ratio(f * billion, e, k);
        lemma_value_is_ratio(q);
        let a = over(q) * 1_000_000_000;
        let b = under(q);
        let m = nearest(a, b);
        law_nearest_is_half_off_at_most(a, b);
        assert(m == mean(elapsed, ops));
        let v = value_of(q);
        let u = b as real;
        assert(a as real == (over(q) as real) * billion);
        lemma_product_is_real(m, b);
        let w = m as real;
        assert(2real * (w * u - (v * u) * billion) <= u);
        assert(2real * ((v * u) * billion - w * u) <= u);
        let g = v * billion;
        lemma_last_two(v, billion, u);
        lemma_spread(w, g, u);
        lemma_spread(g, w, u);
        lemma_regroup(2real, w - g, u);
        lemma_regroup(2real, g - w, u);
        lemma_nothing(u);
        lemma_cancel(2real * (w - g), 1real, u);
        lemma_cancel(2real * (g - w), 1real, u);
        lemma_ratio_sign(1real, 2real);
        assert(13nat as real == 13real);
        lemma_close_scales(v, f, 13, billion);
        let slack = exact * 13real / 9007199254740992real;
        lemma_ratio(exact * 13real, 9007199254740992real);
    }
}

/// The part of a span that has passed is the time that has passed divided by all
/// of it, to within the precision of a double, until that comes to the whole.
pub proof fn law_fractions_are_parts_of_the_time(elapsed: nat, total: nat)
    ensures
        total == 0 ==> fraction_of(elapsed, total) == one(),
        total > 0 && fraction_of(elapsed, total) != one() ==> close(
            value_of(fraction_of(elapsed, total)),
            ((elapsed as real) / 1_000_000_000real) / ((total as real) / 1_000_000_000real),
            20,
        ),
        fraction_of(elapsed, total) == one() || !at_least(fraction_of(elapsed, total), 1),
{
    if total > 0 {
        let s = seconds(elapsed);
        let n = seconds(total);
        let x = (elapsed as real) / 1_000_000_000real;
        let y = (total as real) / 1_000_000_000real;
        law_seconds_are_nanoseconds_by_a_billion(elapsed);
        law_seconds_are_nanoseconds_by_a_billion(total);
        lemma_ratio_sign(elapsed as real, 1_000_000_000real);
        lemma_ratio_sign(total as real, 1_000_000_000real);
        law_quotients_are_close(s, n);
        lemma_close_quotient(value_of(s), x, 8, value_of(n), y, 8);
        let f = x / y;
        lemma_ratio_sign(x, y);
        lemma_close_follows(f, value_of(s) / value_of(n), value_of(quotient(s, n)), 18, 1);
    }
}

} // verus!
