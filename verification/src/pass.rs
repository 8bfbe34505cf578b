//! One pass over a file: where each operation goes, when it stops, and what is
//! reported on the way. The operations themselves are the caller's.

use vstd::prelude::*;

use crate::bench::{block_of, jumps, too_small_text, usable_span, writes, Msg, PassKind, PassResult};
use crate::meter::{due, measured, recorded, report, reported, Meter};
use crate::rng::{output, stirred, Rng};
use crate::time::Duration;

verus! {

/// The offsets at which a pass reads or writes.
pub struct Walk {
    /// Whether the offsets are random.
    pub random: bool,
    /// Bytes that the offsets range over, a whole number of blocks.
    pub span: u64,
    /// Bytes per operation.
    pub block: usize,
    /// Largest offset of a sequential operation.
    pub last: u64,
    /// Offset of the next sequential operation.
    pub offset: u64,
    pub rng: Rng,
}

/// The sequential offset after another one: the next block, or the start again
/// behind the last one.
pub open spec fn next_offset(offset: u64, block: nat, last: u64) -> u64 {
    if offset + block > last {
        0
    } else {
        (offset + block) as u64
    }
}

impl Walk {
    /// The offsets are whole blocks inside the span.
    pub open spec fn valid(self) -> bool {
        &&& 0 < self.block <= self.span
        &&& self.span % self.block as u64 == 0
        &&& self.last == self.span || self.last == self.span - self.block
        &&& self.offset % self.block as u64 == 0
        &&& self.offset <= self.last
    }

    /// Offsets for a pass over a file of some size. Reads may come upon the end
    /// of the file and start over there; no write goes past the span, so that
    /// a scratch file keeps its size.
    pub fn new(kind: PassKind, size: u64, rng: Rng) -> (r: Result<Walk, String>)
        ensures
            match r {
                Ok(walk) => {
                    &&& walk.valid()
                    &&& size >= block_of(kind)
                    &&& walk.random == jumps(kind)
                    &&& walk.block == block_of(kind)
                    &&& walk.span == size - size % block_of(kind) as u64
                    &&& walk.last == if writes(kind) {
                        walk.span - walk.block
                    } else {
                        walk.span as int
                    }
                    &&& walk.offset == 0
                    &&& walk.rng == rng
                },
                Err(e) => size < block_of(kind) && e@ == too_small_text(block_of(kind) as nat),
            },
    {
        let block: usize = kind.block_size();
        match usable_span(size, block) {
            Err(e) => Err(e),
            Ok(span) => {
                proof {
                    lemma_whole_blocks(size as int, block as int);
                    vstd::arithmetic::div_mod::lemma_small_mod(0, block as nat);
                }
                let last: u64 = if kind.is_write() {
                    span - block as u64
                } else {
                    span
                };
                Ok(Walk { random: kind.is_random(), span, block, last, offset: 0, rng })
            },
        }
    }

    /// Where the next operation goes.
    pub fn next(&mut self) -> (r: u64)
        requires
            old(self).valid(),
        ensures
            final(self).valid(),
            r % old(self).block as u64 == 0,
            r <= old(self).last,
            old(self).random ==> {
                &&& final(self).rng@ == stirred(old(self).rng@)
                &&& r == (output(final(self).rng@) % (old(self).span / old(self).block as u64))
                    * old(self).block
                &&& final(self).offset == old(self).offset
            },
            !old(self).random ==> {
                &&& r == old(self).offset
                &&& final(self).offset == next_offset(
                    old(self).offset,
                    old(self).block as nat,
                    old(self).last,
                )
                &&& final(self).rng@ == old(self).rng@
            },
            final(self).random == old(self).random,
            final(self).span == old(self).span,
            final(self).block == old(self).block,
            final(self).last == old(self).last,
    {
        if self.random {
            return self.rng.aligned_offset(self.span, self.block);
        }
        let at: u64 = self.offset;
        let block: u64 = self.block as u64;
        if self.last - at < block {
            self.offset = 0;
            proof {
                vstd::arithmetic::div_mod::lemma_small_mod(0, block as nat);
            }
        } else {
            proof {
                vstd::arithmetic::div_mod::lemma_mod_adds(at as int, block as int, block as int);
                vstd::arithmetic::div_mod::lemma_mod_self_0(block as int);
                vstd::arithmetic::div_mod::lemma_mod_add_multiples_vanish(at as int, block as int);
            }
            self.offset = at + block;
        }
        at
    }

    /// Starts over.
    pub fn rewind(&mut self)
        requires
            old(self).valid(),
        ensures
            final(self).valid(),
            *final(self) == (Walk { offset: 0, ..*old(self) }),
    {
        proof {
            vstd::arithmetic::div_mod::lemma_small_mod(0, self.block as nat);
        }
        self.offset = 0;
    }
}

proof fn lemma_whole_blocks(size: int, block: int)
    requires
        size >= 0,
        block > 0,
    ensures
        (size - size % block) % block == 0,
{
    vstd::arithmetic::div_mod::lemma_sub_mod_noop(size, size % block, block);
    vstd::arithmetic::div_mod::lemma_mod_twice(size, block);
    vstd::arithmetic::div_mod::lemma_small_mod(0, block as nat);
}

/// A write of a whole block at any offset of the walk stays inside the span,
/// so that it never makes its file longer.
pub proof fn law_writes_stay_inside_the_file(walk: Walk, at: u64)
    requires
        walk.valid(),
        walk.last == walk.span - walk.block,
        at <= walk.last,
    ensures
        at + walk.block <= walk.span,
{
}

/// A pass that is under way.
pub struct Pass {
    pub kind: PassKind,
    pub walk: Walk,
    pub meter: Meter,
    /// How long the pass is to take.
    pub duration: Duration,
    /// Place of the pass in its run.
    pub index: usize,
    /// Whether the cache is bypassed.
    pub direct: bool,
}

impl Pass {
    /// The walk and the meter are valid.
    pub open spec fn valid(self) -> bool {
        self.walk.valid() && self.meter.valid()
    }

    /// A pass that begins now.
    pub fn begin(
        kind: PassKind,
        walk: Walk,
        direct: bool,
        duration: Duration,
        index: usize,
        now: Duration,
    ) -> (r: Pass)
        requires
            walk.valid(),
            now.nanos + duration.nanos <= u64::MAX,
        ensures
            r.valid(),
            r.kind == kind,
            r.walk == walk,
            r.direct == direct,
            r.duration == duration,
            r.index == index,
            r.meter.started == now,
            r.meter.deadline.nanos == now.nanos + duration.nanos,
            r.meter.bytes == 0,
            r.meter.ops == 0,
            r.meter.max_latency.nanos == 0,
            r.meter.last_report == now,
            r.meter.last_bytes == 0,
    {
        Pass { kind, walk, meter: Meter::new(now, duration), duration, index, direct }
    }

    /// Where to read or write next; nowhere once the time is up or the run has
    /// been stopped.
    pub fn step(&mut self, now: Duration, stopped: bool) -> (r: Option<u64>)
        requires
            old(self).valid(),
        ensures
            final(self).valid(),
            (r is Some) == (now.nanos < old(self).meter.deadline.nanos && !stopped),
            match r {
                Some(at) => {
                    &&& at % old(self).walk.block as u64 == 0
                    &&& at <= old(self).walk.last
                    &&& old(self).walk.random ==> {
                        &&& final(self).walk.rng@ == stirred(old(self).walk.rng@)
                        &&& at == (output(final(self).walk.rng@) % (old(self).walk.span
                            / old(self).walk.block as u64)) * old(self).walk.block
                        &&& final(self).walk.offset == old(self).walk.offset
                    }
                    &&& !old(self).walk.random ==> {
                        &&& at == old(self).walk.offset
                        &&& final(self).walk.offset == next_offset(
                            old(self).walk.offset,
                            old(self).walk.block as nat,
                            old(self).walk.last,
                        )
                        &&& final(self).walk.rng@ == old(self).walk.rng@
                    }
                    &&& final(self).walk.random == old(self).walk.random
                    &&& final(self).walk.span == old(self).walk.span
                    &&& final(self).walk.block == old(self).walk.block
                    &&& final(self).walk.last == old(self).walk.last
                },
                None => final(self).walk == old(self).walk,
            },
            final(self).kind == old(self).kind,
            final(self).meter == old(self).meter,
            final(self).duration == old(self).duration,
            final(self).index == old(self).index,
            final(self).direct == old(self).direct,
    {
        if self.meter.running(now) && !stopped {
            Some(self.walk.next())
        } else {
            None
        }
    }

    /// Takes in how many bytes an operation moved. None at all is the end of
    /// the file: it is not counted, and the pass starts over.
    pub fn moved(&mut self, n: u64, latency: Duration, now: Duration) -> (r: Option<Msg>)
        requires
            old(self).valid(),
            old(self).meter.bytes + n <= u64::MAX,
            old(self).meter.ops < u64::MAX,
        ensures
            final(self).valid(),
            n == 0 ==> {
                &&& r is None
                &&& final(self).walk == (Walk { offset: 0, ..old(self).walk })
                &&& final(self).meter == old(self).meter
            },
            n > 0 ==> {
                let meter = recorded(old(self).meter, n, latency);
                &&& final(self).walk == old(self).walk
                &&& (r is Some) == due(meter, now)
                &&& match r {
                    Some(msg) => {
                        &&& msg@ == report(meter, old(self).index, old(self).duration, now)
                        &&& final(self).meter == reported(meter, now)
                    },
                    None => final(self).meter == meter,
                }
            },
            final(self).kind == old(self).kind,
            final(self).duration == old(self).duration,
            final(self).index == old(self).index,
            final(self).direct == old(self).direct,
    {
        if n == 0 {
            self.walk.rewind();
            return None;
        }
        self.meter.record(n, latency);
        self.meter.maybe_report(self.index, self.duration, now)
    }

    /// The result of the pass, which ends now.
    pub fn finish(self, now: Duration) -> (r: PassResult)
        requires
            self.valid(),
        ensures
            r@ == measured(self.meter, self.kind, self.walk.block, self.direct, now),
    {
        self.meter.finish(self.kind, self.walk.block, self.direct, now)
    }
}

/// The offset of a sequential operation after `k` others.
pub open spec fn nth_offset(k: nat, block: nat, last: u64) -> u64
    decreases k,
{
    if k == 0 {
        0
    } else {
        next_offset(nth_offset((k - 1) as nat, block, last), block, last)
    }
}

/// A sequential pass goes over its file block by block, from the first to the
/// last that it may use and then from the first again, and leaves none out.
pub proof fn law_sequential_passes_leave_no_block_out(k: nat, block: nat, blocks: nat)
    requires
        block > 0,
        blocks > 0,
        blocks * block <= u64::MAX,
    ensures
        nth_offset(k, block, ((blocks - 1) * block) as u64) == (k % blocks) * block,
    decreases k,
{
    let last = ((blocks - 1) * block) as u64;
    assert((blocks - 1) * block >= 0 && (blocks - 1) * block + block == blocks * block) by (nonlinear_arith)
        requires
            blocks > 0,
            block > 0,
    ;
    if k == 0 {
        vstd::arithmetic::div_mod::lemma_small_mod(0, blocks);
    } else {
        let j = (k - 1) as nat;
        law_sequential_passes_leave_no_block_out(j, block, blocks);
        let m = j % blocks;
        let before = nth_offset(j, block, last);
        assert(before == m * block);
        assert(m * block + block == (m + 1) * block) by (nonlinear_arith);
        if m + 1 == blocks {
            assert((m + 1) * block > (blocks - 1) * block) by (nonlinear_arith)
                requires
                    m + 1 == blocks,
                    block > 0,
            ;
            vstd::arithmetic::div_mod::lemma_fundamental_div_mod(j as int, blocks as int);
            assert(k == blocks * (j / blocks) + blocks);
            assert(blocks * (j / blocks) + blocks == (j / blocks + 1) * blocks) by (nonlinear_arith);
            vstd::arithmetic::div_mod::lemma_mod_multiples_basic((j / blocks + 1) as int, blocks as int);
        } else {
            assert((m + 1) * block <= (blocks - 1) * block) by (nonlinear_arith)
                requires
                    m + 1 <= blocks - 1,
                    block > 0,
            ;
            vstd::arithmetic::div_mod::lemma_fundamental_div_mod(j as int, blocks as int);
            vstd::arithmetic::mul::lemma_mul_is_commutative(blocks as int, (j / blocks) as int);
            assert(k == (j / blocks) * blocks + (m + 1));
            vstd::arithmetic::div_mod::lemma_fundamental_div_mod_converse(
                k as int,
                blocks as int,
                (j / blocks) as int,
                (m + 1) as int,
            );
        }
    }
}

/// A walk is made just where its file holds a block; it uses every whole block
/// of the file, starts at the first, and a write never goes past the last.
pub proof fn law_walks_use_the_whole_file(kind: PassKind, size: u64, rng: Rng, r: Result<Walk, String>)
    requires
        call_ensures(Walk::new, (kind, size, rng), r),
    ensures
        r is Ok <==> size >= block_of(kind),
        r matches Ok(walk) ==> {
            &&& walk.block == block_of(kind)
            &&& walk.span <= size < walk.span + walk.block
            &&& walk.span % walk.block as u64 == 0
            &&& walk.offset == 0
            &&& walk.random == (kind == PassKind::RandRead || kind == PassKind::RandWrite)
            &&& kind == PassKind::SeqWrite || kind == PassKind::RandWrite ==> walk.last + walk.block
                == walk.span
            &&& kind == PassKind::SeqRead || kind == PassKind::RandRead ==> walk.last == walk.span
            &&& walk.rng == rng
        },
{
    if r is Ok {
        vstd::arithmetic::div_mod::lemma_mod_bound(size as int, block_of(kind) as int);
    }
}

/// A pass that begins has counted nothing, lasts for its duration from now on,
/// and bypasses the cache just where it is said to.
pub proof fn law_passes_begin_with_nothing_counted(
    kind: PassKind,
    walk: Walk,
    direct: bool,
    duration: Duration,
    index: usize,
    now: Duration,
    r: Pass,
)
    requires
        walk.valid(),
        now.nanos + duration.nanos <= u64::MAX,
        call_ensures(Pass::begin, (kind, walk, direct, duration, index, now), r),
    ensures
        r.meter.bytes == 0 && r.meter.ops == 0 && r.meter.max_latency.nanos == 0,
        r.meter.started == now && r.meter.deadline.nanos == now.nanos + duration.nanos,
        r.kind == kind && r.direct == direct && r.index == index && r.walk == walk,
        r.duration == duration,
{
}

/// A pass is timed to the moment at which it is finished, and its result says
/// what it moved and whether it bypassed the cache.
pub proof fn law_finished_passes_say_what_they_did(pass: Pass, now: Duration, r: PassResult)
    requires
        pass.valid(),
        now.nanos >= pass.meter.started.nanos,
        call_ensures(Pass::finish, (pass, now), r),
    ensures
        r.elapsed.nanos == now.nanos - pass.meter.started.nanos,
        r.bytes == pass.meter.bytes && r.ops == pass.meter.ops,
        r.max_latency == pass.meter.max_latency,
        r.direct == pass.direct,
        r.kind == pass.kind,
        r.block_size == pass.walk.block,
        r.status@ is Done,
{
}

/// A pass goes on until its time is up or it is stopped, and not a step longer.
/// Each step is at a whole block that lies inside the file; a sequential one is
/// behind the last, and at the start again where there is no room behind it.
/// Nothing is counted by it.
pub proof fn law_steps_go_on_until_the_end(pass: &mut Pass, now: Duration, stopped: bool, r: Option<u64>)
    requires
        old(pass).valid(),
        call_ensures(Pass::step, (pass, now, stopped), r),
    ensures
        r is Some <==> !stopped && now.nanos < old(pass).meter.deadline.nanos,
        r matches Some(at) ==> {
            let walk = old(pass).walk;
            &&& at % walk.block as u64 == 0
            &&& at <= walk.last
            &&& !walk.random ==> {
                &&& at == walk.offset
                &&& at + walk.block <= walk.last ==> final(pass).walk.offset == at + walk.block
                &&& at + walk.block > walk.last ==> final(pass).walk.offset == 0
            }
        },
        r is None ==> final(pass).walk == old(pass).walk,
        final(pass).meter == old(pass).meter,
        final(pass).kind == old(pass).kind,
        final(pass).direct == old(pass).direct,
        final(pass).walk.block == old(pass).walk.block,
        final(pass).walk.span == old(pass).walk.span,
        final(pass).walk.last == old(pass).walk.last,
        final(pass).walk.random == old(pass).walk.random,
{
}

/// What an operation moves is counted, with its latency where that is the longest
/// so far. One that moves nothing has come upon the end of the file: it is not
/// counted, nothing is said of it, and the pass starts over.
pub proof fn law_moved_bytes_are_counted(
    pass: &mut Pass,
    n: u64,
    latency: Duration,
    now: Duration,
    r: Option<Msg>,
)
    requires
        old(pass).valid(),
        old(pass).meter.bytes + n <= u64::MAX,
        old(pass).meter.ops < u64::MAX,
        now.nanos >= old(pass).meter.last_report.nanos,
        call_ensures(Pass::moved, (pass, n, latency, now), r),
    ensures
        n == 0 ==> {
            &&& r is None
            &&& final(pass).meter == old(pass).meter
            &&& final(pass).walk.offset == 0
        },
        n > 0 ==> {
            let m = old(pass).meter;
            let after = final(pass).meter;
            &&& after.bytes == m.bytes + n
            &&& after.ops == m.ops + 1
            &&& after.max_latency.nanos >= latency.nanos && after.max_latency.nanos >= m.max_latency.nanos
            &&& after.max_latency == latency || after.max_latency == m.max_latency
            &&& after.started == m.started && after.deadline == m.deadline
            &&& final(pass).walk == old(pass).walk
            &&& r is Some <==> now.nanos - m.last_report.nanos >= 150_000_000
            &&& r is Some ==> {
                &&& r->0@ is Progress
                &&& r->0@->Progress_index == old(pass).index
                &&& r->0@->Progress_bytes == m.bytes + n
                &&& after.last_report == now && after.last_bytes == after.bytes
            }
            &&& r is None ==> after.last_report == m.last_report && after.last_bytes == m.last_bytes
        },
        final(pass).direct == old(pass).direct,
        final(pass).kind == old(pass).kind,
{
}

} // verus!
