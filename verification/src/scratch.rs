//! The scratch file: what it is called, how large it becomes, and how it is
//! filled. Making, writing and removing it is the caller's.

use vstd::prelude::*;

use crate::bench::{block_of, scratch_bytes, scratch_size, PassKind, SCRATCH_FREE_FRACTION, SCRATCH_MAX, SCRATCH_MIN, SEQ_BLOCK};
use crate::format::{bytes, size_text};
use crate::number::{decimal, digit, is_digit, law_decimals_read_back, number};
use crate::path::{components, counts, join, law_joined_name_lies_in_the_directory, path_join};
use crate::text::{holds, lemma_holds_end, lemma_holds_more};
use crate::time::Duration;

verus! {

/// Why there is no scratch file.
#[derive(Debug, Clone, Copy, PartialEq, Eq, Structural)]
pub enum ScratchError {
    /// Less room than the smallest scratch file needs; the free space.
    NoRoom(u64),
    /// The run was stopped.
    Cancelled,
    /// Too little was written in time.
    TooSlow,
}

/// What is said of an error.
pub open spec fn error_text(e: ScratchError) -> Seq<char> {
    match e {
        ScratchError::NoRoom(free) => {
            "needs "@ + size_text((SCRATCH_MIN * SCRATCH_FREE_FRACTION) as nat) + " free, only "@
                + size_text(free as nat) + " available"@
        },
        ScratchError::Cancelled => "cancelled"@,
        ScratchError::TooSlow => "device too slow to prepare a read sample within the budget"@,
    }
}

impl ScratchError {
    /// What is said of the error.
    pub fn text(self) -> (r: String)
        ensures
            r@ == error_text(self),
    {
        match self {
            ScratchError::NoRoom(free) => {
                let mut s = "needs ".to_string();
                s.append(bytes(SCRATCH_MIN * SCRATCH_FREE_FRACTION).as_str());
                s.append(" free, only ");
                s.append(bytes(free).as_str());
                s.append(" available");
                s
            },
            ScratchError::Cancelled => "cancelled".to_string(),
            ScratchError::TooSlow => {
                "device too slow to prepare a read sample within the budget".to_string()
            },
        }
    }
}

/// Name of a scratch file.
pub open spec fn file_name(process: nat, count: nat) -> Seq<char> {
    ".blkspeed-scratch-"@ + decimal(process) + "-"@ + decimal(count) + ".tmp"@
}

/// Name of a scratch file. The process identifier keeps concurrent processes
/// apart, the count keeps repeated runs inside one process from sharing a file.
pub fn scratch_name(process: u32, count: u64) -> (r: String)
    ensures
        r@ == file_name(process as nat, count as nat),
{
    let mut s = ".blkspeed-scratch-".to_string();
    s.append(number(process as u64).as_str());
    s.append("-");
    s.append(number(count).as_str());
    s.append(".tmp");
    s
}

/// Path of a scratch file in a directory.
pub fn scratch_path(dir: &str, process: u32, count: u64) -> (r: String)
    ensures
        r@ == join(dir@, file_name(process as nat, count as nat)),
{
    path_join(dir, scratch_name(process, count).as_str())
}

proof fn lemma_decimal_has_no_slash(n: nat)
    ensures
        !decimal(n).contains('/'),
    decreases n,
{
    let d = if n < 10 {
        n
    } else {
        n % 10
    };
    assert(digit(d) as u32 == 48 + d);
    assert(digit(d) != '/');
    if n >= 10 {
        lemma_decimal_has_no_slash(n / 10);
        let s = decimal(n);
        assert forall|i: int| 0 <= i < s.len() implies s[i] != '/' by {
            if i < s.len() - 1 {
                assert(decimal(n / 10)[i] == s[i]);
            }
        }
    }
}

/// A scratch file lies directly in the directory that was given for it, under
/// the name of a scratch file.
#[verifier::rlimit(60)]
pub proof fn law_scratch_file_lies_in_its_directory(dir: Seq<char>, process: nat, count: nat)
    ensures
        components(join(dir, file_name(process, count))) == components(dir).push(
            file_name(process, count),
        ),
{
    let name = file_name(process, count);
    reveal_strlit(".blkspeed-scratch-");
    reveal_strlit("-");
    reveal_strlit(".tmp");
    lemma_decimal_has_no_slash(process);
    lemma_decimal_has_no_slash(count);
    let a = ".blkspeed-scratch-"@ + decimal(process);
    assert(!a.contains('/')) by {
        assert forall|i: int| 0 <= i < a.len() implies a[i] != '/' by {
            if i >= 18 {
                assert(a[i] == decimal(process)[i - 18]);
            }
        }
    }
    let b = a + "-"@ + decimal(count);
    assert(!b.contains('/')) by {
        assert forall|i: int| 0 <= i < b.len() implies b[i] != '/' by {
            if i < a.len() {
                assert(b[i] == a[i]);
            } else if i > a.len() {
                assert(b[i] == decimal(count)[i - a.len() - 1]);
            }
        }
    }
    assert(!name.contains('/')) by {
        assert forall|i: int| 0 <= i < name.len() implies name[i] != '/' by {
            if i < b.len() {
                assert(name[i] == b[i]);
            } else {
                assert(name[i] == ".tmp"@[i - b.len()]);
            }
        }
    }
    assert(name.len() > 1);
    assert(counts(name)) by {
        assert(seq!['.'].len() == 1);
    }
    law_joined_name_lies_in_the_directory(dir, name);
}

/// What is left to do once the scratch file is there and has its length.
#[derive(Debug, Clone, Copy, PartialEq, Eq, Structural)]
pub enum Next {
    /// Fill it with data, in no more time than this.
    Fill(Duration),
    /// Use it as it is.
    Ready,
}

/// The scratch file on its way.
#[derive(Debug, Clone, Copy, PartialEq, Eq, Structural)]
pub struct Preparation {
    /// Bytes that the file is to have.
    pub size: u64,
    /// Time for filling it, where it is to be read back: a length alone leaves
    /// a sparse file, and reading holes measures the filesystem returning
    /// zeroes rather than the device.
    pub fill: Option<Duration>,
}

/// Bytes of the whole blocks among those written.
pub open spec fn usable(written: nat) -> nat {
    (written - written % SEQ_BLOCK as nat) as nat
}

impl Preparation {
    /// How large a scratch file to make in some amount of free space.
    pub fn begin(free: u64, fill: Option<Duration>) -> (r: Result<Preparation, ScratchError>)
        ensures
            match r {
                Ok(p) => {
                    &&& p.size == scratch_bytes(free as nat)
                    &&& p.size >= SCRATCH_MIN
                    &&& p.fill == fill
                },
                Err(e) => {
                    &&& scratch_bytes(free as nat) < SCRATCH_MIN
                    &&& e == ScratchError::NoRoom(free)
                },
            },
    {
        let size: u64 = scratch_size(free);
        if size < SCRATCH_MIN {
            return Err(ScratchError::NoRoom(free));
        }
        Ok(Preparation { size, fill })
    }

    /// What to do with the file once it has its length.
    pub fn sized(&self, stopped: bool) -> (r: Result<Next, ScratchError>)
        ensures
            r == if stopped {
                Err(ScratchError::Cancelled)
            } else {
                match self.fill {
                    Some(budget) => Ok(Next::Fill(budget)),
                    None => Ok(Next::Ready),
                }
            },
    {
        if stopped {
            return Err(ScratchError::Cancelled);
        }
        match self.fill {
            Some(budget) => Ok(Next::Fill(budget)),
            None => Ok(Next::Ready),
        }
    }

    /// Bytes of the file that hold data, once some have been written.
    pub fn filled(&self, written: u64) -> (r: Result<u64, ScratchError>)
        ensures
            match r {
                Ok(size) => size == usable(written as nat) && size >= SCRATCH_MIN / 8,
                Err(e) => usable(written as nat) < SCRATCH_MIN / 8 && e == ScratchError::TooSlow,
            },
    {
        let size: u64 = written - written % SEQ_BLOCK as u64;
        if size < SCRATCH_MIN / 8 {
            return Err(ScratchError::TooSlow);
        }
        Ok(size)
    }
}

/// The filling of a scratch file, block by block.
#[derive(Debug, Clone, Copy, PartialEq, Eq, Structural)]
pub struct Fill {
    /// Bytes that the file has.
    pub size: u64,
    /// Bytes written so far.
    pub offset: u64,
    /// When to stop.
    pub deadline: Duration,
}

impl Fill {
    /// Whole blocks have been written, inside the file.
    pub open spec fn valid(self) -> bool {
        &&& self.offset <= self.size
        &&& self.offset % SEQ_BLOCK as u64 == 0
    }

    /// Filling that begins now.
    pub fn begin(size: u64, budget: Duration, now: Duration) -> (r: Fill)
        requires
            now.nanos + budget.nanos <= u64::MAX,
        ensures
            r.valid(),
            r.size == size,
            r.offset == 0,
            r.deadline.nanos == now.nanos + budget.nanos,
    {
        Fill { size, offset: 0, deadline: Duration { nanos: now.nanos + budget.nanos } }
    }

    /// Where to write the next block; nowhere once the file is full, the time
    /// is up or the run has been stopped.
    pub fn step(&self, now: Duration, stopped: bool) -> (r: Option<u64>)
        requires
            self.valid(),
        ensures
            r == if self.offset + SEQ_BLOCK <= self.size && now.nanos < self.deadline.nanos
                && !stopped {
                Some(self.offset)
            } else {
                None
            },
    {
        if self.size - self.offset < SEQ_BLOCK as u64 || now.nanos >= self.deadline.nanos || stopped {
            None
        } else {
            Some(self.offset)
        }
    }

    /// Takes in that the block has been written.
    pub fn wrote(&mut self)
        requires
            old(self).valid(),
            old(self).offset + SEQ_BLOCK <= old(self).size,
        ensures
            final(self).valid(),
            *final(self) == (Fill { offset: (old(self).offset + SEQ_BLOCK) as u64, ..*old(self) }),
    {
        self.offset = self.offset + SEQ_BLOCK as u64;
    }

    /// Length to cut the file to, so that no pass can read a sparse hole; none
    /// where the file is full.
    pub fn trim(&self) -> (r: Option<u64>)
        ensures
            r == if self.offset < self.size {
                Some(self.offset)
            } else {
                None
            },
    {
        if self.offset < self.size {
            Some(self.offset)
        } else {
            None
        }
    }
}

/// A scratch file takes no more than an eighth of the free space and no more
/// than the upper bound.
pub proof fn law_scratch_file_is_bounded(free: nat)
    ensures
        scratch_bytes(free) <= SCRATCH_MAX,
        scratch_bytes(free) * SCRATCH_FREE_FRACTION <= free,
{
}

/// A scratch file that is used at all has room for a block of any pass, whether
/// it was filled or not.
pub proof fn law_scratch_file_holds_a_block(size: u64, kind: PassKind)
    requires
        size >= SCRATCH_MIN / 8,
    ensures
        size >= block_of(kind),
{
}

/// Every byte of a filled file that a pass may read has been written: what
/// stays of the file is what filling wrote, all of it in whole blocks, and no
/// more than its size before.
pub proof fn law_filled_file_has_no_holes(fill: Fill)
    requires
        fill.valid(),
    ensures
        usable(fill.offset as nat) == fill.offset,
        fill.offset <= fill.size,
{
}

/// A scratch file is made just where there are five hundred and twelve mebibytes
/// free: an eighth of them is the least that is worth making. It takes an eighth
/// of the free space, up to a gibibyte, and is filled where that was asked for.
pub proof fn law_scratch_file_is_made_where_there_is_room(
    free: u64,
    fill: Option<Duration>,
    r: Result<Preparation, ScratchError>,
)
    requires
        call_ensures(Preparation::begin, (free, fill), r),
    ensures
        r is Ok <==> free >= 512 * 1024 * 1024,
        r matches Ok(p) ==> {
            &&& p.size * 8 <= free
            &&& p.size <= 1024 * 1024 * 1024
            &&& (p.size + 1) * 8 > free || p.size == 1024 * 1024 * 1024
            &&& p.fill == fill
        },
        r matches Err(e) ==> e == ScratchError::NoRoom(free),
{
}

/// A file that is to be read back is filled unless the run is stopped, and one
/// that is not is used as it is.
pub proof fn law_only_files_to_be_read_are_filled(p: Preparation, stopped: bool, r: Result<Next, ScratchError>)
    requires
        call_ensures(Preparation::sized, (&p, stopped), r),
    ensures
        stopped ==> r == Err::<Next, ScratchError>(ScratchError::Cancelled),
        !stopped && p.fill is None ==> r == Ok::<Next, ScratchError>(Next::Ready),
        !stopped && p.fill is Some ==> r == Ok::<Next, ScratchError>(Next::Fill(p.fill->0)),
{
}

/// What is read of a filled file is the whole blocks that were written, all of
/// them, and there have to be eight mebibytes at least.
pub proof fn law_only_written_blocks_are_read(p: Preparation, written: u64, r: Result<u64, ScratchError>)
    requires
        call_ensures(Preparation::filled, (&p, written), r),
    ensures
        r is Ok <==> written >= 8 * 1024 * 1024,
        r matches Ok(size) ==> {
            &&& size <= written < size + 4 * 1024 * 1024
            &&& size % 4194304 == 0
        },
        r matches Err(e) ==> e == ScratchError::TooSlow,
{
}

/// Filling goes on block by block, each behind the last one, while there is room
/// for a whole one, time, and nobody has stopped it.
pub proof fn law_filling_goes_on_while_it_can(fill: Fill, now: Duration, stopped: bool, r: Option<u64>, cut: Option<u64>)
    requires
        fill.valid(),
        call_ensures(Fill::step, (&fill, now, stopped), r),
        call_ensures(Fill::trim, (&fill,), cut),
    ensures
        r is Some <==> !stopped && now.nanos < fill.deadline.nanos && fill.size - fill.offset >= 4 * 1024
            * 1024,
        r matches Some(at) ==> at == fill.offset,
        cut is Some <==> fill.offset < fill.size,
        cut matches Some(len) ==> len == fill.offset,
{
}

/// What is said of a lack of room gives what is needed and what there is.
pub proof fn law_lack_of_room_is_put_in_numbers(free: u64)
    ensures
        holds(error_text(ScratchError::NoRoom(free)), size_text(512 * 1024 * 1024)),
        holds(error_text(ScratchError::NoRoom(free)), size_text(free as nat)),
{
    let a = size_text(512 * 1024 * 1024);
    let b = size_text(free as nat);
    lemma_holds_end("needs "@, a);
    lemma_holds_more("needs "@ + a, a, " free, only "@);
    lemma_holds_more("needs "@ + a + " free, only "@, a, b);
    lemma_holds_more("needs "@ + a + " free, only "@ + b, a, " available"@);
    lemma_holds_end("needs "@ + a + " free, only "@, b);
    lemma_holds_more("needs "@ + a + " free, only "@ + b, b, " available"@);
    assert((SCRATCH_MIN * SCRATCH_FREE_FRACTION) as nat == 512 * 1024 * 1024);
}

/// Scratch files of different processes, and of different runs of one process,
/// have different names.
#[verifier::rlimit(60)]
pub proof fn law_scratch_files_have_names_of_their_own(a: nat, b: nat, c: nat, d: nat)
    requires
        file_name(a, b) == file_name(c, d),
    ensures
        a == c,
        b == d,
{
    let head = ".blkspeed-scratch-"@;
    let dash = "-"@;
    let tail = ".tmp"@;
    reveal_strlit("-");
    let x = decimal(a) + dash + decimal(b);
    let y = decimal(c) + dash + decimal(d);
    let s = file_name(a, b);
    assert(s =~= head + x + tail);
    assert(s =~= head + y + tail);
    assert(x.len() == y.len());
    assert(x =~= s.subrange(head.len() as int, (head.len() + x.len()) as int));
    assert(y =~= s.subrange(head.len() as int, (head.len() + x.len()) as int));
    law_decimals_read_back(a);
    law_decimals_read_back(b);
    law_decimals_read_back(c);
    law_decimals_read_back(d);
    let m = decimal(a).len() as int;
    let n = decimal(c).len() as int;
    assert('-' as u32 == 45);
    assert(x[m] == '-');
    assert(y[n] == '-');
    if m < n {
        assert(y[m] == decimal(c)[m]);
        assert(is_digit(decimal(c)[m], 10));
    } else if n < m {
        assert(x[n] == decimal(a)[n]);
        assert(is_digit(decimal(a)[n], 10));
    }
    assert(decimal(a) =~= x.take(m));
    assert(decimal(c) =~= y.take(m));
    assert(decimal(b) =~= x.skip(m + 1));
    assert(decimal(d) =~= y.skip(m + 1));
}

/// A block that has been written is counted, and nothing else changes by it.
pub proof fn law_written_blocks_are_counted(fill: &mut Fill, r: ())
    requires
        old(fill).valid(),
        old(fill).offset + 4 * 1024 * 1024 <= old(fill).size,
        call_ensures(Fill::wrote, (fill,), r),
    ensures
        final(fill).offset == old(fill).offset + 4 * 1024 * 1024,
        final(fill).size == old(fill).size,
        final(fill).deadline == old(fill).deadline,
        final(fill).valid(),
{
}

} // verus!
