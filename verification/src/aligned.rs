//! Page-aligned buffer.
//!
//! `O_DIRECT` bypasses the page cache, and in exchange the kernel requires the
//! user buffer, the file offset and the length to all be aligned to the logical
//! block size. A plain `Vec<u8>` gives no such guarantee, so a page more than
//! asked for is allocated and the buffer begins at the first page boundary in
//! it.

use vstd::prelude::*;

use crate::rng::{law_stir_is_injective, law_stir_keeps_nonzero, seeded, stir, stirred};

verus! {

/// Alignment that satisfies every logical sector size in practice (512 through
/// 4096), and matches the page size on all supported targets.
pub const ALIGN: usize = 4096;

/// A length rounded up to whole pages, at least one.
pub open spec fn page_rounded(len: nat) -> nat {
    if len == 0 {
        ALIGN as nat
    } else {
        ((len + ALIGN - 1) / ALIGN as int * ALIGN) as nat
    }
}

/// The generator's state after `k` steps from a seed.
pub open spec fn state_after(seed: u64, k: nat) -> u64
    decreases k,
{
    if k == 0 {
        seeded(seed)
    } else {
        stirred(state_after(seed, (k - 1) as nat))
    }
}

/// Byte `j` of a word, least significant first.
pub open spec fn le_byte(word: u64, j: u64) -> u8 {
    ((word >> (8 * j) as u64) & 0xff) as u8
}

/// Byte `i` of the pattern that a seed gives: the little-endian bytes of the
/// generator's successive states.
pub open spec fn pattern(seed: u64, i: int) -> u8 {
    le_byte(state_after(seed, (i / 8 + 1) as nat), (i % 8) as u64)
}

/// A page-aligned buffer.
pub struct AlignedBuf {
    data: Vec<u8>,
    start: usize,
    len: usize,
}

impl View for AlignedBuf {
    type V = Seq<u8>;

    closed spec fn view(&self) -> Seq<u8> {
        self.data@.subrange(self.start as int, self.start + self.len)
    }
}

/// That `align_offset` on a pointer, called on the start of an allocation which
/// holds `data`, gave `skip` for `align`. The number rests on the address of the
/// allocation, which is no part of `data`: other numbers may be given for the
/// same bytes.
pub uninterp spec fn skip_gave(data: Seq<u8>, align: usize, skip: usize) -> bool;

/// `<*const u8>::align_offset`, on the start of a vector's allocation: how many
/// bytes to skip to reach an address that is a multiple of `align`. The result
/// is a number that the call gave. Which one is not said: an address is no part
/// of a vector's contents.
#[verifier::external_body]
fn align_offset(data: &Vec<u8>, align: usize) -> (r: usize)
    requires
        align == ALIGN,
    ensures
        skip_gave(data@, align, r),
{
    data.as_ptr().align_offset(align)
}

/// Where the buffer begins, given how many bytes to skip to the first page
/// boundary. A skip of a page or more says that no boundary could be found.
pub open spec fn begin_at(skip: usize) -> int {
    if skip < ALIGN {
        skip as int
    } else {
        0
    }
}

/// The buffer of `len` bytes in an allocation, behind the bytes to skip.
pub fn placed(data: Vec<u8>, skip: usize, len: usize) -> (r: AlignedBuf)
    requires
        len % ALIGN == 0,
        len >= ALIGN,
        len + ALIGN - 1 <= data@.len(),
    ensures
        r.valid(),
        r.allocated() == data@,
        r.begins() == begin_at(skip),
        r@ == data@.subrange(begin_at(skip), begin_at(skip) + len),
{
    let start: usize = if skip < ALIGN {
        skip
    } else {
        0
    };
    assert(data.len() <= usize::MAX);
    AlignedBuf { data, start, len }
}

impl AlignedBuf {
    /// The buffer lies inside its allocation and is made of whole pages.
    pub closed spec fn valid(self) -> bool {
        &&& self.start + self.len <= self.data@.len() <= usize::MAX
        &&& self.len % ALIGN == 0
        &&& self.len >= ALIGN
    }

    /// The bytes of the whole allocation.
    pub closed spec fn allocated(self) -> Seq<u8> {
        self.data@
    }

    /// Where in its allocation the buffer begins.
    pub closed spec fn begins(self) -> int {
        self.start as int
    }

    /// A zeroed buffer; `len` is rounded up to the next multiple of [`ALIGN`].
    /// It begins where `align_offset` said, in an allocation that is a page less
    /// one byte longer. That this is a page boundary is not stated: addresses
    /// are no part of what is proved here.
    pub fn new(len: usize) -> (r: AlignedBuf)
        requires
            page_rounded(len as nat) + ALIGN - 1 <= isize::MAX,
        ensures
            r.valid(),
            r@ == Seq::new(page_rounded(len as nat), |i: int| 0u8),
            r.allocated() == Seq::new((page_rounded(len as nat) + ALIGN - 1) as nat, |i: int| 0u8),
            exists|skip: usize| #[trigger]
                skip_gave(r.allocated(), ALIGN, skip) && r.begins() == begin_at(skip),
    {
        let rounded: usize = if len == 0 {
            ALIGN
        } else {
            (len - 1) / ALIGN * ALIGN + ALIGN
        };
        assert(rounded == page_rounded(len as nat));
        let data: Vec<u8> = vec![0u8; rounded + (ALIGN - 1)];
        let skip: usize = align_offset(&data, ALIGN);
        let r = placed(data, skip, rounded);
        assert(skip_gave(r.allocated(), ALIGN, skip));
        assert(r@ =~= Seq::new(page_rounded(len as nat), |i: int| 0u8));
        r
    }

    /// Fill with a non-trivial pattern so compressing or deduplicating storage
    /// layers cannot fake a fast write pass.
    pub fn fill_incompressible(&mut self, seed: u64)
        requires
            old(self).valid(),
        ensures
            final(self).valid(),
            final(self)@ == Seq::new(old(self)@.len(), |i: int| pattern(seed, i)),
            final(self).begins() == old(self).begins(),
            final(self).allocated().len() == old(self).allocated().len(),
    {
        let mut state: u64 = if seed == 0 {
            1
        } else {
            seed
        };
        let mut i: usize = 0;
        while i < self.len
            invariant
                self.valid(),
                self.len == old(self)@.len(),
                self.start == old(self).start,
                self.data@.len() == old(self).data@.len(),
                i <= self.len,
                i % 8 == 0,
                state == state_after(seed, (i / 8) as nat),
                forall|k: int| 0 <= k < i ==> #[trigger] self@[k] == pattern(seed, k),
            decreases self.len - i,
        {
            state = stir(state);
            assert(self.len - i >= 8);
            let mut j: usize = 0;
            while j < 8
                invariant
                    self.valid(),
                    self.len == old(self)@.len(),
                    self.start == old(self).start,
                    self.data@.len() == old(self).data@.len(),
                    j <= 8,
                    i + 8 <= self.len,
                    i % 8 == 0,
                    state == state_after(seed, (i / 8 + 1) as nat),
                    forall|k: int| 0 <= k < i + j ==> #[trigger] self@[k] == pattern(seed, k),
                decreases 8 - j,
            {
                let byte: u8 = ((state >> (8 * j as u64)) & 0xff) as u8;
                let at: usize = self.start + i + j;
                let ghost before = self@;
                self.data.set(at, byte);
                assert(self@ =~= before.update(i + j, byte));
                assert((i + j) as int / 8 == i / 8 && (i + j) as int % 8 == j);
                assert(byte == pattern(seed, i + j));
                j = j + 1;
            }
            i = i + 8;
        }
        assert(self@ =~= Seq::new(old(self)@.len(), |k: int| pattern(seed, k)));
    }

    /// The bytes of the buffer.
    pub fn as_slice(&self) -> (r: &[u8])
        requires
            self.valid(),
        ensures
            r@ == self@,
            r@.len() >= ALIGN,
    {
        vstd::slice::slice_subrange(self.data.as_slice(), self.start, self.start + self.len)
    }

    /// The bytes of the buffer, to be written to.
    pub fn as_mut_slice(&mut self) -> (r: &mut [u8])
        requires
            old(self).valid(),
        ensures
            r@ == old(self)@,
            final(r)@.len() == old(self)@.len() ==> final(self).valid() && final(self)@ == final(r)@,
            final(self).begins() == old(self).begins(),
    {
        let start: usize = self.start;
        let len: usize = self.len;
        let (_, tail) = self.data.as_mut_slice().split_at_mut(start);
        let (buf, _) = tail.split_at_mut(len);
        buf
    }
}

proof fn lemma_bytes_make_the_word(s: u64, t: u64)
    requires
        forall|j: u64| j < 8 ==> #[trigger] le_byte(s, j) == le_byte(t, j),
    ensures
        s == t,
{
    assert(le_byte(s, 0) == le_byte(t, 0));
    assert(le_byte(s, 1) == le_byte(t, 1));
    assert(le_byte(s, 2) == le_byte(t, 2));
    assert(le_byte(s, 3) == le_byte(t, 3));
    assert(le_byte(s, 4) == le_byte(t, 4));
    assert(le_byte(s, 5) == le_byte(t, 5));
    assert(le_byte(s, 6) == le_byte(t, 6));
    assert(le_byte(s, 7) == le_byte(t, 7));
    assert(s == t) by (bit_vector)
        requires
            ((s >> 0u64) & 0xff) as u8 == ((t >> 0u64) & 0xff) as u8,
            ((s >> 8u64) & 0xff) as u8 == ((t >> 8u64) & 0xff) as u8,
            ((s >> 16u64) & 0xff) as u8 == ((t >> 16u64) & 0xff) as u8,
            ((s >> 24u64) & 0xff) as u8 == ((t >> 24u64) & 0xff) as u8,
            ((s >> 32u64) & 0xff) as u8 == ((t >> 32u64) & 0xff) as u8,
            ((s >> 40u64) & 0xff) as u8 == ((t >> 40u64) & 0xff) as u8,
            ((s >> 48u64) & 0xff) as u8 == ((t >> 48u64) & 0xff) as u8,
            ((s >> 56u64) & 0xff) as u8 == ((t >> 56u64) & 0xff) as u8,
    ;
}

/// The pattern is never a run of zeroes: every word of it holds a byte other
/// than zero.
pub proof fn law_pattern_is_not_zero(seed: u64, word: nat)
    ensures
        exists|j: int| 0 <= j < 8 && #[trigger] pattern(seed, 8 * word + j) != 0,
{
    lemma_state_nonzero(seed, word + 1);
    let s = state_after(seed, word + 1);
    if forall|j: int| 0 <= j < 8 ==> #[trigger] pattern(seed, 8 * word + j) == 0 {
        assert forall|j: u64| j < 8 implies #[trigger] le_byte(s, j) == le_byte(0, j) by {
            assert(pattern(seed, 8 * word + j) == 0);
            assert((8 * word + j) / 8 == word && (8 * word + j) % 8 == j);
            assert(((0u64 >> (8 * j) as u64) & 0xff) as u8 == 0) by (bit_vector);
        }
        lemma_bytes_make_the_word(s, 0);
    }
}

/// A buffer is made of whole pages, and there is one at least.
pub proof fn law_buffer_holds_a_page(buf: AlignedBuf)
    requires
        buf.valid(),
    ensures
        buf@.len() >= ALIGN,
        buf@.len() % ALIGN as nat == 0,
{
}

/// Two seeds give different data in every word, unless both stand for the same
/// first state.
pub proof fn law_seeds_give_different_data(a: u64, b: u64, word: nat)
    requires
        seeded(a) != seeded(b),
    ensures
        exists|j: int|
            0 <= j < 8 && #[trigger] pattern(a, 8 * word + j) != pattern(b, 8 * word + j),
{
    lemma_states_differ(a, b, word + 1);
    let s = state_after(a, word + 1);
    let t = state_after(b, word + 1);
    if forall|j: int| 0 <= j < 8 ==> #[trigger] pattern(a, 8 * word + j) == pattern(b, 8 * word + j) {
        assert forall|j: u64| j < 8 implies #[trigger] le_byte(s, j) == le_byte(t, j) by {
            assert(pattern(a, 8 * word + j) == pattern(b, 8 * word + j));
            assert((8 * word + j) / 8 == word && (8 * word + j) % 8 == j);
        }
        lemma_bytes_make_the_word(s, t);
    }
}

proof fn lemma_states_differ(a: u64, b: u64, k: nat)
    requires
        seeded(a) != seeded(b),
    ensures
        state_after(a, k) != state_after(b, k),
    decreases k,
{
    if k > 0 {
        lemma_states_differ(a, b, (k - 1) as nat);
        if state_after(a, k) == state_after(b, k) {
            law_stir_is_injective(
                state_after(a, (k - 1) as nat),
                state_after(b, (k - 1) as nat),
            );
        }
    }
}

proof fn lemma_state_nonzero(seed: u64, k: nat)
    ensures
        state_after(seed, k) != 0,
    decreases k,
{
    if k > 0 {
        lemma_state_nonzero(seed, (k - 1) as nat);
        law_stir_keeps_nonzero(state_after(seed, (k - 1) as nat));
    }
}

/// A length is rounded up to the next whole number of pages, and no further; the
/// least buffer is a page.
pub proof fn law_lengths_are_rounded_up_to_pages(len: nat)
    ensures
        page_rounded(len) % 4096 == 0,
        page_rounded(len) >= len,
        len > 0 ==> page_rounded(len) < len + 4096,
        page_rounded(0) == 4096,
        len > 0 && len % 4096 == 0 ==> page_rounded(len) == len,
{
}

/// A new buffer holds as much as was asked for, and nothing but zeroes.
pub proof fn law_new_buffers_are_empty(len: usize, r: AlignedBuf, i: int)
    requires
        page_rounded(len as nat) + ALIGN - 1 <= isize::MAX,
        call_ensures(AlignedBuf::new, (len,), r),
        0 <= i < r@.len(),
    ensures
        r@.len() >= len,
        r@.len() % 4096 == 0,
        r@[i] == 0,
{
    law_lengths_are_rounded_up_to_pages(len as nat);
}

/// A filled buffer holds the pattern of its seed in every byte, and keeps its
/// length and its place.
pub proof fn law_filled_buffers_hold_the_pattern(buf: &mut AlignedBuf, seed: u64, r: (), i: int)
    requires
        old(buf).valid(),
        call_ensures(AlignedBuf::fill_incompressible, (buf, seed), r),
        0 <= i < old(buf)@.len(),
    ensures
        final(buf)@.len() == old(buf)@.len(),
        final(buf)@[i] == pattern(seed, i),
        final(buf).begins() == old(buf).begins(),
{
}

} // verus!
