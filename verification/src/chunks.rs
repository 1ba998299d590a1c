//! Disjoint chunk partitioner: divides a fixed-length buffer into
//! consecutive chunks of a configured stride and atomically assigns each
//! chunk to exactly one caller, across any number of threads.
//!
//! The partitioner owns the target buffer for its whole lifetime and is the
//! sole holder of the backing storage; what a successful claim hands out is
//! a [`ChunkHandle`], an index range into that buffer, never a second live
//! reference. Access to the elements goes back through the partitioner
//! ([`AtomicChunksMut::get`], [`AtomicChunksMut::write_chunk`]), so no
//! element is ever reachable mutably through two handles at once; the
//! geometry lemmas below prove that distinct chunks never overlap and that
//! together they cover the whole buffer.
//!
//! The only shared mutable state is one atomic cursor holding the offset of
//! the next unclaimed element. A claim observes the cursor and tries to
//! compare-and-swap it forward by one stride (less at the buffer's tail);
//! a failed swap means another thread claimed that chunk first, and the
//! claim retries from a fresh reading. The cursor only ever moves upward,
//! which bounds the retries of any single call by the buffer's length.

use vstd::prelude::*;

use core::sync::atomic::AtomicUsize;
use core::sync::atomic::Ordering;
use vstd::arithmetic::div_mod::lemma_div_is_ordered;
use vstd::arithmetic::div_mod::lemma_fundamental_div_mod;
use vstd::arithmetic::div_mod::lemma_fundamental_div_mod_converse;
use vstd::arithmetic::mul::lemma_mul_inequality;
use vstd::pervasive::VecAdditionalExecFns;

verus! {

// ---------------------------------------------------------------------------
// Chunk geometry
//
// A buffer of length `len`, cut into chunks of `stride` elements, falls into
// `ceil(len / stride)` chunks; chunk `k` spans the element range
// `[k * stride, min(k * stride + stride, len))`, so every chunk but possibly
// the last holds exactly `stride` elements.
// ---------------------------------------------------------------------------

/// How many chunks a buffer of length `len` falls into under `stride`:
/// the ceiling of `len / stride`.
pub open spec fn chunk_count(len: int, stride: int) -> int
    recommends
        stride >= 1,
{
    (len + stride - 1) / stride
}

/// The first element of chunk `k`.
pub open spec fn chunk_start(stride: int, k: int) -> int {
    k * stride
}

/// One past the last element of chunk `k` in a buffer of length `len`.
pub open spec fn chunk_end(len: int, stride: int, k: int) -> int {
    if k * stride + stride <= len {
        k * stride + stride
    } else {
        len
    }
}

/// Whether element `x` of a buffer of length `len` belongs to chunk `k`.
pub open spec fn chunk_holds(len: int, stride: int, k: int, x: int) -> bool {
    chunk_start(stride, k) <= x < chunk_end(len, stride, k)
}

/// What a successful claim must hand out: the canonical range of some
/// in-range chunk, identified by its dense 0-based index.
pub open spec fn valid_handle(len: int, stride: int, h: ChunkHandle) -> bool {
    &&& h.start == chunk_start(stride, h.index as int)
    &&& h.end == chunk_end(len, stride, h.index as int)
    &&& h.start < len
    &&& (h.index as int) < chunk_count(len, stride)
}

/// The unit handed to a caller by a successful claim: a chunk's dense
/// 0-based index and the element range `[start, end)` it spans. The handle
/// carries only the range, not a reference; the elements are reached back
/// through the partitioner that issued it.
#[derive(Clone, Copy, PartialEq, Eq, Structural, Debug)]
pub struct ChunkHandle {
    /// The chunk's 0-based index: `start / stride`.
    pub index: usize,
    /// The offset of the chunk's first element.
    pub start: usize,
    /// One past the offset of the chunk's last element.
    pub end: usize,
}

/// A concurrent partitioner that hands out each chunk of its buffer
/// exactly once.
pub struct AtomicChunksMut<T> {
    /// The target buffer; the partitioner is the sole holder of it.
    slice: Vec<T>,
    /// The configured chunk size; at least 1.
    step: usize,
    /// The shared cursor: the offset of the first unclaimed element. Moves
    /// only upward, one chunk per successful claim, via compare-and-swap.
    next: AtomicUsize,
}

impl<T> View for AtomicChunksMut<T> {
    type V = Seq<T>;

    closed spec fn view(&self) -> Seq<T> {
        self.slice@
    }
}

impl<T> AtomicChunksMut<T> {
    /// The configured chunk size.
    pub closed spec fn stride_spec(&self) -> int {
        self.step as int
    }

    /// Well-formedness: the stride is positive. Established at construction
    /// and preserved by every method.
    pub open spec fn wf(&self) -> bool {
        self.stride_spec() >= 1
    }

    /// How many chunks this partitioner hands out in total.
    pub open spec fn chunks_spec(&self) -> int {
        chunk_count(self@.len() as int, self.stride_spec())
    }

    /// Creates a partitioner over `slice` with chunk size `step`.
    ///
    /// A zero `step` would leave the chunking degenerate, so it is rejected
    /// here, at construction.
    pub fn new(slice: Vec<T>, step: usize) -> (it: AtomicChunksMut<T>)
        requires
            step >= 1,
        ensures
            it@ == slice@,
            it.stride_spec() == step,
            it.wf(),
    {
        AtomicChunksMut { slice, step, next: AtomicUsize::new(0) }
    }

    /// Claims the next unassigned chunk, or reports exhaustion.
    ///
    /// On success the handle is the canonical range of an in-range chunk;
    /// no two calls, from any threads in any interleaving, ever succeed
    /// with overlapping ranges, and once the buffer is exhausted every
    /// further call reports exhaustion. Those cross-call guarantees are
    /// stated over the claim model below ([`lemma_chunks_disjoint`],
    /// [`lemma_exhausted_stays`]); the contract here pins down each single
    /// call.
    ///
    /// The retry loop is bounded: every failed swap means the cursor moved
    /// strictly above the observed value, and the cursor never falls, so a
    /// call retries at most `len` times.
    #[verifier::loop_isolation(false)]
    pub fn next(&self) -> (r: Option<ChunkHandle>)
        requires
            self.wf(),
        ensures
            r matches Some(h) ==> valid_handle(self@.len() as int, self.stride_spec(), h),
            r matches Some(h) ==> (h.index as int) < self.chunks_spec(),
            self@.len() == 0 ==> r is None,
    {
        let len = self.slice.len();
        // The lowest offset the cursor can still hold: it starts at zero
        // and, after a failed swap against a reading `current`, the cursor
        // is already above `current`.
        let mut floor: usize = 0;
        loop
            invariant
                floor <= len,
            decreases len - floor,
        {
            let current = self.next.load(Ordering::SeqCst);
            if current >= len {
                return None;
            }
            if current < floor {
                // The cursor never falls, so a reading below `floor` cannot
                // occur; no chunk is handed out on such a reading.
                return None;
            }
            if current % self.step != 0 {
                // The cursor starts at zero and every successful swap moves
                // it from one chunk boundary to the next, so a reading off
                // the boundaries cannot occur; no chunk is handed out on
                // such a reading.
                return None;
            }
            let end = if self.step > len - current {
                len
            } else {
                current + self.step
            };
            let res = self.next.compare_exchange(current, end, Ordering::SeqCst, Ordering::SeqCst);
            if res.is_ok() {
                proof {
                    lemma_boundary_is_chunk(len as int, self.stride_spec(), current as int);
                }
                return Some(ChunkHandle { index: current / self.step, start: current, end });
            }
            floor = current + 1;
        }
    }

    /// The length of the target buffer.
    pub fn len(&self) -> (n: usize)
        ensures
            n == self@.len(),
    {
        self.slice.len()
    }

    /// The configured chunk size.
    pub fn stride(&self) -> (s: usize)
        ensures
            s == self.stride_spec(),
    {
        self.step
    }

    /// Reads the element at offset `i` of the target buffer.
    pub fn get(&self, i: usize) -> (x: &T)
        requires
            i < self@.len(),
        ensures
            *x == self@[i as int],
    {
        &self.slice[i]
    }

    /// Gives the target buffer back, ending the partitioner's lifetime.
    pub fn into_data(self) -> (v: Vec<T>)
        ensures
            v@ == self@,
    {
        self.slice
    }
}

impl<T: Copy> AtomicChunksMut<T> {
    /// Writes the marker `v` into every element of the range `[h.start,
    /// h.end)`, leaving the rest of the buffer untouched.
    pub fn write_chunk(&mut self, h: &ChunkHandle, v: T)
        requires
            h.start <= h.end,
            h.end <= old(self)@.len(),
        ensures
            final(self)@ == chunk_written(old(self)@, h.start as int, h.end as int, v),
            final(self).stride_spec() == old(self).stride_spec(),
    {
        let mut i = h.start;
        while i < h.end
            invariant
                h.start <= i <= h.end,
                h.end <= self@.len(),
                self@.len() == old(self)@.len(),
                self.stride_spec() == old(self).stride_spec(),
                forall|x: int|
                    0 <= x < self@.len() ==> self@[x] == (if h.start <= x < i {
                        v
                    } else {
                        old(self)@[x]
                    }),
            decreases h.end - i,
        {
            self.slice.set(i, v);
            i = i + 1;
        }
        proof {
            assert(self@ =~= chunk_written(old(self)@, h.start as int, h.end as int, v));
        }
    }
}

// ---------------------------------------------------------------------------
// Claim model
//
// A run of the partitioner is described by the sequence of cursor values
// taken by successful advances: the cursor after `k` successful claims is
// `min(k * stride, len)`, and the `k`-th successful claim (0-based) is
// handed chunk `k`. The lemmas below state the cross-call guarantees over
// this model: every intermediate cursor value is the target of exactly one
// successful advance, so the claims of concurrent threads interleave into
// one strictly ascending cursor history however the threads race.
// ---------------------------------------------------------------------------

/// The cursor value after `k` successful claims over a buffer of length
/// `len` with chunk size `stride`.
pub open spec fn cursor_at(len: int, stride: int, k: int) -> int {
    if k * stride <= len {
        k * stride
    } else {
        len
    }
}

/// An offset that is both a chunk boundary and within the buffer is the
/// start of an in-range chunk, with the canonical index and range.
proof fn lemma_boundary_is_chunk(len: int, stride: int, c: int)
    requires
        stride >= 1,
        0 <= c < len,
        c % stride == 0,
    ensures
        chunk_start(stride, c / stride) == c,
        chunk_end(len, stride, c / stride) == if c + stride <= len {
            c + stride
        } else {
            len
        },
        c / stride < chunk_count(len, stride),
{
    lemma_fundamental_div_mod(c, stride);
    assert(c == stride * (c / stride));
    assert(chunk_start(stride, c / stride) == c) by (nonlinear_arith)
        requires
            c == stride * (c / stride),
    ;
    // The chunk index is in range: from c <= len - 1 it follows that
    // c / stride <= (len - 1) / stride, and the chunk count is one more
    // than the latter.
    lemma_div_is_ordered(c, len - 1, stride);
    lemma_fundamental_div_mod(len - 1, stride);
    let q = (len - 1) / stride;
    let r = (len - 1) % stride;
    assert(len + stride - 1 == (q + 1) * stride + r) by (nonlinear_arith)
        requires
            len - 1 == stride * q + r,
    ;
    lemma_fundamental_div_mod_converse(len + stride - 1, stride, q + 1, r);
    assert(chunk_count(len, stride) == q + 1);
}

/// The start of every in-range chunk lies within the buffer.
pub proof fn lemma_start_in_range(len: int, stride: int, k: int)
    requires
        stride >= 1,
        0 <= k < chunk_count(len, stride),
    ensures
        0 <= k * stride < len,
{
    assert(k * stride >= 0) by (nonlinear_arith)
        requires
            k >= 0,
            stride >= 1,
    ;
    if k * stride >= len {
        // Then the buffer already ends inside the first k chunks, so the
        // chunk count is at most k: a contradiction.
        let r = stride - 1;
        assert(k * stride + stride - 1 == k * stride + r);
        lemma_fundamental_div_mod_converse(k * stride + stride - 1, stride, k, r);
        lemma_div_is_ordered(len + stride - 1, k * stride + stride - 1, stride);
        assert(chunk_count(len, stride) <= k);
    }
}

/// Monotonic cursor: over a run to exhaustion the cursor history is
/// strictly increasing and stays within `[0, len]`.
pub proof fn lemma_cursor_monotonic(len: int, stride: int, i: int, j: int)
    requires
        stride >= 1,
        len >= 0,
        0 <= i < j <= chunk_count(len, stride),
    ensures
        0 <= cursor_at(len, stride, i) < cursor_at(len, stride, j) <= len,
{
    lemma_start_in_range(len, stride, i);
    assert(cursor_at(len, stride, i) == i * stride);
    lemma_mul_inequality(i + 1, j, stride);
    assert((i + 1) * stride == i * stride + stride) by (nonlinear_arith);
    if j * stride <= len {
        assert(cursor_at(len, stride, j) == j * stride);
        assert(i * stride + stride <= j * stride);
    } else {
        assert(cursor_at(len, stride, j) == len);
    }
}

/// The `k`-th successful claim is handed exactly chunk `k`: the cursor it
/// advances from is chunk `k`'s start (a multiple of the stride, giving
/// back `k` under division), and the value it advances to is chunk `k`'s
/// end.
pub proof fn lemma_claim_sequence(len: int, stride: int, k: int)
    requires
        stride >= 1,
        0 <= k < chunk_count(len, stride),
    ensures
        cursor_at(len, stride, k) == chunk_start(stride, k),
        cursor_at(len, stride, k + 1) == chunk_end(len, stride, k),
        cursor_at(len, stride, k) % stride == 0,
        cursor_at(len, stride, k) / stride == k,
{
    lemma_start_in_range(len, stride, k);
    assert(cursor_at(len, stride, k) == k * stride);
    lemma_fundamental_div_mod_converse(k * stride, stride, k, 0);
    assert((k + 1) * stride == k * stride + stride) by (nonlinear_arith);
    if (k + 1) * stride <= len {
        assert(cursor_at(len, stride, k + 1) == k * stride + stride);
    } else {
        assert(cursor_at(len, stride, k + 1) == len);
    }
}

/// Idempotent exhaustion: once as many claims have succeeded as there are
/// chunks, the cursor sits at the buffer's length and never moves again,
/// and no later claim is handed a chunk.
pub proof fn lemma_exhausted_stays(len: int, stride: int, k: int)
    requires
        stride >= 1,
        len >= 0,
        k >= chunk_count(len, stride),
    ensures
        cursor_at(len, stride, k) == len,
{
    let cc = chunk_count(len, stride);
    assert(cc >= 0) by {
        lemma_div_is_ordered(0, len + stride - 1, stride);
    }
    // cc * stride >= len: the chunks reach the end of the buffer.
    lemma_fundamental_div_mod(len + stride - 1, stride);
    let r = (len + stride - 1) % stride;
    assert(0 <= r < stride) by {
        lemma_fundamental_div_mod(len + stride - 1, stride);
    }
    assert(cc * stride >= len) by (nonlinear_arith)
        requires
            len + stride - 1 == stride * cc + r,
            r < stride,
    ;
    lemma_mul_inequality(cc, k, stride);
    if k * stride <= len {
        assert(cc * stride <= k * stride);
    }
}

/// All chunks but possibly the last hold exactly `stride` elements; the
/// last holds whatever remains, at least one element.
pub proof fn lemma_chunk_sizes(len: int, stride: int, k: int)
    requires
        stride >= 1,
        0 <= k < chunk_count(len, stride),
    ensures
        0 < chunk_end(len, stride, k) - chunk_start(stride, k) <= stride,
        k < chunk_count(len, stride) - 1 ==> chunk_end(len, stride, k) - chunk_start(stride, k)
            == stride,
{
    lemma_start_in_range(len, stride, k);
    if k < chunk_count(len, stride) - 1 {
        lemma_start_in_range(len, stride, k + 1);
        assert((k + 1) * stride == k * stride + stride) by (nonlinear_arith);
    }
}

/// No overlap: no element belongs to two distinct chunks.
pub proof fn lemma_chunks_disjoint(len: int, stride: int, i: int, j: int, x: int)
    requires
        stride >= 1,
        i != j,
    ensures
        !(chunk_holds(len, stride, i, x) && chunk_holds(len, stride, j, x)),
{
    if chunk_holds(len, stride, i, x) && chunk_holds(len, stride, j, x) {
        if i < j {
            lemma_mul_inequality(i + 1, j, stride);
            assert((i + 1) * stride == i * stride + stride) by (nonlinear_arith);
        } else {
            lemma_mul_inequality(j + 1, i, stride);
            assert((j + 1) * stride == j * stride + stride) by (nonlinear_arith);
        }
    }
}

/// Totality: every element of the buffer belongs to the chunk its offset
/// divides into, and that chunk's index is in range.
pub proof fn lemma_chunks_cover(len: int, stride: int, x: int)
    requires
        stride >= 1,
        0 <= x < len,
    ensures
        chunk_holds(len, stride, x / stride, x),
        0 <= x / stride < chunk_count(len, stride),
{
    lemma_fundamental_div_mod(x, stride);
    let q = x / stride;
    let r = x % stride;
    assert(0 <= r < stride) by {
        lemma_fundamental_div_mod(x, stride);
    }
    assert(q >= 0) by (nonlinear_arith)
        requires
            x == stride * q + r,
            x >= 0,
            0 <= r < stride,
    ;
    assert(chunk_start(stride, q) == stride * q) by (nonlinear_arith);
    assert(chunk_start(stride, q) <= x < chunk_start(stride, q) + stride);
    // The owning chunk's start is a boundary within the buffer.
    lemma_fundamental_div_mod_converse(stride * q, stride, q, 0);
    lemma_boundary_is_chunk(len, stride, stride * q);
}

/// Write isolation, pointwise: each element has exactly one owning chunk.
pub proof fn lemma_unique_owner(len: int, stride: int, x: int)
    requires
        stride >= 1,
        0 <= x < len,
    ensures
        forall|k: int| chunk_holds(len, stride, k, x) <==> k == x / stride,
{
    lemma_chunks_cover(len, stride, x);
    assert forall|k: int| k != x / stride implies !chunk_holds(len, stride, k, x) by {
        lemma_chunks_disjoint(len, stride, k, x / stride, x);
    }
}

// ---------------------------------------------------------------------------
// Write model
//
// What concurrent workers do with their claimed chunks is modelled as a
// marker write: worker `k` fills chunk `k` with its own marker. Because
// distinct chunks never overlap, such writes commute, and after every chunk
// has been written each element holds exactly the marker of the one chunk
// that owns it.
// ---------------------------------------------------------------------------

/// The buffer after the marker `v` is written into every element of the
/// range `[start, end)`.
pub open spec fn chunk_written<T>(s: Seq<T>, start: int, end: int, v: T) -> Seq<T> {
    Seq::new(
        s.len(),
        |x: int|
            if start <= x < end {
                v
            } else {
                s[x]
            },
    )
}

/// Marker writes into non-overlapping ranges commute: the claimed chunks
/// may be filled in any order, by any interleaving of workers, with the
/// same outcome.
pub proof fn lemma_disjoint_writes_commute<T>(
    s: Seq<T>,
    a1: int,
    b1: int,
    v1: T,
    a2: int,
    b2: int,
    v2: T,
)
    requires
        b1 <= a2 || b2 <= a1,
    ensures
        chunk_written(chunk_written(s, a1, b1, v1), a2, b2, v2) == chunk_written(
            chunk_written(s, a2, b2, v2),
            a1,
            b1,
            v1,
        ),
{
    assert(chunk_written(chunk_written(s, a1, b1, v1), a2, b2, v2) =~= chunk_written(
        chunk_written(s, a2, b2, v2),
        a1,
        b1,
        v1,
    ));
}

/// The buffer after chunks `0 .. k` have each been filled with their own
/// marker: chunk `j` with `markers[j]`.
pub open spec fn all_chunks_written<T>(
    s: Seq<T>,
    len: int,
    stride: int,
    markers: Seq<T>,
    k: int,
) -> Seq<T>
    decreases k,
{
    if k <= 0 {
        s
    } else {
        chunk_written(
            all_chunks_written(s, len, stride, markers, k - 1),
            chunk_start(stride, k - 1),
            chunk_end(len, stride, k - 1),
            markers[k - 1],
        )
    }
}

proof fn lemma_write_isolation_rec<T>(
    s: Seq<T>,
    len: int,
    stride: int,
    markers: Seq<T>,
    x: int,
    k: int,
)
    requires
        stride >= 1,
        s.len() == len,
        0 <= x < len,
        0 <= k,
    ensures
        all_chunks_written(s, len, stride, markers, k).len() == len,
        k <= x / stride ==> all_chunks_written(s, len, stride, markers, k)[x] == s[x],
        k > x / stride ==> all_chunks_written(s, len, stride, markers, k)[x] == markers[x / stride],
    decreases k,
{
    lemma_unique_owner(len, stride, x);
    if k > 0 {
        lemma_write_isolation_rec(s, len, stride, markers, x, k - 1);
        let prev = all_chunks_written(s, len, stride, markers, k - 1);
        let cur = all_chunks_written(s, len, stride, markers, k);
        assert(cur == chunk_written(
            prev,
            chunk_start(stride, k - 1),
            chunk_end(len, stride, k - 1),
            markers[k - 1],
        ));
        if chunk_holds(len, stride, k - 1, x) {
            assert(k - 1 == x / stride);
            assert(cur[x] == markers[k - 1]);
        } else {
            assert(cur[x] == prev[x]);
        }
    }
}

/// Write isolation: after every chunk has been filled with its own marker,
/// each element of the buffer holds exactly the marker of the single chunk
/// that owns it.
pub proof fn lemma_write_isolation<T>(s: Seq<T>, len: int, stride: int, markers: Seq<T>, x: int)
    requires
        stride >= 1,
        s.len() == len,
        0 <= x < len,
    ensures
        all_chunks_written(s, len, stride, markers, chunk_count(len, stride)).len() == len,
        all_chunks_written(s, len, stride, markers, chunk_count(len, stride))[x] == markers[x
            / stride],
{
    lemma_chunks_cover(len, stride, x);
    lemma_write_isolation_rec(s, len, stride, markers, x, chunk_count(len, stride));
}

} // verus!
