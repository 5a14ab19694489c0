//! The sync orchestrator's run state and circuit breaker.
//!
//! A refresh run fans `syncOne` out over channels with bounded
//! concurrency.  One shared flag latches the first quota-indicative
//! failure; work not yet dispatched is then skipped (reported, not
//! attempted) while already-dispatched work runs to completion, and a
//! completion signal fires once every channel has settled.

use vstd::prelude::*;

use crate::text::has_match;

verus! {

/// Whether an error message indicates a quota or permission failure,
/// the condition that trips the circuit breaker.
pub fn is_quota_indicative(message: &str) -> (r: bool)
    ensures
        r == (has_match(message@, "quota"@) || has_match(message@, "403"@)),
{
    let chars = crate::text::str_to_chars(message);
    let quota = crate::text::str_to_chars("quota");
    let forbidden = crate::text::str_to_chars("403");
    crate::text::contains_sub(&chars, &quota) || crate::text::contains_sub(&chars, &forbidden)
}

/// How one channel of a run settled.
#[derive(Clone, Copy, Debug, PartialEq, Eq, Structural)]
pub enum SyncEvent {
    /// The channel synced.
    Success,
    /// The channel failed; the flag says whether its error was
    /// quota-indicative.
    Failure { quota_indicative: bool },
    /// The channel was never attempted because the breaker had tripped.
    Skipped,
}

/// The state of one orchestration run.
#[derive(Clone, Copy, Debug, PartialEq, Eq, Structural)]
pub struct SyncRun {
    /// Channels the run covers.
    pub total: usize,
    /// Channels that have settled (synced, failed or skipped).
    pub completed: usize,
    /// The one-way circuit breaker: set by the first quota-indicative
    /// failure, never reset within the run.
    pub breaker_tripped: bool,
}

/// The run state after one channel settles.
pub open spec fn apply_event(s: SyncRun, e: SyncEvent) -> SyncRun
    recommends
        s.completed < s.total,
{
    SyncRun {
        completed: (s.completed + 1) as usize,
        breaker_tripped: s.breaker_tripped || (e matches SyncEvent::Failure {
            quota_indicative: true,
        }),
        ..s
    }
}

/// The run state after the first `n` of `events`.
pub open spec fn run_after(s: SyncRun, events: Seq<SyncEvent>, n: int) -> SyncRun
    recommends
        0 <= n <= events.len(),
    decreases n,
{
    if n <= 0 {
        s
    } else {
        apply_event(run_after(s, events, n - 1), events[n - 1])
    }
}

impl SyncRun {
    /// A fresh run over `total` channels.
    pub fn new(total: usize) -> (r: SyncRun)
        ensures
            r.total == total,
            r.completed == 0,
            !r.breaker_tripped,
    {
        SyncRun { total, completed: 0, breaker_tripped: false }
    }

    /// Whether the next not-yet-started channel may be attempted: read
    /// before each dispatch, false from the first trip on.
    pub fn should_dispatch(&self) -> (r: bool)
        ensures
            r == !self.breaker_tripped,
    {
        !self.breaker_tripped
    }

    /// Settles one channel.  A quota-indicative failure trips the
    /// breaker; nothing ever resets it within the run.
    pub fn record(&mut self, event: SyncEvent)
        requires
            old(self).completed < old(self).total,
        ensures
            *final(self) == apply_event(*old(self), event),
    {
        self.completed = self.completed + 1;
        match event {
            SyncEvent::Failure { quota_indicative } => {
                if quota_indicative {
                    self.breaker_tripped = true;
                }
            },
            _ => {},
        }
    }

    /// Whether every channel has settled, the moment the run's one
    /// completion signal fires.
    pub fn is_finished(&self) -> (r: bool)
        ensures
            r == (self.completed == self.total),
    {
        self.completed == self.total
    }
}

/// Progress reported while channels are being added.
pub struct AddChannelProgress {
    pub current: usize,
    pub total: usize,
    pub url: String,
    pub status: String,
    pub message: String,
}

/// The outcome of adding one channel.
pub struct AddChannelResult {
    pub url: String,
    pub status: String,
    pub message: String,
    pub channel_name: Option<String>,
}

/// The outcome of moving a channel between groups.
pub struct MoveChannelResult {
    pub moved: bool,
    pub message: String,
}

/// Counters reported by a folder migration.
pub struct MigrationStats {
    pub moved_folders: i32,
    pub updated_videos: i32,
    pub errors: i32,
}

/// The breaker is one-way: once tripped it stays tripped through any
/// sequence of later results.
pub proof fn lemma_breaker_latches(s: SyncRun, events: Seq<SyncEvent>, n: int)
    requires
        0 <= n <= events.len(),
        s.breaker_tripped,
    ensures
        run_after(s, events, n).breaker_tripped,
    decreases n,
{
    if n > 0 {
        lemma_breaker_latches(s, events, n - 1);
    }
}

/// Once any settled channel's result is quota-indicative, every later
/// dispatch decision in the run sees a tripped breaker and skips: only
/// channels dispatched before the trip still run to completion.
pub proof fn lemma_circuit_breaker(s: SyncRun, events: Seq<SyncEvent>, i: int, n: int)
    requires
        0 <= i < n <= events.len(),
        events[i] == (SyncEvent::Failure { quota_indicative: true }),
    ensures
        run_after(s, events, n).breaker_tripped,
    decreases n,
{
    if n == i + 1 {
        assert(run_after(s, events, n) == apply_event(run_after(s, events, i), events[i]));
    } else {
        lemma_circuit_breaker(s, events, i, n - 1);
    }
}

/// Settling channels never touches the run's size, and each settles
/// exactly one channel: with every channel dispatched or skipped the
/// count reaches the total and the completion signal fires.
pub proof fn lemma_run_counts(s: SyncRun, events: Seq<SyncEvent>, n: int)
    requires
        0 <= n <= events.len(),
        s.completed + n <= usize::MAX,
    ensures
        run_after(s, events, n).total == s.total,
        run_after(s, events, n).completed == (s.completed + n) as usize,
    decreases n,
{
    if n > 0 {
        lemma_run_counts(s, events, n - 1);
    }
}

} // verus!
