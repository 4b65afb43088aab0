//! A micro-profiler, for performance diagnostics of wallet scanning.
//!
//! What is profiled is counted and timed. Proofs additionally have the log of what was, which a
//! snapshot is the totals of.

use std::time::{Duration, Instant};

use vstd::arithmetic::div_mod::lemma_add_mod_noop;
use vstd::prelude::*;

verus! {

/// An instant of the system's monotonic clock.
#[verifier::external_type_specification]
#[verifier::external_body]
pub struct ExInstant(std::time::Instant);

/// `Instant::now`. Nothing is claimed of it, as when it's called decides what it returns.
pub assume_specification[ Instant::now ]() -> (res: Instant)
;

/// `Instant::elapsed`. Nothing is claimed of it, as when it's called decides what it returns.
pub assume_specification[ Instant::elapsed ](start: &Instant) -> (res: Duration)
;

/// `Duration::as_nanos`. Nothing is claimed of it, as solely durations of which nothing is known,
/// being those elapsed, are passed to it.
pub assume_specification[ Duration::as_nanos ](duration: &Duration) -> (res: u128)
;

/// Snapshot of scanner micro-profiler counters/timers.
///
/// All values are best-effort and are aggregated across the scans the profiler was passed to.
///
/// Units:
/// - counters are raw event counts
/// - `ns_*` fields are elapsed nanoseconds accumulated across calls
#[derive(Clone, Copy, Debug)]
pub struct ScannerMicroprofSnapshot {
    /// Number of `ScannableBlock`s scanned.
    pub blocks: u64,
    /// Number of v2 transactions passed through `scan_transaction` (i.e., "actually scanned").
    pub txs_scanned: u64,
    /// Number of outputs iterated over (visited) during scanning.
    pub outputs_visited: u64,
    /// Number of ECDH derivations attempted (per output, per candidate tx key).
    pub ecdh_derivations: u64,
    /// Number of view-tag mismatches encountered (early reject path).
    pub viewtag_mismatch: u64,
    /// Number of commitment verification attempts performed.
    pub commitment_verify_attempts: u64,
    /// Number of commitment verification failures (mismatches).
    pub commitment_verify_fail: u64,
    /// Number of outputs matched to this wallet.
    pub outputs_matched: u64,
    /// Number of failures to parse the transaction `extra` field.
    pub extra_parse_fail: u64,
    /// Number of transactions where no tx keys were found in `extra`.
    pub tx_keys_missing: u64,
    /// Number of ECDH cache hits (ECDH was reused from the per-tx cache).
    pub ecdh_cache_hits: u64,
    /// Number of ECDH cache misses (ECDH had to be computed and inserted into the per-tx cache).
    pub ecdh_cache_misses: u64,
    /// Accumulated nanoseconds spent in per-block setup (tx list construction, basic checks).
    pub ns_block_setup: u64,
    /// Accumulated nanoseconds spent inside `scan_transaction` (all work within it).
    pub ns_scan_transaction: u64,
    /// Accumulated nanoseconds spent in commitment verification work.
    pub ns_commitment_verify: u64,
    /// Accumulated nanoseconds spent computing ECDH (view_scalar * tx_pub_key) scalar mul.
    pub ns_ecdh_mul: u64,
    /// Accumulated nanoseconds spent doing the lookup for the ECDH cache on cache hits.
    pub ns_ecdh_cache_lookup_hit: u64,
    /// Accumulated nanoseconds spent doing the lookup + insertion bookkeeping for the ECDH cache on
    /// cache misses.
    /// This does *not* include the scalar multiplication time tracked by `ns_ecdh_mul`.
    pub ns_ecdh_cache_lookup_miss: u64,
    /// Accumulated nanoseconds spent computing the derivations for an output.
    pub ns_output_derivations: u64,
    /// Accumulated nanoseconds spent computing the subaddress spend key and performing the map
    /// lookup.
    pub ns_subaddress_lookup: u64,
}

/// A counter of the profiler.
#[derive(Clone, Copy, PartialEq, Eq, Structural, Debug)]
pub enum Counter {
    /// A `ScannableBlock` was scanned.
    Blocks,
    /// A v2 transaction was scanned.
    TxsScanned,
    /// An output was visited.
    OutputsVisited,
    /// The ECDH with a key was needed.
    EcdhDerivations,
    /// A view tag wasn't the one expected.
    ViewtagMismatch,
    /// An amount was verified to be the one committed to.
    CommitmentVerifyAttempts,
    /// An amount wasn't the one committed to.
    CommitmentVerifyFail,
    /// An output was received.
    OutputsMatched,
    /// A transaction's additional data couldn't be read.
    ExtraParseFail,
    /// A transaction's additional data didn't have keys.
    TxKeysMissing,
    /// An ECDH was within the cache.
    EcdhCacheHits,
    /// An ECDH wasn't within the cache.
    EcdhCacheMisses,
}

/// A timer of the profiler.
#[derive(Clone, Copy, PartialEq, Eq, Structural, Debug)]
pub enum Timer {
    /// Setting a block up.
    BlockSetup,
    /// Scanning a transaction.
    ScanTransaction,
    /// Verifying a commitment.
    CommitmentVerify,
    /// Multiplying a key by the view key.
    EcdhMul,
    /// Finding an ECDH within the cache.
    EcdhCacheLookupHit,
    /// Not finding an ECDH within the cache, or inserting it.
    EcdhCacheLookupMiss,
    /// Deriving from the ECDH.
    OutputDerivations,
    /// Looking the spend key up.
    SubaddressLookup,
}

/// What is profiled.
pub enum Event {
    /// A counter was incremented.
    Count(Counter),
    /// A timer was added to.
    Elapsed(Timer),
}

/// What is profiled, with the nanoseconds elapsed.
pub enum Entry {
    /// A counter was incremented.
    Count(Counter),
    /// A timer was added this many nanoseconds to.
    Elapsed(Timer, u64),
}

impl Entry {
    /// The entry, without the nanoseconds elapsed.
    pub open spec fn event(self) -> Event {
        match self {
            Entry::Count(counter) => Event::Count(counter),
            Entry::Elapsed(timer, _) => Event::Elapsed(timer),
        }
    }
}

/// The entries of a log, without the nanoseconds elapsed.
pub open spec fn events_of(log: Seq<Entry>) -> Seq<Event> {
    log.map_values(|entry: Entry| entry.event())
}

/// How often a counter was incremented.
pub open spec fn counted(events: Seq<Event>, counter: Counter) -> nat {
    events.filter(|event: Event| event == Event::Count(counter)).len()
}

/// If the counters are consistent with each other: solely outputs visited were matched, solely
/// commitments verified mismatched, at most one of each derivation's ends was counted, each
/// derivation looked its ECDH up and at most it computed it, and solely for transactions scanned
/// were keys missing.
pub open spec fn is_balanced(events: Seq<Event>) -> bool {
    &&& counted(events, Counter::OutputsMatched) <= counted(events, Counter::OutputsVisited)
    &&& counted(events, Counter::CommitmentVerifyFail) <= counted(
        events,
        Counter::CommitmentVerifyAttempts,
    )
    &&& counted(events, Counter::OutputsMatched) + counted(events, Counter::ViewtagMismatch)
        + counted(events, Counter::CommitmentVerifyFail) <= counted(
        events,
        Counter::EcdhDerivations,
    )
    &&& counted(events, Counter::EcdhCacheMisses) <= counted(events, Counter::EcdhDerivations)
    &&& counted(events, Counter::EcdhDerivations) <= counted(events, Counter::EcdhCacheHits)
        + counted(events, Counter::EcdhCacheMisses)
    &&& counted(events, Counter::ExtraParseFail) + counted(events, Counter::TxKeysMissing)
        <= counted(events, Counter::TxsScanned)
}

/// If no counter has wrapped.
pub open spec fn is_unwrapped(events: Seq<Event>) -> bool {
    forall|counter: Counter| #[trigger] counted(events, counter) <= u64::MAX
}

/// How many nanoseconds were added to a timer.
pub open spec fn elapsed(log: Seq<Entry>, timer: Timer) -> nat
    decreases log.len(),
{
    if log.len() == 0 {
        0
    } else {
        elapsed(log.drop_last(), timer) + match log.last() {
            Entry::Elapsed(of, ns) if of == timer => ns as nat,
            _ => 0,
        }
    }
}

/// An integer, wrapped to 64 bits.
pub open spec fn wrapped(n: nat) -> u64 {
    (n % 0x1_0000_0000_0000_0000) as u64
}

impl ScannerMicroprofSnapshot {
    /// The value of a counter.
    pub open spec fn counter(self, counter: Counter) -> u64 {
        match counter {
            Counter::Blocks => self.blocks,
            Counter::TxsScanned => self.txs_scanned,
            Counter::OutputsVisited => self.outputs_visited,
            Counter::EcdhDerivations => self.ecdh_derivations,
            Counter::ViewtagMismatch => self.viewtag_mismatch,
            Counter::CommitmentVerifyAttempts => self.commitment_verify_attempts,
            Counter::CommitmentVerifyFail => self.commitment_verify_fail,
            Counter::OutputsMatched => self.outputs_matched,
            Counter::ExtraParseFail => self.extra_parse_fail,
            Counter::TxKeysMissing => self.tx_keys_missing,
            Counter::EcdhCacheHits => self.ecdh_cache_hits,
            Counter::EcdhCacheMisses => self.ecdh_cache_misses,
        }
    }

    /// The nanoseconds of a timer.
    pub open spec fn timer(self, timer: Timer) -> u64 {
        match timer {
            Timer::BlockSetup => self.ns_block_setup,
            Timer::ScanTransaction => self.ns_scan_transaction,
            Timer::CommitmentVerify => self.ns_commitment_verify,
            Timer::EcdhMul => self.ns_ecdh_mul,
            Timer::EcdhCacheLookupHit => self.ns_ecdh_cache_lookup_hit,
            Timer::EcdhCacheLookupMiss => self.ns_ecdh_cache_lookup_miss,
            Timer::OutputDerivations => self.ns_output_derivations,
            Timer::SubaddressLookup => self.ns_subaddress_lookup,
        }
    }

    /// If every counter and timer is zero.
    pub open spec fn is_zero(self) -> bool {
        &&& forall|counter: Counter| #[trigger] self.counter(counter) == 0
        &&& forall|timer: Timer| #[trigger] self.timer(timer) == 0
    }

    /// If the counters are consistent with each other.
    pub open spec fn is_balanced(self) -> bool {
        &&& self.outputs_matched <= self.outputs_visited
        &&& self.commitment_verify_fail <= self.commitment_verify_attempts
        &&& self.outputs_matched + self.viewtag_mismatch + self.commitment_verify_fail
            <= self.ecdh_derivations
        &&& self.ecdh_cache_misses <= self.ecdh_derivations
        &&& self.ecdh_derivations <= self.ecdh_cache_hits + self.ecdh_cache_misses
        &&& self.extra_parse_fail + self.tx_keys_missing <= self.txs_scanned
    }

    /// If these are the totals of `log`.
    pub open spec fn totals(self, log: Seq<Entry>) -> bool {
        &&& forall|counter: Counter| #[trigger]
            self.counter(counter) == wrapped(counted(events_of(log), counter))
        &&& forall|timer: Timer| #[trigger] self.timer(timer) == wrapped(elapsed(log, timer))
    }

    /// Increment a counter, wrapping.
    fn increment(&mut self, counter: Counter)
        ensures
            forall|other: Counter| #[trigger]
                final(self).counter(other) == if other == counter {
                    wrapped((old(self).counter(other) + 1) as nat)
                } else {
                    old(self).counter(other)
                },
            forall|timer: Timer| #[trigger] final(self).timer(timer) == old(self).timer(timer),
    {
        match counter {
            Counter::Blocks => self.blocks = self.blocks.wrapping_add(1),
            Counter::TxsScanned => self.txs_scanned = self.txs_scanned.wrapping_add(1),
            Counter::OutputsVisited => self.outputs_visited = self.outputs_visited.wrapping_add(1),
            Counter::EcdhDerivations => {
                self.ecdh_derivations = self.ecdh_derivations.wrapping_add(1);
            },
            Counter::ViewtagMismatch => {
                self.viewtag_mismatch = self.viewtag_mismatch.wrapping_add(1);
            },
            Counter::CommitmentVerifyAttempts => {
                self.commitment_verify_attempts = self.commitment_verify_attempts.wrapping_add(1);
            },
            Counter::CommitmentVerifyFail => {
                self.commitment_verify_fail = self.commitment_verify_fail.wrapping_add(1);
            },
            Counter::OutputsMatched => self.outputs_matched = self.outputs_matched.wrapping_add(1),
            Counter::ExtraParseFail => {
                self.extra_parse_fail = self.extra_parse_fail.wrapping_add(1);
            },
            Counter::TxKeysMissing => self.tx_keys_missing = self.tx_keys_missing.wrapping_add(1),
            Counter::EcdhCacheHits => self.ecdh_cache_hits = self.ecdh_cache_hits.wrapping_add(1),
            Counter::EcdhCacheMisses => {
                self.ecdh_cache_misses = self.ecdh_cache_misses.wrapping_add(1);
            },
        }
    }

    /// Add nanoseconds to a timer, wrapping.
    fn extend(&mut self, timer: Timer, ns: u64)
        ensures
            forall|other: Timer| #[trigger]
                final(self).timer(other) == if other == timer {
                    wrapped((old(self).timer(other) + ns) as nat)
                } else {
                    old(self).timer(other)
                },
            forall|counter: Counter| #[trigger]
                final(self).counter(counter) == old(self).counter(counter),
    {
        match timer {
            Timer::BlockSetup => self.ns_block_setup = self.ns_block_setup.wrapping_add(ns),
            Timer::ScanTransaction => {
                self.ns_scan_transaction = self.ns_scan_transaction.wrapping_add(ns);
            },
            Timer::CommitmentVerify => {
                self.ns_commitment_verify = self.ns_commitment_verify.wrapping_add(ns);
            },
            Timer::EcdhMul => self.ns_ecdh_mul = self.ns_ecdh_mul.wrapping_add(ns),
            Timer::EcdhCacheLookupHit => {
                self.ns_ecdh_cache_lookup_hit = self.ns_ecdh_cache_lookup_hit.wrapping_add(ns);
            },
            Timer::EcdhCacheLookupMiss => {
                self.ns_ecdh_cache_lookup_miss = self.ns_ecdh_cache_lookup_miss.wrapping_add(ns);
            },
            Timer::OutputDerivations => {
                self.ns_output_derivations = self.ns_output_derivations.wrapping_add(ns);
            },
            Timer::SubaddressLookup => {
                self.ns_subaddress_lookup = self.ns_subaddress_lookup.wrapping_add(ns);
            },
        }
    }
}

/// The sum of two integers, wrapping.
fn wrapping_sum(a: u64, b: u64) -> (res: u64)
    ensures
        res == wrapped((a + b) as nat),
{
    a.wrapping_add(b)
}

/// Wrapping what is summed doesn't change what the sum wraps to.
proof fn lemma_wrapped_sum(a: nat, b: nat)
    ensures
        wrapped((wrapped(a) + wrapped(b)) as nat) == wrapped(a + b),
{
    lemma_add_mod_noop(a as int, b as int, 0x1_0000_0000_0000_0000);
}

impl ScannerMicroprofSnapshot {
    /// The sums of each counter and timer, wrapping.
    fn sum(&self, other: &ScannerMicroprofSnapshot) -> (res: ScannerMicroprofSnapshot)
        ensures
            forall|counter: Counter| #[trigger]
                res.counter(counter) == wrapped(
                    (self.counter(counter) + other.counter(counter)) as nat,
                ),
            forall|timer: Timer| #[trigger]
                res.timer(timer) == wrapped((self.timer(timer) + other.timer(timer)) as nat),
    {
        ScannerMicroprofSnapshot {
            blocks: wrapping_sum(self.blocks, other.blocks),
            txs_scanned: wrapping_sum(self.txs_scanned, other.txs_scanned),
            outputs_visited: wrapping_sum(self.outputs_visited, other.outputs_visited),
            ecdh_derivations: wrapping_sum(self.ecdh_derivations, other.ecdh_derivations),
            viewtag_mismatch: wrapping_sum(self.viewtag_mismatch, other.viewtag_mismatch),
            commitment_verify_attempts: wrapping_sum(
                self.commitment_verify_attempts,
                other.commitment_verify_attempts,
            ),
            commitment_verify_fail: wrapping_sum(
                self.commitment_verify_fail,
                other.commitment_verify_fail,
            ),
            outputs_matched: wrapping_sum(self.outputs_matched, other.outputs_matched),
            extra_parse_fail: wrapping_sum(self.extra_parse_fail, other.extra_parse_fail),
            tx_keys_missing: wrapping_sum(self.tx_keys_missing, other.tx_keys_missing),
            ecdh_cache_hits: wrapping_sum(self.ecdh_cache_hits, other.ecdh_cache_hits),
            ecdh_cache_misses: wrapping_sum(self.ecdh_cache_misses, other.ecdh_cache_misses),
            ns_block_setup: wrapping_sum(self.ns_block_setup, other.ns_block_setup),
            ns_scan_transaction: wrapping_sum(self.ns_scan_transaction, other.ns_scan_transaction),
            ns_commitment_verify: wrapping_sum(
                self.ns_commitment_verify,
                other.ns_commitment_verify,
            ),
            ns_ecdh_mul: wrapping_sum(self.ns_ecdh_mul, other.ns_ecdh_mul),
            ns_ecdh_cache_lookup_hit: wrapping_sum(
                self.ns_ecdh_cache_lookup_hit,
                other.ns_ecdh_cache_lookup_hit,
            ),
            ns_ecdh_cache_lookup_miss: wrapping_sum(
                self.ns_ecdh_cache_lookup_miss,
                other.ns_ecdh_cache_lookup_miss,
            ),
            ns_output_derivations: wrapping_sum(
                self.ns_output_derivations,
                other.ns_output_derivations,
            ),
            ns_subaddress_lookup: wrapping_sum(
                self.ns_subaddress_lookup,
                other.ns_subaddress_lookup,
            ),
        }
    }
}

impl Default for ScannerMicroprofSnapshot {
    fn default() -> (res: Self)
        ensures
            res.is_zero(),
    {
        ScannerMicroprofSnapshot {
            blocks: 0,
            txs_scanned: 0,
            outputs_visited: 0,
            ecdh_derivations: 0,
            viewtag_mismatch: 0,
            commitment_verify_attempts: 0,
            commitment_verify_fail: 0,
            outputs_matched: 0,
            extra_parse_fail: 0,
            tx_keys_missing: 0,
            ecdh_cache_hits: 0,
            ecdh_cache_misses: 0,
            ns_block_setup: 0,
            ns_scan_transaction: 0,
            ns_commitment_verify: 0,
            ns_ecdh_mul: 0,
            ns_ecdh_cache_lookup_hit: 0,
            ns_ecdh_cache_lookup_miss: 0,
            ns_output_derivations: 0,
            ns_subaddress_lookup: 0,
        }
    }
}

/// A micro-profiler, which solely counts and times if enabled.
pub struct ScannerMicroprof {
    enabled: bool,
    current: ScannerMicroprofSnapshot,
    log: Ghost<Seq<Entry>>,
}

/// What was profiled since the counters and timers were last zero.
impl View for ScannerMicroprof {
    type V = Seq<Entry>;

    closed spec fn view(&self) -> Seq<Entry> {
        self.log@
    }
}

impl ScannerMicroprof {
    /// If the profiler is enabled.
    pub closed spec fn is_enabled(&self) -> bool {
        self.enabled
    }

    /// The counters and timers.
    pub closed spec fn totals(&self) -> ScannerMicroprofSnapshot {
        self.current
    }

    /// If the counters are consistent with each other, so long as they don't wrap.
    pub open spec fn is_balanced(&self) -> bool {
        is_balanced(events_of(self@))
    }

    /// If this is `before`, once `trace` was additionally profiled.
    pub open spec fn continues(&self, before: &ScannerMicroprof, trace: Seq<Event>) -> bool {
        &&& self.is_enabled() == before.is_enabled()
        &&& before@.len() <= self@.len()
        &&& forall|i: int| 0 <= i < before@.len() ==> #[trigger] self@[i] == before@[i]
        &&& events_of(self@) == events_of(before@) + trace
    }

    #[verifier::type_invariant]
    spec fn is_tally(self) -> bool {
        if self.enabled {
            self.current.totals(self.log@)
        } else {
            self.current.is_zero()
        }
    }

    /// A profiler for which nothing was profiled yet.
    pub fn new(enabled: bool) -> (res: ScannerMicroprof)
        ensures
            res.is_enabled() == enabled,
            res@ == Seq::<Entry>::empty(),
            res.totals().is_zero(),
            res.is_balanced(),
    {
        let current = ScannerMicroprofSnapshot::default();
        let ghost log = Seq::<Entry>::empty();
        proof {
            lemma_totals_of_none(current);
            lemma_counted_none();
        }
        ScannerMicroprof { enabled, current, log: Ghost(log) }
    }

    /// Add what another profiler profiled to what this one did, if both are enabled.
    pub fn absorb(&mut self, other: &ScannerMicroprof)
        ensures
            final(self).is_enabled() == old(self).is_enabled(),
            if old(self).is_enabled() && other.is_enabled() {
                final(self)@ == old(self)@ + other@
            } else {
                *final(self) == *old(self)
            },
            old(self).is_balanced() && other.is_balanced() ==> final(self).is_balanced(),
    {
        proof {
            use_type_invariant(&*self);
            use_type_invariant(other);
            lemma_counted_concat(self@, other@);
        }
        if self.enabled && other.enabled {
            let current = self.current.sum(&other.current);
            let ghost log = self.log@ + other.log@;
            proof {
                lemma_totals_concat(
                    self.current,
                    other.current,
                    current,
                    self.log@,
                    other.log@,
                );
            }
            *self = ScannerMicroprof { enabled: true, current, log: Ghost(log) };
        }
    }

    /// Increment a counter.
    pub(crate) fn count(&mut self, counter: Counter)
        ensures
            final(self).continues(old(self), seq![Event::Count(counter)]),
    {
        let ghost entry = Entry::Count(counter);
        proof {
            use_type_invariant(&*self);
            lemma_push(self.log@, entry);
        }
        if self.enabled {
            let mut current = self.current;
            current.increment(counter);
            proof {
                lemma_totals_push(self.current, current, self.log@, entry);
            }
            *self = ScannerMicroprof {
                enabled: true,
                current,
                log: Ghost(self.log@.push(entry)),
            };
        } else {
            self.log = Ghost(self.log@.push(entry));
        }
    }

    /// Add the time since `start` to a timer.
    pub(crate) fn time(&mut self, timer: Timer, start: &Instant)
        ensures
            final(self).continues(old(self), seq![Event::Elapsed(timer)]),
    {
        proof {
            use_type_invariant(&*self);
        }
        if self.enabled {
            let ns: u64 = start.elapsed().as_nanos() as u64;
            let ghost entry = Entry::Elapsed(timer, ns);
            let mut current = self.current;
            current.extend(timer, ns);
            proof {
                lemma_push(self.log@, entry);
                lemma_totals_push(self.current, current, self.log@, entry);
            }
            *self = ScannerMicroprof {
                enabled: true,
                current,
                log: Ghost(self.log@.push(entry)),
            };
        } else {
            let ghost entry = Entry::Elapsed(timer, 0);
            proof {
                lemma_push(self.log@, entry);
            }
            self.log = Ghost(self.log@.push(entry));
        }
    }
}

/// The counts of two logs are those of each.
proof fn lemma_counted_concat(a: Seq<Entry>, b: Seq<Entry>)
    ensures
        forall|counter: Counter| #[trigger]
            counted(events_of(a + b), counter) == counted(events_of(a), counter) + counted(
                events_of(b),
                counter,
            ),
{
    assert(events_of(a + b) =~= events_of(a) + events_of(b));
    assert forall|counter: Counter| #[trigger]
        counted(events_of(a + b), counter) == counted(events_of(a), counter) + counted(
            events_of(b),
            counter,
        ) by {
        Seq::filter_distributes_over_add(
            events_of(a),
            events_of(b),
            |event: Event| event == Event::Count(counter),
        );
    }
}

/// The nanoseconds of two logs are those of each.
proof fn lemma_elapsed_concat(a: Seq<Entry>, b: Seq<Entry>, timer: Timer)
    ensures
        elapsed(a + b, timer) == elapsed(a, timer) + elapsed(b, timer),
    decreases b.len(),
{
    if b.len() == 0 {
        assert(a + b =~= a);
    } else {
        assert((a + b).drop_last() =~= a + b.drop_last());
        lemma_elapsed_concat(a, b.drop_last(), timer);
    }
}

proof fn lemma_totals_concat(
    a: ScannerMicroprofSnapshot,
    b: ScannerMicroprofSnapshot,
    sum: ScannerMicroprofSnapshot,
    a_log: Seq<Entry>,
    b_log: Seq<Entry>,
)
    requires
        a.totals(a_log),
        b.totals(b_log),
        forall|counter: Counter| #[trigger]
            sum.counter(counter) == wrapped((a.counter(counter) + b.counter(counter)) as nat),
        forall|timer: Timer| #[trigger]
            sum.timer(timer) == wrapped((a.timer(timer) + b.timer(timer)) as nat),
    ensures
        sum.totals(a_log + b_log),
{
    let (a_events, b_events) = (events_of(a_log), events_of(b_log));
    lemma_counted_concat(a_log, b_log);
    assert forall|counter: Counter| #[trigger]
        sum.counter(counter) == wrapped(counted(events_of(a_log + b_log), counter)) by {
        assert(a.counter(counter) == wrapped(counted(a_events, counter)));
        assert(b.counter(counter) == wrapped(counted(b_events, counter)));
        lemma_wrapped_sum(counted(a_events, counter), counted(b_events, counter));
    }
    assert forall|timer: Timer| #[trigger]
        sum.timer(timer) == wrapped(elapsed(a_log + b_log, timer)) by {
        lemma_elapsed_concat(a_log, b_log, timer);
        assert(a.timer(timer) == wrapped(elapsed(a_log, timer)));
        assert(b.timer(timer) == wrapped(elapsed(b_log, timer)));
        lemma_wrapped_sum(elapsed(a_log, timer), elapsed(b_log, timer));
    }
}

proof fn lemma_counted_none()
    ensures
        forall|counter: Counter| #[trigger] counted(events_of(Seq::empty()), counter) == 0,
{
    reveal(Seq::filter);
    assert(events_of(Seq::<Entry>::empty()) =~= Seq::<Event>::empty());
}

proof fn lemma_totals_of_none(snapshot: ScannerMicroprofSnapshot)
    requires
        snapshot.is_zero(),
    ensures
        snapshot.totals(Seq::empty()),
{
    let none = Seq::<Entry>::empty();
    assert(events_of(none) =~= Seq::<Event>::empty());
    reveal(Seq::filter);
    assert forall|counter: Counter| #[trigger]
        snapshot.counter(counter) == wrapped(counted(events_of(none), counter)) by {
        assert(counted(events_of(none), counter) == 0);
    }
    assert forall|timer: Timer| #[trigger]
        snapshot.timer(timer) == wrapped(elapsed(none, timer)) by {
        assert(elapsed(none, timer) == 0);
    }
}

proof fn lemma_push(log: Seq<Entry>, entry: Entry)
    ensures
        events_of(log.push(entry)) == events_of(log) + seq![entry.event()],
{
    assert(events_of(log.push(entry)) =~= events_of(log) + seq![entry.event()]);
}

proof fn lemma_totals_push(
    before: ScannerMicroprofSnapshot,
    after: ScannerMicroprofSnapshot,
    log: Seq<Entry>,
    entry: Entry,
)
    requires
        before.totals(log),
        forall|counter: Counter| #[trigger]
            after.counter(counter) == if entry == Entry::Count(counter) {
                wrapped((before.counter(counter) + 1) as nat)
            } else {
                before.counter(counter)
            },
        forall|timer: Timer| #[trigger]
            after.timer(timer) == match entry {
                Entry::Elapsed(of, ns) if of == timer => wrapped(
                    (before.timer(timer) + ns) as nat,
                ),
                _ => before.timer(timer),
            },
    ensures
        after.totals(log.push(entry)),
{
    let longer = log.push(entry);
    assert(longer.drop_last() =~= log);
    assert(events_of(longer).drop_last() =~= events_of(log));
    assert(events_of(longer).last() == entry.event());
    assert forall|counter: Counter| #[trigger]
        after.counter(counter) == wrapped(counted(events_of(longer), counter)) by {
        reveal(Seq::filter);
        assert(before.counter(counter) == wrapped(counted(events_of(log), counter)));
    }
    assert forall|timer: Timer| #[trigger]
        after.timer(timer) == wrapped(elapsed(longer, timer)) by {
        assert(before.timer(timer) == wrapped(elapsed(log, timer)));
    }
}

/// The totals of a balanced log, none of which wrapped, are balanced.
proof fn lemma_balanced(snapshot: ScannerMicroprofSnapshot, log: Seq<Entry>)
    requires
        snapshot.totals(log),
    ensures
        is_balanced(events_of(log)) && is_unwrapped(events_of(log)) ==> snapshot.is_balanced(),
{
    if is_unwrapped(events_of(log)) {
        assert forall|counter: Counter| #[trigger]
            snapshot.counter(counter) == counted(events_of(log), counter) by {
            assert(counted(events_of(log), counter) <= u64::MAX);
        }
        assert(snapshot.outputs_matched == snapshot.counter(Counter::OutputsMatched));
        assert(snapshot.outputs_visited == snapshot.counter(Counter::OutputsVisited));
        assert(snapshot.commitment_verify_fail == snapshot.counter(Counter::CommitmentVerifyFail));
        assert(snapshot.commitment_verify_attempts == snapshot.counter(
            Counter::CommitmentVerifyAttempts,
        ));
        assert(snapshot.viewtag_mismatch == snapshot.counter(Counter::ViewtagMismatch));
        assert(snapshot.ecdh_derivations == snapshot.counter(Counter::EcdhDerivations));
        assert(snapshot.ecdh_cache_misses == snapshot.counter(Counter::EcdhCacheMisses));
        assert(snapshot.ecdh_cache_hits == snapshot.counter(Counter::EcdhCacheHits));
        assert(snapshot.extra_parse_fail == snapshot.counter(Counter::ExtraParseFail));
        assert(snapshot.tx_keys_missing == snapshot.counter(Counter::TxKeysMissing));
        assert(snapshot.txs_scanned == snapshot.counter(Counter::TxsScanned));
    }
}

/// If the profiler is enabled.
pub fn microprof_enabled(prof: &ScannerMicroprof) -> (res: bool)
    ensures
        res == prof.is_enabled(),
        !res ==> prof.totals().is_zero(),
{
    proof {
        use_type_invariant(prof);
    }
    prof.enabled
}

/// Return a snapshot of scanner micro-profiler counters/timers.
///
/// If the profiler isn't enabled, this returns `None`.
///
/// If `reset` is `true`, counters are reset to `0` as part of snapshotting.
pub fn scanner_microprof_snapshot(prof: &mut ScannerMicroprof, reset: bool) -> (res: Option<
    ScannerMicroprofSnapshot,
>)
    ensures
        final(prof).is_enabled() == old(prof).is_enabled(),
        old(prof).is_balanced() ==> final(prof).is_balanced(),
        match res {
            Some(snapshot) => {
                &&& old(prof).is_enabled()
                &&& snapshot == old(prof).totals()
                &&& snapshot.totals(old(prof)@)
                &&& old(prof).is_balanced() && is_unwrapped(events_of(old(prof)@))
                    ==> snapshot.is_balanced()
                &&& if reset {
                    final(prof)@ == Seq::<Entry>::empty() && final(prof).totals().is_zero()
                } else {
                    *final(prof) == *old(prof)
                }
            },
            None => !old(prof).is_enabled() && *final(prof) == *old(prof),
        },
{
    proof {
        use_type_invariant(&*prof);
    }
    if !microprof_enabled(prof) {
        return None;
    }
    let snapshot = prof.current;
    proof {
        lemma_balanced(snapshot, prof@);
    }
    if reset {
        *prof = ScannerMicroprof::new(true);
    }
    Some(snapshot)
}

/// The digit a character is.
pub open spec fn digit_of(c: char) -> Option<nat> {
    if '0' <= c && c <= '9' {
        Some((c as int - '0' as int) as nat)
    } else {
        None
    }
}

/// The integer a list of digits is, `None` if any isn't a digit.
pub open spec fn digits_value(s: Seq<char>) -> Option<nat>
    decreases s.len(),
{
    if s.len() == 0 {
        Some(0)
    } else {
        match (digits_value(s.drop_last()), digit_of(s.last())) {
            (Some(high), Some(low)) => Some(10 * high + low),
            _ => None,
        }
    }
}

/// The 8-bit unsigned integer which is written in decimal, potentially with a plus sign.
pub open spec fn u8_written(s: Seq<char>) -> Option<nat> {
    let digits = if s.len() != 0 && s[0] == '+' {
        s.skip(1)
    } else {
        s
    };
    match digits_value(digits) {
        Some(n) if digits.len() != 0 && n <= 255 => Some(n),
        _ => None,
    }
}

proof fn lemma_digits_value(s: Seq<char>, n: int)
    requires
        0 <= n <= s.len(),
    ensures
        digits_value(s.take(n)) is None ==> digits_value(s) is None,
        digits_value(s) is Some ==> digits_value(s.take(n))->0 <= digits_value(s)->0,
    decreases s.len() - n,
{
    if n < s.len() {
        assert(s.take(n + 1).drop_last() =~= s.take(n));
        lemma_digits_value(s, n + 1);
    } else {
        assert(s.take(n) =~= s);
    }
}

/// Read an 8-bit unsigned integer which is written in decimal, potentially with a plus sign.
fn read_u8(s: &str) -> (res: Option<u8>)
    ensures
        match res {
            Some(n) => u8_written(s@) == Some(n as nat),
            None => u8_written(s@) is None,
        },
{
    let len: usize = s.unicode_len();
    let mut start: usize = 0;
    if len != 0 && s.get_char(0) == '+' {
        start = 1;
    }
    if start == len {
        return None;
    }
    let ghost digits = s@.skip(start as int);
    assert(start == 0 ==> digits =~= s@);
    let mut n: u8 = 0;
    let mut i: usize = start;
    while i < len
        invariant
            start <= i <= len,
            len == s@.len(),
            digits == s@.skip(start as int),
            digits.len() != 0,
            digits == (if s@.len() != 0 && s@[0] == '+' {
                s@.skip(1)
            } else {
                s@
            }),
            digits_value(digits.take(i - start)) == Some(n as nat),
        decreases len - i,
    {
        let c = s.get_char(i);
        assert(digits.take(i + 1 - start).drop_last() =~= digits.take(i - start));
        proof {
            lemma_digits_value(digits, i + 1 - start);
        }
        if c < '0' || c > '9' {
            return None;
        }
        let sum: u32 = 10 * (n as u32) + (c as u32 - '0' as u32);
        if sum > 255 {
            return None;
        }
        n = sum as u8;
        i += 1;
    }
    assert(digits.take(len - start) =~= digits);
    Some(n)
}

/// If the value of the setting for the profiler, if set, requests it be enabled.
///
/// It does if it's an 8-bit unsigned integer which isn't zero.
pub fn microprof_requested(value: Option<&str>) -> (res: bool)
    ensures
        res == match value {
            Some(value) => u8_written(value@) is Some && u8_written(value@)->0 != 0,
            None => false,
        },
{
    match value {
        Some(value) => match read_u8(value) {
            Some(n) => n != 0,
            None => false,
        },
        None => false,
    }
}

} // verus!
