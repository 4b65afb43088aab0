//! What holds of the profiler: what each counter and timer is of, and when it's added to.

use vstd::prelude::*;

use crate::error::{decimal, message_of, ScanFault};
use crate::extra::read_fields;
use crate::microprof;
use crate::microprof::{counted, digit_of, digits_value, events_of, u8_written, wrapped};
use crate::microprof::{Counter, Entry, Event, ScannerMicroprof, ScannerMicroprofSnapshot, Timer};
use crate::output::ReceivedOutput;
use crate::payments::{amounts_are_settled_by_their_commitments, is_opening, is_paid, is_scanned};
use crate::payments::{is_tagged, lemma_is_scanned, lemma_tagged, prefix_of, proofs_of};
use crate::payments::{sender_scalar, senders_and_recipients_agree, the_first_key_to_yield_decides};
use crate::profiling::{counts_add_up, lemma_counted_push, lemma_key_trace};
use crate::receiving::{derivations_trace, ecdh_trace, settlement_trace, tag_matches};
use crate::receiving::{unreadable_trace, BlockScan, Settlement, TransactionScan};

verus! {

/// Each counter and timer of a snapshot is the field named for it.
pub proof fn counters_and_timers_are_their_fields(snapshot: ScannerMicroprofSnapshot)
    ensures
        snapshot.counter(Counter::Blocks) == snapshot.blocks,
        snapshot.counter(Counter::TxsScanned) == snapshot.txs_scanned,
        snapshot.counter(Counter::OutputsVisited) == snapshot.outputs_visited,
        snapshot.counter(Counter::EcdhDerivations) == snapshot.ecdh_derivations,
        snapshot.counter(Counter::ViewtagMismatch) == snapshot.viewtag_mismatch,
        snapshot.counter(Counter::CommitmentVerifyAttempts) == snapshot.commitment_verify_attempts,
        snapshot.counter(Counter::CommitmentVerifyFail) == snapshot.commitment_verify_fail,
        snapshot.counter(Counter::OutputsMatched) == snapshot.outputs_matched,
        snapshot.counter(Counter::ExtraParseFail) == snapshot.extra_parse_fail,
        snapshot.counter(Counter::TxKeysMissing) == snapshot.tx_keys_missing,
        snapshot.counter(Counter::EcdhCacheHits) == snapshot.ecdh_cache_hits,
        snapshot.counter(Counter::EcdhCacheMisses) == snapshot.ecdh_cache_misses,
        snapshot.timer(Timer::BlockSetup) == snapshot.ns_block_setup,
        snapshot.timer(Timer::ScanTransaction) == snapshot.ns_scan_transaction,
        snapshot.timer(Timer::CommitmentVerify) == snapshot.ns_commitment_verify,
        snapshot.timer(Timer::EcdhMul) == snapshot.ns_ecdh_mul,
        snapshot.timer(Timer::EcdhCacheLookupHit) == snapshot.ns_ecdh_cache_lookup_hit,
        snapshot.timer(Timer::EcdhCacheLookupMiss) == snapshot.ns_ecdh_cache_lookup_miss,
        snapshot.timer(Timer::OutputDerivations) == snapshot.ns_output_derivations,
        snapshot.timer(Timer::SubaddressLookup) == snapshot.ns_subaddress_lookup,
{
}

/// The totals of a log, unless they wrap, are how often each counter occurs within it, and the sum of
/// what elapsed for each timer.
pub proof fn totals_are_sums(
    a: Seq<Entry>,
    b: Seq<Entry>,
    entry: Entry,
    counter: Counter,
    timer: Timer,
    n: nat,
)
    ensures
        counted(events_of(Seq::empty()), counter) == 0,
        microprof::elapsed(Seq::empty(), timer) == 0,
        counted(events_of(seq![entry]), counter) == (if entry == Entry::Count(counter) {
            1nat
        } else {
            0
        }),
        microprof::elapsed(seq![entry], timer) == (match entry {
            Entry::Elapsed(of, ns) if of == timer => ns as nat,
            _ => 0,
        }),
        counted(events_of(a + b), counter) == counted(events_of(a), counter) + counted(
            events_of(b),
            counter,
        ),
        microprof::elapsed(a + b, timer) == microprof::elapsed(a, timer) + microprof::elapsed(b, timer),
        n <= u64::MAX ==> wrapped(n) == n,
        wrapped(n + 0x1_0000_0000_0000_0000) == wrapped(n),
    decreases b.len(),
{
    lemma_counted_push(counter);
    reveal_with_fuel(microprof::elapsed, 2);
    assert(events_of(Seq::<Entry>::empty()) =~= Seq::<Event>::empty());
    assert(events_of(seq![entry]) =~= seq![entry.event()]);
    assert(seq![entry].drop_last() =~= Seq::<Entry>::empty());
    assert(seq![entry].last() == entry);
    assert(seq![entry.event()] =~= Seq::<Event>::empty().push(entry.event()));
    assert(events_of(a + b) =~= events_of(a) + events_of(b));
    counts_add_up(events_of(a), events_of(b), counter);
    if b.len() == 0 {
        assert(a + b =~= a);
    } else {
        totals_are_sums(a, b.drop_last(), entry, counter, timer, n);
        assert((a + b).drop_last() =~= a + b.drop_last());
        assert((a + b).last() == b.last());
    }
}

/// A snapshot is of a log exactly if each of its fields is the total of what it's named for, and it's
/// zero exactly if each of its fields is.
pub proof fn snapshots_are_of_every_field(snapshot: ScannerMicroprofSnapshot, log: Seq<Entry>)
    ensures
        snapshot.totals(log) <==> {
            &&& snapshot.blocks == wrapped(counted(events_of(log), Counter::Blocks))
            &&& snapshot.txs_scanned == wrapped(counted(events_of(log), Counter::TxsScanned))
            &&& snapshot.outputs_visited == wrapped(counted(events_of(log), Counter::OutputsVisited))
            &&& snapshot.ecdh_derivations == wrapped(counted(events_of(log), Counter::EcdhDerivations))
            &&& snapshot.viewtag_mismatch == wrapped(counted(events_of(log), Counter::ViewtagMismatch))
            &&& snapshot.commitment_verify_attempts == wrapped(counted(events_of(log), Counter::CommitmentVerifyAttempts))
            &&& snapshot.commitment_verify_fail == wrapped(counted(events_of(log), Counter::CommitmentVerifyFail))
            &&& snapshot.outputs_matched == wrapped(counted(events_of(log), Counter::OutputsMatched))
            &&& snapshot.extra_parse_fail == wrapped(counted(events_of(log), Counter::ExtraParseFail))
            &&& snapshot.tx_keys_missing == wrapped(counted(events_of(log), Counter::TxKeysMissing))
            &&& snapshot.ecdh_cache_hits == wrapped(counted(events_of(log), Counter::EcdhCacheHits))
            &&& snapshot.ecdh_cache_misses == wrapped(counted(events_of(log), Counter::EcdhCacheMisses))
            &&& snapshot.ns_block_setup == wrapped(microprof::elapsed(log, Timer::BlockSetup))
            &&& snapshot.ns_scan_transaction == wrapped(microprof::elapsed(log, Timer::ScanTransaction))
            &&& snapshot.ns_commitment_verify == wrapped(microprof::elapsed(log, Timer::CommitmentVerify))
            &&& snapshot.ns_ecdh_mul == wrapped(microprof::elapsed(log, Timer::EcdhMul))
            &&& snapshot.ns_ecdh_cache_lookup_hit == wrapped(microprof::elapsed(log, Timer::EcdhCacheLookupHit))
            &&& snapshot.ns_ecdh_cache_lookup_miss == wrapped(microprof::elapsed(log, Timer::EcdhCacheLookupMiss))
            &&& snapshot.ns_output_derivations == wrapped(microprof::elapsed(log, Timer::OutputDerivations))
            &&& snapshot.ns_subaddress_lookup == wrapped(microprof::elapsed(log, Timer::SubaddressLookup))
        },
        snapshot.is_zero() <==> {
            &&& snapshot.blocks == 0
            &&& snapshot.txs_scanned == 0
            &&& snapshot.outputs_visited == 0
            &&& snapshot.ecdh_derivations == 0
            &&& snapshot.viewtag_mismatch == 0
            &&& snapshot.commitment_verify_attempts == 0
            &&& snapshot.commitment_verify_fail == 0
            &&& snapshot.outputs_matched == 0
            &&& snapshot.extra_parse_fail == 0
            &&& snapshot.tx_keys_missing == 0
            &&& snapshot.ecdh_cache_hits == 0
            &&& snapshot.ecdh_cache_misses == 0
            &&& snapshot.ns_block_setup == 0
            &&& snapshot.ns_scan_transaction == 0
            &&& snapshot.ns_commitment_verify == 0
            &&& snapshot.ns_ecdh_mul == 0
            &&& snapshot.ns_ecdh_cache_lookup_hit == 0
            &&& snapshot.ns_ecdh_cache_lookup_miss == 0
            &&& snapshot.ns_output_derivations == 0
            &&& snapshot.ns_subaddress_lookup == 0
        },
{
    assert(snapshot.counter(Counter::Blocks) == snapshot.blocks);
    assert(snapshot.counter(Counter::TxsScanned) == snapshot.txs_scanned);
    assert(snapshot.counter(Counter::OutputsVisited) == snapshot.outputs_visited);
    assert(snapshot.counter(Counter::EcdhDerivations) == snapshot.ecdh_derivations);
    assert(snapshot.counter(Counter::ViewtagMismatch) == snapshot.viewtag_mismatch);
    assert(snapshot.counter(Counter::CommitmentVerifyAttempts) == snapshot.commitment_verify_attempts);
    assert(snapshot.counter(Counter::CommitmentVerifyFail) == snapshot.commitment_verify_fail);
    assert(snapshot.counter(Counter::OutputsMatched) == snapshot.outputs_matched);
    assert(snapshot.counter(Counter::ExtraParseFail) == snapshot.extra_parse_fail);
    assert(snapshot.counter(Counter::TxKeysMissing) == snapshot.tx_keys_missing);
    assert(snapshot.counter(Counter::EcdhCacheHits) == snapshot.ecdh_cache_hits);
    assert(snapshot.counter(Counter::EcdhCacheMisses) == snapshot.ecdh_cache_misses);
    assert(snapshot.timer(Timer::BlockSetup) == snapshot.ns_block_setup);
    assert(snapshot.timer(Timer::ScanTransaction) == snapshot.ns_scan_transaction);
    assert(snapshot.timer(Timer::CommitmentVerify) == snapshot.ns_commitment_verify);
    assert(snapshot.timer(Timer::EcdhMul) == snapshot.ns_ecdh_mul);
    assert(snapshot.timer(Timer::EcdhCacheLookupHit) == snapshot.ns_ecdh_cache_lookup_hit);
    assert(snapshot.timer(Timer::EcdhCacheLookupMiss) == snapshot.ns_ecdh_cache_lookup_miss);
    assert(snapshot.timer(Timer::OutputDerivations) == snapshot.ns_output_derivations);
    assert(snapshot.timer(Timer::SubaddressLookup) == snapshot.ns_subaddress_lookup);
    if snapshot.totals(log) {
        assert(forall|counter: Counter| #[trigger]
            snapshot.counter(counter) == wrapped(counted(events_of(log), counter)));
        assert(forall|timer: Timer| #[trigger]
            snapshot.timer(timer) == wrapped(microprof::elapsed(log, timer)));
    }
}

/// What is logged is what was profiled, along with how long it took, and what was logged before is
/// kept.
pub proof fn logs_are_continued(
    before: ScannerMicroprof,
    after: ScannerMicroprof,
    trace: Seq<Event>,
    counter: Counter,
    timer: Timer,
    ns: u64,
)
    ensures
        events_of(seq![Entry::Count(counter)]) == seq![Event::Count(counter)],
        events_of(seq![Entry::Elapsed(timer, ns)]) == seq![Event::Elapsed(timer)],
        events_of(before@).len() == before@.len(),
        after.continues(&before, trace) <==> {
            &&& after.is_enabled() == before.is_enabled()
            &&& before@.is_prefix_of(after@)
            &&& events_of(after@.skip(before@.len() as int)) == trace
        },
{
    assert(events_of(seq![Entry::Count(counter)]) =~= seq![Event::Count(counter)]);
    assert(events_of(seq![Entry::Elapsed(timer, ns)]) =~= seq![Event::Elapsed(timer)]);
    if before@.len() <= after@.len() {
        let added = after@.skip(before@.len() as int);
        if before@.is_prefix_of(after@) {
            assert(after@ =~= before@ + added);
            assert(events_of(after@) =~= events_of(before@) + events_of(added));
            if events_of(added) == trace {
                assert forall|i: int| 0 <= i < before@.len() implies #[trigger] after@[i]
                    == before@[i] by {
                    assert((before@ + added)[i] == before@[i]);
                }
            }
        }
        if after.continues(&before, trace) {
            assert(after@.take(before@.len() as int) =~= before@);
            assert(before@.is_prefix_of(after@));
            assert(events_of(after@).skip(before@.len() as int) =~= trace);
            assert(events_of(added) =~= events_of(after@).skip(before@.len() as int));
        }
    }
}

/// How often a timer was added to.
pub open spec fn times(events: Seq<Event>, timer: Timer) -> nat {
    events.filter(|event: Event| event == Event::Elapsed(timer)).len()
}

/// One if a condition holds, zero if it doesn't.
pub open spec fn one_if(condition: bool) -> nat {
    if condition {
        1
    } else {
        0
    }
}

proof fn lemma_times_push(timer: Timer)
    ensures
        times(Seq::empty(), timer) == 0,
        forall|events: Seq<Event>, event: Event| #[trigger]
            times(events.push(event), timer) == times(events, timer) + one_if(
                event == Event::Elapsed(timer),
            ),
        forall|a: Seq<Event>, b: Seq<Event>| #[trigger]
            times(a + b, timer) == times(a, timer) + times(b, timer),
        forall|a: Event, b: Event| (#[trigger] seq![a, b]) == seq![a].push(b),
        forall|a: Event, b: Event, c: Event| (#[trigger] seq![a, b, c]) == seq![a].push(b).push(c),
        forall|a: Event, b: Event, c: Event, d: Event|
            (#[trigger] seq![a, b, c, d]) == seq![a].push(b).push(c).push(d),
{
    reveal(Seq::filter);
    lemma_counted_push(Counter::Blocks);
    assert forall|events: Seq<Event>, event: Event| #[trigger]
        times(events.push(event), timer) == times(events, timer) + one_if(
            event == Event::Elapsed(timer),
        ) by {
        assert(events.push(event).drop_last() =~= events);
    }
    assert forall|a: Seq<Event>, b: Seq<Event>| #[trigger]
        times(a + b, timer) == times(a, timer) + times(b, timer) by {
        Seq::filter_distributes_over_add(a, b, |event: Event| event == Event::Elapsed(timer));
    }
}

/// If the amount of an output is verified against its commitment, which solely hidden ones are.
pub open spec fn is_verified(scan: TransactionScan, o: int, key: Seq<u8>) -> bool {
    &&& is_paid(scan, o, key)
    &&& prefix_of(scan.tx).outputs@[o].amount is None
    &&& proofs_of(scan.tx) is Some
    &&& o < proofs_of(scan.tx)->0.base.encrypted_amounts@.len()
}

/// If the amount of an output is found.
pub open spec fn is_opened(scan: TransactionScan, o: int, key: Seq<u8>) -> bool {
    exists|mask: nat, amount: nat| #[trigger]
        is_opening(
            prefix_of(scan.tx).outputs@[o].amount,
            proofs_of(scan.tx),
            o,
            sender_scalar(scan, o, key),
            mask,
            amount,
        )
}

proof fn lemma_opened(scan: TransactionScan, o: int, key: Seq<u8>)
    requires
        0 <= o,
    ensures
        scan.settlement(o, key) is Settled <==> is_opened(scan, o, key),
        scan.is_ours(o, key) ==> (scan.output(o).amount is None && (scan.settlement(
            o,
            key,
        ) is Settled || scan.settlement(o, key) is WrongCommitment) <==> is_verified(scan, o, key)),
        scan.output(o).amount is None && scan.settlement(o, key) is WrongCommitment
            ==> !is_opened(scan, o, key),
        scan.is_ours(o, key) <==> is_paid(scan, o, key),
        scan.output(o) == prefix_of(scan.tx).outputs@[o],
{
    senders_and_recipients_agree(scan, o, key);
    assert(scan.tx.spec_prefix() == prefix_of(scan.tx));
    assert(scan.tx.spec_proofs() == proofs_of(scan.tx));
    let declared = prefix_of(scan.tx).outputs@[o].amount;
    let scalar = sender_scalar(scan, o, key);
    assert forall|mask: nat, amount: nat| #[trigger]
        is_opening(declared, proofs_of(scan.tx), o, scalar, mask, amount) implies scan.settlement(
        o,
        key,
    ) == (Settlement::Settled { mask, amount }) by {
        amounts_are_settled_by_their_commitments(
            declared,
            proofs_of(scan.tx),
            o,
            scalar,
            mask,
            amount,
        );
    }
    amounts_are_settled_by_their_commitments(declared, proofs_of(scan.tx), o, scalar, 0, 0);
    if let Settlement::Settled { mask, amount } = scan.settlement(o, key) {
        amounts_are_settled_by_their_commitments(
            declared,
            proofs_of(scan.tx),
            o,
            scalar,
            mask,
            amount,
        );
    }
}

/// Scanning an output with a key is counted as one derivation, which computes the ECDH unless it's
/// cached. It's counted as a mismatch if the output's view tag isn't the one its sender would've
/// made. Otherwise, the ECDH is looked up again. If the output was paid, its amount is verified if
/// it's hidden, and it's counted as matched if it's found.
pub proof fn keys_are_counted(
    scan: TransactionScan,
    o: int,
    key: Seq<u8>,
    hit: bool,
    counter: Counter,
)
    requires
        0 <= o,
    ensures
        ({
            let tagged = is_tagged(prefix_of(scan.tx).outputs@[o], scan.wallet.view, key, o);
            counted(scan.key_trace(o, key, hit), counter) == match counter {
                Counter::EcdhDerivations => 1,
                Counter::EcdhCacheMisses => one_if(!hit),
                Counter::EcdhCacheHits => one_if(hit) + one_if(tagged),
                Counter::ViewtagMismatch => one_if(!tagged),
                Counter::CommitmentVerifyAttempts => one_if(is_verified(scan, o, key)),
                Counter::CommitmentVerifyFail => one_if(
                    is_verified(scan, o, key) && !is_opened(scan, o, key),
                ),
                Counter::OutputsMatched => one_if(
                    is_paid(scan, o, key) && is_opened(scan, o, key),
                ),
                _ => 0,
            }
        }),
{
    lemma_tagged(scan, o, key);
    lemma_opened(scan, o, key);
    lemma_key_trace(scan, o, key, hit, counter);
}

/// Scanning an output with a key is timed: the lookups of the ECDH, its multiplication and insertion
/// if it wasn't cached, the derivations from it, which are made apart if there is a view tag to
/// compare, the lookup of the spend key, and the verification of a hidden amount.
pub proof fn keys_are_timed(
    scan: TransactionScan,
    o: int,
    key: Seq<u8>,
    hit: bool,
    timer: Timer,
)
    requires
        0 <= o,
    ensures
        ({
            let output = prefix_of(scan.tx).outputs@[o];
            let tagged = is_tagged(output, scan.wallet.view, key, o);
            times(scan.key_trace(o, key, hit), timer) == match timer {
                Timer::EcdhCacheLookupHit => one_if(hit) + one_if(tagged),
                Timer::EcdhCacheLookupMiss => if hit {
                    0
                } else {
                    2
                },
                Timer::EcdhMul => one_if(!hit),
                Timer::OutputDerivations => if output.view_tag is None {
                    2
                } else if tagged {
                    4
                } else {
                    1
                },
                Timer::SubaddressLookup => one_if(tagged),
                Timer::CommitmentVerify => one_if(is_verified(scan, o, key)),
                _ => 0,
            }
        }),
{
    lemma_tagged(scan, o, key);
    lemma_opened(scan, o, key);
    lemma_times_push(timer);
    let tag = scan.output(o).view_tag;
    let expected = scan.view_tag(o, key);
    let found = scan.settlement(o, key);
    let amount = scan.output(o).amount;
    let lookup = ecdh_trace(hit);
    let again = ecdh_trace(true);
    let derived = derivations_trace(tag, expected);
    let settling = settlement_trace(amount, found);
    let start = seq![Event::Count(Counter::EcdhDerivations)];
    let end = seq![Event::Elapsed(Timer::SubaddressLookup)];
    assert(times(start, timer) == 0);
    assert(times(end, timer) == one_if(timer == Timer::SubaddressLookup));
    assert(times(again, timer) == one_if(timer == Timer::EcdhCacheLookupHit));
    assert(times(lookup, timer) == if hit {
        one_if(timer == Timer::EcdhCacheLookupHit)
    } else {
        2 * one_if(timer == Timer::EcdhCacheLookupMiss) + one_if(timer == Timer::EcdhMul)
    });
    assert(times(settling, timer) == one_if(
        timer == Timer::CommitmentVerify && amount is None && (found is Settled
            || found is WrongCommitment),
    ));
    let screening = start + lookup + derived;
    assert(times(screening, timer) == times(lookup, timer) + times(derived, timer));
    if tag_matches(tag, expected) {
        let search = screening + again + derived + end;
        assert(times(search, timer) == times(screening, timer) + times(again, timer) + times(
            derived,
            timer,
        ) + times(end, timer));
        assert(times(search + settling, timer) == times(search, timer) + times(settling, timer));
    }
}

/// What is profiled of keys is what is profiled of each, until one yields anything, the ECDHs with
/// those before being cached.
pub proof fn keys_are_profiled_in_order(
    scan: TransactionScan,
    o: int,
    a: Seq<Seq<u8>>,
    b: Seq<Seq<u8>>,
    key: Seq<u8>,
    cached: Set<Seq<u8>>,
)
    ensures
        scan.keys_trace(o, Seq::empty(), cached) == Seq::<Event>::empty(),
        scan.keys_cached(o, Seq::empty(), cached) == cached,
        scan.keys_trace(o, seq![key], cached) == scan.key_trace(o, key, cached.contains(key)),
        scan.keys_cached(o, seq![key], cached) == cached.insert(key),
        ({
            let undecided = scan.with_keys(o, a) == Ok::<Option<ReceivedOutput>, ScanFault>(None);
            let then = scan.keys_cached(o, a, cached);
            &&& scan.keys_trace(o, a + b, cached) == if undecided {
                scan.keys_trace(o, a, cached) + scan.keys_trace(o, b, then)
            } else {
                scan.keys_trace(o, a, cached)
            }
            &&& scan.keys_cached(o, a + b, cached) == if undecided {
                scan.keys_cached(o, b, then)
            } else {
                then
            }
        }),
    decreases b.len(),
{
    reveal_with_fuel(TransactionScan::keys_trace, 2);
    reveal_with_fuel(TransactionScan::keys_cached, 2);
    assert(seq![key].drop_last() =~= Seq::<Seq<u8>>::empty());
    assert(seq![key].last() == key);
    assert(Seq::<Event>::empty() + scan.key_trace(o, key, cached.contains(key)) =~= scan.key_trace(
        o,
        key,
        cached.contains(key),
    ));
    let then = scan.keys_cached(o, a, cached);
    if b.len() == 0 {
        assert(a + b =~= a);
        assert(scan.keys_trace(o, a, cached) + Seq::<Event>::empty() =~= scan.keys_trace(
            o,
            a,
            cached,
        ));
    } else {
        let rest = b.drop_last();
        keys_are_profiled_in_order(scan, o, a, rest, key, cached);
        the_first_key_to_yield_decides(scan, o, a, rest, key);
        assert((a + b).drop_last() =~= a + rest);
        assert((a + b).last() == b.last());
        if scan.with_keys(o, a) == Ok::<Option<ReceivedOutput>, ScanFault>(None) {
            assert(scan.keys_trace(o, a + b, cached) =~= scan.keys_trace(o, a, cached)
                + scan.keys_trace(o, b, then));
        }
    }
}

/// Each output is counted as visited, and is profiled as its keys are, until an output fails. The
/// ECDHs cached with the outputs before it are still cached.
pub proof fn outputs_are_profiled_in_order(scan: TransactionScan, n: int)
    requires
        0 <= n,
    ensures
        scan.outputs_trace(0) == Seq::<Event>::empty(),
        scan.outputs_cached(0) == Set::<Seq<u8>>::empty(),
        scan.outputs_trace(n + 1) == scan.outputs_trace(n) + if scan.first_outputs(n) is Ok {
            seq![Event::Count(Counter::OutputsVisited)] + scan.keys_trace(
                n,
                scan.keys(n),
                scan.outputs_cached(n),
            )
        } else {
            Seq::empty()
        },
        scan.outputs_cached(n + 1) == scan.keys_cached(n, scan.keys(n), scan.outputs_cached(n)),
{
    assert(scan.outputs_trace(n) + Seq::<Event>::empty() =~= scan.outputs_trace(n));
}

/// Every transaction is timed. Solely ones of the second version are counted as scanned, as is if their
/// additional data couldn't be read, or has no key, their outputs solely being profiled if it has.
pub proof fn transactions_are_profiled(scan: TransactionScan)
    ensures
        scan.trace() == (if scan.tx is V1 {
            Seq::empty()
        } else if is_scanned(scan.tx, read_fields(scan.extra)) {
            seq![Event::Count(Counter::TxsScanned)] + scan.outputs_trace(
                prefix_of(scan.tx).outputs@.len() as int,
            )
        } else {
            seq![Event::Count(Counter::TxsScanned), Event::Count(Counter::TxKeysMissing)]
        }) + seq![Event::Elapsed(Timer::ScanTransaction)],
        unreadable_trace(scan.tx) == (if scan.tx is V1 {
            Seq::empty()
        } else {
            seq![Event::Count(Counter::TxsScanned), Event::Count(Counter::ExtraParseFail)]
        }) + seq![Event::Elapsed(Timer::ScanTransaction)],
{
    lemma_is_scanned(scan);
    assert(scan.tx.spec_prefix() == prefix_of(scan.tx));
    let end = seq![Event::Elapsed(Timer::ScanTransaction)];
    assert(Seq::<Event>::empty() + end =~= end);
}

/// Every block's setup is timed. Solely those which aren't refused before their transactions are scanned,
/// and which have RingCT outputs, are counted, their transactions being profiled until one fails.
pub proof fn blocks_are_profiled(scan: BlockScan, n: int)
    requires
        0 <= n,
    ensures
        scan.trace() == if scan.block.block.transactions@.len() == scan.block.transactions@.len()
            && scan.block.output_index_for_first_ringct_output is Some
            && scan.block.block.header.hardfork_version <= 16 {
            seq![Event::Count(Counter::Blocks), Event::Elapsed(Timer::BlockSetup)]
                + scan.transactions_trace((scan.block.transactions@.len() + 1) as int)
        } else {
            seq![Event::Elapsed(Timer::BlockSetup)]
        },
        scan.transactions_trace(0) == Seq::<Event>::empty(),
        scan.transactions_trace(n + 1) == scan.transactions_trace(n) + if scan.first_transactions(
            n,
        ) is Ok {
            scan.transaction(n).trace()
        } else {
            Seq::empty()
        },
{
    assert(scan.transactions_trace(n) + Seq::<Event>::empty() =~= scan.transactions_trace(n));
}

/// A setting is an integer exactly if it's decimal digits, at least one, potentially behind a plus
/// sign, and the integer they're is at most 255.
pub proof fn settings_are_decimal(s: Seq<char>, n: nat)
    ensures
        u8_written(s) == Some(n) <==> exists|digits: Seq<char>|
            (s == digits || s == seq!['+'] + digits) && digits.len() != 0 && n <= 255 && #[trigger]
                digits_value(digits) == Some(n),
{
    let rest = if s.len() != 0 && s[0] == '+' {
        s.skip(1)
    } else {
        s
    };
    if s.len() != 0 && s[0] == '+' {
        assert(s =~= seq!['+'] + rest);
        if digits_value(s) is Some {
            lemma_all_digits(s, 0);
        }
    }
    assert forall|digits: Seq<char>|
        (s == digits || s == seq!['+'] + digits) && digits.len() != 0 && n <= 255 && #[trigger]
            digits_value(digits) == Some(n) implies u8_written(s) == Some(n) by {
        if s == seq!['+'] + digits {
            assert(s[0] == '+');
            assert(s.skip(1) =~= digits);
        } else {
            lemma_all_digits(digits, 0);
        }
    }
    if u8_written(s) == Some(n) {
        assert(digits_value(rest) == Some(n));
    }
}

proof fn lemma_all_digits(s: Seq<char>, i: int)
    requires
        digits_value(s) is Some,
        0 <= i < s.len(),
    ensures
        '0' <= s[i] && s[i] <= '9',
    decreases s.len(),
{
    if i < s.len() - 1 {
        lemma_all_digits(s.drop_last(), i);
    }
}

/// Each digit further counts the ones before it tenfold, and nothing but decimal digits is a digit.
pub proof fn digits_count_tenfold(s: Seq<char>, c: char)
    ensures
        digits_value(Seq::empty()) == Some(0nat),
        digits_value(s.push(c)) == if digits_value(s) is Some && '0' <= c && c <= '9' {
            Some((10 * digits_value(s)->0 + (c as int - 48)) as nat)
        } else {
            None
        },
{
    assert(s.push(c).drop_last() =~= s);
    assert(digit_of(c) is Some <==> '0' <= c && c <= '9');
}

/// The decimal digits of an integer are those which are read as it, without a leading zero.
pub proof fn decimals_are_read_back(n: nat)
    ensures
        digits_value(decimal(n)) == Some(n),
        decimal(n).len() > 0,
        n >= 10 ==> decimal(n)[0] != '0',
        n < 10 ==> decimal(n).len() == 1,
    decreases n,
{
    reveal_strlit("0123456789");
    reveal_with_fuel(digits_value, 2);
    reveal_with_fuel(decimal, 2);
    let digit = "0123456789"@[(n % 10) as int];
    assert(digit_of(digit) == Some(n % 10));
    if n < 10 {
        assert(seq![digit].drop_last() =~= Seq::<char>::empty());
        assert(seq![digit].last() == digit);
    } else {
        decimals_are_read_back(n / 10);
        assert(decimal(n).drop_last() =~= decimal(n / 10));
        if n / 10 < 10 {
            assert(digits_value(decimal(n / 10)) == Some(n / 10));
            assert(decimal(n / 10)[0] != '0');
        }
    }
}

/// An error's message says what it's of.
pub proof fn messages_say_what_errors_are_of(version: u8, reason: Seq<char>)
    ensures
        message_of(ScanFault::UnsupportedProtocol(version)) == "unsupported protocol version ("@
            + decimal(version as nat) + ")"@,
        message_of(ScanFault::InvalidScannableBlock(reason)) == "invalid scannable block ("@ + reason
            + ")"@,
{
}

} // verus!
