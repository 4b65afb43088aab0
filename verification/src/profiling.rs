//! What holds of what scanning is profiled as.

use vstd::prelude::*;

use crate::error::ScanFault;
use crate::microprof::{counted, events_of, is_balanced, wrapped, Counter, Entry, Event, Timer};
use crate::microprof::ScannerMicroprofSnapshot;
use crate::output::ReceivedOutput;
use crate::receiving::{derivations_trace, ecdh_trace, settlement_trace, tag_matches, BlockScan};
use crate::receiving::{unreadable_trace, TransactionScan};
use crate::tallies::one_if;

verus! {

/// What is profiled in two parts is counted as both.
pub proof fn counts_add_up(a: Seq<Event>, b: Seq<Event>, counter: Counter)
    ensures
        counted(a + b, counter) == counted(a, counter) + counted(b, counter),
{
    Seq::filter_distributes_over_add(a, b, |event: Event| event == Event::Count(counter));
}

/// Between two snapshots without a reset, each counter advances by how often it was counted.
pub proof fn snapshots_differ_by_what_was_counted(
    earlier: ScannerMicroprofSnapshot,
    later: ScannerMicroprofSnapshot,
    earlier_log: Seq<Entry>,
    later_log: Seq<Entry>,
    trace: Seq<Event>,
    counter: Counter,
)
    requires
        earlier.totals(earlier_log),
        later.totals(later_log),
        events_of(later_log) == events_of(earlier_log) + trace,
    ensures
        later.counter(counter) == wrapped(
            (earlier.counter(counter) + counted(trace, counter)) as nat,
        ),
{
    counts_add_up(events_of(earlier_log), trace, counter);
    assert(earlier.counter(counter) == wrapped(counted(events_of(earlier_log), counter)));
    assert(later.counter(counter) == wrapped(counted(events_of(later_log), counter)));
}

/// The snapshot after a reset, if nothing was profiled since, is zero.
pub proof fn snapshots_after_resets_are_zero(snapshot: ScannerMicroprofSnapshot)
    requires
        snapshot.totals(Seq::empty()),
    ensures
        snapshot.is_zero(),
{
    reveal(Seq::filter);
    assert(events_of(Seq::<Entry>::empty()) =~= Seq::<Event>::empty());
    assert forall|counter: Counter| #[trigger] snapshot.counter(counter) == 0 by {
        assert(snapshot.counter(counter) == wrapped(
            counted(events_of(Seq::<Entry>::empty()), counter),
        ));
    }
}

pub proof fn lemma_counted_push(counter: Counter)
    ensures
        counted(Seq::empty(), counter) == 0,
        forall|events: Seq<Event>, event: Event| #[trigger]
            counted(events.push(event), counter) == counted(events, counter) + one_if(
                event == Event::Count(counter),
            ),
        forall|a: Event, b: Event|
            (#[trigger] seq![a, b]) == seq![a].push(b),
        forall|a: Event, b: Event, c: Event|
            (#[trigger] seq![a, b, c]) == seq![a].push(b).push(c),
        forall|a: Event, b: Event, c: Event, d: Event|
            (#[trigger] seq![a, b, c, d]) == seq![a].push(b).push(c).push(d),
{
    reveal(Seq::filter);
    assert forall|a: Event, b: Event| (#[trigger] seq![a, b]) == seq![a].push(b) by {
        assert(seq![a, b] =~= seq![a].push(b));
    }
    assert forall|a: Event, b: Event, c: Event| (#[trigger] seq![a, b, c]) == seq![a].push(b).push(
        c,
    ) by {
        assert(seq![a, b, c] =~= seq![a].push(b).push(c));
    }
    assert forall|a: Event, b: Event, c: Event, d: Event| (#[trigger] seq![a, b, c, d])
        == seq![a].push(b).push(c).push(d) by {
        assert(seq![a, b, c, d] =~= seq![a].push(b).push(c).push(d));
    }
    assert forall|events: Seq<Event>, event: Event| #[trigger]
        counted(events.push(event), counter) == counted(events, counter) + one_if(
            event == Event::Count(counter),
        ) by {
        assert(events.push(event).drop_last() =~= events);
    }
}

proof fn lemma_counted_add(counter: Counter)
    ensures
        forall|a: Seq<Event>, b: Seq<Event>| #[trigger]
            counted(a + b, counter) == counted(a, counter) + counted(b, counter),
{
    assert forall|a: Seq<Event>, b: Seq<Event>| #[trigger]
        counted(a + b, counter) == counted(a, counter) + counted(b, counter) by {
        counts_add_up(a, b, counter);
    }
}

/// How often scanning an output with a key counts `counter`.
pub open spec fn key_counts(
    scan: TransactionScan,
    o: int,
    key: Seq<u8>,
    hit: bool,
    counter: Counter,
) -> nat {
    let matches = tag_matches(scan.output(o).view_tag, scan.view_tag(o, key));
    let ours = scan.is_ours(o, key);
    let found = scan.settlement(o, key);
    let hidden = scan.output(o).amount is None;
    match counter {
        Counter::EcdhDerivations => 1,
        Counter::EcdhCacheMisses => one_if(!hit),
        Counter::EcdhCacheHits => one_if(hit) + one_if(matches),
        Counter::ViewtagMismatch => one_if(!matches),
        Counter::CommitmentVerifyAttempts => one_if(
            ours && hidden && (found is Settled || found is WrongCommitment),
        ),
        Counter::CommitmentVerifyFail => one_if(ours && hidden && found is WrongCommitment),
        Counter::OutputsMatched => one_if(ours && found is Settled),
        _ => 0,
    }
}

pub proof fn lemma_key_trace(
    scan: TransactionScan,
    o: int,
    key: Seq<u8>,
    hit: bool,
    counter: Counter,
)
    ensures
        counted(scan.key_trace(o, key, hit), counter) == key_counts(scan, o, key, hit, counter),
{
    let tag = scan.output(o).view_tag;
    let expected = scan.view_tag(o, key);
    let amount = scan.output(o).amount;
    let found = scan.settlement(o, key);
    lemma_counted_push(counter);
    lemma_counted_add(counter);
    assert(counted(ecdh_trace(true), counter) == one_if(counter == Counter::EcdhCacheHits));
    assert(counted(ecdh_trace(false), counter) == one_if(counter == Counter::EcdhCacheMisses));
    assert(counted(derivations_trace(tag, expected), counter) == one_if(
        counter == Counter::ViewtagMismatch && !tag_matches(tag, expected),
    ));
    assert(counted(settlement_trace(amount, found), counter) == if amount is None {
        one_if(
            counter == Counter::CommitmentVerifyAttempts && (found is Settled
                || found is WrongCommitment),
        ) + one_if(counter == Counter::CommitmentVerifyFail && found is WrongCommitment)
    } else {
        0
    });
    let start = seq![Event::Count(Counter::EcdhDerivations)];
    let end = seq![Event::Elapsed(Timer::SubaddressLookup)];
    assert(counted(start, counter) == one_if(counter == Counter::EcdhDerivations));
    assert(counted(end, counter) == 0);
    let screening = start + ecdh_trace(hit) + derivations_trace(tag, expected);
    assert(counted(screening, counter) == one_if(counter == Counter::EcdhDerivations) + counted(
        ecdh_trace(hit),
        counter,
    ) + counted(derivations_trace(tag, expected), counter));
}

/// How many outputs scanning an output with these keys yields.
spec fn yielded(scan: TransactionScan, o: int, keys: Seq<Seq<u8>>) -> nat {
    match scan.with_keys(o, keys) {
        Ok(Some(_)) => 1,
        _ => 0,
    }
}

proof fn lemma_keys_trace(
    scan: TransactionScan,
    o: int,
    keys: Seq<Seq<u8>>,
    cached: Set<Seq<u8>>,
)
    requires
        cached.finite(),
    ensures
        scan.keys_cached(o, keys, cached).finite(),
        cached.len() + counted(scan.keys_trace(o, keys, cached), Counter::EcdhCacheMisses)
            == scan.keys_cached(o, keys, cached).len(),
        scan.with_keys(o, keys) is Ok ==> counted(
            scan.keys_trace(o, keys, cached),
            Counter::OutputsMatched,
        ) == yielded(scan, o, keys),
        counted(scan.keys_trace(o, keys, cached), Counter::OutputsVisited) == 0,
    decreases keys.len(),
{
    lemma_counted_push(Counter::EcdhCacheMisses);
    lemma_counted_push(Counter::OutputsMatched);
    lemma_counted_push(Counter::OutputsVisited);
    if keys.len() != 0 {
        let rest = keys.drop_last();
        lemma_keys_trace(scan, o, rest, cached);
        let hit = scan.keys_cached(o, rest, cached).contains(keys.last());
        lemma_key_trace(scan, o, keys.last(), hit, Counter::EcdhCacheMisses);
        lemma_key_trace(scan, o, keys.last(), hit, Counter::OutputsMatched);
        lemma_key_trace(scan, o, keys.last(), hit, Counter::OutputsVisited);
        lemma_counted_add(Counter::EcdhCacheMisses);
        lemma_counted_add(Counter::OutputsMatched);
        lemma_counted_add(Counter::OutputsVisited);
        if hit {
            assert(scan.keys_cached(o, rest, cached).insert(keys.last()) =~= scan.keys_cached(
                o,
                rest,
                cached,
            ));
        }
    }
}

/// What is counted of the first `n` outputs, if they could be scanned.
proof fn lemma_outputs_trace(scan: TransactionScan, n: int)
    requires
        0 <= n,
        scan.first_outputs(n) is Ok,
    ensures
        scan.outputs_cached(n).finite(),
        counted(scan.outputs_trace(n), Counter::EcdhCacheMisses) == scan.outputs_cached(n).len(),
        counted(scan.outputs_trace(n), Counter::OutputsMatched) == scan.first_outputs(
            n,
        )->Ok_0.len(),
        counted(scan.outputs_trace(n), Counter::OutputsVisited) == n,
    decreases n,
{
    lemma_counted_push(Counter::EcdhCacheMisses);
    lemma_counted_push(Counter::OutputsMatched);
    lemma_counted_push(Counter::OutputsVisited);
    if n != 0 {
        lemma_outputs_trace(scan, n - 1);
        lemma_keys_trace(scan, n - 1, scan.keys(n - 1), scan.outputs_cached(n - 1));
        lemma_counted_add(Counter::EcdhCacheMisses);
        lemma_counted_add(Counter::OutputsMatched);
        lemma_counted_add(Counter::OutputsVisited);
    }
}

/// How often scanning a transaction counts `counter`.
proof fn lemma_trace(scan: TransactionScan, counter: Counter)
    ensures
        counted(scan.trace(), counter) == one_if(
            counter == Counter::TxsScanned && scan.tx.spec_version() == 2,
        ) + if scan.has_keys() {
            counted(scan.outputs_trace(scan.tx.spec_prefix().outputs@.len() as int), counter)
        } else {
            one_if(counter == Counter::TxKeysMissing && scan.tx.spec_version() == 2)
        },
{
    lemma_counted_push(counter);
    lemma_counted_add(counter);
    let scanned = seq![Event::Count(Counter::TxsScanned)];
    let outputs = scan.outputs_trace(scan.tx.spec_prefix().outputs@.len() as int);
    assert(counted(scanned + outputs, counter) == counted(scanned, counter) + counted(
        outputs,
        counter,
    ));
}

/// Each output received from a transaction is counted as matched, and no other output is.
pub proof fn matched_outputs_are_counted(scan: TransactionScan)
    requires
        scan.received() is Ok,
    ensures
        counted(scan.trace(), Counter::OutputsMatched) == scan.received()->Ok_0.len(),
{
    lemma_trace(scan, Counter::OutputsMatched);
    if scan.has_keys() {
        lemma_outputs_trace(scan, scan.tx.spec_prefix().outputs@.len() as int);
    }
}

/// Each output of a transaction with keys is visited.
pub proof fn every_output_is_visited(scan: TransactionScan)
    requires
        scan.received() is Ok,
    ensures
        counted(scan.trace(), Counter::OutputsVisited) == if scan.has_keys() {
            scan.tx.spec_prefix().outputs@.len()
        } else {
            0
        },
{
    lemma_trace(scan, Counter::OutputsVisited);
    if scan.has_keys() {
        lemma_outputs_trace(scan, scan.tx.spec_prefix().outputs@.len() as int);
    }
}

/// The ECDH with each key a transaction is scanned with is computed once, whichever outputs it's
/// needed for.
pub proof fn ecdhs_are_computed_once(scan: TransactionScan)
    requires
        scan.received() is Ok,
        scan.has_keys(),
    ensures
        counted(scan.trace(), Counter::EcdhCacheMisses) == scan.outputs_cached(
            scan.tx.spec_prefix().outputs@.len() as int,
        ).len(),
{
    lemma_trace(scan, Counter::EcdhCacheMisses);
    lemma_outputs_trace(scan, scan.tx.spec_prefix().outputs@.len() as int);
}

proof fn lemma_transactions_trace(scan: BlockScan, n: int)
    requires
        0 <= n,
        scan.first_transactions(n) is Ok,
    ensures
        counted(scan.transactions_trace(n), Counter::OutputsMatched) == scan.first_transactions(
            n,
        )->Ok_0.len(),
    decreases n,
{
    let counter = Counter::OutputsMatched;
    lemma_counted_push(counter);
    if n > 0 {
        lemma_transactions_trace(scan, n - 1);
        let tx = scan.transaction(n - 1);
        matched_outputs_are_counted(tx);
        counts_add_up(scan.transactions_trace(n - 1), tx.trace(), counter);
    }
}

/// Each output received from a block is counted as matched, and no other output is.
pub proof fn matched_outputs_of_blocks_are_counted(scan: BlockScan)
    requires
        scan.received() is Ok,
    ensures
        counted(scan.trace(), Counter::OutputsMatched) == scan.received()->Ok_0.len(),
{
    lemma_counted_push(Counter::OutputsMatched);
    lemma_counted_add(Counter::OutputsMatched);
    if scan.block.output_index_for_first_ringct_output is Some {
        lemma_transactions_trace(scan, scan.len());
    }
}

/// What is profiled in two parts which are each balanced is balanced.
pub proof fn balanced_profiles_add_up(a: Seq<Event>, b: Seq<Event>)
    requires
        is_balanced(a),
        is_balanced(b),
    ensures
        is_balanced(a + b),
{
    assert forall|counter: Counter| #[trigger]
        counted(a + b, counter) == counted(a, counter) + counted(b, counter) by {
        counts_add_up(a, b, counter);
    }
}

/// What scanning an output with keys is profiled as is balanced, were the output counted as visited.
proof fn lemma_keys_balanced(
    scan: TransactionScan,
    o: int,
    keys: Seq<Seq<u8>>,
    cached: Set<Seq<u8>>,
)
    ensures
        ({
            let trace = scan.keys_trace(o, keys, cached);
            &&& are_keys_balanced(trace)
            &&& counted(trace, Counter::OutputsMatched) <= 1
            &&& scan.with_keys(o, keys) == Ok::<Option<ReceivedOutput>, ScanFault>(None) ==> counted(
                trace,
                Counter::OutputsMatched,
            ) == 0
        }),
    decreases keys.len(),
{
    let trace = scan.keys_trace(o, keys, cached);
    if keys.len() == 0 {
        assert forall|counter: Counter| #[trigger] counted(trace, counter) == 0 by {
            lemma_counted_push(counter);
        }
    } else {
        let rest = keys.drop_last();
        lemma_keys_balanced(scan, o, rest, cached);
        let before = scan.keys_trace(o, rest, cached);
        let hit = scan.keys_cached(o, rest, cached).contains(keys.last());
        let this = scan.key_trace(o, keys.last(), hit);
        lemma_key_balanced(scan, o, keys.last(), hit);
        lemma_keys_balanced_add(before, this);
    }
}

proof fn lemma_keys_balanced_add(a: Seq<Event>, b: Seq<Event>)
    requires
        are_keys_balanced(a),
        are_keys_balanced(b),
    ensures
        are_keys_balanced(a + b),
        counted(a + b, Counter::OutputsMatched) == counted(a, Counter::OutputsMatched) + counted(
            b,
            Counter::OutputsMatched,
        ),
{
    assert forall|counter: Counter| #[trigger]
        counted(a + b, counter) == counted(a, counter) + counted(b, counter) by {
        counts_add_up(a, b, counter);
    }
}

/// What scanning an output with one key is profiled as is balanced, and solely if it yields anything
/// is an output matched.
proof fn lemma_key_balanced(scan: TransactionScan, o: int, key: Seq<u8>, hit: bool)
    ensures
        are_keys_balanced(scan.key_trace(o, key, hit)),
        counted(scan.key_trace(o, key, hit), Counter::OutputsMatched) <= 1,
        scan.with_key(o, key) == Ok::<Option<ReceivedOutput>, ScanFault>(None) ==> counted(
            scan.key_trace(o, key, hit),
            Counter::OutputsMatched,
        ) == 0,
{
    let trace = scan.key_trace(o, key, hit);
    assert forall|counter: Counter| #[trigger]
        counted(trace, counter) == key_counts(scan, o, key, hit, counter) by {
        lemma_key_trace(scan, o, key, hit, counter);
    }
}

/// As `is_balanced`, without regard for the outputs visited.
spec fn are_keys_balanced(events: Seq<Event>) -> bool {
    &&& counted(events, Counter::CommitmentVerifyFail) <= counted(
        events,
        Counter::CommitmentVerifyAttempts,
    )
    &&& counted(events, Counter::OutputsMatched) + counted(events, Counter::ViewtagMismatch)
        + counted(events, Counter::CommitmentVerifyFail) <= counted(
        events,
        Counter::EcdhDerivations,
    )
    &&& counted(events, Counter::EcdhCacheMisses) <= counted(events, Counter::EcdhDerivations)
    &&& counted(events, Counter::EcdhDerivations) <= counted(events, Counter::EcdhCacheHits)
        + counted(events, Counter::EcdhCacheMisses)
    &&& counted(events, Counter::ExtraParseFail) == 0
    &&& counted(events, Counter::TxKeysMissing) == 0
}

proof fn lemma_outputs_balanced(scan: TransactionScan, n: int)
    ensures
        is_balanced(scan.outputs_trace(n)),
        counted(scan.outputs_trace(n), Counter::ExtraParseFail) == 0,
        counted(scan.outputs_trace(n), Counter::TxKeysMissing) == 0,
    decreases n,
{
    if n <= 0 {
        assert forall|counter: Counter| #[trigger]
            counted(scan.outputs_trace(n), counter) == 0 by {
            lemma_counted_push(counter);
        }
    } else {
        lemma_outputs_balanced(scan, n - 1);
        let visit = seq![Event::Count(Counter::OutputsVisited)];
        let trace = scan.keys_trace(n - 1, scan.keys(n - 1), scan.outputs_cached(n - 1));
        let before = scan.outputs_trace(n - 1);
        lemma_keys_balanced(scan, n - 1, scan.keys(n - 1), scan.outputs_cached(n - 1));
        assert forall|counter: Counter| #[trigger]
            counted(before + (visit + trace), counter) == counted(before, counter) + one_if(
                counter == Counter::OutputsVisited,
            ) + counted(trace, counter) by {
            lemma_counted_push(counter);
            counts_add_up(visit, trace, counter);
            counts_add_up(before, visit + trace, counter);
        }
    }
}

/// What scanning a transaction is profiled as is balanced, even if the scan fails.
pub proof fn transactions_are_profiled_balanced(scan: TransactionScan)
    ensures
        is_balanced(scan.trace()),
        is_balanced(unreadable_trace(scan.tx)),
{
    let outputs = scan.outputs_trace(scan.tx.spec_prefix().outputs@.len() as int);
    lemma_outputs_balanced(scan, scan.tx.spec_prefix().outputs@.len() as int);
    assert forall|counter: Counter| #[trigger]
        counted(scan.trace(), counter) == one_if(
            counter == Counter::TxsScanned && scan.tx.spec_version() == 2,
        ) + if scan.has_keys() {
            counted(outputs, counter)
        } else {
            one_if(counter == Counter::TxKeysMissing && scan.tx.spec_version() == 2)
        } by {
        lemma_trace(scan, counter);
    }
    assert forall|counter: Counter| #[trigger]
        counted(unreadable_trace(scan.tx), counter) == one_if(
            counter == Counter::TxsScanned && scan.tx.spec_version() == 2,
        ) + one_if(counter == Counter::ExtraParseFail && scan.tx.spec_version() == 2) by {
        lemma_counted_push(counter);
        lemma_counted_add(counter);
    }
}

proof fn lemma_transactions_balanced(scan: BlockScan, n: int)
    ensures
        is_balanced(scan.transactions_trace(n)),
    decreases n,
{
    if n <= 0 {
        assert forall|counter: Counter| #[trigger]
            counted(scan.transactions_trace(n), counter) == 0 by {
            lemma_counted_push(counter);
        }
    } else {
        lemma_transactions_balanced(scan, n - 1);
        transactions_are_profiled_balanced(scan.transaction(n - 1));
        balanced_profiles_add_up(
            scan.transactions_trace(n - 1),
            scan.transaction(n - 1).trace(),
        );
    }
}

/// What scanning a block is profiled as is balanced, even if the scan fails.
pub proof fn blocks_are_profiled_balanced(scan: BlockScan)
    ensures
        is_balanced(scan.trace()),
{
    let transactions = scan.transactions_trace(scan.len());
    let setup = seq![Event::Count(Counter::Blocks), Event::Elapsed(Timer::BlockSetup)];
    let timed = seq![Event::Elapsed(Timer::BlockSetup)];
    lemma_transactions_balanced(scan, scan.len());
    assert forall|counter: Counter|
        #![trigger counted(setup, counter)]
        #![trigger counted(timed, counter)]
        counted(setup, counter) == one_if(counter == Counter::Blocks) && counted(timed, counter)
            == 0 by {
        lemma_counted_push(counter);
    }
    assert(is_balanced(setup));
    assert(is_balanced(timed));
    balanced_profiles_add_up(setup, transactions);
}

} // verus!
