//! Outputs which may be additionally timelocked.

use vstd::prelude::*;

use crate::output::{outputs_view, ReceivedOutput, WalletOutput};
use crate::transaction::{timelock_at_most, Timelock};

verus! {

/// A collection of potentially additionally timelocked outputs.
pub struct Timelocked(Vec<WalletOutput>);

impl View for Timelocked {
    type V = Seq<ReceivedOutput>;

    closed spec fn view(&self) -> Seq<ReceivedOutput> {
        outputs_view(self.0@)
    }
}

/// If an additional timelock unlocks by the specified block/time.
pub open spec fn satisfied_by(timelock: Timelock, block: usize, time: u64) -> bool {
    timelock_at_most(timelock, Timelock::Block(block)) || timelock_at_most(
        timelock,
        Timelock::Time(time),
    )
}

/// The outputs which aren't subject to an additional timelock.
pub open spec fn not_locked(outputs: Seq<ReceivedOutput>) -> Seq<ReceivedOutput> {
    outputs.filter(|output: ReceivedOutput| output.additional_timelock == Timelock::Absent)
}

/// The outputs whose additional timelock unlocks by the specified block/time.
pub open spec fn unlocked_by(
    outputs: Seq<ReceivedOutput>,
    block: usize,
    time: u64,
) -> Seq<ReceivedOutput> {
    outputs.filter(|output: ReceivedOutput| satisfied_by(output.additional_timelock, block, time))
}

proof fn lemma_push_view(outputs: Seq<WalletOutput>, output: WalletOutput)
    ensures
        outputs_view(outputs.push(output)) == outputs_view(outputs).push(output@),
{
    assert(outputs_view(outputs.push(output)) =~= outputs_view(outputs).push(output@));
}

/// Overwrite all outputs of a list.
pub(crate) fn zeroize_outputs(outputs: &mut Vec<WalletOutput>)
    ensures
        outputs_view(final(outputs)@) == Seq::new(
            old(outputs)@.len(),
            |i: int| ReceivedOutput::zeroized(),
        ),
{
    let mut i: usize = 0;
    while i < outputs.len()
        invariant
            i <= outputs.len(),
            outputs@.len() == old(outputs)@.len(),
            forall|j: int|
                0 <= j < i ==> (#[trigger] outputs@[j])@ == ReceivedOutput::zeroized(),
        decreases outputs.len() - i,
    {
        outputs[i].zeroize();
        i += 1;
    }
    assert(outputs_view(outputs@) =~= Seq::new(
        old(outputs)@.len(),
        |i: int| ReceivedOutput::zeroized(),
    ));
}

impl Timelocked {
    /// A collection of these outputs.
    pub(crate) fn from_outputs(outputs: Vec<WalletOutput>) -> (res: Timelocked)
        ensures
            res@ == outputs_view(outputs@),
    {
        Timelocked(outputs)
    }

    /// Return the outputs which aren't subject to an additional timelock.
    #[must_use]
    pub fn not_additionally_locked(self) -> (res: Vec<WalletOutput>)
        ensures
            outputs_view(res@) == not_locked(self@),
    {
        let mut all = self;
        let mut res: Vec<WalletOutput> = Vec::new();
        let mut i: usize = 0;
        proof {
            reveal(Seq::filter);
            assert(outputs_view(res@) =~= not_locked(self@.take(0)));
        }
        while i < all.0.len()
            invariant
                all == self,
                i <= all.0.len(),
                outputs_view(res@) == not_locked(self@.take(i as int)),
            decreases all.0.len() - i,
        {
            proof {
                reveal(Seq::filter);
                assert(self@.take(i + 1).drop_last() =~= self@.take(i as int));
                assert(self@.take(i + 1).last() == all.0@[i as int]@);
            }
            if all.0[i].additional_timelock() == Timelock::Absent {
                let output = all.0[i].clone();
                proof {
                    lemma_push_view(res@, output);
                }
                res.push(output);
            }
            i += 1;
        }
        assert(self@.take(i as int) =~= self@);
        // The outputs returned are copies, the originals being overwritten
        all.zeroize();
        res
    }

    /// Return the outputs whose additional timelock unlocks by the specified block/time.
    ///
    /// Additional timelocks are almost never used outside of miner transactions, and are
    /// increasingly planned for removal. Ignoring non-miner additionally-timelocked outputs is
    /// recommended.
    ///
    /// `block` is the block number of the block the additional timelock must be satisfied by.
    ///
    /// `time` is represented in seconds since the epoch and is in terms of Monero's on-chain clock.
    /// That means outputs whose additional timelocks are satisfied by `Instant::now()` (the time
    /// according to the local system clock) may still be locked due to variance with Monero's clock.
    #[must_use]
    pub fn additional_timelock_satisfied_by(self, block: usize, time: u64) -> (res: Vec<
        WalletOutput,
    >)
        ensures
            outputs_view(res@) == unlocked_by(self@, block, time),
    {
        let mut all = self;
        let mut res: Vec<WalletOutput> = Vec::new();
        let mut i: usize = 0;
        proof {
            reveal(Seq::filter);
            assert(outputs_view(res@) =~= unlocked_by(self@.take(0), block, time));
        }
        while i < all.0.len()
            invariant
                all == self,
                i <= all.0.len(),
                outputs_view(res@) == unlocked_by(self@.take(i as int), block, time),
            decreases all.0.len() - i,
        {
            proof {
                reveal(Seq::filter);
                assert(self@.take(i + 1).drop_last() =~= self@.take(i as int));
                assert(self@.take(i + 1).last() == all.0@[i as int]@);
            }
            let timelock = all.0[i].additional_timelock();
            if timelock.at_most(&Timelock::Block(block)) || timelock.at_most(
                &Timelock::Time(time),
            ) {
                let output = all.0[i].clone();
                proof {
                    lemma_push_view(res@, output);
                }
                res.push(output);
            }
            i += 1;
        }
        assert(self@.take(i as int) =~= self@);
        // The outputs returned are copies, the originals being overwritten
        all.zeroize();
        res
    }

    /// Ignore the timelocks and return all outputs within this container.
    #[must_use]
    pub fn ignore_additional_timelock(self) -> (res: Vec<WalletOutput>)
        ensures
            outputs_view(res@) == self@,
    {
        self.0
    }

    /// Overwrite all outputs within this container, and remove them from it.
    pub fn zeroize(&mut self)
        ensures
            final(self)@ == Seq::<ReceivedOutput>::empty(),
    {
        zeroize_outputs(&mut self.0);
        self.0.clear();
        assert(self@ =~= Seq::<ReceivedOutput>::empty());
    }
}

} // verus!
