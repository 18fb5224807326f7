//! Timelines: what an effect asks the hardware to do, step by step.

use crate::shiftreg::{frame, Driver, Pins, Signal};
use vstd::prelude::*;

verus! {

/// One thing for the caller to do on the hardware.
#[derive(Clone, Copy, Debug, PartialEq, Eq, Structural)]
pub enum Step {
    /// Drive an output line.
    Drive(Signal),
    /// Block for this many milliseconds.
    Wait(u32),
}

/// The steps that transmit `cells` as one frame.
pub open spec fn shown(cells: Seq<bool>) -> Seq<Step> {
    frame(cells).map_values(|signal: Signal| Step::Drive(signal))
}

/// A single wait of `ms` milliseconds.
pub open spec fn pause(ms: u32) -> Seq<Step> {
    seq![Step::Wait(ms)]
}

/// `piece(0)`, `piece(1)`, ... `piece(n - 1)`, one after the other.
pub open spec fn chain(n: nat, piece: spec_fn(int) -> Seq<Step>) -> Seq<Step>
    decreases n,
{
    if n == 0 {
        Seq::empty()
    } else {
        chain((n - 1) as nat, piece) + piece(n - 1)
    }
}

/// `cycle`, `n` times over.
pub open spec fn repeat(n: nat, cycle: Seq<Step>) -> Seq<Step>
    decreases n,
{
    if n == 0 {
        Seq::empty()
    } else {
        repeat((n - 1) as nat, cycle) + cycle
    }
}

/// The line levels after `steps` were played from the levels `pins`.
pub open spec fn settle(pins: Pins, steps: Seq<Step>) -> Pins
    decreases steps.len(),
{
    if steps.len() == 0 {
        pins
    } else {
        let before = settle(pins, steps.drop_last());
        match steps.last() {
            Step::Drive(signal) => before.driven(signal),
            Step::Wait(_) => before,
        }
    }
}

/// Playing `first` and then `second` is playing their concatenation.
pub proof fn lemma_settle_concat(pins: Pins, first: Seq<Step>, second: Seq<Step>)
    ensures
        settle(pins, first + second) == settle(settle(pins, first), second),
    decreases second.len(),
{
    if second.len() == 0 {
        assert(first + second =~= first);
    } else {
        lemma_settle_concat(pins, first, second.drop_last());
        assert((first + second).drop_last() =~= first + second.drop_last());
    }
}

/// Playing a frame leaves the lines where its writes leave them.
pub proof fn lemma_settle_shown(pins: Pins, cells: Seq<bool>)
    ensures
        settle(pins, shown(cells)) == pins.after(frame(cells)),
{
    lemma_settle_drives(pins, frame(cells));
}

proof fn lemma_settle_drives(pins: Pins, signals: Seq<Signal>)
    ensures
        settle(pins, signals.map_values(|signal: Signal| Step::Drive(signal))) == pins.after(
            signals,
        ),
    decreases signals.len(),
{
    let drive = |signal: Signal| Step::Drive(signal);
    if signals.len() > 0 {
        lemma_settle_drives(pins, signals.drop_last());
        assert(signals.map_values(drive).drop_last() =~= signals.drop_last().map_values(drive));
    }
}

/// Flushes the driver and appends the frame to `steps`.
pub(crate) fn transmit(driver: &mut Driver, steps: &mut Vec<Step>, Ghost(start): Ghost<Pins>)
    requires
        old(driver).lines() == settle(start, old(steps)@),
    ensures
        final(driver)@ == old(driver)@,
        final(steps)@ == old(steps)@ + shown(old(driver)@),
        final(driver).lines() == settle(start, final(steps)@),
{
    let signals = driver.update().unwrap();
    let ghost drive = |signal: Signal| Step::Drive(signal);
    let mut i: usize = 0;
    while i < signals.len()
        invariant
            i <= signals.len(),
            drive == |signal: Signal| Step::Drive(signal),
            steps@ == old(steps)@ + signals@.take(i as int).map_values(drive),
        decreases signals.len() - i,
    {
        steps.push(Step::Drive(signals[i]));
        assert(signals@.take(i + 1).map_values(drive) =~= signals@.take(i as int).map_values(
            drive,
        ).push(drive(signals@[i as int])));
        i += 1;
    }
    proof {
        assert(signals@.take(signals.len() as int) =~= signals@);
        lemma_settle_concat(start, old(steps)@, shown(old(driver)@));
        lemma_settle_shown(old(driver).lines(), old(driver)@);
    }
}

/// Appends a wait to `steps`.
pub(crate) fn hold(steps: &mut Vec<Step>, ms: u32, Ghost(start): Ghost<Pins>)
    ensures
        final(steps)@ == old(steps)@ + pause(ms),
        settle(start, final(steps)@) == settle(start, old(steps)@),
{
    steps.push(Step::Wait(ms));
    assert(steps@ =~= old(steps)@ + pause(ms));
    assert(steps@.drop_last() =~= old(steps)@);
}

} // verus!
