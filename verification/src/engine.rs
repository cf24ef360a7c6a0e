//! The hotkey combo state machine.
//!
//! The OS key hook hands the surrounding process raw key states; everything
//! it decides with them is here, as pure functions on plain values.  One
//! combo attempt runs: arm on a modifier press (guarded against overlapping
//! attempts), wait for the trigger while the modifier is held, dispatch to
//! record or playback by the shift state, then scan for an eligible key at
//! a fixed poll interval until the timeout.  The driver loop only sleeps,
//! polls keys and carries out the returned decisions.

use vstd::prelude::*;
use crate::store::ImageBinds;

verus! {

/// Milliseconds between key polls.
pub const POLL_INTERVAL_MS: u64 = 100;

/// Milliseconds a record or playback scan keeps looking for a key.
pub const SCAN_TIMEOUT_MS: u64 = 4000;

/// How many polls fit in one scan window: the timeout divided by the poll
/// interval.
pub const SCAN_TICKS: u64 = 40;

/// What a completed combo asks for.
#[derive(Clone, Copy, Debug, PartialEq, Eq, Structural)]
pub enum Mode {
    Record,
    Playback,
}

/// The decision taken on each poll while the combo is armed.
#[derive(Clone, Copy, Debug, PartialEq, Eq, Structural)]
pub enum ArmedStep {
    /// Modifier still held, trigger not yet down: poll again.
    Wait,
    /// Trigger fired: run a scan in the given mode.
    Dispatch(Mode),
    /// Modifier released: the attempt is over.
    Finish,
}

/// The decision taken on each poll of a record or playback scan.
#[derive(Clone, Copy, Debug, PartialEq, Eq, Structural)]
pub enum ScanStep {
    /// An eligible key is down; act on it and stop scanning.
    Found(u64),
    /// No eligible key is down yet: poll again.
    Continue,
    /// The scan window is spent: stop with no effect.
    TimedOut,
}

/// Arming decision: given whether the guard was already held and whether
/// the trigger key is already down, the guard's new value and whether a
/// combo attempt starts.
pub open spec fn spec_arm(guard_held: bool, trigger_down: bool) -> (bool, bool) {
    if guard_held {
        (true, false)
    } else if trigger_down {
        (false, false)
    } else {
        (true, true)
    }
}

/// React to a modifier-key press.  `guard_held` is the guard's value at the
/// instant of the press (the one the arming attempt atomically swapped to
/// true); the result is the guard's value afterwards and whether this
/// attempt now owns the combo.  A press while an attempt is in flight is
/// dropped; a trigger key already down aborts at once, releasing the guard.
pub fn try_arm(guard_held: bool, trigger_down: bool) -> (r: (bool, bool))
    ensures
        r == spec_arm(guard_held, trigger_down),
{
    if guard_held {
        (true, false)
    } else if trigger_down {
        (false, false)
    } else {
        (true, true)
    }
}

/// One poll of the armed wait: modifier released finishes the attempt, the
/// trigger dispatches (shift picks record over playback), otherwise keep
/// waiting.  The wait has no timeout of its own.
pub open spec fn spec_armed_step(
    modifier_down: bool,
    trigger_down: bool,
    shift_down: bool,
) -> ArmedStep {
    if !modifier_down {
        ArmedStep::Finish
    } else if trigger_down {
        ArmedStep::Dispatch(
            if shift_down {
                Mode::Record
            } else {
                Mode::Playback
            },
        )
    } else {
        ArmedStep::Wait
    }
}

/// Executable twin of [`spec_armed_step`].
pub fn armed_step(modifier_down: bool, trigger_down: bool, shift_down: bool) -> (r: ArmedStep)
    ensures
        r == spec_armed_step(modifier_down, trigger_down, shift_down),
{
    if !modifier_down {
        ArmedStep::Finish
    } else if trigger_down {
        ArmedStep::Dispatch(
            if shift_down {
                Mode::Record
            } else {
                Mode::Playback
            },
        )
    } else {
        ArmedStep::Wait
    }
}

/// Pick the key a scan acts on: of the eligible keys (`keys[i]`, pressed
/// exactly when `down[i]`), the lowest pressed one.  The lowest-key rule is
/// the scan's deterministic tie-break when several keys are down at the
/// same poll.
pub fn pick_min_down(keys: &Vec<u64>, down: &Vec<bool>) -> (r: Option<u64>)
    requires
        keys@.len() == down@.len(),
    ensures
        match r {
            Some(k) => (exists|i: int| 0 <= i < keys@.len() && keys@[i] == k && down@[i])
                && (forall|i: int| 0 <= i < keys@.len() && down@[i] ==> k <= #[trigger] keys@[i]),
            None => forall|i: int| 0 <= i < keys@.len() ==> !down@[i],
        },
{
    let mut best: Option<u64> = None;
    let mut i: usize = 0;
    while i < keys.len()
        invariant
            keys@.len() == down@.len(),
            0 <= i <= keys@.len(),
            match best {
                Some(k) => (exists|j: int| 0 <= j < i && keys@[j] == k && down@[j]) && (forall|
                    j: int,
                |
                    0 <= j < i && down@[j] ==> k <= #[trigger] keys@[j]),
                None => forall|j: int| 0 <= j < i ==> !down@[j],
            },
        decreases keys@.len() - i,
    {
        if down[i] {
            let k = keys[i];
            best = match best {
                Some(b) => if k < b {
                    Some(k)
                } else {
                    Some(b)
                },
                None => Some(k),
            };
        }
        i = i + 1;
    }
    best
}

/// One poll of a scan, `ticks_done` polls into the window.  The window
/// closes after [`SCAN_TICKS`] polls; within it, the lowest pressed
/// eligible key is found, or the scan continues.
pub fn scan_step(ticks_done: u64, keys: &Vec<u64>, down: &Vec<bool>) -> (r: ScanStep)
    requires
        keys@.len() == down@.len(),
    ensures
        ticks_done >= SCAN_TICKS ==> r == ScanStep::TimedOut,
        ticks_done < SCAN_TICKS ==> match r {
            ScanStep::Found(k) => (exists|i: int|
                0 <= i < keys@.len() && keys@[i] == k && down@[i]) && (forall|i: int|
                0 <= i < keys@.len() && down@[i] ==> k <= #[trigger] keys@[i]),
            ScanStep::Continue => forall|i: int| 0 <= i < keys@.len() ==> !down@[i],
            ScanStep::TimedOut => false,
        },
{
    if ticks_done >= SCAN_TICKS {
        ScanStep::TimedOut
    } else {
        match pick_min_down(keys, down) {
            Some(k) => ScanStep::Found(k),
            None => ScanStep::Continue,
        }
    }
}

/// Whether a poll snapshot shows any pressed eligible key.
pub open spec fn tick_has_press(down: Seq<bool>) -> bool {
    exists|i: int| 0 <= i < down.len() && down[i]
}

/// The outcome of a whole scan, given the poll snapshots it would see:
/// the tick at which the first press appears, if one appears inside the
/// window that is left.
pub open spec fn spec_scan_outcome(polls: Seq<Seq<bool>>, ticks_done: u64) -> Option<u64>
    decreases polls.len(),
{
    if ticks_done >= SCAN_TICKS || polls.len() == 0 {
        None
    } else if tick_has_press(polls[0]) {
        Some(ticks_done)
    } else {
        spec_scan_outcome(polls.drop_first(), (ticks_done + 1) as u64)
    }
}

/// The timeout law: a scan whose polls never show a pressed eligible key
/// finds nothing, however long the snapshot list.  Since only a found key
/// leads to a record or a playback action, such a scan leaves the store
/// and the clipboard untouched.
pub proof fn lemma_scan_times_out(polls: Seq<Seq<bool>>, ticks_done: u64)
    requires
        forall|t: int| 0 <= t < polls.len() ==> !tick_has_press(#[trigger] polls[t]),
    ensures
        spec_scan_outcome(polls, ticks_done) is None,
    decreases polls.len(),
{
    if ticks_done >= SCAN_TICKS || polls.len() == 0 {
    } else {
        assert(!tick_has_press(polls[0]));
        assert forall|t: int| 0 <= t < polls.drop_first().len() implies !tick_has_press(
            #[trigger] polls.drop_first()[t],
        ) by {
            assert(polls.drop_first()[t] == polls[t + 1]);
        }
        lemma_scan_times_out(polls.drop_first(), (ticks_done + 1) as u64);
    }
}

/// The mutual-exclusion law of the guard: while one activation holds the
/// guard, a second modifier press changes nothing and starts no scan, and
/// the guard stays held for the first activation; once the guard is
/// released and the trigger is up, arming succeeds again.
pub proof fn lemma_arm_mutual_exclusion(trigger_down: bool)
    ensures
        spec_arm(true, trigger_down) == (true, false),
        spec_arm(false, false) == (true, true),
{
}

/// The stale-trigger law: a trigger key already down when the modifier is
/// pressed starts no scan, and the guard is released immediately.
pub proof fn lemma_stale_trigger_aborts()
    ensures
        spec_arm(false, true) == (false, false),
{
}

/// The playback-restriction law: a key found by a playback scan, whose
/// candidate list is a snapshot of the store's bound keys, is bound in the
/// store.  An alphabetic key that was never recorded cannot be found, so
/// no clipboard write happens for it and no lookup can miss.
pub proof fn lemma_playback_found_is_bound(
    s: &ImageBinds,
    keys: Seq<u64>,
    down: Seq<bool>,
    k: u64,
)
    requires
        s.wf(),
        keys == s.key_seq(),
        exists|i: int| 0 <= i < keys.len() && keys[i] == k && down[i],
    ensures
        s@.dom().contains(k),
{
    let i = choose|i: int| 0 <= i < keys.len() && keys[i] == k && down[i];
    assert(s.key_seq()[i] == k);
    assert(s.key_seq().contains(k));
}

} // verus!
