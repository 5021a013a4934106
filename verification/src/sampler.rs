//! The step policy of a scan along one axis.
//!
//! Samples that do not escape come in runs, and add nothing to the image.
//! The sampler crosses such a run with doubled steps. The first sample that
//! escapes ends the run: the scan goes back by the doubled step it has just
//! taken and resumes with single steps, so that the point it jumped over is
//! sampled after all.
//!
//! Distances are counted in nominal steps; the caller multiplies.

use vstd::prelude::*;

verus! {

/// How the scan moves after a sample: first `back`, then `forward`, both in
/// nominal steps.
#[derive(Clone, Copy, Debug, PartialEq, Eq, Structural)]
pub struct Advance {
    pub back: u64,
    pub forward: u64,
}

impl Advance {
    /// The distance covered, in nominal steps; negative where the scan goes
    /// back.
    pub open spec fn net(self) -> int {
        self.forward - self.back
    }
}

/// The state of a scan: whether its steps adapt at all, and whether it is in
/// a run of samples that did not escape.
#[derive(Clone, Copy, Debug, PartialEq, Eq, Structural)]
pub struct Sampler {
    pub adaptive: bool,
    pub in_run: bool,
}

/// The step size in state `s`, in nominal steps: doubled inside a run.
pub open spec fn stride_of(s: Sampler) -> int {
    if s.in_run {
        2
    } else {
        1
    }
}

/// The state after a sample. A sample that does not escape starts a run, or
/// continues one; a sample that escapes ends it. A scan that does not adapt
/// is never in a run.
pub open spec fn next_state(s: Sampler, escaped: bool) -> Sampler {
    Sampler { adaptive: s.adaptive, in_run: s.adaptive && !escaped }
}

/// The move after a sample. The scan goes forward by the step size of the
/// new state. Where the sample ends a run, it first goes back by the doubled
/// step that led to the sample.
pub open spec fn advance_of(s: Sampler, escaped: bool) -> Advance {
    Advance {
        back: if s.adaptive && s.in_run && escaped {
            2
        } else {
            0
        },
        forward: stride_of(next_state(s, escaped)) as u64,
    }
}

/// The state after the samples `events`, first to last.
pub open spec fn state_after(s: Sampler, events: Seq<bool>) -> Sampler
    decreases events.len(),
{
    if events.len() == 0 {
        s
    } else {
        next_state(state_after(s, events.drop_last()), events.last())
    }
}

/// The distance covered over the samples `events`, in nominal steps.
pub open spec fn distance_after(s: Sampler, events: Seq<bool>) -> int
    decreases events.len(),
{
    if events.len() == 0 {
        0
    } else {
        distance_after(s, events.drop_last()) + advance_of(
            state_after(s, events.drop_last()),
            events.last(),
        ).net()
    }
}

/// What a state still owes: a run may end with a step back.
pub open spec fn debt(s: Sampler) -> int {
    if s.in_run {
        3
    } else {
        0
    }
}

/// Twice the distance of a move, less the debt taken on, is at least one:
/// no sample leaves the scan where it was for good.
pub proof fn lemma_step_progress(s: Sampler, escaped: bool)
    ensures
        2 * advance_of(s, escaped).net() + debt(s) - debt(next_state(s, escaped)) >= 1,
        -1 <= advance_of(s, escaped).net() <= 2,
{
}

/// After `n` samples a scan that started outside a run has covered at least
/// `(n - 3) / 2` nominal steps: every scan over a bounded range ends.
pub proof fn lemma_scan_progress(s: Sampler, events: Seq<bool>)
    ensures
        2 * distance_after(s, events) + debt(s) - debt(state_after(s, events)) >= events.len(),
        2 * distance_after(s, events) + debt(s) >= events.len() - 3,
    decreases events.len(),
{
    if events.len() > 0 {
        lemma_scan_progress(s, events.drop_last());
        lemma_step_progress(state_after(s, events.drop_last()), events.last());
    }
}

/// A point that was jumped over is sampled next if the sample after the jump
/// escapes: a sample that does not escape is followed by a doubled step, and
/// an escaping sample after it by one step back, with single steps from
/// there.
pub proof fn lemma_skipped_point_is_revisited(s: Sampler)
    requires
        s.adaptive,
    ensures
        advance_of(s, false).net() == 2,
        advance_of(next_state(s, false), true).net() == -1,
        stride_of(next_state(next_state(s, false), true)) == 1,
{
}

/// While samples escape, and in a scan that does not adapt, every step is
/// the nominal step.
pub proof fn lemma_nominal_steps(s: Sampler, escaped: bool)
    requires
        !s.in_run,
        escaped || !s.adaptive,
    ensures
        advance_of(s, escaped) == (Advance { back: 0, forward: 1 }),
        next_state(s, escaped) == s,
{
}

impl Sampler {
    /// A scan at its start: outside a run, with the nominal step.
    pub fn new(adaptive: bool) -> (s: Sampler)
        ensures
            s == (Sampler { adaptive, in_run: false }),
    {
        Sampler { adaptive, in_run: false }
    }

    /// The current step size, in nominal steps.
    pub fn stride(&self) -> (n: u64)
        ensures
            n == stride_of(*self),
    {
        if self.in_run {
            2
        } else {
            1
        }
    }

    /// Takes the outcome of a sample, moves to the next state and says how
    /// the scan moves.
    pub fn observe(&mut self, escaped: bool) -> (a: Advance)
        ensures
            *final(self) == next_state(*old(self), escaped),
            a == advance_of(*old(self), escaped),
    {
        let back: u64 = if self.adaptive && self.in_run && escaped {
            2
        } else {
            0
        };
        self.in_run = self.adaptive && !escaped;
        Advance { back, forward: self.stride() }
    }
}

} // verus!
