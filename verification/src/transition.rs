//! Full-screen transition overlays: fade out, hold, fade back in.
//!
//! The overlay only computes the phase and opacity for each frame; drawing
//! the tinted rectangle (and any splash image) is the renderer's business.
use vstd::prelude::*;

verus! {

/// Default length of each transition phase, in milliseconds.
pub const DEFAULT_TRANSITION_DURATION_MILLIS: u32 = 750;

/// Longest accepted phase duration, in milliseconds.
pub const DURATION_LIMIT: u32 = 1000000000;

/// Phase of a transition overlay, as reported by each update.
#[derive(Clone, Copy, Debug, PartialEq, Eq, Structural)]
pub enum TransitionState {
    FadeOut,
    Hold,
    FadeIn,
    Complete,
}

/// A timed overlay that fades the screen out, holds it, and fades it back
/// in. Opacities are in thousandths.
pub struct TransitionOverlay {
    out_duration_ms: u32,
    hold_duration_ms: u32,
    in_duration_ms: u32,
    elapsed_ms: u32,
}

impl TransitionOverlay {
    /// Structural invariant: the fading phases are nonempty and every
    /// duration is bounded, so the phase arithmetic stays exact.
    pub closed spec fn inv(self) -> bool {
        &&& 1 <= self.out_duration_ms <= DURATION_LIMIT
        &&& self.hold_duration_ms <= DURATION_LIMIT
        &&& 1 <= self.in_duration_ms <= DURATION_LIMIT
    }

    pub closed spec fn spec_elapsed(self) -> int {
        self.elapsed_ms as int
    }

    pub closed spec fn spec_durations(self) -> (int, int, int) {
        (self.out_duration_ms as int, self.hold_duration_ms as int, self.in_duration_ms as int)
    }

    /// A well-formed overlay has nonempty, bounded fading phases and a
    /// nonnegative elapsed time.
    pub proof fn lemma_inv_bounds(self)
        requires
            self.inv(),
        ensures
            1 <= self.spec_durations().0 <= DURATION_LIMIT,
            0 <= self.spec_durations().1 <= DURATION_LIMIT,
            1 <= self.spec_durations().2 <= DURATION_LIMIT,
            0 <= self.spec_elapsed() <= u32::MAX,
    {
    }

    /// The phase and opacity (in thousandths) at a given elapsed time of a
    /// transition with the given phase durations: fading out, the opacity
    /// climbs to full; it holds at full; fading in, it falls back toward
    /// zero; after all three phases the transition is complete.
    pub open spec fn spec_phase(durations: (int, int, int), elapsed: int) -> (
        TransitionState,
        int,
    ) {
        let (out_d, hold_d, in_d) = durations;
        if elapsed >= out_d + hold_d + in_d {
            (TransitionState::Complete, 0)
        } else if elapsed <= out_d {
            (TransitionState::FadeIn, 1000 - ((out_d - elapsed) * 1000) / out_d)
        } else if elapsed <= out_d + hold_d {
            (TransitionState::Hold, 1000)
        } else {
            (TransitionState::FadeOut, ((out_d + hold_d + in_d - elapsed) * 1000) / in_d)
        }
    }

    /// A new overlay with the given phase durations, in milliseconds; no
    /// time has elapsed yet.
    pub fn new(out_duration_ms: u32, hold_duration_ms: u32, in_duration_ms: u32) -> (t:
        TransitionOverlay)
        requires
            1 <= out_duration_ms <= DURATION_LIMIT,
            hold_duration_ms <= DURATION_LIMIT,
            1 <= in_duration_ms <= DURATION_LIMIT,
        ensures
            t.inv(),
            t.spec_elapsed() == 0,
            t.spec_durations() == (
                out_duration_ms as int,
                hold_duration_ms as int,
                in_duration_ms as int,
            ),
    {
        TransitionOverlay { out_duration_ms, hold_duration_ms, in_duration_ms, elapsed_ms: 0 }
    }

    /// Advances the overlay by one frame delta and reports the phase it is
    /// now in together with the overlay opacity in thousandths.
    pub fn update(&mut self, delta_ms: u32) -> (r: (TransitionState, u32))
        requires
            old(self).inv(),
        ensures
            final(self).inv(),
            final(self).spec_durations() == old(self).spec_durations(),
            final(self).spec_elapsed() == (if old(self).spec_elapsed() + delta_ms
                <= u32::MAX as int {
                old(self).spec_elapsed() + delta_ms
            } else {
                u32::MAX as int
            }),
            (r.0, r.1 as int) == Self::spec_phase(
                final(self).spec_durations(),
                final(self).spec_elapsed(),
            ),
            r.1 <= 1000,
    {
        if delta_ms <= u32::MAX - self.elapsed_ms {
            self.elapsed_ms = self.elapsed_ms + delta_ms;
        } else {
            self.elapsed_ms = u32::MAX;
        }
        let out_d = self.out_duration_ms;
        let hold_d = self.hold_duration_ms;
        let in_d = self.in_duration_ms;
        let elapsed = self.elapsed_ms;
        if elapsed >= out_d + hold_d && elapsed - (out_d + hold_d) >= in_d {
            (TransitionState::Complete, 0)
        } else if elapsed <= out_d {
            proof {
                let gap = (out_d - elapsed) as int * 1000;
                vstd::arithmetic::div_mod::lemma_div_pos_is_pos(gap, out_d as int);
                vstd::arithmetic::div_mod::lemma_div_is_ordered(
                    gap,
                    out_d as int * 1000,
                    out_d as int,
                );
                assert(gap <= out_d as int * 1000) by (nonlinear_arith)
                    requires
                        0 <= out_d - elapsed <= out_d,
                        gap == (out_d - elapsed) as int * 1000,
                ;
                assert((out_d as int * 1000) / (out_d as int) == 1000) by {
                    vstd::arithmetic::div_mod::lemma_fundamental_div_mod_converse(
                        out_d as int * 1000,
                        out_d as int,
                        1000,
                        0,
                    );
                    assert(out_d as int * 1000 == 1000 * (out_d as int) + 0) by (nonlinear_arith);
                }
            }
            let opacity = 1000 - ((out_d - elapsed) as u64 * 1000 / out_d as u64) as u32;
            (TransitionState::FadeIn, opacity)
        } else if elapsed <= out_d + hold_d {
            (TransitionState::Hold, 1000)
        } else {
            let remaining = out_d + hold_d + in_d - elapsed;
            proof {
                let gap = remaining as int * 1000;
                vstd::arithmetic::div_mod::lemma_div_pos_is_pos(gap, in_d as int);
                vstd::arithmetic::div_mod::lemma_div_is_ordered(
                    gap,
                    in_d as int * 1000,
                    in_d as int,
                );
                assert(gap <= in_d as int * 1000) by (nonlinear_arith)
                    requires
                        0 <= remaining <= in_d,
                        gap == remaining as int * 1000,
                ;
                assert((in_d as int * 1000) / (in_d as int) == 1000) by {
                    vstd::arithmetic::div_mod::lemma_fundamental_div_mod_converse(
                        in_d as int * 1000,
                        in_d as int,
                        1000,
                        0,
                    );
                    assert(in_d as int * 1000 == 1000 * (in_d as int) + 0) by (nonlinear_arith);
                }
            }
            let opacity = (remaining as u64 * 1000 / in_d as u64) as u32;
            (TransitionState::FadeOut, opacity)
        }
    }
}

} // verus!
