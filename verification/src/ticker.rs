//! The sampling tick: its interval and which ticks reach the display.

use vstd::prelude::*;
use crate::monitor::{law_signature_tells_changes, same_display, signature_of, signature_safe, DisplayFigures};

verus! {

/// Shortest and longest sampling interval.
pub const MIN_INTERVAL_MS: u64 = 250;
pub const MAX_INTERVAL_MS: u64 = 60000;

/// The stored interval, held between 250 ms and 60 s.
pub fn effective_interval(ms: u64) -> (r: u64)
    ensures
        r == (if ms < MIN_INTERVAL_MS {
            MIN_INTERVAL_MS
        } else if ms > MAX_INTERVAL_MS {
            MAX_INTERVAL_MS
        } else {
            ms
        }),
{
    if ms < MIN_INTERVAL_MS {
        MIN_INTERVAL_MS
    } else if ms > MAX_INTERVAL_MS {
        MAX_INTERVAL_MS
    } else {
        ms
    }
}

/// Most ticks in a row that may be left out.
pub const MAX_SKIPPED: u32 = 8;

pub struct GateView {
    pub last_sig: Seq<char>,
    pub skipped: u32,
}

/// One tick: it is left out when its display signature equals the last
/// one sent, fewer than eight ticks were left out since, and no refresh is
/// forced; otherwise it is sent and becomes the last one.
pub open spec fn gate_step(g: GateView, sig: Seq<char>, forced: bool) -> (GateView, bool) {
    if sig == g.last_sig && g.skipped < MAX_SKIPPED && !forced {
        (GateView { last_sig: g.last_sig, skipped: (g.skipped + 1) as u32 }, false)
    } else {
        (GateView { last_sig: sig, skipped: 0 }, true)
    }
}

/// Decides which sampled ticks are sent to the display.
pub struct EmitGate {
    last_sig: String,
    skipped: u32,
}

impl View for EmitGate {
    type V = GateView;

    closed spec fn view(&self) -> GateView {
        GateView { last_sig: self.last_sig@, skipped: self.skipped }
    }
}

impl EmitGate {
    /// Never more than eight ticks left out in a row.
    #[verifier::type_invariant]
    spec fn within_limit(&self) -> bool {
        self.skipped <= MAX_SKIPPED
    }

    /// Nothing sent yet (the last signature is empty).
    pub fn new() -> (r: EmitGate)
        ensures
            r@.last_sig == Seq::<char>::empty(),
            r@.skipped == 0,
    {
        EmitGate { last_sig: String::new(), skipped: 0 }
    }

    /// Whether the tick with this display signature is sent.
    pub fn should_send(&mut self, sig: String, forced: bool) -> (send: bool)
        ensures
            (final(self)@, send) == gate_step(old(self)@, sig@, forced),
            final(self)@.skipped <= MAX_SKIPPED,
    {
        proof {
            use_type_invariant(&*self);
        }
        if sig == self.last_sig && self.skipped < MAX_SKIPPED && !forced {
            self.skipped = self.skipped + 1;
            false
        } else {
            self.last_sig = sig;
            self.skipped = 0;
            true
        }
    }
}

/// A tick whose signature differs from the last one sent is always sent,
/// and so is a forced one.
pub proof fn law_changes_are_sent(g: GateView, sig: Seq<char>, forced: bool)
    ensures
        sig != g.last_sig || forced ==> gate_step(g, sig, forced).1,
{
}

/// A tick whose signature equals the last one sent is left out, unless a
/// refresh is forced or eight ticks in a row were already left out.
pub proof fn law_unchanged_left_out(g: GateView, forced: bool)
    requires
        g.skipped < MAX_SKIPPED,
        !forced,
    ensures
        !gate_step(g, g.last_sig, forced).1,
        gate_step(g, g.last_sig, forced).0.last_sig == g.last_sig,
{
}

/// At most eight ticks in a row are left out: a left-out tick counts one
/// more, and after eight left out the next tick is sent.
pub proof fn law_at_most_eight_skipped(g: GateView, sig: Seq<char>, forced: bool)
    requires
        g.skipped <= MAX_SKIPPED,
    ensures
        !gate_step(g, sig, forced).1 ==> gate_step(g, sig, forced).0.skipped == g.skipped + 1,
        gate_step(g, sig, forced).0.skipped <= MAX_SKIPPED,
        g.skipped == MAX_SKIPPED ==> gate_step(g, sig, forced).1,
{
}

/// A tick whose displayed values differ from those of the last tick sent
/// is always sent, whatever was left out before.
pub proof fn law_display_changes_sent(g: GateView, last: DisplayFigures, now: DisplayFigures, forced: bool)
    requires
        signature_safe(last),
        signature_safe(now),
        g.last_sig == signature_of(last),
        !same_display(last, now),
    ensures
        gate_step(g, signature_of(now), forced).1,
{
    if signature_of(now) == g.last_sig {
        law_signature_tells_changes(last, now);
    }
}

} // verus!
