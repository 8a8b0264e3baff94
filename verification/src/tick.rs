use vstd::prelude::*;
use std::time::Duration;

verus! {

/// Tick rate presets: Potato (20 TPS), Rice (50 TPS), Beef (100 TPS).
#[derive(Debug, Clone, Copy, PartialEq, Eq)]
pub enum TickRate {
    Potato,
    Rice,
    Beef,
}

impl TickRate {
    /// Ticks per second of the preset.
    pub open spec fn spec_tps(self) -> u32 {
        match self {
            TickRate::Potato => 20,
            TickRate::Rice => 50,
            TickRate::Beef => 100,
        }
    }

    pub fn tps(self) -> (r: u32)
        ensures
            r == self.spec_tps(),
    {
        match self {
            TickRate::Potato => 20,
            TickRate::Rice => 50,
            TickRate::Beef => 100,
        }
    }

    /// Display name of the preset, with its tick rate.
    pub fn label(self) -> (r: &'static str)
        ensures
            self == TickRate::Potato ==> r@ == "Potato (20 TPS)"@,
            self == TickRate::Rice ==> r@ == "Rice (50 TPS)"@,
            self == TickRate::Beef ==> r@ == "Beef (100 TPS)"@,
    {
        match self {
            TickRate::Potato => "Potato (20 TPS)",
            TickRate::Rice => "Rice (50 TPS)",
            TickRate::Beef => "Beef (100 TPS)",
        }
    }
}

/// What `Duration::from_secs` returns for `secs` seconds: a duration that is
/// a function of `secs` alone.
pub uninterp spec fn duration_from_secs_result(secs: u64) -> Duration;

/// Calls `Duration::from_secs`. The contract claims only that the result is
/// determined by `secs`; the duration itself is opaque to the verifier.
#[verifier::external_body]
fn duration_from_secs(secs: u64) -> (d: Duration)
    ensures
        d == duration_from_secs_result(secs),
{
    Duration::from_secs(secs)
}

/// A zero duration: what `Duration::from_secs(0)` gives.
pub fn placeholder_duration() -> (d: Duration)
    ensures
        d == duration_from_secs_result(0),
{
    duration_from_secs(0)
}

} // verus!
