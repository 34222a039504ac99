//! The bot's status line.
use vstd::prelude::*;

verus! {

/// What each model with a pending expiry is counted as, in percent of the
/// processor.
pub const CPU_PER_ACTIVE_MODEL: u32 = 15;

/// The status shown while nothing is running.
pub const IDLE_STATUS: &'static str = "💤 Рарити спит";

/// The processor load put down to the model server: fifteen percent for
/// each loaded model that is due to expire, at most one hundred.
pub open spec fn estimated_cpu(expiring_models: nat) -> nat {
    if 15 * expiring_models < 100 {
        15 * expiring_models
    } else {
        100
    }
}

pub fn estimated_cpu_load(expiring_models: usize) -> (r: u32)
    ensures
        r == estimated_cpu(expiring_models as nat),
{
    if expiring_models < 7 {
        (15 * expiring_models) as u32
    } else {
        100
    }
}

} // verus!
