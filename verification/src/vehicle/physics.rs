//! Spacing rules between vehicles, in whole pixels.

use vstd::prelude::*;

verus! {

/// Length of a vehicle sprite along its heading.
pub const VEHICLE_LENGTH: u32 = 32;

/// Minimum front-to-back gap between two vehicles.
pub const SAFETY_DISTANCE: u32 = 40;

/// Minimum centre-to-centre distance between a vehicle and its leader.
pub const MIN_FOLLOWING_GAP: u32 = SAFETY_DISTANCE + VEHICLE_LENGTH;

/// Keeping the following gap guarantees the safety distance: the centre-to-centre
/// gap that followers keep is strictly larger than the bumper-to-bumper minimum.
pub proof fn lemma_following_gap_exceeds_safety_distance()
    ensures
        MIN_FOLLOWING_GAP > SAFETY_DISTANCE,
        MIN_FOLLOWING_GAP == SAFETY_DISTANCE + VEHICLE_LENGTH,
{
}

} // verus!
