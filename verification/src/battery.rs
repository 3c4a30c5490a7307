//! Battery state reported by the remote device.

use vstd::prelude::*;

verus! {

/// The remote device's battery state.
#[derive(Debug, Clone, Copy, PartialEq, Eq, Structural)]
pub struct BatteryStatus {
    /// Charge percentage, 0 to 100.
    pub charge: i32,
    /// Whether the device is charging.
    pub is_charging: bool,
}

} // verus!
