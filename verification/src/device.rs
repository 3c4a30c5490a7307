//! Device categories reported by the remote daemon.

use crate::text::str_eq;
use vstd::prelude::*;

verus! {

/// The category of a paired device.
#[derive(Debug, Clone, Copy, PartialEq, Eq, Structural)]
pub enum DeviceType {
    Phone,
    Tablet,
    Desktop,
    Laptop,
    Tv,
    Unknown,
}

/// The category a daemon-reported type string names.
pub open spec fn device_type_of(s: Seq<char>) -> DeviceType {
    if s == "phone"@ || s == "smartphone"@ {
        DeviceType::Phone
    } else if s == "tablet"@ {
        DeviceType::Tablet
    } else if s == "desktop"@ {
        DeviceType::Desktop
    } else if s == "laptop"@ {
        DeviceType::Laptop
    } else if s == "tv"@ {
        DeviceType::Tv
    } else {
        DeviceType::Unknown
    }
}

impl<'a> core::convert::From<&'a str> for DeviceType {
    /// Map the daemon's type string to a category; anything unrecognized is
    /// `Unknown`.
    fn from(s: &'a str) -> (r: DeviceType) {
        if str_eq(s, "phone") || str_eq(s, "smartphone") {
            DeviceType::Phone
        } else if str_eq(s, "tablet") {
            DeviceType::Tablet
        } else if str_eq(s, "desktop") {
            DeviceType::Desktop
        } else if str_eq(s, "laptop") {
            DeviceType::Laptop
        } else if str_eq(s, "tv") {
            DeviceType::Tv
        } else {
            DeviceType::Unknown
        }
    }
}

impl<'a> vstd::std_specs::convert::FromSpecImpl<&'a str> for DeviceType {
    open spec fn obeys_from_spec() -> bool {
        true
    }

    open spec fn from_spec(s: &'a str) -> DeviceType {
        device_type_of(s@)
    }
}

} // verus!
