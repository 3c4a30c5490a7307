//! Notifications mirrored from the remote device.

use vstd::prelude::*;

verus! {

/// One notification on the remote device, as the daemon reports it.
#[derive(Debug, Clone)]
pub struct NotificationInfo {
    /// The notification id.
    pub id: String,
    /// The application that raised it.
    pub app_name: String,
    /// Its title.
    pub title: String,
    /// Its body text.
    pub text: String,
    /// Whether it can be dismissed from here.
    pub dismissable: bool,
    /// Whether it can be replied to from here.
    pub repliable: bool,
}

} // verus!
