//! Static configuration of one monitor: the management endpoint to poll and
//! the notification credentials, handed through to the delivery channel
//! unread.
use vstd::prelude::*;

verus! {

/// Where the management interface of the watched server listens.
pub struct Openvpn {
    pub address: String,
    pub port: u16,
}

/// Credentials for the push-notification channel; opaque to the core.
pub struct Pushover {
    pub token: String,
    pub user_key: String,
}

/// Everything one monitor instance is configured with.
pub struct Config {
    pub openvpn: Openvpn,
    pub pushover: Pushover,
}

} // verus!
