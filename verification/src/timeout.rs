//! How long a notification stays on screen.
use vstd::prelude::*;
use crate::config::TIMEOUT_LOW_NORMAL_MS;

verus! {

/// The urgency that a notification without a readable `urgency` hint has
/// (the protocol's "normal").
pub const DEFAULT_URGENCY: u8 = 1;

/// The lifetime, in milliseconds, that a notification gets; `None` means it
/// stays until it is closed. A positive `expire_timeout` is taken as is, zero
/// means "never", and a negative one means "the server decides": critical
/// notifications (urgency 2 or more) stay, the others get the default.
pub open spec fn timeout_spec(expire_timeout: i32, urgency: Option<u8>) -> Option<u32> {
    if expire_timeout > 0 {
        Some(expire_timeout as u32)
    } else if expire_timeout == 0 {
        None
    } else {
        let u = match urgency {
            Some(u) => u,
            None => DEFAULT_URGENCY,
        };
        if u >= 2 {
            None
        } else {
            Some(TIMEOUT_LOW_NORMAL_MS)
        }
    }
}

/// Resolves the lifetime of a notification from the `expire_timeout` that the
/// client sent and the value of its `urgency` hint, if that hint is a byte.
pub fn resolve_timeout(expire_timeout: i32, urgency: Option<u8>) -> (r: Option<u32>)
    ensures
        r == timeout_spec(expire_timeout, urgency),
        r matches Some(ms) ==> ms > 0,
{
    if expire_timeout > 0 {
        return Some(expire_timeout as u32);
    }
    if expire_timeout == 0 {
        return None;
    }
    let urgency = match urgency {
        Some(u) => u,
        None => DEFAULT_URGENCY,
    };
    if urgency >= 2 {
        None
    } else {
        Some(TIMEOUT_LOW_NORMAL_MS)
    }
}

} // verus!
