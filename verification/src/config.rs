//! Integer settings of the daemon.
use vstd::prelude::*;

verus! {

/// Width of a notification box, in pixels.
pub const WIDTH: i32 = 360;

/// Smallest height of a notification box, in pixels.
pub const MIN_HEIGHT: i32 = 80;

/// Largest height of a notification box, in pixels.
pub const MAX_BUFFER_HEIGHT: i32 = 1024;

/// Most notifications stacked on screen at once.
pub const MAX_VISIBLE: usize = 5;

/// Vertical gap between stacked notifications, in pixels.
pub const GAP: i32 = 5;

/// Margin from the top of the screen, in pixels.
pub const TOP_MARGIN: i32 = 20;

/// Margin from the right of the screen, in pixels.
pub const RIGHT_MARGIN: i32 = 20;

/// Default lifetime of a low or normal urgency notification, in milliseconds.
pub const TIMEOUT_LOW_NORMAL_MS: u32 = 5000;

/// How often expired notifications are swept away, in milliseconds.
pub const EXPIRY_SWEEP_INTERVAL_MS: u64 = 100;

} // verus!
