//! Numbers fixed by the protocol.

use vstd::prelude::*;

verus! {

/// Control type that opens a session.
pub const CONTROL_START: u32 = 2;

/// Control type that closes a session.
pub const CONTROL_STOP: u32 = 3;

/// The one control field type that a control frame may carry.
pub const CONTROL_FIELD_CONTENT_TYPE: u32 = 1;

/// Largest length that a control frame may declare, in bytes.
pub const MAX_CONTROL_FRAME_LENGTH: u32 = 512;

/// Smallest length that a control frame may declare: its control type alone.
pub const MIN_CONTROL_FRAME_LENGTH: u32 = 4;

} // verus!
