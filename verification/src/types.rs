//! Wire-level constants shared by the parser and the encoder.

use vstd::prelude::*;

verus! {

pub const MESSAGE_TYPE_ERROR: u8 = 0x10;

pub const MESSAGE_TYPE_PLATE: u8 = 0x20;

pub const MESSAGE_TYPE_TICKET: u8 = 0x21;

pub const MESSAGE_TYPE_WANT_HEARTBEAT: u8 = 0x40;

pub const MESSAGE_TYPE_HEARTBEAT: u8 = 0x41;

pub const MESSAGE_TYPE_AM_CAMERA: u8 = 0x80;

pub const MESSAGE_TYPE_AM_DISPATCHER: u8 = 0x81;

/// Seconds in a calendar day; ticket deduplication works in day numbers.
pub const DAY_IN_SECONDS: u32 = 86_400;

} // verus!
