//! Speed-enforcement coordination server, verified core.
//!
//! The library holds everything the server decides: the binary wire codec,
//! the per-connection session state machine, and the shared world state that
//! correlates plate observations, adjudicates tickets under the
//! one-ticket-per-plate-per-day rule, and routes tickets to dispatchers.
//! The surrounding process (sockets, timers, channels) lives outside the
//! library and only carries plain values in and out.

pub mod codec;
pub mod heartbeat;
pub mod laws;
pub mod server;
pub mod session;

use vstd::prelude::*;

verus! {

/// Wire tag of an Error frame (server to client).
pub const SD_ERROR: u8 = 0x10;

/// Wire tag of a Plate frame (client to server).
pub const SD_PLATE: u8 = 0x20;

/// Wire tag of a Ticket frame (server to client).
pub const SD_TICKET: u8 = 0x21;

/// Wire tag of a WantHeartbeat frame (client to server).
pub const SD_WANTHEARTBEAT: u8 = 0x40;

/// Wire tag of a Heartbeat frame (server to client).
pub const SD_HEARTBEAT: u8 = 0x41;

/// Wire tag of an IAmCamera frame (client to server).
pub const SD_IAMCAMERA: u8 = 0x80;

/// Wire tag of an IAmDispatcher frame (client to server).
pub const SD_IAMDISPATCHER: u8 = 0x81;

} // verus!
