//! Device-trust and notification-delivery core for a terminal-session daemon.
//!
//! The library owns the two stores the daemon persists: the device /
//! setup-token store that establishes trust with remote clients, and the
//! push-endpoint registry that the notification engine fans out to and
//! self-heals.  All state transitions are plain functions over in-memory
//! values; the surrounding binary supplies the clock, the files and the
//! network.

use vstd::prelude::*;

pub mod api;
pub mod auth;
pub mod clock;
pub mod codec;
pub mod gate;
pub mod notify;
pub mod text;
pub mod tmux;
pub mod token;

verus! {

/// Default number of scrollback lines returned when an output query names none.
pub fn default_lines() -> (n: u32)
    ensures
        n == 200,
{
    200
}

} // verus!
