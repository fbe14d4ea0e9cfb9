//! Rooms of clients that relay musical events to each other.
//!
//! `client` holds the roster of one room and its broadcast rule, `rooms` the
//! directory of rooms with admission and departure, `websocket` the life of
//! one connection, and `message` the messages exchanged. Every operation
//! returns the messages to deliver together with their recipients; the
//! transport that carries them lies outside the library.

use vstd::prelude::*;

pub mod client;
pub mod message;
pub mod rooms;
pub mod websocket;

verus! {

} // verus!
