//! Finds a proxy that an Android phone serves over USB/RNDIS or Wi-Fi
//! tethering, tells SOCKS5 from HTTP CONNECT by their handshakes, and keeps
//! the settings of the gateway that routes through it.
use vstd::prelude::*;

pub mod text;
pub mod ipv4;
pub mod interfaces;
pub mod targets;
pub mod probe;
pub mod report;
pub mod config;
pub mod cli;
pub mod dashboard;

verus! {

} // verus!
