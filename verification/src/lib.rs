//! The logic of a desktop system monitor: what it makes of the text and
//! figures the operating system reports, proved against contracts.
//! Reading files, running commands and calling system interfaces is left to
//! the caller, which hands the results in as plain values.
pub mod commands;
pub mod disk_writer;
pub mod linux;
pub mod macos;
pub mod names;
pub mod numbers;
pub mod strings;
pub mod text;
pub mod windows;

use vstd::prelude::*;

verus! {

/// How long the system has been up, and when it started, in seconds
/// (the start as seconds since the Unix epoch).
pub struct UptimeInfo {
    pub uptime: u64,
    pub time_system_started: u64,
}

/// One network connection as the monitor lists it.
pub struct ConnectionInfo {
    pub protocol: String,
    pub local_address: String,
    pub local_port: u16,
    pub remote_address: String,
    pub remote_port: u16,
    pub state: String,
    pub pid: Option<i32>,
    pub process_name: Option<String>,
}

} // verus!
