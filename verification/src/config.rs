//! Immutable configuration snapshot handed to every stage at startup.
//!
//! The surrounding process may assemble a snapshot from whatever sources it
//! has (command line, file, environment); this module only fixes the shape of
//! the snapshot and the built-in defaults that apply when no source supplies
//! a value.

use vstd::prelude::*;

verus! {

/// A peer coupling endpoint the input stage connects to, as plain values.
pub struct Endpoint {
    pub host: String,
    pub port: u16,
}

/// Verbosity of a log destination.
#[derive(Clone, Copy, PartialEq, Eq, Structural, Debug)]
pub enum LogLevel {
    Error,
    Warn,
    Info,
    Debug,
    Trace,
}

/// One immutable snapshot of every setting the pipeline core consumes.
pub struct Config {
    /// Peer endpoints the input stage holds a connection to.
    pub peer_list: Vec<Endpoint>,
    /// Capacity of each bounded inter-stage channel.
    pub channel_capacity: usize,
    /// How far ahead of the expected sequence position a fragment may run
    /// and still be buffered for reordering.
    pub reorder_window: u64,
    /// Milliseconds without a fragment after which a session is finalized.
    pub idle_timeout_ms: u64,
    /// Width, in bytes, of one normalized sample window.
    pub sample_width: usize,
    /// How many times a failed sink write is retried before the result is
    /// dropped with a report.
    pub retry_limit: u64,
    /// Base delay of the bounded write-retry backoff, in milliseconds.
    pub backoff_base_ms: u64,
    /// Upper bound on any single backoff delay, in milliseconds.
    pub backoff_cap_ms: u64,
    /// Verbosity of console logging.
    pub console_level: LogLevel,
    /// Verbosity of file logging.
    pub file_level: LogLevel,
}

impl Config {
    /// The defaults a snapshot starts from when no source supplies a value.
    pub fn new() -> (c: Config)
        ensures
            c.peer_list@.len() == 0,
            c.channel_capacity == 100,
            c.reorder_window == 16,
            c.idle_timeout_ms == 30000,
            c.sample_width == 4096,
            c.retry_limit == 5,
            c.backoff_base_ms == 100,
            c.backoff_cap_ms == 5000,
            c.console_level == LogLevel::Info,
            c.file_level == LogLevel::Debug,
    {
        Config {
            peer_list: Vec::new(),
            channel_capacity: 100,
            reorder_window: 16,
            idle_timeout_ms: 30000,
            sample_width: 4096,
            retry_limit: 5,
            backoff_base_ms: 100,
            backoff_cap_ms: 5000,
            console_level: LogLevel::Info,
            file_level: LogLevel::Debug,
        }
    }

    /// The points the input stage connects to for upstream data.
    pub fn peers(&self) -> (p: &Vec<Endpoint>)
        ensures
            p == &self.peer_list,
    {
        &self.peer_list
    }

    /// Registers one more peer endpoint in the snapshot.
    pub fn add_peer(&mut self, host: String, port: u16)
        ensures
            final(self).peer_list@.len() == old(self).peer_list@.len() + 1,
            forall|i: int| 0 <= i < old(self).peer_list@.len()
                ==> final(self).peer_list@[i] == old(self).peer_list@[i],
            final(self).peer_list@.last().host == host,
            final(self).peer_list@.last().port == port,
            final(self).channel_capacity == old(self).channel_capacity,
            final(self).reorder_window == old(self).reorder_window,
            final(self).idle_timeout_ms == old(self).idle_timeout_ms,
            final(self).sample_width == old(self).sample_width,
            final(self).retry_limit == old(self).retry_limit,
            final(self).backoff_base_ms == old(self).backoff_base_ms,
            final(self).backoff_cap_ms == old(self).backoff_cap_ms,
            final(self).console_level == old(self).console_level,
            final(self).file_level == old(self).file_level,
    {
        self.peer_list.push(Endpoint { host, port });
    }

    /// Configured verbosity for console logging.
    pub fn log_lvl_console(&self) -> (l: LogLevel)
        ensures
            l == self.console_level,
    {
        self.console_level
    }

    /// Configured verbosity for file logging.
    pub fn log_lvl_file(&self) -> (l: LogLevel)
        ensures
            l == self.file_level,
    {
        self.file_level
    }
}

} // verus!
