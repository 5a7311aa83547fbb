//! The process-control surface of an embedded broker: create it with a
//! configuration, start it, ask whether it is alive, request an orderly
//! shutdown once, or terminate it outright.
//!
//! This is the decision state of the surface; the embedding layer performs
//! the actual spawning, signalling and waiting around it. The model treats
//! a requested shutdown as effective: after `shutdown` succeeds the
//! process no longer counts as alive.

use vstd::prelude::*;
use crate::errors::ControlError;

verus! {

/// What a broker process is started with.
pub struct BrokerConfig {
    pub cfg_file: String,
    pub pretty_print: bool,
    pub logging: bool,
    pub log_level: String,
    pub console_logging: bool,
}

/// A handle on one broker process and where it stands in its life.
pub struct AstronProcess {
    pub config: BrokerConfig,
    pub started: bool,
    pub closed: bool,
    pub terminated: bool,
}

/// A new broker process handle, not yet started: `start` must be called
/// before it runs.
pub fn create(
    cfg_file: String,
    pretty_print: bool,
    logging: bool,
    log_level: String,
    console_logging: bool,
) -> (p: AstronProcess)
    ensures
        !p.started,
        !p.closed,
        !p.terminated,
        p.config.cfg_file@ == cfg_file@,
        p.config.pretty_print == pretty_print,
        p.config.logging == logging,
        p.config.log_level@ == log_level@,
        p.config.console_logging == console_logging,
{
    AstronProcess {
        config: BrokerConfig { cfg_file, pretty_print, logging, log_level, console_logging },
        started: false,
        closed: false,
        terminated: false,
    }
}

impl AstronProcess {
    /// Begin running the process. A process runs at most once: a second
    /// start is refused.
    pub fn start(&mut self) -> (r: Result<(), ControlError>)
        ensures
            !old(self).started ==> r is Ok && *final(self) == (AstronProcess {
                started: true,
                ..*old(self)
            }),
            old(self).started ==> r == Err::<(), ControlError>(ControlError::AlreadyStarted)
                && *final(self) == *old(self),
    {
        if self.started {
            return Err(ControlError::AlreadyStarted);
        }
        self.started = true;
        Ok(())
    }

    /// Request an orderly drain: stop accepting new connections, flush
    /// pending database operations, close sockets. Asking a second time
    /// is an error, exactly once per process.
    pub fn shutdown(&mut self) -> (r: Result<(), ControlError>)
        ensures
            !old(self).closed ==> r is Ok && *final(self) == (AstronProcess {
                closed: true,
                ..*old(self)
            }),
            old(self).closed ==> r == Err::<(), ControlError>(ControlError::AlreadyClosed)
                && *final(self) == *old(self),
    {
        if self.closed {
            return Err(ControlError::AlreadyClosed);
        }
        self.closed = true;
        Ok(())
    }

    /// Whether the process is running: started, not shut down, not
    /// terminated.
    pub fn is_alive(&self) -> (r: bool)
        ensures
            r == (self.started && !self.closed && !self.terminated),
    {
        self.started && !self.closed && !self.terminated
    }

    /// Kill the process outright, skipping the orderly drain. Not
    /// recommended: a hard stop can lose pending work.
    pub fn terminate(&mut self)
        ensures
            *final(self) == (AstronProcess { terminated: true, ..*old(self) }),
    {
        self.terminated = true;
    }
}

} // verus!
