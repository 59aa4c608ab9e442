//! One server's place in a race: the download that currently runs for it
//! and the retries it has left.

use vstd::prelude::*;

use crate::coordinator::{Command, TaskId};
use crate::statement::{Binary, ServerError, ServerName};

verus! {

/// Why waiting for a spawned task gave no outcome of the download.
#[derive(Debug, Clone, Copy, PartialEq, Eq)]
pub enum JoinFailure {
    /// The task was aborted before it finished.
    Cancelled,
    /// The task panicked.
    Panicked,
}

/// The download in flight for one server, and how often it may be started again.
#[derive(Debug, PartialEq, Eq)]
pub struct DownloadTask {
    pub server_name: ServerName,
    /// Position of the server in the list the race was started with.
    pub source: usize,
    /// Whether the handle of the download is still held. Waiting for the
    /// download to finish gives the handle up.
    pub holds_handle: bool,
    pub retries_left: usize,
}

impl DownloadTask {
    /// The name under which the current download was spawned.
    pub open spec fn id(&self) -> TaskId {
        TaskId { source: self.source, retries_left: self.retries_left }
    }

    /// The task for a server whose first download has just been spawned.
    pub open spec fn started(server_name: ServerName, source: usize, retry_budget: usize) -> Self {
        DownloadTask { server_name, source, holds_handle: true, retries_left: retry_budget }
    }

    /// What `abort` asks for: the download is stopped if its handle is held.
    pub open spec fn abort_commands(&self) -> Seq<Command> {
        if self.holds_handle {
            seq![Command::Abort { task: self.id() }]
        } else {
            Seq::empty()
        }
    }

    /// The task that takes this one's place after a failure, if a retry is left.
    pub open spec fn retried(&self) -> Option<Self> {
        if self.retries_left > 0 {
            Some(
                DownloadTask {
                    server_name: self.server_name,
                    source: self.source,
                    holds_handle: true,
                    retries_left: (self.retries_left - 1) as usize,
                },
            )
        } else {
            None
        }
    }

    /// What `start_retry` asks for: the old download is stopped if its handle
    /// is held, and a new one is spawned if a retry is left.
    pub open spec fn retry_commands(&self) -> Seq<Command> {
        match self.retried() {
            Some(next) => self.abort_commands().push(
                Command::Spawn { task: next.id(), server_name: next.server_name },
            ),
            None => self.abort_commands(),
        }
    }

    /// What waiting for this download gives, when the wait itself ended in `joined`.
    pub open spec fn completed(&self, joined: Result<Result<Binary, ServerError>, JoinFailure>) -> Option<Binary> {
        match joined {
            Ok(Ok(binary)) if self.holds_handle => Some(binary),
            _ => None,
        }
    }

    /// Creates the task for `server_name` and asks for its download to be spawned.
    pub fn start(
        server_name: ServerName,
        source: usize,
        retry_budget: usize,
        outbox: &mut Vec<Command>,
    ) -> (task: Self)
        ensures
            task == Self::started(server_name, source, retry_budget),
            final(outbox)@ == old(outbox)@.push(
                Command::Spawn { task: task.id(), server_name },
            ),
    {
        let task = TaskId { source, retries_left: retry_budget };
        outbox.push(Command::Spawn { task, server_name: server_name.clone() });
        DownloadTask { server_name, source, holds_handle: true, retries_left: retry_budget }
    }

    /// Asks for the download to be stopped, if its handle is held. May be
    /// called any number of times, and on a download that has finished.
    pub fn abort(&self, outbox: &mut Vec<Command>)
        ensures
            final(outbox)@ == old(outbox)@ + self.abort_commands(),
    {
        if self.holds_handle {
            outbox.push(Command::Abort { task: TaskId { source: self.source, retries_left: self.retries_left } });
        }
    }

    /// Gives up this download and starts the next one for the same server,
    /// if a retry is left. Returns `None` if the retries are used up.
    pub fn start_retry(self, outbox: &mut Vec<Command>) -> (next: Option<Self>)
        ensures
            next == self.retried(),
            final(outbox)@ == old(outbox)@ + self.retry_commands(),
    {
        let failed = self;
        failed.abort(outbox);
        if failed.retries_left > 0 {
            let retries_left: usize = failed.retries_left - 1;
            let task = TaskId { source: failed.source, retries_left };
            outbox.push(Command::Spawn { task, server_name: failed.server_name.clone() });
            Some(
                DownloadTask {
                    server_name: failed.server_name,
                    source: failed.source,
                    holds_handle: true,
                    retries_left,
                },
            )
        } else {
            None
        }
    }

    /// Takes the outcome of waiting for the download and gives up its handle.
    /// Returns the binary if the download delivered one, and `None` if it
    /// failed, if the wait failed, or if the handle was given up before.
    pub fn complete(&mut self, joined: Result<Result<Binary, ServerError>, JoinFailure>) -> (found: Option<Binary>)
        ensures
            found == old(self).completed(joined),
            *final(self) == (DownloadTask { holds_handle: false, ..*old(self) }),
    {
        if !self.holds_handle {
            return None;
        }
        self.holds_handle = false;
        match joined {
            Ok(Ok(binary)) => Some(binary),
            _ => None,
        }
    }
}

} // verus!
