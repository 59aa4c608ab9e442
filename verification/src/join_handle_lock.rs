//! The race on the handles themselves: the coordinator waits for all its
//! downloads at once, and each completion names the download it is of.

use vstd::prelude::*;

use crate::coordinator::{
    abort_all, aborts_of, awaitable, awaited, first_spawns, first_tasks, held, lemma_position,
    position, remove, start_all, Command, Coordinator, Key, Race, TaskId, Wanted,
};
use crate::download_task::{DownloadTask, JoinFailure};
use crate::ledger::{
    lemma_aborts_spawn_nothing, lemma_first_stake, lemma_retried_in, retried_in, spawns,
};
use crate::solution::Solution;
use crate::statement::{Binary, ServerError, ServerName};

verus! {

/// Spawns a download for each repository and keeps the handle of each.
/// Whichever download completes first is taken first: one that delivers a
/// binary ends the race and has the others aborted; one that fails is
/// started again with one retry less, or is given up when no retry is left.
pub struct JoinHandleLock {
    handlers: Vec<DownloadTask>,
    result: Option<Binary>,
}

impl JoinHandleLock {
    /// The downloads to wait for: every one that is still in the race. The
    /// first of them to complete is to be reported, whichever it is.
    pub fn awaited(&self) -> (tasks: Vec<TaskId>)
        ensures
            tasks@ == awaitable(self.race().live),
    {
        awaited(&self.handlers)
    }
}

impl Coordinator for JoinHandleLock {
    /// A download that completed, and what waiting for it gave.
    type Event = (TaskId, Result<Result<Binary, ServerError>, JoinFailure>);

    closed spec fn race(&self) -> Race {
        Race { live: self.handlers@, result: self.result }
    }

    open spec fn spec_begin(repositories: Seq<ServerName>, retry_budget: usize) -> (Race, Seq<Command>) {
        (
            Race { live: first_tasks(repositories, retry_budget), result: None },
            first_spawns(repositories, retry_budget),
        )
    }

    open spec fn spec_step(
        race: Race,
        event: (TaskId, Result<Result<Binary, ServerError>, JoinFailure>),
    ) -> (Race, Seq<Command>) {
        let at = position(race.live, Wanted::Task(event.0));
        if at < race.live.len() {
            match race.live[at].completed(event.1) {
                Some(binary) => (
                    Race { live: Seq::empty(), result: Some(binary) },
                    aborts_of(race.live.remove(at)),
                ),
                None => {
                    let failed = DownloadTask { holds_handle: false, ..race.live[at] };
                    (
                        Race { live: retried_in(race.live, at, failed), result: race.result },
                        failed.retry_commands(),
                    )
                },
            }
        } else {
            (race, Seq::empty())
        }
    }

    open spec fn delivers(
        race: Race,
        event: (TaskId, Result<Result<Binary, ServerError>, JoinFailure>),
    ) -> Option<Binary> {
        let at = position(race.live, Wanted::Task(event.0));
        if at < race.live.len() {
            race.live[at].completed(event.1)
        } else {
            None
        }
    }

    open spec fn failures(
        race: Race,
        event: (TaskId, Result<Result<Binary, ServerError>, JoinFailure>),
        source: usize,
    ) -> nat {
        let at = position(race.live, Wanted::Task(event.0));
        if at < race.live.len() && race.live[at].completed(event.1) is None && race.live[at].source
            == source {
            1
        } else {
            0
        }
    }

    open spec fn keeps_all(repositories: Seq<ServerName>) -> bool {
        true
    }

    open spec fn orderly(race: Race) -> bool {
        held(race.live)
    }

    proof fn lemma_begin(repositories: Seq<ServerName>, retry_budget: usize) {
        lemma_first_stake(repositories, retry_budget);
    }

    proof fn lemma_step(race: Race, event: (TaskId, Result<Result<Binary, ServerError>, JoinFailure>)) {
        let at = position(race.live, Wanted::Task(event.0));
        lemma_position(race.live, Wanted::Task(event.0));
        if at < race.live.len() {
            match race.live[at].completed(event.1) {
                Some(binary) => {
                    assert forall|source: usize| #[trigger]
                        spawns(aborts_of(race.live.remove(at)), source) == 0 by {
                        lemma_aborts_spawn_nothing(race.live.remove(at), source);
                    }
                },
                None => {
                    lemma_retried_in(
                        race.live,
                        at,
                        DownloadTask { holds_handle: false, ..race.live[at] },
                    );
                },
            }
        }
    }

    fn begin(repositories: Vec<ServerName>, retry_budget: usize) -> (started: (Self, Vec<Command>)) {
        let mut commands: Vec<Command> = Vec::new();
        let handlers = start_all(repositories, retry_budget, &mut commands);
        (JoinHandleLock { handlers, result: None }, commands)
    }

    fn step(&mut self, event: (TaskId, Result<Result<Binary, ServerError>, JoinFailure>)) -> (commands: Vec<
        Command,
    >) {
        let (completed, joined) = event;
        let mut commands: Vec<Command> = Vec::new();
        if let Some(mut task) = remove(&mut self.handlers, &Key::Task(completed)) {
            if let Some(binary) = task.complete(joined) {
                self.result = Some(binary);
                abort_all(&self.handlers, &mut commands);
                self.handlers.clear();
            } else if let Some(next) = task.start_retry(&mut commands) {
                self.handlers.push(next);
            }
        }
        commands
    }

    fn cancel(&mut self) -> (commands: Vec<Command>) {
        let mut commands: Vec<Command> = Vec::new();
        abort_all(&self.handlers, &mut commands);
        self.handlers.clear();
        commands
    }

    fn finished(&self) -> (done: bool) {
        self.handlers.len() == 0
    }

    fn into_result(self) -> (found: Option<Binary>) {
        self.result
    }
}

impl Solution for JoinHandleLock {

}

} // verus!
