//! The race by arrival: every download reports into one channel, and the
//! coordinator takes the reports in the order in which they arrive.

use vstd::prelude::*;

use crate::coordinator::{
    abort_all, aborts_of, find, first_spawns, first_tasks, fits, held, lemma_position,
    lemma_position_unique, position, remove, removed, Command, Coordinator, Key, Race, Wanted,
};
use crate::download_task::DownloadTask;
use crate::ledger::{
    credit, holders, lemma_aborts_spawn_nothing, lemma_first_stake, lemma_no_task_no_credit,
    lemma_retried_in, lemma_stake_one, lemma_stake_push, lemma_stake_remove, retried_in, spawns,
};
use crate::solution::Solution;
use crate::statement::{Binary, ServerError, ServerName};

verus! {

/// Spawns a download for each repository and takes what they report from a
/// channel. The first binary that arrives wins, and every download still
/// held is aborted; a failure starts the named server again while it has
/// retries left. The downloads are kept by server name, one per name.
pub struct TokioChannels {
    handlers: Vec<DownloadTask>,
    result: Option<Binary>,
}

/// `live` with `task` kept under its server's name: it takes the place of
/// the task that was kept under that name, or is added at the end.
pub open spec fn inserted(live: Seq<DownloadTask>, task: DownloadTask) -> Seq<DownloadTask> {
    let at = position(live, Wanted::Named(task.server_name@));
    if at < live.len() {
        live.update(at, task)
    } else {
        live.push(task)
    }
}

/// The tasks kept after the first download of every server in
/// `repositories` was spawned: where a name occurs more than once, the
/// download spawned last is the one kept under it.
pub open spec fn first_kept(repositories: Seq<ServerName>, retry_budget: usize) -> Seq<DownloadTask>
    decreases repositories.len(),
{
    if repositories.len() == 0 {
        Seq::empty()
    } else {
        inserted(
            first_kept(repositories.drop_last(), retry_budget),
            DownloadTask::started(
                repositories.last(),
                (repositories.len() - 1) as usize,
                retry_budget,
            ),
        )
    }
}

/// Whether no two tasks in `live` are for servers of the same name.
pub open spec fn one_per_name(live: Seq<DownloadTask>) -> bool {
    forall|i: int, j: int|
        0 <= i < j < live.len() ==> (#[trigger] live[i]).server_name@ != (#[trigger] live[j]).server_name@
}

/// Whether no two of `repositories` have the same name.
pub open spec fn distinct_names(repositories: Seq<ServerName>) -> bool {
    forall|i: int, j: int|
        0 <= i < j < repositories.len() ==> (#[trigger] repositories[i])@ != (#[trigger] repositories[j])@
}

/// Keeping a task under its name leaves one task per name, with every handle held.
pub proof fn lemma_inserted_orderly(live: Seq<DownloadTask>, task: DownloadTask)
    requires
        one_per_name(live),
        held(live),
        task.holds_handle,
    ensures
        one_per_name(inserted(live, task)),
        held(inserted(live, task)),
{
    lemma_position(live, Wanted::Named(task.server_name@));
}

/// Keeping a task does not add to what any other server has or holds, and
/// the task's own server has and holds what the task brings if it had no
/// task before.
pub proof fn lemma_inserted_stake(live: Seq<DownloadTask>, task: DownloadTask, source: usize)
    ensures
        source != task.source ==> credit(inserted(live, task), source) <= credit(live, source),
        source != task.source ==> holders(inserted(live, task), source) <= holders(live, source),
        source == task.source && holders(live, source) == 0 ==> credit(inserted(live, task), source)
            == task.retries_left && holders(inserted(live, task), source) == 1,
{
    let at = position(live, Wanted::Named(task.server_name@));
    lemma_position(live, Wanted::Named(task.server_name@));
    lemma_stake_one(task, source);
    lemma_no_task_no_credit(live, source);
    if at < live.len() {
        let kept = live.update(at, task);
        lemma_stake_remove(live, at, source);
        lemma_stake_remove(kept, at, source);
        assert(kept.remove(at) == live.remove(at));
        lemma_stake_one(live[at], source);
    } else {
        lemma_stake_push(live, task, source);
    }
}

/// What is kept after the first downloads: one task per name, every handle
/// held, no task and no retries for a server that is not in the list, and
/// no more than one task and the budget for one that is.
pub proof fn lemma_first_kept(repositories: Seq<ServerName>, retry_budget: usize)
    requires
        repositories.len() <= usize::MAX,
    ensures
        first_kept(repositories, retry_budget).len() == 0 <==> repositories.len() == 0,
        one_per_name(first_kept(repositories, retry_budget)),
        held(first_kept(repositories, retry_budget)),
        forall|source: usize|
            source >= repositories.len() ==> #[trigger] credit(
                first_kept(repositories, retry_budget),
                source,
            ) == 0,
        forall|source: usize| #[trigger]
            credit(first_kept(repositories, retry_budget), source) <= retry_budget,
        forall|source: usize|
            source >= repositories.len() ==> #[trigger] holders(
                first_kept(repositories, retry_budget),
                source,
            ) == 0,
        forall|source: usize| #[trigger] holders(first_kept(repositories, retry_budget), source) <= 1,
    decreases repositories.len(),
{
    if repositories.len() > 0 {
        let before = first_kept(repositories.drop_last(), retry_budget);
        let kept = first_kept(repositories, retry_budget);
        let task = DownloadTask::started(
            repositories.last(),
            (repositories.len() - 1) as usize,
            retry_budget,
        );
        lemma_first_kept(repositories.drop_last(), retry_budget);
        lemma_inserted_orderly(before, task);
        lemma_position(before, Wanted::Named(task.server_name@));
        assert forall|source: usize| true implies (source >= repositories.len() ==> credit(
            kept,
            source,
        ) == 0 && holders(kept, source) == 0) && credit(kept, source) <= retry_budget
            && #[trigger] holders(kept, source) <= 1 by {
            lemma_inserted_stake(before, task, source);
            assert(credit(before, source) <= retry_budget);
            assert(holders(before, source) <= 1);
        }
        assert forall|source: usize| true implies (source >= repositories.len() ==> credit(
            kept,
            source,
        ) == 0) && #[trigger] credit(kept, source) <= retry_budget by {
            assert(holders(kept, source) <= 1);
        }
    }
}

/// Where no two repositories have the same name, each keeps its first task.
pub proof fn lemma_first_kept_distinct(repositories: Seq<ServerName>, retry_budget: usize)
    requires
        distinct_names(repositories),
    ensures
        first_kept(repositories, retry_budget) == first_tasks(repositories, retry_budget),
    decreases repositories.len(),
{
    if repositories.len() > 0 {
        let shorter = repositories.drop_last();
        assert(distinct_names(shorter)) by {
            assert forall|i: int, j: int| 0 <= i < j < shorter.len() implies (#[trigger] shorter[i])@
                != (#[trigger] shorter[j])@ by {
                assert(shorter[i] == repositories[i]);
                assert(shorter[j] == repositories[j]);
            }
        }
        lemma_first_kept_distinct(shorter, retry_budget);
        let before = first_tasks(shorter, retry_budget);
        let task = DownloadTask::started(
            repositories.last(),
            (repositories.len() - 1) as usize,
            retry_budget,
        );
        assert forall|i: int| 0 <= i < before.len() implies before[i].server_name@
            != task.server_name@ by {
            assert(before[i].server_name == repositories[i]);
        }
        lemma_position_unique(before, Wanted::Named(task.server_name@), before.len() as int);
        assert(before.push(task) == first_tasks(repositories, retry_budget));
    } else {
        assert(first_tasks(repositories, retry_budget) == Seq::<DownloadTask>::empty());
    }
}

/// Without the task at `at`, no task is left under its server's name.
pub proof fn lemma_name_gone(live: Seq<DownloadTask>, at: int)
    requires
        one_per_name(live),
        0 <= at < live.len(),
    ensures
        forall|i: int|
            0 <= i < live.remove(at).len() ==> !fits(
                #[trigger] live.remove(at)[i],
                Wanted::Named(live[at].server_name@),
            ),
{
    let rest = live.remove(at);
    assert forall|i: int| 0 <= i < rest.len() implies !fits(
        #[trigger] rest[i],
        Wanted::Named(live[at].server_name@),
    ) by {
        if i < at {
            assert(rest[i] == live[i]);
        } else {
            assert(rest[i] == live[i + 1]);
        }
    }
}

impl TokioChannels {
    fn insert(handlers: &mut Vec<DownloadTask>, task: DownloadTask)
        ensures
            final(handlers)@ == inserted(old(handlers)@, task),
    {
        let at = find(handlers, &Key::Named(&task.server_name));
        if at < handlers.len() {
            handlers.set(at, task);
        } else {
            handlers.push(task);
        }
    }
}

impl Coordinator for TokioChannels {
    /// What the channel delivers: the outcome of one download.
    type Event = Result<Binary, ServerError>;

    closed spec fn race(&self) -> Race {
        Race { live: self.handlers@, result: self.result }
    }

    open spec fn spec_begin(repositories: Seq<ServerName>, retry_budget: usize) -> (Race, Seq<Command>) {
        (
            Race { live: first_kept(repositories, retry_budget), result: None },
            first_spawns(repositories, retry_budget),
        )
    }

    open spec fn spec_step(race: Race, event: Result<Binary, ServerError>) -> (Race, Seq<Command>) {
        if race.finished() {
            (race, Seq::empty())
        } else {
            match event {
                Ok(binary) => (
                    Race { live: Seq::empty(), result: Some(binary) },
                    aborts_of(race.live),
                ),
                Err(error) => match removed(race.live, Wanted::Named(error.spec_server()@)) {
                    (rest, Some(failed)) => (
                        Race {
                            live: match failed.retried() {
                                Some(next) => inserted(rest, next),
                                None => rest,
                            },
                            result: race.result,
                        },
                        failed.retry_commands(),
                    ),
                    (_, None) => (race, Seq::empty()),
                },
            }
        }
    }

    open spec fn delivers(race: Race, event: Result<Binary, ServerError>) -> Option<Binary> {
        match event {
            Ok(binary) => Some(binary),
            Err(_) => None,
        }
    }

    open spec fn failures(race: Race, event: Result<Binary, ServerError>, source: usize) -> nat {
        match event {
            Err(error) if !race.finished() => match removed(
                race.live,
                Wanted::Named(error.spec_server()@),
            ).1 {
                Some(failed) if failed.source == source => 1,
                _ => 0,
            },
            _ => 0,
        }
    }

    open spec fn keeps_all(repositories: Seq<ServerName>) -> bool {
        distinct_names(repositories)
    }

    open spec fn orderly(race: Race) -> bool {
        one_per_name(race.live) && held(race.live)
    }

    proof fn lemma_begin(repositories: Seq<ServerName>, retry_budget: usize) {
        lemma_first_kept(repositories, retry_budget);
        if distinct_names(repositories) {
            lemma_first_kept_distinct(repositories, retry_budget);
            lemma_first_stake(repositories, retry_budget);
        }
    }

    proof fn lemma_step(race: Race, event: Result<Binary, ServerError>) {
        if !race.finished() {
            let (next, commands) = Self::spec_step(race, event);
            match event {
                Ok(binary) => {
                    assert forall|source: usize| #[trigger] spawns(commands, source) == 0 by {
                        lemma_aborts_spawn_nothing(race.live, source);
                    }
                },
                Err(error) => {
                    let name = Wanted::Named(error.spec_server()@);
                    let at = position(race.live, name);
                    lemma_position(race.live, name);
                    if at < race.live.len() {
                        let failed = race.live[at];
                        let rest = race.live.remove(at);
                        assert(one_per_name(rest) && held(rest));
                        if failed.retried() is Some {
                            lemma_name_gone(race.live, at);
                            lemma_position_unique(rest, name, rest.len() as int);
                        }
                        assert(next.live == retried_in(race.live, at, failed));
                        lemma_retried_in(race.live, at, failed);
                    }
                },
            }
        }
    }

    fn begin(repositories: Vec<ServerName>, retry_budget: usize) -> (started: (Self, Vec<Command>)) {
        let mut handlers: Vec<DownloadTask> = Vec::new();
        let mut commands: Vec<Command> = Vec::new();
        let mut source: usize = 0;
        while source < repositories.len()
            invariant
                source <= repositories.len(),
                handlers@ == first_kept(repositories@.take(source as int), retry_budget),
                commands@ == first_spawns(repositories@.take(source as int), retry_budget),
            decreases repositories.len() - source,
        {
            proof {
                assert(repositories@.take(source + 1).drop_last() == repositories@.take(source as int));
            }
            let task = DownloadTask::start(
                repositories[source].clone(),
                source,
                retry_budget,
                &mut commands,
            );
            Self::insert(&mut handlers, task);
            source += 1;
        }
        proof {
            assert(repositories@.take(repositories.len() as int) == repositories@);
        }
        (TokioChannels { handlers, result: None }, commands)
    }

    fn step(&mut self, event: Result<Binary, ServerError>) -> (commands: Vec<Command>) {
        let mut commands: Vec<Command> = Vec::new();
        if self.handlers.len() == 0 {
            return commands;
        }
        match event {
            Ok(binary) => {
                self.result = Some(binary);
                abort_all(&self.handlers, &mut commands);
                self.handlers.clear();
            },
            Err(error) => {
                if let Some(failed) = remove(&mut self.handlers, &Key::Named(error.server())) {
                    if let Some(next) = failed.start_retry(&mut commands) {
                        Self::insert(&mut self.handlers, next);
                    }
                }
            },
        }
        commands
    }

    fn cancel(&mut self) -> (commands: Vec<Command>) {
        let mut commands: Vec<Command> = Vec::new();
        abort_all(&self.handlers, &mut commands);
        self.handlers.clear();
        commands
    }

    fn finished(&self) -> (done: bool) {
        self.handlers.len() == 0
    }

    fn into_result(self) -> (found: Option<Binary>) {
        self.result
    }
}

impl Solution for TokioChannels {

}

} // verus!
