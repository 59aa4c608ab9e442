//! Keeping count: how many downloads a list of commands starts for a
//! server, and how many tasks and retries a race still holds for it.

use vstd::prelude::*;

use crate::coordinator::{aborts_of, first_spawns, first_tasks, Command};
use crate::download_task::DownloadTask;
use crate::statement::ServerName;

verus! {

/// Whether `command` starts a download from the server at position `source`.
pub open spec fn is_spawn_of(command: Command, source: usize) -> bool {
    match command {
        Command::Spawn { task, .. } => task.source == source,
        Command::Abort { .. } => false,
    }
}

/// How many downloads `log` starts from the server at position `source`.
pub open spec fn spawns(log: Seq<Command>, source: usize) -> nat
    decreases log.len(),
{
    if log.len() == 0 {
        0
    } else {
        spawns(log.drop_last(), source) + if is_spawn_of(log.last(), source) {
            1nat
        } else {
            0nat
        }
    }
}

/// What the tasks in `live` hold for the server at position `source`: how
/// many of them are its tasks, and how many retries these have left.
pub open spec fn stake(live: Seq<DownloadTask>, source: usize) -> (nat, nat)
    decreases live.len(),
{
    if live.len() == 0 {
        (0, 0)
    } else {
        let before = stake(live.drop_last(), source);
        if live.last().source == source {
            (before.0 + 1, before.1 + live.last().retries_left as nat)
        } else {
            before
        }
    }
}

/// How many tasks in `live` are for the server at position `source`.
pub open spec fn holders(live: Seq<DownloadTask>, source: usize) -> nat {
    stake(live, source).0
}

/// How many retries the tasks in `live` hold for the server at position `source`.
pub open spec fn credit(live: Seq<DownloadTask>, source: usize) -> nat {
    stake(live, source).1
}

/// The downloads started by two lists of commands add up.
pub proof fn lemma_spawns_concat(first: Seq<Command>, second: Seq<Command>, source: usize)
    ensures
        spawns(first + second, source) == spawns(first, source) + spawns(second, source),
    decreases second.len(),
{
    if second.len() == 0 {
        assert(first + second == first);
    } else {
        assert((first + second).drop_last() == first + second.drop_last());
        lemma_spawns_concat(first, second.drop_last(), source);
    }
}

/// A single command starts one download for the server it spawns from, and none otherwise.
pub proof fn lemma_spawns_one(command: Command, source: usize)
    ensures
        spawns(seq![command], source) == if is_spawn_of(command, source) {
            1nat
        } else {
            0nat
        },
{
    reveal_with_fuel(spawns, 2);
    assert(seq![command].drop_last() == Seq::<Command>::empty());
}

/// Stopping downloads starts none.
pub proof fn lemma_aborts_spawn_nothing(live: Seq<DownloadTask>, source: usize)
    ensures
        spawns(aborts_of(live), source) == 0,
    decreases live.len(),
{
    if live.len() > 0 {
        lemma_aborts_spawn_nothing(live.drop_last(), source);
        lemma_spawns_concat(aborts_of(live.drop_last()), live.last().abort_commands(), source);
        if live.last().holds_handle {
            lemma_spawns_one(Command::Abort { task: live.last().id() }, source);
        }
    }
}

/// Giving up a failed download starts one download for its server if a
/// retry is left, and none otherwise.
pub proof fn lemma_retry_spawns(failed: DownloadTask, source: usize)
    ensures
        spawns(failed.retry_commands(), source) == if failed.source == source && failed.retries_left > 0 {
            1nat
        } else {
            0nat
        },
{
    let stop = failed.abort_commands();
    assert(spawns(stop, source) == 0) by {
        if failed.holds_handle {
            lemma_spawns_one(Command::Abort { task: failed.id() }, source);
        }
    }
    match failed.retried() {
        Some(next) => {
            let spawn = Command::Spawn { task: next.id(), server_name: next.server_name };
            assert(stop.push(spawn) == stop + seq![spawn]);
            lemma_spawns_concat(stop, seq![spawn], source);
            lemma_spawns_one(spawn, source);
        },
        None => {},
    }
}

/// The first downloads are one for each server of the list.
pub proof fn lemma_first_spawns(repositories: Seq<ServerName>, retry_budget: usize, source: usize)
    requires
        repositories.len() <= usize::MAX,
    ensures
        spawns(first_spawns(repositories, retry_budget), source) == if source < repositories.len() {
            1nat
        } else {
            0nat
        },
    decreases repositories.len(),
{
    if repositories.len() > 0 {
        let all = first_spawns(repositories, retry_budget);
        assert(all.drop_last() == first_spawns(repositories.drop_last(), retry_budget));
        lemma_first_spawns(repositories.drop_last(), retry_budget, source);
    }
}

/// What two lists of tasks hold adds up.
pub proof fn lemma_stake_concat(first: Seq<DownloadTask>, second: Seq<DownloadTask>, source: usize)
    ensures
        holders(first + second, source) == holders(first, source) + holders(second, source),
        credit(first + second, source) == credit(first, source) + credit(second, source),
    decreases second.len(),
{
    if second.len() == 0 {
        assert(first + second == first);
    } else {
        assert((first + second).drop_last() == first + second.drop_last());
        lemma_stake_concat(first, second.drop_last(), source);
    }
}

/// A single task counts, with its retries, for its own server.
pub proof fn lemma_stake_one(task: DownloadTask, source: usize)
    ensures
        holders(seq![task], source) == if task.source == source {
            1nat
        } else {
            0nat
        },
        credit(seq![task], source) == if task.source == source {
            task.retries_left as nat
        } else {
            0nat
        },
{
    reveal_with_fuel(stake, 2);
    assert(seq![task].drop_last() == Seq::<DownloadTask>::empty());
}

/// Adding a task at the end adds what it counts for.
pub proof fn lemma_stake_push(live: Seq<DownloadTask>, task: DownloadTask, source: usize)
    ensures
        holders(live.push(task), source) == holders(live, source) + holders(seq![task], source),
        credit(live.push(task), source) == credit(live, source) + credit(seq![task], source),
{
    assert(live.push(task) == live + seq![task]);
    lemma_stake_concat(live, seq![task], source);
}

/// Taking a task out of a list takes out what it counts for.
pub proof fn lemma_stake_remove(live: Seq<DownloadTask>, at: int, source: usize)
    requires
        0 <= at < live.len(),
    ensures
        holders(live, source) == holders(live.remove(at), source) + holders(seq![live[at]], source),
        credit(live, source) == credit(live.remove(at), source) + credit(seq![live[at]], source),
{
    assert(live == live.take(at) + seq![live[at]] + live.skip(at + 1));
    lemma_stake_concat(live.take(at) + seq![live[at]], live.skip(at + 1), source);
    lemma_stake_concat(live.take(at), seq![live[at]], source);
    assert(live.remove(at) == live.take(at) + live.skip(at + 1));
    lemma_stake_concat(live.take(at), live.skip(at + 1), source);
}

/// The list in which a failed task has made room for its retry: the task at
/// `at` is taken out, and the retry of `failed`, if it has one, is added at
/// the end.
pub open spec fn retried_in(live: Seq<DownloadTask>, at: int, failed: DownloadTask) -> Seq<DownloadTask> {
    match failed.retried() {
        Some(next) => live.remove(at).push(next),
        None => live.remove(at),
    }
}

/// When a failed task makes room for its retry, the download that is
/// spawned is paid for by a retry the server held, and the server loses its
/// task only if none is spawned.
pub proof fn lemma_retried_in(live: Seq<DownloadTask>, at: int, failed: DownloadTask)
    requires
        0 <= at < live.len(),
        failed.source == live[at].source,
        failed.retries_left == live[at].retries_left,
    ensures
        forall|source: usize|
            spawns(failed.retry_commands(), source) + #[trigger] credit(
                retried_in(live, at, failed),
                source,
            ) == credit(live, source),
        forall|source: usize|
            (if failed.source == source {
                1nat
            } else {
                0nat
            }) + #[trigger] holders(retried_in(live, at, failed), source) == holders(live, source)
                + spawns(failed.retry_commands(), source),
{
    let next = retried_in(live, at, failed);
    assert forall|source: usize| true implies spawns(failed.retry_commands(), source) + credit(
        next,
        source,
    ) == credit(live, source) && (if failed.source == source {
        1nat
    } else {
        0nat
    }) + #[trigger] holders(next, source) == holders(live, source) + spawns(
        failed.retry_commands(),
        source,
    ) by {
        lemma_stake_remove(live, at, source);
        lemma_stake_one(live[at], source);
        lemma_retry_spawns(failed, source);
        if let Some(retry) = failed.retried() {
            lemma_stake_push(live.remove(at), retry, source);
            lemma_stake_one(retry, source);
        }
    }
    assert forall|source: usize|
        spawns(failed.retry_commands(), source) + #[trigger] credit(next, source) == credit(
            live,
            source,
        ) by {
        assert(holders(next, source) >= 0);
    }
}

/// The first tasks are one for each server of the list, and each holds the
/// whole budget.
pub proof fn lemma_first_stake(repositories: Seq<ServerName>, retry_budget: usize)
    requires
        repositories.len() <= usize::MAX,
    ensures
        forall|source: usize| #[trigger]
            holders(first_tasks(repositories, retry_budget), source) == if source
                < repositories.len() {
                1nat
            } else {
                0nat
            },
        forall|source: usize| #[trigger]
            credit(first_tasks(repositories, retry_budget), source) == if source
                < repositories.len() {
                retry_budget as nat
            } else {
                0nat
            },
    decreases repositories.len(),
{
    if repositories.len() > 0 {
        let all = first_tasks(repositories, retry_budget);
        let fewer = first_tasks(repositories.drop_last(), retry_budget);
        assert(all.drop_last() == fewer);
        lemma_first_stake(repositories.drop_last(), retry_budget);
        assert forall|source: usize| #[trigger]
            holders(all, source) == if source < repositories.len() {
                1nat
            } else {
                0nat
            } by {
            assert(holders(fewer, source) == if source < repositories.len() - 1 {
                1nat
            } else {
                0nat
            });
        }
        assert forall|source: usize| #[trigger]
            credit(all, source) == if source < repositories.len() {
                retry_budget as nat
            } else {
                0nat
            } by {
            assert(credit(fewer, source) == if source < repositories.len() - 1 {
                retry_budget as nat
            } else {
                0nat
            });
        }
    }
}

/// A server without a task holds no retries.
pub proof fn lemma_no_task_no_credit(live: Seq<DownloadTask>, source: usize)
    ensures
        holders(live, source) == 0 ==> credit(live, source) == 0,
    decreases live.len(),
{
    if live.len() > 0 {
        lemma_no_task_no_credit(live.drop_last(), source);
    }
}

/// A list in which no server has a task is empty.
pub proof fn lemma_no_holders(live: Seq<DownloadTask>)
    requires
        forall|source: usize| holders(live, source) == 0,
    ensures
        live.len() == 0,
{
    if live.len() > 0 {
        assert(holders(live, live.last().source) >= 1);
    }
}

} // verus!
