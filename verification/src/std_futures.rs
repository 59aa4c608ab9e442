//! The race by polling: every round, each download is asked in turn whether
//! it is ready, and the coordinator decides on what the round has shown.

use vstd::prelude::*;

use crate::coordinator::{
    abort_all, aborts_of, awaitable, awaited, first_spawns, first_tasks, held, start_all, Command,
    Coordinator, Race, TaskId,
};
use crate::download_task::DownloadTask;
use crate::ledger::{
    credit, holders, lemma_aborts_spawn_nothing, lemma_first_stake, lemma_retry_spawns,
    lemma_spawns_concat, lemma_stake_concat, lemma_stake_one, lemma_stake_push, spawns,
};
use crate::solution::Solution;
use crate::statement::{Binary, ServerError, ServerName};

verus! {

/// What asking a computation for its value gave.
#[derive(Debug, PartialEq, Eq)]
pub enum Polled<T> {
    /// It has finished, with this value.
    Ready(T),
    /// It has not finished yet.
    Pending,
}

/// What one round of polling has shown: the answer of each download, in the
/// order in which the downloads are held. A round may end early, after the
/// first download that delivered a binary; downloads without an answer count
/// as pending.
pub type Round = Vec<Polled<Result<Binary, ServerError>>>;

/// Whether the download at position `at` was found to have failed.
pub open spec fn failed_at(round: Seq<Polled<Result<Binary, ServerError>>>, at: int) -> bool {
    0 <= at < round.len() && round[at] matches Polled::Ready(Err(_))
}

/// Whether the download at position `at` was found to have delivered a binary.
pub open spec fn succeeded_at(round: Seq<Polled<Result<Binary, ServerError>>>, at: int) -> bool {
    0 <= at < round.len() && round[at] matches Polled::Ready(Ok(_))
}

/// The first position at or after `from` whose download delivered a binary,
/// or the length of `round` if there is none.
pub open spec fn first_success(round: Seq<Polled<Result<Binary, ServerError>>>, from: int) -> int
    decreases round.len() - from,
{
    if from < 0 || from >= round.len() {
        round.len() as int
    } else if succeeded_at(round, from) {
        from
    } else {
        first_success(round, from + 1)
    }
}

/// The tasks from position `from` on after a round without a binary: a
/// download that did not fail stays in front of all that come after it; the
/// retry of one that failed goes behind them, and one without a retry is gone.
pub open spec fn settled(
    live: Seq<DownloadTask>,
    round: Seq<Polled<Result<Binary, ServerError>>>,
    from: int,
) -> Seq<DownloadTask>
    decreases live.len() - from,
{
    if from < 0 || from >= live.len() {
        Seq::empty()
    } else {
        let later = settled(live, round, from + 1);
        if failed_at(round, from) {
            match live[from].retried() {
                Some(next) => later.push(next),
                None => later,
            }
        } else {
            seq![live[from]] + later
        }
    }
}

/// The commands given for the tasks from position `from` on after a round
/// without a binary: each failed download is given up and, if a retry is
/// left, started again, the last of them first.
pub open spec fn settle_commands(
    live: Seq<DownloadTask>,
    round: Seq<Polled<Result<Binary, ServerError>>>,
    from: int,
) -> Seq<Command>
    decreases live.len() - from,
{
    if from < 0 || from >= live.len() {
        Seq::empty()
    } else {
        let later = settle_commands(live, round, from + 1);
        if failed_at(round, from) {
            later + live[from].retry_commands()
        } else {
            later
        }
    }
}

/// How many of the downloads from position `from` on that the round found
/// to have failed are downloads of the server at position `source`.
pub open spec fn failed_from(
    live: Seq<DownloadTask>,
    round: Seq<Polled<Result<Binary, ServerError>>>,
    from: int,
    source: usize,
) -> nat
    decreases live.len() - from,
{
    if from < 0 || from >= live.len() {
        0
    } else {
        failed_from(live, round, from + 1, source) + if failed_at(round, from) && live[from].source
            == source {
            1nat
        } else {
            0nat
        }
    }
}

/// What one round of polling leads to: the tasks held afterwards, what the
/// poll returns, and the commands given.
pub open spec fn spec_poll(live: Seq<DownloadTask>, round: Seq<Polled<Result<Binary, ServerError>>>) -> (
    Seq<DownloadTask>,
    Polled<Option<Binary>>,
    Seq<Command>,
) {
    let winner = first_success(round, 0);
    if winner < round.len() && winner < live.len() {
        (
            Seq::empty(),
            Polled::Ready(Some(round[winner]->Ready_0->Ok_0)),
            aborts_of(live.remove(winner)),
        )
    } else {
        let rest = settled(live, round, 0);
        (
            rest,
            if rest.len() == 0 {
                Polled::Ready(None)
            } else {
                Polled::Pending
            },
            settle_commands(live, round, 0),
        )
    }
}

/// `first_success` gives the first position with a binary and nothing else.
pub proof fn lemma_first_success(round: Seq<Polled<Result<Binary, ServerError>>>, from: int)
    requires
        0 <= from <= round.len(),
    ensures
        from <= first_success(round, from) <= round.len(),
        first_success(round, from) < round.len() ==> succeeded_at(round, first_success(round, from)),
        forall|i: int| from <= i < first_success(round, from) ==> !succeeded_at(round, i),
    decreases round.len() - from,
{
    if from < round.len() && !succeeded_at(round, from) {
        lemma_first_success(round, from + 1);
    }
}

/// After a round without a binary, the downloads spawned for a server are
/// paid for by the retries it held, the tasks that are gone are those that
/// failed and were not started again, and every handle is held again.
pub proof fn lemma_settled(
    live: Seq<DownloadTask>,
    round: Seq<Polled<Result<Binary, ServerError>>>,
    from: int,
    source: usize,
)
    requires
        0 <= from <= live.len(),
        held(live),
    ensures
        held(settled(live, round, from)),
        spawns(settle_commands(live, round, from), source) + credit(settled(live, round, from), source)
            == credit(live.skip(from), source),
        failed_from(live, round, from, source) + holders(settled(live, round, from), source)
            == holders(live.skip(from), source) + spawns(settle_commands(live, round, from), source),
    decreases live.len() - from,
{
    if from < live.len() {
        let later = settled(live, round, from + 1);
        let later_commands = settle_commands(live, round, from + 1);
        lemma_settled(live, round, from + 1, source);
        assert(live.skip(from) == seq![live[from]] + live.skip(from + 1));
        lemma_stake_concat(seq![live[from]], live.skip(from + 1), source);
        lemma_stake_one(live[from], source);
        if failed_at(round, from) {
            lemma_spawns_concat(later_commands, live[from].retry_commands(), source);
            lemma_retry_spawns(live[from], source);
            if let Some(next) = live[from].retried() {
                lemma_stake_push(later, next, source);
                lemma_stake_one(next, source);
            }
        } else {
            lemma_stake_concat(seq![live[from]], later, source);
        }
    } else {
        assert(live.skip(from) == Seq::<DownloadTask>::empty());
    }
}

/// The downloads of one race, polled together.
pub struct JoinTasks {
    tasks: Vec<DownloadTask>,
}

impl View for JoinTasks {
    type V = Seq<DownloadTask>;

    closed spec fn view(&self) -> Seq<DownloadTask> {
        self.tasks@
    }
}

impl JoinTasks {
    /// Creates the task of every repository and asks for its download to be spawned.
    pub fn new(repositories: Vec<ServerName>, retry_budget: usize, outbox: &mut Vec<Command>) -> (joined: Self)
        ensures
            joined@ == first_tasks(repositories@, retry_budget),
            final(outbox)@ == old(outbox)@ + first_spawns(repositories@, retry_budget),
    {
        JoinTasks { tasks: start_all(repositories, retry_budget, outbox) }
    }

    /// Whether no download is held any more.
    pub fn is_empty(&self) -> (empty: bool)
        ensures
            empty == (self@.len() == 0),
    {
        self.tasks.len() == 0
    }

    /// The downloads to poll in the next round, in the order in which to poll them.
    pub fn awaited(&self) -> (tasks: Vec<TaskId>)
        ensures
            tasks@ == awaitable(self@),
    {
        awaited(&self.tasks)
    }

    /// Asks for every download still held to be stopped, and lets go of them.
    pub fn abort(&mut self, outbox: &mut Vec<Command>)
        ensures
            final(self)@ == Seq::<DownloadTask>::empty(),
            final(outbox)@ == old(outbox)@ + aborts_of(old(self)@),
    {
        abort_all(&self.tasks, outbox);
        self.tasks.clear();
    }

    /// Decides on one round of polling. The first download in the round
    /// that delivered a binary ends the race: the poll is ready with the
    /// binary, and all other downloads are aborted. Without a binary, each
    /// failed download is started again while it has a retry left; the poll
    /// is ready with `None` once no download is held, and pending until then.
    pub fn poll(&mut self, round: Round, outbox: &mut Vec<Command>) -> (ready: Polled<Option<Binary>>)
        ensures
            final(self)@ == spec_poll(old(self)@, round@).0,
            ready == spec_poll(old(self)@, round@).1,
            final(outbox)@ == old(outbox)@ + spec_poll(old(self)@, round@).2,
    {
        let mut round = round;
        let mut at: usize = 0;
        while at < round.len()
            invariant
                at <= round.len(),
                first_success(round@, 0) == first_success(round@, at as int),
            ensures
                at <= round.len(),
                at == first_success(round@, 0),
            decreases round.len() - at,
        {
            if let Polled::Ready(Ok(_)) = &round[at] {
                break ;
            }
            at += 1;
        }
        if at < round.len() && at < self.tasks.len() {
            proof {
                lemma_first_success(round@, 0);
            }
            let _winner = self.tasks.remove(at);
            self.abort(outbox);
            match round.remove(at) {
                Polled::Ready(Ok(binary)) => {
                    return Polled::Ready(Some(binary));
                },
                // Not reached: the answer at `at` is the one with the binary.
                _ => {
                    return Polled::Pending;
                },
            }
        }
        let ghost live = self.tasks@;
        let ghost before = outbox@;
        let mut from: usize = self.tasks.len();
        while from > 0
            invariant
                from <= live.len(),
                self.tasks@ == live.take(from as int) + settled(live, round@, from as int),
                outbox@ == before + settle_commands(live, round@, from as int),
            decreases from,
        {
            from -= 1;
            let failed = from < round.len() && match &round[from] {
                Polled::Ready(Err(_)) => true,
                _ => false,
            };
            proof {
                assert(live.take(from + 1) == live.take(from as int).push(live[from as int]));
            }
            if failed {
                let task = self.tasks.remove(from);
                if let Some(next) = task.start_retry(outbox) {
                    self.tasks.push(next);
                }
            }
        }
        if self.tasks.len() == 0 {
            Polled::Ready(None)
        } else {
            Polled::Pending
        }
    }
}

/// Holds every download itself and polls them round by round, in the order
/// in which they are held.
pub struct StdFutures {
    tasks: JoinTasks,
    result: Option<Binary>,
}

impl StdFutures {
    /// The downloads to poll in the next round, in the order in which to
    /// poll them. None if the race is over.
    pub fn awaited(&self) -> (tasks: Vec<TaskId>)
        ensures
            tasks@ == awaitable(self.race().live),
    {
        self.tasks.awaited()
    }
}

impl Coordinator for StdFutures {
    /// What one round of polling has shown.
    type Event = Round;

    closed spec fn race(&self) -> Race {
        Race { live: self.tasks@, result: self.result }
    }

    open spec fn spec_begin(repositories: Seq<ServerName>, retry_budget: usize) -> (Race, Seq<Command>) {
        (
            Race { live: first_tasks(repositories, retry_budget), result: None },
            first_spawns(repositories, retry_budget),
        )
    }

    open spec fn spec_step(race: Race, event: Round) -> (Race, Seq<Command>) {
        if race.finished() {
            (race, Seq::empty())
        } else {
            let (live, ready, commands) = spec_poll(race.live, event@);
            (
                Race {
                    live,
                    result: match ready {
                        Polled::Ready(Some(binary)) => Some(binary),
                        _ => race.result,
                    },
                },
                commands,
            )
        }
    }

    open spec fn delivers(race: Race, event: Round) -> Option<Binary> {
        match spec_poll(race.live, event@).1 {
            Polled::Ready(found) => found,
            Polled::Pending => None,
        }
    }

    open spec fn failures(race: Race, event: Round, source: usize) -> nat {
        if !race.finished() && Self::delivers(race, event) is None {
            failed_from(race.live, event@, 0, source)
        } else {
            0
        }
    }

    open spec fn keeps_all(repositories: Seq<ServerName>) -> bool {
        true
    }

    open spec fn orderly(race: Race) -> bool {
        held(race.live)
    }

    proof fn lemma_begin(repositories: Seq<ServerName>, retry_budget: usize) {
        lemma_first_stake(repositories, retry_budget);
    }

    proof fn lemma_step(race: Race, event: Round) {
        if !race.finished() {
            let (next, commands) = Self::spec_step(race, event);
            let winner = first_success(event@, 0);
            lemma_first_success(event@, 0);
            if winner < event@.len() && winner < race.live.len() {
                assert forall|source: usize| #[trigger] spawns(commands, source) == 0 by {
                    lemma_aborts_spawn_nothing(race.live.remove(winner), source);
                }
            } else {
                assert(race.live.skip(0) == race.live);
                lemma_settled(race.live, event@, 0, 0);
                assert forall|source: usize|
                    spawns(commands, source) + #[trigger] credit(next.live, source) == credit(
                        race.live,
                        source,
                    ) by {
                    lemma_settled(race.live, event@, 0, source);
                }
                assert forall|source: usize|
                    Self::failures(race, event, source) + #[trigger] holders(next.live, source)
                        == holders(race.live, source) + spawns(commands, source) by {
                    lemma_settled(race.live, event@, 0, source);
                }
            }
        }
    }

    fn begin(repositories: Vec<ServerName>, retry_budget: usize) -> (started: (Self, Vec<Command>)) {
        let mut commands: Vec<Command> = Vec::new();
        let tasks = JoinTasks::new(repositories, retry_budget, &mut commands);
        (StdFutures { tasks, result: None }, commands)
    }

    fn step(&mut self, event: Round) -> (commands: Vec<Command>) {
        let mut commands: Vec<Command> = Vec::new();
        if self.tasks.is_empty() {
            return commands;
        }
        if let Polled::Ready(Some(binary)) = self.tasks.poll(event, &mut commands) {
            self.result = Some(binary);
        }
        commands
    }

    fn cancel(&mut self) -> (commands: Vec<Command>) {
        let mut commands: Vec<Command> = Vec::new();
        self.tasks.abort(&mut commands);
        commands
    }

    fn finished(&self) -> (done: bool) {
        self.tasks.is_empty()
    }

    fn into_result(self) -> (found: Option<Binary>) {
        self.result
    }
}

impl Solution for StdFutures {

}

} // verus!
