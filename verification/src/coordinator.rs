//! What every coordinator of a race speaks: the tasks it asks for, the
//! commands it hands out, and the state of a race as contracts see it.

use vstd::prelude::*;

use crate::download_task::DownloadTask;
use crate::ledger::{credit, holders, spawns};
use crate::statement::{Binary, ServerName};

verus! {

/// Names one download of a race: the server's position in the list the race
/// was started with, and the retries that remain after this download.
/// A server's retries only go down, so no two downloads of a race share a name.
#[derive(Debug, Clone, Copy, PartialEq, Eq, Hash, Structural)]
pub struct TaskId {
    pub source: usize,
    pub retries_left: usize,
}

/// What a coordinator asks of whoever runs the downloads.
#[derive(Debug, PartialEq, Eq)]
pub enum Command {
    /// Start downloading from `server_name`, and report the outcome as that of `task`.
    Spawn { task: TaskId, server_name: ServerName },
    /// Stop `task`, if it still runs, and forget it. Nothing is reported back.
    Abort { task: TaskId },
}

/// A race as contracts see it: the downloads that are still of interest,
/// and the binary that won, if one has.
pub struct Race {
    pub live: Seq<DownloadTask>,
    pub result: Option<Binary>,
}

impl Race {
    /// A race is over once no download is of interest any more: a binary
    /// was found, or every server is out of retries.
    pub open spec fn finished(self) -> bool {
        self.live.len() == 0
    }
}

/// The commands that stop the downloads in `live` whose handle is still held,
/// in the order of `live`.
pub open spec fn aborts_of(live: Seq<DownloadTask>) -> Seq<Command>
    decreases live.len(),
{
    if live.len() == 0 {
        Seq::empty()
    } else {
        aborts_of(live.drop_last()) + live.last().abort_commands()
    }
}

/// Whether the handle of every download in `live` is held.
pub open spec fn held(live: Seq<DownloadTask>) -> bool {
    forall|i: int| 0 <= i < live.len() ==> (#[trigger] live[i]).holds_handle
}

/// The commands that spawn the first download of every server in `repositories`.
pub open spec fn first_spawns(repositories: Seq<ServerName>, retry_budget: usize) -> Seq<Command> {
    Seq::new(
        repositories.len(),
        |i: int|
            Command::Spawn {
                task: TaskId { source: i as usize, retries_left: retry_budget },
                server_name: repositories[i],
            },
    )
}

/// The tasks of the first downloads of every server in `repositories`.
pub open spec fn first_tasks(repositories: Seq<ServerName>, retry_budget: usize) -> Seq<DownloadTask> {
    Seq::new(
        repositories.len(),
        |i: int| DownloadTask::started(repositories[i], i as usize, retry_budget),
    )
}

/// The downloads in `live` that can be waited for: those whose handle is
/// held, in the order of `live`.
pub open spec fn awaitable(live: Seq<DownloadTask>) -> Seq<TaskId>
    decreases live.len(),
{
    if live.len() == 0 {
        Seq::empty()
    } else if live.last().holds_handle {
        awaitable(live.drop_last()).push(live.last().id())
    } else {
        awaitable(live.drop_last())
    }
}

/// What a task is looked for by, as contracts see it.
pub enum Wanted {
    /// The name of its server.
    Named(Seq<char>),
    /// The name of its download.
    Task(TaskId),
}

/// What a task is looked for by.
pub enum Key<'a> {
    /// The name of its server.
    Named(&'a ServerName),
    /// The name of its download.
    Task(TaskId),
}

impl View for Key<'_> {
    type V = Wanted;

    open spec fn view(&self) -> Wanted {
        match *self {
            Key::Named(name) => Wanted::Named(name@),
            Key::Task(task) => Wanted::Task(task),
        }
    }
}

/// Whether `task` is what is looked for.
pub open spec fn fits(task: DownloadTask, wanted: Wanted) -> bool {
    match wanted {
        Wanted::Named(name) => task.server_name@ == name,
        Wanted::Task(id) => task.id() == id,
    }
}

/// Where the task that is looked for stands in `live`: the first position
/// that fits, or the length of `live` if none does.
pub open spec fn position(live: Seq<DownloadTask>, wanted: Wanted) -> int
    decreases live.len(),
{
    if live.len() == 0 || fits(live.first(), wanted) {
        0
    } else {
        1 + position(live.drop_first(), wanted)
    }
}

/// `live` without the task that is looked for, and that task, if there is one.
pub open spec fn removed(live: Seq<DownloadTask>, wanted: Wanted) -> (Seq<DownloadTask>, Option<DownloadTask>) {
    let at = position(live, wanted);
    if at < live.len() {
        (live.remove(at), Some(live[at]))
    } else {
        (live, None)
    }
}

/// `position` gives the first task that fits and nothing else.
pub proof fn lemma_position(live: Seq<DownloadTask>, wanted: Wanted)
    ensures
        0 <= position(live, wanted) <= live.len(),
        position(live, wanted) < live.len() ==> fits(live[position(live, wanted)], wanted),
        forall|i: int| 0 <= i < position(live, wanted) ==> !fits(#[trigger] live[i], wanted),
    decreases live.len(),
{
    if live.len() == 0 || fits(live.first(), wanted) {
    } else {
        let rest = live.drop_first();
        lemma_position(rest, wanted);
        assert forall|i: int| 0 <= i < position(live, wanted) implies !fits(
            #[trigger] live[i],
            wanted,
        ) by {
            if i > 0 {
                assert(live[i] == rest[i - 1]);
            }
        }
    }
}

/// The first position that fits is the one `position` gives.
pub proof fn lemma_position_unique(live: Seq<DownloadTask>, wanted: Wanted, at: int)
    requires
        0 <= at <= live.len(),
        at < live.len() ==> fits(live[at], wanted),
        forall|i: int| 0 <= i < at ==> !fits(#[trigger] live[i], wanted),
    ensures
        position(live, wanted) == at,
{
    lemma_position(live, wanted);
}

impl Key<'_> {
    /// Whether `task` is what is looked for.
    pub fn fits(&self, task: &DownloadTask) -> (yes: bool)
        ensures
            yes == fits(*task, self@),
    {
        match self {
            Key::Named(name) => task.server_name.same_as(name),
            Key::Task(id) => task.source == id.source && task.retries_left == id.retries_left,
        }
    }
}

/// Finds the first task in `live` that fits `key`. Returns the length of
/// `live` if there is none.
pub fn find(live: &Vec<DownloadTask>, key: &Key) -> (at: usize)
    ensures
        at == position(live@, key@),
{
    let mut at: usize = 0;
    while at < live.len()
        invariant
            at <= live.len(),
            forall|i: int| 0 <= i < at ==> !fits(#[trigger] live@[i], key@),
        ensures
            at <= live.len(),
            at < live.len() ==> fits(live@[at as int], key@),
            forall|i: int| 0 <= i < at ==> !fits(#[trigger] live@[i], key@),
        decreases live.len() - at,
    {
        if key.fits(&live[at]) {
            break ;
        }
        at += 1;
    }
    proof {
        lemma_position_unique(live@, key@, at as int);
    }
    at
}

/// Takes the first task that fits `key` out of `live`, if there is one.
pub fn remove(live: &mut Vec<DownloadTask>, key: &Key) -> (taken: Option<DownloadTask>)
    ensures
        (final(live)@, taken) == removed(old(live)@, key@),
{
    let at = find(live, key);
    if at < live.len() {
        Some(live.remove(at))
    } else {
        None
    }
}

/// Lists the downloads in `live` that can be waited for, first to last.
pub fn awaited(live: &Vec<DownloadTask>) -> (tasks: Vec<TaskId>)
    ensures
        tasks@ == awaitable(live@),
{
    let mut tasks: Vec<TaskId> = Vec::new();
    let mut at: usize = 0;
    while at < live.len()
        invariant
            at <= live.len(),
            tasks@ == awaitable(live@.take(at as int)),
        decreases live.len() - at,
    {
        proof {
            assert(live@.take(at + 1).drop_last() == live@.take(at as int));
        }
        if live[at].holds_handle {
            tasks.push(TaskId { source: live[at].source, retries_left: live[at].retries_left });
        }
        at += 1;
    }
    proof {
        assert(live@.take(live.len() as int) == live@);
    }
    tasks
}

/// Creates the task of every repository, in the order of the list, and
/// asks for its download to be spawned.
pub fn start_all(repositories: Vec<ServerName>, retry_budget: usize, outbox: &mut Vec<Command>) -> (tasks: Vec<
    DownloadTask,
>)
    ensures
        tasks@ == first_tasks(repositories@, retry_budget),
        final(outbox)@ == old(outbox)@ + first_spawns(repositories@, retry_budget),
{
    let mut tasks: Vec<DownloadTask> = Vec::new();
    let mut source: usize = 0;
    while source < repositories.len()
        invariant
            source <= repositories.len(),
            tasks@ == first_tasks(repositories@, retry_budget).take(source as int),
            outbox@ == old(outbox)@ + first_spawns(repositories@, retry_budget).take(source as int),
        decreases repositories.len() - source,
    {
        let task = DownloadTask::start(repositories[source].clone(), source, retry_budget, outbox);
        tasks.push(task);
        source += 1;
    }
    proof {
        let first = first_tasks(repositories@, retry_budget);
        let spawned = first_spawns(repositories@, retry_budget);
        assert(first.take(first.len() as int) == first);
        assert(spawned.take(spawned.len() as int) == spawned);
    }
    tasks
}

/// Asks for every download in `live` to be stopped, first to last.
pub fn abort_all(live: &Vec<DownloadTask>, outbox: &mut Vec<Command>)
    ensures
        final(outbox)@ == old(outbox)@ + aborts_of(live@),
{
    let mut done: usize = 0;
    while done < live.len()
        invariant
            done <= live.len(),
            outbox@ == old(outbox)@ + aborts_of(live@.take(done as int)),
        decreases live.len() - done,
    {
        proof {
            assert(live@.take(done + 1).drop_last() == live@.take(done as int));
        }
        live[done].abort(outbox);
        done += 1;
    }
    proof {
        assert(live@.take(live.len() as int) == live@);
    }
}

/// A way to run the race, as a state machine: `begin` starts the first
/// downloads, `step` takes what completed and decides what happens next.
/// The commands each of them returns are to be carried out by the caller.
pub trait Coordinator: Sized {
    /// What the caller reports back: one completion, in the form in which
    /// this coordinator observes it.
    type Event;

    /// The race that this state stands for.
    spec fn race(&self) -> Race;

    /// The race right after `begin`, and the commands `begin` gives.
    spec fn spec_begin(repositories: Seq<ServerName>, retry_budget: usize) -> (Race, Seq<Command>);

    /// The race after `event`, and the commands given in answer to it.
    spec fn spec_step(race: Race, event: Self::Event) -> (Race, Seq<Command>);

    /// The binary that `event` brings to `race`, if it brings one.
    spec fn delivers(race: Race, event: Self::Event) -> Option<Binary>;

    /// How many downloads of the server at position `source` the event
    /// reports to `race` as failed.
    spec fn failures(race: Race, event: Self::Event, source: usize) -> nat;

    /// Whether each of `repositories` gets a task of its own when a race of
    /// this kind begins.
    spec fn keeps_all(repositories: Seq<ServerName>) -> bool;

    /// What holds of the tasks of every race of this kind.
    spec fn orderly(race: Race) -> bool;

    /// A race begins orderly and without a binary, with one download
    /// spawned for each repository; it is over at once only if there is no
    /// repository. No server has more than one task or holds more than the
    /// budget, and each has its task and holds all of the budget where every
    /// repository has a task of its own.
    proof fn lemma_begin(repositories: Seq<ServerName>, retry_budget: usize)
        requires
            repositories.len() <= usize::MAX,
        ensures
            ({
                let (race, log) = Self::spec_begin(repositories, retry_budget);
                &&& Self::orderly(race)
                &&& race.result is None
                &&& race.finished() <==> repositories.len() == 0
                &&& log == first_spawns(repositories, retry_budget)
                &&& forall|source: usize|
                    source >= repositories.len() ==> #[trigger] credit(race.live, source) == 0
                &&& forall|source: usize| #[trigger] credit(race.live, source) <= retry_budget
                &&& forall|source: usize|
                    source >= repositories.len() ==> #[trigger] holders(race.live, source) == 0
                &&& forall|source: usize| #[trigger] holders(race.live, source) <= 1
                &&& Self::keeps_all(repositories) ==> forall|source: usize|
                    source < repositories.len() ==> #[trigger] credit(race.live, source)
                        == retry_budget && holders(race.live, source) == 1
            }),
    ;

    /// A step keeps an orderly race orderly. A race that is over stays as it
    /// is and gives no command. In a race that is not, an event that brings
    /// a binary ends the race with that binary and spawns nothing; neither
    /// reports a failure. Any other event leaves the race without a binary.
    /// For each server, the downloads it spawns are paid for by the retries
    /// the server held, and the tasks that leave the race are those that
    /// failed and were not started again.
    proof fn lemma_step(race: Race, event: Self::Event)
        requires
            Self::orderly(race),
        ensures
            ({
                let (next, commands) = Self::spec_step(race, event);
                &&& Self::orderly(next)
                &&& if race.finished() {
                    &&& next == race
                    &&& commands == Seq::<Command>::empty()
                    &&& forall|source: usize| #[trigger] Self::failures(race, event, source) == 0
                } else {
                    match Self::delivers(race, event) {
                        Some(binary) => {
                            &&& next == (Race { live: Seq::empty(), result: Some(binary) })
                            &&& forall|source: usize| #[trigger] spawns(commands, source) == 0
                            &&& forall|source: usize| #[trigger]
                                Self::failures(race, event, source) == 0
                        },
                        None => {
                            &&& next.result == race.result
                            &&& forall|source: usize|
                                spawns(commands, source) + #[trigger] credit(next.live, source)
                                    == credit(race.live, source)
                            &&& forall|source: usize|
                                Self::failures(race, event, source) + #[trigger] holders(
                                    next.live,
                                    source,
                                ) == holders(race.live, source) + spawns(commands, source)
                        },
                    }
                }
            }),
    ;

    /// Starts a race between `repositories`, each with `retry_budget` retries.
    fn begin(repositories: Vec<ServerName>, retry_budget: usize) -> (started: (Self, Vec<Command>))
        ensures
            (started.0.race(), started.1@) == Self::spec_begin(repositories@, retry_budget),
    ;

    /// Takes one event and decides what happens next.
    fn step(&mut self, event: Self::Event) -> (commands: Vec<Command>)
        ensures
            (final(self).race(), commands@) == Self::spec_step(old(self).race(), event),
    ;

    /// Ends the race from outside: every download still of interest is stopped.
    /// A binary that was found before stays found.
    fn cancel(&mut self) -> (commands: Vec<Command>)
        ensures
            final(self).race() == (Race { live: Seq::empty(), result: old(self).race().result }),
            commands@ == aborts_of(old(self).race().live),
    ;

    /// Whether the race is over.
    fn finished(&self) -> (done: bool)
        ensures
            done == self.race().finished(),
    ;

    /// The binary that won the race, if one did.
    fn into_result(self) -> (found: Option<Binary>)
        ensures
            found == self.race().result,
    ;
}

/// The race after `events` were fed to a coordinator of kind `S`, one by one,
/// and the commands it gave on the way.
pub open spec fn race_after<S: Coordinator>(
    repositories: Seq<ServerName>,
    retry_budget: usize,
    events: Seq<S::Event>,
) -> (Race, Seq<Command>)
    decreases events.len(),
{
    if events.len() == 0 {
        S::spec_begin(repositories, retry_budget)
    } else {
        let (race, log) = race_after::<S>(repositories, retry_budget, events.drop_last());
        let (next, commands) = S::spec_step(race, events.last());
        (next, log + commands)
    }
}

} // verus!
