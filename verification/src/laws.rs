//! What holds of every race, whichever coordinator runs it.

use vstd::prelude::*;

use crate::coordinator::{aborts_of, race_after, Command, Coordinator, Race};
use crate::download_task::DownloadTask;
use crate::ledger::{
    credit, holders, lemma_aborts_spawn_nothing, lemma_first_spawns, lemma_no_holders,
    lemma_spawns_concat, spawns,
};
use crate::solution::solved;
use crate::statement::{Binary, ServerName};

verus! {

/// The account of a race between `servers` servers and of the commands that
/// led to it. A binary is only held by a race that is over. No download is
/// spawned for a server outside the list. For each server in it, the
/// downloads spawned so far and the retries it still holds come to no more
/// than one download and the budget; if `exact`, and while no binary is
/// found, they come to just that.
pub open spec fn balanced(
    race: Race,
    log: Seq<Command>,
    servers: nat,
    retry_budget: usize,
    exact: bool,
) -> bool {
    &&& race.result is Some ==> race.finished()
    &&& forall|source: usize|
        source >= servers ==> #[trigger] spawns(log, source) + credit(race.live, source) == 0
    &&& forall|source: usize| #[trigger]
        spawns(log, source) + credit(race.live, source) <= retry_budget + 1
    &&& exact && race.result is None ==> forall|source: usize|
        source < servers ==> #[trigger] spawns(log, source) + credit(race.live, source)
            == retry_budget + 1
}

/// Whether none of `events` brings a binary to the race it is fed to.
pub open spec fn all_fail<S: Coordinator>(
    repositories: Seq<ServerName>,
    retry_budget: usize,
    events: Seq<S::Event>,
) -> bool {
    forall|i: int|
        0 <= i < events.len() ==> S::delivers(
            race_after::<S>(repositories, retry_budget, #[trigger] events.take(i)).0,
            events[i],
        ) is None
}

/// How many downloads of the server at position `source` the events
/// reported as failed, one after the other, to the race they were fed to.
pub open spec fn failed<S: Coordinator>(
    repositories: Seq<ServerName>,
    retry_budget: usize,
    events: Seq<S::Event>,
    source: usize,
) -> nat
    decreases events.len(),
{
    if events.len() == 0 {
        0
    } else {
        failed::<S>(repositories, retry_budget, events.drop_last(), source) + S::failures(
            race_after::<S>(repositories, retry_budget, events.drop_last()).0,
            events.last(),
            source,
        )
    }
}

/// Every race that events lead to is orderly and balanced; the account is
/// exact where each repository got a task of its own.
pub proof fn lemma_reachable<S: Coordinator>(
    repositories: Seq<ServerName>,
    retry_budget: usize,
    events: Seq<S::Event>,
)
    requires
        repositories.len() <= usize::MAX,
    ensures
        S::orderly(race_after::<S>(repositories, retry_budget, events).0),
        balanced(
            race_after::<S>(repositories, retry_budget, events).0,
            race_after::<S>(repositories, retry_budget, events).1,
            repositories.len(),
            retry_budget,
            S::keeps_all(repositories),
        ),
    decreases events.len(),
{
    if events.len() == 0 {
        let (race, log) = S::spec_begin(repositories, retry_budget);
        S::lemma_begin(repositories, retry_budget);
        assert forall|source: usize| true implies #[trigger] spawns(log, source) == if source
            < repositories.len() {
            1nat
        } else {
            0nat
        } by {
            lemma_first_spawns(repositories, retry_budget, source);
        }
        assert forall|source: usize| #[trigger]
            spawns(log, source) + credit(race.live, source) <= retry_budget + 1 by {
            assert(credit(race.live, source) <= retry_budget);
        }
    } else {
        let (race, log) = race_after::<S>(repositories, retry_budget, events.drop_last());
        let (next, commands) = S::spec_step(race, events.last());
        lemma_reachable::<S>(repositories, retry_budget, events.drop_last());
        S::lemma_step(race, events.last());
        if race.finished() {
            assert(log + commands == log);
        } else {
            assert(race.result is None);
            assert forall|source: usize| true implies #[trigger] spawns(log + commands, source)
                + credit(next.live, source) <= spawns(log, source) + credit(race.live, source)
                && (next.result is None ==> spawns(log + commands, source) + credit(
                next.live,
                source,
            ) == spawns(log, source) + credit(race.live, source)) by {
                lemma_spawns_concat(log, commands, source);
                assert(spawns(commands, source) + credit(next.live, source) <= credit(
                    race.live,
                    source,
                ) && (next.result is None ==> spawns(commands, source) + credit(
                    next.live,
                    source,
                ) == credit(race.live, source))) by {
                    if S::delivers(race, events.last()) is Some {
                        assert(spawns(commands, source) == 0);
                        assert(credit(next.live, source) == 0);
                    } else {
                        assert(spawns(commands, source) + credit(next.live, source) == credit(
                            race.live,
                            source,
                        ));
                    }
                }
            }
            assert forall|source: usize|
                source >= repositories.len() implies #[trigger] spawns(log + commands, source)
                + credit(next.live, source) == 0 by {
                assert(spawns(log, source) + credit(race.live, source) == 0);
            }
            assert forall|source: usize| #[trigger]
                spawns(log + commands, source) + credit(next.live, source) <= retry_budget
                + 1 by {
                assert(spawns(log, source) + credit(race.live, source) <= retry_budget + 1);
            }
            if S::keeps_all(repositories) && next.result is None {
                assert forall|source: usize|
                    source < repositories.len() implies #[trigger] spawns(
                    log + commands,
                    source,
                ) + credit(next.live, source) == retry_budget + 1 by {
                    assert(spawns(log, source) + credit(race.live, source) == retry_budget + 1);
                }
            }
        }
    }
}

/// Every download that was spawned has failed or is still in the race,
/// while no binary is found and where each repository got a task of its
/// own; in any case no more downloads have failed or are in the race than
/// were spawned.
pub proof fn lemma_answered<S: Coordinator>(
    repositories: Seq<ServerName>,
    retry_budget: usize,
    events: Seq<S::Event>,
    source: usize,
)
    requires
        repositories.len() <= usize::MAX,
    ensures
        ({
            let (race, log) = race_after::<S>(repositories, retry_budget, events);
            let reported = failed::<S>(repositories, retry_budget, events, source);
            &&& reported + holders(race.live, source) <= spawns(log, source)
            &&& S::keeps_all(repositories) && race.result is None ==> reported + holders(
                race.live,
                source,
            ) == spawns(log, source)
        }),
    decreases events.len(),
{
    if events.len() == 0 {
        S::lemma_begin(repositories, retry_budget);
        lemma_first_spawns(repositories, retry_budget, source);
        let race = S::spec_begin(repositories, retry_budget).0;
        assert(holders(race.live, source) <= 1);
        if source >= repositories.len() {
            assert(holders(race.live, source) == 0);
        } else if S::keeps_all(repositories) {
            assert(credit(race.live, source) == retry_budget);
        }
    } else {
        let (race, log) = race_after::<S>(repositories, retry_budget, events.drop_last());
        let (next, commands) = S::spec_step(race, events.last());
        lemma_answered::<S>(repositories, retry_budget, events.drop_last(), source);
        lemma_reachable::<S>(repositories, retry_budget, events.drop_last());
        S::lemma_step(race, events.last());
        lemma_spawns_concat(log, commands, source);
        if race.finished() {
            assert(S::failures(race, events.last(), source) == 0);
        } else if S::delivers(race, events.last()) is Some {
            assert(S::failures(race, events.last(), source) == 0);
            assert(spawns(commands, source) == 0);
            assert(holders(next.live, source) == 0);
        } else {
            assert(S::failures(race, events.last(), source) + holders(next.live, source)
                == holders(race.live, source) + spawns(commands, source));
        }
    }
}

/// A race that is over stays as it is: whatever is fed to it afterwards is
/// discarded, and no command is given for it.
pub proof fn law_finished_is_final<S: Coordinator>(
    repositories: Seq<ServerName>,
    retry_budget: usize,
    events: Seq<S::Event>,
    more: Seq<S::Event>,
)
    requires
        repositories.len() <= usize::MAX,
        race_after::<S>(repositories, retry_budget, events).0.finished(),
    ensures
        race_after::<S>(repositories, retry_budget, events + more) == race_after::<S>(
            repositories,
            retry_budget,
            events,
        ),
        solved::<S>(repositories, retry_budget, events + more) == solved::<S>(
            repositories,
            retry_budget,
            events,
        ),
    decreases more.len(),
{
    if more.len() == 0 {
        assert(events + more == events);
    } else {
        let (race, log) = race_after::<S>(repositories, retry_budget, events);
        assert((events + more).drop_last() == events + more.drop_last());
        law_finished_is_final::<S>(repositories, retry_budget, events, more.drop_last());
        lemma_reachable::<S>(repositories, retry_budget, events);
        S::lemma_step(race, more.last());
        assert(log + Seq::<Command>::empty() == log);
    }
}

/// A race between no servers is over before it begins: whatever is fed to
/// it, no binary is found and no command is given.
pub proof fn law_empty_race<S: Coordinator>(retry_budget: usize, events: Seq<S::Event>)
    ensures
        solved::<S>(Seq::empty(), retry_budget, events) == (None::<Binary>, Seq::<Command>::empty()),
{
    let none = Seq::<ServerName>::empty();
    let nothing = Seq::<S::Event>::empty();
    S::lemma_begin(none, retry_budget);
    law_finished_is_final::<S>(none, retry_budget, nothing, events);
    assert(nothing + events == events);
    let (race, log) = race_after::<S>(none, retry_budget, nothing);
    assert(log == Seq::<Command>::empty());
    assert(race.live == Seq::<DownloadTask>::empty());
    assert(log + aborts_of(race.live) == Seq::<Command>::empty());
}

/// The first binary wins: an event that brings a binary to a race that is
/// not over ends the race with that binary, and nothing that is fed to the
/// race afterwards changes the binary or what the race has become.
pub proof fn law_first_binary_wins<S: Coordinator>(
    repositories: Seq<ServerName>,
    retry_budget: usize,
    events: Seq<S::Event>,
    event: S::Event,
    binary: Binary,
    more: Seq<S::Event>,
)
    requires
        repositories.len() <= usize::MAX,
        !race_after::<S>(repositories, retry_budget, events).0.finished(),
        S::delivers(race_after::<S>(repositories, retry_budget, events).0, event) == Some(binary),
    ensures
        race_after::<S>(repositories, retry_budget, events.push(event) + more).0 == (Race {
            live: Seq::empty(),
            result: Some(binary),
        }),
        solved::<S>(repositories, retry_budget, events.push(event) + more).0 == Some(binary),
{
    let race = race_after::<S>(repositories, retry_budget, events).0;
    lemma_reachable::<S>(repositories, retry_budget, events);
    S::lemma_step(race, event);
    assert(events.push(event).drop_last() == events);
    law_finished_is_final::<S>(repositories, retry_budget, events.push(event), more);
}

/// Once a binary is found, no download is spawned any more: from the event
/// that brings the binary to the end of the run, the number of downloads
/// spawned for a server stays what it was before that event.
pub proof fn law_no_spawn_after_win<S: Coordinator>(
    repositories: Seq<ServerName>,
    retry_budget: usize,
    events: Seq<S::Event>,
    event: S::Event,
    more: Seq<S::Event>,
    source: usize,
)
    requires
        repositories.len() <= usize::MAX,
        !race_after::<S>(repositories, retry_budget, events).0.finished(),
        S::delivers(race_after::<S>(repositories, retry_budget, events).0, event) is Some,
    ensures
        spawns(solved::<S>(repositories, retry_budget, events.push(event) + more).1, source)
            == spawns(race_after::<S>(repositories, retry_budget, events).1, source),
{
    let (race, log) = race_after::<S>(repositories, retry_budget, events);
    let (next, commands) = S::spec_step(race, event);
    lemma_reachable::<S>(repositories, retry_budget, events);
    S::lemma_step(race, event);
    assert(events.push(event).drop_last() == events);
    law_finished_is_final::<S>(repositories, retry_budget, events.push(event), more);
    lemma_spawns_concat(log, commands, source);
    lemma_spawns_concat(log + commands, aborts_of(next.live), source);
    lemma_aborts_spawn_nothing(next.live, source);
}

/// In no run is a server's download spawned more often than once and once
/// for each retry of the budget, and no download is spawned for a server
/// that is not in the list.
pub proof fn law_spawns_bounded<S: Coordinator>(
    repositories: Seq<ServerName>,
    retry_budget: usize,
    events: Seq<S::Event>,
    source: usize,
)
    requires
        repositories.len() <= usize::MAX,
    ensures
        spawns(solved::<S>(repositories, retry_budget, events).1, source) <= retry_budget + 1,
        source >= repositories.len() ==> spawns(
            solved::<S>(repositories, retry_budget, events).1,
            source,
        ) == 0,
{
    let (race, log) = race_after::<S>(repositories, retry_budget, events);
    lemma_reachable::<S>(repositories, retry_budget, events);
    lemma_spawns_concat(log, aborts_of(race.live), source);
    lemma_aborts_spawn_nothing(race.live, source);
    assert(spawns(log, source) + credit(race.live, source) <= retry_budget + 1);
    if source >= repositories.len() {
        assert(spawns(log, source) + credit(race.live, source) == 0);
    }
}

/// A race ends without a binary only after every server has used all its
/// downloads: where each repository has a task of its own and the race is
/// over with no binary found, each server's download was spawned exactly
/// once and once for each retry of the budget. So while a server has a
/// download left, the race is open to its binary.
pub proof fn law_exhausted_after_all_attempts<S: Coordinator>(
    repositories: Seq<ServerName>,
    retry_budget: usize,
    events: Seq<S::Event>,
    source: usize,
)
    requires
        repositories.len() <= usize::MAX,
        S::keeps_all(repositories),
        source < repositories.len(),
        race_after::<S>(repositories, retry_budget, events).0.finished(),
        race_after::<S>(repositories, retry_budget, events).0.result is None,
    ensures
        spawns(race_after::<S>(repositories, retry_budget, events).1, source) == retry_budget + 1,
        spawns(solved::<S>(repositories, retry_budget, events).1, source) == retry_budget + 1,
{
    let (race, log) = race_after::<S>(repositories, retry_budget, events);
    lemma_reachable::<S>(repositories, retry_budget, events);
    assert(race.live == Seq::<DownloadTask>::empty());
    assert(spawns(log, source) + credit(race.live, source) == retry_budget + 1);
    lemma_spawns_concat(log, aborts_of(race.live), source);
    lemma_aborts_spawn_nothing(race.live, source);
}

/// A race ends without a binary exactly when every server has failed once
/// and once for each retry of the budget: while no binary is found, and
/// where each repository has a task of its own, the race is over if and
/// only if that many downloads of every server were reported as failed.
/// No server ever fails more often than that.
pub proof fn law_exhausted_iff_all_failed<S: Coordinator>(
    repositories: Seq<ServerName>,
    retry_budget: usize,
    events: Seq<S::Event>,
)
    requires
        repositories.len() <= usize::MAX,
        S::keeps_all(repositories),
        race_after::<S>(repositories, retry_budget, events).0.result is None,
    ensures
        race_after::<S>(repositories, retry_budget, events).0.finished() <==> forall|source: usize|
            source < repositories.len() ==> #[trigger] failed::<S>(
                repositories,
                retry_budget,
                events,
                source,
            ) == retry_budget + 1,
        forall|source: usize| #[trigger]
            failed::<S>(repositories, retry_budget, events, source) <= retry_budget + 1,
{
    let (race, log) = race_after::<S>(repositories, retry_budget, events);
    lemma_reachable::<S>(repositories, retry_budget, events);
    assert forall|source: usize| true implies #[trigger] failed::<S>(
        repositories,
        retry_budget,
        events,
        source,
    ) + holders(race.live, source) + credit(race.live, source) == if source < repositories.len() {
        retry_budget + 1
    } else {
        0
    } by {
        lemma_answered::<S>(repositories, retry_budget, events, source);
        if source < repositories.len() {
            assert(spawns(log, source) + credit(race.live, source) == retry_budget + 1);
        } else {
            assert(spawns(log, source) + credit(race.live, source) == 0);
        }
    }
    if race.finished() {
        assert(race.live == Seq::<DownloadTask>::empty());
    }
    if forall|source: usize|
        source < repositories.len() ==> #[trigger] failed::<S>(
            repositories,
            retry_budget,
            events,
            source,
        ) == retry_budget + 1 {
        assert forall|source: usize| holders(race.live, source) == 0 by {
            assert(failed::<S>(repositories, retry_budget, events, source) + holders(
                race.live,
                source,
            ) + credit(race.live, source) == if source < repositories.len() {
                retry_budget + 1
            } else {
                0
            });
        }
        lemma_no_holders(race.live);
    }
}

/// A server that delivers within its attempts wins the race, unless
/// another was first: where each repository has a task of its own, no
/// binary is found yet, and some server has failed no more often than the
/// budget has retries, the next event that brings a binary ends the race
/// with that binary.
pub proof fn law_success_within_budget_wins<S: Coordinator>(
    repositories: Seq<ServerName>,
    retry_budget: usize,
    events: Seq<S::Event>,
    source: usize,
    event: S::Event,
    binary: Binary,
    more: Seq<S::Event>,
)
    requires
        repositories.len() <= usize::MAX,
        S::keeps_all(repositories),
        race_after::<S>(repositories, retry_budget, events).0.result is None,
        source < repositories.len(),
        failed::<S>(repositories, retry_budget, events, source) <= retry_budget,
        S::delivers(race_after::<S>(repositories, retry_budget, events).0, event) == Some(binary),
    ensures
        solved::<S>(repositories, retry_budget, events.push(event) + more).0 == Some(binary),
{
    law_exhausted_iff_all_failed::<S>(repositories, retry_budget, events);
    law_first_binary_wins::<S>(repositories, retry_budget, events, event, binary, more);
}

/// A race that ended without a binary was brought none: every event that
/// was fed to it while it was not over brought no binary.
pub proof fn law_exhausted_means_all_failed<S: Coordinator>(
    repositories: Seq<ServerName>,
    retry_budget: usize,
    events: Seq<S::Event>,
    at: int,
)
    requires
        repositories.len() <= usize::MAX,
        race_after::<S>(repositories, retry_budget, events).0.result is None,
        0 <= at < events.len(),
        !race_after::<S>(repositories, retry_budget, events.take(at)).0.finished(),
    ensures
        S::delivers(race_after::<S>(repositories, retry_budget, events.take(at)).0, events[at]) is None,
{
    let race = race_after::<S>(repositories, retry_budget, events.take(at)).0;
    if let Some(binary) = S::delivers(race, events[at]) {
        law_first_binary_wins::<S>(
            repositories,
            retry_budget,
            events.take(at),
            events[at],
            binary,
            events.skip(at + 1),
        );
        assert(events.take(at).push(events[at]) + events.skip(at + 1) == events);
    }
}

/// Where no event brings a binary, none is found.
pub proof fn law_failures_find_nothing<S: Coordinator>(
    repositories: Seq<ServerName>,
    retry_budget: usize,
    events: Seq<S::Event>,
)
    requires
        repositories.len() <= usize::MAX,
        all_fail::<S>(repositories, retry_budget, events),
    ensures
        race_after::<S>(repositories, retry_budget, events).0.result is None,
        solved::<S>(repositories, retry_budget, events).0 is None,
    decreases events.len(),
{
    if events.len() == 0 {
        S::lemma_begin(repositories, retry_budget);
    } else {
        let fewer = events.drop_last();
        assert forall|i: int| 0 <= i < fewer.len() implies S::delivers(
            race_after::<S>(repositories, retry_budget, #[trigger] fewer.take(i)).0,
            fewer[i],
        ) is None by {
            assert(fewer.take(i) == events.take(i));
        }
        law_failures_find_nothing::<S>(repositories, retry_budget, fewer);
        let race = race_after::<S>(repositories, retry_budget, fewer).0;
        lemma_reachable::<S>(repositories, retry_budget, fewer);
        S::lemma_step(race, events.last());
        assert(events.take(events.len() - 1) == fewer);
    }
}

/// Where every download fails, the race ends without a binary and with
/// every server tried, and failed, exactly once and once for each retry of
/// the budget, given that each repository has a task of its own.
pub proof fn law_all_fail<S: Coordinator>(
    repositories: Seq<ServerName>,
    retry_budget: usize,
    events: Seq<S::Event>,
    source: usize,
)
    requires
        repositories.len() <= usize::MAX,
        S::keeps_all(repositories),
        source < repositories.len(),
        all_fail::<S>(repositories, retry_budget, events),
        race_after::<S>(repositories, retry_budget, events).0.finished(),
    ensures
        solved::<S>(repositories, retry_budget, events).0 is None,
        spawns(solved::<S>(repositories, retry_budget, events).1, source) == retry_budget + 1,
        failed::<S>(repositories, retry_budget, events, source) == retry_budget + 1,
{
    law_failures_find_nothing::<S>(repositories, retry_budget, events);
    law_exhausted_after_all_attempts::<S>(repositories, retry_budget, events, source);
    law_exhausted_iff_all_failed::<S>(repositories, retry_budget, events);
}

} // verus!
