//! Where polling and arrival agree: polled one completion a round, the
//! polling coordinator goes the way of the channel coordinator.

use vstd::prelude::*;

use crate::coordinator::{
    held, lemma_position, lemma_position_unique, position, race_after, Command, Coordinator, Race,
    Wanted,
};
use crate::laws::lemma_reachable;
use crate::download_task::DownloadTask;
use crate::ledger::retried_in;
use crate::solution::solved;
use crate::statement::{Binary, ServerError, ServerName};
use crate::std_futures::{
    failed_at, first_success, lemma_first_success, settle_commands, settled, succeeded_at, Polled,
    Round, StdFutures,
};
use crate::tokio_channels::{
    distinct_names, lemma_first_kept_distinct, lemma_name_gone, one_per_name, TokioChannels,
};

verus! {

/// Whether no download but the last one asked has an answer in `round`.
pub open spec fn only_last_answers(round: Seq<Polled<Result<Binary, ServerError>>>) -> bool {
    forall|i: int| 0 <= i < round.len() - 1 ==> (#[trigger] round[i]) is Pending
}

/// Whether `round` shows to the polling coordinator just what `event`
/// reports to the channel coordinator, in the race `race`: the one answer
/// in it is the outcome that the event brings, and a failure is the answer
/// of the task of the server that the event names. A failure of a server
/// without a task is shown by a round without answers. A race that is over
/// is shown nothing.
pub open spec fn shows(race: Race, round: Round, event: Result<Binary, ServerError>) -> bool {
    if race.finished() {
        true
    } else {
        match event {
            Ok(binary) => {
                &&& 1 <= round@.len() <= race.live.len()
                &&& only_last_answers(round@)
                &&& round@.last() == Polled::Ready(Ok::<Binary, ServerError>(binary))
            },
            Err(error) => {
                let at = position(race.live, Wanted::Named(error.spec_server()@));
                if at < race.live.len() {
                    &&& round@.len() == at + 1
                    &&& only_last_answers(round@)
                    &&& round@.last() == Polled::Ready(Err::<Binary, ServerError>(error))
                } else {
                    round@.len() == 0
                }
            },
        }
    }
}

/// Where no download from `from` on has failed, all of them stay as they
/// are and no command is given.
pub proof fn lemma_settled_quiet(
    live: Seq<DownloadTask>,
    round: Seq<Polled<Result<Binary, ServerError>>>,
    from: int,
)
    requires
        0 <= from <= live.len(),
        forall|i: int| from <= i < live.len() ==> !failed_at(round, i),
    ensures
        settled(live, round, from) == live.skip(from),
        settle_commands(live, round, from) == Seq::<Command>::empty(),
    decreases live.len() - from,
{
    if from < live.len() {
        lemma_settled_quiet(live, round, from + 1);
        assert(live.skip(from) == seq![live[from]] + live.skip(from + 1));
    } else {
        assert(live.skip(from) == Seq::<DownloadTask>::empty());
    }
}

/// Where the download at `at` is the only one from `from` on that has
/// failed, it makes room for its retry and the others stay as they are.
pub proof fn lemma_settled_single(
    live: Seq<DownloadTask>,
    round: Seq<Polled<Result<Binary, ServerError>>>,
    from: int,
    at: int,
)
    requires
        0 <= from <= at < live.len(),
        failed_at(round, at),
        forall|i: int| from <= i < live.len() && i != at ==> !failed_at(round, i),
    ensures
        settled(live, round, from) == retried_in(live, at, live[at]).skip(from),
        settle_commands(live, round, from) == live[at].retry_commands(),
    decreases at - from,
{
    let after = retried_in(live, at, live[at]);
    if from == at {
        lemma_settled_quiet(live, round, at + 1);
        assert(live.remove(at).skip(at) == live.skip(at + 1));
        match live[at].retried() {
            Some(next) => {
                assert(after.skip(at) == live.skip(at + 1).push(next));
            },
            None => {},
        }
        assert(Seq::<Command>::empty() + live[at].retry_commands()
            == live[at].retry_commands());
    } else {
        lemma_settled_single(live, round, from + 1, at);
        assert(after[from] == live[from]);
        assert(after.skip(from) == seq![live[from]] + after.skip(from + 1));
    }
}

/// One round that shows what one event reports takes the polling
/// coordinator to the race that the event takes the channel coordinator
/// to; after a failure, with the same commands.
pub proof fn lemma_round_follows_event(race: Race, round: Round, event: Result<Binary, ServerError>)
    requires
        one_per_name(race.live),
        held(race.live),
        shows(race, round, event),
    ensures
        StdFutures::spec_step(race, round).0 == TokioChannels::spec_step(race, event).0,
        event is Err ==> StdFutures::spec_step(race, round).1 == TokioChannels::spec_step(
            race,
            event,
        ).1,
{
    if !race.finished() {
        lemma_first_success(round@, 0);
        match event {
            Ok(binary) => {
                assert(first_success(round@, 0) == round@.len() - 1) by {
                    let first = first_success(round@, 0);
                    assert(succeeded_at(round@, round@.len() - 1));
                    if first < round@.len() - 1 {
                        assert(round@[first] is Pending);
                    }
                }
            },
            Err(error) => {
                let name = Wanted::Named(error.spec_server()@);
                let at = position(race.live, name);
                lemma_position(race.live, name);
                assert(first_success(round@, 0) == round@.len()) by {
                    let first = first_success(round@, 0);
                    if first < round@.len() - 1 {
                        assert(round@[first] is Pending);
                    }
                }
                if at < race.live.len() {
                    assert forall|i: int| 0 <= i < race.live.len() && i != at implies !failed_at(
                        round@,
                        i,
                    ) by {
                        if i < at {
                            assert(round@[i] is Pending);
                        }
                    }
                    lemma_settled_single(race.live, round@, 0, at);
                    assert(retried_in(race.live, at, race.live[at]).skip(0) == retried_in(
                        race.live,
                        at,
                        race.live[at],
                    ));
                    if race.live[at].retried() is Some {
                        lemma_name_gone(race.live, at);
                        lemma_position_unique(
                            race.live.remove(at),
                            name,
                            race.live.remove(at).len() as int,
                        );
                    }
                } else {
                    lemma_settled_quiet(race.live, round@, 0);
                    assert(race.live.skip(0) == race.live);
                }
            },
        }
    }
}

/// Polled one completion a round, in the order of arrival, the polling
/// coordinator goes through the same races as the channel coordinator and
/// finds the same binary: where no two repositories have the same name and
/// each round shows what the event of the same place reports, both end in
/// the same race.
pub proof fn law_polling_follows_arrival(
    repositories: Seq<ServerName>,
    retry_budget: usize,
    events: Seq<Result<Binary, ServerError>>,
    rounds: Seq<Round>,
)
    requires
        repositories.len() <= usize::MAX,
        distinct_names(repositories),
        rounds.len() == events.len(),
        forall|i: int|
            0 <= i < events.len() ==> shows(
                race_after::<TokioChannels>(repositories, retry_budget, #[trigger] events.take(i)).0,
                rounds[i],
                events[i],
            ),
    ensures
        race_after::<StdFutures>(repositories, retry_budget, rounds).0 == race_after::<TokioChannels>(
            repositories,
            retry_budget,
            events,
        ).0,
        solved::<StdFutures>(repositories, retry_budget, rounds).0 == solved::<TokioChannels>(
            repositories,
            retry_budget,
            events,
        ).0,
    decreases events.len(),
{
    if events.len() == 0 {
        lemma_first_kept_distinct(repositories, retry_budget);
    } else {
        let fewer = events.drop_last();
        assert forall|i: int| 0 <= i < fewer.len() implies shows(
            race_after::<TokioChannels>(repositories, retry_budget, #[trigger] fewer.take(i)).0,
            rounds.drop_last()[i],
            fewer[i],
        ) by {
            assert(fewer.take(i) == events.take(i));
        }
        law_polling_follows_arrival(repositories, retry_budget, fewer, rounds.drop_last());
        let race = race_after::<TokioChannels>(repositories, retry_budget, fewer).0;
        lemma_reachable::<TokioChannels>(repositories, retry_budget, fewer);
        assert(events.take(events.len() - 1) == fewer);
        lemma_round_follows_event(race, rounds.last(), events.last());
    }
}

} // verus!
