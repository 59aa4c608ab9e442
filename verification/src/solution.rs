//! Running a whole race in one call.

use vstd::prelude::*;

use crate::coordinator::{aborts_of, race_after, Command, Coordinator};
use crate::statement::{Binary, ServerName};

verus! {

/// How often a failed download is started again, unless the caller says otherwise.
pub const RETRIES: usize = 3;

/// What `solve` returns for a coordinator of kind `S`: the race is fed all of
/// `events` and then cancelled.
pub open spec fn solved<S: Coordinator>(
    repositories: Seq<ServerName>,
    retry_budget: usize,
    events: Seq<S::Event>,
) -> (Option<Binary>, Seq<Command>) {
    let (race, log) = race_after::<S>(repositories, retry_budget, events);
    (race.result, log + aborts_of(race.live))
}

/// A coordinator that can run a whole race in one call.
pub trait Solution: Coordinator {
    /// Runs a whole race against a record of what completed, in the order in
    /// which it completed. Events after the end of the race are discarded;
    /// if the record ends first, the race is cancelled. Returns the binary
    /// that won, if one did, and every command given on the way.
    fn solve(repositories: Vec<ServerName>, retry_budget: usize, events: Vec<Self::Event>) -> (run: (
        Option<Binary>,
        Vec<Command>,
    ))
        ensures
            run.0 == solved::<Self>(repositories@, retry_budget, events@).0,
            run.1@ == solved::<Self>(repositories@, retry_budget, events@).1,
    {
        let (mut state, mut log) = Self::begin(repositories, retry_budget);
        for event in iter: events.into_iter()
            invariant
                iter.seq() == events@,
                (state.race(), log@) == race_after::<Self>(
                    repositories@,
                    retry_budget,
                    events@.take(iter.index() as int),
                ),
        {
            proof {
                let fed = events@.take(iter.index() as int + 1);
                assert(fed.drop_last() == events@.take(iter.index() as int));
                assert(fed.last() == event);
            }
            let mut commands = state.step(event);
            log.append(&mut commands);
        }
        proof {
            assert(events@.take(events@.len() as int) == events@);
        }
        let mut commands = state.cancel();
        log.append(&mut commands);
        (state.into_result(), log)
    }
}

} // verus!
