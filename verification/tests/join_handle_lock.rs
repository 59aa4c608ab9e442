use concurrency_exercise_01::coordinator::{Command, Coordinator, TaskId};
use concurrency_exercise_01::download_task::JoinFailure;
use concurrency_exercise_01::join_handle_lock::JoinHandleLock;
use concurrency_exercise_01::solution::Solution;
use concurrency_exercise_01::statement::{Binary, ServerError, ServerName};

type Completion = (TaskId, Result<Result<Binary, ServerError>, JoinFailure>);

fn name(text: &str) -> ServerName {
    ServerName(text.to_string())
}

fn names(texts: &[&str]) -> Vec<ServerName> {
    texts.iter().map(|text| name(text)).collect()
}

fn id(source: usize, retries_left: usize) -> TaskId {
    TaskId { source, retries_left }
}

fn delivered(source: usize, retries_left: usize, text: &str) -> Completion {
    (id(source, retries_left), Ok(Ok(Binary { from: name(text) })))
}

fn disconnected(source: usize, retries_left: usize, text: &str) -> Completion {
    (id(source, retries_left), Ok(Err(ServerError::Disconnected(name(text)))))
}

fn lost(source: usize, retries_left: usize, failure: JoinFailure) -> Completion {
    (id(source, retries_left), Err(failure))
}

fn spawn(source: usize, retries_left: usize, text: &str) -> Command {
    Command::Spawn { task: id(source, retries_left), server_name: name(text) }
}

fn abort(source: usize, retries_left: usize) -> Command {
    Command::Abort { task: id(source, retries_left) }
}

fn spawned(log: &[Command], source: usize) -> usize {
    log.iter()
        .filter(|command| matches!(command, Command::Spawn { task, .. } if task.source == source))
        .count()
}

#[test]
fn handles_first_to_complete_wins_and_the_others_are_aborted() {
    let (found, log) =
        JoinHandleLock::solve(names(&["A", "B", "C"]), 3, vec![delivered(0, 3, "A")]);
    assert_eq!(found, Some(Binary { from: name("A") }));
    assert_eq!(
        log,
        vec![spawn(0, 3, "A"), spawn(1, 3, "B"), spawn(2, 3, "C"), abort(1, 3), abort(2, 3)]
    );
}

#[test]
fn handles_the_last_of_the_list_wins_if_it_completes_first() {
    let (found, log) = JoinHandleLock::solve(
        names(&["B", "C", "A"]),
        3,
        vec![delivered(2, 3, "A"), delivered(0, 3, "B"), delivered(1, 3, "C")],
    );
    assert_eq!(found, Some(Binary { from: name("A") }));
    assert_eq!(
        log,
        vec![spawn(0, 3, "B"), spawn(1, 3, "C"), spawn(2, 3, "A"), abort(0, 3), abort(1, 3)]
    );
}

#[test]
fn handles_the_order_of_the_list_does_not_decide() {
    let (first, _) = JoinHandleLock::solve(
        names(&["A", "B"]),
        3,
        vec![delivered(1, 3, "B"), delivered(0, 3, "A")],
    );
    let (second, _) = JoinHandleLock::solve(
        names(&["B", "A"]),
        3,
        vec![delivered(0, 3, "B"), delivered(1, 3, "A")],
    );
    assert_eq!(first, Some(Binary { from: name("B") }));
    assert_eq!(second, first);
}

#[test]
fn handles_a_download_that_never_completes_holds_nobody_up() {
    let (found, log) =
        JoinHandleLock::solve(names(&["A", "B"]), 3, vec![delivered(1, 3, "B")]);
    assert_eq!(found, Some(Binary { from: name("B") }));
    assert_eq!(log, vec![spawn(0, 3, "A"), spawn(1, 3, "B"), abort(0, 3)]);
}

#[test]
fn handles_all_fail_with_budget_three_tries_each_four_times() {
    let events = vec![
        disconnected(1, 3, "B"),
        disconnected(0, 3, "A"),
        disconnected(0, 2, "A"),
        disconnected(1, 2, "B"),
        disconnected(1, 1, "B"),
        disconnected(1, 0, "B"),
        disconnected(0, 1, "A"),
        disconnected(0, 0, "A"),
    ];
    let (found, log) = JoinHandleLock::solve(names(&["A", "B"]), 3, events);
    assert_eq!(found, None);
    assert_eq!(spawned(&log, 0), 4);
    assert_eq!(spawned(&log, 1), 4);
    assert_eq!(
        log,
        vec![
            spawn(0, 3, "A"),
            spawn(1, 3, "B"),
            spawn(1, 2, "B"),
            spawn(0, 2, "A"),
            spawn(0, 1, "A"),
            spawn(1, 1, "B"),
            spawn(1, 0, "B"),
            spawn(0, 0, "A"),
        ]
    );
}

#[test]
fn handles_failed_waits_count_as_failures() {
    let events = vec![
        lost(0, 3, JoinFailure::Panicked),
        lost(0, 2, JoinFailure::Cancelled),
        lost(0, 1, JoinFailure::Panicked),
        lost(0, 0, JoinFailure::Cancelled),
    ];
    let (found, log) = JoinHandleLock::solve(names(&["A"]), 3, events);
    assert_eq!(found, None);
    assert_eq!(spawned(&log, 0), 4);
    assert_eq!(log.len(), 4);
}

#[test]
fn handles_success_on_the_third_attempt() {
    let (found, log) = JoinHandleLock::solve(
        names(&["A"]),
        3,
        vec![disconnected(0, 3, "A"), disconnected(0, 2, "A"), delivered(0, 1, "A")],
    );
    assert_eq!(found, Some(Binary { from: name("A") }));
    assert_eq!(log, vec![spawn(0, 3, "A"), spawn(0, 2, "A"), spawn(0, 1, "A")]);
}

#[test]
fn handles_no_repositories_no_commands() {
    for budget in [0, 1, 3, usize::MAX] {
        let (found, log) =
            JoinHandleLock::solve(Vec::new(), budget, vec![delivered(0, budget, "A")]);
        assert_eq!(found, None);
        assert!(log.is_empty());
    }
}

#[test]
fn handles_budget_zero_never_retries() {
    let (found, log) = JoinHandleLock::solve(
        names(&["A", "B"]),
        0,
        vec![disconnected(0, 0, "A"), delivered(1, 0, "B")],
    );
    assert_eq!(found, Some(Binary { from: name("B") }));
    assert_eq!(log, vec![spawn(0, 0, "A"), spawn(1, 0, "B")]);
}

#[test]
fn handles_a_completion_of_an_unknown_download_changes_nothing() {
    let (mut race, _) = JoinHandleLock::begin(names(&["A", "B"]), 1);
    assert!(race.step(delivered(2, 1, "C")).is_empty());
    assert!(race.step(delivered(0, 0, "A")).is_empty());
    assert!(race.step(disconnected(1, 3, "B")).is_empty());
    assert!(!race.finished());
    assert_eq!(race.awaited(), vec![id(0, 1), id(1, 1)]);
}

#[test]
fn handles_a_completion_is_taken_once() {
    let (mut race, _) = JoinHandleLock::begin(names(&["A"]), 2);
    assert_eq!(race.step(disconnected(0, 2, "A")), vec![spawn(0, 1, "A")]);
    assert!(race.step(disconnected(0, 2, "A")).is_empty());
    assert!(race.step(delivered(0, 2, "A")).is_empty());
    assert_eq!(race.awaited(), vec![id(0, 1)]);
}

#[test]
fn handles_nothing_is_spawned_after_the_winner() {
    let (found, log) = JoinHandleLock::solve(
        names(&["A", "B"]),
        3,
        vec![
            disconnected(0, 3, "A"),
            delivered(1, 3, "B"),
            disconnected(0, 2, "A"),
            delivered(0, 2, "A"),
        ],
    );
    assert_eq!(found, Some(Binary { from: name("B") }));
    assert_eq!(log, vec![spawn(0, 3, "A"), spawn(1, 3, "B"), spawn(0, 2, "A"), abort(0, 2)]);
}

#[test]
fn handles_same_name_twice_is_two_downloads() {
    let events = vec![
        disconnected(0, 1, "A"),
        disconnected(1, 1, "A"),
        disconnected(1, 0, "A"),
        disconnected(0, 0, "A"),
    ];
    let (found, log) = JoinHandleLock::solve(names(&["A", "A"]), 1, events);
    assert_eq!(found, None);
    assert_eq!(spawned(&log, 0), 2);
    assert_eq!(spawned(&log, 1), 2);
}

#[test]
fn handles_record_that_ends_early_cancels_the_race() {
    let (found, log) =
        JoinHandleLock::solve(names(&["A", "B"]), 3, vec![disconnected(0, 3, "A")]);
    assert_eq!(found, None);
    assert_eq!(
        log,
        vec![spawn(0, 3, "A"), spawn(1, 3, "B"), spawn(0, 2, "A"), abort(1, 3), abort(0, 2)]
    );
}

#[test]
fn handles_step_by_step() {
    let (mut race, commands) = JoinHandleLock::begin(names(&["A", "B", "C"]), 1);
    assert_eq!(commands, vec![spawn(0, 1, "A"), spawn(1, 1, "B"), spawn(2, 1, "C")]);
    assert_eq!(race.awaited(), vec![id(0, 1), id(1, 1), id(2, 1)]);

    let commands = race.step(disconnected(1, 1, "B"));
    assert_eq!(commands, vec![spawn(1, 0, "B")]);
    assert_eq!(race.awaited(), vec![id(0, 1), id(2, 1), id(1, 0)]);

    let commands = race.step(lost(1, 0, JoinFailure::Panicked));
    assert!(commands.is_empty());
    assert!(!race.finished());
    assert_eq!(race.awaited(), vec![id(0, 1), id(2, 1)]);

    let commands = race.step(delivered(2, 1, "C"));
    assert_eq!(commands, vec![abort(0, 1)]);
    assert!(race.finished());
    assert!(race.awaited().is_empty());

    assert!(race.step(delivered(0, 1, "A")).is_empty());
    assert_eq!(race.into_result(), Some(Binary { from: name("C") }));
}

#[test]
fn handles_cancel_aborts_what_is_left() {
    let (mut race, _) = JoinHandleLock::begin(names(&["A", "B", "C"]), 2);
    let _ = race.step(disconnected(0, 2, "A"));
    let commands = race.cancel();
    assert_eq!(commands, vec![abort(1, 2), abort(2, 2), abort(0, 1)]);
    assert!(race.finished());
    assert_eq!(race.into_result(), None);
}
