use concurrency_exercise_01::coordinator::{Command, Coordinator, TaskId};
use concurrency_exercise_01::solution::Solution;
use concurrency_exercise_01::statement::{Binary, ServerError, ServerName};
use concurrency_exercise_01::std_futures::{JoinTasks, Polled, StdFutures};

type Answer = Polled<Result<Binary, ServerError>>;

fn name(text: &str) -> ServerName {
    ServerName(text.to_string())
}

fn names(texts: &[&str]) -> Vec<ServerName> {
    texts.iter().map(|text| name(text)).collect()
}

fn delivered(text: &str) -> Answer {
    Polled::Ready(Ok(Binary { from: name(text) }))
}

fn disconnected(text: &str) -> Answer {
    Polled::Ready(Err(ServerError::Disconnected(name(text))))
}

fn spawn(source: usize, retries_left: usize, text: &str) -> Command {
    Command::Spawn { task: TaskId { source, retries_left }, server_name: name(text) }
}

fn abort(source: usize, retries_left: usize) -> Command {
    Command::Abort { task: TaskId { source, retries_left } }
}

fn spawned(log: &[Command], source: usize) -> usize {
    log.iter()
        .filter(|command| matches!(command, Command::Spawn { task, .. } if task.source == source))
        .count()
}

#[test]
fn rounds_first_ready_binary_wins_and_the_others_are_aborted() {
    let (found, log) =
        StdFutures::solve(names(&["A", "B", "C"]), 3, vec![vec![delivered("A")]]);
    assert_eq!(found, Some(Binary { from: name("A") }));
    assert_eq!(
        log,
        vec![spawn(0, 3, "A"), spawn(1, 3, "B"), spawn(2, 3, "C"), abort(1, 3), abort(2, 3)]
    );
}

#[test]
fn rounds_first_in_order_wins_when_several_are_ready() {
    let (found, log) = StdFutures::solve(
        names(&["A", "B", "C"]),
        3,
        vec![vec![Polled::Pending, delivered("B"), delivered("C")]],
    );
    assert_eq!(found, Some(Binary { from: name("B") }));
    assert_eq!(
        log,
        vec![spawn(0, 3, "A"), spawn(1, 3, "B"), spawn(2, 3, "C"), abort(0, 3), abort(2, 3)]
    );
}

#[test]
fn rounds_all_fail_with_budget_three_tries_each_four_times() {
    let mut rounds = Vec::new();
    for _ in 0..4 {
        rounds.push(vec![disconnected("A"), disconnected("B")]);
    }
    let (found, log) = StdFutures::solve(names(&["A", "B"]), 3, rounds);
    assert_eq!(found, None);
    assert_eq!(spawned(&log, 0), 4);
    assert_eq!(spawned(&log, 1), 4);
    assert_eq!(
        log[..6],
        [
            spawn(0, 3, "A"),
            spawn(1, 3, "B"),
            abort(1, 3),
            spawn(1, 2, "B"),
            abort(0, 3),
            spawn(0, 2, "A"),
        ]
    );
    assert_eq!(log[log.len() - 2..], [abort(0, 0), abort(1, 0)]);
    assert_eq!(log.len(), 16);
}

#[test]
fn rounds_success_on_the_third_attempt() {
    let (found, log) = StdFutures::solve(
        names(&["A"]),
        3,
        vec![
            vec![Polled::Pending],
            vec![disconnected("A")],
            vec![],
            vec![disconnected("A")],
            vec![delivered("A")],
        ],
    );
    assert_eq!(found, Some(Binary { from: name("A") }));
    assert_eq!(spawned(&log, 0), 3);
    assert_eq!(
        log,
        vec![
            spawn(0, 3, "A"),
            abort(0, 3),
            spawn(0, 2, "A"),
            abort(0, 2),
            spawn(0, 1, "A"),
        ]
    );
}

#[test]
fn rounds_no_repositories_no_commands() {
    for budget in [0, 1, 3, usize::MAX] {
        let (found, log) = StdFutures::solve(Vec::new(), budget, vec![vec![delivered("A")]]);
        assert_eq!(found, None);
        assert!(log.is_empty());
    }
}

#[test]
fn rounds_budget_zero_never_retries() {
    let (found, log) = StdFutures::solve(
        names(&["A", "B"]),
        0,
        vec![vec![disconnected("A"), Polled::Pending], vec![delivered("B")]],
    );
    assert_eq!(found, Some(Binary { from: name("B") }));
    assert_eq!(log, vec![spawn(0, 0, "A"), spawn(1, 0, "B"), abort(0, 0)]);
}

#[test]
fn rounds_a_failure_before_the_winner_is_not_retried() {
    let (found, log) = StdFutures::solve(
        names(&["A", "B"]),
        3,
        vec![vec![disconnected("A"), delivered("B")]],
    );
    assert_eq!(found, Some(Binary { from: name("B") }));
    assert_eq!(log, vec![spawn(0, 3, "A"), spawn(1, 3, "B"), abort(0, 3)]);
}

#[test]
fn rounds_record_that_ends_early_cancels_the_race() {
    let (found, log) =
        StdFutures::solve(names(&["A", "B"]), 3, vec![vec![disconnected("A")]]);
    assert_eq!(found, None);
    assert_eq!(
        log,
        vec![
            spawn(0, 3, "A"),
            spawn(1, 3, "B"),
            abort(0, 3),
            spawn(0, 2, "A"),
            abort(1, 3),
            abort(0, 2),
        ]
    );
}

#[test]
fn rounds_step_by_step() {
    let (mut race, commands) = StdFutures::begin(names(&["A", "B"]), 1);
    assert_eq!(commands, vec![spawn(0, 1, "A"), spawn(1, 1, "B")]);

    let commands = race.step(vec![Polled::Pending, Polled::Pending]);
    assert!(commands.is_empty());
    assert!(!race.finished());

    let commands = race.step(vec![disconnected("A"), Polled::Pending]);
    assert_eq!(commands, vec![abort(0, 1), spawn(0, 0, "A")]);

    let commands = race.step(vec![Polled::Pending, disconnected("A")]);
    assert_eq!(commands, vec![abort(0, 0)]);
    assert!(!race.finished());

    let commands = race.step(vec![delivered("B")]);
    assert!(commands.is_empty());
    assert!(race.finished());

    assert!(race.step(vec![delivered("A")]).is_empty());
    assert_eq!(race.into_result(), Some(Binary { from: name("B") }));
}

#[test]
fn poll_is_pending_while_downloads_run() {
    let mut outbox = Vec::new();
    let mut tasks = JoinTasks::new(names(&["A", "B"]), 3, &mut outbox);
    assert_eq!(outbox, vec![spawn(0, 3, "A"), spawn(1, 3, "B")]);
    assert!(!tasks.is_empty());
    let mut outbox = Vec::new();
    assert_eq!(tasks.poll(vec![Polled::Pending, Polled::Pending], &mut outbox), Polled::Pending);
    assert!(outbox.is_empty());
}

#[test]
fn poll_is_ready_with_the_binary() {
    let mut outbox = Vec::new();
    let mut tasks = JoinTasks::new(names(&["A", "B"]), 3, &mut outbox);
    let mut outbox = Vec::new();
    assert_eq!(
        tasks.poll(vec![Polled::Pending, delivered("B")], &mut outbox),
        Polled::Ready(Some(Binary { from: name("B") }))
    );
    assert_eq!(outbox, vec![abort(0, 3)]);
    assert!(tasks.is_empty());
}

#[test]
fn poll_is_ready_with_nothing_once_all_retries_are_used() {
    let mut outbox = Vec::new();
    let mut tasks = JoinTasks::new(names(&["A"]), 1, &mut outbox);
    let mut outbox = Vec::new();
    assert_eq!(tasks.poll(vec![disconnected("A")], &mut outbox), Polled::Pending);
    assert_eq!(tasks.poll(vec![disconnected("A")], &mut outbox), Polled::Ready(None));
    assert_eq!(outbox, vec![abort(0, 1), spawn(0, 0, "A"), abort(0, 0)]);
    assert!(tasks.is_empty());
}

#[test]
fn poll_of_no_downloads_is_ready_with_nothing() {
    let mut outbox = Vec::new();
    let mut tasks = JoinTasks::new(Vec::new(), 3, &mut outbox);
    assert!(tasks.is_empty());
    assert_eq!(tasks.poll(vec![delivered("A")], &mut outbox), Polled::Ready(None));
    assert!(outbox.is_empty());
}

#[test]
fn poll_ignores_answers_beyond_the_downloads_held() {
    let mut outbox = Vec::new();
    let mut tasks = JoinTasks::new(names(&["A"]), 3, &mut outbox);
    let mut outbox = Vec::new();
    assert_eq!(
        tasks.poll(vec![Polled::Pending, delivered("B"), disconnected("C")], &mut outbox),
        Polled::Pending
    );
    assert!(outbox.is_empty());
}

#[test]
fn poll_puts_retries_behind_the_rest_last_failure_first() {
    let mut outbox = Vec::new();
    let mut tasks = JoinTasks::new(names(&["A", "B", "C", "D"]), 1, &mut outbox);
    let mut outbox = Vec::new();
    assert_eq!(
        tasks.poll(
            vec![disconnected("A"), Polled::Pending, disconnected("C"), Polled::Pending],
            &mut outbox
        ),
        Polled::Pending
    );
    assert_eq!(
        outbox,
        vec![abort(2, 1), spawn(2, 0, "C"), abort(0, 1), spawn(0, 0, "A")]
    );
    let mut outbox = Vec::new();
    tasks.abort(&mut outbox);
    assert_eq!(outbox, vec![abort(1, 1), abort(3, 1), abort(2, 0), abort(0, 0)]);
    assert!(tasks.is_empty());
}

#[test]
fn awaited_lists_the_downloads_in_polling_order() {
    let (mut race, _) = StdFutures::begin(names(&["A", "B", "C"]), 1);
    assert_eq!(
        race.awaited(),
        vec![
            TaskId { source: 0, retries_left: 1 },
            TaskId { source: 1, retries_left: 1 },
            TaskId { source: 2, retries_left: 1 },
        ]
    );
    let _ = race.step(vec![disconnected("A"), Polled::Pending, Polled::Pending]);
    assert_eq!(
        race.awaited(),
        vec![
            TaskId { source: 1, retries_left: 1 },
            TaskId { source: 2, retries_left: 1 },
            TaskId { source: 0, retries_left: 0 },
        ]
    );
    let _ = race.step(vec![Polled::Pending, delivered("C")]);
    assert!(race.awaited().is_empty());
}

#[test]
fn awaited_of_the_tasks_themselves() {
    let mut outbox = Vec::new();
    let tasks = JoinTasks::new(names(&["A", "B"]), 2, &mut outbox);
    assert_eq!(
        tasks.awaited(),
        vec![TaskId { source: 0, retries_left: 2 }, TaskId { source: 1, retries_left: 2 }]
    );
}

#[test]
fn rounds_cancel_aborts_what_is_left() {
    let (mut race, _) = StdFutures::begin(names(&["A", "B", "C"]), 2);
    let _ = race.step(vec![Polled::Pending, disconnected("B")]);
    let commands = race.cancel();
    assert_eq!(commands, vec![abort(0, 2), abort(2, 2), abort(1, 1)]);
    assert!(race.finished());
    assert!(race.cancel().is_empty());
    assert_eq!(race.into_result(), None);
}
