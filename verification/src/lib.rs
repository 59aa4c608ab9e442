//! Fetching one artifact from the first of several unreliable servers to
//! answer, with a bounded number of retries per server.
//!
//! The crate holds the decisions of such a race and none of its waiting:
//! a coordinator is a state machine that is told what completed and answers
//! with the tasks to spawn and to abort.
//!
//! - `statement`: servers, binaries and failures.
//! - `download_task`: one server's download and its retries.
//! - `coordinator`: commands, the state of a race, and the state machine
//!   that every coordinator is.
//! - `tokio_channels`, `join_handle_lock`, `std_futures`: three coordinators,
//!   which differ in how completions are reported to them.
//! - `solution`: a whole race in one call, against a record of completions.
//! - `ledger`, `laws`: the counting of downloads, and what is proved of
//!   every race.
//! - `agreement`: where the polling and the channel coordinator agree.

pub mod agreement;
pub mod coordinator;
pub mod download_task;
pub mod join_handle_lock;
pub mod laws;
pub mod ledger;
pub mod solution;
pub mod statement;
pub mod std_futures;
pub mod tokio_channels;
