//! Access tracking for the files of a repository.
//!
//! The library keeps a log of access events, each the triple of a
//! repository, a path and an instant, and ranks the paths of a repository
//! in three ways: by recency, by frequency, and by frecency, a sum of
//! weights that decay with the age of each access. The frecency of a path
//! is a real number, which the library does not compute: it gathers the
//! accesses to each path, and orders the paths by the keys that its caller
//! computes from them.
//!
//! - [`event`]: the access event.
//! - [`store`]: the event store, with `record` and `forget`.
//! - [`ranking`]: the three rankings and what they go by.
//! - [`journal`]: sequences of operations and their replay.
//! - [`laws`]: what holds of the store and the rankings together.
//! - [`resolver`]: the repository root, from the output of the version
//!   control command.
//! - [`surface`]: which accesses a command records, and how it shows a path.
//! - [`row`]: the stored form of an event.
//! - [`clock`]: the wall clock.
//! - [`text`]: equality and order of texts.
//!
//! Instants are whole microseconds since the Unix epoch.

pub mod clock;
pub mod event;
pub mod journal;
pub mod laws;
pub mod ranking;
pub mod resolver;
pub mod row;
pub mod store;
pub mod surface;
pub mod text;
