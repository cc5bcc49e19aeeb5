//! What the commands decide about paths: which accesses are recorded, and
//! how a ranked path is shown.

use crate::clock::{EARLIEST, LATEST};
use crate::event::EventView;
use crate::store::{record_event, EventStore};
use vstd::prelude::*;

verus! {

/// Whether `base` is a prefix of `path`, whole components only, as
/// `camino::Utf8Path::starts_with` finds it on the platform that the library
/// is built for.
pub uninterp spec fn path_starts_with(path: Seq<char>, base: Seq<char>) -> bool;

/// The relative path that leads from `base` to `path`, where there is one, as
/// `pathdiff::diff_utf8_paths` gives it on the platform that the library is
/// built for.
pub uninterp spec fn path_relative_to(path: Seq<char>, base: Seq<char>) -> Option<Seq<char>>;

/// Calls `camino::Utf8Path::starts_with` on `path`, with `base`.
///
/// Not proved: that the result is what `path_starts_with` names, which is to
/// say that it depends on the two texts alone.
#[verifier::external_body]
fn starts_with(path: &str, base: &str) -> (inside: bool)
    ensures
        inside == path_starts_with(path@, base@),
{
    camino::Utf8Path::new(path).starts_with(base)
}

/// Calls `pathdiff::diff_utf8_paths` with `path` and `base`.
///
/// Not proved: that the result is what `path_relative_to` names, which is to
/// say that it depends on the two texts alone.
#[verifier::external_body]
fn relative_to(path: &str, base: &str) -> (relative: Option<String>)
    ensures
        match relative {
            Some(text) => path_relative_to(path@, base@) == Some(text@),
            None => path_relative_to(path@, base@) is None,
        },
{
    match pathdiff::diff_utf8_paths(path, base) {
        Some(relative) => Some(relative.into_string()),
        None => None,
    }
}

/// What became of an access that was to be recorded.
#[derive(Debug, Clone, Copy, PartialEq, Eq, Structural)]
pub enum Recording {
    /// The store holds the access, made at the instant `at`.
    Recorded { at: i64 },
    /// The path lies outside of the repository: nothing was recorded.
    Outside,
    /// No instant was given and the clock could not be read: nothing was
    /// recorded.
    NoClock,
}

/// Records an access to `path` where the path lies inside of `repository`,
/// and leaves the store as it is where it does not. The access is made at
/// the instant `time` where one is given, else at the instant that the clock
/// shows.
pub fn record_inside(
    store: &mut EventStore,
    repository: &str,
    path: &str,
    time: Option<i64>,
) -> (outcome: Recording)
    ensures
        match outcome {
            Recording::Recorded { at } => {
                &&& path_starts_with(path@, repository@)
                &&& time matches Some(given) ==> at == given
                &&& time is None ==> EARLIEST <= at <= LATEST
                &&& final(store)@ == record_event(
                    old(store)@,
                    EventView { repository: repository@, path: path@, timestamp: at as int },
                )
            },
            Recording::Outside => {
                &&& !path_starts_with(path@, repository@)
                &&& final(store)@ == old(store)@
            },
            Recording::NoClock => {
                &&& path_starts_with(path@, repository@)
                &&& time is None
                &&& final(store)@ == old(store)@
            },
        },
{
    if !starts_with(path, repository) {
        return Recording::Outside;
    }
    match store.record(repository, path, time) {
        Some(at) => Recording::Recorded { at },
        None => Recording::NoClock,
    }
}

/// How a ranked path is shown: as it is where `absolute` is asked for, else
/// relative to `directory`. There is nothing to show where a relative path
/// is asked for and none leads from the directory to the path.
pub fn shown_path(path: &str, directory: &str, absolute: bool) -> (shown: Option<String>)
    ensures
        match shown {
            Some(text) => if absolute {
                text@ == path@
            } else {
                path_relative_to(path@, directory@) == Some(text@)
            },
            None => !absolute && path_relative_to(path@, directory@) is None,
        },
{
    if absolute {
        Some(path.to_owned())
    } else {
        relative_to(path, directory)
    }
}

} // verus!
