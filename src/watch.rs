//! Decisions of the task that watches the file.
use vstd::prelude::*;

verus! {

/// A file-system event on the watched path.
#[derive(Debug, Clone, Copy, PartialEq, Eq, Structural)]
pub enum FsEvent {
    Modified,
    DeletedSelf,
    MovedSelf,
    Other,
}

/// What the watcher does about an event.
#[derive(Debug, Clone, Copy, PartialEq, Eq, Structural)]
pub enum WatchAction {
    /// Re-read the length, store it and wake every subscriber.
    Publish,
    /// The feed is gone: end every session and exit.
    Shutdown,
    Ignore,
}

pub open spec fn spec_watch_action(ev: FsEvent) -> WatchAction {
    match ev {
        FsEvent::Modified => WatchAction::Publish,
        FsEvent::DeletedSelf | FsEvent::MovedSelf => WatchAction::Shutdown,
        FsEvent::Other => WatchAction::Ignore,
    }
}

pub fn watch_action(ev: FsEvent) -> (r: WatchAction)
    ensures
        r == spec_watch_action(ev),
{
    match ev {
        FsEvent::Modified => WatchAction::Publish,
        FsEvent::DeletedSelf | FsEvent::MovedSelf => WatchAction::Shutdown,
        FsEvent::Other => WatchAction::Ignore,
    }
}

} // verus!
