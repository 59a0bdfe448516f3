use vstd::prelude::*;

use crate::config::WatchTargets;
use crate::difference::{
    Differences, DifferenceView, merge_candidate, comparable, has_partner, partners_unique, preferred, same_pair,
    spec_differences, spec_merge,
};
use crate::history::History;

verus! {

/// What the server is asked over its socket: watch other directories, or
/// stop.
pub enum Command {
    Add(WatchTargets),
    Kill,
}

/// How the number of attached USB devices moved between two looks.
#[derive(Debug, Clone, Copy, PartialEq, Eq, Structural)]
pub enum EventType {
    Add,
    Remove,
    Stay,
}

/// A device came (`Add`), went (`Remove`) or the count held (`Stay`).
pub fn event_type(current_devices: usize, next_devices: usize) -> (e: EventType)
    ensures
        (e == EventType::Add) <==> current_devices < next_devices,
        (e == EventType::Remove) <==> current_devices > next_devices,
        (e == EventType::Stay) <==> current_devices == next_devices,
{
    if current_devices < next_devices {
        EventType::Add
    } else if current_devices > next_devices {
        EventType::Remove
    } else {
        EventType::Stay
    }
}

/// What the server does after a look at the devices.
#[derive(Debug, Clone, Copy, PartialEq, Eq, Structural)]
pub enum ListenAction {
    /// Sleep for the throttle time, then look again.
    Wait,
    /// Synchronise every watched pair whose directories can be read, then
    /// look again.
    SyncAvailable,
}

/// What the watching server remembers between two looks at the devices.
pub struct ListenState {
    pub watch_targets: WatchTargets,
    pub current_devices: usize,
}

impl ListenState {
    /// The state before the first look: the configured targets and the
    /// number of devices attached at start.
    pub fn new(watch_targets: WatchTargets, current_devices: usize) -> (s: ListenState)
        ensures
            s.watch_targets@ == watch_targets@,
            s.current_devices == current_devices,
    {
        ListenState { watch_targets, current_devices }
    }

    /// One turn of the server's loop: targets that arrived over the socket
    /// replace the watched ones, the device count is taken over, and a sync
    /// is due exactly when a device was added.
    pub fn step(&mut self, received: Option<WatchTargets>, next_devices: usize) -> (a: ListenAction)
        ensures
            final(self).current_devices == next_devices,
            received matches Some(t) ==> final(self).watch_targets@ == t@,
            received is None ==> final(self).watch_targets@ == old(self).watch_targets@,
            (a == ListenAction::SyncAvailable) <==> old(self).current_devices < next_devices,
    {
        match received {
            Some(targets) => {
                self.watch_targets = targets;
            },
            None => {},
        }
        let e = event_type(self.current_devices, next_devices);
        self.current_devices = next_devices;
        match e {
            EventType::Add => ListenAction::SyncAvailable,
            _ => ListenAction::Wait,
        }
    }
}

/// What synchronising `a` and `b` brings over: the differences of `a` with
/// `b` merged with those of `b` with `a`. `None` where some file of either
/// history cannot be compared with the other (see `comparable`).
pub fn sync(a_history: &History, b_history: &History) -> (r: Option<Differences>)
    ensures
        r is Some <==> comparable(*a_history, *b_history) && comparable(*b_history, *a_history),
        r matches Some(d) ==> {
            let da = spec_differences(*a_history, *b_history);
            let db = spec_differences(*b_history, *a_history);
            &&& d@.subset_of(da.union(db))
            &&& forall|e: DifferenceView| #[trigger] d@.contains(e) ==> db.contains(e) || exists|
                x: DifferenceView,
            | #[trigger] da.contains(x) && merge_candidate(e, x, db)
            &&& forall|x: DifferenceView| #[trigger] da.contains(x) && !has_partner(x, db) ==> d@.contains(x)
            &&& forall|y: DifferenceView| #[trigger] db.contains(y) && !has_partner(y, da) ==> d@.contains(y)
            &&& forall|x: DifferenceView|
                #[trigger] da.contains(x) && has_partner(x, db) ==> exists|y: DifferenceView|
                    #[trigger] db.contains(y) && same_pair(x, y) && d@.contains(preferred(x, y))
            &&& partners_unique(da, db) ==> d@ == spec_merge(da, db)
        },
{
    let diff_a = match Differences::try_new(a_history, b_history) {
        Some(d) => d,
        None => return None,
    };
    let diff_b = match Differences::try_new(b_history, a_history) {
        Some(d) => d,
        None => return None,
    };
    Some(diff_a.merge_with(diff_b))
}

} // verus!
