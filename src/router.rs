use vstd::prelude::*;

use crate::config::{registered, ConfigSnapshot, RawEvent, WatcherMapping};
use crate::paths::{lies_under, path_starts_with};

verus! {

/// What the router decides for one raw event.
#[derive(PartialEq, Eq, Structural, Clone, Copy, Debug)]
pub enum RoutingOutcome {
    /// Hand the event to the worker of the source of `watchers[watcher]`,
    /// with that mapping's `local_path` as its base.
    Dispatch { watcher: usize },
    /// Nothing to do: no path, no covering root, or a root still in its
    /// first synchronisation.
    Ignore,
    /// The configuration has drifted (root gone from disk, or unknown
    /// source): the snapshot must be revalidated.
    Anomaly,
}

/// `watchers[i]` has a root that `path` lies under.
pub open spec fn covers(ws: Seq<WatcherMapping>, path: Seq<char>, i: int) -> bool {
    0 <= i < ws.len() && path_starts_with(path, ws[i].local_path@)
}

/// `watchers[i]` is the most specific root covering `path`: no covering root
/// is longer, and every covering root before it is shorter.
pub open spec fn most_specific(ws: Seq<WatcherMapping>, path: Seq<char>, i: int) -> bool {
    &&& covers(ws, path, i)
    &&& forall|j: int| #[trigger]
        covers(ws, path, j) ==> ws[j].local_path@.len() <= ws[i].local_path@.len()
    &&& forall|j: int|
        0 <= j < i && #[trigger] covers(ws, path, j) ==> ws[j].local_path@.len()
            < ws[i].local_path@.len()
}

/// The root of `watchers[i]` is known to exist on disk.
pub open spec fn root_present(present: Seq<bool>, i: int) -> bool {
    0 <= i < present.len() && present[i]
}

/// The routing decision for an event with the given paths.
pub open spec fn route_of(snap: ConfigSnapshot, present: Seq<bool>, paths: Seq<String>) -> RoutingOutcome {
    let ws = snap.watchers@;
    if paths.len() == 0 {
        RoutingOutcome::Ignore
    } else if exists|i: int| most_specific(ws, paths[0]@, i) {
        let i = choose|i: int| most_specific(ws, paths[0]@, i);
        if !ws[i].complete {
            RoutingOutcome::Ignore
        } else if !root_present(present, i) {
            RoutingOutcome::Anomaly
        } else if !registered(snap.sources@, ws[i].source_id@) {
            RoutingOutcome::Anomaly
        } else {
            RoutingOutcome::Dispatch { watcher: i as usize }
        }
    } else {
        RoutingOutcome::Ignore
    }
}

/// At most one root is the most specific for a path.
pub proof fn lemma_most_specific_unique(ws: Seq<WatcherMapping>, path: Seq<char>, i: int, j: int)
    requires
        most_specific(ws, path, i),
        most_specific(ws, path, j),
    ensures
        i == j,
{
    if i < j {
        assert(covers(ws, path, i));
    } else if j < i {
        assert(covers(ws, path, j));
    }
}

/// The index of the most specific watcher whose root `path` lies under.
pub fn get_source_by_path(config: &ConfigSnapshot, path: &String) -> (r: Option<usize>)
    ensures
        match r {
            None => forall|j: int| !#[trigger] covers(config.watchers@, path@, j),
            Some(i) => most_specific(config.watchers@, path@, i as int),
        },
{
    let ghost ws = config.watchers@;
    let mut best: Option<usize> = None;
    let mut best_len: usize = 0;
    let mut k: usize = 0;
    while k < config.watchers.len()
        invariant
            ws == config.watchers@,
            k <= ws.len(),
            match best {
                None => forall|j: int| 0 <= j < k ==> !#[trigger] covers(ws, path@, j),
                Some(b) => {
                    &&& b < k
                    &&& covers(ws, path@, b as int)
                    &&& best_len == ws[b as int].local_path@.len()
                    &&& forall|j: int|
                        0 <= j < k && #[trigger] covers(ws, path@, j) ==> ws[j].local_path@.len()
                            <= best_len
                    &&& forall|j: int|
                        0 <= j < b && #[trigger] covers(ws, path@, j) ==> ws[j].local_path@.len()
                            < best_len
                },
            },
        decreases ws.len() - k,
    {
        let w = &config.watchers[k];
        if lies_under(path, &w.local_path) {
            let len = w.local_path.as_str().unicode_len();
            match best {
                None => {
                    best = Some(k);
                    best_len = len;
                },
                Some(_) => {
                    if len > best_len {
                        best = Some(k);
                        best_len = len;
                    }
                },
            }
        }
        k = k + 1;
    }
    best
}

/// Routes one raw event against a snapshot; `present[i]` tells whether the
/// root of `watchers[i]` exists on disk.
pub fn route(snapshot: &ConfigSnapshot, present: &Vec<bool>, event: &RawEvent) -> (r: RoutingOutcome)
    ensures
        r == route_of(*snapshot, present@, event.paths@),
{
    if event.paths.len() == 0 {
        return RoutingOutcome::Ignore;
    }
    let ghost ws = snapshot.watchers@;
    let ghost path = event.paths@[0]@;
    match get_source_by_path(snapshot, &event.paths[0]) {
        None => {
            assert forall|i: int| !most_specific(ws, path, i) by {
                if most_specific(ws, path, i) {
                    assert(covers(ws, path, i));
                }
            }
            RoutingOutcome::Ignore
        },
        Some(i) => {
            proof {
                let c = choose|c: int| most_specific(ws, path, c);
                lemma_most_specific_unique(ws, path, i as int, c);
            }
            let w = &snapshot.watchers[i];
            if !w.complete {
                RoutingOutcome::Ignore
            } else if i >= present.len() || !present[i] {
                RoutingOutcome::Anomaly
            } else if !snapshot.has_source(&w.source_id) {
                RoutingOutcome::Anomaly
            } else {
                RoutingOutcome::Dispatch { watcher: i }
            }
        },
    }
}

} // verus!

verus! {

/// A `Dispatch` outcome names the most specific root covering the event's
/// first path, and only when that root has finished its first
/// synchronisation, exists on disk and belongs to a registered source.
pub proof fn lemma_dispatch_requires_ready_root(
    snap: ConfigSnapshot,
    present: Seq<bool>,
    paths: Seq<String>,
    w: usize,
)
    requires
        snap.watchers@.len() <= usize::MAX,
        route_of(snap, present, paths) == (RoutingOutcome::Dispatch { watcher: w }),
    ensures
        paths.len() > 0,
        most_specific(snap.watchers@, paths[0]@, w as int),
        snap.watchers@[w as int].complete,
        root_present(present, w as int),
        registered(snap.sources@, snap.watchers@[w as int].source_id@),
{
    let ws = snap.watchers@;
    let c = choose|c: int| most_specific(ws, paths[0]@, c);
    assert(c == w as int);
}

/// An event whose first path lies under root `i`, where every other root it
/// lies under is shorter (nested roots `/a` and `/a/b` for `/a/b/c`, or no
/// other root at all), goes to the source of `i` once that root is ready.
pub proof fn lemma_route_to_most_specific(
    snap: ConfigSnapshot,
    present: Seq<bool>,
    paths: Seq<String>,
    i: int,
)
    requires
        paths.len() > 0,
        covers(snap.watchers@, paths[0]@, i),
        forall|j: int|
            j != i && #[trigger] covers(snap.watchers@, paths[0]@, j)
                ==> snap.watchers@[j].local_path@.len() < snap.watchers@[i].local_path@.len(),
        snap.watchers@[i].complete,
        root_present(present, i),
        registered(snap.sources@, snap.watchers@[i].source_id@),
    ensures
        route_of(snap, present, paths) == (RoutingOutcome::Dispatch { watcher: i as usize }),
{
    let ws = snap.watchers@;
    let path = paths[0]@;
    assert(most_specific(ws, path, i));
    let c = choose|c: int| most_specific(ws, path, c);
    lemma_most_specific_unique(ws, path, i, c);
}

/// An event whose most specific root is still in its first synchronisation
/// is ignored: never dispatched, never an anomaly.
pub proof fn lemma_incomplete_root_ignored(
    snap: ConfigSnapshot,
    present: Seq<bool>,
    paths: Seq<String>,
    i: int,
)
    requires
        paths.len() > 0,
        most_specific(snap.watchers@, paths[0]@, i),
        !snap.watchers@[i].complete,
    ensures
        route_of(snap, present, paths) == RoutingOutcome::Ignore,
{
    let ws = snap.watchers@;
    let c = choose|c: int| most_specific(ws, paths[0]@, c);
    lemma_most_specific_unique(ws, paths[0]@, i, c);
}

} // verus!
