use vstd::prelude::*;

use crate::config::{ConfigSnapshot, RawEvent};
use crate::dispatch::DispatchTable;
use crate::router::{lemma_dispatch_requires_ready_root, route, route_of, RoutingOutcome};

verus! {

/// One routed event to hand over: event `event` of the batch goes to the
/// worker of the source of `watchers[watcher]`, with that mapping's
/// `local_path` as its base. `create` tells that no worker exists for the
/// source yet, so one must be started for it first.
#[derive(PartialEq, Eq, Structural, Clone, Copy, Debug)]
pub struct Delivery {
    pub event: usize,
    pub watcher: usize,
    pub create: bool,
}

/// What one batch asks of the dispatch table and the configuration store.
pub struct BatchPlan {
    /// The deliveries, in the order of the events in the batch.
    pub deliveries: Vec<Delivery>,
    /// Some event showed configuration drift: revalidate after the batch.
    pub revalidate: bool,
}

/// The source identifier of `watchers[w]`.
pub open spec fn source_of(snap: ConfigSnapshot, w: usize) -> Seq<char> {
    snap.watchers@[w as int].source_id@
}

/// The deliveries for a batch, given the sources that already have a worker.
pub open spec fn planned(
    table: Seq<Seq<char>>,
    snap: ConfigSnapshot,
    present: Seq<bool>,
    events: Seq<RawEvent>,
) -> Seq<Delivery>
    decreases events.len(),
{
    if events.len() == 0 {
        Seq::empty()
    } else {
        let prev = planned(table, snap, present, events.drop_last());
        match route_of(snap, present, events.last().paths@) {
            RoutingOutcome::Dispatch { watcher } => {
                let id = source_of(snap, watcher);
                let fresh = !table.contains(id) && forall|k: int|
                    0 <= k < prev.len() ==> source_of(snap, #[trigger] prev[k].watcher) != id;
                prev.push(Delivery { event: (events.len() - 1) as usize, watcher, create: fresh })
            },
            _ => prev,
        }
    }
}

/// Some event of the batch is an anomaly.
pub open spec fn needs_revalidation(
    snap: ConfigSnapshot,
    present: Seq<bool>,
    events: Seq<RawEvent>,
) -> bool {
    exists|i: int|
        0 <= i < events.len() && route_of(snap, present, #[trigger] events[i].paths@)
            == RoutingOutcome::Anomaly
}

/// Routes every event of a batch against one snapshot and decides, for each
/// routed event, whether its source still needs a worker. `table` holds the
/// live workers; `present[i]` tells whether the root of `watchers[i]` exists.
pub fn plan_batch<W>(
    table: &DispatchTable<W>,
    snapshot: &ConfigSnapshot,
    present: &Vec<bool>,
    events: &Vec<RawEvent>,
) -> (r: BatchPlan)
    requires
        table.wf(),
    ensures
        r.deliveries@ == planned(table@, *snapshot, present@, events@),
        r.revalidate == needs_revalidation(*snapshot, present@, events@),
{
    let ghost snap = *snapshot;
    let mut deliveries: Vec<Delivery> = Vec::new();
    let mut revalidate = false;
    let mut k: usize = 0;
    assert(events@.take(0) =~= Seq::<RawEvent>::empty());
    while k < events.len()
        invariant
            k <= events@.len(),
            table.wf(),
            snap == *snapshot,
            deliveries@ == planned(table@, snap, present@, events@.take(k as int)),
            forall|j: int|
                0 <= j < deliveries@.len() ==> (#[trigger] deliveries@[j]).watcher
                    < snapshot.watchers@.len(),
            revalidate == exists|i: int|
                0 <= i < k && route_of(snap, present@, #[trigger] events@[i].paths@)
                    == RoutingOutcome::Anomaly,
        decreases events@.len() - k,
    {
        assert(events@.take(k + 1).drop_last() =~= events@.take(k as int));
        assert(events@.take(k + 1).last() == events@[k as int]);
        let outcome = route(snapshot, present, &events[k]);
        match outcome {
            RoutingOutcome::Dispatch { watcher } => {
                let n_watchers = snapshot.watchers.len();
                proof {
                    lemma_dispatch_requires_ready_root(snap, present@, events@[k as int].paths@, watcher);
                }
                let id = &snapshot.watchers[watcher].source_id;
                let mut fresh = match table.position(id) {
                    Some(_) => false,
                    None => true,
                };
                let mut j: usize = 0;
                while j < deliveries.len()
                    invariant
                        j <= deliveries@.len(),
                        table.wf(),
                        snap == *snapshot,
                        id@ == source_of(snap, watcher),
                        forall|m: int|
                            0 <= m < deliveries@.len() ==> (#[trigger] deliveries@[m]).watcher
                                < snapshot.watchers@.len(),
                        fresh == (!table@.contains(id@) && forall|m: int|
                            0 <= m < j ==> source_of(snap, #[trigger] deliveries@[m].watcher)
                                != id@),
                    decreases deliveries@.len() - j,
                {
                    if snapshot.watchers[deliveries[j].watcher].source_id == *id {
                        fresh = false;
                    }
                    j = j + 1;
                }
                deliveries.push(Delivery { event: k, watcher, create: fresh });
            },
            RoutingOutcome::Anomaly => {
                revalidate = true;
            },
            RoutingOutcome::Ignore => {},
        }
        k = k + 1;
    }
    assert(events@.take(k as int) =~= events@);
    BatchPlan { deliveries, revalidate }
}

} // verus!

verus! {

proof fn lemma_planned_extends(
    table: Seq<Seq<char>>,
    snap: ConfigSnapshot,
    present: Seq<bool>,
    events: Seq<RawEvent>,
)
    requires
        events.len() > 0,
    ensures
        ({
            let p = planned(table, snap, present, events);
            let prev = planned(table, snap, present, events.drop_last());
            &&& prev.len() <= p.len() <= prev.len() + 1
            &&& forall|a: int| 0 <= a < prev.len() ==> p[a] == prev[a]
        }),
{
}

/// Delivery `a` of `p` goes to a source that has no worker in the table and
/// that no earlier delivery of `p` went to.
pub open spec fn first_without_worker(
    table: Seq<Seq<char>>,
    snap: ConfigSnapshot,
    p: Seq<Delivery>,
    a: int,
) -> bool {
    &&& !table.contains(source_of(snap, p[a].watcher))
    &&& forall|k: int|
        0 <= k < a ==> source_of(snap, #[trigger] p[k].watcher) != source_of(snap, p[a].watcher)
}

/// A delivery starts a worker exactly when its source has none in the table
/// and no earlier delivery of the batch went to the same source.
pub proof fn lemma_create_flags(
    table: Seq<Seq<char>>,
    snap: ConfigSnapshot,
    present: Seq<bool>,
    events: Seq<RawEvent>,
)
    ensures
        forall|a: int|
            0 <= a < planned(table, snap, present, events).len() ==> (#[trigger] planned(
                table,
                snap,
                present,
                events,
            )[a]).create == first_without_worker(
                table,
                snap,
                planned(table, snap, present, events),
                a,
            ),
    decreases events.len(),
{
    if events.len() > 0 {
        lemma_create_flags(table, snap, present, events.drop_last());
        lemma_planned_extends(table, snap, present, events);
        let p = planned(table, snap, present, events);
        let prev = planned(table, snap, present, events.drop_last());
        assert forall|a: int| 0 <= a < p.len() implies (#[trigger] p[a]).create
            == first_without_worker(table, snap, p, a) by {
            assert forall|k: int| 0 <= k < a && k < prev.len() implies p[k] == prev[k] by {}
            if a < prev.len() {
                assert(p[a] == prev[a]);
                assert(first_without_worker(table, snap, p, a) == first_without_worker(
                    table,
                    snap,
                    prev,
                    a,
                ));
            }
        }
    }
}

proof fn lemma_source_served(
    table: Seq<Seq<char>>,
    snap: ConfigSnapshot,
    present: Seq<bool>,
    events: Seq<RawEvent>,
    a: int,
)
    requires
        0 <= a < planned(table, snap, present, events).len(),
        !table.contains(source_of(snap, planned(table, snap, present, events)[a].watcher)),
    ensures
        ({
            let p = planned(table, snap, present, events);
            exists|k: int|
                0 <= k <= a && (#[trigger] p[k]).create && source_of(snap, p[k].watcher)
                    == source_of(snap, p[a].watcher)
        }),
    decreases a,
{
    let p = planned(table, snap, present, events);
    lemma_create_flags(table, snap, present, events);
    if p[a].create {
        assert(p[a].create);
    } else {
        let k = choose|k: int|
            0 <= k < a && source_of(snap, #[trigger] p[k].watcher) == source_of(snap, p[a].watcher);
        lemma_source_served(table, snap, present, events, k);
    }
}

/// One worker per source: a delivery only starts a worker for a source that
/// has none in the table, no two deliveries of a batch start workers for the
/// same source, and every source reached by a delivery has a worker by then,
/// either from the table or started by an earlier or the same delivery.
pub proof fn lemma_one_worker_per_source(
    table: Seq<Seq<char>>,
    snap: ConfigSnapshot,
    present: Seq<bool>,
    events: Seq<RawEvent>,
)
    ensures
        ({
            let p = planned(table, snap, present, events);
            &&& forall|a: int|
                0 <= a < p.len() && (#[trigger] p[a]).create ==> !table.contains(
                    source_of(snap, p[a].watcher),
                )
            &&& forall|a: int, b: int|
                0 <= a < b < p.len() && (#[trigger] p[a]).create && (#[trigger] p[b]).create
                    ==> source_of(snap, p[a].watcher) != source_of(snap, p[b].watcher)
            &&& forall|a: int|
                0 <= a < p.len() && !table.contains(source_of(snap, (#[trigger] p[a]).watcher))
                    ==> exists|k: int|
                    0 <= k <= a && (#[trigger] p[k]).create && source_of(snap, p[k].watcher)
                        == source_of(snap, p[a].watcher)
        }),
{
    let p = planned(table, snap, present, events);
    lemma_create_flags(table, snap, present, events);
    assert forall|a: int, b: int|
        0 <= a < b < p.len() && (#[trigger] p[a]).create && (#[trigger] p[b]).create implies source_of(
        snap,
        p[a].watcher,
    ) != source_of(snap, p[b].watcher) by {
        assert(p[b].create);
    }
    assert forall|a: int|
        0 <= a < p.len() && !table.contains(source_of(snap, (#[trigger] p[a]).watcher)) implies exists|
        k: int,
    |
        0 <= k <= a && (#[trigger] p[k]).create && source_of(snap, p[k].watcher) == source_of(
            snap,
            p[a].watcher,
        ) by {
        lemma_source_served(table, snap, present, events, a);
    }
}

/// Deliveries keep the order of the batch: each names an event of the batch,
/// and a later delivery names a later event. So the events that reach one
/// worker arrive in the order in which they came.
pub proof fn lemma_batch_order_kept(
    table: Seq<Seq<char>>,
    snap: ConfigSnapshot,
    present: Seq<bool>,
    events: Seq<RawEvent>,
)
    requires
        events.len() <= usize::MAX,
    ensures
        ({
            let p = planned(table, snap, present, events);
            &&& forall|a: int| 0 <= a < p.len() ==> (#[trigger] p[a]).event < events.len()
            &&& forall|a: int, b: int|
                0 <= a < b < p.len() ==> (#[trigger] p[a]).event < (#[trigger] p[b]).event
        }),
    decreases events.len(),
{
    if events.len() > 0 {
        lemma_batch_order_kept(table, snap, present, events.drop_last());
        lemma_planned_extends(table, snap, present, events);
        let p = planned(table, snap, present, events);
        let prev = planned(table, snap, present, events.drop_last());
        assert forall|a: int, b: int| 0 <= a < b < p.len() implies (#[trigger] p[a]).event < (
        #[trigger] p[b]).event by {
            assert(p[a] == prev[a]);
            if b < prev.len() {
                assert(p[b] == prev[b]);
            }
        }
        assert forall|a: int| 0 <= a < p.len() implies (#[trigger] p[a]).event < events.len() by {
            if a < prev.len() {
                assert(p[a] == prev[a]);
            }
        }
    }
}

/// A non-empty batch made only of anomalies delivers nothing, so starts no
/// worker, and asks for revalidation.
pub proof fn lemma_anomalies_only(
    table: Seq<Seq<char>>,
    snap: ConfigSnapshot,
    present: Seq<bool>,
    events: Seq<RawEvent>,
)
    requires
        events.len() > 0,
        forall|i: int|
            0 <= i < events.len() ==> route_of(snap, present, #[trigger] events[i].paths@)
                == RoutingOutcome::Anomaly,
    ensures
        planned(table, snap, present, events).len() == 0,
        needs_revalidation(snap, present, events),
    decreases events.len(),
{
    assert(route_of(snap, present, events[0].paths@) == RoutingOutcome::Anomaly);
    let prev = events.drop_last();
    if prev.len() > 0 {
        assert forall|i: int| 0 <= i < prev.len() implies route_of(snap, present, #[trigger] prev[i].paths@)
            == RoutingOutcome::Anomaly by {
            assert(prev[i] == events[i]);
        }
        lemma_anomalies_only(table, snap, present, prev);
    } else {
        assert(planned(table, snap, present, prev).len() == 0);
    }
    assert(events.last() == events[events.len() - 1]);
    assert(route_of(snap, present, events[events.len() - 1].paths@) == RoutingOutcome::Anomaly);
}

/// Routing holds no hidden state: the same batch against the same snapshot
/// yields the same events for the same watchers, whatever workers are live;
/// the table only decides which deliveries start a worker.
pub proof fn lemma_routing_ignores_table(
    table1: Seq<Seq<char>>,
    table2: Seq<Seq<char>>,
    snap: ConfigSnapshot,
    present: Seq<bool>,
    events: Seq<RawEvent>,
)
    ensures
        ({
            let p1 = planned(table1, snap, present, events);
            let p2 = planned(table2, snap, present, events);
            &&& p1.len() == p2.len()
            &&& forall|a: int|
                0 <= a < p1.len() ==> (#[trigger] p1[a]).event == p2[a].event && p1[a].watcher
                    == p2[a].watcher
        }),
    decreases events.len(),
{
    if events.len() > 0 {
        lemma_routing_ignores_table(table1, table2, snap, present, events.drop_last());
        lemma_planned_extends(table1, snap, present, events);
        lemma_planned_extends(table2, snap, present, events);
        let p1 = planned(table1, snap, present, events);
        let p2 = planned(table2, snap, present, events);
        let q1 = planned(table1, snap, present, events.drop_last());
        let q2 = planned(table2, snap, present, events.drop_last());
        assert forall|a: int| 0 <= a < p1.len() implies (#[trigger] p1[a]).event == p2[a].event
            && p1[a].watcher == p2[a].watcher by {
            if a < q1.len() {
                assert(p1[a] == q1[a] && p2[a] == q2[a]);
            }
        }
    }
}

} // verus!
