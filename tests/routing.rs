use sherry::batch::{plan_batch, Delivery};
use sherry::config::{ConfigSnapshot, RawEvent, WatcherMapping};
use sherry::dispatch::DispatchTable;
use sherry::helpers::{join_parts, normalize_path, str_err_prefix};
use sherry::router::{get_source_by_path, route, RoutingOutcome};

fn watcher(path: &str, source: &str, complete: bool) -> WatcherMapping {
    WatcherMapping { local_path: path.to_string(), source_id: source.to_string(), complete }
}

fn snapshot(watchers: Vec<WatcherMapping>, sources: &[&str]) -> ConfigSnapshot {
    ConfigSnapshot { watchers, sources: sources.iter().map(|s| s.to_string()).collect() }
}

fn event(path: &str) -> RawEvent {
    RawEvent { paths: vec![path.to_string()] }
}

#[test]
fn single_event_dispatches_to_its_source() {
    let snap = snapshot(vec![watcher("/sync/docs", "S1", true)], &["S1"]);
    let table: DispatchTable<u32> = DispatchTable::new();
    let plan = plan_batch(&table, &snap, &vec![true], &vec![event("/sync/docs/a.txt")]);
    assert_eq!(plan.deliveries, vec![Delivery { event: 0, watcher: 0, create: true }]);
    assert!(!plan.revalidate);
}

#[test]
fn deleted_root_is_an_anomaly() {
    let snap = snapshot(vec![watcher("/sync/docs", "S1", true)], &["S1"]);
    let table: DispatchTable<u32> = DispatchTable::new();
    let batch = vec![event("/sync/docs/a.txt")];
    assert_eq!(route(&snap, &vec![false], &batch[0]), RoutingOutcome::Anomaly);
    let plan = plan_batch(&table, &snap, &vec![false], &batch);
    assert!(plan.deliveries.is_empty());
    assert!(plan.revalidate);
}

#[test]
fn incomplete_root_is_ignored() {
    let snap = snapshot(vec![watcher("/sync/docs", "S1", false)], &["S1"]);
    let table: DispatchTable<u32> = DispatchTable::new();
    let batch = vec![event("/sync/docs/a.txt")];
    assert_eq!(route(&snap, &vec![true], &batch[0]), RoutingOutcome::Ignore);
    let plan = plan_batch(&table, &snap, &vec![true], &batch);
    assert!(plan.deliveries.is_empty());
    assert!(!plan.revalidate);
}

#[test]
fn incomplete_root_ignored_even_when_missing_or_unregistered() {
    let snap = snapshot(vec![watcher("/sync/docs", "S9", false)], &["S1"]);
    assert_eq!(route(&snap, &vec![false], &event("/sync/docs/a.txt")), RoutingOutcome::Ignore);
}

#[test]
fn nested_roots_route_to_the_most_specific() {
    let snap = snapshot(vec![watcher("/a", "A", true), watcher("/a/b", "B", true)], &["A", "B"]);
    let present = vec![true, true];
    assert_eq!(route(&snap, &present, &event("/a/b/c")), RoutingOutcome::Dispatch { watcher: 1 });
    assert_eq!(route(&snap, &present, &event("/a/c")), RoutingOutcome::Dispatch { watcher: 0 });
    let flipped = snapshot(vec![watcher("/a/b", "B", true), watcher("/a", "A", true)], &["A", "B"]);
    assert_eq!(route(&flipped, &present, &event("/a/b/c")), RoutingOutcome::Dispatch { watcher: 0 });
}

#[test]
fn incomplete_nested_root_hides_its_parent() {
    let snap = snapshot(vec![watcher("/a", "A", true), watcher("/a/b", "B", false)], &["A", "B"]);
    assert_eq!(route(&snap, &vec![true, true], &event("/a/b/c")), RoutingOutcome::Ignore);
}

#[test]
fn prefix_is_by_component() {
    let snap = snapshot(vec![watcher("/a", "A", true)], &["A"]);
    assert_eq!(route(&snap, &vec![true], &event("/ab/c")), RoutingOutcome::Ignore);
    assert_eq!(get_source_by_path(&snap, &"/ab/c".to_string()), None);
    assert_eq!(get_source_by_path(&snap, &"/a".to_string()), Some(0));
}

#[test]
fn event_without_path_is_ignored() {
    let snap = snapshot(vec![watcher("/a", "A", true)], &["A"]);
    assert_eq!(route(&snap, &vec![true], &RawEvent { paths: vec![] }), RoutingOutcome::Ignore);
}

#[test]
fn only_first_path_routes() {
    let snap = snapshot(vec![watcher("/a", "A", true)], &["A"]);
    let ev = RawEvent { paths: vec!["/elsewhere/x".to_string(), "/a/x".to_string()] };
    assert_eq!(route(&snap, &vec![true], &ev), RoutingOutcome::Ignore);
}

#[test]
fn unknown_source_is_an_anomaly() {
    let snap = snapshot(vec![watcher("/a", "GONE", true)], &["A"]);
    assert_eq!(route(&snap, &vec![true], &event("/a/x")), RoutingOutcome::Anomaly);
    assert!(!snap.has_source(&"GONE".to_string()));
    assert!(snap.has_source(&"A".to_string()));
}

#[test]
fn missing_presence_flag_counts_as_missing() {
    let snap = snapshot(vec![watcher("/a", "A", true)], &["A"]);
    assert_eq!(route(&snap, &vec![], &event("/a/x")), RoutingOutcome::Anomaly);
}

#[test]
fn one_worker_per_source_in_a_batch() {
    let snap = snapshot(vec![watcher("/a", "A", true), watcher("/b", "B", true)], &["A", "B"]);
    let table: DispatchTable<u32> = DispatchTable::new();
    let batch = vec![event("/a/1"), event("/b/1"), event("/a/2"), event("/a/3")];
    let plan = plan_batch(&table, &snap, &vec![true, true], &batch);
    assert_eq!(
        plan.deliveries,
        vec![
            Delivery { event: 0, watcher: 0, create: true },
            Delivery { event: 1, watcher: 1, create: true },
            Delivery { event: 2, watcher: 0, create: false },
            Delivery { event: 3, watcher: 0, create: false },
        ]
    );
}

#[test]
fn two_roots_of_one_source_share_a_worker() {
    let snap = snapshot(vec![watcher("/a", "S", true), watcher("/b", "S", true)], &["S"]);
    let table: DispatchTable<u32> = DispatchTable::new();
    let plan = plan_batch(&table, &snap, &vec![true, true], &vec![event("/a/1"), event("/b/1")]);
    assert_eq!(plan.deliveries[0].create, true);
    assert_eq!(plan.deliveries[1].create, false);
}

#[test]
fn live_worker_is_reused() {
    let snap = snapshot(vec![watcher("/a", "A", true)], &["A"]);
    let mut table: DispatchTable<u32> = DispatchTable::new();
    assert_eq!(table.install("A".to_string(), 7), Ok(0));
    let plan = plan_batch(&table, &snap, &vec![true], &vec![event("/a/1"), event("/a/2")]);
    assert!(plan.deliveries.iter().all(|d| !d.create));
    assert_eq!(plan.deliveries.len(), 2);
}

#[test]
fn deliveries_keep_batch_order() {
    let snap = snapshot(vec![watcher("/a", "A", true), watcher("/b", "B", true)], &["A", "B"]);
    let table: DispatchTable<u32> = DispatchTable::new();
    let batch = vec![event("/a/3"), event("/x"), event("/b/1"), event("/a/1"), event("/a/2")];
    let plan = plan_batch(&table, &snap, &vec![true, true], &batch);
    let to_a: Vec<usize> = plan.deliveries.iter().filter(|d| d.watcher == 0).map(|d| d.event).collect();
    assert_eq!(to_a, vec![0, 3, 4]);
}

#[test]
fn anomaly_only_batch_creates_nothing_and_revalidates() {
    let snap = snapshot(vec![watcher("/a", "A", true), watcher("/b", "GONE", true)], &["A"]);
    let table: DispatchTable<u32> = DispatchTable::new();
    let plan = plan_batch(&table, &snap, &vec![false, true], &vec![event("/a/1"), event("/b/1")]);
    assert!(plan.deliveries.is_empty());
    assert!(plan.revalidate);
}

#[test]
fn anomaly_does_not_abort_the_batch() {
    let snap = snapshot(vec![watcher("/a", "A", true), watcher("/b", "B", true)], &["A", "B"]);
    let table: DispatchTable<u32> = DispatchTable::new();
    let plan = plan_batch(&table, &snap, &vec![false, true], &vec![event("/a/1"), event("/b/1")]);
    assert_eq!(plan.deliveries, vec![Delivery { event: 1, watcher: 1, create: true }]);
    assert!(plan.revalidate);
}

#[test]
fn same_batch_routes_the_same_twice() {
    let snap = snapshot(vec![watcher("/a", "A", true), watcher("/b", "B", true)], &["A", "B"]);
    let present = vec![true, true];
    let batch = vec![event("/a/1"), event("/b/1"), event("/c")];
    let mut table: DispatchTable<u32> = DispatchTable::new();
    let first = plan_batch(&table, &snap, &present, &batch);
    let again = plan_batch(&table, &snap, &present, &batch);
    assert_eq!(first.deliveries, again.deliveries);
    table.install("A".to_string(), 1).unwrap();
    table.install("B".to_string(), 2).unwrap();
    let later = plan_batch(&table, &snap, &present, &batch);
    let pairs = |p: &Vec<Delivery>| p.iter().map(|d| (d.event, d.watcher)).collect::<Vec<_>>();
    assert_eq!(pairs(&first.deliveries), pairs(&later.deliveries));
    assert!(later.deliveries.iter().all(|d| !d.create));
}

#[test]
fn empty_batch_does_nothing() {
    let snap = snapshot(vec![watcher("/a", "A", true)], &["A"]);
    let table: DispatchTable<u32> = DispatchTable::new();
    let plan = plan_batch(&table, &snap, &vec![true], &vec![]);
    assert!(plan.deliveries.is_empty());
    assert!(!plan.revalidate);
}

#[test]
fn install_refuses_a_second_worker() {
    let mut table: DispatchTable<u32> = DispatchTable::new();
    assert_eq!(table.install("A".to_string(), 1), Ok(0));
    assert_eq!(table.install("A".to_string(), 2), Err(2));
    assert_eq!(table.len(), 1);
    assert_eq!(*table.worker(0), 1);
    assert_eq!(table.position(&"A".to_string()), Some(0));
}

#[test]
fn reap_removes_exactly_the_stopped() {
    let mut table: DispatchTable<u32> = DispatchTable::new();
    table.install("S1".to_string(), 1).unwrap();
    table.install("S2".to_string(), 2).unwrap();
    table.install("S3".to_string(), 3).unwrap();
    table.reap(&vec![true, false, true]);
    assert_eq!(table.len(), 2);
    assert_eq!(table.position(&"S2".to_string()), None);
    assert_eq!(table.position(&"S3".to_string()), Some(1));
    assert_eq!(*table.worker(1), 3);
    table.reap(&vec![true, true]);
    table.reap(&vec![true, true]);
    assert_eq!(table.len(), 2);
    table.reap(&vec![false, false]);
    assert_eq!(table.len(), 0);
    assert_eq!(table.install("S2".to_string(), 4), Ok(0));
}

#[test]
fn error_prefix_format() {
    assert_eq!(str_err_prefix("Error File Open", "denied"), "Error File Open: denied");
    assert_eq!(str_err_prefix("", ""), ": ");
}

#[test]
fn join_with_separator() {
    let parts = vec!["a".to_string(), "b".to_string(), "c".to_string()];
    assert_eq!(join_parts(&parts, "/"), "a/b/c");
    assert_eq!(join_parts(&vec![], "/"), "");
}

#[test]
fn normalize_collapses_separators() {
    assert_eq!(normalize_path(&"/a//b/".to_string()), "/a/b");
    assert_eq!(normalize_path(&"a\\\\b//c".to_string()), "a/b/c");
    assert_eq!(normalize_path(&"/a/./b".to_string()), "/a/b");
}
