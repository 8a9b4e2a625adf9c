use quote_stream::registry::{Endpoint, Registry};

fn ep(port: u16) -> Endpoint {
    Endpoint { host: 0x7f00_0001, port }
}

#[test]
fn upsert_replaces_tickers_and_keeps_one_entry() {
    let mut r = Registry::new(3);
    r.upsert(ep(1), vec![0, 1], 10);
    r.upsert(ep(1), vec![2], 20);
    assert_eq!(r.len(), 1);
    assert_eq!(r.tickers_of(ep(1)), Some(vec![2]));
    assert_eq!(r.snapshot_for(0), Vec::<Endpoint>::new());
    assert_eq!(r.snapshot_for(2), vec![ep(1)]);
}

#[test]
fn later_instant_wins_whatever_the_order() {
    let mut r = Registry::new(3);
    r.upsert(ep(1), vec![0], 20);
    r.upsert(ep(1), vec![1], 10);
    assert_eq!(r.tickers_of(ep(1)), Some(vec![1]));
    assert_eq!(r.evict_stale(25, 5), Vec::<Endpoint>::new());
    assert_eq!(r.evict_stale(26, 5), vec![ep(1)]);
}

#[test]
fn touch_ignores_unknown_endpoints() {
    let mut r = Registry::new(1);
    r.touch(ep(9), 5);
    assert_eq!(r.len(), 0);
    assert!(!r.contains(ep(9)));
}

#[test]
fn sweep_evicts_silent_and_keeps_touched() {
    let mut r = Registry::new(2);
    r.upsert(ep(1), vec![0], 0);
    r.upsert(ep(2), vec![0, 1], 0);
    r.touch(ep(2), 50);
    let gone = r.evict_stale(100, 60);
    assert_eq!(gone, vec![ep(1)]);
    assert!(!r.contains(ep(1)));
    assert!(r.contains(ep(2)));
    assert_eq!(r.snapshot_for(0), vec![ep(2)]);
}

#[test]
fn entry_exactly_at_timeout_survives() {
    let mut r = Registry::new(1);
    r.upsert(ep(1), vec![0], 40);
    assert_eq!(r.evict_stale(100, 60), Vec::<Endpoint>::new());
    assert_eq!(r.evict_stale(101, 60), vec![ep(1)]);
}

#[test]
fn remove_reports_presence() {
    let mut r = Registry::new(1);
    r.upsert(ep(1), vec![0], 1);
    assert!(r.remove(ep(1)));
    assert!(!r.remove(ep(1)));
    assert_eq!(r.len(), 0);
}
