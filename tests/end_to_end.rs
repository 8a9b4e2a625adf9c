use quote_stream::catalog::Catalog;
use quote_stream::client::{subscribe_message, PingAction, PingTracker};
use quote_stream::command::{Command, RequestError};
use quote_stream::error::CommandError;
use quote_stream::generator::{QuoteGenerator, BASE_PRICE, MAX_STEP, MIN_VOLUME, VOLUME_SPAN};
use quote_stream::quote::StockQuote;
use quote_stream::registry::{Endpoint, Registry};
use quote_stream::server::{dispatch, handle_datagram, handle_message, on_disconnect, reply_line, Session};

const CLIENT: Endpoint = Endpoint { host: 0x7f00_0001, port: 9000 };

fn setup() -> (Catalog, Registry, Session) {
    let c = Catalog::load("AAA\nBBB\n", 10).unwrap();
    let r = Registry::new(c.len());
    (c, r, Session::new())
}

#[test]
fn subscribe_then_deliver_and_decode() {
    let (c, mut r, mut s) = setup();
    let res = handle_message(&mut s, &mut r, &c, b"SUBSCRIBE AAA,BBB 127.0.0.1:9000\n", 1);
    assert!(matches!(res, Ok(Command::Subscribe { .. })));
    assert_eq!(reply_line(&res), b"OK\n".to_vec());
    let q = StockQuote { ticker: "AAA".to_string(), price: 10150, volume: 120, timestamp: 1700000000 };
    let d = dispatch(&r, 0, &q);
    assert_eq!(d.targets, vec![CLIENT]);
    assert_eq!(d.payload, b"AAA|101.50|120|1700000000".to_vec());
    let got = StockQuote::from_bytes(&d.payload).unwrap();
    assert_eq!(got.ticker, "AAA");
    assert_eq!(got.price, 10150);
    assert_eq!(got.volume, 120);
    assert_eq!(got.timestamp, 1700000000);
}

#[test]
fn unknown_ticker_is_refused_and_registry_unchanged() {
    let (c, mut r, mut s) = setup();
    let res = handle_message(&mut s, &mut r, &c, b"SUBSCRIBE XYZ 127.0.0.1:9000", 1);
    assert_eq!(res.as_ref().unwrap_err(), &RequestError::Command(CommandError::InvalidTicker("XYZ".to_string())));
    assert_eq!(reply_line(&res), b"ERR invalid ticker: XYZ\n".to_vec());
    assert_eq!(r.len(), 0);
    assert_eq!(s.endpoint, None);
}

#[test]
fn silent_client_gets_no_more_quotes() {
    let (c, mut r, mut s) = setup();
    handle_message(&mut s, &mut r, &c, b"SUBSCRIBE AAA 127.0.0.1:9000", 100).unwrap();
    assert_eq!(r.evict_stale(130, 30), Vec::<Endpoint>::new());
    assert_eq!(r.evict_stale(131, 30), vec![CLIENT]);
    let mut g = QuoteGenerator::new(c.len(), 7);
    for q in g.tick(&c, 131) {
        assert!(q.ticker != "AAA" || dispatch(&r, 0, &q).targets.is_empty());
    }
    assert!(dispatch(&r, 0, &StockQuote { ticker: "AAA".to_string(), price: 1, volume: 1, timestamp: 1 }).targets.is_empty());
}

#[test]
fn pings_keep_a_subscription_alive() {
    let (c, mut r, mut s) = setup();
    handle_message(&mut s, &mut r, &c, b"SUBSCRIBE BBB 127.0.0.1:9000", 100).unwrap();
    handle_message(&mut s, &mut r, &c, b"PING", 120).unwrap();
    assert!(handle_datagram(&mut r, &c, CLIENT, b"PING\n", 125));
    assert!(!handle_datagram(&mut r, &c, CLIENT, b"HELLO", 200));
    assert_eq!(r.evict_stale(150, 30), Vec::<Endpoint>::new());
    assert_eq!(r.evict_stale(156, 30), vec![CLIENT]);
    assert!(handle_datagram(&mut r, &c, CLIENT, b"PING", 157));
    assert!(!r.contains(CLIENT));
}

#[test]
fn unsubscribe_and_disconnect_remove_the_entry() {
    let (c, mut r, mut s) = setup();
    handle_message(&mut s, &mut r, &c, b"SUBSCRIBE AAA 127.0.0.1:9000", 1).unwrap();
    handle_message(&mut s, &mut r, &c, b"UNSUBSCRIBE", 2).unwrap();
    assert_eq!(r.len(), 0);
    handle_message(&mut s, &mut r, &c, b"SUBSCRIBE AAA 127.0.0.1:9000", 3).unwrap();
    on_disconnect(&mut s, &mut r);
    assert_eq!(r.len(), 0);
    assert_eq!(s.endpoint, None);
}

#[test]
fn error_lines_name_the_rule() {
    let (c, mut r, mut s) = setup();
    let res = handle_message(&mut s, &mut r, &c, b"", 1);
    assert_eq!(reply_line(&res), b"ERR empty command\n".to_vec());
    let res = handle_message(&mut s, &mut r, &c, b"SUBSCRIBE AAA", 1);
    assert_eq!(reply_line(&res), b"ERR missing field: endpoint\n".to_vec());
    let res = handle_message(&mut s, &mut r, &c, b"SUBSCRIBE AAA,AAA 1.2.3.4:5", 1);
    assert_eq!(reply_line(&res), b"ERR duplicate tickers\n".to_vec());
    let res = handle_message(&mut s, &mut r, &c, b"JUMP", 1);
    assert_eq!(reply_line(&res), b"ERR unknown command: JUMP\n".to_vec());
}

#[test]
fn generator_walks_within_bounds() {
    let c = Catalog::load("AAA\nBBB\n", 10).unwrap();
    let mut g = QuoteGenerator::new(c.len(), 0);
    let first = g.tick(&c, 1700000000);
    assert_eq!(first.len(), 2);
    assert_eq!(first[0].ticker, "AAA");
    assert_eq!(first[1].ticker, "BBB");
    let mut last: Vec<u64> = Vec::new();
    for q in &first {
        assert_eq!(q.timestamp, 1700000000);
        assert!(q.price.abs_diff(BASE_PRICE) <= MAX_STEP);
        assert!(q.volume >= MIN_VOLUME && (q.volume as u64) < MIN_VOLUME as u64 + VOLUME_SPAN);
        last.push(q.price);
    }
    let second = g.tick(&c, 1700000001);
    for (q, p) in second.iter().zip(last.iter()) {
        assert!(q.price.abs_diff(*p) <= MAX_STEP);
    }
}

#[test]
fn client_builds_the_subscribe_line() {
    let line = subscribe_message(&vec!["AAA".to_string(), "BBB".to_string()], CLIENT);
    assert_eq!(line, b"SUBSCRIBE AAA,BBB 127.0.0.1:9000\n".to_vec());
    let (c, mut r, mut s) = setup();
    assert!(handle_message(&mut s, &mut r, &c, &line, 1).is_ok());
    assert_eq!(r.snapshot_for(0), vec![CLIENT]);
    assert_eq!(r.snapshot_for(1), vec![CLIENT]);
}

#[test]
fn ping_tracker_gives_up_after_retries() {
    let mut t = PingTracker::new(2);
    assert_eq!(t.record(false), PingAction::Continue);
    assert_eq!(t.record(true), PingAction::Continue);
    assert_eq!(t.failures, 0);
    assert_eq!(t.record(false), PingAction::Continue);
    assert_eq!(t.record(false), PingAction::Continue);
    assert_eq!(t.record(false), PingAction::GiveUp);
}
