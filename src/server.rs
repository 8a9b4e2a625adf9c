//! Server-side decisions: what a control message does to the registry and
//! what is answered, what a data-channel datagram refreshes, and where a
//! generated quote goes. The transport loops that carry these out stand
//! outside the library.

use vstd::prelude::*;
use vstd::string::StringSliceAdditionalSpecFns;
use vstd::utf8::*;
use crate::catalog::{valid_catalog, Catalog};
use crate::client::{lemma_subscribe_message_parses, subscribe_text, symbols_of};
use crate::command::{
    check_tickers, list_items, parse_command, parsed, ping_word, Command, RequestError,
    TickerFault,
};
use crate::error::{command_text, protocol_text};
use crate::quote::{encode, StockQuote};
use crate::registry::{
    copy_indices, lemma_subscribed_visible, subscribers, touch_model, upsert_model, valid_tickers,
    Endpoint, Registry, RegistryMap,
};
use crate::text::{push_str, words};

verus! {

/// The state of one control connection: the endpoint it subscribed, if any.
#[derive(Debug, Clone, Copy, PartialEq, Eq)]
pub struct Session {
    pub endpoint: Option<Endpoint>,
}

impl Session {
    /// A connection that has not subscribed yet.
    pub fn new() -> (r: Session)
        ensures
            r.endpoint is None,
    {
        Session { endpoint: None }
    }
}

/// What a successfully parsed command does to the session's endpoint and
/// the registry.
pub open spec fn applied(
    c: Command,
    s0: Session,
    s1: Session,
    m0: RegistryMap,
    m1: RegistryMap,
    now: u64,
) -> bool {
    match c {
        Command::Subscribe { tickers, endpoint } => s1.endpoint == Some(endpoint) && m1
            == upsert_model(m0, endpoint, tickers@, now),
        Command::Ping => s1 == s0 && m1 == match s0.endpoint {
            Some(e) => touch_model(m0, e, now),
            None => m0,
        },
        Command::Unsubscribe => s1.endpoint is None && m1 == match s0.endpoint {
            Some(e) => m0.remove(e),
            None => m0,
        },
    }
}

/// Handles one control message at `now`: parses it, and on success applies
/// it to the registry. A refused message changes nothing.
pub fn handle_message(
    session: &mut Session,
    registry: &mut Registry,
    catalog: &Catalog,
    msg: &[u8],
    now: u64,
) -> (r: Result<Command, RequestError>)
    requires
        old(registry).wf(),
        catalog.wf(),
        old(registry).symbol_count() == catalog@.len(),
    ensures
        final(registry).wf(),
        final(registry).symbol_count() == old(registry).symbol_count(),
        parsed(msg@, catalog@, r),
        match r {
            Ok(c) => applied(c, *old(session), *final(session), old(registry)@, final(registry)@, now),
            Err(_) => *final(session) == *old(session) && final(registry)@ == old(registry)@,
        },
{
    let r = parse_command(msg, catalog);
    match r {
        Ok(Command::Subscribe { tickers, endpoint }) => {
            let kept = copy_indices(&tickers);
            proof {
                lemma_parsed_subscribe(msg@, catalog@, tickers@);
            }
            registry.upsert(endpoint, tickers, now);
            session.endpoint = Some(endpoint);
            Ok(Command::Subscribe { tickers: kept, endpoint })
        },
        Ok(Command::Ping) => {
            match session.endpoint {
                Some(e) => registry.touch(e, now),
                None => {},
            }
            Ok(Command::Ping)
        },
        Ok(Command::Unsubscribe) => {
            match session.endpoint {
                Some(e) => {
                    registry.remove(e);
                },
                None => {},
            }
            session.endpoint = None;
            Ok(Command::Unsubscribe)
        },
        Err(e) => Err(e),
    }
}

/// The tickers of a parsed subscription form a valid ticker list.
proof fn lemma_parsed_subscribe(msg: Seq<u8>, cat: Seq<Seq<u8>>, ids: Seq<usize>)
    requires
        valid_utf8(msg),
        words(msg).len() == 3,
        check_tickers(words(msg)[1], cat) == Ok::<Seq<usize>, TickerFault>(ids),
    ensures
        valid_tickers(ids, cat.len()),
{
    crate::command::lemma_check_items_valid(list_items(words(msg)[1]), cat);
}

/// Closes a control connection: its subscription, if any, is removed.
pub fn on_disconnect(session: &mut Session, registry: &mut Registry)
    requires
        old(registry).wf(),
    ensures
        final(registry).wf(),
        final(registry).symbol_count() == old(registry).symbol_count(),
        final(session).endpoint is None,
        final(registry)@ == match old(session).endpoint {
            Some(e) => old(registry)@.remove(e),
            None => old(registry)@,
        },
{
    match session.endpoint {
        Some(e) => {
            registry.remove(e);
        },
        None => {},
    }
    session.endpoint = None;
}

/// Handles a datagram from `from` on the data channel: a `PING` refreshes
/// that endpoint's subscription; anything else is ignored. Tells whether it
/// was a ping.
pub fn handle_datagram(
    registry: &mut Registry,
    catalog: &Catalog,
    from: Endpoint,
    msg: &[u8],
    now: u64,
) -> (r: bool)
    requires
        old(registry).wf(),
        catalog.wf(),
    ensures
        final(registry).wf(),
        final(registry).symbol_count() == old(registry).symbol_count(),
        r == (valid_utf8(msg@) && words(msg@) == seq![ping_word()]),
        final(registry)@ == if r {
            touch_model(old(registry)@, from, now)
        } else {
            old(registry)@
        },
{
    let p = parse_command(msg, catalog);
    let is_ping = match p {
        Ok(Command::Ping) => true,
        _ => false,
    };
    proof {
        let ws = words(msg@);
        if valid_utf8(msg@) && ws == seq![ping_word()] {
            assert(ws.len() == 1 && ws[0] == ping_word());
        }
        if is_ping {
            assert(ws =~= seq![ping_word()]);
        }
    }
    if is_ping {
        registry.touch(from, now);
    }
    is_ping
}

/// The text of a refusal.
pub open spec fn error_text(e: RequestError) -> Seq<u8> {
    match e {
        RequestError::Protocol(p) => protocol_text(p),
        RequestError::Command(c) => command_text(c),
    }
}

/// The line answered on the control channel: `OK`, or `ERR` and the reason.
pub open spec fn reply_text(r: Result<Command, RequestError>) -> Seq<u8> {
    match r {
        Ok(_) => "OK\n".spec_bytes(),
        Err(e) => "ERR ".spec_bytes() + error_text(e) + "\n".spec_bytes(),
    }
}

/// The control-channel answer to a handled message.
pub fn reply_line(r: &Result<Command, RequestError>) -> (out: Vec<u8>)
    ensures
        out@ == reply_text(*r),
{
    let mut out: Vec<u8> = Vec::new();
    match r {
        Ok(_) => {
            push_str(&mut out, "OK\n");
            assert(out@ =~= reply_text(*r));
        },
        Err(e) => {
            push_str(&mut out, "ERR ");
            match e {
                RequestError::Protocol(p) => p.push_message(&mut out),
                RequestError::Command(c) => c.push_message(&mut out),
            }
            push_str(&mut out, "\n");
            assert(out@ =~= reply_text(*r));
        },
    }
    out
}

/// Where a generated quote of catalog ticker `t` goes, and what is sent.
#[derive(Debug)]
pub struct Delivery {
    pub targets: Vec<Endpoint>,
    pub payload: Vec<u8>,
}

/// Plans the delivery of `quote`, a quote of catalog ticker `t`: every
/// endpoint subscribed to `t`, each once, gets the quote's wire form.
pub fn dispatch(registry: &Registry, t: usize, quote: &StockQuote) -> (r: Delivery)
    requires
        registry.wf(),
    ensures
        r.targets@.no_duplicates(),
        r.targets@.to_set() == subscribers(registry@, t),
        r.payload@ == encode(quote@),
{
    Delivery { targets: registry.snapshot_for(t), payload: quote.to_bytes() }
}

/// A `SUBSCRIBE` line for a non-empty list of distinct catalog tickers is
/// accepted as a subscription to exactly those tickers, and once it is
/// applied the subscriber is listed for each of them.
pub proof fn lemma_subscribe_law(
    cat: Seq<Seq<u8>>,
    ts: Seq<usize>,
    m: RegistryMap,
    e: Endpoint,
    now: u64,
)
    requires
        valid_catalog(cat),
        cat.len() <= usize::MAX,
        valid_tickers(ts, cat.len()),
    ensures
        forall|r: Result<Command, RequestError>|
            #[trigger] parsed(subscribe_text(symbols_of(cat, ts), e), cat, r) ==> (r matches Ok(
                Command::Subscribe { tickers, endpoint },
            ) && tickers@ == ts && endpoint == e),
        forall|t: usize| #[trigger] ts.contains(t) ==> subscribers(upsert_model(m, e, ts, now), t).contains(e),
{
    lemma_subscribe_message_parses(cat, ts, e);
    lemma_subscribed_visible(m, e, ts, now);
}

} // verus!
