//! The control-channel command grammar:
//!
//! `SUBSCRIBE <ticker>[,<ticker>...] <host>:<port>`, `PING`, `UNSUBSCRIBE`,
//! with words separated by ASCII whitespace. Tickers are checked against
//! the catalog and turned into catalog indices.

use vstd::prelude::*;
use vstd::utf8::*;
use crate::catalog::{index_in, Catalog};
use crate::decimal::{numeral, parse_numeral};
use crate::error::{CommandError, ProtocolError};
use crate::registry::Endpoint;
use crate::catalog::bytes_equal;
use crate::text::{
    is_text, lemma_item_bounded, lemma_nonempty_ranges, lemma_piece_utf8, lemma_range, nonempty, nonempty_range_seq,
    nonempty_ranges, ranges_bounded, ranges_match, split, split_ranges, string_from_utf8, words,
    Sep,
};

verus! {

broadcast use {encode_utf8_decode_utf8, decode_utf8_encode_utf8};

pub const COMMA: u8 = 44;

pub const COLON: u8 = 58;

pub const DOT: u8 = 46;

/// A parsed control command.
#[derive(Debug)]
pub enum Command {
    /// Subscribe `endpoint` to the catalog tickers with these indices.
    Subscribe { tickers: Vec<usize>, endpoint: Endpoint },
    Ping,
    Unsubscribe,
}

/// Why a control message was refused.
#[derive(Debug, PartialEq, Eq)]
pub enum RequestError {
    Protocol(ProtocolError),
    Command(CommandError),
}

pub open spec fn subscribe_word() -> Seq<u8> {
    seq![83u8, 85, 66, 83, 67, 82, 73, 66, 69]
}

pub open spec fn ping_word() -> Seq<u8> {
    seq![80u8, 73, 78, 71]
}

pub open spec fn unsubscribe_word() -> Seq<u8> {
    seq![85u8, 78, 83, 85, 66, 83, 67, 82, 73, 66, 69]
}

/// One octet of a dotted IPv4 host: one to three digits, no leading zero,
/// at most 255.
pub open spec fn octet(s: Seq<u8>) -> Option<nat> {
    if s.len() <= 3 && (s.len() == 1 || s[0] != 48u8) {
        numeral(s, 255)
    } else {
        None
    }
}

/// The endpoint that `s` spells as `a.b.c.d:port`.
pub open spec fn endpoint_of(s: Seq<u8>) -> Option<Endpoint> {
    let hp = split(s, Sep::Byte(COLON));
    let os = split(hp[0], Sep::Byte(DOT));
    if hp.len() == 2 && os.len() == 4 && octet(os[0]) is Some && octet(os[1]) is Some && octet(
        os[2],
    ) is Some && octet(os[3]) is Some && numeral(hp[1], 65535) is Some {
        Some(
            Endpoint {
                host: (octet(os[0])->0 * 16777216 + octet(os[1])->0 * 65536 + octet(os[2])->0 * 256
                    + octet(os[3])->0) as u32,
                port: numeral(hp[1], 65535)->0 as u16,
            },
        )
    } else {
        None
    }
}

/// Why a ticker list is refused, in terms of its bytes.
pub enum TickerFault {
    Empty,
    Unknown(Seq<u8>),
    Repeated,
}

/// Checks `items` in order against the catalog `cat`, collecting indices.
pub open spec fn check_items(items: Seq<Seq<u8>>, cat: Seq<Seq<u8>>) -> Result<Seq<usize>, TickerFault>
    decreases items.len(),
{
    if items.len() == 0 {
        Ok(Seq::empty())
    } else {
        match check_items(items.drop_last(), cat) {
            Err(f) => Err(f),
            Ok(ids) => match index_in(cat, items.last()) {
                None => Err(TickerFault::Unknown(items.last())),
                Some(i) => if ids.contains(i as usize) {
                    Err(TickerFault::Repeated)
                } else {
                    Ok(ids.push(i as usize))
                },
            },
        }
    }
}

/// The symbols of a comma-separated ticker list; empty items are ignored.
pub open spec fn list_items(list: Seq<u8>) -> Seq<Seq<u8>> {
    nonempty(split(list, Sep::Byte(COMMA)))
}

/// What checking the ticker list `list` against `cat` gives.
pub open spec fn check_tickers(list: Seq<u8>, cat: Seq<Seq<u8>>) -> Result<Seq<usize>, TickerFault> {
    if list_items(list).len() == 0 {
        Err(TickerFault::Empty)
    } else {
        check_items(list_items(list), cat)
    }
}

/// Whether `r` is what checking the ticker list `list` against `cat` gives.
pub open spec fn tickers_checked(list: Seq<u8>, cat: Seq<Seq<u8>>, r: Result<Vec<usize>, CommandError>) -> bool {
    match check_tickers(list, cat) {
        Ok(ids) => r matches Ok(v) && v@ == ids,
        Err(TickerFault::Empty) => r == Err::<Vec<usize>, CommandError>(CommandError::EmptyTickers),
        Err(TickerFault::Repeated) => r == Err::<Vec<usize>, CommandError>(
            CommandError::DuplicateTickers,
        ),
        Err(TickerFault::Unknown(item)) => r matches Err(CommandError::InvalidTicker(s)) && encode_utf8(
            s@,
        ) == item,
    }
}

/// Whether `r` is what parsing the control message `msg` against `cat` gives.
pub open spec fn parsed(msg: Seq<u8>, cat: Seq<Seq<u8>>, r: Result<Command, RequestError>) -> bool {
    let ws = words(msg);
    if !valid_utf8(msg) {
        r == Err::<Command, RequestError>(
            RequestError::Protocol(ProtocolError::InvalidFormat("not utf-8 text")),
        )
    } else if ws.len() == 0 {
        r == Err::<Command, RequestError>(RequestError::Protocol(ProtocolError::EmptyCommand))
    } else if ws[0] == ping_word() || ws[0] == unsubscribe_word() {
        if ws.len() == 1 {
            if ws[0] == ping_word() {
                r matches Ok(Command::Ping)
            } else {
                r matches Ok(Command::Unsubscribe)
            }
        } else {
            r == Err::<Command, RequestError>(
                RequestError::Protocol(ProtocolError::InvalidFormat("unexpected argument")),
            )
        }
    } else if ws[0] == subscribe_word() {
        if ws.len() == 1 {
            r == Err::<Command, RequestError>(
                RequestError::Protocol(ProtocolError::MissingField("tickers")),
            )
        } else if ws.len() == 2 {
            r == Err::<Command, RequestError>(
                RequestError::Protocol(ProtocolError::MissingField("endpoint")),
            )
        } else if ws.len() > 3 {
            r == Err::<Command, RequestError>(
                RequestError::Protocol(ProtocolError::InvalidFormat("too many arguments")),
            )
        } else {
            match check_tickers(ws[1], cat) {
                Err(TickerFault::Empty) => r == Err::<Command, RequestError>(
                    RequestError::Command(CommandError::EmptyTickers),
                ),
                Err(TickerFault::Repeated) => r == Err::<Command, RequestError>(
                    RequestError::Command(CommandError::DuplicateTickers),
                ),
                Err(TickerFault::Unknown(item)) => r matches Err(
                    RequestError::Command(CommandError::InvalidTicker(s)),
                ) && encode_utf8(s@) == item,
                Ok(ids) => match endpoint_of(ws[2]) {
                    None => r matches Err(RequestError::Protocol(ProtocolError::InvalidAddress(s)))
                        && encode_utf8(s@) == ws[2],
                    Some(e) => r matches Ok(Command::Subscribe { tickers, endpoint }) && tickers@
                        == ids && endpoint == e,
                },
            }
        }
    } else {
        r matches Err(RequestError::Protocol(ProtocolError::UnknownCommand(s))) && encode_utf8(s@)
            == ws[0]
    }
}

fn parse_octet(s: &[u8]) -> (r: Option<u32>)
    ensures
        r matches Some(v) ==> octet(s@) == Some(v as nat),
        r is None ==> octet(s@) is None,
{
    if s.len() <= 3 && (s.len() == 1 || (s.len() > 0 && s[0] != 48u8)) {
        match parse_numeral(s, 255) {
            Some(v) => Some(v as u32),
            None => None,
        }
    } else {
        None
    }
}

/// Reads an endpoint written `a.b.c.d:port`.
pub fn parse_endpoint(s: &[u8]) -> (r: Option<Endpoint>)
    ensures
        r == endpoint_of(s@),
{
    let hp = split_ranges(s, Sep::Byte(COLON));
    let ghost hps = split(s@, Sep::Byte(COLON));
    proof {
        crate::text::lemma_split_len(s@, Sep::Byte(COLON));
        lemma_range(s@, hp@, hps, 0);
    }
    if hp.len() != 2 {
        return None;
    }
    proof {
        lemma_range(s@, hp@, hps, 1);
    }
    let host = &s[hp[0].0..hp[0].1];
    let os = split_ranges(host, Sep::Byte(DOT));
    let ghost oss = split(host@, Sep::Byte(DOT));
    if os.len() != 4 {
        return None;
    }
    proof {
        lemma_range(host@, os@, oss, 0);
        lemma_range(host@, os@, oss, 1);
        lemma_range(host@, os@, oss, 2);
        lemma_range(host@, os@, oss, 3);
    }
    let a = match parse_octet(&host[os[0].0..os[0].1]) {
        Some(v) => v,
        None => {
            return None;
        },
    };
    let b = match parse_octet(&host[os[1].0..os[1].1]) {
        Some(v) => v,
        None => {
            return None;
        },
    };
    let c = match parse_octet(&host[os[2].0..os[2].1]) {
        Some(v) => v,
        None => {
            return None;
        },
    };
    let d = match parse_octet(&host[os[3].0..os[3].1]) {
        Some(v) => v,
        None => {
            return None;
        },
    };
    let port = match parse_numeral(&s[hp[1].0..hp[1].1], 65535) {
        Some(p) => p as u16,
        None => {
            return None;
        },
    };
    Some(Endpoint { host: a * 16777216 + b * 65536 + c * 256 + d, port })
}

/// Checks a comma-separated ticker list against the catalog; `list` is
/// valid UTF-8 text.
fn parse_tickers(list: &[u8], catalog: &Catalog) -> (r: Result<Vec<usize>, CommandError>)
    requires
        catalog.wf(),
        valid_utf8(list@),
    ensures
        tickers_checked(list@, catalog@, r),
{
    let all = split_ranges(list, Sep::Byte(COMMA));
    let ghost pieces = split(list@, Sep::Byte(COMMA));
    proof {
        assert forall|i: int| 0 <= i < all@.len() implies #[trigger] all@[i].0 <= all@[i].1 by {
            lemma_range(list@, all@, pieces, i);
        }
    }
    let items = nonempty_ranges(&all);
    let ghost its = list_items(list@);
    proof {
        lemma_nonempty_ranges(list@, all@, pieces);
    }
    if items.len() == 0 {
        return Err(CommandError::EmptyTickers);
    }
    let mut ids: Vec<usize> = Vec::new();
    let mut i: usize = 0;
    while i < items.len()
        invariant
            catalog.wf(),
            valid_utf8(list@),
            its == list_items(list@),
            ranges_match(list@, items@, its),
            items@ == nonempty_range_seq(all@),
            ranges_bounded(list@, all@, Sep::Byte(COMMA)),
            i <= items@.len(),
            check_items(its.subrange(0, i as int), catalog@) == Ok::<Seq<usize>, TickerFault>(ids@),
        decreases items.len() - i,
    {
        proof {
            lemma_range(list@, items@, its, i as int);
        }
        let (lo, hi) = items[i];
        let item = &list[lo..hi];
        let ghost pre = its.subrange(0, i as int);
        let ghost next = its.subrange(0, i as int + 1);
        assert(next.drop_last() == pre);
        assert(next.last() == item@);
        match catalog.index_of(item) {
            None => {
                proof {
                    lemma_item_bounded(list@, all@, items@, i as int, Sep::Byte(COMMA));
                    lemma_piece_utf8(list@, lo as int, hi as int);
                    lemma_check_prefix_err(its, catalog@, i as int + 1);
                }
                let text = string_from_utf8(item);
                return match text {
                    Some(t) => Err(CommandError::InvalidTicker(t)),
                    None => Err(CommandError::EmptyTickers),
                };
            },
            Some(k) => {
                proof {
                    lemma_index_in(catalog@, item@, k as int);
                }
                if crate::registry::contains_index(&ids, k) {
                    proof {
                        lemma_check_prefix_err(its, catalog@, i as int + 1);
                    }
                    return Err(CommandError::DuplicateTickers);
                }
                ids.push(k);
            },
        }
        i = i + 1;
    }
    assert(its.subrange(0, items@.len() as int) == its);
    Ok(ids)
}

/// The catalog index of an item found at `k` is the one `index_in` names.
proof fn lemma_index_in(cat: Seq<Seq<u8>>, item: Seq<u8>, k: int)
    requires
        cat.no_duplicates(),
        0 <= k < cat.len(),
        cat[k] == item,
    ensures
        index_in(cat, item) == Some(k as nat),
{
    assert(cat.contains(item));
    let j = choose|j: nat| j < cat.len() && cat[j as int] == item;
}

/// Once checking a prefix fails, checking any longer prefix fails the same way.
proof fn lemma_check_prefix_err(items: Seq<Seq<u8>>, cat: Seq<Seq<u8>>, n: int)
    requires
        0 <= n <= items.len(),
        check_items(items.subrange(0, n), cat) is Err,
    ensures
        check_items(items, cat) == check_items(items.subrange(0, n), cat),
    decreases items.len() - n,
{
    if n < items.len() {
        let p = items.subrange(0, n + 1);
        assert(p.drop_last() == items.subrange(0, n));
        lemma_check_prefix_err(items, cat, n + 1);
    } else {
        assert(items.subrange(0, n) == items);
    }
}

/// Reads one control message against the catalog.
pub fn parse_command(msg: &[u8], catalog: &Catalog) -> (r: Result<Command, RequestError>)
    requires
        catalog.wf(),
    ensures
        parsed(msg@, catalog@, r),
{
    if !is_text(msg) {
        return Err(RequestError::Protocol(ProtocolError::InvalidFormat("not utf-8 text")));
    }
    let all = split_ranges(msg, Sep::Space);
    let ghost pieces = split(msg@, Sep::Space);
    proof {
        assert forall|i: int| 0 <= i < all@.len() implies #[trigger] all@[i].0 <= all@[i].1 by {
            lemma_range(msg@, all@, pieces, i);
        }
        lemma_nonempty_ranges(msg@, all@, pieces);
    }
    let ws = nonempty_ranges(&all);
    let ghost wss = words(msg@);
    if ws.len() == 0 {
        return Err(RequestError::Protocol(ProtocolError::EmptyCommand));
    }
    proof {
        lemma_range(msg@, ws@, wss, 0);
        lemma_item_bounded(msg@, all@, ws@, 0, Sep::Space);
        lemma_piece_utf8(msg@, ws@[0].0 as int, ws@[0].1 as int);
    }
    let verb = &msg[ws[0].0..ws[0].1];
    let ping = vec![80u8, 73, 78, 71];
    let unsubscribe = vec![85u8, 78, 83, 85, 66, 83, 67, 82, 73, 66, 69];
    let subscribe = vec![83u8, 85, 66, 83, 67, 82, 73, 66, 69];
    assert(ping@ == ping_word());
    assert(unsubscribe@ == unsubscribe_word());
    assert(subscribe@ == subscribe_word());
    let is_ping = bytes_equal(verb, ping.as_slice());
    if is_ping || bytes_equal(verb, unsubscribe.as_slice()) {
        if ws.len() != 1 {
            return Err(RequestError::Protocol(ProtocolError::InvalidFormat("unexpected argument")));
        }
        return if is_ping {
            Ok(Command::Ping)
        } else {
            Ok(Command::Unsubscribe)
        };
    }
    if !bytes_equal(verb, subscribe.as_slice()) {
        return match string_from_utf8(verb) {
            Some(v) => Err(RequestError::Protocol(ProtocolError::UnknownCommand(v))),
            None => Err(RequestError::Protocol(ProtocolError::EmptyCommand)),
        };
    }
    if ws.len() == 1 {
        return Err(RequestError::Protocol(ProtocolError::MissingField("tickers")));
    }
    if ws.len() == 2 {
        return Err(RequestError::Protocol(ProtocolError::MissingField("endpoint")));
    }
    if ws.len() > 3 {
        return Err(RequestError::Protocol(ProtocolError::InvalidFormat("too many arguments")));
    }
    proof {
        lemma_range(msg@, ws@, wss, 1);
        lemma_range(msg@, ws@, wss, 2);
        lemma_item_bounded(msg@, all@, ws@, 1, Sep::Space);
        lemma_item_bounded(msg@, all@, ws@, 2, Sep::Space);
        lemma_piece_utf8(msg@, ws@[1].0 as int, ws@[1].1 as int);
        lemma_piece_utf8(msg@, ws@[2].0 as int, ws@[2].1 as int);
    }
    let list = &msg[ws[1].0..ws[1].1];
    let tickers = match parse_tickers(list, catalog) {
        Ok(t) => t,
        Err(e) => {
            return Err(RequestError::Command(e));
        },
    };
    let addr = &msg[ws[2].0..ws[2].1];
    match parse_endpoint(addr) {
        Some(endpoint) => Ok(Command::Subscribe { tickers, endpoint }),
        None => match string_from_utf8(addr) {
            Some(a) => Err(RequestError::Protocol(ProtocolError::InvalidAddress(a))),
            None => Err(RequestError::Protocol(ProtocolError::EmptyCommand)),
        },
    }
}

/// Checked tickers are distinct catalog indices, one per item.
pub proof fn lemma_check_items_valid(items: Seq<Seq<u8>>, cat: Seq<Seq<u8>>)
    ensures
        check_items(items, cat) matches Ok(ids) ==> ids.len() == items.len() && ids.no_duplicates()
            && forall|i: int| 0 <= i < ids.len() ==> #[trigger] ids[i] < cat.len(),
    decreases items.len(),
{
    if items.len() > 0 {
        lemma_check_items_valid(items.drop_last(), cat);
        if let Ok(ids) = check_items(items, cat) {
            let last = items.last();
            let k = choose|i: nat| i < cat.len() && cat[i as int] == last;
            assert(cat.contains(last));
        }
    }
}

/// Whether every item is a catalog symbol.
pub open spec fn all_listed(items: Seq<Seq<u8>>, cat: Seq<Seq<u8>>) -> bool {
    forall|i: int| 0 <= i < items.len() ==> cat.contains(#[trigger] items[i])
}

/// Checking a ticker list succeeds exactly when every item is a catalog
/// symbol and none repeats; the indices then name the items, and each
/// failure names its cause.
pub proof fn lemma_check_items(items: Seq<Seq<u8>>, cat: Seq<Seq<u8>>)
    requires
        cat.no_duplicates(),
        cat.len() <= usize::MAX,
    ensures
        check_items(items, cat) is Ok <==> all_listed(items, cat) && items.no_duplicates(),
        check_items(items, cat) matches Ok(ids) ==> ids.len() == items.len() && forall|i: int|
            0 <= i < ids.len() ==> (#[trigger] ids[i]) < cat.len() && cat[ids[i] as int] == items[i],
        check_items(items, cat) matches Err(TickerFault::Unknown(x)) ==> !cat.contains(x),
        check_items(items, cat) matches Err(TickerFault::Repeated) ==> !items.no_duplicates(),
        !(check_items(items, cat) matches Err(TickerFault::Empty)),
    decreases items.len(),
{
    if items.len() > 0 {
        let p = items.drop_last();
        let x = items.last();
        let n = p.len() as int;
        lemma_check_items(p, cat);
        assert forall|i: int| 0 <= i < n implies #[trigger] p[i] == items[i] by {}
        assert(items[n] == x);
        if !(all_listed(p, cat) && p.no_duplicates()) {
            if !all_listed(p, cat) {
                let i = choose|i: int| 0 <= i < p.len() && !cat.contains(#[trigger] p[i]);
                assert(!cat.contains(items[i]));
            } else {
                let (a, b) = choose|a: int, b: int| 0 <= a < p.len() && 0 <= b < p.len() && a != b && p[a] == p[b];
                assert(items[a] == items[b]);
            }
        } else {
            let ids = check_items(p, cat)->Ok_0;
            if !cat.contains(x) {
                assert(!cat.contains(items[n]));
            } else {
                let k = choose|k: nat| k < cat.len() && cat[k as int] == x;
                assert(index_in(cat, x) == Some(k));
                if ids.contains(k as usize) {
                    let j = choose|j: int| 0 <= j < ids.len() && ids[j] == k as usize;
                    assert(cat[ids[j] as int] == p[j]);
                    assert(items[j] == items[n]);
                } else {
                    assert forall|a: int, b: int| 0 <= a < items.len() && 0 <= b < items.len() && a != b implies items[a] != items[b] by {
                        if a == n && b < n {
                            assert(cat[ids[b] as int] == p[b]);
                            if items[a] == items[b] {
                                assert(ids[b] == k as usize);
                            }
                        } else if b == n && a < n {
                            assert(cat[ids[a] as int] == p[a]);
                            if items[a] == items[b] {
                                assert(ids[a] == k as usize);
                            }
                        } else {
                            assert(p[a] != p[b]);
                        }
                    }
                    let ids2 = ids.push(k as usize);
                    assert forall|i: int| 0 <= i < ids2.len() implies (#[trigger] ids2[i]) < cat.len()
                        && cat[ids2[i] as int] == items[i] by {
                        if i < n {
                            assert(ids2[i] == ids[i]);
                        }
                    }
                    assert(all_listed(items, cat)) by {
                        assert forall|i: int| 0 <= i < items.len() implies cat.contains(#[trigger] items[i]) by {
                            if i < n {
                                assert(cat.contains(p[i]));
                            }
                        }
                    }
                }
            }
        }
    }
}

/// A non-empty list of distinct catalog tickers passes the check and
/// yields exactly their indices.
pub proof fn lemma_valid_list_accepted(cat: Seq<Seq<u8>>, ts: Seq<usize>)
    requires
        cat.no_duplicates(),
        cat.len() <= usize::MAX,
        ts.len() > 0,
        ts.no_duplicates(),
        forall|i: int| 0 <= i < ts.len() ==> #[trigger] ts[i] < cat.len(),
    ensures
        check_items(ts.map_values(|t: usize| cat[t as int]), cat) == Ok::<Seq<usize>, TickerFault>(ts),
{
    let items = ts.map_values(|t: usize| cat[t as int]);
    assert forall|i: int| 0 <= i < items.len() implies cat.contains(#[trigger] items[i]) by {
        assert(cat[ts[i] as int] == items[i]);
    }
    assert(items.no_duplicates()) by {
        assert forall|a: int, b: int| 0 <= a < items.len() && 0 <= b < items.len() && a != b implies items[a] != items[b] by {
            assert(ts[a] != ts[b]);
        }
    }
    lemma_check_items(items, cat);
    let ids = check_items(items, cat)->Ok_0;
    assert forall|i: int| 0 <= i < ids.len() implies ids[i] == ts[i] by {
        assert(cat[ids[i] as int] == items[i]);
        assert(items[i] == cat[ts[i] as int]);
    }
    assert(ids =~= ts);
}

/// An empty ticker list is refused as empty; a list of catalog symbols with
/// a repeat is refused as repeated; a list without repeats holding a symbol
/// outside the catalog is refused for an unknown symbol.
pub proof fn lemma_ticker_list_refusals(list: Seq<u8>, cat: Seq<Seq<u8>>)
    requires
        cat.no_duplicates(),
        cat.len() <= usize::MAX,
    ensures
        list_items(list).len() == 0 ==> check_tickers(list, cat) == Err::<Seq<usize>, TickerFault>(
            TickerFault::Empty,
        ),
        list_items(list).len() > 0 && all_listed(list_items(list), cat) && !list_items(
            list,
        ).no_duplicates() ==> check_tickers(list, cat) == Err::<Seq<usize>, TickerFault>(
            TickerFault::Repeated,
        ),
        list_items(list).no_duplicates() && !all_listed(list_items(list), cat) ==> (check_tickers(
            list,
            cat,
        ) matches Err(TickerFault::Unknown(x)) && !cat.contains(x) && list_items(list).contains(x)),
{
    let items = list_items(list);
    lemma_check_items(items, cat);
    lemma_unknown_is_item(items, cat);
    if let Err(TickerFault::Unknown(x)) = check_items(items, cat) {
        let j = choose|j: int| 0 <= j < items.len() && items[j] == x;
        assert(cat.contains(items[j]) || !all_listed(items, cat));
    }
}

/// An unknown symbol reported by the check is one of the items.
proof fn lemma_unknown_is_item(items: Seq<Seq<u8>>, cat: Seq<Seq<u8>>)
    ensures
        check_items(items, cat) matches Err(TickerFault::Unknown(x)) ==> items.contains(x),
    decreases items.len(),
{
    if items.len() > 0 {
        let p = items.drop_last();
        lemma_unknown_is_item(p, cat);
        if let Err(TickerFault::Unknown(x)) = check_items(p, cat) {
            let j = choose|j: int| 0 <= j < p.len() && p[j] == x;
            assert(items[j] == x);
        }
        assert(items[items.len() - 1] == items.last());
    }
}

} // verus!
