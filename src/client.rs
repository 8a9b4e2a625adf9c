//! Client-side decisions: the subscribe command to send, and when to give
//! up on failing pings.

use vstd::prelude::*;
use vstd::arithmetic::div_mod::{lemma_div_denominator, lemma_fundamental_div_mod};
use vstd::utf8::encode_utf8;
use crate::catalog::{is_symbol_byte, valid_catalog, valid_symbol};
use crate::command::{
    check_items, check_tickers, endpoint_of, lemma_valid_list_accepted, list_items, octet, parsed,
    subscribe_word, Command, RequestError,
};
use crate::decimal::{decimal, is_digit, lemma_decimal, lemma_decimal_shape, push_decimal};
use crate::registry::{valid_tickers, Endpoint};
use crate::text::{
    is_ascii_bytes, is_sep, lemma_ascii_utf8, lemma_nonempty_all, lemma_split_append,
    lemma_split_join, lemma_split_single, no_sep, push_str, split, words, Sep,
};

verus! {

/// The text of an endpoint: `a.b.c.d:port`.
pub open spec fn endpoint_text(e: Endpoint) -> Seq<u8> {
    decimal((e.host / 16777216) as nat) + seq![46u8] + decimal(((e.host / 65536) % 256) as nat)
        + seq![46u8] + decimal(((e.host / 256) % 256) as nat) + seq![46u8] + decimal(
        (e.host % 256) as nat,
    ) + seq![58u8] + decimal(e.port as nat)
}

/// The symbols joined by commas.
pub open spec fn joined(ss: Seq<Seq<u8>>) -> Seq<u8>
    decreases ss.len(),
{
    if ss.len() == 0 {
        Seq::empty()
    } else if ss.len() == 1 {
        ss[0]
    } else {
        joined(ss.drop_last()) + seq![44u8] + ss.last()
    }
}

/// The subscribe command for the symbols `ss` and the data endpoint `e`.
pub open spec fn subscribe_text(ss: Seq<Seq<u8>>, e: Endpoint) -> Seq<u8> {
    subscribe_word() + seq![32u8] + joined(ss) + seq![32u8] + endpoint_text(e) + seq![10u8]
}

/// Appends the text of an endpoint.
pub fn push_endpoint(out: &mut Vec<u8>, e: Endpoint)
    ensures
        final(out)@ == old(out)@ + endpoint_text(e),
{
    push_decimal(out, (e.host / 16777216) as u64);
    out.push(46u8);
    push_decimal(out, ((e.host / 65536) % 256) as u64);
    out.push(46u8);
    push_decimal(out, ((e.host / 256) % 256) as u64);
    out.push(46u8);
    push_decimal(out, (e.host % 256) as u64);
    out.push(58u8);
    push_decimal(out, e.port as u64);
    assert(out@ =~= old(out)@ + endpoint_text(e));
}

/// The control message that subscribes the data endpoint `e` to `symbols`.
pub fn subscribe_message(symbols: &Vec<String>, e: Endpoint) -> (r: Vec<u8>)
    ensures
        r@ == subscribe_text(
            Seq::new(symbols@.len(), |i: int| encode_utf8(symbols@[i]@)),
            e,
        ),
{
    let ghost ss = Seq::new(symbols@.len(), |i: int| encode_utf8(symbols@[i]@));
    let mut out: Vec<u8> = vec![83u8, 85, 66, 83, 67, 82, 73, 66, 69, 32];
    let ghost head = out@;
    assert(head == subscribe_word() + seq![32u8]);
    let mut i: usize = 0;
    while i < symbols.len()
        invariant
            i <= symbols@.len(),
            ss == Seq::new(symbols@.len(), |i: int| encode_utf8(symbols@[i]@)),
            out@ == head + joined(ss.subrange(0, i as int)),
        decreases symbols.len() - i,
    {
        if i > 0 {
            out.push(44u8);
        }
        push_str(&mut out, symbols[i].as_str());
        i = i + 1;
        proof {
            let sub = ss.subrange(0, i as int);
            assert(sub.drop_last() == ss.subrange(0, i as int - 1));
            assert(sub.last() == encode_utf8(symbols@[i - 1]@));
            if i == 1 {
                assert(ss.subrange(0, 0) =~= Seq::<Seq<u8>>::empty());
                assert(out@ =~= head + joined(sub));
            } else {
                assert(out@ =~= head + joined(sub));
            }
        }
    }
    assert(ss.subrange(0, symbols@.len() as int) == ss);
    out.push(32u8);
    push_endpoint(&mut out, e);
    out.push(10u8);
    assert(out@ =~= subscribe_text(ss, e));
    out
}

/// What to do after a ping attempt.
#[derive(Debug, Clone, Copy, PartialEq, Eq, Structural)]
pub enum PingAction {
    /// Keep pinging at the usual interval.
    Continue,
    /// Too many pings in a row failed: end the session.
    GiveUp,
}

/// Consecutive ping failures, against the number of retries allowed.
#[derive(Debug, Clone, Copy, PartialEq, Eq, Structural)]
pub struct PingTracker {
    pub failures: u32,
    pub max_retries: u32,
}

impl PingTracker {
    /// A tracker that allows `max_retries` failed pings in a row.
    pub fn new(max_retries: u32) -> (r: PingTracker)
        ensures
            r.failures == 0,
            r.max_retries == max_retries,
    {
        PingTracker { failures: 0, max_retries }
    }

    /// Records the outcome of a ping: a success clears the count; a failure
    /// adds one, and the session gives up once the count exceeds the
    /// retries allowed.
    pub fn record(&mut self, ok: bool) -> (r: PingAction)
        requires
            old(self).failures <= old(self).max_retries,
            old(self).failures < u32::MAX,
        ensures
            final(self).max_retries == old(self).max_retries,
            final(self).failures == if ok {
                0
            } else {
                old(self).failures + 1
            },
            r == if !ok && old(self).failures + 1 > old(self).max_retries {
                PingAction::GiveUp
            } else {
                PingAction::Continue
            },
    {
        if ok {
            self.failures = 0;
            PingAction::Continue
        } else {
            self.failures = self.failures + 1;
            if self.failures > self.max_retries {
                PingAction::GiveUp
            } else {
                PingAction::Continue
            }
        }
    }
}

/// Bytes that are digits and dots only.
pub open spec fn digits_or_dots(s: Seq<u8>) -> bool {
    forall|i: int| 0 <= i < s.len() ==> is_digit(#[trigger] s[i]) || s[i] == 46u8
}

proof fn lemma_octet_text(n: nat)
    requires
        n <= 255,
    ensures
        octet(decimal(n)) == Some(n),
        no_sep(decimal(n), Sep::Byte(46u8)),
        digits_or_dots(decimal(n)),
{
    lemma_decimal(n);
    lemma_decimal_shape(n);
    let d = decimal(n);
    assert forall|i: int| 0 <= i < d.len() implies !is_sep(Sep::Byte(46u8), #[trigger] d[i]) by {
        assert(is_digit(d[i]));
    }
    assert forall|i: int| 0 <= i < d.len() implies is_digit(#[trigger] d[i]) || d[i] == 46u8 by {
        assert(is_digit(d[i]));
    }
}

/// Reading back the text of an endpoint gives the endpoint.
pub proof fn lemma_endpoint_round_trip(e: Endpoint)
    ensures
        endpoint_of(endpoint_text(e)) == Some(e),
        is_ascii_bytes(endpoint_text(e)),
        no_sep(endpoint_text(e), Sep::Space),
        endpoint_text(e).len() > 0,
{
    let h = e.host as int;
    let a = (e.host / 16777216) as nat;
    let b = ((e.host / 65536) % 256) as nat;
    let c = ((e.host / 256) % 256) as nat;
    let d = (e.host % 256) as nat;
    lemma_octet_text(a);
    lemma_octet_text(b);
    lemma_octet_text(c);
    lemma_octet_text(d);
    let da = decimal(a);
    let db = decimal(b);
    let dc = decimal(c);
    let dd = decimal(d);
    let dp = decimal(e.port as nat);
    lemma_decimal(e.port as nat);
    let dot = seq![46u8];
    let host = da + dot + db + dot + dc + dot + dd;
    lemma_split_single(dd, Sep::Byte(46u8));
    lemma_split_join(dc, 46u8, dd, Sep::Byte(46u8));
    lemma_split_join(db, 46u8, dc + dot + dd, Sep::Byte(46u8));
    lemma_split_join(da, 46u8, db + dot + (dc + dot + dd), Sep::Byte(46u8));
    assert(host =~= da + dot + (db + dot + (dc + dot + dd)));
    assert(split(host, Sep::Byte(46u8)) =~= seq![da, db, dc, dd]);
    assert(digits_or_dots(host)) by {
        assert forall|i: int| 0 <= i < host.len() implies is_digit(#[trigger] host[i]) || host[i] == 46u8 by {
            let (la, lb, lc) = (da.len() as int, db.len() as int, dc.len() as int);
            if i < la {
                assert(host[i] == da[i]);
            } else if i == la || i == la + 1 + lb || i == la + 1 + lb + 1 + lc {
            } else if i < la + 1 + lb {
                assert(host[i] == db[i - la - 1]);
            } else if i < la + 1 + lb + 1 + lc {
                assert(host[i] == dc[i - la - 2 - lb]);
            } else {
                assert(host[i] == dd[i - la - 3 - lb - lc]);
            }
        }
    }
    assert(no_sep(host, Sep::Byte(58u8))) by {
        assert forall|i: int| 0 <= i < host.len() implies !is_sep(Sep::Byte(58u8), #[trigger] host[i]) by {
            assert(is_digit(host[i]) || host[i] == 46u8);
        }
    }
    assert(no_sep(dp, Sep::Byte(58u8))) by {
        assert forall|i: int| 0 <= i < dp.len() implies !is_sep(Sep::Byte(58u8), #[trigger] dp[i]) by {
            assert(is_digit(dp[i]));
        }
    }
    lemma_split_single(dp, Sep::Byte(58u8));
    lemma_split_join(host, 58u8, dp, Sep::Byte(58u8));
    let t = endpoint_text(e);
    assert(t =~= host + seq![58u8] + dp);
    assert(split(t, Sep::Byte(58u8)) =~= seq![host, dp]);
    assert(h == a * 16777216 + b * 65536 + c * 256 + d) by {
        lemma_fundamental_div_mod(h, 256);
        lemma_fundamental_div_mod(h / 256, 256);
        lemma_fundamental_div_mod(h / 65536, 256);
        lemma_div_denominator(h, 256, 256);
        lemma_div_denominator(h / 256, 256, 256);
        lemma_div_denominator(h, 65536, 256);
        assert(h / 65536 / 256 == h / 16777216);
    }
    assert(is_ascii_bytes(t) && no_sep(t, Sep::Space)) by {
        assert forall|i: int| 0 <= i < t.len() implies #[trigger] t[i] < 128 && !is_sep(Sep::Space, t[i]) by {
            if i < host.len() {
                assert(t[i] == host[i]);
                assert(is_digit(host[i]) || host[i] == 46u8);
            } else if i > host.len() {
                assert(t[i] == dp[i - host.len() - 1]);
                assert(is_digit(dp[i - host.len() - 1]));
            }
        }
    }
}

/// The symbols of the catalog `cat` at the indices `ts`.
pub open spec fn symbols_of(cat: Seq<Seq<u8>>, ts: Seq<usize>) -> Seq<Seq<u8>> {
    ts.map_values(|t: usize| cat[t as int])
}

/// A valid symbol is non-empty ASCII without spaces or commas.
proof fn lemma_symbol_bytes(x: Seq<u8>)
    requires
        valid_symbol(x),
    ensures
        x.len() > 0,
        is_ascii_bytes(x),
        no_sep(x, Sep::Space),
        no_sep(x, Sep::Byte(44u8)),
{
    assert forall|i: int| 0 <= i < x.len() implies #[trigger] x[i] < 128 && !is_sep(Sep::Space, x[i])
        && !is_sep(Sep::Byte(44u8), x[i]) by {
        assert(is_symbol_byte(x[i]));
    }
}

/// Symbols joined by commas split back into the symbols.
proof fn lemma_joined(ss: Seq<Seq<u8>>)
    requires
        ss.len() > 0,
        forall|i: int| 0 <= i < ss.len() ==> valid_symbol(#[trigger] ss[i]),
    ensures
        split(joined(ss), Sep::Byte(44u8)) == ss,
        joined(ss).len() > 0,
        is_ascii_bytes(joined(ss)),
        no_sep(joined(ss), Sep::Space),
    decreases ss.len(),
{
    let x = ss.last();
    lemma_symbol_bytes(x);
    if ss.len() == 1 {
        lemma_split_single(x, Sep::Byte(44u8));
        assert(seq![x] =~= ss);
    } else {
        let p = ss.drop_last();
        assert forall|i: int| 0 <= i < p.len() implies valid_symbol(#[trigger] p[i]) by {
            assert(p[i] == ss[i]);
        }
        lemma_joined(p);
        let jp = joined(p);
        lemma_split_append(jp, 44u8, x, Sep::Byte(44u8));
        assert(p.push(x) =~= ss);
        let j = joined(ss);
        assert(j == jp + seq![44u8] + x);
        assert forall|i: int| 0 <= i < j.len() implies #[trigger] j[i] < 128 && !is_sep(Sep::Space, j[i]) by {
            if i < jp.len() {
                assert(j[i] == jp[i]);
            } else if i > jp.len() {
                assert(j[i] == x[i - jp.len() - 1]);
            }
        }
    }
}

/// The subscribe line for distinct catalog tickers `ts` and the endpoint
/// `e` reads back as a subscription of `e` to exactly `ts`.
pub proof fn lemma_subscribe_message_parses(cat: Seq<Seq<u8>>, ts: Seq<usize>, e: Endpoint)
    requires
        valid_catalog(cat),
        cat.len() <= usize::MAX,
        valid_tickers(ts, cat.len()),
    ensures
        forall|r: Result<Command, RequestError>|
            #[trigger] parsed(subscribe_text(symbols_of(cat, ts), e), cat, r)
                ==> (r matches Ok(Command::Subscribe { tickers, endpoint }) && tickers@ == ts
                && endpoint == e),
{
    let ss = symbols_of(cat, ts);
    assert forall|i: int| 0 <= i < ss.len() implies valid_symbol(#[trigger] ss[i]) by {
        assert(ss[i] == cat[ts[i] as int]);
    }
    lemma_joined(ss);
    lemma_endpoint_round_trip(e);
    let w = subscribe_word();
    let j = joined(ss);
    let t = endpoint_text(e);
    let msg = subscribe_text(ss, e);
    let sp = seq![32u8];
    assert(no_sep(w, Sep::Space));
    lemma_split_join(t, 10u8, Seq::empty(), Sep::Space);
    lemma_split_join(j, 32u8, t + seq![10u8] + Seq::<u8>::empty(), Sep::Space);
    lemma_split_join(w, 32u8, j + sp + (t + seq![10u8] + Seq::<u8>::empty()), Sep::Space);
    assert(msg =~= w + sp + (j + sp + (t + seq![10u8] + Seq::<u8>::empty())));
    let pieces = split(msg, Sep::Space);
    assert(split(Seq::<u8>::empty(), Sep::Space) =~= seq![Seq::<u8>::empty()]);
    assert(pieces =~= seq![w, j, t, Seq::<u8>::empty()]);
    lemma_nonempty_all(seq![w, j, t]);
    assert(pieces.drop_last() =~= seq![w, j, t]);
    assert(words(msg) =~= seq![w, j, t]);
    assert(is_ascii_bytes(msg)) by {
        assert forall|i: int| 0 <= i < msg.len() implies #[trigger] msg[i] < 128 by {
            let (lw, lj, lt) = (w.len() as int, j.len() as int, t.len() as int);
            if i < lw {
                assert(msg[i] == w[i]);
            } else if lw < i < lw + 1 + lj {
                assert(msg[i] == j[i - lw - 1]);
            } else if lw + 1 + lj < i < lw + 2 + lj + lt {
                assert(msg[i] == t[i - lw - 2 - lj]);
            }
        }
    }
    lemma_ascii_utf8(msg);
    lemma_nonempty_all(ss);
    assert(list_items(j) == ss);
    lemma_valid_list_accepted(cat, ts);
    assert(check_tickers(j, cat) == check_items(ss, cat));
}

} // verus!
