//! Stock quotes and their data-channel wire form
//! `ticker|price|volume|timestamp`.
//!
//! A price is held in hundredths of a currency unit and written with two
//! decimals (`101.50`); it is read back from a numeral with an optional
//! fraction of one or two digits. Each numeric field may start with `+`.

use vstd::prelude::*;
use vstd::string::StringSliceAdditionalSpecFns;
use vstd::utf8::*;
use crate::decimal::{
    all_digits, decimal, digits_value, is_digit, lemma_decimal, numeral, parse_numeral,
    parse_unsigned, unsigned, PLUS,
    push_decimal,
};
use crate::error::QuoteError;
use crate::text::{
    is_ascii_bytes, is_sep, is_text, lemma_ascii_utf8, lemma_piece_utf8, lemma_range,
    lemma_split_join, lemma_split_len, lemma_split_single, no_sep, push_str, split, split_ranges,
    string_from_utf8, Sep,
};

verus! {

broadcast use {encode_utf8_decode_utf8, encode_utf8_valid_utf8};

/// Byte that joins the four fields of an encoded quote.
pub const DELIMITER: u8 = 124;

/// Byte that separates a price's whole part from its fraction.
pub const DECIMAL_POINT: u8 = 46;

/// One quote of a ticker at an instant.
#[derive(Debug, Clone)]
pub struct StockQuote {
    pub ticker: String,
    /// Price in hundredths.
    pub price: u64,
    pub volume: u32,
    /// Seconds since the Unix epoch.
    pub timestamp: u64,
}

/// What a quote holds, with the ticker as characters.
pub struct QuoteView {
    pub ticker: Seq<char>,
    pub price: u64,
    pub volume: u32,
    pub timestamp: u64,
}

impl View for StockQuote {
    type V = QuoteView;

    open spec fn view(&self) -> QuoteView {
        QuoteView {
            ticker: self.ticker@,
            price: self.price,
            volume: self.volume,
            timestamp: self.timestamp,
        }
    }
}

/// A quote can be framed when its ticker's text holds no delimiter.
pub open spec fn valid_quote(q: QuoteView) -> bool {
    !encode_utf8(q.ticker).contains(DELIMITER)
}

/// The two-decimal text of a price in hundredths.
pub open spec fn price_text(p: nat) -> Seq<u8> {
    decimal(p / 100) + seq![DECIMAL_POINT, (48 + (p % 100) / 10) as u8, (48 + p % 10) as u8]
}

/// The wire form of a quote.
pub open spec fn encode(q: QuoteView) -> Seq<u8> {
    encode_utf8(q.ticker) + seq![DELIMITER] + price_text(q.price as nat) + seq![DELIMITER]
        + decimal(q.volume as nat) + seq![DELIMITER] + decimal(q.timestamp as nat)
}

/// Hundredths given by a fraction of at most two digits.
pub open spec fn fraction_value(fr: Seq<u8>) -> nat {
    if fr.len() == 0 {
        0
    } else if fr.len() == 1 {
        digits_value(fr) * 10
    } else {
        digits_value(fr)
    }
}

/// The price in hundredths that the field `f` denotes, when it is a
/// numeral with an optional fraction of one or two digits and fits in `u64`.
pub open spec fn price_value(f: Seq<u8>) -> Option<nat> {
    let parts = split(f, Sep::Byte(DECIMAL_POINT));
    let whole = parts[0];
    let fr = if parts.len() == 2 {
        parts[1]
    } else {
        Seq::empty()
    };
    let v = digits_value(whole) * 100 + fraction_value(fr);
    if (parts.len() == 1 || (parts.len() == 2 && 1 <= fr.len() <= 2)) && whole.len() > 0
        && all_digits(whole) && all_digits(fr) && v <= u64::MAX {
        Some(v)
    } else {
        None
    }
}

/// The price that a price field denotes: an optional `+`, then a price.
pub open spec fn price_field(f: Seq<u8>) -> Option<nat> {
    if f.len() > 0 && f[0] == PLUS {
        price_value(f.drop_first())
    } else {
        price_value(f)
    }
}

/// What decoding the bytes `b` gives.
pub open spec fn decode(b: Seq<u8>) -> Result<QuoteView, QuoteError> {
    let fs = split(b, Sep::Byte(DELIMITER));
    if !valid_utf8(b) {
        Err(QuoteError::InvalidQuote("not utf-8 text"))
    } else if fs.len() != 4 {
        Err(QuoteError::MissingField("expected four fields"))
    } else {
        match price_field(fs[1]) {
            None => Err(QuoteError::InvalidPrice),
            Some(p) => match unsigned(fs[2], u32::MAX as nat) {
                None => Err(QuoteError::InvalidVolume),
                Some(v) => match unsigned(fs[3], u64::MAX as nat) {
                    None => Err(QuoteError::InvalidTimestamp),
                    Some(t) => Ok(
                        QuoteView {
                            ticker: decode_utf8(fs[0]),
                            price: p as u64,
                            volume: v as u32,
                            timestamp: t as u64,
                        },
                    ),
                },
            },
        }
    }
}

/// Whether the result of a decoder agrees with `decode(b)`.
pub open spec fn decoded_as(r: Result<StockQuote, QuoteError>, b: Seq<u8>) -> bool {
    match decode(b) {
        Ok(v) => r matches Ok(q) && q@ == v,
        Err(e) => r == Err::<StockQuote, QuoteError>(e),
    }
}

impl StockQuote {
    /// The wire form, as bytes.
    pub fn to_bytes(&self) -> (r: Vec<u8>)
        ensures
            r@ == encode(self@),
    {
        let mut out: Vec<u8> = Vec::new();
        push_str(&mut out, self.ticker.as_str());
        out.push(DELIMITER);
        push_decimal(&mut out, self.price / 100);
        out.push(DECIMAL_POINT);
        out.push(48 + ((self.price % 100) / 10) as u8);
        out.push(48 + (self.price % 10) as u8);
        out.push(DELIMITER);
        push_decimal(&mut out, self.volume as u64);
        out.push(DELIMITER);
        push_decimal(&mut out, self.timestamp);
        assert(out@ =~= encode(self@));
        out
    }

    /// The wire form, as text.
    pub fn to_string(&self) -> (r: String)
        ensures
            encode_utf8(r@) == encode(self@),
    {
        let b = self.to_bytes();
        proof {
            lemma_encode_utf8(self@);
        }
        match string_from_utf8(b.as_slice()) {
            Some(s) => {
                proof {
                    decode_utf8_encode_utf8(b@);
                }
                s
            },
            None => String::new(),
        }
    }

    /// Reads a quote from its wire form.
    pub fn from_bytes(bytes: &[u8]) -> (r: Result<StockQuote, QuoteError>)
        ensures
            decoded_as(r, bytes@),
    {
        if !is_text(bytes) {
            return Err(QuoteError::InvalidQuote("not utf-8 text"));
        }
        let fs = split_ranges(bytes, Sep::Byte(DELIMITER));
        if fs.len() != 4 {
            return Err(QuoteError::MissingField("expected four fields"));
        }
        let ghost pieces = split(bytes@, Sep::Byte(DELIMITER));
        proof {
            lemma_range(bytes@, fs@, pieces, 0);
            lemma_range(bytes@, fs@, pieces, 1);
            lemma_range(bytes@, fs@, pieces, 2);
            lemma_range(bytes@, fs@, pieces, 3);
        }
        let price = match parse_price_field(&bytes[fs[1].0..fs[1].1]) {
            Some(p) => p,
            None => {
                return Err(QuoteError::InvalidPrice);
            },
        };
        let volume = match parse_unsigned(&bytes[fs[2].0..fs[2].1], u32::MAX as u64) {
            Some(v) => v as u32,
            None => {
                return Err(QuoteError::InvalidVolume);
            },
        };
        let timestamp = match parse_unsigned(&bytes[fs[3].0..fs[3].1], u64::MAX) {
            Some(t) => t,
            None => {
                return Err(QuoteError::InvalidTimestamp);
            },
        };
        proof {
            lemma_piece_utf8(bytes@, fs@[0].0 as int, fs@[0].1 as int);
        }
        match string_from_utf8(&bytes[fs[0].0..fs[0].1]) {
            Some(ticker) => Ok(StockQuote { ticker, price, volume, timestamp }),
            None => Err(QuoteError::InvalidQuote("not utf-8 text")),
        }
    }

    /// Reads a quote from its wire form, given as text.
    pub fn from_string(s: &str) -> (r: Result<StockQuote, QuoteError>)
        ensures
            decoded_as(r, s.spec_bytes()),
    {
        Self::from_bytes(s.as_bytes())
    }
}

/// Reads a price field: an optional `+`, then a price.
fn parse_price_field(f: &[u8]) -> (r: Option<u64>)
    ensures
        r matches Some(p) ==> price_field(f@) == Some(p as nat),
        r is None ==> price_field(f@) is None,
{
    if f.len() > 0 && f[0] == PLUS {
        let rest = &f[1..f.len()];
        assert(rest@ == f@.drop_first());
        parse_price(rest)
    } else {
        parse_price(f)
    }
}

/// Reads a price without a sign.
fn parse_price(f: &[u8]) -> (r: Option<u64>)
    ensures
        r matches Some(p) ==> price_value(f@) == Some(p as nat),
        r is None ==> price_value(f@) is None,
{
    let parts = split_ranges(f, Sep::Byte(DECIMAL_POINT));
    let ghost ps = split(f@, Sep::Byte(DECIMAL_POINT));
    proof {
        lemma_split_len(f@, Sep::Byte(DECIMAL_POINT));
    }
    proof {
        lemma_range(f@, parts@, ps, 0);
    }
    if parts.len() > 2 {
        return None;
    }
    let (frac, fr_len): (u64, usize) = if parts.len() == 2 {
        proof {
            lemma_range(f@, parts@, ps, 1);
        }
        let fr = &f[parts[1].0..parts[1].1];
        if fr.len() == 0 || fr.len() > 2 {
            return None;
        }
        match parse_numeral(fr, 99) {
            Some(d) => {
                if fr.len() == 1 {
                    (d * 10, 1)
                } else {
                    (d, 2)
                }
            },
            None => {
                proof {
                    if all_digits(fr@) {
                        lemma_two_digits(fr@);
                    }
                }
                return None;
            },
        }
    } else {
        (0, 0)
    };
    let ghost fr_seq = if parts.len() == 2 {
        ps[1]
    } else {
        Seq::<u8>::empty()
    };
    assert(frac == fraction_value(fr_seq)) by {
        if parts.len() == 2 {
            lemma_two_digits(fr_seq);
        }
    }
    let bound = (u64::MAX - frac) / 100;
    match parse_numeral(&f[parts[0].0..parts[0].1], bound) {
        Some(w) => {
            assert(w * 100 + frac <= u64::MAX) by (nonlinear_arith)
                requires
                    w <= bound,
                    bound == (u64::MAX - frac) / 100,
                    frac <= u64::MAX,
            ;
            Some(w * 100 + frac)
        },
        None => {
            proof {
                let whole = ps[0];
                if whole.len() > 0 && all_digits(whole) {
                    let dv = digits_value(whole);
                    assert(dv > bound);
                    assert(dv * 100 + frac > u64::MAX) by (nonlinear_arith)
                        requires
                            dv > bound,
                            bound == (u64::MAX - frac) / 100,
                            frac <= u64::MAX,
                    ;
                }
            }
            None
        },
    }
}

/// One or two digits make at most ninety-nine.
proof fn lemma_two_digits(s: Seq<u8>)
    requires
        1 <= s.len() <= 2,
        all_digits(s),
    ensures
        digits_value(s) <= 99,
{
    let t = if s.len() == 2 {
        s.drop_last()
    } else {
        s
    };
    assert(t.len() == 1);
    assert(t.drop_last() =~= Seq::<u8>::empty());
    assert(digits_value(t.drop_last()) == 0);
    assert(t.last() == s[0]);
    assert(is_digit(s[0]));
    assert(digits_value(t) <= 9);
    if s.len() == 2 {
        assert(is_digit(s[1]));
        assert(digits_value(s) == digits_value(t) * 10 + (s[1] - 48) as nat);
    }
}

/// The wire form of a quote is valid UTF-8.
pub proof fn lemma_encode_utf8(q: QuoteView)
    ensures
        valid_utf8(encode(q)),
{
    let t = encode_utf8(q.ticker);
    let rest = seq![DELIMITER] + price_text(q.price as nat) + seq![DELIMITER] + decimal(
        q.volume as nat,
    ) + seq![DELIMITER] + decimal(q.timestamp as nat);
    lemma_decimal((q.price / 100) as nat);
    lemma_decimal(q.volume as nat);
    lemma_decimal(q.timestamp as nat);
    assert(is_ascii_bytes(rest)) by {
        assert forall|i: int| 0 <= i < rest.len() implies #[trigger] rest[i] < 128 by {
            let pt = price_text(q.price as nat);
            let dp = decimal((q.price / 100) as nat);
            let dv = decimal(q.volume as nat);
            let dt = decimal(q.timestamp as nat);
            if 1 <= i < 1 + dp.len() {
                assert(rest[i] == dp[i - 1]);
            } else if 1 + pt.len() + 1 <= i < 1 + pt.len() + 1 + dv.len() {
                assert(rest[i] == dv[i - 2 - pt.len()]);
            } else if 1 + pt.len() + 1 + dv.len() + 1 <= i {
                assert(rest[i] == dt[i - 3 - pt.len() - dv.len()]);
            }
        }
    }
    lemma_ascii_utf8(rest);
    valid_utf8_concat(t, rest);
    assert(encode(q) =~= t + rest);
}

/// A numeral holds neither delimiter nor decimal point.
proof fn lemma_decimal_no_sep(n: nat)
    ensures
        no_sep(decimal(n), Sep::Byte(DELIMITER)),
        no_sep(decimal(n), Sep::Byte(DECIMAL_POINT)),
        decimal(n).len() > 0,
        all_digits(decimal(n)),
        digits_value(decimal(n)) == n,
{
    lemma_decimal(n);
    let d = decimal(n);
    assert forall|i: int| 0 <= i < d.len() implies !is_sep(Sep::Byte(DELIMITER), #[trigger] d[i]) by {
        assert(is_digit(d[i]));
    }
    assert forall|i: int| 0 <= i < d.len() implies !is_sep(Sep::Byte(DECIMAL_POINT), #[trigger] d[i]) by {
        assert(is_digit(d[i]));
    }
}

/// The price text is read back as the same price.
proof fn lemma_price_round_trip(p: u64)
    ensures
        price_value(price_text(p as nat)) == Some(p as nat),
        price_text(p as nat).len() > 0 && price_text(p as nat)[0] != PLUS,
        no_sep(price_text(p as nat), Sep::Byte(DELIMITER)),
{
    let w = decimal((p / 100) as nat);
    let d1 = (48 + (p % 100) / 10) as u8;
    let d2 = (48 + p % 10) as u8;
    let fr = seq![d1, d2];
    lemma_decimal_no_sep((p / 100) as nat);
    assert(no_sep(fr, Sep::Byte(DECIMAL_POINT)));
    assert(no_sep(fr, Sep::Byte(DELIMITER)));
    lemma_split_single(fr, Sep::Byte(DECIMAL_POINT));
    lemma_split_join(w, DECIMAL_POINT, fr, Sep::Byte(DECIMAL_POINT));
    assert(price_text(p as nat) =~= w + seq![DECIMAL_POINT] + fr);
    let parts = split(price_text(p as nat), Sep::Byte(DECIMAL_POINT));
    assert(parts =~= seq![w, fr]);
    assert(all_digits(fr));
    assert(fr.drop_last() =~= seq![d1]);
    assert(seq![d1].drop_last() =~= Seq::<u8>::empty());
    assert((p % 100) / 10 <= 9);
    assert(seq![d1].last() == d1);
    assert(digits_value(Seq::<u8>::empty()) == 0);
    assert((d1 - 48) as nat == ((p % 100) / 10) as nat);
    assert(digits_value(seq![d1]) == ((p % 100) / 10) as nat);
    assert(digits_value(fr) == ((p % 100) / 10) as nat * 10 + (p % 10) as nat);
    assert(((p % 100) / 10) * 10 + p % 10 == p % 100);
    assert((p / 100) * 100 + p % 100 == p);
    let pt = price_text(p as nat);
    assert forall|i: int| 0 <= i < pt.len() implies !is_sep(Sep::Byte(DELIMITER), #[trigger] pt[i]) by {
        if i < w.len() {
            assert(pt[i] == w[i]);
        }
    }
}

/// Decoding the wire form of a quote gives the quote back.
pub proof fn lemma_round_trip(q: QuoteView)
    requires
        valid_quote(q),
    ensures
        decode(encode(q)) == Ok::<QuoteView, QuoteError>(q),
{
    let c = Sep::Byte(DELIMITER);
    let t = encode_utf8(q.ticker);
    let pt = price_text(q.price as nat);
    let dv = decimal(q.volume as nat);
    let dt = decimal(q.timestamp as nat);
    let x = seq![DELIMITER];
    lemma_encode_utf8(q);
    lemma_price_round_trip(q.price);
    lemma_decimal_no_sep(q.volume as nat);
    lemma_decimal_no_sep(q.timestamp as nat);
    assert(no_sep(t, c)) by {
        assert forall|i: int| 0 <= i < t.len() implies !is_sep(c, #[trigger] t[i]) by {
            if t[i] == DELIMITER {
                assert(t.contains(DELIMITER));
            }
        }
    }
    lemma_split_single(dt, c);
    lemma_split_join(dv, DELIMITER, dt, c);
    lemma_split_join(pt, DELIMITER, dv + x + dt, c);
    lemma_split_join(t, DELIMITER, pt + x + (dv + x + dt), c);
    assert(encode(q) =~= t + x + (pt + x + (dv + x + dt)));
    assert(split(encode(q), c) =~= seq![t, pt, dv, dt]);
    assert(is_digit(dv[0]) && is_digit(dt[0]));
}

/// Decoding fails with the error of the first rule the bytes break: text,
/// then the four-field count, then price, volume and timestamp in turn.
pub proof fn lemma_decode_failures(b: Seq<u8>)
    ensures
        ({
            let fs = split(b, Sep::Byte(DELIMITER));
            &&& !valid_utf8(b) ==> (decode(b) matches Err(QuoteError::InvalidQuote(_)))
            &&& valid_utf8(b) && fs.len() != 4 ==> (decode(b) matches Err(
                QuoteError::MissingField(_),
            ))
            &&& valid_utf8(b) && fs.len() == 4 && price_field(fs[1]) is None ==> decode(b)
                == Err::<QuoteView, QuoteError>(QuoteError::InvalidPrice)
            &&& valid_utf8(b) && fs.len() == 4 && price_field(fs[1]) is Some && unsigned(
                fs[2],
                u32::MAX as nat,
            ) is None ==> decode(b) == Err::<QuoteView, QuoteError>(QuoteError::InvalidVolume)
            &&& valid_utf8(b) && fs.len() == 4 && price_field(fs[1]) is Some && unsigned(
                fs[2],
                u32::MAX as nat,
            ) is Some && unsigned(fs[3], u64::MAX as nat) is None ==> decode(b) == Err::<
                QuoteView,
                QuoteError,
            >(QuoteError::InvalidTimestamp)
        }),
{
}

} // verus!
