//! The ticker catalog: the fixed set of symbols a process serves, read once
//! from a text with one symbol per line.

use vstd::prelude::*;
use vstd::string::StringSliceAdditionalSpecFns;
use vstd::utf8::*;
use crate::error::TickersError;
use crate::text::{
    lemma_piece_utf8, lemma_range, nonempty, ranges_bounded, ranges_match, split,
    split_ranges, string_from_utf8, Sep,
};

verus! {

broadcast use {encode_utf8_decode_utf8, decode_utf8_encode_utf8};

/// Longest accepted symbol, in bytes.
pub const MAX_SYMBOL_LEN: usize = 12;

/// Line feed.
pub const NEWLINE: u8 = 10;

/// A character with the Unicode `White_Space` property.
pub open spec fn is_white_space(c: char) -> bool {
    let x = c as u32;
    (9 <= x <= 13) || x == 32 || x == 0x85 || x == 0xa0 || x == 0x1680 || (0x2000 <= x <= 0x200a)
        || x == 0x2028 || x == 0x2029 || x == 0x202f || x == 0x205f || x == 0x3000
}

pub open spec fn trim_start(s: Seq<char>) -> Seq<char>
    decreases s.len(),
{
    if s.len() > 0 && is_white_space(s[0]) {
        trim_start(s.drop_first())
    } else {
        s
    }
}

pub open spec fn trim_end(s: Seq<char>) -> Seq<char>
    decreases s.len(),
{
    if s.len() > 0 && is_white_space(s.last()) {
        trim_end(s.drop_last())
    } else {
        s
    }
}

/// `s` without its leading and trailing white space.
pub open spec fn trim(s: Seq<char>) -> Seq<char> {
    trim_end(trim_start(s))
}

/// A line of a catalog source, decoded and trimmed, as UTF-8 bytes.
pub open spec fn trimmed_line(l: Seq<u8>) -> Seq<u8> {
    encode_utf8(trim(decode_utf8(l)))
}

/// The trimmed, non-empty lines of a catalog source.
pub open spec fn source_lines(b: Seq<u8>) -> Seq<Seq<u8>> {
    nonempty(split(b, Sep::Byte(NEWLINE)).map_values(|l: Seq<u8>| trimmed_line(l)))
}

/// Relies on `str::trim`: it removes the leading and trailing characters
/// that have the Unicode `White_Space` property.
#[verifier::external_body]
fn trim_text(s: &str) -> (r: &str)
    ensures
        r@ == trim(s@),
{
    s.trim()
}

pub open spec fn is_symbol_byte(c: u8) -> bool {
    (65 <= c <= 90) || (48 <= c <= 57)
}

/// A ticker symbol: one to `MAX_SYMBOL_LEN` upper-case letters and digits.
pub open spec fn valid_symbol(s: Seq<u8>) -> bool {
    &&& 1 <= s.len() <= MAX_SYMBOL_LEN
    &&& forall|i: int| 0 <= i < s.len() ==> is_symbol_byte(#[trigger] s[i])
}

/// Whether line `k` of `ls` cannot join a catalog made of the lines before it.
pub open spec fn bad_line(ls: Seq<Seq<u8>>, k: int) -> bool {
    !valid_symbol(ls[k]) || exists|j: int| 0 <= j < k && ls[j] == ls[k]
}

/// Whether `k` is the first line that cannot join the catalog.
pub open spec fn first_bad_line(ls: Seq<Seq<u8>>, k: int) -> bool {
    &&& 0 <= k < ls.len()
    &&& bad_line(ls, k)
    &&& forall|j: int| 0 <= j < k ==> !bad_line(ls, j)
}

/// Whether every line can join the catalog.
pub open spec fn all_good(ls: Seq<Seq<u8>>) -> bool {
    forall|j: int| 0 <= j < ls.len() ==> !bad_line(ls, j)
}

/// Whether the strings of `r` hold exactly the byte strings of `ls`.
pub open spec fn strings_hold(r: Seq<String>, ls: Seq<Seq<u8>>) -> bool {
    &&& r.len() == ls.len()
    &&& forall|i: int| 0 <= i < r.len() ==> encode_utf8((#[trigger] r[i])@) == ls[i]
}

/// The trimmed, non-empty lines of a ticker source, in order.
pub fn all(tickers_raw: &str) -> (r: Vec<String>)
    ensures
        strings_hold(r@, source_lines(tickers_raw.spec_bytes())),
{
    let b = tickers_raw.as_bytes();
    let ghost bs = b@;
    proof {
        encode_utf8_valid_utf8(tickers_raw@);
    }
    let lines = split_ranges(b, Sep::Byte(NEWLINE));
    let ghost pieces = split(bs, Sep::Byte(NEWLINE));
    let ghost trimmed = pieces.map_values(|l: Seq<u8>| trimmed_line(l));
    let mut r: Vec<String> = Vec::new();
    let mut i: usize = 0;
    while i < lines.len()
        invariant
            b@ == bs,
            valid_utf8(bs),
            ranges_match(bs, lines@, pieces),
            ranges_bounded(bs, lines@, Sep::Byte(NEWLINE)),
            trimmed == pieces.map_values(|l: Seq<u8>| trimmed_line(l)),
            i <= lines@.len(),
            strings_hold(r@, nonempty(trimmed.subrange(0, i as int))),
        decreases lines.len() - i,
    {
        proof {
            lemma_range(bs, lines@, pieces, i as int);
            lemma_piece_utf8(bs, lines@[i as int].0 as int, lines@[i as int].1 as int);
        }
        let (lo, hi) = lines[i];
        let ghost sub = trimmed.subrange(0, i as int + 1);
        assert(sub.drop_last() == trimmed.subrange(0, i as int));
        assert(sub.last() == trimmed_line(pieces[i as int]));
        match string_from_utf8(&b[lo..hi]) {
            Some(line) => {
                let t = trim_text(line.as_str());
                assert(t.spec_bytes() == trimmed_line(pieces[i as int]));
                if t.as_bytes().len() > 0 {
                    let owned = t.to_owned();
                    r.push(owned);
                }
            },
            None => {},
        }
        i = i + 1;
        assert forall|k: int| 0 <= k < r@.len() implies encode_utf8((#[trigger] r@[k])@)
            == nonempty(trimmed.subrange(0, i as int))[k] by {}
    }
    assert(trimmed.subrange(0, lines@.len() as int) == trimmed);
    r
}

/// Whether the byte strings `a` and `b` are equal.
pub fn bytes_equal(a: &[u8], b: &[u8]) -> (r: bool)
    ensures
        r == (a@ == b@),
{
    if a.len() != b.len() {
        return false;
    }
    let mut i: usize = 0;
    while i < a.len()
        invariant
            a@.len() == b@.len(),
            i <= a@.len(),
            forall|j: int| 0 <= j < i ==> a@[j] == b@[j],
        decreases a.len() - i,
    {
        if a[i] != b[i] {
            return false;
        }
        i = i + 1;
    }
    assert(a@ =~= b@);
    true
}

fn is_valid_symbol(s: &[u8]) -> (r: bool)
    ensures
        r == valid_symbol(s@),
{
    if s.len() == 0 || s.len() > MAX_SYMBOL_LEN {
        return false;
    }
    let mut i: usize = 0;
    while i < s.len()
        invariant
            i <= s@.len(),
            forall|j: int| 0 <= j < i ==> is_symbol_byte(#[trigger] s@[j]),
        decreases s.len() - i,
    {
        let c = s[i];
        if !((65 <= c && c <= 90) || (48 <= c && c <= 57)) {
            return false;
        }
        i = i + 1;
    }
    true
}

/// The catalog's symbols, distinct and each a valid symbol.
#[derive(Debug)]
pub struct Catalog {
    symbols: Vec<String>,
}

impl View for Catalog {
    type V = Seq<Seq<u8>>;

    closed spec fn view(&self) -> Seq<Seq<u8>> {
        Seq::new(self.symbols@.len(), |i: int| encode_utf8(self.symbols@[i]@))
    }
}

/// A catalog's symbols are valid and distinct.
pub open spec fn valid_catalog(c: Seq<Seq<u8>>) -> bool {
    &&& c.no_duplicates()
    &&& forall|i: int| 0 <= i < c.len() ==> valid_symbol(#[trigger] c[i])
}

/// The index of `item` in the catalog `c`, if it is there.
pub open spec fn index_in(c: Seq<Seq<u8>>, item: Seq<u8>) -> Option<nat> {
    if c.contains(item) {
        Some(choose|i: nat| i < c.len() && c[i as int] == item)
    } else {
        None
    }
}

/// What loading the lines `ls` with at most `max` symbols gives: the
/// catalog of those lines, or the first error met.
pub open spec fn loaded(ls: Seq<Seq<u8>>, max: nat, r: Result<Catalog, TickersError>) -> bool {
    match r {
        Ok(c) => c.wf() && c@ == ls && 0 < ls.len() <= max && all_good(ls),
        Err(TickersError::FileEmpty) => ls.len() == 0,
        Err(TickersError::TooManyTickers) => 0 < ls.len() && max < ls.len(),
        Err(TickersError::InvalidLine(s)) => 0 < ls.len() <= max && exists|k: int|
            #[trigger] first_bad_line(ls, k) && encode_utf8(s@) == ls[k],
    }
}

impl Catalog {
    pub open spec fn wf(&self) -> bool {
        valid_catalog(self@)
    }

    /// Reads a catalog from its source: one symbol per line, surrounding
    /// whitespace and blank lines ignored, at most `max_symbols` symbols.
    pub fn load(source: &str, max_symbols: usize) -> (r: Result<Catalog, TickersError>)
        ensures
            loaded(source_lines(source.spec_bytes()), max_symbols as nat, r),
    {
        let lines = all(source);
        let ghost ls = source_lines(source.spec_bytes());
        if lines.len() == 0 {
            return Err(TickersError::FileEmpty);
        }
        if lines.len() > max_symbols {
            return Err(TickersError::TooManyTickers);
        }
        let mut symbols: Vec<String> = Vec::new();
        let mut i: usize = 0;
        while i < lines.len()
            invariant
                ls == source_lines(source.spec_bytes()),
                strings_hold(lines@, ls),
                0 < lines@.len() <= max_symbols,
                i <= lines@.len(),
                strings_hold(symbols@, ls.subrange(0, i as int)),
                forall|j: int| 0 <= j < i ==> !bad_line(ls, j),
            decreases lines.len() - i,
        {
            let line = lines[i].as_str().as_bytes();
            assert(line@ == ls[i as int]);
            let mut bad = !is_valid_symbol(line);
            let mut j: usize = 0;
            while j < i && !bad
                invariant
                    strings_hold(lines@, ls),
                    strings_hold(symbols@, ls.subrange(0, i as int)),
                    i < lines@.len(),
                    j <= i,
                    line@ == ls[i as int],
                    bad == (!valid_symbol(line@) || exists|k: int| 0 <= k < j && ls[k] == ls[i as int]),
                decreases i - j,
            {
                let prev = symbols[j].as_str().as_bytes();
                assert(prev@ == ls.subrange(0, i as int)[j as int]);
                assert(prev@ == ls[j as int]);
                let ghost j0 = j as int;
                if bytes_equal(prev, line) {
                    bad = true;
                }
                j = j + 1;
                assert(bad == (!valid_symbol(line@) || exists|k: int| 0 <= k < j && ls[k] == ls[i as int])) by {
                    if exists|k: int| 0 <= k < j && ls[k] == ls[i as int] {
                        let k = choose|k: int| 0 <= k < j && ls[k] == ls[i as int];
                        if k < j0 {
                            assert(exists|k: int| 0 <= k < j0 && ls[k] == ls[i as int]);
                        }
                    }
                    if bad && valid_symbol(line@) && !(exists|k: int| 0 <= k < j0 && ls[k] == ls[i as int]) {
                        assert(ls[j0] == ls[i as int]);
                    }
                }
            }
            if bad {
                proof {
                    assert(bad_line(ls, i as int));
                    assert(first_bad_line(ls, i as int));
                    assert(encode_utf8(lines@[i as int]@) == ls[i as int]);
                }
                let text = lines[i].clone();
                assert(encode_utf8(text@) == ls[i as int]);
                assert(exists|k: int| first_bad_line(ls, k) && encode_utf8(text@) == ls[k]);
                return Err(TickersError::InvalidLine(text));
            }
            assert(j == i);
            assert(!(exists|k: int| 0 <= k < i && ls[k] == ls[i as int]));
            assert(valid_symbol(ls[i as int]));
            assert(!bad_line(ls, i as int));
            symbols.push(lines[i].clone());
            i = i + 1;
            assert(ls.subrange(0, i as int).drop_last() == ls.subrange(0, i as int - 1));
        }
        assert(ls.subrange(0, ls.len() as int) == ls);
        let c = Catalog { symbols };
        proof {
            assert(c@ =~= ls);
            assert forall|a: int, b: int| 0 <= a < ls.len() && 0 <= b < ls.len() && a != b implies ls[a]
                != ls[b] by {
                if a < b {
                    assert(!bad_line(ls, b));
                } else {
                    assert(!bad_line(ls, a));
                }
            }
            assert forall|a: int| 0 <= a < ls.len() implies valid_symbol(#[trigger] ls[a]) by {
                assert(!bad_line(ls, a));
            }
        }
        Ok(c)
    }

    /// The number of symbols.
    pub fn len(&self) -> (r: usize)
        ensures
            r == self@.len(),
    {
        self.symbols.len()
    }

    /// The symbol at index `i`.
    pub fn symbol(&self, i: usize) -> (r: &String)
        requires
            i < self@.len(),
        ensures
            encode_utf8(r@) == self@[i as int],
    {
        &self.symbols[i]
    }

    /// The index of the symbol whose text is `item`, if the catalog has it.
    pub fn index_of(&self, item: &[u8]) -> (r: Option<usize>)
        requires
            self.wf(),
        ensures
            r matches Some(i) ==> i < self@.len() && self@[i as int] == item@,
            r is None <==> !self@.contains(item@),
    {
        let mut i: usize = 0;
        while i < self.symbols.len()
            invariant
                i <= self@.len(),
                forall|j: int| 0 <= j < i ==> self@[j] != item@,
            decreases self.symbols.len() - i,
        {
            let s = self.symbols[i].as_str().as_bytes();
            if bytes_equal(s, item) {
                assert(self@[i as int] == item@);
                return Some(i);
            }
            i = i + 1;
        }
        None
    }

    /// Whether the catalog has the symbol whose text is `item`.
    pub fn contains(&self, item: &[u8]) -> (r: bool)
        requires
            self.wf(),
        ensures
            r == self@.contains(item@),
    {
        self.index_of(item).is_some()
    }
}

} // verus!
