//! Byte-level text helpers shared by the codecs: splitting on a separator
//! class, and turning checked UTF-8 bytes into strings.

use vstd::prelude::*;
use vstd::string::StringSliceAdditionalSpecFns;
use vstd::utf8::*;

verus! {

broadcast use {encode_utf8_decode_utf8, encode_utf8_valid_utf8};

/// A class of separator bytes.
#[derive(Clone, Copy, Debug, PartialEq, Eq)]
pub enum Sep {
    /// Exactly this byte.
    Byte(u8),
    /// Any ASCII whitespace byte.
    Space,
}

pub open spec fn is_space(b: u8) -> bool {
    b == 32 || b == 9 || b == 10 || b == 13 || b == 12
}

pub open spec fn is_sep(c: Sep, b: u8) -> bool {
    match c {
        Sep::Byte(x) => b == x,
        Sep::Space => is_space(b),
    }
}

pub fn sep_matches(c: Sep, b: u8) -> (r: bool)
    ensures
        r == is_sep(c, b),
{
    match c {
        Sep::Byte(x) => b == x,
        Sep::Space => b == 32 || b == 9 || b == 10 || b == 13 || b == 12,
    }
}

/// The pieces of `s` between separators; there is always one more piece
/// than there are separators.
pub open spec fn split(s: Seq<u8>, c: Sep) -> Seq<Seq<u8>>
    decreases s.len(),
{
    if s.len() == 0 {
        seq![Seq::empty()]
    } else {
        let p = split(s.drop_last(), c);
        if is_sep(c, s.last()) {
            p.push(Seq::empty())
        } else {
            p.update(p.len() - 1, p.last().push(s.last()))
        }
    }
}

/// The non-empty members of `ps`, in order.
pub open spec fn nonempty(ps: Seq<Seq<u8>>) -> Seq<Seq<u8>>
    decreases ps.len(),
{
    if ps.len() == 0 {
        Seq::empty()
    } else if ps.last().len() == 0 {
        nonempty(ps.drop_last())
    } else {
        nonempty(ps.drop_last()).push(ps.last())
    }
}

/// The whitespace-separated words of `s`.
pub open spec fn words(s: Seq<u8>) -> Seq<Seq<u8>> {
    nonempty(split(s, Sep::Space))
}

pub proof fn lemma_split_len(s: Seq<u8>, c: Sep)
    ensures
        split(s, c).len() >= 1,
    decreases s.len(),
{
    if s.len() > 0 {
        lemma_split_len(s.drop_last(), c);
    }
}

/// Whether every range of `r` is the matching piece of `pieces` within `s`.
pub open spec fn ranges_match(s: Seq<u8>, r: Seq<(usize, usize)>, pieces: Seq<Seq<u8>>) -> bool {
    &&& r.len() == pieces.len()
    &&& forall|i: int|
        0 <= i < r.len() ==> {
            &&& (#[trigger] r[i]).0 <= r[i].1 <= s.len()
            &&& s.subrange(r[i].0 as int, r[i].1 as int) == pieces[i]
        }
}

/// What `ranges_match` says of one range.
pub proof fn lemma_range(s: Seq<u8>, r: Seq<(usize, usize)>, pieces: Seq<Seq<u8>>, i: int)
    requires
        ranges_match(s, r, pieces),
        0 <= i < r.len(),
    ensures
        r[i].0 <= r[i].1 <= s.len(),
        s.subrange(r[i].0 as int, r[i].1 as int) == pieces[i],
{
    assert(r[i].0 <= r[i].1);
}

/// Every piece boundary of a split sits next to a separator or an end.
pub open spec fn ranges_bounded(s: Seq<u8>, r: Seq<(usize, usize)>, c: Sep) -> bool {
    forall|i: int|
        0 <= i < r.len() ==> {
            &&& (#[trigger] r[i].0 == 0 || (r[i].0 <= s.len() && is_sep(c, s[r[i].0 - 1])))
            &&& (r[i].1 == s.len() || (r[i].1 < s.len() && is_sep(c, s[r[i].1 as int])))
        }
}

/// The ranges of the pieces of `b` between bytes of the class `c`.
pub fn split_ranges(b: &[u8], c: Sep) -> (r: Vec<(usize, usize)>)
    ensures
        ranges_match(b@, r@, split(b@, c)),
        ranges_bounded(b@, r@, c),
{
    let mut r: Vec<(usize, usize)> = Vec::new();
    let mut start: usize = 0;
    let mut i: usize = 0;
    assert(b@.subrange(0, 0) =~= Seq::<u8>::empty());
    assert(ranges_match(b@, r@.push((start, i)), split(b@.subrange(0, i as int), c)));
    while i < b.len()
        invariant
            0 <= start <= i <= b.len(),
            ranges_match(b@, r@.push((start, i)), split(b@.subrange(0, i as int), c)),
            ranges_bounded(b@, r@, c),
            start == 0 || is_sep(c, b@[start - 1]),
        decreases b.len() - i,
    {
        let ghost pre = b@.subrange(0, i as int);
        let ghost next = b@.subrange(0, i as int + 1);
        let ghost old_r = r@.push((start, i));
        let ghost p = split(pre, c);
        assert(next.drop_last() == pre);
        let x = b[i];
        if sep_matches(c, x) {
            r.push((start, i));
            assert(r@ == old_r);
            start = i + 1;
            i = i + 1;
            assert(b@.subrange(start as int, i as int) =~= Seq::<u8>::empty());
            assert(split(next, c) == p.push(Seq::empty()));
            assert(ranges_match(b@, r@.push((start, i)), split(b@.subrange(0, i as int), c)));
        } else {
            let ghost k = old_r.len() - 1;
            let ghost i0 = i as int;
            assert(old_r[k] == (start, i));
            assert(p.len() == old_r.len());
            assert(old_r[k].0 <= old_r[k].1 <= b@.len());
            assert(p[k] == b@.subrange(start as int, i0));
            assert(b@.subrange(start as int, i as int + 1) =~= b@.subrange(start as int, i as int).push(
                x,
            ));
            assert(split(next, c) == p.update(p.len() - 1, p.last().push(x)));
            i = i + 1;
            let ghost new_r = r@.push((start, i));
            assert forall|j: int| 0 <= j < new_r.len() implies (#[trigger] new_r[j]).0 <= new_r[j].1 <= b@.len()
                && b@.subrange(new_r[j].0 as int, new_r[j].1 as int) == split(next, c)[j] by {
                if j < k {
                    assert(new_r[j] == old_r[j]);
                    assert(old_r[j].0 <= old_r[j].1 <= b@.len());
                    assert(split(next, c)[j] == p[j]);
                } else {
                    assert(new_r[j] == (start, i));
                    assert(split(next, c)[j] == p[k].push(x));
                }
            }
            assert(split(next, c).len() == new_r.len());
            assert(b@.subrange(0, i as int) == next);
            assert(ranges_match(b@, r@.push((start, i)), split(b@.subrange(0, i as int), c)));
        }
    }
    assert(b@.subrange(0, b.len() as int) == b@);
    r.push((start, i));
    r
}

/// Keeps the non-empty ranges of `r`, in order.
pub fn nonempty_ranges(r: &Vec<(usize, usize)>) -> (out: Vec<(usize, usize)>)
    requires
        forall|i: int| 0 <= i < r@.len() ==> #[trigger] r@[i].0 <= r@[i].1,
    ensures
        out@ == nonempty_range_seq(r@),
{
    let mut out: Vec<(usize, usize)> = Vec::new();
    let mut i: usize = 0;
    while i < r.len()
        invariant
            i <= r@.len(),
            forall|j: int| 0 <= j < r@.len() ==> #[trigger] r@[j].0 <= r@[j].1,
            out@ == nonempty_range_seq(r@.subrange(0, i as int)),
        decreases r.len() - i,
    {
        assert(r@.subrange(0, i as int + 1).drop_last() == r@.subrange(0, i as int));
        let p = r[i];
        if p.0 < p.1 {
            out.push(p);
        }
        i = i + 1;
    }
    assert(r@.subrange(0, r@.len() as int) == r@);
    out
}

/// The non-empty ranges of `r`, in order.
pub open spec fn nonempty_range_seq(r: Seq<(usize, usize)>) -> Seq<(usize, usize)>
    decreases r.len(),
{
    if r.len() == 0 {
        Seq::empty()
    } else if r.last().0 >= r.last().1 {
        nonempty_range_seq(r.drop_last())
    } else {
        nonempty_range_seq(r.drop_last()).push(r.last())
    }
}

/// Dropping empty ranges keeps the match with the pieces, dropping the empty pieces.
pub proof fn lemma_nonempty_ranges(s: Seq<u8>, r: Seq<(usize, usize)>, pieces: Seq<Seq<u8>>)
    requires
        ranges_match(s, r, pieces),
    ensures
        ranges_match(s, nonempty_range_seq(r), nonempty(pieces)),
    decreases r.len(),
{
    if r.len() > 0 {
        let k = r.len() - 1;
        assert(r[k].0 <= r[k].1);
        assert(ranges_match(s, r.drop_last(), pieces.drop_last()));
        lemma_nonempty_ranges(s, r.drop_last(), pieces.drop_last());
        assert(s.subrange(r[k].0 as int, r[k].1 as int) == pieces[k]);
    }
}

pub open spec fn no_sep(a: Seq<u8>, c: Sep) -> bool {
    forall|i: int| 0 <= i < a.len() ==> !is_sep(c, #[trigger] a[i])
}

/// Text without a separator is a single piece.
pub proof fn lemma_split_single(a: Seq<u8>, c: Sep)
    requires
        no_sep(a, c),
    ensures
        split(a, c) == seq![a],
    decreases a.len(),
{
    if a.len() == 0 {
        assert(a =~= Seq::<u8>::empty());
        assert(split(a, c) =~= seq![a]);
    } else {
        let t = a.drop_last();
        assert(no_sep(t, c)) by {
            assert forall|i: int| 0 <= i < t.len() implies !is_sep(c, #[trigger] t[i]) by {
                assert(t[i] == a[i]);
            }
        }
        lemma_split_single(t, c);
        assert(!is_sep(c, a[a.len() - 1]));
        assert(t.push(a.last()) =~= a);
        assert(split(a, c) =~= seq![a]);
    }
}

/// Splitting a piece, a separator and the rest gives the piece followed by
/// the pieces of the rest.
pub proof fn lemma_split_join(a: Seq<u8>, x: u8, rest: Seq<u8>, c: Sep)
    requires
        no_sep(a, c),
        is_sep(c, x),
    ensures
        split(a + seq![x] + rest, c) == seq![a] + split(rest, c),
    decreases rest.len(),
{
    if rest.len() == 0 {
        lemma_split_single(a, c);
        assert(a + seq![x] + rest =~= a + seq![x]);
        assert((a + seq![x]).drop_last() =~= a);
        assert(split(a + seq![x] + rest, c) =~= seq![a] + split(rest, c));
    } else {
        let r = rest.drop_last();
        lemma_split_join(a, x, r, c);
        lemma_split_len(r, c);
        let s = a + seq![x] + rest;
        assert(s.drop_last() =~= a + seq![x] + r);
        assert(s.last() == rest.last());
        let p = split(r, c);
        if is_sep(c, rest.last()) {
            assert(split(s, c) =~= seq![a] + split(rest, c));
        } else {
            assert(split(rest, c) == p.update(p.len() - 1, p.last().push(rest.last())));
            assert(split(s, c) =~= seq![a] + split(rest, c));
        }
    }
}

/// Appending a separator and a piece without separators adds that piece.
pub proof fn lemma_split_append(a: Seq<u8>, x: u8, rest: Seq<u8>, c: Sep)
    requires
        no_sep(rest, c),
        is_sep(c, x),
    ensures
        split(a + seq![x] + rest, c) == split(a, c).push(rest),
    decreases rest.len(),
{
    if rest.len() == 0 {
        let s = a + seq![x] + rest;
        assert(s.drop_last() =~= a);
        assert(s.last() == x);
        assert(rest =~= Seq::<u8>::empty());
        assert(split(s, c) =~= split(a, c).push(rest));
    } else {
        let r = rest.drop_last();
        assert(no_sep(r, c)) by {
            assert forall|i: int| 0 <= i < r.len() implies !is_sep(c, #[trigger] r[i]) by {
                assert(r[i] == rest[i]);
            }
        }
        lemma_split_append(a, x, r, c);
        let s = a + seq![x] + rest;
        assert(s.drop_last() =~= a + seq![x] + r);
        assert(!is_sep(c, rest[rest.len() - 1]));
        assert(r.push(rest.last()) =~= rest);
        assert(split(s, c) =~= split(a, c).push(rest));
    }
}

/// `nonempty` keeps a sequence whose members are all non-empty.
pub proof fn lemma_nonempty_all(ps: Seq<Seq<u8>>)
    requires
        forall|i: int| 0 <= i < ps.len() ==> (#[trigger] ps[i]).len() > 0,
    ensures
        nonempty(ps) == ps,
    decreases ps.len(),
{
    if ps.len() > 0 {
        assert(ps[ps.len() - 1].len() > 0);
        lemma_nonempty_all(ps.drop_last());
        assert(ps.drop_last().push(ps.last()) =~= ps);
    }
}

/// Relies on `std::str::from_utf8`: it accepts exactly the valid UTF-8
/// byte sequences, and the text it returns holds those same bytes.
#[verifier::external_body]
fn utf8_text(b: &[u8]) -> (r: Option<&str>)
    ensures
        r is Some <==> valid_utf8(b@),
        r matches Some(t) ==> t.spec_bytes() == b@,
{
    std::str::from_utf8(b).ok()
}

/// The bytes as an owned string, when they are valid UTF-8.
pub fn string_from_utf8(b: &[u8]) -> (r: Option<String>)
    ensures
        r is Some <==> valid_utf8(b@),
        r matches Some(s) ==> s@ == decode_utf8(b@),
{
    match utf8_text(b) {
        Some(t) => {
            let s = t.to_owned();
            Some(s)
        },
        None => None,
    }
}

/// Pushes the bytes of `s` onto `out`.
pub fn push_str(out: &mut Vec<u8>, s: &str)
    ensures
        final(out)@ == old(out)@ + s.spec_bytes(),
{
    let b = s.as_bytes();
    let mut i: usize = 0;
    while i < b.len()
        invariant
            i <= b@.len(),
            b@ == s.spec_bytes(),
            out@ == old(out)@ + b@.subrange(0, i as int),
        decreases b.len() - i,
    {
        out.push(b[i]);
        i = i + 1;
        assert(b@.subrange(0, i as int) == b@.subrange(0, i as int - 1).push(b@[i - 1]));
    }
    assert(b@.subrange(0, b@.len() as int) == b@);
}

pub open spec fn is_ascii_bytes(b: Seq<u8>) -> bool {
    forall|i: int| 0 <= i < b.len() ==> #[trigger] b[i] < 128
}

/// ASCII bytes are valid UTF-8, and each decodes to the character of the same code.
pub proof fn lemma_ascii_utf8(b: Seq<u8>)
    requires
        is_ascii_bytes(b),
    ensures
        valid_utf8(b),
        decode_utf8(b).len() == b.len(),
        forall|i: int| 0 <= i < b.len() ==> #[trigger] decode_utf8(b)[i] as u8 == b[i],
    decreases b.len(),
{
    if b.len() > 0 {
        let t = b.drop_first();
        lemma_ascii_utf8(t);
        assert(pop_first_scalar(b) == t);
        let c = decode_first_scalar(b) as char;
        let x = b[0];
        assert((x & 0x7f) as u32 == x as u32) by (bit_vector)
            requires
                x < 128,
        ;
        assert(decode_utf8(b) == seq![c] + decode_utf8(t));
        assert forall|i: int| 0 <= i < b.len() implies #[trigger] decode_utf8(b)[i] as u8 == b[i] by {
            if i > 0 {
                assert(decode_utf8(b)[i] == decode_utf8(t)[i - 1]);
            }
        }
    }
}

/// Cutting valid UTF-8 text at an ASCII byte leaves valid text on both sides.
pub proof fn lemma_cut_at_ascii(b: Seq<u8>, k: int)
    requires
        valid_utf8(b),
        0 <= k < b.len(),
        b[k] < 128,
    ensures
        valid_utf8(b.subrange(0, k)),
        valid_utf8(b.subrange(k + 1, b.len() as int)),
{
    is_char_boundary_iff_not_is_continuation_byte(b, k);
    valid_utf8_split(b, k);
    let t = b.subrange(k, b.len() as int);
    assert(pop_first_scalar(t) == t.drop_first());
    assert(t.drop_first() == b.subrange(k + 1, b.len() as int));
}

/// A piece of valid text that lies between ASCII separators, or the text's
/// ends, is valid text.
pub proof fn lemma_piece_utf8(b: Seq<u8>, s: int, e: int)
    requires
        valid_utf8(b),
        0 <= s <= e <= b.len(),
        s == 0 || b[s - 1] < 128,
        e == b.len() || b[e] < 128,
    ensures
        valid_utf8(b.subrange(s, e)),
{
    let p = if e == b.len() {
        assert(b.subrange(0, e) == b);
        b
    } else {
        lemma_cut_at_ascii(b, e);
        b.subrange(0, e)
    };
    if s > 0 {
        lemma_cut_at_ascii(p, s - 1);
        assert(p.subrange(s, p.len() as int) == b.subrange(s, e));
    } else {
        assert(p == b.subrange(s, e));
    }
}

/// A non-empty piece of a split lies between separators or ends.
pub proof fn lemma_item_bounded(
    s: Seq<u8>,
    all: Seq<(usize, usize)>,
    items: Seq<(usize, usize)>,
    i: int,
    c: Sep,
)
    requires
        ranges_bounded(s, all, c),
        items == nonempty_range_seq(all),
        0 <= i < items.len(),
    ensures
        items[i].0 == 0 || (items[i].0 <= s.len() && is_sep(c, s[items[i].0 - 1])),
        items[i].1 == s.len() || (items[i].1 < s.len() && is_sep(c, s[items[i].1 as int])),
    decreases all.len(),
{
    if all.len() > 0 {
        let k = all.len() - 1;
        let d = all.drop_last();
        assert(all[k].0 == 0 || (all[k].0 <= s.len() && is_sep(c, s[all[k].0 - 1])));
        assert(ranges_bounded(s, d, c)) by {
            assert forall|j: int| 0 <= j < d.len() implies (#[trigger] d[j]).0 == 0 || (d[j].0
                <= s.len() && is_sep(c, s[d[j].0 - 1])) by {
                assert(d[j] == all[j]);
            }
            assert forall|j: int| 0 <= j < d.len() implies (#[trigger] d[j]).1 == s.len() || (d[j].1
                < s.len() && is_sep(c, s[d[j].1 as int])) by {
                assert(d[j] == all[j]);
            }
        }
        let rest = nonempty_range_seq(d);
        if i < rest.len() {
            lemma_item_bounded(s, d, rest, i, c);
        }
    }
}

/// Whether the bytes are valid UTF-8 text.
pub fn is_text(b: &[u8]) -> (r: bool)
    ensures
        r == valid_utf8(b@),
{
    string_from_utf8(b).is_some()
}

} // verus!
