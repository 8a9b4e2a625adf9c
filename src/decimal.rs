//! Unsigned decimal numerals: reading them with a bound, writing them.

use vstd::prelude::*;

verus! {

pub open spec fn is_digit(b: u8) -> bool {
    48 <= b <= 57
}

pub open spec fn all_digits(s: Seq<u8>) -> bool {
    forall|i: int| 0 <= i < s.len() ==> is_digit(#[trigger] s[i])
}

/// The value of a numeral read most significant digit first.
pub open spec fn digits_value(s: Seq<u8>) -> nat
    decreases s.len(),
{
    if s.len() == 0 {
        0
    } else {
        digits_value(s.drop_last()) * 10 + (s.last() - 48) as nat
    }
}

/// The value of `s` when it is a non-empty numeral of at most `max`.
pub open spec fn numeral(s: Seq<u8>, max: nat) -> Option<nat> {
    if s.len() > 0 && all_digits(s) && digits_value(s) <= max {
        Some(digits_value(s))
    } else {
        None
    }
}

/// Plus sign, allowed before an unsigned number.
pub const PLUS: u8 = 43;

/// The value of `s` read as an unsigned integer of at most `max`: an
/// optional `+`, then a non-empty numeral.
pub open spec fn unsigned(s: Seq<u8>, max: nat) -> Option<nat> {
    if s.len() > 0 && s[0] == PLUS {
        numeral(s.drop_first(), max)
    } else {
        numeral(s, max)
    }
}

/// The shortest numeral of `n`.
pub open spec fn decimal(n: nat) -> Seq<u8>
    decreases n,
{
    if n < 10 {
        seq![(48 + n) as u8]
    } else {
        decimal(n / 10).push((48 + n % 10) as u8)
    }
}

pub proof fn lemma_decimal(n: nat)
    ensures
        decimal(n).len() >= 1,
        all_digits(decimal(n)),
        digits_value(decimal(n)) == n,
        !(decimal(n).contains(124u8)),
        !(decimal(n).contains(46u8)),
    decreases n,
{
    if n >= 10 {
        lemma_decimal(n / 10);
        let d = decimal(n / 10);
        assert(decimal(n).drop_last() == d);
        assert(decimal(n).last() == (48 + n % 10) as u8);
        assert(((48 + n % 10) as u8 - 48) as nat == n % 10);
        assert((n / 10) * 10 + n % 10 == n);
        assert forall|i: int| 0 <= i < decimal(n).len() implies is_digit(#[trigger] decimal(n)[i]) by {
            if i < d.len() {
                assert(decimal(n)[i] == d[i]);
            }
        }
        if decimal(n).contains(124u8) {
            let i = choose|i: int| 0 <= i < decimal(n).len() && decimal(n)[i] == 124u8;
            assert(is_digit(decimal(n)[i]));
        }
        if decimal(n).contains(46u8) {
            let i = choose|i: int| 0 <= i < decimal(n).len() && decimal(n)[i] == 46u8;
            assert(is_digit(decimal(n)[i]));
        }
    } else {
        assert(decimal(n).drop_last() =~= Seq::<u8>::empty());
        assert(digits_value(decimal(n).drop_last()) == 0);
    }
}

/// Reads the numeral `b` when its value is at most `max`.
pub fn parse_numeral(b: &[u8], max: u64) -> (r: Option<u64>)
    ensures
        r matches Some(v) ==> numeral(b@, max as nat) == Some(v as nat),
        r is None ==> numeral(b@, max as nat) is None,
{
    if b.len() == 0 {
        return None;
    }
    let mut v: u64 = 0;
    let mut over = false;
    let mut i: usize = 0;
    while i < b.len()
        invariant
            i <= b@.len(),
            all_digits(b@.subrange(0, i as int)),
            !over ==> v as nat == digits_value(b@.subrange(0, i as int)) && v <= max,
            over ==> digits_value(b@.subrange(0, i as int)) > max,
        decreases b.len() - i,
    {
        let x = b[i];
        let ghost pre = b@.subrange(0, i as int);
        let ghost next = b@.subrange(0, i as int + 1);
        assert(next.drop_last() == pre);
        if x < 48 || x > 57 {
            assert(!is_digit(b@[i as int]));
            return None;
        }
        let d = (x - 48) as u64;
        assert(digits_value(next) == digits_value(pre) * 10 + d);
        if !over {
            if v > max / 10 {
                assert(v * 10 > max) by (nonlinear_arith)
                    requires
                        v > max / 10,
                ;
                over = true;
            } else {
                assert(v * 10 <= max) by (nonlinear_arith)
                    requires
                        v <= max / 10,
                ;
                if d > max || v * 10 > max - d {
                    over = true;
                } else {
                    v = v * 10 + d;
                }
            }
        } else {
            assert(digits_value(next) >= digits_value(pre)) by (nonlinear_arith)
                requires
                    digits_value(next) == digits_value(pre) * 10 + d,
            ;
        }
        i = i + 1;
        assert(all_digits(b@.subrange(0, i as int))) by {
            assert forall|j: int| 0 <= j < i implies is_digit(#[trigger] b@.subrange(0, i as int)[j]) by {
                if j < i - 1 {
                    assert(b@.subrange(0, i as int)[j] == pre[j]);
                }
            }
        }
    }
    assert(b@.subrange(0, b.len() as int) == b@);
    if over {
        None
    } else {
        Some(v)
    }
}

/// Reads `b` as an unsigned integer of at most `max`, with an optional
/// leading `+`.
pub fn parse_unsigned(b: &[u8], max: u64) -> (r: Option<u64>)
    ensures
        r matches Some(v) ==> unsigned(b@, max as nat) == Some(v as nat),
        r is None ==> unsigned(b@, max as nat) is None,
{
    if b.len() > 0 && b[0] == PLUS {
        let rest = &b[1..b.len()];
        assert(rest@ == b@.drop_first());
        parse_numeral(rest, max)
    } else {
        parse_numeral(b, max)
    }
}

/// Appends the shortest numeral of `n`.
pub fn push_decimal(out: &mut Vec<u8>, n: u64)
    ensures
        final(out)@ == old(out)@ + decimal(n as nat),
    decreases n,
{
    if n >= 10 {
        push_decimal(out, n / 10);
    }
    out.push(48 + (n % 10) as u8);
    proof {
        if n >= 10 {
            assert(decimal(n as nat) == decimal((n / 10) as nat).push((48 + n % 10) as u8));
        }
    }
    assert(out@ =~= old(out)@ + decimal(n as nat)) by {
        if n < 10 {
            assert(decimal(n as nat) =~= seq![(48 + n) as u8]);
        }
    }
}

/// A numeral of a positive number has no leading zero, and a number below
/// ten, a hundred or a thousand takes at most one, two or three digits.
pub proof fn lemma_decimal_shape(n: nat)
    ensures
        n >= 1 ==> decimal(n)[0] != 48u8,
        n < 10 ==> decimal(n).len() == 1,
        n < 100 ==> decimal(n).len() <= 2,
        n < 1000 ==> decimal(n).len() <= 3,
    decreases n,
{
    if n >= 10 {
        lemma_decimal_shape(n / 10);
        lemma_decimal(n / 10);
        assert(decimal(n)[0] == decimal(n / 10)[0]);
    }
}

} // verus!
