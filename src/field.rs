//! Turning a raw value into an unsigned integer, falling back to a default
//! when the value is absent or is not such an integer.
use vstd::prelude::*;

verus! {

pub const PLUS: u8 = 43;

pub const ZERO: u8 = 48;

pub open spec fn is_digit(b: u8) -> bool {
    48 <= b <= 57
}

pub open spec fn all_digits(d: Seq<u8>) -> bool {
    forall|k: int| 0 <= k < d.len() ==> is_digit(#[trigger] d[k])
}

/// The number written by the decimal digits `d`.
pub open spec fn digits_value(d: Seq<u8>) -> nat
    decreases d.len(),
{
    if d.len() == 0 {
        0
    } else {
        digits_value(d.drop_last()) * 10 + (d.last() - ZERO) as nat
    }
}

/// The digits of an unsigned number: the text without its optional leading `+`.
pub open spec fn unsigned_digits(s: Seq<u8>) -> Seq<u8> {
    if s.len() > 0 && s[0] == PLUS {
        s.drop_first()
    } else {
        s
    }
}

/// The unsigned integer that `s` writes in decimal, optionally after a `+`,
/// when it is at most `max`.
pub open spec fn parse_unsigned(s: Seq<u8>, max: nat) -> Option<nat> {
    let d = unsigned_digits(s);
    if d.len() > 0 && all_digits(d) && digits_value(d) <= max {
        Some(digits_value(d))
    } else {
        None
    }
}

/// A field's value: the parsed raw value where there is one and it parses,
/// the default otherwise.
pub open spec fn resolve(raw: Option<Seq<u8>>, default: nat, max: nat) -> nat {
    match raw {
        Some(s) => match parse_unsigned(s, max) {
            Some(v) => v,
            None => default,
        },
        None => default,
    }
}

proof fn lemma_prefix_value_le(d: Seq<u8>, k: int)
    requires
        0 <= k <= d.len(),
        forall|m: int| 0 <= m < d.len() ==> is_digit(#[trigger] d[m]),
    ensures
        digits_value(d.subrange(0, k)) <= digits_value(d),
    decreases d.len(),
{
    if k < d.len() {
        let p = d.drop_last();
        assert(p.subrange(0, k) =~= d.subrange(0, k));
        assert forall|m: int| 0 <= m < p.len() implies is_digit(#[trigger] p[m]) by {
            assert(p[m] == d[m]);
        }
        lemma_prefix_value_le(p, k);
    } else {
        assert(d.subrange(0, k) =~= d);
    }
}

/// Parses `s` as an unsigned decimal integer of at most `max`.
pub fn parse_bounded(s: &[u8], max: u64) -> (r: Option<u64>)
    ensures
        match r {
            Some(v) => parse_unsigned(s@, max as nat) == Some(v as nat),
            None => parse_unsigned(s@, max as nat) is None,
        },
{
    let ghost d = unsigned_digits(s@);
    let start: usize = if s.len() > 0 && s[0] == PLUS {
        1
    } else {
        0
    };
    assert(d =~= s@.subrange(start as int, s@.len() as int));
    if start >= s.len() {
        return None;
    }
    let mut acc: u64 = 0;
    let mut k: usize = start;
    while k < s.len()
        invariant
            start <= k <= s@.len(),
            d == unsigned_digits(s@),
            d =~= s@.subrange(start as int, s@.len() as int),
            forall|m: int| 0 <= m < k - start ==> is_digit(#[trigger] d[m]),
            acc as nat == digits_value(d.subrange(0, k - start)),
            acc <= max,
        decreases s@.len() - k,
    {
        let b = s[k];
        assert(d[k - start] == b);
        if b < 48 || b > 57 {
            assert(!is_digit(d[k - start]));
            assert(!all_digits(d));
            return None;
        }
        let digit: u64 = (b - 48) as u64;
        let ghost next = d.subrange(0, k + 1 - start);
        assert(next.drop_last() =~= d.subrange(0, k - start));
        assert(next.last() == b);
        assert(digits_value(next) == acc * 10 + digit);
        if digit > max || acc > (max - digit) / 10 {
            assert(acc * 10 + digit > max) by (nonlinear_arith)
                requires
                    digit > max || acc > (max - digit) / 10,
                    digit <= 9,
            ;
            proof {
                if all_digits(d) {
                    lemma_prefix_value_le(d, k + 1 - start);
                }
            }
            return None;
        }
        assert(acc * 10 + digit <= max) by (nonlinear_arith)
            requires
                acc <= (max - digit) / 10,
                digit <= max,
        ;
        acc = acc * 10 + digit;
        k = k + 1;
    }
    assert(d.subrange(0, d.len() as int) =~= d);
    Some(acc)
}

/// The value of a field: `raw` parsed as an unsigned integer of at most
/// `max`, or `default` when `raw` is absent or does not parse.
pub fn resolve_field(raw: Option<&[u8]>, default: u64, max: u64) -> (r: u64)
    requires
        default <= max,
    ensures
        r as nat == resolve(
            match raw {
                Some(s) => Some(s@),
                None => None,
            },
            default as nat,
            max as nat,
        ),
        r <= max,
{
    match raw {
        Some(s) => match parse_bounded(s, max) {
            Some(v) => v,
            None => default,
        },
        None => default,
    }
}

} // verus!
