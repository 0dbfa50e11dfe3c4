//! Base-10 text forms of integers, as they appear on the wire and in stored
//! counter values.
use vstd::prelude::*;

verus! {

/// The ASCII digit for `d` (which lies in `0..10`).
pub open spec fn digit_byte(d: nat) -> u8 {
    (48 + d) as u8
}

pub open spec fn is_digit(b: u8) -> bool {
    48 <= b <= 57
}

pub open spec fn all_digits(s: Seq<u8>) -> bool {
    forall|j: int| 0 <= j < s.len() ==> is_digit(#[trigger] s[j])
}

/// The shortest decimal digits of `n`, most significant first.
pub open spec fn digits_of(n: nat) -> Seq<u8>
    decreases n,
{
    if n < 10 {
        seq![digit_byte(n)]
    } else {
        digits_of(n / 10).push(digit_byte(n % 10))
    }
}

/// The decimal text of `i`: a `-` for negative values, then its digits.
pub open spec fn decimal_of(i: int) -> Seq<u8> {
    if i < 0 {
        seq![45u8] + digits_of((-i) as nat)
    } else {
        digits_of(i as nat)
    }
}

/// The value of a run of digits, read most significant first.
pub open spec fn digits_value(s: Seq<u8>) -> nat
    decreases s.len(),
{
    if s.len() == 0 {
        0
    } else {
        digits_value(s.drop_last()) * 10 + (s.last() - 48) as nat
    }
}

/// The integer that `s` spells: an optional `+` or `-`, then one or more
/// digits, and nothing else.
pub open spec fn parse_decimal(s: Seq<u8>) -> Option<int> {
    if s.len() > 0 && (s[0] == 45u8 || s[0] == 43u8) {
        let body = s.drop_first();
        if body.len() > 0 && all_digits(body) {
            if s[0] == 45u8 {
                Some(-digits_value(body))
            } else {
                Some(digits_value(body) as int)
            }
        } else {
            None
        }
    } else if s.len() > 0 && all_digits(s) {
        Some(digits_value(s) as int)
    } else {
        None
    }
}

pub open spec fn fits_i64(v: int) -> bool {
    i64::MIN <= v <= i64::MAX
}

/// What `s` reads as a signed 64-bit integer, if anything.
pub open spec fn parse_i64_spec(s: Seq<u8>) -> Option<i64> {
    match parse_decimal(s) {
        Some(v) => if fits_i64(v) {
            Some(v as i64)
        } else {
            None
        },
        None => None,
    }
}

/// Appends the digits of `n` to `out`.
pub fn push_digits(n: u64, out: &mut Vec<u8>)
    ensures
        final(out)@ == old(out)@ + digits_of(n as nat),
    decreases n,
{
    if n >= 10 {
        push_digits(n / 10, out);
    }
    out.push((48 + n % 10) as u8);
    proof {
        assert(final(out)@ =~= old(out)@ + digits_of(n as nat));
    }
}

/// Appends the decimal text of `i` to `out`.
pub fn push_decimal(i: i64, out: &mut Vec<u8>)
    ensures
        final(out)@ == old(out)@ + decimal_of(i as int),
{
    if i < 0 {
        out.push(45u8);
        let magnitude: u64 = (0i128 - i as i128) as u64;
        push_digits(magnitude, out);
        proof {
            assert(final(out)@ =~= old(out)@ + decimal_of(i as int));
        }
    } else {
        push_digits(i as u64, out);
    }
}

/// The decimal text of `i`.
pub fn format_i64(i: i64) -> (r: Vec<u8>)
    ensures
        r@ == decimal_of(i as int),
{
    let mut out: Vec<u8> = Vec::new();
    push_decimal(i, &mut out);
    proof {
        assert(out@ =~= decimal_of(i as int));
    }
    out
}

/// The first value past the `i64` range, where the accumulated magnitude
/// stops growing.
const MAGNITUDE_CAP: u64 = 9223372036854775809;

proof fn lemma_capped_step(x: nat, d: nat)
    requires
        d < 10,
    ensures
        (if x < MAGNITUDE_CAP { x } else { MAGNITUDE_CAP as nat }) * 10 + d >= MAGNITUDE_CAP
            <==> x * 10 + d >= MAGNITUDE_CAP,
{
}

/// Reads `s` as a signed 64-bit integer, the way the standard library's
/// integer parsing does.
pub fn parse_i64(s: &[u8]) -> (r: Option<i64>)
    ensures
        r == parse_i64_spec(s@),
{
    let n = s.len();
    if n == 0 {
        return None;
    }
    let first = s[0];
    let start: usize = if first == 45u8 || first == 43u8 { 1 } else { 0 };
    if start == n {
        return None;
    }
    let body = Ghost(s@.subrange(start as int, n as int));
    let mut acc: u64 = 0;
    let mut j: usize = start;
    while j < n
        invariant
            start <= j <= n,
            n == s@.len(),
            first == s@[0],
            start == (if first == 45u8 || first == 43u8 { 1usize } else { 0usize }),
            body@ == s@.subrange(start as int, n as int),
            all_digits(s@.subrange(start as int, j as int)),
            acc == (if digits_value(s@.subrange(start as int, j as int)) < MAGNITUDE_CAP {
                digits_value(s@.subrange(start as int, j as int))
            } else {
                MAGNITUDE_CAP as nat
            }),
        decreases n - j,
    {
        let b = s[j];
        if b < 48u8 || b > 57u8 {
            proof {
                assert(!is_digit(body@[j - start]));
                if start == 1 {
                    assert(body@ =~= s@.drop_first());
                } else {
                    assert(body@ =~= s@);
                }
            }
            return None;
        }
        let ghost prev = s@.subrange(start as int, j as int);
        let ghost next = s@.subrange(start as int, j + 1);
        proof {
            assert(next.drop_last() =~= prev);
            assert(next.last() == b);
            lemma_capped_step(digits_value(prev), (b - 48) as nat);
        }
        let d: u64 = (b - 48u8) as u64;
        if acc >= MAGNITUDE_CAP / 10 + 1 {
            acc = MAGNITUDE_CAP;
        } else {
            let t: u64 = acc * 10 + d;
            acc = if t < MAGNITUDE_CAP { t } else { MAGNITUDE_CAP };
        }
        j = j + 1;
    }
    proof {
        assert(s@.subrange(start as int, n as int) =~= body@);
        if start == 1 {
            assert(body@ =~= s@.drop_first());
        } else {
            assert(body@ =~= s@);
        }
    }
    if first == 45u8 {
        if acc <= 9223372036854775808u64 {
            Some((0i128 - acc as i128) as i64)
        } else {
            None
        }
    } else {
        if acc <= 9223372036854775807u64 {
            Some(acc as i64)
        } else {
            None
        }
    }
}

pub proof fn lemma_digits_of_facts(n: nat)
    ensures
        digits_of(n).len() > 0,
        all_digits(digits_of(n)),
        digits_value(digits_of(n)) == n,
    decreases n,
{
    if n >= 10 {
        lemma_digits_of_facts(n / 10);
        let s = digits_of(n);
        assert(s.drop_last() =~= digits_of(n / 10));
        assert(s.last() == digit_byte(n % 10));
        assert(n == (n / 10) * 10 + n % 10);
        assert((s.last() - 48) as nat == n % 10);
        assert(digits_value(s) == digits_value(digits_of(n / 10)) * 10 + n % 10);
        assert forall|j: int| 0 <= j < s.len() implies is_digit(#[trigger] s[j]) by {
            if j < s.len() - 1 {
                assert(s[j] == digits_of(n / 10)[j]);
            }
        }
    } else {
        let s = digits_of(n);
        assert(s.drop_last() =~= Seq::<u8>::empty());
        assert(digits_value(s.drop_last()) == 0);
        assert(s.last() == digit_byte(n));
        assert(digits_value(s) == n);
    }
}

/// Reading back the decimal text of any integer gives that integer.
pub proof fn lemma_decimal_round_trip(i: int)
    ensures
        parse_decimal(decimal_of(i)) == Some(i),
{
    if i < 0 {
        let m = (-i) as nat;
        lemma_digits_of_facts(m);
        assert((seq![45u8] + digits_of(m)).drop_first() =~= digits_of(m));
    } else {
        lemma_digits_of_facts(i as nat);
        assert(digits_of(i as nat)[0] != 45u8 && digits_of(i as nat)[0] != 43u8) by {
            assert(is_digit(digits_of(i as nat)[0]));
        }
    }
}

/// Reading back the decimal text of any `i64` gives that `i64`.
pub proof fn lemma_i64_round_trip(i: i64)
    ensures
        parse_i64_spec(decimal_of(i as int)) == Some(i),
{
    lemma_decimal_round_trip(i as int);
}

} // verus!
