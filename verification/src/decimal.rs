//! Decimal integers as they appear on the wire: formatting of lengths and
//! integers, and parsing with the grammar of Rust's `str::parse` for `i64`
//! and `u64` (an optional sign, then one or more ASCII digits, in range).
use vstd::prelude::*;

verus! {

pub open spec fn is_digit(b: u8) -> bool {
    48 <= b <= 57
}

pub open spec fn all_digits(s: Seq<u8>) -> bool {
    forall|i: int| 0 <= i < s.len() ==> #[trigger] is_digit(s[i])
}

/// The number written by a sequence of decimal digits (most significant first).
pub open spec fn digits_value(s: Seq<u8>) -> nat
    decreases s.len(),
{
    if s.len() == 0 {
        0
    } else {
        digits_value(s.drop_last()) * 10 + (s.last() - 48) as nat
    }
}

/// The shortest decimal writing of `n`.
pub open spec fn decimal(n: nat) -> Seq<u8>
    decreases n,
{
    if n < 10 {
        seq![(48 + n) as u8]
    } else {
        decimal(n / 10).push((48 + n % 10) as u8)
    }
}

/// The decimal writing of a signed integer: `-` before the magnitude of a negative one.
pub open spec fn signed_decimal(i: int) -> Seq<u8> {
    if i < 0 {
        seq![45u8] + decimal((-i) as nat)
    } else {
        decimal(i as nat)
    }
}

/// The digits part is non-empty, all digits, and at most `max`.
pub open spec fn digits_within(s: Seq<u8>, max: int) -> bool {
    s.len() > 0 && all_digits(s) && digits_value(s) <= max
}

/// What `str::parse::<i64>` gives for these bytes (read as text).
pub open spec fn spec_parse_i64(s: Seq<u8>) -> Option<i64> {
    if s.len() > 0 && s[0] == 45u8 {
        let d = s.drop_first();
        if digits_within(d, 0x8000_0000_0000_0000) {
            Some((-digits_value(d)) as i64)
        } else {
            None
        }
    } else {
        let d = if s.len() > 0 && s[0] == 43u8 {
            s.drop_first()
        } else {
            s
        };
        if digits_within(d, i64::MAX as int) {
            Some(digits_value(d) as i64)
        } else {
            None
        }
    }
}

/// What `str::parse::<u64>` gives for these bytes (read as text).
pub open spec fn spec_parse_u64(s: Seq<u8>) -> Option<u64> {
    let d = if s.len() > 0 && s[0] == 43u8 {
        s.drop_first()
    } else {
        s
    };
    if digits_within(d, u64::MAX as int) {
        Some(digits_value(d) as u64)
    } else {
        None
    }
}

/// Appending digits never makes the number smaller.
pub proof fn lemma_digits_value_prefix(s: Seq<u8>, k: int)
    requires
        0 <= k <= s.len(),
    ensures
        digits_value(s.take(k)) <= digits_value(s),
    decreases s.len(),
{
    if k < s.len() {
        let t = s.drop_last();
        assert(t.take(k) =~= s.take(k));
        lemma_digits_value_prefix(t, k);
    } else {
        assert(s.take(k) =~= s);
    }
}

pub proof fn lemma_decimal(n: nat)
    ensures
        decimal(n).len() >= 1,
        all_digits(decimal(n)),
        digits_value(decimal(n)) == n,
    decreases n,
{
    if n >= 10 {
        lemma_decimal(n / 10);
        let d = decimal(n);
        assert(d.drop_last() =~= decimal(n / 10));
        assert(d.last() == (48 + n % 10) as u8);
        assert((n / 10) * 10 + n % 10 == n) by (nonlinear_arith);
        assert forall|i: int| 0 <= i < d.len() implies #[trigger] is_digit(d[i]) by {
            if i < d.len() - 1 {
                assert(d[i] == decimal(n / 10)[i]);
            }
        }
    } else {
        let d = decimal(n);
        assert(d.drop_last() =~= Seq::<u8>::empty());
        assert(digits_value(d.drop_last()) == 0);
    }
}

/// Parsing the decimal writing of an `i64` gives it back.
pub proof fn lemma_parse_signed_decimal(i: i64)
    ensures
        spec_parse_i64(signed_decimal(i as int)) == Some(i),
{
    if i < 0 {
        let m = (-i) as nat;
        lemma_decimal(m);
        let s = signed_decimal(i as int);
        assert(s.drop_first() =~= decimal(m));
    } else {
        lemma_decimal(i as nat);
        let s = signed_decimal(i as int);
        assert(is_digit(s[0]));
    }
}

/// Parsing the decimal writing of a length that fits an `i64` gives it back.
pub proof fn lemma_parse_decimal(n: nat)
    requires
        n <= i64::MAX,
    ensures
        spec_parse_i64(decimal(n)) == Some(n as i64),
{
    lemma_decimal(n);
    assert(is_digit(decimal(n)[0]));
}

/// Writes `n` in decimal at the end of `dst`.
pub fn push_decimal(n: u64, dst: &mut Vec<u8>)
    ensures
        final(dst)@ == old(dst)@ + decimal(n as nat),
    decreases n,
{
    if n >= 10 {
        push_decimal(n / 10, dst);
    }
    dst.push((48 + n % 10) as u8);
    proof {
        if n >= 10 {
            assert(final(dst)@ =~= old(dst)@ + decimal(n as nat));
        } else {
            assert(final(dst)@ =~= old(dst)@ + decimal(n as nat));
        }
    }
}

/// Writes `i` in decimal, with a leading `-` when it is negative, at the end of `dst`.
pub fn push_signed_decimal(i: i64, dst: &mut Vec<u8>)
    ensures
        final(dst)@ == old(dst)@ + signed_decimal(i as int),
{
    if i < 0 {
        dst.push(45u8);
        let magnitude: u64 = (0i128 - (i as i128)) as u64;
        push_decimal(magnitude, dst);
        assert(final(dst)@ =~= old(dst)@ + signed_decimal(i as int));
    } else {
        push_decimal(i as u64, dst);
    }
}

/// Reads `s[start..]` as decimal digits: `Some` of their value when they are
/// one or more digits whose value fits a `u64`.
fn digits_to_u64(s: &[u8], start: usize) -> (r: Option<u64>)
    requires
        start <= s@.len(),
    ensures
        r == (if digits_within(s@.subrange(start as int, s@.len() as int), u64::MAX as int) {
            Some(digits_value(s@.subrange(start as int, s@.len() as int)) as u64)
        } else {
            None::<u64>
        }),
{
    let ghost whole = s@.subrange(start as int, s@.len() as int);
    if start == s.len() {
        return None;
    }
    let mut acc: u64 = 0;
    let mut i: usize = start;
    while i < s.len()
        invariant
            start <= i <= s@.len(),
            whole == s@.subrange(start as int, s@.len() as int),
            all_digits(s@.subrange(start as int, i as int)),
            acc == digits_value(s@.subrange(start as int, i as int)),
        decreases s@.len() - i,
    {
        let b = s[i];
        let ghost prefix = s@.subrange(start as int, i as int);
        let ghost next = s@.subrange(start as int, i + 1);
        assert(next.drop_last() =~= prefix);
        assert(whole.take(i + 1 - start) =~= next);
        if b < 48 || b > 57 {
            assert(!is_digit(whole[i - start]));
            return None;
        }
        let d: u64 = (b - 48) as u64;
        if acc > (u64::MAX - d) / 10 {
            proof {
                assert(all_digits(next));
                assert(digits_value(next) == acc * 10 + d);
                assert(acc * 10 + d > u64::MAX) by (nonlinear_arith)
                    requires
                        acc > (u64::MAX - d) / 10,
                        d <= 9,
                ;
                if all_digits(whole) {
                    lemma_digits_value_prefix(whole, i + 1 - start);
                }
            }
            return None;
        }
        assert(acc * 10 + d <= u64::MAX) by (nonlinear_arith)
            requires
                acc <= (u64::MAX - d) / 10,
                d <= 9,
        ;
        acc = acc * 10 + d;
        i += 1;
        proof {
            assert forall|j: int| 0 <= j < next.len() implies #[trigger] is_digit(next[j]) by {
                if j < prefix.len() {
                    assert(next[j] == prefix[j]);
                }
            }
        }
    }
    assert(s@.subrange(start as int, i as int) =~= whole);
    Some(acc)
}

/// `str::parse::<i64>` on bytes: an optional `+` or `-`, then one or more
/// digits whose value lies in the range of `i64`.
pub fn parse_i64(s: &[u8]) -> (r: Option<i64>)
    ensures
        r == spec_parse_i64(s@),
{
    if s.len() == 0 {
        return None;
    }
    if s[0] == 45u8 {
        assert(s@.drop_first() =~= s@.subrange(1, s@.len() as int));
        match digits_to_u64(s, 1) {
            Some(m) => {
                if m <= 0x8000_0000_0000_0000u64 {
                    Some((0i128 - (m as i128)) as i64)
                } else {
                    None
                }
            },
            None => {
                None
            },
        }
    } else {
        let start: usize = if s[0] == 43u8 {
            1
        } else {
            0
        };
        assert(s@.drop_first() =~= s@.subrange(1, s@.len() as int));
        assert(s@ =~= s@.subrange(0, s@.len() as int));
        match digits_to_u64(s, start) {
            Some(m) => {
                if m <= i64::MAX as u64 {
                    Some(m as i64)
                } else {
                    None
                }
            },
            None => None,
        }
    }
}

/// `str::parse::<u64>` on bytes: an optional `+`, then one or more digits
/// whose value fits a `u64`.
pub fn parse_u64(s: &[u8]) -> (r: Option<u64>)
    ensures
        r == spec_parse_u64(s@),
{
    let start: usize = if s.len() > 0 && s[0] == 43u8 {
        1
    } else {
        0
    };
    assert(s@.len() > 0 ==> s@.drop_first() =~= s@.subrange(1, s@.len() as int));
    assert(s@ =~= s@.subrange(0, s@.len() as int));
    digits_to_u64(s, start)
}

} // verus!
