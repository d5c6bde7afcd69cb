//! Decimal numbers: parsing runs of digits and formatting integers.

use vstd::prelude::*;

use crate::chars::{digit_value, is_ascii_digit};

verus! {

/// Every character of `s` is an ASCII digit.
pub open spec fn all_ascii_digits(s: Seq<char>) -> bool {
    forall|i: int| 0 <= i < s.len() ==> is_ascii_digit(#[trigger] s[i])
}

/// The value of the decimal numeral `s` (ASCII digits).
pub open spec fn decimal_value(s: Seq<char>) -> nat
    decreases s.len(),
{
    if s.len() == 0 {
        0
    } else {
        decimal_value(s.drop_last()) * 10 + digit_value(s.last())
    }
}

/// `str::parse` into an unsigned integer type whose largest value is `max`,
/// for a non-empty run of decimal digits: the value when all the digits are
/// ASCII and the value fits, `None` otherwise.
pub open spec fn parse_decimal(s: Seq<char>, max: nat) -> Option<nat> {
    if s.len() > 0 && all_ascii_digits(s) && decimal_value(s) <= max {
        Some(decimal_value(s))
    } else {
        None
    }
}

proof fn lemma_decimal_value_grows(s: Seq<char>, i: int)
    requires
        0 <= i <= s.len(),
        all_ascii_digits(s),
    ensures
        decimal_value(s.take(i)) <= decimal_value(s),
    decreases s.len() - i,
{
    if i < s.len() {
        lemma_decimal_value_grows(s, i + 1);
        assert(s.take(i + 1).drop_last() =~= s.take(i));
    } else {
        assert(s.take(i) =~= s);
    }
}

/// Parses `t[lo..hi]` as a decimal number no greater than `max`.
pub fn parse_decimal_at(t: &Vec<char>, lo: usize, hi: usize, max: u64) -> (r: Option<u64>)
    requires
        lo <= hi <= t.len(),
        max <= 0xFFFF_FFFF,
    ensures
        match r {
            Some(v) => parse_decimal(t@.subrange(lo as int, hi as int), max as nat) == Some(
                v as nat,
            ),
            None => parse_decimal(t@.subrange(lo as int, hi as int), max as nat) is None,
        },
{
    let ghost s = t@.subrange(lo as int, hi as int);
    if lo == hi {
        return None;
    }
    let mut acc: u64 = 0;
    let mut i = lo;
    while i < hi
        invariant
            lo <= i <= hi <= t.len(),
            s == t@.subrange(lo as int, hi as int),
            max <= 0xFFFF_FFFF,
            acc <= max,
            all_ascii_digits(s.take(i - lo)),
            acc == decimal_value(s.take(i - lo)),
        decreases hi - i,
    {
        let c = t[i];
        if !('0' <= c && c <= '9') {
            proof {
                assert(s[i - lo] == c);
            }
            return None;
        }
        let d = (c as u32 - 0x30) as u64;
        proof {
            assert(s.take(i - lo + 1).drop_last() =~= s.take(i - lo));
            assert(s.take(i - lo + 1).last() == c);
            assert(all_ascii_digits(s.take(i - lo + 1)));
        }
        if acc * 10 + d > max {
            proof {
                let k = i - lo + 1;
                if all_ascii_digits(s) {
                    lemma_decimal_value_grows(s, k);
                }
            }
            return None;
        }
        acc = acc * 10 + d;
        i = i + 1;
    }
    assert(s.take(hi - lo) =~= s);
    Some(acc)
}

/// The ASCII digit for `d < 10`.
pub open spec fn digit_char(d: nat) -> char {
    (d + 0x30) as char
}

/// The decimal numeral of `n`, without leading zeros (`n.to_string()`).
pub open spec fn decimal(n: nat) -> Seq<char>
    decreases n,
{
    if n < 10 {
        seq![digit_char(n)]
    } else {
        decimal(n / 10) + seq![digit_char(n % 10)]
    }
}

/// `s` left-padded with `'0'` to at least `width` characters (`{:0width}`).
pub open spec fn zero_pad(s: Seq<char>, width: nat) -> Seq<char> {
    if s.len() < width {
        Seq::new((width - s.len()) as nat, |i: int| '0') + s
    } else {
        s
    }
}

/// Appends the decimal numeral of `n` to `out`.
pub fn push_decimal(out: &mut Vec<char>, n: u64)
    ensures
        final(out)@ == old(out)@ + decimal(n as nat),
    decreases n,
{
    if n >= 10 {
        push_decimal(out, n / 10);
    }
    let d = (n % 10) as u8;
    let c = (0x30u8 + d) as char;
    out.push(c);
}

/// Appends the decimal numeral of `n`, zero-padded to `width` digits.
pub fn push_decimal_padded(out: &mut Vec<char>, n: u64, width: usize)
    ensures
        final(out)@ == old(out)@ + zero_pad(decimal(n as nat), width as nat),
{
    let mut digits: Vec<char> = Vec::new();
    push_decimal(&mut digits, n);
    assert(digits@ == decimal(n as nat));
    if digits.len() < width {
        let k = width - digits.len();
        let mut j: usize = 0;
        while j < k
            invariant
                j <= k,
                out@ == old(out)@ + Seq::new(j as nat, |i: int| '0'),
            decreases k - j,
        {
            out.push('0');
            j = j + 1;
            assert(out@ =~= old(out)@ + Seq::new(j as nat, |i: int| '0'));
        }
        crate::text::push_all(out, digits.as_slice());
        assert(out@ =~= old(out)@ + zero_pad(decimal(n as nat), width as nat));
    } else {
        crate::text::push_all(out, digits.as_slice());
    }
}

/// The numeral of `n` is a non-empty run of ASCII digits whose value is `n`.
pub proof fn lemma_decimal(n: nat)
    ensures
        decimal(n).len() >= 1,
        all_ascii_digits(decimal(n)),
        decimal_value(decimal(n)) == n,
    decreases n,
{
    if n >= 10 {
        lemma_decimal(n / 10);
        let s = decimal(n);
        assert(s.drop_last() =~= decimal(n / 10));
        assert(s.last() == digit_char((n % 10) as nat));
        assert(digit_value(digit_char((n % 10) as nat)) == n % 10);
        assert(decimal_value(s) == decimal_value(s.drop_last()) * 10 + digit_value(s.last()));
        assert((n / 10) * 10 + n % 10 == n) by (nonlinear_arith);
    } else {
        let s = decimal(n);
        assert(s.drop_last() =~= Seq::<char>::empty());
        assert(digit_value(digit_char(n)) == n);
        assert(decimal_value(s) == decimal_value(s.drop_last()) * 10 + digit_value(s.last()));
    }
}

proof fn lemma_leading_zero(s: Seq<char>)
    ensures
        decimal_value(seq!['0'] + s) == decimal_value(s),
    decreases s.len(),
{
    let z = seq!['0'] + s;
    assert(digit_value('0') == 0);
    if s.len() == 0 {
        assert(z.drop_last() =~= Seq::<char>::empty());
        assert(decimal_value(z) == decimal_value(z.drop_last()) * 10 + digit_value(z.last()));
    } else {
        lemma_leading_zero(s.drop_last());
        assert(z.drop_last() =~= seq!['0'] + s.drop_last());
        assert(z.last() == s.last());
        assert(decimal_value(z) == decimal_value(z.drop_last()) * 10 + digit_value(z.last()));
    }
}

proof fn lemma_leading_zeros(m: nat, s: Seq<char>)
    ensures
        decimal_value(Seq::new(m, |i: int| '0') + s) == decimal_value(s),
    decreases m,
{
    if m > 0 {
        let z = Seq::new(m, |i: int| '0');
        let z1 = Seq::new((m - 1) as nat, |i: int| '0');
        lemma_leading_zeros((m - 1) as nat, s);
        lemma_leading_zero(z1 + s);
        assert(z + s =~= seq!['0'] + (z1 + s));
    } else {
        assert(Seq::new(m, |i: int| '0') + s =~= s);
    }
}

/// Padding a numeral with zeros keeps it a numeral with the same value.
pub proof fn lemma_zero_pad(s: Seq<char>, width: nat)
    requires
        all_ascii_digits(s),
    ensures
        all_ascii_digits(zero_pad(s, width)),
        decimal_value(zero_pad(s, width)) == decimal_value(s),
        zero_pad(s, width).len() >= s.len(),
{
    if s.len() < width {
        let z = Seq::new((width - s.len()) as nat, |i: int| '0');
        lemma_leading_zeros((width - s.len()) as nat, s);
        assert forall|i: int| 0 <= i < (z + s).len() implies is_ascii_digit(#[trigger] (z + s)[i]) by {
            if i >= z.len() {
                assert((z + s)[i] == s[i - z.len()]);
            }
        }
    }
}

} // verus!
