//! Decimal digit counting, zero-padded rendering, and decimal parsing.
//!
//! The index width of a rename plan is the decimal digit count of the number
//! of files, and every assigned index is rendered left-padded with `0` to
//! that width.

use vstd::prelude::*;

verus! {

/// Number of decimal digits of `n`, with the convention that `0` has zero
/// digits (an empty file list needs no width at all).
pub open spec fn spec_digits(n: nat) -> nat
    decreases n,
{
    if n == 0 {
        0
    } else {
        1 + spec_digits(n / 10)
    }
}

/// `10^e`.
pub open spec fn pow10(e: nat) -> nat
    decreases e,
{
    if e == 0 {
        1
    } else {
        10 * pow10((e - 1) as nat)
    }
}

/// A number never has more digits than its own value.
pub proof fn lemma_digits_le_self(n: nat)
    ensures
        spec_digits(n) <= n,
    decreases n,
{
    if n > 0 {
        lemma_digits_le_self(n / 10);
    }
}

/// Digit count is monotone.
pub proof fn lemma_digits_monotone(a: nat, b: nat)
    requires
        a <= b,
    ensures
        spec_digits(a) <= spec_digits(b),
    decreases b,
{
    if a > 0 {
        lemma_digits_monotone(a / 10, b / 10);
    }
}

/// `pow10` is monotone.
pub proof fn lemma_pow10_monotone(a: nat, b: nat)
    requires
        a <= b,
    ensures
        pow10(a) <= pow10(b),
    decreases b,
{
    if a < b {
        lemma_pow10_monotone(a, (b - 1) as nat);
    }
}

/// For positive `n`, the digit count `d` is exactly the width of `n` in
/// decimal: `10^(d-1) <= n < 10^d`.
pub proof fn lemma_digits_bounds(n: nat)
    requires
        n > 0,
    ensures
        pow10((spec_digits(n) - 1) as nat) <= n,
        n < pow10(spec_digits(n)),
    decreases n,
{
    if n < 10 {
        assert(spec_digits(n / 10) == 0);
        assert(spec_digits(n) == 1);
    } else {
        lemma_digits_bounds(n / 10);
        let d = spec_digits(n / 10);
        assert(pow10((d - 1) as nat) <= n / 10 && n / 10 < pow10(d));
        assert(spec_digits(n) == d + 1);
        assert(10 * pow10((d - 1) as nat) <= 10 * (n / 10)) by (nonlinear_arith)
            requires
                pow10((d - 1) as nat) <= n / 10,
        ;
        assert(10 * (n / 10) <= n) by (nonlinear_arith);
        assert(n <= 10 * (n / 10) + 9) by (nonlinear_arith);
        assert(10 * (n / 10) + 9 < 10 * pow10(d)) by (nonlinear_arith)
            requires
                n / 10 < pow10(d),
        ;
    }
}

/// Digit counts are minimal: any width `w` that can represent `n` is at
/// least `spec_digits(n)`.
pub proof fn lemma_digits_minimal(n: nat, w: nat)
    requires
        n < pow10(w),
    ensures
        spec_digits(n) <= w,
{
    if n > 0 && spec_digits(n) > w {
        lemma_digits_bounds(n);
        lemma_pow10_monotone(w, (spec_digits(n) - 1) as nat);
        assert(false);
    }
}

/// Decimal rendering of `n`, most significant digit first; `0` renders as
/// the single byte `"0"`.
pub open spec fn spec_dec(n: nat) -> Seq<u8>
    decreases n,
{
    if n < 10 {
        seq![(48 + n) as u8]
    } else {
        spec_dec(n / 10).push((48 + n % 10) as u8)
    }
}

/// `k` ASCII `'0'` bytes.
pub open spec fn zeros(k: nat) -> Seq<u8> {
    Seq::new(k, |i: int| 48u8)
}

/// `n` rendered in decimal and left-padded with `'0'` to width `w`; wider
/// numbers keep their full rendering (padding never truncates).
pub open spec fn spec_padded(n: nat, w: nat) -> Seq<u8> {
    if spec_dec(n).len() >= w {
        spec_dec(n)
    } else {
        zeros((w - spec_dec(n).len()) as nat) + spec_dec(n)
    }
}

/// The rendering of `n` has `spec_digits(n)` bytes, except that `0` takes
/// one byte.
pub proof fn lemma_dec_len(n: nat)
    ensures
        spec_dec(n).len() == if n == 0 { 1nat } else { spec_digits(n) },
    decreases n,
{
    if n >= 10 {
        lemma_dec_len(n / 10);
    } else if n > 0 {
        assert(spec_digits(n / 10) == 0);
    }
}

/// Every byte of a decimal rendering is an ASCII digit.
pub proof fn lemma_dec_digits(n: nat)
    ensures
        forall|i: int| 0 <= i < spec_dec(n).len() ==> 48 <= #[trigger] spec_dec(n)[i] <= 57,
    decreases n,
{
    if n < 10 {
        assert(spec_dec(n)[0] == (48 + n) as u8);
        assert(48 <= (48 + n) as u8 <= 57);
    } else {
        lemma_dec_digits(n / 10);
        assert(forall|i: int|
            0 <= i < spec_dec(n).len() - 1 ==> #[trigger] spec_dec(n)[i] == spec_dec(n / 10)[i]);
        assert(spec_dec(n).last() == (48 + n % 10) as u8);
        assert(48 <= (48 + n % 10) as u8 <= 57);
    }
}

/// Every byte of a padded rendering is an ASCII digit, and the rendering is
/// never empty.
pub proof fn lemma_padded_digits(n: nat, w: nat)
    ensures
        spec_padded(n, w).len() >= 1,
        forall|i: int| 0 <= i < spec_padded(n, w).len() ==> 48 <= #[trigger] spec_padded(n, w)[i]
            <= 57,
{
    lemma_dec_digits(n);
    lemma_dec_len(n);
}

/// Decimal digit count of `n`; `count_digits(0) == 0`.
pub fn count_digits(n: usize) -> (r: usize)
    ensures
        r == spec_digits(n as nat),
{
    let mut m = n;
    let mut ret: usize = 0;
    while m > 0
        invariant
            ret + spec_digits(m as nat) == spec_digits(n as nat),
            n <= usize::MAX,
        decreases m,
    {
        proof {
            lemma_digits_le_self(n as nat);
        }
        ret = ret + 1;
        m = m / 10;
    }
    ret
}

/// Decimal rendering of `n`, most significant digit first.
pub fn to_decimal(n: usize) -> (r: Vec<u8>)
    ensures
        r@ == spec_dec(n as nat),
    decreases n,
{
    if n < 10 {
        let mut v: Vec<u8> = Vec::new();
        v.push(48 + n as u8);
        proof {
            assert(v@ =~= spec_dec(n as nat));
        }
        v
    } else {
        let mut v = to_decimal(n / 10);
        v.push(48 + (n % 10) as u8);
        proof {
            assert(v@ =~= spec_dec(n as nat));
        }
        v
    }
}

/// `n` in decimal, left-padded with `'0'` to width `w`.
pub fn pad_decimal(n: usize, w: usize) -> (r: Vec<u8>)
    ensures
        r@ == spec_padded(n as nat, w as nat),
{
    let mut d = to_decimal(n);
    if d.len() >= w {
        d
    } else {
        let k = w - d.len();
        let mut r: Vec<u8> = Vec::new();
        let mut i: usize = 0;
        while i < k
            invariant
                i <= k,
                r@ =~= zeros(i as nat),
            decreases k - i,
        {
            r.push(48);
            proof {
                assert(r@ =~= zeros((i + 1) as nat));
            }
            i = i + 1;
        }
        r.append(&mut d);
        proof {
            assert(r@ =~= spec_padded(n as nat, w as nat));
        }
        r
    }
}

/// Width law for an empty plan: no files need no digits.
pub proof fn lemma_width_empty()
    ensures
        spec_digits(0) == 0,
{
}

/// Width law for a plan of `count` files starting at index `start`: as long
/// as the top index `start + count - 1` has as many digits as `count`
/// itself, the chosen width `spec_digits(count)` is the minimal width that
/// represents the top index, and every assigned index renders to exactly
/// that width.  (An empty plan has width `spec_digits(0) == 0`.)
pub proof fn lemma_width_exact(count: nat, start: nat)
    requires
        count > 0,
        spec_digits((start + count - 1) as nat) == spec_digits(count),
    ensures
        spec_digits(count) >= 1,
        start + count - 1 < pow10(spec_digits(count)),
        forall|w: nat| start + count - 1 < pow10(w) ==> spec_digits(count) <= w,
        forall|j: nat|
            j < count ==> #[trigger] spec_padded(start + j, spec_digits(count)).len()
                == spec_digits(count),
{
    let m = (start + count - 1) as nat;
    let w = spec_digits(count);
    lemma_digits_monotone(1, count);
    assert(spec_digits(0nat) == 0);
    assert(spec_digits(1) == 1);
    assert(w >= 1);
    assert(m > 0) by {
        if m == 0 {
            assert(spec_digits(m) == 0);
        }
    }
    lemma_digits_bounds(m);
    assert forall|w2: nat| m < pow10(w2) implies w <= w2 by {
        lemma_digits_minimal(m, w2);
    }
    assert forall|j: nat| j < count implies #[trigger] spec_padded(start + j, w).len() == w by {
        lemma_digits_monotone(start + j, m);
        lemma_dec_len(start + j);
        assert(spec_dec(start + j).len() <= w);
    }
}

/// Number of leading bytes taken by an optional `'+'` sign.
pub open spec fn sign_len(s: Seq<u8>) -> nat {
    if s.len() > 0 && s[0] == 43 {
        1
    } else {
        0
    }
}

/// True if every byte of `s` is an ASCII digit.
pub open spec fn all_digits(s: Seq<u8>) -> bool {
    forall|i: int| 0 <= i < s.len() ==> 48 <= #[trigger] s[i] <= 57
}

/// Value of a string of ASCII digits, most significant first.
pub open spec fn dec_value(s: Seq<u8>) -> int
    decreases s.len(),
{
    if s.len() == 0 {
        0
    } else {
        10 * dec_value(s.drop_last()) + (s.last() - 48)
    }
}

/// Mathematical meaning of parsing a decimal string: an optional leading
/// `'+'`, then one or more digits; anything else has no value.
pub open spec fn spec_parse(s: Seq<u8>) -> Option<int> {
    let t = s.skip(sign_len(s) as int);
    if t.len() > 0 && all_digits(t) {
        Some(dec_value(t))
    } else {
        None
    }
}

proof fn lemma_dec_value_take_succ(t: Seq<u8>, i: int)
    requires
        0 <= i < t.len(),
    ensures
        dec_value(t.take(i + 1)) == 10 * dec_value(t.take(i)) + (t[i] - 48),
{
    assert(t.take(i + 1).drop_last() =~= t.take(i));
    assert(t.take(i + 1).last() == t[i]);
}

proof fn lemma_dec_value_nonneg(t: Seq<u8>)
    requires
        all_digits(t),
    ensures
        dec_value(t) >= 0,
    decreases t.len(),
{
    if t.len() > 0 {
        assert(all_digits(t.drop_last()));
        lemma_dec_value_nonneg(t.drop_last());
    }
}

/// A digit string is worth at least any of its prefixes.
proof fn lemma_dec_value_take_le(t: Seq<u8>, i: int)
    requires
        all_digits(t),
        0 <= i <= t.len(),
    ensures
        dec_value(t.take(i)) <= dec_value(t),
    decreases t.len() - i,
{
    if i == t.len() {
        assert(t.take(i) =~= t);
    } else {
        lemma_dec_value_take_succ(t, i);
        assert(all_digits(t.take(i)));
        lemma_dec_value_nonneg(t.take(i));
        lemma_dec_value_take_le(t, i + 1);
    }
}

/// Decimal parse, as `str::parse::<usize>` accepts it: an optional leading
/// `'+'`, then one or more digits, rejecting empty input, other bytes, and
/// values over `usize::MAX`.
pub fn parse_usize(s: &Vec<u8>) -> (r: Option<usize>)
    ensures
        match r {
            Some(v) => spec_parse(s@) == Some(v as int),
            None => !(spec_parse(s@) matches Some(x) && x <= usize::MAX),
        },
{
    let sign: usize = if s.len() > 0 && s[0] == 43 {
        1
    } else {
        0
    };
    let ghost t = s@.skip(sign_len(s@) as int);
    if s.len() == sign {
        return None;
    }
    let mut acc: usize = 0;
    let mut i: usize = sign;
    while i < s.len()
        invariant
            sign == sign_len(s@),
            t == s@.skip(sign_len(s@) as int),
            sign < s@.len(),
            sign <= i <= s@.len(),
            all_digits(t.take(i - sign)),
            acc == dec_value(t.take(i - sign)),
        decreases s@.len() - i,
    {
        let d = s[i];
        assert(t[i - sign] == s@[i as int]);
        if d < 48 || d > 57 {
            proof {
                assert(!all_digits(t));
            }
            return None;
        }
        let dd = (d - 48) as usize;
        proof {
            lemma_dec_value_take_succ(t, i - sign);
            assert(all_digits(t.take(i + 1 - sign)));
        }
        if acc > (usize::MAX - dd) / 10 {
            proof {
                assert(10 * acc + dd > usize::MAX) by (nonlinear_arith)
                    requires
                        acc > (usize::MAX - dd) / 10,
                        dd <= usize::MAX,
                ;
                if all_digits(t) {
                    lemma_dec_value_take_le(t, i + 1 - sign);
                }
            }
            return None;
        }
        proof {
            assert(10 * acc + dd <= usize::MAX) by (nonlinear_arith)
                requires
                    acc <= (usize::MAX - dd) / 10,
                    dd <= usize::MAX,
            ;
        }
        acc = acc * 10 + dd;
        i = i + 1;
    }
    proof {
        assert(t.take(i - sign) =~= t);
    }
    Some(acc)
}

} // verus!
