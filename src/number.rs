use vstd::prelude::*;

use crate::arith::round_div;
use crate::geometry::COORD_LIMIT;
use crate::text::{all_digits, digit_value, digits_value, find_char, index_of, is_digit, push_chars, slice_chars};

verus! {

/// `10^n`.
pub open spec fn pow10(n: nat) -> int
    decreases n,
{
    if n == 0 {
        1
    } else {
        10 * pow10((n - 1) as nat)
    }
}

/// Index of the first exponent mark (`e` or `E`) at or after `i`;
/// `s.len()` if there is none.
pub open spec fn exp_from(s: Seq<char>, i: int) -> int
    decreases s.len() - i,
{
    if i < 0 || i >= s.len() {
        s.len() as int
    } else if s[i] == 'e' || s[i] == 'E' {
        i
    } else {
        exp_from(s, i + 1)
    }
}

/// The magnitude, in units, of the digit run `d` whose unit position is
/// its `n`-th digit (the decimal point stands `n - 4` digits in, possibly
/// outside the run), rounded to the nearest unit with halves upward.
pub open spec fn scaled(d: Seq<char>, n: int) -> int {
    if n < 0 {
        0
    } else if n >= d.len() {
        digits_value(d) * pow10((n - d.len()) as nat)
    } else {
        digits_value(d.take(n)) + if d[n] >= '5' {
            1int
        } else {
            0int
        }
    }
}

/// `s` read as a decimal floating-point literal (an optional sign, digits
/// with an optional fraction of any length, and an optional exponent), in
/// units rounded to the nearest one; `None` where it is no such literal or
/// its magnitude exceeds `COORD_LIMIT`. Infinities and NaN have no place on
/// the grid and are refused.
pub open spec fn parse_units(s: Seq<char>) -> Option<int> {
    let signed = s.len() > 0 && (s[0] == '-' || s[0] == '+');
    let body = if signed {
        s.drop_first()
    } else {
        s
    };
    let e = exp_from(body, 0);
    let mant = body.take(e);
    let ex = if e < body.len() {
        body.skip(e + 1)
    } else {
        Seq::<char>::empty()
    };
    let ex_digits = if ex.len() > 0 && (ex[0] == '+' || ex[0] == '-') {
        ex.drop_first()
    } else {
        ex
    };
    let exp = if ex.len() > 0 && ex[0] == '-' {
        -digits_value(ex_digits)
    } else {
        digits_value(ex_digits)
    };
    let dot = index_of(mant, '.');
    let ip = mant.take(dot);
    let fp = if dot < mant.len() {
        mant.skip(dot + 1)
    } else {
        Seq::<char>::empty()
    };
    let mag = scaled(ip + fp, ip.len() + exp + 4);
    if all_digits(ip) && all_digits(fp) && ip.len() + fp.len() > 0 && (e < body.len() ==> (
    ex_digits.len() > 0 && all_digits(ex_digits))) && mag <= COORD_LIMIT {
        Some(
            if signed && s[0] == '-' {
                -mag
            } else {
                mag
            },
        )
    } else {
        None
    }
}

pub proof fn lemma_pow10_grows(a: nat, b: nat)
    requires
        a <= b,
    ensures
        1 <= pow10(a) <= pow10(b),
    decreases b,
{
    if b > a {
        lemma_pow10_grows(a, (b - 1) as nat);
    } else if a > 0 {
        lemma_pow10_grows((a - 1) as nat, (a - 1) as nat);
    }
}

pub proof fn lemma_digits_value_nonneg(s: Seq<char>)
    requires
        all_digits(s),
    ensures
        digits_value(s) >= 0,
    decreases s.len(),
{
    if s.len() > 0 {
        let t = s.drop_last();
        assert forall|k: int| 0 <= k < t.len() implies is_digit(#[trigger] t[k]) by {
            assert(t[k] == s[k]);
        }
        lemma_digits_value_nonneg(t);
        assert(is_digit(s[s.len() - 1]));
    }
}

/// The value of digits after others: `value(a + b) == value(a) * 10^|b| + value(b)`.
pub proof fn lemma_digits_concat(a: Seq<char>, b: Seq<char>)
    ensures
        digits_value(a + b) == digits_value(a) * pow10(b.len()) + digits_value(b),
    decreases b.len(),
{
    if b.len() == 0 {
        assert(a + b =~= a);
    } else {
        lemma_digits_concat(a, b.drop_last());
        assert((a + b).drop_last() =~= a + b.drop_last());
        assert((a + b).last() == b.last());
        assert(digits_value(a) * pow10(b.len()) == (digits_value(a) * pow10((b.len() - 1) as nat))
            * 10) by (nonlinear_arith)
            requires
                pow10(b.len()) == 10 * pow10((b.len() - 1) as nat),
        {
        }
    }
}

fn is_digit_char(c: char) -> (r: bool)
    ensures
        r == is_digit(c),
{
    '0' <= c && c <= '9'
}

/// The value of the digit run `s.take(n)`, capped at `cap`; `None` if a
/// character there is no digit.
fn digits_sat(s: &Vec<char>, n: usize, cap: u128) -> (r: Option<u128>)
    requires
        n <= s@.len(),
        cap <= 0x1_0000_0000_0000_0000_0000_0000,
    ensures
        r is Some <==> all_digits(s@.take(n as int)),
        r is Some ==> digits_value(s@.take(n as int)) >= 0,
        r is Some ==> r->Some_0 == if digits_value(s@.take(n as int)) < cap {
            digits_value(s@.take(n as int))
        } else {
            cap as int
        },
{
    let mut v: u128 = 0;
    let mut j: usize = 0;
    while j < n
        invariant
            j <= n <= s@.len(),
            cap <= 0x1_0000_0000_0000_0000_0000_0000,
            all_digits(s@.take(j as int)),
            digits_value(s@.take(j as int)) >= 0,
            v == if digits_value(s@.take(j as int)) < cap {
                digits_value(s@.take(j as int))
            } else {
                cap as int
            },
        decreases n - j,
    {
        let c = s[j];
        if !is_digit_char(c) {
            assert(s@.take(n as int)[j as int] == c);
            return None;
        }
        let d = (c as u32 - '0' as u32) as u128;
        proof {
            let t = s@.take(j + 1);
            assert(t.drop_last() =~= s@.take(j as int));
            assert(t.last() == c);
            assert forall|k: int| 0 <= k < t.len() implies is_digit(#[trigger] t[k]) by {
                if k < j {
                    assert(t[k] == s@.take(j as int)[k]);
                }
            }
        }
        v = if v >= cap {
            cap
        } else if v * 10 + d >= cap {
            cap
        } else {
            v * 10 + d
        };
        j = j + 1;
    }
    proof {
        assert forall|k: int| 0 <= k < s@.take(n as int).len() implies is_digit(#[trigger] s@.take(n as int)[k]) by {
            assert(s@.take(n as int)[k] == s@.take(j as int)[k]);
        }
        assert(s@.take(n as int) =~= s@.take(j as int));
    }
    Some(v)
}

/// Index of the first exponent mark in `s`, as `exp_from(s, 0)`.
fn find_exp(s: &Vec<char>) -> (r: usize)
    ensures
        r as int == exp_from(s@, 0),
{
    let mut i: usize = 0;
    while i < s.len()
        invariant
            i <= s@.len(),
            exp_from(s@, 0) == exp_from(s@, i as int),
        decreases s@.len() - i,
    {
        if s[i] == 'e' || s[i] == 'E' {
            return i;
        }
        i = i + 1;
    }
    i
}

/// Exponents at or beyond this are all alike here.
pub open spec fn exp_cap() -> int {
    0x1_0000_0000_0000_0000_0000_0000
}

/// Reads a field as `parse_units` does.
#[verifier::rlimit(80)]
#[verifier::spinoff_prover]
pub fn parse_field(s: &Vec<char>) -> (r: Option<i64>)
    ensures
        parse_units(s@) is Some ==> r == Some(parse_units(s@)->Some_0 as i64),
        parse_units(s@) is None ==> r is None,
        parse_units(s@) is Some ==> -COORD_LIMIT <= parse_units(s@)->Some_0 <= COORD_LIMIT,
{
    let len = s.len();
    let signed = len > 0 && (s[0] == '-' || s[0] == '+');
    let neg = signed && s[0] == '-';
    let body = if signed {
        slice_chars(s, 1, len)
    } else {
        slice_chars(s, 0, len)
    };
    proof {
        if signed {
            assert(body@ =~= s@.drop_first());
        } else {
            assert(body@ =~= s@);
        }
    }
    let blen = body.len();
    let e = find_exp(&body);
    proof {
        lemma_exp_from(body@, 0);
    }
    let mant = slice_chars(&body, 0, e);
    let has_exp = e < blen;
    let ex = if has_exp {
        slice_chars(&body, e + 1, blen)
    } else {
        Vec::new()
    };
    let exlen = ex.len();
    let ex_signed = exlen > 0 && (ex[0] == '+' || ex[0] == '-');
    let ex_neg = exlen > 0 && ex[0] == '-';
    let ex_digits = if ex_signed {
        slice_chars(&ex, 1, exlen)
    } else {
        slice_chars(&ex, 0, exlen)
    };
    proof {
        assert(mant@ =~= body@.take(e as int));
        if has_exp {
            assert(ex@ =~= body@.skip(e + 1));
        } else {
            assert(ex@ =~= Seq::<char>::empty());
        }
        if ex_signed {
            assert(ex_digits@ =~= ex@.drop_first());
        } else {
            assert(ex_digits@ =~= ex@);
        }
        assert(ex_digits@.take(ex_digits@.len() as int) =~= ex_digits@);
    }
    if has_exp && ex_digits.len() == 0 {
        return None;
    }
    let ev = match digits_sat(&ex_digits, ex_digits.len(), 0x1_0000_0000_0000_0000_0000_0000) {
        None => {
            return None;
        },
        Some(v) => v,
    };
    let mlen = mant.len();
    let dot = find_char(&mant, '.', 0);
    proof {
        crate::encoders::lemma_index_from(mant@, '.', 0);
    }
    let ip = slice_chars(&mant, 0, dot);
    let fp = if dot < mlen {
        slice_chars(&mant, dot + 1, mlen)
    } else {
        Vec::new()
    };
    proof {
        assert(ip@ =~= mant@.take(dot as int));
        if dot < mlen {
            assert(fp@ =~= mant@.skip(dot + 1));
        } else {
            assert(fp@ =~= Seq::<char>::empty());
        }
        assert(ip@.take(ip@.len() as int) =~= ip@);
        assert(fp@.take(fp@.len() as int) =~= fp@);
    }
    if ip.len() == 0 && fp.len() == 0 {
        return None;
    }
    if digits_sat(&ip, ip.len(), 1).is_none() || digits_sat(&fp, fp.len(), 1).is_none() {
        return None;
    }
    let mut d = slice_chars(&ip, 0, ip.len());
    push_chars(&mut d, &fp);
    let ghost dd = ip@ + fp@;
    proof {
        assert(d@ =~= dd);
        assert(d@.take(d@.len() as int) =~= d@);
        assert forall|k: int| 0 <= k < dd.len() implies is_digit(#[trigger] dd[k]) by {
            if k < ip@.len() {
                assert(dd[k] == ip@[k]);
            } else {
                assert(dd[k] == fp@[k - ip@.len()]);
            }
        }
    }
    let ghost true_exp: int = if ex_neg {
        -digits_value(ex_digits@)
    } else {
        digits_value(ex_digits@)
    };
    let ghost true_n: int = ip@.len() + true_exp + 4;
    proof {
        assert(ex_neg == (ex@.len() > 0 && ex@[0] == '-'));
        assert(ex_signed == (ex@.len() > 0 && (ex@[0] == '+' || ex@[0] == '-')));
        lemma_digits_value_nonneg(ex_digits@);
    }
    let mag: i64 = if ev >= 0x1_0000_0000_0000_0000_0000_0000 {
        if ex_neg {
            proof {
                assert(true_n < 0);
            }
            0
        } else {
            let m = digits_sat(&d, d.len(), 1);
            proof {
                lemma_scaled_far(dd, true_n);
            }
            if m == Some(0u128) {
                0
            } else {
                return None;
            }
        }
    } else {
        let exp: i128 = if ex_neg {
            -(ev as i128)
        } else {
            ev as i128
        };
        let n: i128 = ip.len() as i128 + exp + 4;
        proof {
            assert(n == true_n);
            lemma_scaled_nonneg(dd, true_n);
        }
        match scaled_units(&d, n) {
            Some(v) => v,
            None => {
                return None;
            },
        }
    };
    proof {
        lemma_scaled_nonneg(dd, true_n);
        assert(0 <= mag <= COORD_LIMIT);
    }
    if neg {
        Some(-mag)
    } else {
        Some(mag)
    }
}

/// Far enough left of the digits, a nonzero run is out of range and a zero
/// run is zero.
proof fn lemma_scaled_far(d: Seq<char>, n: int)
    requires
        all_digits(d),
        n >= d.len() + 13,
    ensures
        digits_value(d) == 0 ==> scaled(d, n) == 0,
        digits_value(d) != 0 ==> scaled(d, n) > COORD_LIMIT,
{
    lemma_digits_value_nonneg(d);
    lemma_pow10_grows(13, (n - d.len()) as nat);
    lemma_pow10_13();
    if digits_value(d) != 0 {
        assert(digits_value(d) * pow10((n - d.len()) as nat) >= pow10(13)) by (nonlinear_arith)
            requires
                digits_value(d) >= 1,
                pow10((n - d.len()) as nat) >= pow10(13),
                pow10(13) == 10000000000000,
        {
        }
    }
}

/// `scaled(d, n)`, or `None` where it exceeds `COORD_LIMIT`.
fn scaled_units(d: &Vec<char>, n: i128) -> (r: Option<i64>)
    requires
        all_digits(d@),
        -0x1_0000_0000_0000_0000_0000_0000_0000 <= n <= 0x1_0000_0000_0000_0000_0000_0000_0000,
    ensures
        r is Some ==> r->Some_0 == scaled(d@, n as int) && r->Some_0 <= COORD_LIMIT,
        r is None ==> scaled(d@, n as int) > COORD_LIMIT,
{
    let dl: i128 = d.len() as i128;
    proof {
        assert(d@.take(d@.len() as int) =~= d@);
        lemma_digits_value_nonneg(d@);
    }
    if n < 0 {
        return Some(0);
    }
    if n >= dl {
        let m = match digits_sat(d, d.len(), 1000000000001) {
            Some(v) => v,
            None => {
                return None;
            },
        };
        if m == 0 {
            proof {
                assert(digits_value(d@) * pow10((n - dl) as nat) == 0) by (nonlinear_arith)
                    requires
                        digits_value(d@) == 0,
                {
                }
            }
            return Some(0);
        }
        if n - dl >= 13 {
            proof {
                lemma_scaled_far(d@, n as int);
            }
            return None;
        }
        proof {
            lemma_pow10_grows(0, (n - dl) as nat);
        }
        if m > 1000000000000 {
            proof {
                assert(digits_value(d@) * pow10((n - dl) as nat) >= digits_value(d@))
                    by (nonlinear_arith)
                    requires
                        digits_value(d@) >= 0,
                        pow10((n - dl) as nat) >= 1,
                {
                }
            }
            return None;
        }
        let k = (n - dl) as u32;
        let mut acc: u128 = m;
        let mut i: u32 = 0;
        proof {
            lemma_pow10_13();
            lemma_pow10_grows(0, 12);
        }
        while i < k
            invariant
                i <= k <= 12,
                m <= 1000000000000,
                acc == m * pow10(i as nat),
                pow10(i as nat) <= pow10(12),
                pow10(12) == 1000000000000,
            decreases k - i,
        {
            proof {
                lemma_pow10_grows((i + 1) as nat, 12);
                assert(m * pow10((i + 1) as nat) == (m * pow10(i as nat)) * 10) by (nonlinear_arith)
                    requires
                        pow10((i + 1) as nat) == 10 * pow10(i as nat),
                {
                }
                assert(acc * 10 <= 1000000000000 * 10000000000000) by (nonlinear_arith)
                    requires
                        acc == m * pow10(i as nat),
                        m <= 1000000000000,
                        pow10(i as nat) <= 1000000000000,
                        pow10(i as nat) >= 0,
                        m >= 0,
                {
                }
            }
            acc = acc * 10;
            i = i + 1;
        }
        if acc > 1000000000000 {
            return None;
        }
        return Some(acc as i64);
    }
    let q = match digits_sat(d, n as usize, 1000000000001) {
        Some(v) => v,
        None => {
            return None;
        },
    };
    if q > 1000000000000 {
        return None;
    }
    let up: i64 = if d[n as usize] >= '5' {
        1
    } else {
        0
    };
    let v = q as i64 + up;
    if v > 1000000000000 {
        return None;
    }
    Some(v)
}

proof fn lemma_pow10_13()
    ensures
        pow10(13) == 10000000000000,
        pow10(12) == 1000000000000,
{
    reveal_with_fuel(pow10, 14);
}

pub proof fn lemma_exp_from(s: Seq<char>, i: int)
    requires
        0 <= i <= s.len(),
    ensures
        i <= exp_from(s, i) <= s.len(),
        forall|j: int| i <= j < exp_from(s, i) ==> s[j] != 'e' && s[j] != 'E',
    decreases s.len() - i,
{
    if i < s.len() && s[i] != 'e' && s[i] != 'E' {
        lemma_exp_from(s, i + 1);
    }
}

proof fn lemma_all_digits_concat(a: Seq<char>, b: Seq<char>)
    requires
        all_digits(a),
        all_digits(b),
    ensures
        all_digits(a + b),
{
    assert forall|k: int| 0 <= k < (a + b).len() implies is_digit(#[trigger] (a + b)[k]) by {
        if k < a.len() {
            assert((a + b)[k] == a[k]);
        } else {
            assert((a + b)[k] == b[k - a.len()]);
        }
    }
}

proof fn lemma_scaled_nonneg(d: Seq<char>, n: int)
    requires
        all_digits(d),
    ensures
        scaled(d, n) >= 0,
{
    lemma_digits_value_nonneg(d);
    if n >= d.len() {
        lemma_pow10_grows(0, (n - d.len()) as nat);
        assert(digits_value(d) * pow10((n - d.len()) as nat) >= 0) by (nonlinear_arith)
            requires
                digits_value(d) >= 0,
                pow10((n - d.len()) as nat) >= 1,
        {
        }
    } else if n >= 0 {
        let t = d.take(n);
        assert forall|k: int| 0 <= k < t.len() implies is_digit(#[trigger] t[k]) by {
            assert(t[k] == d[k]);
        }
        lemma_digits_value_nonneg(t);
    }
}

/// A value that parses lies within `COORD_LIMIT`.
pub proof fn lemma_parse_units_in_range(s: Seq<char>)
    requires
        parse_units(s) is Some,
    ensures
        -COORD_LIMIT <= parse_units(s)->Some_0 <= COORD_LIMIT,
{
    let signed = s.len() > 0 && (s[0] == '-' || s[0] == '+');
    let body = if signed {
        s.drop_first()
    } else {
        s
    };
    let e = exp_from(body, 0);
    lemma_exp_from(body, 0);
    let mant = body.take(e);
    let dot = index_of(mant, '.');
    crate::encoders::lemma_index_from(mant, '.', 0);
    let ip = mant.take(dot);
    let fp = if dot < mant.len() {
        mant.skip(dot + 1)
    } else {
        Seq::<char>::empty()
    };
    lemma_all_digits_concat(ip, fp);
    let ex = if e < body.len() {
        body.skip(e + 1)
    } else {
        Seq::<char>::empty()
    };
    let ex_digits = if ex.len() > 0 && (ex[0] == '+' || ex[0] == '-') {
        ex.drop_first()
    } else {
        ex
    };
    let exp = if ex.len() > 0 && ex[0] == '-' {
        -digits_value(ex_digits)
    } else {
        digits_value(ex_digits)
    };
    lemma_scaled_nonneg(ip + fp, ip.len() + exp + 4);
}

/// With no exponent mark in `s`, the search runs off its end.
pub proof fn lemma_exp_none(s: Seq<char>, i: int)
    requires
        0 <= i <= s.len(),
        forall|j: int| i <= j < s.len() ==> s[j] != 'e' && s[j] != 'E',
    ensures
        exp_from(s, i) == s.len(),
    decreases s.len() - i,
{
    if i < s.len() {
        lemma_exp_none(s, i + 1);
    }
}

pub proof fn lemma_pow10_4()
    ensures
        pow10(4) == 10000,
        pow10(0) == 1,
{
    reveal_with_fuel(pow10, 5);
}

proof fn lemma_digits_bound(s: Seq<char>)
    requires
        all_digits(s),
    ensures
        0 <= digits_value(s) < pow10(s.len()),
    decreases s.len(),
{
    if s.len() > 0 {
        let t = s.drop_last();
        assert forall|k: int| 0 <= k < t.len() implies is_digit(#[trigger] t[k]) by {
            assert(t[k] == s[k]);
        }
        lemma_digits_bound(t);
        assert(is_digit(s[s.len() - 1]));
        assert(digits_value(s) < pow10(s.len())) by (nonlinear_arith)
            requires
                digits_value(s) == digits_value(t) * 10 + digit_value(s.last()),
                0 <= digits_value(t) <= pow10(t.len()) - 1,
                0 <= digit_value(s.last()) <= 9,
                pow10(s.len()) == 10 * pow10(t.len()),
        {
        }
    }
}

/// `scaled(d, n)` is the exact value of the digits `d`, read with the unit
/// at digit `n`, rounded to the nearest unit with halves upward: the whole
/// value `digits_value(d)` divided by `10^(|d| - n)` where that is a
/// division, multiplied by `10^(n - |d|)` otherwise.
pub proof fn lemma_scaled_rounds(d: Seq<char>, n: int)
    requires
        all_digits(d),
    ensures
        n >= d.len() ==> scaled(d, n) == digits_value(d) * pow10((n - d.len()) as nat),
        n < d.len() ==> scaled(d, n) == round_div(digits_value(d), pow10((d.len() - n) as nat)),
{
    lemma_digits_bound(d);
    if n < 0 {
        let p = pow10((d.len() - n) as nat);
        lemma_pow10_grows((d.len() + 1) as nat, (d.len() - n) as nat);
        assert(pow10((d.len() + 1) as nat) == 10 * pow10(d.len()));
        let v = digits_value(d);
        vstd::arithmetic::div_mod::lemma_fundamental_div_mod_converse(2 * v + p, 2 * p, 0, 2 * v + p);
    } else if n < d.len() {
        let a = d.take(n);
        let b = d.skip(n);
        let c = d[n];
        let rest = b.drop_first();
        assert(d =~= a + b);
        assert(b =~= seq![c] + rest);
        assert forall|k: int| 0 <= k < rest.len() implies is_digit(#[trigger] rest[k]) by {
            assert(rest[k] == d[n + 1 + k]);
        }
        assert forall|k: int| 0 <= k < a.len() implies is_digit(#[trigger] a[k]) by {
            assert(a[k] == d[k]);
        }
        assert(is_digit(c));
        lemma_digits_concat(a, b);
        lemma_digits_concat(seq![c], rest);
        assert(seq![c].drop_last() =~= Seq::<char>::empty());
        assert(digits_value(Seq::<char>::empty()) == 0);
        assert(seq![c].last() == c);
        assert(digits_value(seq![c]) == digits_value(seq![c].drop_last()) * 10 + digit_value(c));
        assert(digits_value(seq![c]) == digit_value(c));
        lemma_digits_bound(rest);
        lemma_digits_value_nonneg(a);
        let q = digits_value(a);
        let small = pow10(rest.len());
        let big = pow10(b.len());
        assert(big == 10 * small);
        let r = digits_value(b);
        let v = digits_value(d);
        assert(v == q * big + r);
        assert(r == digit_value(c) * small + digits_value(rest));
        let up: int = if c >= '5' {
            1
        } else {
            0
        };
        assert(up == 1 <==> digit_value(c) >= 5);
        let rem = 2 * v + big - (q + up) * (2 * big);
        assert(0 <= rem < 2 * big) by (nonlinear_arith)
            requires
                rem == 2 * v + big - (q + up) * (2 * big),
                v == q * big + r,
                r == digit_value(c) * small + digits_value(rest),
                0 <= digits_value(rest) < small,
                big == 10 * small,
                0 <= digit_value(c) <= 9,
                up == 1 <==> digit_value(c) >= 5,
                up == 0 || up == 1,
        {
        }
        vstd::arithmetic::div_mod::lemma_fundamental_div_mod_converse(
            2 * v + big,
            2 * big,
            q + up,
            rem,
        );
    }
}

} // verus!
