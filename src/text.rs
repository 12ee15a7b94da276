use vstd::prelude::*;
use vstd::string::*;

use crate::digits::{
    digit_char, digit_value, digits_value, dec_digits, is_digit, is_digit_seq,
    lemma_digits_value_bound, lemma_digits_value_concat, lemma_pow10_9, lemma_pow10_positive,
    padded_digits, pow10,
};
use crate::quantity::{
    lemma_pow10_mono, new_result, pow10_u64, rescale_factor, Quantity, QuantityError,
    FIXED_PRECISION, QUANTITY_MAX_RAW, QUANTITY_MAX_UNITS,
};

verus! {

/// `s` is a run of digits, a point at `k`, and another run of digits.
pub open spec fn is_point_at(s: Seq<char>, k: int) -> bool {
    &&& 0 < k < s.len()
    &&& s[k] == '.'
    &&& is_digit_seq(s.subrange(0, k))
    &&& is_digit_seq(s.subrange(k + 1, s.len() as int))
}

/// A decimal numeral: digits, optionally followed by a point and more digits.
pub open spec fn is_numeral(s: Seq<char>) -> bool {
    is_digit_seq(s) || exists|k: int| is_point_at(s, k)
}

pub open spec fn point_of(s: Seq<char>) -> int {
    choose|k: int| is_point_at(s, k)
}

/// The digits before the point of a numeral.
pub open spec fn int_part(s: Seq<char>) -> Seq<char> {
    if is_digit_seq(s) {
        s
    } else {
        s.subrange(0, point_of(s))
    }
}

/// The digits after the point of a numeral; empty where it has none.
pub open spec fn frac_part(s: Seq<char>) -> Seq<char> {
    if is_digit_seq(s) {
        Seq::empty()
    } else {
        s.subrange(point_of(s) + 1, s.len() as int)
    }
}

/// The digits of a numeral without its point: the numeral's value is this
/// number times `10^-(frac_part(s).len())`.
pub open spec fn numeral_mantissa(s: Seq<char>) -> nat {
    digits_value(int_part(s) + frac_part(s))
}

/// What reading an unsigned numeral gives: the value bound is checked first,
/// then the precision, which is the number of digits after the point.
pub open spec fn unsigned_result(s: Seq<char>) -> Result<Quantity, QuantityError> {
    if !is_numeral(s) {
        Err(QuantityError::Parse)
    } else if numeral_mantissa(s) > QUANTITY_MAX_UNITS * pow10(frac_part(s).len()) {
        Err(QuantityError::Range)
    } else {
        new_result(numeral_mantissa(s) as int, frac_part(s).len() as int)
    }
}

/// What reading the text `s` as a quantity gives. A numeral may carry a
/// leading `-`: a negative value lies below the range, and `-0` is zero.
pub open spec fn parse_result(s: Seq<char>) -> Result<Quantity, QuantityError> {
    if s.len() > 0 && s[0] == '-' {
        let t = s.drop_first();
        if is_numeral(t) && numeral_mantissa(t) > 0 {
            Err(QuantityError::Range)
        } else {
            unsigned_result(t)
        }
    } else {
        unsigned_result(s)
    }
}

/// `raw / 10^9` in units of `10^-precision`, rounded to the nearest unit,
/// ties to even.
pub open spec fn rounded_units(raw: u64, precision: u8) -> nat {
    let f = rescale_factor(precision as int);
    let q = raw as nat / f;
    let r = raw as nat % f;
    if 2 * r > f || (2 * r == f && q % 2 == 1) {
        q + 1
    } else {
        q
    }
}

/// The rendering of `raw / 10^9` with exactly `precision` fractional digits.
pub open spec fn format_digits(raw: u64, precision: u8) -> Seq<char> {
    let units = rounded_units(raw, precision);
    let g = pow10(precision as nat);
    if precision == 0 {
        dec_digits(units)
    } else {
        dec_digits(units / g) + seq!['.'] + padded_digits(units % g, precision as nat)
    }
}

fn is_digit_exec(c: char) -> (r: bool)
    ensures
        r == is_digit(c),
{
    '0' <= c && c <= '9'
}

/// Appends one digit to a running value; `over` records that the value has
/// passed the largest raw value, after which it is no longer tracked.
fn push_digit(acc: u128, over: bool, c: char, Ghost(v): Ghost<nat>) -> (r: (u128, bool))
    requires
        is_digit(c),
        over == (v > QUANTITY_MAX_RAW),
        !over ==> acc == v,
    ensures
        r.1 == (10 * v + digit_value(c) > QUANTITY_MAX_RAW),
        !r.1 ==> r.0 == 10 * v + digit_value(c),
{
    if over {
        (acc, true)
    } else {
        let d = (c as u32 - '0' as u32) as u128;
        let next = acc * 10 + d;
        if next > QUANTITY_MAX_RAW as u128 {
            (acc, true)
        } else {
            (next, false)
        }
    }
}

proof fn lemma_not_numeral_at_start(s: Seq<char>)
    requires
        s.len() == 0 || !is_digit(s[0]),
    ensures
        !is_numeral(s),
{
    assert forall|k: int| !is_point_at(s, k) by {
        if is_point_at(s, k) {
            assert(s.subrange(0, k)[0] == s[0]);
        }
    }
}

proof fn lemma_not_numeral_bad_char(s: Seq<char>, k: int)
    requires
        0 < k < s.len(),
        forall|i: int| 0 <= i < k ==> is_digit(#[trigger] s[i]),
        !is_digit(s[k]),
        s[k] != '.',
    ensures
        !is_numeral(s),
{
    assert forall|k2: int| !is_point_at(s, k2) by {
        if is_point_at(s, k2) {
            if k2 < k {
                assert(is_digit(s[k2]));
            } else if k2 > k {
                assert(s.subrange(0, k2)[k] == s[k]);
            }
        }
    }
}

/// With a point at `k` after a run of digits, that point is the one a
/// numeral has, if any.
pub proof fn lemma_point_unique(s: Seq<char>, k: int, k2: int)
    requires
        0 < k < s.len(),
        forall|i: int| 0 <= i < k ==> is_digit(#[trigger] s[i]),
        s[k] == '.',
        is_point_at(s, k2),
    ensures
        k2 == k,
{
    if k2 < k {
        assert(is_digit(s[k2]));
    } else if k2 > k {
        assert(s.subrange(0, k2)[k] == s[k]);
    }
}

/// A value written as `ip` whole digits and `fv` below `g` exceeds `m` whole
/// units exactly when `ip` does, or equals it with a non-zero fraction.
proof fn lemma_range_split(ip: int, fv: int, g: int, m: int)
    requires
        g >= 1,
        0 <= fv < g,
        ip >= 0,
        m >= 0,
    ensures
        (ip * g + fv > m * g) == (ip > m || (ip == m && fv > 0)),
{
    if ip > m {
        assert(ip * g >= (m + 1) * g) by (nonlinear_arith)
            requires
                ip >= m + 1,
                g >= 1,
        ;
        assert((m + 1) * g == m * g + g) by (nonlinear_arith);
    } else if ip < m {
        assert(ip * g <= (m - 1) * g) by (nonlinear_arith)
            requires
                ip <= m - 1,
                g >= 1,
        ;
        assert((m - 1) * g == m * g - g) by (nonlinear_arith);
    }
}

/// Reads an unsigned numeral; the flag tells whether it is a numeral of
/// non-zero value.
fn read_unsigned(input: &str) -> (r: (Result<Quantity, QuantityError>, bool))
    ensures
        r.0 == unsigned_result(input@),
        r.1 == (is_numeral(input@) && numeral_mantissa(input@) > 0),
{
    let ghost s = input@;
    let n = input.unicode_len();
    let mut acc: u128 = 0;
    let mut over = false;
    let mut k: usize = 0;
    proof {
        assert(s.subrange(0, 0) =~= Seq::<char>::empty());
        assert(digits_value(Seq::<char>::empty()) == 0);
        lemma_pow10_9();
    }
    while k < n && is_digit_exec(input.get_char(k))
        invariant
            n == s.len(),
            s == input@,
            k <= n,
            forall|i: int| 0 <= i < k ==> is_digit(#[trigger] s[i]),
            over == (digits_value(s.subrange(0, k as int)) > QUANTITY_MAX_RAW),
            !over ==> acc == digits_value(s.subrange(0, k as int)),
        decreases n - k,
    {
        let c = input.get_char(k);
        let ghost pre = s.subrange(0, k as int);
        let r = push_digit(acc, over, c, Ghost(digits_value(pre)));
        acc = r.0;
        over = r.1;
        proof {
            let next = s.subrange(0, k + 1);
            assert(next.drop_last() =~= pre);
            assert(next.last() == c);
        }
        k = k + 1;
    }
    if k == 0 {
        proof {
            lemma_not_numeral_at_start(s);
        }
        return (Err(QuantityError::Parse), false);
    }
    if k == n {
        proof {
            assert(s.subrange(0, n as int) =~= s);
            assert(is_digit_seq(s));
            assert(int_part(s) + frac_part(s) =~= s);
            assert(frac_part(s).len() == 0);
            assert(pow10(0) == 1);
        }
        let nonzero = over || acc > 0;
        if over || acc > QUANTITY_MAX_UNITS as u128 {
            return (Err(QuantityError::Range), nonzero);
        }
        return (Quantity::new(acc as u64, 0), nonzero);
    }
    let c = input.get_char(k);
    if c != '.' || k + 1 == n {
        proof {
            if c != '.' {
                lemma_not_numeral_bad_char(s, k as int);
            } else {
                assert(!is_digit_seq(s));
                assert forall|k2: int| !is_point_at(s, k2) by {
                    if is_point_at(s, k2) {
                        lemma_point_unique(s, k as int, k2);
                    }
                }
            }
        }
        return (Err(QuantityError::Parse), false);
    }
    let ghost whole = s.subrange(0, k as int);
    let int_over = over;
    let int_acc = acc;
    let mut frac_nonzero = false;
    let mut j: usize = k + 1;
    proof {
        assert(whole + s.subrange(k + 1, k + 1) =~= whole);
        assert(s.subrange(k + 1, k + 1) =~= Seq::<char>::empty());
    }
    while j < n && is_digit_exec(input.get_char(j))
        invariant
            n == s.len(),
            s == input@,
            k + 1 <= j <= n,
            whole == s.subrange(0, k as int),
            forall|i: int| k + 1 <= i < j ==> is_digit(#[trigger] s[i]),
            over == (digits_value(whole + s.subrange(k + 1, j as int)) > QUANTITY_MAX_RAW),
            !over ==> acc == digits_value(whole + s.subrange(k + 1, j as int)),
            frac_nonzero == (digits_value(s.subrange(k + 1, j as int)) > 0),
        decreases n - j,
    {
        let c = input.get_char(j);
        let ghost pre = whole + s.subrange(k + 1, j as int);
        let r = push_digit(acc, over, c, Ghost(digits_value(pre)));
        acc = r.0;
        over = r.1;
        frac_nonzero = frac_nonzero || c != '0';
        proof {
            let next = whole + s.subrange(k + 1, j + 1);
            assert(next.drop_last() =~= pre);
            assert(next.last() == c);
            let fnext = s.subrange(k + 1, j + 1);
            assert(fnext.drop_last() =~= s.subrange(k + 1, j as int));
            assert(fnext.last() == c);
        }
        j = j + 1;
    }
    proof {
        assert(!is_digit_seq(s)) by {
            assert(!is_digit(s[k as int]));
        }
    }
    if j < n {
        proof {
            assert forall|k2: int| !is_point_at(s, k2) by {
                if is_point_at(s, k2) {
                    lemma_point_unique(s, k as int, k2);
                    assert(s.subrange(k + 1, s.len() as int)[j - k - 1] == s[j as int]);
                }
            }
        }
        return (Err(QuantityError::Parse), false);
    }
    let ghost frac = s.subrange(k + 1, n as int);
    proof {
        assert(is_digit_seq(whole));
        assert(is_digit_seq(frac));
        assert(is_point_at(s, k as int));
        lemma_point_unique(s, k as int, point_of(s));
        assert(int_part(s) == whole);
        assert(frac_part(s) == frac);
        lemma_digits_value_concat(whole, frac);
        lemma_digits_value_bound(frac);
        lemma_pow10_positive(frac.len());
        lemma_range_split(
            digits_value(whole) as int,
            digits_value(frac) as int,
            pow10(frac.len()) as int,
            QUANTITY_MAX_UNITS as int,
        );
        assert(numeral_mantissa(s) == digits_value(whole) * pow10(frac.len()) + digits_value(
            frac,
        ));
    }
    let nonzero = over || acc > 0;
    let in_range = !int_over && (int_acc < QUANTITY_MAX_UNITS as u128 || (int_acc
        == QUANTITY_MAX_UNITS as u128 && !frac_nonzero));
    if !in_range {
        return (Err(QuantityError::Range), nonzero);
    }
    let scale = n - k - 1;
    if scale > FIXED_PRECISION as usize {
        return (Err(QuantityError::Precision), nonzero);
    }
    proof {
        let m = numeral_mantissa(s);
        lemma_pow10_mono(scale as nat, 9);
        assert(m <= QUANTITY_MAX_UNITS * pow10(9)) by (nonlinear_arith)
            requires
                m <= QUANTITY_MAX_UNITS * pow10(scale as nat),
                pow10(scale as nat) <= pow10(9),
        ;
    }
    (Quantity::new(acc as u64, scale as u8), nonzero)
}

impl Quantity {
    /// Reads a decimal numeral such as `"0.00812000"`; the number of digits
    /// after the point becomes the precision. A value beyond the bounds, a
    /// negative one included, is a range error, checked before the precision.
    pub fn from_str(input: &str) -> (r: Result<Quantity, QuantityError>)
        ensures
            r == parse_result(input@),
    {
        let n = input.unicode_len();
        if n > 0 && input.get_char(0) == '-' {
            let rest = input.substring_char(1, n);
            proof {
                assert(rest@ =~= input@.drop_first());
            }
            let (res, nonzero) = read_unsigned(rest);
            if nonzero {
                Err(QuantityError::Range)
            } else {
                res
            }
        } else {
            read_unsigned(input).0
        }
    }
}

/// The text of the digit `d`.
fn digit_str(d: u64) -> (r: &'static str)
    requires
        d < 10,
    ensures
        r@ == seq![digit_char(d as nat)],
{
    if d == 0 {
        proof {
            reveal_strlit("0");
        }
        "0"
    } else if d == 1 {
        proof {
            reveal_strlit("1");
        }
        "1"
    } else if d == 2 {
        proof {
            reveal_strlit("2");
        }
        "2"
    } else if d == 3 {
        proof {
            reveal_strlit("3");
        }
        "3"
    } else if d == 4 {
        proof {
            reveal_strlit("4");
        }
        "4"
    } else if d == 5 {
        proof {
            reveal_strlit("5");
        }
        "5"
    } else if d == 6 {
        proof {
            reveal_strlit("6");
        }
        "6"
    } else if d == 7 {
        proof {
            reveal_strlit("7");
        }
        "7"
    } else if d == 8 {
        proof {
            reveal_strlit("8");
        }
        "8"
    } else {
        proof {
            reveal_strlit("9");
        }
        "9"
    }
}

/// Appends the shortest decimal rendering of `n`.
fn push_dec(out: &mut String, n: u64)
    ensures
        final(out)@ == old(out)@ + dec_digits(n as nat),
    decreases n,
{
    let ghost start = out@;
    if n >= 10 {
        push_dec(out, n / 10);
    } else {
        proof {
            assert(start + Seq::<char>::empty() =~= start);
        }
    }
    let ghost mid = out@;
    out.append(digit_str(n % 10));
    proof {
        if n >= 10 {
            assert(start + dec_digits(n as nat) =~= mid + seq![digit_char((n % 10) as nat)]);
        } else {
            assert(start + dec_digits(n as nat) =~= start + seq![digit_char((n % 10) as nat)]);
        }
    }
}

/// Appends the last `w` digits of `n`, with leading zeros.
fn push_padded(out: &mut String, n: u64, w: u8)
    ensures
        final(out)@ == old(out)@ + padded_digits(n as nat, w as nat),
    decreases w,
{
    let ghost start = out@;
    if w > 0 {
        push_padded(out, n / 10, w - 1);
        let ghost mid = out@;
        out.append(digit_str(n % 10));
        proof {
            assert(start + padded_digits(n as nat, w as nat) =~= mid + seq![
                digit_char((n % 10) as nat),
            ]);
        }
    } else {
        proof {
            assert(start + padded_digits(n as nat, 0) =~= start);
        }
    }
}

impl Quantity {
    /// The value with exactly `precision` fractional digits, e.g. `"0.00812000"`,
    /// rounded to the nearest, ties to even.
    pub fn to_string(&self) -> (r: String)
        requires
            self.wf(),
        ensures
            r@ == format_digits(self.raw, self.precision),
    {
        let p = self.precision;
        let factor = pow10_u64(FIXED_PRECISION - p);
        proof {
            lemma_pow10_positive((FIXED_PRECISION - p) as nat);
        }
        let q = self.raw / factor;
        let rem = self.raw % factor;
        let units = if 2 * rem > factor || (2 * rem == factor && q % 2 == 1) {
            proof {
                let raw = self.raw as int;
                let f = factor as int;
                assert(f >= 2);
                assert(raw == f * (raw / f) + raw % f);
                assert(q as int * f <= raw) by (nonlinear_arith)
                    requires
                        raw == f * q + rem,
                        rem >= 0,
                ;
                assert(q as int * 2 <= raw) by (nonlinear_arith)
                    requires
                        q as int * f <= raw,
                        f >= 2,
                        q >= 0,
                ;
            }
            q + 1
        } else {
            q
        };
        let mut out = String::new();
        if p == 0 {
            push_dec(&mut out, units);
        } else {
            let scale = pow10_u64(p);
            proof {
                lemma_pow10_positive(p as nat);
            }
            push_dec(&mut out, units / scale);
            proof {
                reveal_strlit(".");
            }
            out.append(".");
            push_padded(&mut out, units % scale, p);
        }
        proof {
            assert(Seq::<char>::empty() + dec_digits(units as nat) =~= dec_digits(units as nat));
            let w = units as nat / pow10(p as nat);
            assert(Seq::<char>::empty() + dec_digits(w) =~= dec_digits(w));
        }
        out
    }
}

} // verus!
