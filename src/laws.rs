use vstd::prelude::*;

use core::cmp::Ordering;
use vstd::arithmetic::div_mod::{
    lemma_div_multiples_vanish, lemma_div_multiples_vanish_fancy, lemma_fundamental_div_mod,
    lemma_mod_bound, lemma_mod_multiples_basic, lemma_small_mod,
};
use vstd::std_specs::cmp::{PartialEqSpec, PartialOrdSpec};

use crate::digits::{
    dec_digits, digits_value, is_canonical_int, is_digit, is_digit_seq, lemma_dec_digits,
    lemma_dec_of_value, lemma_digits_value_bound, lemma_digits_value_concat, lemma_padded_digits,
    lemma_padded_of_value, lemma_pow10_9, lemma_pow10_add, lemma_pow10_positive, padded_digits,
    pow10,
};
use crate::quantity::{
    new_result, rescale_factor, Quantity, QuantityError, FIXED_PRECISION, QUANTITY_MAX_UNITS,
};
use crate::text::{
    format_digits, frac_part, int_part, is_numeral, is_point_at, lemma_point_unique,
    numeral_mantissa, parse_result, point_of, rounded_units, unsigned_result,
};

verus! {

/// Ordering of two integers.
pub open spec fn cmp_int(x: int, y: int) -> Ordering {
    if x < y {
        Ordering::Less
    } else if x == y {
        Ordering::Equal
    } else {
        Ordering::Greater
    }
}

/// Facts on the two scales of a precision `p`: `10^p` units of display make
/// `10^(9-p)`-fold raw steps of one whole unit.
proof fn lemma_scales(p: nat)
    requires
        p <= 9,
    ensures
        pow10(p) * rescale_factor(p as int) == 1_000_000_000,
        pow10(p) >= 1,
        rescale_factor(p as int) >= 1,
{
    lemma_pow10_add(p, (9 - p) as nat);
    lemma_pow10_9();
    lemma_pow10_positive(p);
    lemma_pow10_positive((9 - p) as nat);
}

/// Rounding a raw value that is an exact multiple of the factor gives the
/// quotient.
proof fn lemma_rounded_exact(m: nat, p: u8)
    requires
        p <= 9,
        m * rescale_factor(p as int) <= u64::MAX,
    ensures
        rounded_units((m * rescale_factor(p as int)) as u64, p) == m,
{
    let f = rescale_factor(p as int);
    lemma_scales(p as nat);
    let raw = m * f;
    assert(raw == f * m) by (nonlinear_arith)
        requires
            raw == m * f,
    ;
    lemma_div_multiples_vanish(m as int, f as int);
    lemma_mod_multiples_basic(m as int, f as int);
    assert(raw % f == 0);
    assert(raw / f == m);
}

/// Formatting a quantity and reading the text back gives the same quantity,
/// precision included, for every in-range quantity whose raw value carries no
/// digits beyond its precision.
pub proof fn lemma_parse_of_format(q: Quantity)
    requires
        q.wf(),
        q.in_range(),
        q.raw as nat % rescale_factor(q.precision as int) == 0,
    ensures
        parse_result(format_digits(q.raw, q.precision)) == Ok::<Quantity, QuantityError>(q),
{
    let p = q.precision as nat;
    let raw = q.raw as nat;
    let f = rescale_factor(p as int);
    let g = pow10(p);
    lemma_scales(p);
    let t = raw / f;
    lemma_fundamental_div_mod(raw as int, f as int);
    assert(raw == f * t);
    assert(rounded_units(q.raw, q.precision) == t);
    assert(t <= QUANTITY_MAX_UNITS * g) by (nonlinear_arith)
        requires
            raw == f * t,
            raw <= 18_446_744_073_000_000_000,
            g * f == 1_000_000_000,
            f >= 1,
    ;
    let s = format_digits(q.raw, q.precision);
    let m;
    if p == 0 {
        let d = dec_digits(t);
        lemma_dec_digits(t);
        assert(s == d);
        assert(is_digit_seq(s));
        assert(int_part(s) + frac_part(s) =~= d);
        assert(frac_part(s).len() == 0);
        m = numeral_mantissa(s);
        assert(m == t);
    } else {
        let d = dec_digits(t / g);
        lemma_dec_digits(t / g);
        let pd = padded_digits(t % g, p);
        lemma_padded_digits(t % g, p);
        let k = d.len() as int;
        assert(s == d + seq!['.'] + pd);
        assert(s.subrange(0, k) =~= d);
        assert(s.subrange(k + 1, s.len() as int) =~= pd);
        assert(s[k] == '.');
        assert(is_point_at(s, k));
        assert(!is_digit_seq(s)) by {
            assert(!is_digit(s[k]));
        }
        assert forall|i: int| 0 <= i < k implies is_digit(#[trigger] s[i]) by {
            assert(s[i] == d[i]);
        }
        lemma_point_unique(s, k, point_of(s));
        assert(int_part(s) == d);
        assert(frac_part(s) == pd);
        lemma_digits_value_concat(d, pd);
        lemma_mod_bound(t as int, g as int);
        lemma_small_mod((t % g) as nat, g);
        lemma_fundamental_div_mod(t as int, g as int);
        m = numeral_mantissa(s);
        assert(m == (t / g) * g + t % g);
        assert(m == t);
        assert(frac_part(s).len() == p);
    }
    assert(s[0] != '-') by {
        assert(is_digit(dec_digits(if p == 0 { t } else { t / g })[0]));
        assert(s[0] == dec_digits(if p == 0 { t } else { t / g })[0]);
    }
    assert(m * f == raw) by (nonlinear_arith)
        requires
            m == t,
            raw == f * t,
    ;
    assert(new_result(m as int, p as int) == Ok::<Quantity, QuantityError>(
        Quantity { raw: q.raw, precision: q.precision },
    ));
}

/// Reading a numeral and formatting the result gives the numeral back, for
/// every in-range numeral with at most nine fractional digits and without
/// superfluous leading zeros.
pub proof fn lemma_format_of_parse(s: Seq<char>)
    requires
        is_numeral(s),
        is_canonical_int(int_part(s)),
        frac_part(s).len() <= FIXED_PRECISION,
        parse_result(s) is Ok,
    ensures
        parse_result(s) matches Ok(q) && format_digits(q.raw, q.precision) == s,
{
    let ip = int_part(s);
    let fp = frac_part(s);
    let p = fp.len();
    if !is_digit_seq(s) {
        assert(is_point_at(s, point_of(s)));
        assert(s[0] == s.subrange(0, point_of(s))[0]);
    }
    assert(is_digit(s[0]));
    assert(parse_result(s) == unsigned_result(s));
    let q = parse_result(s)->Ok_0;
    assert forall|i: int| 0 <= i < fp.len() implies is_digit(#[trigger] fp[i]) by {
        if !is_digit_seq(s) {
            assert(is_digit_seq(s.subrange(point_of(s) + 1, s.len() as int)));
        }
    }
    let f = rescale_factor(p as int);
    let g = pow10(p);
    lemma_scales(p);
    lemma_digits_value_concat(ip, fp);
    lemma_digits_value_bound(fp);
    let m = numeral_mantissa(s);
    assert(m == digits_value(ip) * g + digits_value(fp));
    assert(q.raw == m * f && q.precision == p);
    lemma_rounded_exact(m, p as u8);
    assert(rounded_units(q.raw, q.precision) == m);
    lemma_div_multiples_vanish_fancy(digits_value(ip) as int, digits_value(fp) as int, g as int);
    assert(m == g * digits_value(ip) + digits_value(fp)) by (nonlinear_arith)
        requires
            m == digits_value(ip) * g + digits_value(fp),
    ;
    assert(m / g == digits_value(ip));
    lemma_fundamental_div_mod(m as int, g as int);
    assert(m % g == digits_value(fp));
    lemma_dec_of_value(ip);
    lemma_padded_of_value(fp);
    if is_digit_seq(s) {
        assert(p == 0);
        assert(ip == s);
    } else {
        assert(s =~= ip + seq!['.'] + fp);
    }
}

/// Two quantities built from `m1 × 10^-p1` and `m2 × 10^-p2` are equal, and
/// ordered, exactly as the numbers they stand for, whatever their precisions.
pub proof fn lemma_order_follows_value(m1: u64, p1: u8, m2: u64, p2: u8)
    requires
        new_result(m1 as int, p1 as int) is Ok,
        new_result(m2 as int, p2 as int) is Ok,
    ensures
        ({
            let a = new_result(m1 as int, p1 as int)->Ok_0;
            let b = new_result(m2 as int, p2 as int)->Ok_0;
            let x = m1 * pow10(p2 as nat);
            let y = m2 * pow10(p1 as nat);
            &&& a.eq_spec(&b) == (x == y)
            &&& a.partial_cmp_spec(&b) == Some(cmp_int(x, y))
        }),
{
    let a = new_result(m1 as int, p1 as int)->Ok_0;
    let b = new_result(m2 as int, p2 as int)->Ok_0;
    let g1 = pow10(p1 as nat);
    let g2 = pow10(p2 as nat);
    let f1 = rescale_factor(p1 as int);
    let f2 = rescale_factor(p2 as int);
    lemma_pow10_add(p1 as nat, (9 - p1) as nat);
    lemma_pow10_add(p2 as nat, (9 - p2) as nat);
    lemma_pow10_9();
    lemma_pow10_positive(p1 as nat);
    lemma_pow10_positive(p2 as nat);
    let c = g1 * g2;
    let x = m1 * g2;
    let y = m2 * g1;
    assert(a.raw == m1 * f1 && b.raw == m2 * f2);
    assert(a.raw * c == 1_000_000_000 * x) by (nonlinear_arith)
        requires
            a.raw == m1 * f1,
            g1 * f1 == 1_000_000_000,
            c == g1 * g2,
            x == m1 * g2,
    ;
    assert(b.raw * c == 1_000_000_000 * y) by (nonlinear_arith)
        requires
            b.raw == m2 * f2,
            g2 * f2 == 1_000_000_000,
            c == g1 * g2,
            y == m2 * g1,
    ;
    assert(c >= 1) by (nonlinear_arith)
        requires
            g1 >= 1,
            g2 >= 1,
            c == g1 * g2,
    ;
    assert((a.raw < b.raw) == (x < y)) by (nonlinear_arith)
        requires
            c >= 1,
            a.raw * c == 1_000_000_000 * x,
            b.raw * c == 1_000_000_000 * y,
    ;
    assert((a.raw == b.raw) == (x == y)) by (nonlinear_arith)
        requires
            c >= 1,
            a.raw * c == 1_000_000_000 * x,
            b.raw * c == 1_000_000_000 * y,
    ;
}

/// Zero of any valid precision is zero and not positive; a quantity built from
/// a positive mantissa is positive.
pub proof fn lemma_zero_and_positive(m: u64, p: u8)
    requires
        p <= FIXED_PRECISION,
    ensures
        new_result(0, p as int) == Ok::<Quantity, QuantityError>(Quantity { raw: 0, precision: p }),
        m > 0 && new_result(m as int, p as int) is Ok ==> new_result(m as int, p as int)->Ok_0.raw
            > 0,
{
    lemma_pow10_positive((FIXED_PRECISION - p) as nat);
    let f = rescale_factor(p as int);
    assert(m > 0 ==> m * f > 0) by (nonlinear_arith)
        requires
            f >= 1,
    ;
}

} // verus!
