use vstd::prelude::*;

verus! {

/// `10^n`.
pub open spec fn pow10(n: nat) -> nat
    decreases n,
{
    if n == 0 {
        1
    } else {
        10 * pow10((n - 1) as nat)
    }
}

pub open spec fn is_digit(c: char) -> bool {
    '0' <= c && c <= '9'
}

/// The numeric value of a decimal digit character.
pub open spec fn digit_value(c: char) -> nat {
    (c as u32 - '0' as u32) as nat
}

/// The character of the decimal digit `d` (`d < 10`).
pub open spec fn digit_char(d: nat) -> char {
    (d + '0' as u32) as char
}

/// A non-empty run of decimal digits.
pub open spec fn is_digit_seq(s: Seq<char>) -> bool {
    s.len() > 0 && forall|i: int| 0 <= i < s.len() ==> is_digit(#[trigger] s[i])
}

/// The number that a run of digits denotes, most significant digit first.
pub open spec fn digits_value(s: Seq<char>) -> nat
    decreases s.len(),
{
    if s.len() == 0 {
        0
    } else {
        10 * digits_value(s.drop_last()) + digit_value(s.last())
    }
}

/// The shortest decimal rendering of `n`.
pub open spec fn dec_digits(n: nat) -> Seq<char>
    decreases n,
{
    if n < 10 {
        seq![digit_char(n)]
    } else {
        dec_digits(n / 10).push(digit_char(n % 10))
    }
}

/// The last `w` decimal digits of `n`, with leading zeros.
pub open spec fn padded_digits(n: nat, w: nat) -> Seq<char>
    decreases w,
{
    if w == 0 {
        Seq::empty()
    } else {
        padded_digits(n / 10, (w - 1) as nat).push(digit_char(n % 10))
    }
}

/// A digit run without superfluous leading zeros.
pub open spec fn is_canonical_int(s: Seq<char>) -> bool {
    is_digit_seq(s) && (s.len() == 1 || s[0] != '0')
}

pub proof fn lemma_pow10_positive(n: nat)
    ensures
        pow10(n) >= 1,
    decreases n,
{
    if n > 0 {
        lemma_pow10_positive((n - 1) as nat);
    }
}

pub proof fn lemma_pow10_add(a: nat, b: nat)
    ensures
        pow10(a + b) == pow10(a) * pow10(b),
    decreases b,
{
    if b > 0 {
        let b1 = (b - 1) as nat;
        lemma_pow10_add(a, b1);
        assert((a + b - 1) as nat == a + b1);
        assert(pow10(a + b) == 10 * pow10(a + b1));
        assert(pow10(b) == 10 * pow10(b1));
        let x = pow10(a);
        let y = pow10(b1);
        assert(10 * (x * y) == x * (10 * y)) by (nonlinear_arith);
    } else {
        assert(pow10(0) == 1);
        assert(a + b == a);
    }
}

pub proof fn lemma_pow10_9()
    ensures
        pow10(9) == 1_000_000_000,
{
    reveal_with_fuel(pow10, 10);
}

pub proof fn lemma_digit_char_roundtrip(d: nat)
    requires
        d < 10,
    ensures
        is_digit(digit_char(d)),
        digit_value(digit_char(d)) == d,
{
}

pub proof fn lemma_dec_digits(n: nat)
    ensures
        is_digit_seq(dec_digits(n)),
        digits_value(dec_digits(n)) == n,
        is_canonical_int(dec_digits(n)),
        n >= 10 ==> dec_digits(n).len() >= 2,
    decreases n,
{
    if n < 10 {
        lemma_digit_char_roundtrip(n);
        let s = dec_digits(n);
        assert(s.drop_last() =~= Seq::<char>::empty());
        assert(digits_value(Seq::<char>::empty()) == 0);
        assert(digits_value(s) == 10 * digits_value(s.drop_last()) + digit_value(s.last()));
    } else {
        lemma_dec_digits(n / 10);
        lemma_digit_char_roundtrip(n % 10);
        let s = dec_digits(n);
        assert(s.drop_last() =~= dec_digits(n / 10));
        assert(s.last() == digit_char(n % 10));
        assert(digits_value(s) == 10 * digits_value(s.drop_last()) + digit_value(s.last()));
        assert forall|i: int| 0 <= i < s.len() implies is_digit(#[trigger] s[i]) by {
            if i < s.len() - 1 {
                assert(s[i] == dec_digits(n / 10)[i]);
            }
        }
        assert(s[0] == dec_digits(n / 10)[0]);
        if dec_digits(n / 10).len() == 1 {
            assert(n / 10 < 10);
            lemma_digit_char_roundtrip(n / 10);
            assert(dec_digits(n / 10) == seq![digit_char(n / 10)]);
        }
    }
}

pub proof fn lemma_padded_digits(n: nat, w: nat)
    ensures
        padded_digits(n, w).len() == w,
        forall|i: int| 0 <= i < w ==> is_digit(#[trigger] padded_digits(n, w)[i]),
        digits_value(padded_digits(n, w)) == n % pow10(w),
    decreases w,
{
    if w > 0 {
        let w1 = (w - 1) as nat;
        lemma_padded_digits(n / 10, w1);
        lemma_digit_char_roundtrip(n % 10);
        let s = padded_digits(n, w);
        assert(s.drop_last() =~= padded_digits(n / 10, w1));
        assert forall|i: int| 0 <= i < w implies is_digit(#[trigger] s[i]) by {
            if i < w - 1 {
                assert(s[i] == padded_digits(n / 10, w1)[i]);
            }
        }
        lemma_pow10_positive(w1);
        let p = pow10(w1);
        assert(pow10(w) == 10 * p);
        assert(10 * ((n / 10) % p) + n % 10 == n % (10 * p)) by (nonlinear_arith)
            requires
                p >= 1,
        {
            assert(n == 10 * (n / 10) + n % 10);
            assert(n / 10 == p * ((n / 10) / p) + (n / 10) % p);
            assert(n == (10 * p) * ((n / 10) / p) + (10 * ((n / 10) % p) + n % 10));
            assert(0 <= 10 * ((n / 10) % p) + n % 10 < 10 * p);
        }
    }
}

/// The value of two digit runs written one after the other.
pub proof fn lemma_digits_value_concat(a: Seq<char>, b: Seq<char>)
    ensures
        digits_value(a + b) == digits_value(a) * pow10(b.len()) + digits_value(b),
    decreases b.len(),
{
    if b.len() == 0 {
        assert(a + b =~= a);
        assert(pow10(0) == 1);
        assert(digits_value(b) == 0);
    } else {
        let b1 = b.drop_last();
        lemma_digits_value_concat(a, b1);
        assert((a + b).drop_last() =~= a + b1);
        assert((a + b).last() == b.last());
        let x = digits_value(a);
        let p = pow10(b1.len());
        assert(pow10(b.len()) == 10 * p);
        assert(digits_value(b) == 10 * digits_value(b1) + digit_value(b.last()));
        assert(digits_value(a + b) == 10 * digits_value(a + b1) + digit_value(b.last()));
        assert(10 * (x * p + digits_value(b1)) == x * (10 * p) + 10 * digits_value(b1))
            by (nonlinear_arith);
    }
}

/// A digit run of `w` digits denotes a number below `10^w`.
pub proof fn lemma_digits_value_bound(s: Seq<char>)
    requires
        forall|i: int| 0 <= i < s.len() ==> is_digit(#[trigger] s[i]),
    ensures
        digits_value(s) < pow10(s.len()),
    decreases s.len(),
{
    if s.len() > 0 {
        let s1 = s.drop_last();
        assert forall|i: int| 0 <= i < s1.len() implies is_digit(#[trigger] s1[i]) by {
            assert(s1[i] == s[i]);
        }
        lemma_digits_value_bound(s1);
        assert(is_digit(s[s.len() - 1]));
    }
}

/// Digits read back from their padded rendering.
pub proof fn lemma_padded_of_value(s: Seq<char>)
    requires
        forall|i: int| 0 <= i < s.len() ==> is_digit(#[trigger] s[i]),
    ensures
        padded_digits(digits_value(s), s.len()) == s,
    decreases s.len(),
{
    if s.len() > 0 {
        let s1 = s.drop_last();
        assert forall|i: int| 0 <= i < s1.len() implies is_digit(#[trigger] s1[i]) by {
            assert(s1[i] == s[i]);
        }
        lemma_padded_of_value(s1);
        let n = digits_value(s);
        let d = digit_value(s.last());
        assert(is_digit(s[s.len() - 1]));
        assert(n / 10 == digits_value(s1) && n % 10 == d);
        assert(digit_char(d) == s.last());
        assert(s =~= s1.push(s.last()));
    }
}

/// A canonical digit run is the shortest rendering of its value.
pub proof fn lemma_dec_of_value(s: Seq<char>)
    requires
        is_canonical_int(s),
    ensures
        dec_digits(digits_value(s)) == s,
    decreases s.len(),
{
    let n = digits_value(s);
    assert(is_digit(s[s.len() - 1]));
    if s.len() == 1 {
        assert(s.drop_last() =~= Seq::<char>::empty());
        assert(n == digit_value(s[0]));
        assert(s =~= seq![digit_char(n)]);
    } else {
        let s1 = s.drop_last();
        assert forall|i: int| 0 <= i < s1.len() implies is_digit(#[trigger] s1[i]) by {
            assert(s1[i] == s[i]);
        }
        assert(s1[0] == s[0]);
        lemma_dec_of_value(s1);
        // a canonical run of two or more digits denotes at least 10
        lemma_leading_digit_bound(s1);
        assert(n / 10 == digits_value(s1) && n % 10 == digit_value(s.last()));
        assert(s =~= s1.push(s.last()));
    }
}

proof fn lemma_leading_digit_bound(s: Seq<char>)
    requires
        is_digit_seq(s),
        s[0] != '0',
    ensures
        digits_value(s) >= 1,
    decreases s.len(),
{
    assert(is_digit(s[s.len() - 1]));
    assert(digits_value(s) == 10 * digits_value(s.drop_last()) + digit_value(s.last()));
    if s.len() == 1 {
        assert(s.drop_last() =~= Seq::<char>::empty());
        assert(digits_value(Seq::<char>::empty()) == 0);
        assert(is_digit(s[0]));
    } else {
        let s1 = s.drop_last();
        assert forall|i: int| 0 <= i < s1.len() implies is_digit(#[trigger] s1[i]) by {
            assert(s1[i] == s[i]);
        }
        assert(s1[0] == s[0]);
        lemma_leading_digit_bound(s1);
    }
}

} // verus!
