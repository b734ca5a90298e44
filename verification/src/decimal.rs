//! Decimal numbers written as digits, and their exact products with a
//! whole multiplier.

use vstd::prelude::*;
use crate::text::sub_chars;
use vstd::arithmetic::div_mod::lemma_div_denominator;
use vstd::arithmetic::div_mod::lemma_fundamental_div_mod;
use vstd::arithmetic::div_mod::lemma_fundamental_div_mod_converse;

verus! {

/// Whether `c` is one of the ten ASCII digits.
pub open spec fn is_digit(c: char) -> bool {
    0x30 <= c as u32 <= 0x39
}

/// The number that the digit `c` stands for.
pub open spec fn digit_value(c: char) -> nat {
    (c as u32 - 0x30) as nat
}

/// Whether `s` holds digits only.
pub open spec fn all_digits(s: Seq<char>) -> bool {
    forall|i: int| 0 <= i < s.len() ==> is_digit(#[trigger] s[i])
}

/// The number that the digits `s` write, most significant first.
pub open spec fn digits_value(s: Seq<char>) -> nat
    decreases s.len(),
{
    if s.len() == 0 {
        0
    } else {
        10 * digits_value(s.drop_last()) + digit_value(s.last())
    }
}

/// Ten to the power `k`.
pub open spec fn pow10(k: nat) -> nat
    decreases k,
{
    if k == 0 {
        1
    } else {
        10 * pow10((k - 1) as nat)
    }
}

/// The place of the first decimal point in `s`, or the length of `s` if
/// it holds none.
pub open spec fn dot_index(s: Seq<char>) -> nat
    decreases s.len(),
{
    if s.len() > 0 && s[0] != '.' {
        1 + dot_index(s.drop_first())
    } else {
        0
    }
}

/// What stands before the first decimal point.
pub open spec fn whole_digits(s: Seq<char>) -> Seq<char> {
    s.subrange(0, dot_index(s) as int)
}

/// What stands after the first decimal point.
pub open spec fn fraction_digits(s: Seq<char>) -> Seq<char> {
    if dot_index(s) < s.len() {
        s.subrange(dot_index(s) as int + 1, s.len() as int)
    } else {
        Seq::empty()
    }
}

/// Whether `s` writes a decimal number: digits, with at most one decimal
/// point among, before or after them, and at least one digit.
pub open spec fn is_decimal(s: Seq<char>) -> bool {
    &&& all_digits(whole_digits(s))
    &&& all_digits(fraction_digits(s))
    &&& whole_digits(s).len() + fraction_digits(s).len() > 0
}

/// `numerator / denominator` rounded to the nearest whole number, a half
/// rounded up.
pub open spec fn round_div(numerator: nat, denominator: nat) -> nat {
    (2 * numerator + denominator) / (2 * denominator)
}

/// The decimal number `s` times `mult`, rounded to the nearest whole
/// number, a half rounded up.
pub open spec fn scaled_value(s: Seq<char>, mult: nat) -> nat {
    digits_value(whole_digits(s)) * mult + round_div(
        digits_value(fraction_digits(s)) * mult,
        pow10(fraction_digits(s).len()),
    )
}

/// The smaller of `n` and the largest `u64`.
pub open spec fn saturated(n: nat) -> u64 {
    if n > u64::MAX {
        u64::MAX
    } else {
        n as u64
    }
}

pub proof fn lemma_pow10_positive(k: nat)
    ensures
        pow10(k) > 0,
    decreases k,
{
    if k > 0 {
        lemma_pow10_positive((k - 1) as nat);
    }
}

/// A digit put in front adds its value times the power of its place.
pub proof fn lemma_digits_value_front(s: Seq<char>)
    requires
        s.len() > 0,
    ensures
        digits_value(s) == digit_value(s[0]) * pow10((s.len() - 1) as nat) + digits_value(
            s.drop_first(),
        ),
    decreases s.len(),
{
    let d = digit_value(s[0]);
    if s.len() == 1 {
        assert(s.drop_last().len() == 0);
        assert(s.drop_first().len() == 0);
        assert(digits_value(s.drop_last()) == 0);
        assert(digits_value(s.drop_first()) == 0);
        assert(pow10(0) == 1);
        assert(s.last() == s[0]);
        assert(d * 1 == d) by (nonlinear_arith);
    } else {
        let init = s.drop_last();
        let rest = s.drop_first();
        lemma_digits_value_front(init);
        assert(init.drop_first() =~= rest.drop_last());
        assert(init[0] == s[0]);
        assert(rest.last() == s.last());
        let p = pow10((init.len() - 1) as nat);
        let x = digits_value(rest.drop_last());
        assert(pow10((s.len() - 1) as nat) == 10 * p);
        assert(digits_value(init) == d * p + x);
        assert(digits_value(rest) == 10 * x + digit_value(s.last()));
        assert(10 * (d * p + x) == d * (10 * p) + 10 * x) by (nonlinear_arith);
    }
}

/// Rounding to the nearest whole number looks at one decimal place only:
/// the quotient goes up by one where the first place after the point is
/// five or more.
pub proof fn lemma_round_by_digit(t: nat, p: nat)
    requires
        p > 0,
    ensures
        round_div(t, 10 * p) == t / (10 * p) + (if (t / p) % 10 >= 5 {
            1nat
        } else {
            0nat
        }),
{
    let t = t as int;
    let p = p as int;
    let big = 10 * p;
    let q = t / big;
    let r = t % big;
    lemma_fundamental_div_mod(t, big);
    assert(t == big * q + r);
    assert(0 <= r < big);
    let rq = r / p;
    let rr = r % p;
    lemma_fundamental_div_mod(r, p);
    assert(r == p * rq + rr);
    assert(0 <= rr < p);
    assert(0 <= rq < 10) by (nonlinear_arith)
        requires
            r == p * rq + rr,
            0 <= rr < p,
            0 <= r < 10 * p,
            p > 0,
    ;
    assert(rq >= 5 <==> r >= 5 * p) by (nonlinear_arith)
        requires
            r == p * rq + rr,
            0 <= rr < p,
            p > 0,
    ;
    assert(t == (10 * q + rq) * p + rr) by (nonlinear_arith)
        requires
            t == big * q + r,
            big == 10 * p,
            r == p * rq + rr,
    ;
    lemma_fundamental_div_mod_converse(t, p, 10 * q + rq, rr);
    assert(t / p == 10 * q + rq);
    lemma_fundamental_div_mod_converse(10 * q + rq, 10, q, rq);
    assert((t / p) % 10 == rq);
    let up: int = if r >= 5 * p {
        1
    } else {
        0
    };
    let rem = 2 * r + big - up * (2 * big);
    assert(0 <= rem < 2 * big);
    assert(2 * t + big == (q + up) * (2 * big) + rem) by (nonlinear_arith)
        requires
            t == big * q + r,
            rem == 2 * r + big - up * (2 * big),
    ;
    lemma_fundamental_div_mod_converse(2 * t + big, 2 * big, q + up, rem);
}

/// Tells the ten digits from other characters.
pub fn digit_char(c: char) -> (r: bool)
    ensures
        r == is_digit(c),
{
    let n: u32 = c as u32;
    0x30 <= n && n <= 0x39
}

/// Whether `v` holds digits only.
pub fn only_digits(v: &Vec<char>) -> (r: bool)
    ensures
        r == all_digits(v@),
{
    let mut i: usize = 0;
    while i < v.len()
        invariant
            i <= v.len(),
            forall|j: int| 0 <= j < i ==> is_digit(#[trigger] v@[j]),
        decreases v.len() - i,
    {
        if !digit_char(v[i]) {
            return false;
        }
        i += 1;
    }
    true
}

/// The place of the first decimal point, or the length where there is
/// none.
pub fn find_dot(v: &Vec<char>) -> (r: usize)
    ensures
        r == dot_index(v@),
        r <= v.len(),
{
    let mut i: usize = 0;
    assert(v@.subrange(0, v.len() as int) =~= v@);
    while i < v.len() && v[i] != '.'
        invariant
            i <= v.len(),
            dot_index(v@) == i + dot_index(v@.subrange(i as int, v.len() as int)),
        decreases v.len() - i,
    {
        assert(v@.subrange(i as int, v.len() as int).drop_first() =~= v@.subrange(
            i as int + 1,
            v.len() as int,
        ));
        i += 1;
    }
    i
}

/// The number that the digits write, or two to the power 64 where it is
/// that or more.
fn whole_capped(v: &Vec<char>) -> (r: u128)
    requires
        all_digits(v@),
    ensures
        digits_value(v@) <= u64::MAX ==> r == digits_value(v@),
        digits_value(v@) > u64::MAX ==> r == u64::MAX + 1,
{
    let cap: u128 = 0x1_0000_0000_0000_0000;
    let mut acc: u128 = 0;
    let mut i: usize = 0;
    assert(v@.subrange(0, 0).len() == 0);
    while i < v.len()
        invariant
            i <= v.len(),
            all_digits(v@),
            cap == u64::MAX + 1,
            acc <= cap,
            digits_value(v@.subrange(0, i as int)) < cap ==> acc == digits_value(
                v@.subrange(0, i as int),
            ),
            digits_value(v@.subrange(0, i as int)) >= cap ==> acc == cap,
        decreases v.len() - i,
    {
        let c: char = v[i];
        assert(is_digit(v@[i as int]));
        let d: u128 = (c as u32 - 0x30) as u128;
        proof {
            let next = v@.subrange(0, i as int + 1);
            assert(next.drop_last() =~= v@.subrange(0, i as int));
            assert(next.last() == c);
        }
        acc = acc * 10 + d;
        if acc > cap {
            acc = cap;
        }
        i += 1;
    }
    assert(v@.subrange(0, v.len() as int) =~= v@);
    acc
}

/// The fraction that the digits write after a decimal point, times
/// `mult`, rounded to the nearest whole number.
fn fraction_scaled(v: &Vec<char>, mult: u64) -> (r: u64)
    requires
        all_digits(v@),
        1 <= mult <= 0x4000_0000,
    ensures
        r == round_div(digits_value(v@) * (mult as nat), pow10(v@.len())),
        r <= mult,
{
    let k: usize = v.len();
    if k == 0 {
        assert(digits_value(v@) == 0);
        assert(digits_value(v@) * (mult as nat) == 0) by (nonlinear_arith)
            requires
                digits_value(v@) == 0,
        ;
        assert(pow10(0) == 1);
        proof {
            lemma_fundamental_div_mod_converse(1int, 2int, 0int, 1int);
        }
        return 0;
    }
    let mut j: usize = k;
    let mut carry: u64 = 0;
    let mut top: u64 = 0;
    assert(v@.subrange(k as int, k as int).len() == 0);
    assert(0 * mult == 0);
    assert(pow10(0) == 1);
    while j > 0
        invariant
            j <= k,
            k == v.len(),
            all_digits(v@),
            1 <= mult <= 0x4000_0000,
            carry < mult,
            top < 10,
            carry == (digits_value(v@.subrange(j as int, k as int)) * mult) / (pow10(
                (k - j) as nat,
            ) as int),
            j < k ==> top == ((digits_value(v@.subrange(j as int, k as int)) * mult) / (pow10(
                (k - j - 1) as nat,
            ) as int)) % 10,
        decreases j,
    {
        let c: char = v[j - 1];
        assert(is_digit(v@[j - 1]));
        let d: u64 = (c as u32 - 0x30) as u64;
        assert(d * mult <= 9 * 0x4000_0000) by (nonlinear_arith)
            requires
                d <= 9,
                mult <= 0x4000_0000,
        ;
        let t: u64 = d * mult + carry;
        proof {
            let tail = v@.subrange(j as int, k as int);
            let next = v@.subrange(j as int - 1, k as int);
            assert(next.drop_first() =~= tail);
            assert(next[0] == c);
            lemma_digits_value_front(next);
            let p = pow10((k - j) as nat) as int;
            lemma_pow10_positive((k - j) as nat);
            assert(pow10((k - j + 1) as nat) == 10 * pow10((k - j) as nat));
            let s_old = digits_value(tail) as int;
            let s_new = digits_value(next) as int;
            assert(s_new == d * p + s_old);
            let t_old = s_old * mult;
            let t_new = s_new * mult;
            lemma_fundamental_div_mod(t_old, p);
            let rem = t_old % p;
            assert(t_new == (d * mult + carry) * p + rem) by (nonlinear_arith)
                requires
                    t_new == s_new * mult,
                    s_new == d * p + s_old,
                    t_old == s_old * mult,
                    t_old == p * carry + rem,
            ;
            lemma_fundamental_div_mod_converse(t_new, p, t as int, rem);
            assert(t_new / p == t);
            assert(t_new >= 0) by (nonlinear_arith)
                requires
                    t_new == s_new * mult,
                    s_new >= 0,
                    mult >= 1,
            ;
            lemma_div_denominator(t_new, p, 10);
            assert(p * 10 == 10 * p);
            assert(t / 10 < mult) by {
                assert(d <= 9);
                assert(d * mult <= 9 * mult) by (nonlinear_arith)
                    requires
                        d <= 9,
                        mult >= 1,
                ;
            }
        }
        top = t % 10;
        carry = t / 10;
        j -= 1;
    }
    proof {
        assert(v@.subrange(0, k as int) =~= v@);
        lemma_pow10_positive((k - 1) as nat);
        assert(pow10(k as nat) == 10 * pow10((k - 1) as nat));
        assert(digits_value(v@) * mult >= 0) by (nonlinear_arith)
            requires
                digits_value(v@) >= 0,
                mult >= 1,
        ;
        lemma_round_by_digit(digits_value(v@) * (mult as nat), pow10((k - 1) as nat));
    }
    if top >= 5 {
        carry + 1
    } else {
        carry
    }
}

/// The decimal number `v` times `mult`, rounded to the nearest whole
/// number and held to the range of `u64`; `None` where `v` writes no
/// decimal number.
pub fn scale_decimal(v: &Vec<char>, mult: u64) -> (r: Option<u64>)
    requires
        1 <= mult <= 0x4000_0000,
    ensures
        is_decimal(v@) ==> r == Some(saturated(scaled_value(v@, mult as nat))),
        !is_decimal(v@) ==> r.is_none(),
{
    let dot: usize = find_dot(v);
    let whole: Vec<char> = sub_chars(v, 0, dot);
    let fraction: Vec<char> = if dot < v.len() {
        sub_chars(v, dot + 1, v.len())
    } else {
        Vec::new()
    };
    assert(whole@ == whole_digits(v@));
    assert(fraction@ =~= fraction_digits(v@));
    if !only_digits(&whole) || !only_digits(&fraction) || (whole.len() == 0 && fraction.len()
        == 0) {
        return None;
    }
    let w: u128 = whole_capped(&whole);
    let f: u64 = fraction_scaled(&fraction, mult);
    assert(w * mult <= 0x1_0000_0000_0000_0000 * 0x4000_0000) by (nonlinear_arith)
        requires
            w <= 0x1_0000_0000_0000_0000,
            mult <= 0x4000_0000,
    ;
    let total: u128 = w * (mult as u128) + (f as u128);
    proof {
        let exact = digits_value(whole@) * mult;
        if digits_value(whole@) > u64::MAX {
            assert(exact > u64::MAX) by (nonlinear_arith)
                requires
                    exact == digits_value(whole@) * mult,
                    digits_value(whole@) > u64::MAX,
                    mult >= 1,
            ;
            assert(w * mult > u64::MAX) by (nonlinear_arith)
                requires
                    w == u64::MAX + 1,
                    mult >= 1,
            ;
        }
    }
    if total > 0xFFFF_FFFF_FFFF_FFFF {
        Some(0xFFFF_FFFF_FFFF_FFFF)
    } else {
        Some(total as u64)
    }
}

} // verus!
