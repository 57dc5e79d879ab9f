//! Decimal amounts (prices, quantities, balances).
//!
//! An [`Amount`] holds the two plain values that make up a `rust_decimal::Decimal`:
//! a mantissa of at most 96 bits and a scale of at most 28.  Its number is
//! `mantissa / 10^scale`; contracts speak of it through [`Amount::value`], the number
//! multiplied by `10^28`, which is an integer for every amount.
//!
//! Comparison and arithmetic are done by `rust_decimal` itself, through the trusted
//! wrappers at the end of this file.
use rust_decimal::Decimal;
use vstd::prelude::*;

verus! {

/// The largest magnitude of a decimal mantissa (96 bits).
pub const MAX_MANTISSA: i128 = 0xFFFF_FFFF_FFFF_FFFF_FFFF_FFFF;

/// The largest decimal scale.
pub const MAX_SCALE: u32 = 28;

pub open spec fn pow10(n: nat) -> nat
    decreases n,
{
    if n == 0 {
        1
    } else {
        10 * pow10((n - 1) as nat)
    }
}

/// The number, in units of `10^-28`, that one step of the mantissa is worth at scale `s`.
pub open spec fn unit(s: nat) -> nat {
    pow10((28 - s) as nat)
}

/// The largest magnitude (in units of `10^-28`) that a decimal of scale `s` can hold.
pub open spec fn bound_at(s: nat) -> int {
    MAX_MANTISSA * unit(s)
}

/// `v` (in units of `10^-28`) is within the range of decimals of scale `s`.
pub open spec fn fits_at(v: int, s: nat) -> bool {
    -bound_at(s) <= v <= bound_at(s)
}

pub open spec fn max_scale(a: nat, b: nat) -> nat {
    if a >= b {
        a
    } else {
        b
    }
}

/// A decimal number: `mantissa / 10^scale`.
#[derive(Clone, Copy, Debug)]
pub struct Amount {
    pub mantissa: i128,
    pub scale: u32,
}

impl Amount {
    /// The representation is one that `rust_decimal::Decimal` accepts.
    pub open spec fn wf(self) -> bool {
        &&& -MAX_MANTISSA <= self.mantissa <= MAX_MANTISSA
        &&& self.scale <= MAX_SCALE
    }

    /// The number, in units of `10^-28`.
    pub open spec fn value(self) -> int {
        self.mantissa * unit(self.scale as nat)
    }

    /// Zero, with scale zero.
    pub fn zero() -> (r: Amount)
        ensures
            r.wf(),
            r.value() == 0,
            r.mantissa == 0,
            r.scale == 0,
    {
        Amount { mantissa: 0, scale: 0 }
    }

    /// The amount `mantissa / 10^scale`, when that is a decimal.
    pub fn from_parts(mantissa: i128, scale: u32) -> (r: Option<Amount>)
        ensures
            r is Some <==> (-MAX_MANTISSA <= mantissa <= MAX_MANTISSA && scale <= MAX_SCALE),
            r matches Some(a) ==> a.wf() && a.mantissa == mantissa && a.scale == scale,
    {
        if -MAX_MANTISSA <= mantissa && mantissa <= MAX_MANTISSA && scale <= MAX_SCALE {
            Some(Amount { mantissa, scale })
        } else {
            None
        }
    }

    /// Whether the representation is one that `rust_decimal::Decimal` accepts.
    pub fn is_valid(&self) -> (r: bool)
        ensures
            r == self.wf(),
    {
        -MAX_MANTISSA <= self.mantissa && self.mantissa <= MAX_MANTISSA && self.scale <= MAX_SCALE
    }

    /// The mantissa that this amount has at the larger scale `s`, when it is in range.
    pub fn rescaled(&self, s: u32) -> (r: Option<i128>)
        requires
            self.wf(),
            self.scale <= s <= MAX_SCALE,
        ensures
            r is Some <==> fits_at(self.value(), s as nat),
            r matches Some(m) ==> -MAX_MANTISSA <= m <= MAX_MANTISSA && m * unit(s as nat)
                == self.value(),
    {
        let mut m: i128 = self.mantissa;
        let mut k: u32 = self.scale;
        while k < s
            invariant
                self.wf(),
                self.scale <= k <= s <= MAX_SCALE,
                -MAX_MANTISSA <= m <= MAX_MANTISSA,
                m * unit(k as nat) == self.value(),
            decreases s - k,
        {
            proof {
                lemma_unit_step(k as nat);
            }
            let m10: i128 = m * 10;
            assert(m10 * unit((k + 1) as nat) == self.value()) by (nonlinear_arith)
                requires
                    m10 == m * 10,
                    unit(k as nat) == 10 * unit((k + 1) as nat),
                    m * unit(k as nat) == self.value(),
            ;
            if m10 > MAX_MANTISSA || m10 < -MAX_MANTISSA {
                proof {
                    lemma_out_of_range_stays(m10 as int, (k + 1) as nat, s as nat, self.value());
                }
                return None;
            }
            m = m10;
            k = k + 1;
        }
        proof {
            lemma_fits_iff(self.value(), m as int, s as nat);
        }
        Some(m)
    }
}

/// The precondition under which `rust_decimal` adds or subtracts `a` and `b` with result
/// `v` exactly: both operands and the result are within the range of decimals of the
/// larger of the two scales.
pub open spec fn exact_at(a: Amount, b: Amount, v: int) -> bool {
    let s = max_scale(a.scale as nat, b.scale as nat);
    &&& fits_at(a.value(), s)
    &&& fits_at(b.value(), s)
    &&& fits_at(v, s)
}

/// The scale of `rust_decimal`'s sum or difference of `a` and `b`: with a zero operand it
/// gives back the other operand (negated, for `0 - b`); otherwise the larger scale.
pub open spec fn result_scale(a: Amount, b: Amount) -> nat {
    if a.mantissa == 0 {
        b.scale as nat
    } else if b.mantissa == 0 {
        a.scale as nat
    } else {
        max_scale(a.scale as nat, b.scale as nat)
    }
}

/// The decimal of scale `s` whose value (in units of `10^-28`) is `v`.
pub open spec fn amount_at(v: int, s: nat) -> Amount {
    Amount { mantissa: (v / (unit(s) as int)) as i128, scale: s as u32 }
}

/// The decimal that `rust_decimal` computes for `a + b` when that is exact.
pub open spec fn sum_amount(a: Amount, b: Amount) -> Amount {
    amount_at(a.value() + b.value(), result_scale(a, b))
}

/// The decimal that `rust_decimal` computes for `a - b` when that is exact.
pub open spec fn diff_amount(a: Amount, b: Amount) -> Amount {
    amount_at(a.value() - b.value(), result_scale(a, b))
}

/// `rust_decimal` adds `a` and `b` without rounding or overflow: one of them is zero, or
/// both and the sum are in range at the larger scale.
pub open spec fn add_exact(a: Amount, b: Amount) -> bool {
    a.mantissa == 0 || b.mantissa == 0 || exact_at(a, b, a.value() + b.value())
}

/// `rust_decimal` subtracts `b` from `a` without rounding or overflow.
pub open spec fn sub_exact(a: Amount, b: Amount) -> bool {
    a.mantissa == 0 || b.mantissa == 0 || exact_at(a, b, a.value() - b.value())
}

/// The smaller of two decimals by value, the first when they are equal.
pub open spec fn min_amount(a: Amount, b: Amount) -> Amount {
    if a.value() <= b.value() {
        a
    } else {
        b
    }
}

/// What `rust_decimal` returns for `a + b` (mantissa, scale), rounding included.
pub uninterp spec fn decimal_sum(am: i128, ascale: u32, bm: i128, bscale: u32) -> (i128, u32);

/// What `rust_decimal` returns for `a - b` (mantissa, scale), rounding included.
pub uninterp spec fn decimal_difference(am: i128, ascale: u32, bm: i128, bscale: u32) -> (
    i128,
    u32,
);

/// The decimal `rust_decimal` computes for `a + b`: `sum_amount` where that is exact,
/// its rounded result otherwise.
pub open spec fn add_of(a: Amount, b: Amount) -> Amount {
    if add_exact(a, b) {
        sum_amount(a, b)
    } else {
        let r = decimal_sum(a.mantissa, a.scale, b.mantissa, b.scale);
        Amount { mantissa: r.0, scale: r.1 }
    }
}

/// The decimal `rust_decimal` computes for `a - b`: `diff_amount` where that is exact,
/// its rounded result otherwise.
pub open spec fn sub_of(a: Amount, b: Amount) -> Amount {
    if sub_exact(a, b) {
        diff_amount(a, b)
    } else {
        let r = decimal_difference(a.mantissa, a.scale, b.mantissa, b.scale);
        Amount { mantissa: r.0, scale: r.1 }
    }
}

/// `rust_decimal` computes `a + b` without overflowing: exactly, or with a sum that is
/// within the range of decimals of scale zero (it rounds to a smaller scale as far as need
/// be, at worst to scale zero).
pub open spec fn add_ok(a: Amount, b: Amount) -> bool {
    add_exact(a, b) || fits_at(a.value() + b.value(), 0)
}

/// `rust_decimal` computes `a - b` without overflowing.
pub open spec fn sub_ok(a: Amount, b: Amount) -> bool {
    sub_exact(a, b) || fits_at(a.value() - b.value(), 0)
}

/// A value of `k` steps at scale `s` is the decimal `k / 10^s`.
pub proof fn lemma_amount_at(v: int, s: nat, k: int)
    requires
        s <= 28,
        v == k * unit(s),
        -MAX_MANTISSA <= k <= MAX_MANTISSA,
    ensures
        amount_at(v, s).wf(),
        amount_at(v, s).mantissa == k,
        amount_at(v, s).scale == s,
        amount_at(v, s).value() == v,
{
    lemma_pow10_pos((28 - s) as nat);
    let u = unit(s) as int;
    assert(k * u == u * k) by (nonlinear_arith);
    vstd::arithmetic::div_mod::lemma_div_multiples_vanish(k, u);
}

/// The value of `a` written in steps of a larger scale `s`.
pub proof fn lemma_value_at(a: Amount, s: nat)
    requires
        a.scale <= s <= 28,
    ensures
        a.value() == (a.mantissa * pow10((s - a.scale) as nat)) * unit(s),
{
    lemma_pow10_add((28 - s) as nat, (s - a.scale) as nat);
    assert(((28 - s) as nat) + ((s - a.scale) as nat) == (28 - a.scale) as nat);
    let p = pow10((s - a.scale) as nat);
    let m = a.mantissa as int;
    let us = unit(s) as int;
    assert(m * (us * p) == (m * p) * us) by (nonlinear_arith);
}

proof fn lemma_combine(a: Amount, b: Amount, sub: bool)
    requires
        a.wf(),
        b.wf(),
        if sub {
            sub_exact(a, b)
        } else {
            add_exact(a, b)
        },
    ensures
        ({
            let v = if sub {
                a.value() - b.value()
            } else {
                a.value() + b.value()
            };
            let r = amount_at(v, result_scale(a, b));
            &&& r.wf()
            &&& r.value() == v
            &&& r.scale <= max_scale(a.scale as nat, b.scale as nat)
        }),
{
    let v = if sub {
        a.value() - b.value()
    } else {
        a.value() + b.value()
    };
    if a.mantissa == 0 {
        assert(a.value() == 0) by (nonlinear_arith)
            requires
                a.mantissa == 0,
                a.value() == a.mantissa * unit(a.scale as nat),
        ;
        let k = if sub {
            -b.mantissa
        } else {
            b.mantissa as int
        };
        assert(v == k * unit(b.scale as nat)) by (nonlinear_arith)
            requires
                v == (if sub {
                    0 - b.mantissa * unit(b.scale as nat)
                } else {
                    0 + b.mantissa * unit(b.scale as nat)
                }),
                k == (if sub {
                    -b.mantissa
                } else {
                    b.mantissa as int
                }),
        ;
        lemma_amount_at(v, b.scale as nat, k);
    } else if b.mantissa == 0 {
        assert(b.value() == 0) by (nonlinear_arith)
            requires
                b.mantissa == 0,
                b.value() == b.mantissa * unit(b.scale as nat),
        ;
        lemma_amount_at(v, a.scale as nat, a.mantissa as int);
    } else {
        let s = max_scale(a.scale as nat, b.scale as nat);
        lemma_value_at(a, s);
        lemma_value_at(b, s);
        let ka = a.mantissa * pow10((s - a.scale) as nat);
        let kb = b.mantissa * pow10((s - b.scale) as nat);
        let k = if sub {
            ka - kb
        } else {
            ka + kb
        };
        let u = unit(s) as int;
        assert(v == k * u) by (nonlinear_arith)
            requires
                a.value() == ka * u,
                b.value() == kb * u,
                v == (if sub {
                    a.value() - b.value()
                } else {
                    a.value() + b.value()
                }),
                k == (if sub {
                    ka - kb
                } else {
                    ka + kb
                }),
        ;
        lemma_fits_iff(v, k, s);
        lemma_amount_at(v, s, k);
    }
}

/// Under `add_exact`, `sum_amount` is a valid decimal holding the sum.
pub proof fn lemma_sum_amount(a: Amount, b: Amount)
    requires
        a.wf(),
        b.wf(),
        add_exact(a, b),
    ensures
        sum_amount(a, b).wf(),
        sum_amount(a, b).value() == a.value() + b.value(),
        sum_amount(a, b).scale <= max_scale(a.scale as nat, b.scale as nat),
{
    lemma_combine(a, b, false);
}

/// Under `sub_exact`, `diff_amount` is a valid decimal holding the difference.
pub proof fn lemma_diff_amount(a: Amount, b: Amount)
    requires
        a.wf(),
        b.wf(),
        sub_exact(a, b),
    ensures
        diff_amount(a, b).wf(),
        diff_amount(a, b).value() == a.value() - b.value(),
        diff_amount(a, b).scale <= max_scale(a.scale as nat, b.scale as nat),
{
    lemma_combine(a, b, true);
}

/// With a zero operand, the sum is the other operand, and `a - 0` is `a` (for `0 - 0`,
/// `rust_decimal` gives back the second zero).
pub proof fn lemma_zero_operand(a: Amount, b: Amount)
    requires
        a.wf(),
        b.wf(),
    ensures
        a.mantissa == 0 ==> sum_amount(a, b) == b,
        b.mantissa == 0 && a.mantissa != 0 ==> sum_amount(a, b) == a && diff_amount(a, b) == a,
{
    if a.mantissa == 0 {
        assert(a.value() == 0) by (nonlinear_arith)
            requires
                a.mantissa == 0,
                a.value() == a.mantissa * unit(a.scale as nat),
        ;
        lemma_amount_at(b.value(), b.scale as nat, b.mantissa as int);
    }
    if b.mantissa == 0 {
        assert(b.value() == 0) by (nonlinear_arith)
            requires
                b.mantissa == 0,
                b.value() == b.mantissa * unit(b.scale as nat),
        ;
        if a.mantissa != 0 {
            lemma_amount_at(a.value(), a.scale as nat, a.mantissa as int);
        }
    }
}

/// Adding back what was exactly subtracted is exact too.
pub proof fn lemma_sub_then_add_exact(a: Amount, b: Amount)
    requires
        a.wf(),
        b.wf(),
        sub_exact(a, b),
    ensures
        add_exact(diff_amount(a, b), b),
{
    lemma_diff_amount(a, b);
    let d = diff_amount(a, b);
    lemma_wf_fits(b);
    lemma_bound_mono(b.scale as nat, 28);
    if b.mantissa != 0 && d.mantissa != 0 {
        if a.mantissa == 0 {
            assert(a.value() == 0) by (nonlinear_arith)
                requires
                    a.mantissa == 0,
                    a.value() == a.mantissa * unit(a.scale as nat),
            ;
            assert(d.scale == b.scale);
        } else {
            lemma_bound_mono(max_scale(a.scale as nat, b.scale as nat), 28);
        }
    }
}

pub proof fn lemma_pow10_pos(n: nat)
    ensures
        pow10(n) >= 1,
    decreases n,
{
    if n > 0 {
        lemma_pow10_pos((n - 1) as nat);
    }
}

pub proof fn lemma_pow10_add(a: nat, b: nat)
    ensures
        pow10(a + b) == pow10(a) * pow10(b),
    decreases b,
{
    if b > 0 {
        let b1 = (b - 1) as nat;
        lemma_pow10_add(a, b1);
        assert(a + b1 == (a + b - 1) as nat);
        assert(pow10(a + b) == 10 * pow10(a + b1));
        assert(pow10(b) == 10 * pow10(b1));
        let pa = pow10(a);
        let pb1 = pow10(b1);
        assert(pa * (10 * pb1) == 10 * (pa * pb1)) by (nonlinear_arith);
        assert(pow10(a + b) == pa * pow10(b));
    } else {
        assert(a + b == a);
        assert(pow10(b) == 1);
    }
}

pub proof fn lemma_unit_step(k: nat)
    requires
        k < 28,
    ensures
        unit(k) == 10 * unit(k + 1),
{
    assert(((28 - k) as nat) > 0);
    assert((((28 - k) as nat) - 1) as nat == (28 - (k + 1)) as nat);
}

/// A larger scale has a smaller range.
pub proof fn lemma_bound_mono(s1: nat, s2: nat)
    requires
        s1 <= s2 <= 28,
    ensures
        0 <= bound_at(s2) <= bound_at(s1),
        unit(s2) <= unit(s1),
{
    lemma_pow10_add((28 - s2) as nat, (s2 - s1) as nat);
    assert(((28 - s2) as nat) + ((s2 - s1) as nat) == (28 - s1) as nat);
    lemma_pow10_pos((s2 - s1) as nat);
    lemma_pow10_pos((28 - s2) as nat);
    let u1 = unit(s1);
    let u2 = unit(s2);
    let p = pow10((s2 - s1) as nat);
    assert(u1 == u2 * p);
    assert(u2 <= u1) by (nonlinear_arith)
        requires
            u1 == u2 * p,
            p >= 1,
            u2 >= 1,
    ;
    assert(0 <= MAX_MANTISSA * u2 <= MAX_MANTISSA * u1) by (nonlinear_arith)
        requires
            u2 <= u1,
            u2 >= 1,
    ;
}

/// Every decimal is in range at its own scale.
pub proof fn lemma_wf_fits(a: Amount)
    requires
        a.wf(),
    ensures
        fits_at(a.value(), a.scale as nat),
{
    lemma_fits_iff(a.value(), a.mantissa as int, a.scale as nat);
}

/// A number written as `m` steps at scale `s` is in range there exactly when `m` is.
pub proof fn lemma_fits_iff(v: int, m: int, s: nat)
    requires
        v == m * unit(s),
    ensures
        fits_at(v, s) <==> -MAX_MANTISSA <= m <= MAX_MANTISSA,
{
    lemma_pow10_pos((28 - s) as nat);
    let u = unit(s);
    let mx = MAX_MANTISSA as int;
    assert(m <= mx <==> m * u <= mx * u) by (nonlinear_arith)
        requires
            u >= 1,
    ;
    assert(-mx <= m <==> -(mx * u) <= m * u) by (nonlinear_arith)
        requires
            u >= 1,
    ;
}

proof fn lemma_out_of_range_stays(m: int, k: nat, s: nat, v: int)
    requires
        k <= s <= 28,
        m > MAX_MANTISSA || m < -MAX_MANTISSA,
        v == m * unit(k),
    ensures
        !fits_at(v, s),
{
    lemma_pow10_add((28 - s) as nat, (s - k) as nat);
    assert(((28 - s) as nat) + ((s - k) as nat) == (28 - k) as nat);
    lemma_pow10_pos((s - k) as nat);
    let p = pow10((s - k) as nat);
    let big = m * p;
    assert(v == big * unit(s)) by (nonlinear_arith)
        requires
            v == m * unit(k),
            unit(k) == unit(s) * p,
            big == m * p,
    ;
    assert(big > MAX_MANTISSA || big < -MAX_MANTISSA) by (nonlinear_arith)
        requires
            m > MAX_MANTISSA || m < -MAX_MANTISSA,
            p >= 1,
            big == m * p,
    ;
    lemma_fits_iff(v, big, s);
}

/// Whether `rust_decimal` adds (`add`) or subtracts (otherwise) `a` and `b` exactly:
/// `add_exact` or `sub_exact`.
pub fn is_exact(a: &Amount, b: &Amount, add: bool) -> (r: bool)
    requires
        a.wf(),
        b.wf(),
    ensures
        r == (if add {
            add_exact(*a, *b)
        } else {
            sub_exact(*a, *b)
        }),
{
    if a.mantissa == 0 || b.mantissa == 0 {
        return true;
    }
    let s = if a.scale >= b.scale {
        a.scale
    } else {
        b.scale
    };
    let ra = a.rescaled(s);
    let rb = b.rescaled(s);
    match (ra, rb) {
        (Some(ma), Some(mb)) => {
            let m: i128 = if add {
                ma + mb
            } else {
                ma - mb
            };
            proof {
                let u = unit(s as nat);
                assert(m * u == if add {
                    ma * u + mb * u
                } else {
                    ma * u - mb * u
                }) by (nonlinear_arith)
                    requires
                        m == if add {
                            ma + mb
                        } else {
                            ma - mb
                        },
                ;
                lemma_fits_iff(
                    if add {
                        a.value() + b.value()
                    } else {
                        a.value() - b.value()
                    },
                    m as int,
                    s as nat,
                );
            }
            -MAX_MANTISSA <= m && m <= MAX_MANTISSA
        },
        _ => false,
    }
}

/// `10^s` for a scale `s`.
fn pow10_exec(s: u32) -> (r: u128)
    requires
        s <= 28,
    ensures
        r == pow10(s as nat),
{
    let mut r: u128 = 1;
    let mut k: u32 = 0;
    assert(pow10(28) == 10000000000000000000000000000) by {
        reveal_with_fuel(pow10, 30);
    }
    while k < s
        invariant
            k <= s <= 28,
            r == pow10(k as nat),
            pow10(28) == 10000000000000000000000000000,
        decreases s - k,
    {
        proof {
            lemma_pow10_add((k + 1) as nat, (28 - k - 1) as nat);
            assert((k + 1) as nat + (28 - k - 1) as nat == 28);
            lemma_pow10_pos((28 - k - 1) as nat);
            assert(pow10((k + 1) as nat) == 10 * pow10(k as nat));
            let a = pow10((k + 1) as nat);
            let b = pow10((28 - k - 1) as nat);
            assert(a <= a * b) by (nonlinear_arith)
                requires
                    b >= 1,
            ;
            assert(r * 10 == a);
        }
        r = r * 10;
        k = k + 1;
    }
    r
}

/// `10^28`, one unit at scale zero.
const UNIT_ZERO: i128 = 10000000000000000000000000000;

/// `a` split at the decimal point: `a.value() == q * 10^28 + r`, with `|r| < 10^28`.
fn split(a: &Amount) -> (r: (i128, i128))
    requires
        a.wf(),
    ensures
        a.value() == r.0 * UNIT_ZERO + r.1,
        -MAX_MANTISSA <= r.0 <= MAX_MANTISSA,
        -UNIT_ZERO < r.1 < UNIT_ZERO,
{
    let big: u128 = if a.mantissa < 0 {
        (-a.mantissa) as u128
    } else {
        a.mantissa as u128
    };
    let p = pow10_exec(a.scale);
    let ua = pow10_exec(28 - a.scale);
    proof {
        lemma_pow10_pos(a.scale as nat);
        lemma_pow10_pos((28 - a.scale) as nat);
        lemma_pow10_add(a.scale as nat, (28 - a.scale) as nat);
        assert(a.scale as nat + (28 - a.scale) as nat == 28);
        assert(pow10(28) == 10000000000000000000000000000) by {
            reveal_with_fuel(pow10, 30);
        }
        vstd::arithmetic::div_mod::lemma_fundamental_div_mod(big as int, p as int);
        vstd::arithmetic::div_mod::lemma_mod_pos_bound(big as int, p as int);
    }
    let q = big / p;
    let rem = big % p;
    proof {
        let bi = big as int;
        let pi = p as int;
        let ui = ua as int;
        assert(q as int <= bi) by (nonlinear_arith)
            requires
                pi >= 1,
                bi >= 0,
                q as int == bi / pi,
        ;
        assert(rem * ui < pi * ui) by (nonlinear_arith)
            requires
                rem < pi,
                ui >= 1,
        ;
        assert(bi * ui == (q * pi + rem) * ui);
        assert((q * pi + rem) * ui == q * (pi * ui) + rem * ui) by (nonlinear_arith);
    }
    let rr: u128 = rem * ua;
    if a.mantissa < 0 {
        proof {
            assert(a.value() == a.mantissa * (ua as int));
            assert(a.mantissa * (ua as int) == -((big as int) * (ua as int))) by (nonlinear_arith)
                requires
                    big as int == -a.mantissa,
            ;
        }
        (-(q as i128), -(rr as i128))
    } else {
        proof {
            assert(a.value() == a.mantissa * (ua as int));
        }
        (q as i128, rr as i128)
    }
}

/// Whether `a.value() + b.value()` is within the range of decimals of scale zero.
fn sum_fits_zero(a: &Amount, b: &Amount) -> (r: bool)
    requires
        a.wf(),
        b.wf(),
    ensures
        r == fits_at(a.value() + b.value(), 0),
{
    let (qa, ra) = split(a);
    let (qb, rb) = split(b);
    let i: i128 = qa + qb;
    let rs: i128 = ra + rb;
    let ghost v = a.value() + b.value();
    let ghost u = UNIT_ZERO as int;
    proof {
        assert(v == i * u + rs) by (nonlinear_arith)
            requires
                a.value() == qa * u + ra,
                b.value() == qb * u + rb,
                v == a.value() + b.value(),
                i == qa + qb,
                rs == ra + rb,
        ;
        assert(pow10(28) == 10000000000000000000000000000) by {
            reveal_with_fuel(pow10, 30);
        }
        assert(bound_at(0) == MAX_MANTISSA * u);
    }
    let d: i128 = i - MAX_MANTISSA;
    let below = if d >= 2 {
        proof {
            assert(d * u + rs > 0) by (nonlinear_arith)
                requires
                    d >= 2,
                    rs > -2 * u,
                    u > 0,
            ;
            assert(v - MAX_MANTISSA * u == d * u + rs) by (nonlinear_arith)
                requires
                    v == i * u + rs,
                    d == i - MAX_MANTISSA,
            ;
        }
        false
    } else if d <= -2 {
        proof {
            assert(d * u + rs < 0) by (nonlinear_arith)
                requires
                    d <= -2,
                    rs < 2 * u,
                    u > 0,
            ;
            assert(v - MAX_MANTISSA * u == d * u + rs) by (nonlinear_arith)
                requires
                    v == i * u + rs,
                    d == i - MAX_MANTISSA,
            ;
        }
        true
    } else {
        let w: i128 = d * UNIT_ZERO + rs;
        proof {
            assert(v - MAX_MANTISSA * u == d * u + rs) by (nonlinear_arith)
                requires
                    v == i * u + rs,
                    d == i - MAX_MANTISSA,
            ;
        }
        w <= 0
    };
    let e: i128 = i + MAX_MANTISSA;
    let above = if e >= 2 {
        proof {
            assert(e * u + rs > 0) by (nonlinear_arith)
                requires
                    e >= 2,
                    rs > -2 * u,
                    u > 0,
            ;
            assert(v + MAX_MANTISSA * u == e * u + rs) by (nonlinear_arith)
                requires
                    v == i * u + rs,
                    e == i + MAX_MANTISSA,
            ;
        }
        true
    } else if e <= -2 {
        proof {
            assert(e * u + rs < 0) by (nonlinear_arith)
                requires
                    e <= -2,
                    rs < 2 * u,
                    u > 0,
            ;
            assert(v + MAX_MANTISSA * u == e * u + rs) by (nonlinear_arith)
                requires
                    v == i * u + rs,
                    e == i + MAX_MANTISSA,
            ;
        }
        false
    } else {
        let w: i128 = e * UNIT_ZERO + rs;
        proof {
            assert(v + MAX_MANTISSA * u == e * u + rs) by (nonlinear_arith)
                requires
                    v == i * u + rs,
                    e == i + MAX_MANTISSA,
            ;
        }
        w >= 0
    };
    below && above
}

/// Whether `rust_decimal` adds (`add`) or subtracts (otherwise) `a` and `b` without
/// overflowing: `add_ok` or `sub_ok`.
pub fn is_ok(a: &Amount, b: &Amount, add: bool) -> (r: bool)
    requires
        a.wf(),
        b.wf(),
    ensures
        r == (if add {
            add_ok(*a, *b)
        } else {
            sub_ok(*a, *b)
        }),
{
    if is_exact(a, b, add) {
        return true;
    }
    if add {
        sum_fits_zero(a, b)
    } else {
        let nb = Amount { mantissa: -b.mantissa, scale: b.scale };
        proof {
            assert(nb.value() == -b.value()) by (nonlinear_arith)
                requires
                    nb.value() == nb.mantissa * unit(b.scale as nat),
                    b.value() == b.mantissa * unit(b.scale as nat),
                    nb.mantissa == -b.mantissa,
            ;
        }
        sum_fits_zero(a, &nb)
    }
}

/// `rust_decimal`'s `<` on the decimals that `a` and `b` hold.
///
/// Trusted: `Decimal` orders by numeric value (`Ord` compares the numbers after bringing
/// them to a common scale), so the result is the order of the two values.
#[verifier::external_body]
pub(crate) fn decimal_lt(a: &Amount, b: &Amount) -> (r: bool)
    requires
        a.wf(),
        b.wf(),
    ensures
        r == (a.value() < b.value()),
{
    Decimal::from_i128_with_scale(a.mantissa, a.scale) < Decimal::from_i128_with_scale(
        b.mantissa,
        b.scale,
    )
}

/// `rust_decimal`'s `<=` on the decimals that `a` and `b` hold.
///
/// Trusted: `Decimal` orders by numeric value.
#[verifier::external_body]
pub(crate) fn decimal_le(a: &Amount, b: &Amount) -> (r: bool)
    requires
        a.wf(),
        b.wf(),
    ensures
        r == (a.value() <= b.value()),
{
    Decimal::from_i128_with_scale(a.mantissa, a.scale) <= Decimal::from_i128_with_scale(
        b.mantissa,
        b.scale,
    )
}

/// `rust_decimal`'s `==` on the decimals that `a` and `b` hold.
///
/// Trusted: `Decimal`'s equality is numeric (`1.0 == 1.00`).
#[verifier::external_body]
pub(crate) fn decimal_eq(a: &Amount, b: &Amount) -> (r: bool)
    requires
        a.wf(),
        b.wf(),
    ensures
        r == (a.value() == b.value()),
{
    Decimal::from_i128_with_scale(a.mantissa, a.scale) == Decimal::from_i128_with_scale(
        b.mantissa,
        b.scale,
    )
}

/// `rust_decimal`'s `+` on the decimals that `a` and `b` hold.
///
/// Trusted: `Decimal` holds a mantissa of at most 96 bits and a scale of at most 28, so
/// the result is a valid decimal; it is `decimal_sum` of the operands.  With a zero operand
/// `Decimal` gives back the other operand; otherwise, when both operands and the sum are in
/// range at the larger of the two scales, it adds the aligned mantissas exactly and keeps
/// the larger scale (that is `sum_amount`).  Elsewhere it rounds to a smaller scale; it
/// panics only when even the sum rounded to scale zero needs more than 96 bits, which
/// `add_ok` leaves out (a sum within the range of scale zero rounds to a mantissa within
/// it).
#[verifier::external_body]
pub(crate) fn decimal_add(a: &Amount, b: &Amount) -> (r: Amount)
    requires
        a.wf(),
        b.wf(),
        add_ok(*a, *b),
    ensures
        r.wf(),
        (r.mantissa, r.scale) == decimal_sum(a.mantissa, a.scale, b.mantissa, b.scale),
        add_exact(*a, *b) ==> r == sum_amount(*a, *b),
{
    let d = Decimal::from_i128_with_scale(a.mantissa, a.scale) + Decimal::from_i128_with_scale(
        b.mantissa,
        b.scale,
    );
    Amount { mantissa: d.mantissa(), scale: d.scale() }
}

/// `rust_decimal`'s `-` on the decimals that `a` and `b` hold.
///
/// Trusted: as for [`decimal_add`], with `decimal_difference`: `0 - b` is `b` negated,
/// `a - 0` is `a`, the difference is exact at the larger scale when operands and result are
/// in range (`diff_amount`), it is rounded otherwise, and `sub_ok` leaves out overflow.
#[verifier::external_body]
pub(crate) fn decimal_sub(a: &Amount, b: &Amount) -> (r: Amount)
    requires
        a.wf(),
        b.wf(),
        sub_ok(*a, *b),
    ensures
        r.wf(),
        (r.mantissa, r.scale) == decimal_difference(a.mantissa, a.scale, b.mantissa, b.scale),
        sub_exact(*a, *b) ==> r == diff_amount(*a, *b),
{
    let d = Decimal::from_i128_with_scale(a.mantissa, a.scale) - Decimal::from_i128_with_scale(
        b.mantissa,
        b.scale,
    );
    Amount { mantissa: d.mantissa(), scale: d.scale() }
}

impl Amount {
    /// Whether the amount is above zero.
    pub fn is_positive(&self) -> (r: bool)
        requires
            self.wf(),
        ensures
            r == (self.value() > 0),
    {
        decimal_lt(&Amount::zero(), self)
    }
}

/// The smaller of two amounts (the first when they are equal), as `Ord::min` picks it.
pub fn amount_min(a: Amount, b: Amount) -> (r: Amount)
    requires
        a.wf(),
        b.wf(),
    ensures
        r == min_amount(a, b),
{
    if decimal_le(&a, &b) {
        a
    } else {
        b
    }
}

} // verus!
