//! The arithmetic of doubles, on whole numbers: what a decimal is read as, and
//! what that comes to times a whole number.
//!
//! A double is a significand of 53 bits times a power of two. What is between two
//! of them is rounded to the nearer, and to the even one where neither is nearer.
//! The exponents here have no lower bound; the numbers for which that makes a
//! difference are closer to nothing than anything that is counted in them.
use vstd::arithmetic::div_mod::{
    lemma_fundamental_div_mod_converse_div, lemma_fundamental_div_mod_converse_mod,
};
use vstd::arithmetic::power2::{
    lemma2_to64, lemma2_to64_rest, lemma_pow2_adds, lemma_pow2_pos, lemma_pow2_strictly_increases,
    pow2,
};
use vstd::prelude::*;

use crate::wide::{self, Standing, minus, times_plus, weigh};

verus! {

/// The least significand of a double that is not zero: `2^52`.
pub const LEAST: u64 = 0x10_0000_0000_0000;

/// What the significand of a double stays below: `2^53`. Rounding up may come to
/// it.
pub const MOST: u64 = 0x20_0000_0000_0000;

/// A double that is not negative: a significand times two to the exponent.
#[derive(Debug, Clone, Copy)]
pub struct Double {
    pub significand: u64,
    pub exponent: i128,
}

/// A [`Double`], as the numbers it is made of.
#[verifier::ext_equal]
pub struct DoubleView {
    pub significand: nat,
    pub exponent: int,
}

impl View for Double {
    type V = DoubleView;

    open spec fn view(&self) -> DoubleView {
        DoubleView { significand: self.significand as nat, exponent: self.exponent as int }
    }
}

impl DoubleView {
    /// Zero, or a significand of 53 bits, and an exponent that is nowhere near what
    /// counts it.
    pub open spec fn wf(self) -> bool {
        &&& self.significand == 0 || LEAST <= self.significand <= MOST
        &&& -0x1_0000_0000_0000_0000_0000 < self.exponent < 0x1_0000_0000_0000_0000_0000
    }

    /// Small enough for a double, whose exponents do have an upper bound.
    pub open spec fn finite(self) -> bool {
        self.exponent > 0 ==> self.significand * pow2(self.exponent as nat) < pow2(1024)
    }

    /// The whole number that is left when what is behind the point is dropped.
    pub open spec fn truncated(self) -> nat {
        if self.exponent >= 0 {
            self.significand * pow2(self.exponent as nat)
        } else {
            self.significand / pow2((-self.exponent) as nat)
        }
    }
}

/// `n / d` over `2^e`, as a fraction.
pub open spec fn shifted(n: nat, d: nat, e: int) -> (nat, nat) {
    if e >= 0 {
        (n, d * pow2(e as nat))
    } else {
        (n * pow2((-e) as nat), d)
    }
}

/// `n / d` is a number of 53 bits times `2^e`, and less than another.
pub open spec fn spans(n: nat, d: nat, e: int) -> bool {
    let (p, q) = shifted(n, d, e);
    LEAST * q <= p < MOST * q
}

/// `p / q`, rounded to the nearest whole number, and to the even one where two are
/// as near.
pub open spec fn to_even(p: nat, q: nat) -> nat {
    let whole = p / q;
    let rest = p % q;
    if 2 * rest > q || (2 * rest == q && whole % 2 == 1) {
        whole + 1
    } else {
        whole
    }
}

/// The double that is nearest `n / d`.
pub open spec fn nearest(n: nat, d: nat) -> DoubleView {
    if n == 0 {
        DoubleView { significand: 0, exponent: 0 }
    } else {
        let e = choose|e: int| #[trigger] spans(n, d, e);
        let (p, q) = shifted(n, d, e);
        DoubleView { significand: to_even(p, q), exponent: e }
    }
}

/// `p` is a number of 53 bits times `2^t`, and less than another.
pub open spec fn spans_whole(p: nat, t: nat) -> bool {
    LEAST * pow2(t) <= p < MOST * pow2(t)
}

/// The double that is nearest a double times a whole number.
pub open spec fn times(x: DoubleView, k: nat) -> DoubleView {
    let p = x.significand * k;
    if p == 0 {
        DoubleView { significand: 0, exponent: 0 }
    } else {
        let t = choose|t: nat| #[trigger] spans_whole(p, t);
        DoubleView { significand: to_even(p, pow2(t)), exponent: x.exponent + t }
    }
}

/// Two shifts of one fraction differ by the power of two between them.
proof fn shifts_differ_by_a_power(n: nat, d: nat, e: int, f: int)
    requires
        e <= f,
    ensures
        shifted(n, d, e).0 * shifted(n, d, f).1 == shifted(n, d, f).0 * shifted(n, d, e).1 * pow2(
            (f - e) as nat,
        ),
{
    let j = pow2((f - e) as nat);
    if e >= 0 {
        let a = pow2(e as nat);
        let b = pow2(f as nat);
        lemma_pow2_adds(e as nat, (f - e) as nat);
        assert(n * (d * b) == n * (d * a) * j) by (nonlinear_arith)
            requires
                b == a * j,
        ;
    } else if f < 0 {
        let a = pow2((-e) as nat);
        let b = pow2((-f) as nat);
        lemma_pow2_adds((-f) as nat, (f - e) as nat);
        assert((n * a) * d == (n * b) * d * j) by (nonlinear_arith)
            requires
                a == b * j,
        ;
    } else {
        let a = pow2((-e) as nat);
        let b = pow2(f as nat);
        lemma_pow2_adds((-e) as nat, f as nat);
        assert((n * a) * (d * b) == n * d * j) by (nonlinear_arith)
            requires
                j == a * b,
        ;
    }
}

proof fn doubled_at_least(j: nat)
    requires
        j >= 1,
    ensures
        pow2(j) >= 2,
{
    lemma2_to64();
    if j > 1 {
        lemma_pow2_strictly_increases(1, j);
    }
}

/// A number has one exponent as a double.
proof fn one_exponent(n: nat, d: nat, e: int, f: int)
    requires
        d > 0,
        spans(n, d, e),
        spans(n, d, f),
    ensures
        e == f,
{
    if e < f {
        no_later_exponent(n, d, e, f);
    } else if f < e {
        no_later_exponent(n, d, f, e);
    }
}

proof fn no_later_exponent(n: nat, d: nat, e: int, f: int)
    requires
        d > 0,
        e < f,
        spans(n, d, e),
    ensures
        !spans(n, d, f),
{
    let (p, q) = shifted(n, d, e);
    let (r, s) = shifted(n, d, f);
    let j = pow2((f - e) as nat);
    shifts_differ_by_a_power(n, d, e, f);
    doubled_at_least((f - e) as nat);
    assert(s > 0) by {
        if f >= 0 {
            lemma_pow2_pos(f as nat);
            assert(d * pow2(f as nat) > 0) by (nonlinear_arith)
                requires
                    d > 0,
                    pow2(f as nat) > 0,
            ;
        }
    }
    assert(p * s < MOST * q * s) by (nonlinear_arith)
        requires
            p < MOST * q,
            s > 0,
    ;
    assert(r >= LEAST * s ==> r * q >= LEAST * s * q) by (nonlinear_arith);
    assert(r * q * j >= 2 * (r * q)) by (nonlinear_arith)
        requires
            j >= 2,
    ;
    assert(MOST * q * s == 2 * (LEAST * s * q)) by (nonlinear_arith)
        requires
            MOST == 2 * LEAST,
    ;
}

proof fn one_whole_exponent(p: nat, t: nat, u: nat)
    requires
        spans_whole(p, t),
        spans_whole(p, u),
    ensures
        t == u,
{
    if t < u {
        no_later_whole_exponent(p, t, u);
    } else if u < t {
        no_later_whole_exponent(p, u, t);
    }
}

proof fn no_later_whole_exponent(p: nat, t: nat, u: nat)
    requires
        t < u,
        spans_whole(p, t),
    ensures
        !spans_whole(p, u),
{
    let j = pow2((u - t) as nat);
    lemma_pow2_adds(t, (u - t) as nat);
    doubled_at_least((u - t) as nat);
    assert(LEAST * (pow2(t) * j) >= MOST * pow2(t)) by (nonlinear_arith)
        requires
            j >= 2,
            MOST == 2 * LEAST,
    ;
}

/// Rounding what is between a number of 53 bits and the next comes to such a number.
proof fn rounding_stays_in_bounds(p: nat, q: nat)
    requires
        q > 0,
        LEAST * q <= p < MOST * q,
    ensures
        LEAST <= to_even(p, q) <= MOST,
        LEAST <= p / q < MOST,
{
    assert(LEAST <= p / q && p / q < MOST) by (nonlinear_arith)
        requires
            q > 0,
            LEAST * q <= p < MOST * q,
    ;
}

proof fn a_small_number_has_an_exponent(n: nat) -> (e: int)
    requires
        0 < n < MOST,
    ensures
        spans(n, 1, e),
        e <= 0,
    decreases MOST - n,
{
    lemma2_to64();
    if n >= LEAST {
        assert(1 * pow2(0) == 1) by (nonlinear_arith)
            requires
                pow2(0) == 1,
        ;
        0
    } else {
        let f = a_small_number_has_an_exponent(2 * n);
        let p = pow2((-f) as nat);
        lemma_pow2_adds((-f) as nat, 1);
        assert(n * (p * 2) == (2 * n) * p) by (nonlinear_arith);
        if f == 0 {
            assert(1 * pow2(0) == 1 && (2 * n) * pow2(0) == 2 * n) by (nonlinear_arith)
                requires
                    pow2(0) == 1,
            ;
        }
        f - 1
    }
}

/// A whole number below `2^53` is a double.
proof fn a_small_number_is_a_double(n: nat)
    requires
        0 < n < MOST,
    ensures
        nearest(n, 1).exponent <= 0,
        nearest(n, 1).significand == n * pow2((-nearest(n, 1).exponent) as nat),
        LEAST <= nearest(n, 1).significand < MOST,
{
    let e = a_small_number_has_an_exponent(n);
    let found = choose|e: int| #[trigger] spans(n, 1, e);
    one_exponent(n, 1, e, found);
    lemma2_to64();
    let (p, q) = shifted(n, 1, e);
    assert(1 * pow2(0) == 1 && n * pow2(0) == n) by (nonlinear_arith)
        requires
            pow2(0) == 1,
    ;
    assert(q == 1 && p == n * pow2((-e) as nat));
    assert(p / 1 == p && p % 1 == 0);
}

/// A product that is a whole number below `2^53` is exact: where a decimal is a
/// whole number, nothing is lost by reading it as a double.
pub proof fn small_products_are_exact(n: nat, k: nat)
    requires
        k > 0,
        n * k < MOST,
    ensures
        times(nearest(n, 1), k).finite(),
        times(nearest(n, 1), k).truncated() == n * k,
{
    lemma2_to64();
    lemma_pow2_pos(1024);
    if n == 0 {
        assert(n * k == 0 && nearest(n, 1).significand * k == 0) by (nonlinear_arith)
            requires
                n == 0,
                nearest(n, 1).significand == 0,
        ;
        assert(0 * pow2(0) == 0) by (nonlinear_arith);
    } else {
        assert(0 < n <= n * k) by (nonlinear_arith)
            requires
                n > 0,
                k > 0,
        ;
        a_small_number_is_a_double(n);
        let x = nearest(n, 1);
        let j = (-x.exponent) as nat;
        let p = x.significand * k;
        // The product as a double of its own has the exponent that rounding finds.
        let whole = n * k;
        let f = a_small_number_has_an_exponent(whole);
        let i = (-f) as nat;
        assert(1 * pow2(0) == 1 && whole * pow2(0) == whole) by (nonlinear_arith)
            requires
                pow2(0) == 1,
        ;
        assert(LEAST <= whole * pow2(i) < MOST);
        assert(i <= j) by {
            if j < i {
                lemma_pow2_adds(j, (i - j) as nat);
                doubled_at_least((i - j) as nat);
                assert(whole * pow2(i) >= 2 * (n * pow2(j))) by (nonlinear_arith)
                    requires
                        whole >= n,
                        pow2(i) == pow2(j) * pow2((i - j) as nat),
                        pow2((i - j) as nat) >= 2,
                ;
            }
        }
        let t = (j - i) as nat;
        lemma_pow2_adds(i, t);
        lemma_pow2_pos(t);
        lemma_pow2_pos(i);
        let a = whole * pow2(i);
        assert(p == a * pow2(t)) by (nonlinear_arith)
            requires
                p == (n * pow2(j)) * k,
                pow2(j) == pow2(i) * pow2(t),
                a == (n * k) * pow2(i),
        ;
        assert(LEAST * pow2(t) <= p < MOST * pow2(t)) by (nonlinear_arith)
            requires
                p == a * pow2(t),
                LEAST <= a < MOST,
                pow2(t) > 0,
        ;
        assert(spans_whole(p, t));
        let found = choose|t: nat| #[trigger] spans_whole(p, t);
        one_whole_exponent(p, t, found);
        lemma_fundamental_div_mod_converse_div(p as int, pow2(t) as int, a as int, 0);
        lemma_fundamental_div_mod_converse_mod(p as int, pow2(t) as int, a as int, 0);
        assert(times(x, k).significand == a);
        assert(times(x, k).exponent == -i);
        if i > 0 {
            lemma_fundamental_div_mod_converse_div(a as int, pow2(i) as int, whole as int, 0);
        }
    }
}

/// `num` over `unit`, rounded to the nearest whole number, where `half` is `unit`
/// with 52 zeros behind it in binary.
fn divide(num: &Vec<u32>, half: &Vec<u32>, Ghost(unit): Ghost<nat>) -> (out: u64)
    requires
        unit > 0,
        wide::value(half@) == LEAST * unit,
        wide::value(half@) <= wide::value(num@) < 2 * wide::value(half@),
    ensures
        out == to_even(wide::value(num@), unit),
        LEAST <= out <= MOST,
{
    let ghost n = wide::value(num@);
    let ghost h = wide::value(half@);
    let mut rest: Vec<u32> = times_plus(num, 1, 0);
    let mut whole: u64 = 0;
    proof {
        lemma2_to64();
        lemma2_to64_rest();
    }
    for i in 0..53
        invariant
            h == wide::value(half@),
            n * pow2(i as nat) == 2 * (whole * h) + wide::value(rest@),
            wide::value(rest@) < 2 * h,
            whole < pow2(i as nat),
            pow2(53) == MOST,
    {
        proof {
            lemma_pow2_adds(i as nat, 1);
            lemma2_to64();
            if i < 52 {
                lemma_pow2_strictly_increases((i + 1) as nat, 53);
            }
        }
        let ghost was = wide::value(rest@);
        let ghost before = whole;
        whole = 2 * whole;
        if weigh(&rest, half) != Standing::Below {
            rest = minus(&rest, half);
            whole = whole + 1;
        }
        rest = times_plus(&rest, 2, 0);
        proof {
            let bit: int = whole - 2 * before;
            assert(bit * h == (if bit == 1 {
                h as int
            } else {
                0
            })) by (nonlinear_arith)
                requires
                    bit == 0 || bit == 1,
            ;
            assert(n * pow2((i + 1) as nat) == 2 * (whole * h) + wide::value(rest@))
                by (nonlinear_arith)
                requires
                    pow2((i + 1) as nat) == pow2(i as nat) * 2,
                    n * pow2(i as nat) == 2 * (before * h) + was,
                    whole == 2 * before + bit,
                    wide::value(rest@) == 2 * (was - bit * h),
            ;
        }
    }
    let standing = weigh(&rest, half);
    proof {
        let r = n - whole * unit;
        let left = wide::value(rest@) as int;
        assert(2 * (whole * h) == MOST * (whole * unit)) by (nonlinear_arith)
            requires
                h == LEAST * unit,
                MOST == 2 * LEAST,
        ;
        assert(MOST * n == n * pow2(53));
        assert(left == MOST * r);
        assert(0 <= r < unit);
        assert(n == whole * unit + r);
        lemma_fundamental_div_mod_converse_div(n as int, unit as int, whole as int, r);
        lemma_fundamental_div_mod_converse_mod(n as int, unit as int, whole as int, r);
        rounding_stays_in_bounds(n, unit);
    }
    match standing {
        Standing::Below => whole,
        Standing::Level => whole + whole % 2,
        Standing::Above => whole + 1,
    }
}

proof fn a_power_in_limbs(limbs: Seq<u32>, e: nat)
    requires
        pow2(e) <= wide::value(limbs),
    ensures
        e < 32 * limbs.len(),
{
    wide::limbs_hold(limbs);
    let bits = 32 * limbs.len();
    if bits < e {
        lemma_pow2_strictly_increases(bits, e);
    }
}

/// The double that is nearest `n / d`.
pub fn nearest_to(n: &Vec<u32>, d: &Vec<u32>) -> (out: Double)
    requires
        wide::value(d@) > 0,
    ensures
        out@ == nearest(wide::value(n@), wide::value(d@)),
        out@.wf(),
{
    let ghost top = wide::value(n@);
    let ghost unit = wide::value(d@);
    if weigh(n, &Vec::new()) == Standing::Level {
        return Double { significand: 0, exponent: 0 };
    }
    let mut num: Vec<u32> = times_plus(n, 1, 0);
    let mut half: Vec<u32> = times_plus(&times_plus(d, 0x4000_0000, 0), 0x40_0000, 0);
    let mut down: i128 = 0;
    let mut twice: Vec<u32> = times_plus(&half, 2, 0);
    proof {
        lemma2_to64();
        assert(unit * 0x4000_0000 * 0x40_0000 == LEAST * (unit * pow2(0))) by (nonlinear_arith)
            requires
                pow2(0) == 1,
                LEAST == 0x4000_0000 * 0x40_0000,
        ;
    }
    while weigh(&num, &twice) != Standing::Below
        invariant
            unit > 0,
            0 <= down < 0x1_0000_0000_0000_0000_0000,
            wide::value(num@) == top,
            wide::value(half@) == LEAST * (unit * pow2(down as nat)),
            wide::value(twice@) == 2 * wide::value(half@),
            down > 0 ==> wide::value(half@) <= top,
        decreases top - wide::value(half@),
    {
        proof {
            let p = pow2(down as nat);
            lemma_pow2_pos(down as nat);
            lemma_pow2_adds(down as nat, 1);
            lemma2_to64();
            assert(2 * (LEAST * (unit * p)) == LEAST * (unit * (p * 2))) by (nonlinear_arith);
            assert(LEAST * (unit * (p * 2)) >= p * 2 && LEAST * (unit * p) > 0)
                by (nonlinear_arith)
                requires
                    unit > 0,
                    p > 0,
                    LEAST > 0,
            ;
            a_power_in_limbs(num@, (down + 1) as nat);
            assert(num@.len() == num.len());
        }
        half = twice;
        twice = times_plus(&half, 2, 0);
        down += 1;
    }
    let mut up: i128 = 0;
    proof {
        lemma2_to64();
        assert(top * pow2(0) == top) by (nonlinear_arith)
            requires
                pow2(0) == 1,
        ;
    }
    while weigh(&num, &half) == Standing::Below
        invariant
            top > 0,
            0 <= up < 0x1_0000_0000_0000_0000_0000,
            wide::value(num@) == top * pow2(up as nat),
            wide::value(num@) < 2 * wide::value(half@),
            down > 0 ==> wide::value(half@) <= wide::value(num@) && up == 0,
        decreases 2 * wide::value(half@) - wide::value(num@),
    {
        proof {
            let p = pow2(up as nat);
            lemma_pow2_pos(up as nat);
            lemma_pow2_adds(up as nat, 1);
            lemma2_to64();
            assert((top * p) * 2 == top * (p * 2)) by (nonlinear_arith);
            assert(top * p >= p && top * p > 0) by (nonlinear_arith)
                requires
                    top > 0,
                    p > 0,
            ;
            a_power_in_limbs(half@, up as nat);
            assert(half@.len() == half.len());
        }
        num = times_plus(&num, 2, 0);
        up += 1;
    }
    let ghost e = down - up;
    proof {
        lemma2_to64();
        lemma_pow2_pos(down as nat);
        let (p, q) = shifted(top, unit, e);
        assert(unit * pow2(0) == unit) by (nonlinear_arith)
            requires
                pow2(0) == 1,
        ;
        assert(unit * pow2(down as nat) > 0) by (nonlinear_arith)
            requires
                unit > 0,
                pow2(down as nat) > 0,
        ;
        assert(p == wide::value(num@));
        assert(q == unit * pow2(down as nat));
        assert(spans(top, unit, e));
        let found = choose|e: int| #[trigger] spans(top, unit, e);
        one_exponent(top, unit, e, found);
    }
    let significand: u64 = divide(&num, &half, Ghost(unit * pow2(down as nat)));
    Double { significand, exponent: down - up }
}

impl Double {
    /// The double that is nearest this one times a whole number.
    pub fn times(self, k: u32) -> (out: Double)
        requires
            self@.wf(),
        ensures
            out@ == times(self@, k as nat),
            out@.significand == 0 || LEAST <= out@.significand <= MOST,
            out@.exponent > -0x1_0000_0000_0000_0000_0000,
    {
        if self.significand == 0 || k == 0 {
            assert(self.significand as nat * k as nat == 0) by (nonlinear_arith)
                requires
                    self.significand == 0 || k == 0,
            ;
            return Double { significand: 0, exponent: 0 };
        }
        assert(self.significand as int * k as int <= 0x20_0000_0000_0000 * 0xffff_ffff
            && self.significand as int * k as int >= self.significand) by (nonlinear_arith)
            requires
                self.significand <= 0x20_0000_0000_0000,
                1 <= k <= 0xffff_ffff,
        ;
        let product: u128 = self.significand as u128 * k as u128;
        let mut power: u128 = 1;
        let mut t: i128 = 0;
        proof {
            lemma2_to64();
        }
        while product >= 0x20_0000_0000_0000 * power
            invariant
                product <= 0x20_0000_0000_0000 * 0xffff_ffff,
                0 <= t <= 32,
                power == pow2(t as nat),
                power <= 0x1_0000_0000,
                LEAST * power <= product,
            decreases product - power,
        {
            proof {
                lemma2_to64();
                lemma_pow2_adds(t as nat, 1);
                assert(t < 32);
                if t < 31 {
                    lemma_pow2_strictly_increases((t + 1) as nat, 32);
                }
            }
            power = power * 2;
            t += 1;
        }
        proof {
            assert(spans_whole(product as nat, t as nat));
            let found = choose|t: nat| #[trigger] spans_whole(product as nat, t);
            one_whole_exponent(product as nat, t as nat, found);
            rounding_stays_in_bounds(product as nat, power as nat);
        }
        let whole: u64 = (product / power) as u64;
        let rest: u128 = product % power;
        let significand: u64 = if 2 * rest > power || (2 * rest == power && whole % 2 == 1) {
            whole + 1
        } else {
            whole
        };
        Double { significand, exponent: self.exponent + t }
    }

    /// Whether this is small enough for a double.
    pub fn is_finite(self) -> (yes: bool)
        requires
            self@.significand == 0 || LEAST <= self@.significand <= MOST,
        ensures
            yes == self@.finite(),
    {
        proof {
            lemma2_to64();
            lemma2_to64_rest();
            let m = self.significand as int;
            lemma_pow2_pos(1024);
            if self.exponent > 0 {
                let e = self.exponent as nat;
                let p = pow2(e) as int;
                lemma_pow2_pos(e);
                if e >= 972 {
                    lemma_pow2_adds(52, e);
                    if 52 + e > 1024 {
                        lemma_pow2_strictly_increases(1024, 52 + e);
                    }
                    assert(m >= LEAST ==> m * p >= LEAST * p) by (nonlinear_arith)
                        requires
                            p > 0,
                    ;
                } else if e == 971 {
                    lemma_pow2_adds(53, 971);
                    assert(m < MOST ==> m * p < MOST * p) by (nonlinear_arith)
                        requires
                            p > 0,
                    ;
                } else {
                    lemma_pow2_adds(53, e);
                    lemma_pow2_strictly_increases(53 + e, 1024);
                    assert(m * p <= MOST * p) by (nonlinear_arith)
                        requires
                            p > 0,
                            m <= MOST,
                    ;
                }
                assert(m == 0 ==> m * p == 0) by (nonlinear_arith);
            }
        }
        self.significand == 0 || self.exponent < 971 || (self.exponent == 971 && self.significand
            < MOST)
    }

    /// The whole number that is left when what is behind the point is dropped, or
    /// the largest an `i64` holds where it does not hold that.
    pub fn to_i64(self) -> (out: i64)
        requires
            self@.significand == 0 || LEAST <= self@.significand <= MOST,
            self@.exponent > -0x1_0000_0000_0000_0000_0000,
        ensures
            out == (if self@.truncated() <= i64::MAX {
                self@.truncated() as int
            } else {
                i64::MAX as int
            }),
    {
        let ghost m = self.significand as int;
        if self.significand == 0 {
            proof {
                if self.exponent < 0 {
                    lemma_pow2_pos((-self.exponent) as nat);
                    assert(0int / pow2((-self.exponent) as nat) as int == 0) by (nonlinear_arith)
                        requires
                            pow2((-self.exponent) as nat) > 0,
                    ;
                } else {
                    assert(0 * pow2(self.exponent as nat) == 0) by (nonlinear_arith);
                }
            }
            return 0;
        }
        if self.exponent >= 0 {
            if self.exponent > 10 {
                proof {
                    lemma2_to64();
                    let e = self.exponent as nat;
                    if e > 11 {
                        lemma_pow2_strictly_increases(11, e);
                    }
                    assert(m * pow2(e) >= LEAST * 2048) by (nonlinear_arith)
                        requires
                            m >= LEAST,
                            pow2(e) >= 2048,
                    ;
                }
                return i64::MAX;
            }
            let power: u64 = power_of_two(self.exponent as u32);
            proof {
                lemma2_to64();
                if self.exponent < 10 {
                    lemma_pow2_strictly_increases(self.exponent as nat, 10);
                }
                assert(m * power as int <= MOST * 1024) by (nonlinear_arith)
                    requires
                        0 <= m <= MOST,
                        power <= 1024,
                ;
            }
            let all: u128 = self.significand as u128 * power as u128;
            return if all > i64::MAX as u128 {
                i64::MAX
            } else {
                all as i64
            };
        }
        let under: i128 = -self.exponent;
        if under > 53 {
            proof {
                lemma2_to64_rest();
                let p = pow2(under as nat) as int;
                if under > 54 {
                    lemma_pow2_strictly_increases(54, under as nat);
                }
                assert(m / p == 0) by (nonlinear_arith)
                    requires
                        0 <= m < p,
                ;
            }
            return 0;
        }
        let power: u64 = power_of_two(under as u32);
        proof {
            lemma_pow2_pos(under as nat);
            assert(m / power as int <= m) by (nonlinear_arith)
                requires
                    m >= 0,
                    power >= 1,
            ;
        }
        (self.significand / power) as i64
    }
}

/// Two to a power.
fn power_of_two(e: u32) -> (out: u64)
    requires
        e < 64,
    ensures
        out == pow2(e as nat),
{
    let mut out: u64 = 1;
    proof {
        lemma2_to64();
    }
    for i in 0..e
        invariant
            e < 64,
            out == pow2(i as nat),
    {
        proof {
            lemma2_to64();
            lemma_pow2_adds(i as nat, 1);
            lemma_pow2_strictly_increases((i + 1) as nat, 64);
        }
        out = out * 2;
    }
    out
}

/// A fraction is rounded to the nearest whole number, and of two as near to the even one.
pub proof fn rounding_goes_to_the_nearest(p: nat, q: nat)
    requires
        q > 0,
    ensures
        -(q as int) <= 2 * (p - to_even(p, q) * q) <= q,
        2 * (p - to_even(p, q) * q) == q || 2 * (p - to_even(p, q) * q) == -(q as int) ==> to_even(
            p,
            q,
        ) % 2 == 0,
{
    let whole = p / q;
    let rest = p % q;
    let out = to_even(p, q);
    assert(p == whole * q + rest && 0 <= rest < q) by (nonlinear_arith)
        requires
            q > 0,
            whole == p / q,
            rest == p % q,
    ;
    assert((whole + 1) * q == whole * q + q) by (nonlinear_arith);
    if out == whole {
        assert(p - out * q == rest);
    } else {
        assert(p - out * q == rest - q);
    }
}

} // verus!
