//! Whole numbers wider than a machine word.
use vstd::arithmetic::power2::{lemma2_to64, lemma_pow2_adds, lemma_pow2_pos, pow2};
use vstd::prelude::*;

verus! {

/// What each limb counts in terms of the one before it.
pub const BASE: u64 = 0x1_0000_0000;

/// The number these limbs are, the least significant first.
pub open spec fn value(limbs: Seq<u32>) -> nat
    decreases limbs.len(),
{
    if limbs.len() == 0 {
        0
    } else {
        limbs[0] as nat + BASE as nat * value(limbs.drop_first())
    }
}

/// A limb on top counts for as much as the limbs below it can hold.
proof fn a_limb_on_top(limbs: Seq<u32>, top: u32)
    ensures
        value(limbs.push(top)) == value(limbs) + pow2(32 * limbs.len()) * top as nat,
    decreases limbs.len(),
{
    lemma2_to64();
    let more = limbs.push(top);
    if limbs.len() == 0 {
        assert(more.drop_first() =~= Seq::<u32>::empty());
        assert(value(more.drop_first()) == 0);
        assert(pow2(0) * top as nat == top as nat) by (nonlinear_arith)
            requires
                pow2(0) == 1,
        ;
    } else {
        let rest = limbs.drop_first();
        a_limb_on_top(rest, top);
        assert(more.drop_first() =~= rest.push(top));
        lemma_pow2_adds(32, 32 * rest.len());
        let p = pow2(32 * rest.len()) as int;
        assert(BASE * (value(rest) + p * top) == BASE * value(rest) + (BASE * p) * top)
            by (nonlinear_arith);
    }
}

/// What limbs can hold.
pub proof fn limbs_hold(limbs: Seq<u32>)
    ensures
        value(limbs) < pow2(32 * limbs.len()),
    decreases limbs.len(),
{
    lemma2_to64();
    if limbs.len() > 0 {
        let rest = limbs.drop_first();
        limbs_hold(rest);
        lemma_pow2_adds(32, 32 * rest.len());
        assert(limbs[0] + BASE * value(rest) < BASE * pow2(32 * rest.len())) by (nonlinear_arith)
            requires
                limbs[0] < BASE,
                value(rest) + 1 <= pow2(32 * rest.len()),
        ;
    }
}

/// The number `limbs` is, times `factor` and plus `more`.
pub fn times_plus(limbs: &Vec<u32>, factor: u32, more: u32) -> (out: Vec<u32>)
    ensures
        value(out@) == value(limbs@) * factor as nat + more as nat,
{
    let mut out: Vec<u32> = Vec::new();
    let mut carry: u32 = more;
    proof {
        lemma2_to64();
        assert(value(limbs@.take(0)) == 0);
        assert(pow2(0) * carry as nat == carry) by (nonlinear_arith)
            requires
                pow2(0) == 1,
        ;
        assert(0 * factor as nat == 0);
    }
    for i in 0..limbs.len()
        invariant
            out@.len() == i,
            value(limbs@.take(i as int)) * factor as nat + more as nat == value(out@) + pow2(
                32 * i as nat,
            ) * carry as nat,
    {
        let limb: u32 = limbs[i];
        assert(limb as int * factor as int + carry as int <= 0xffff_ffff * BASE + 0xffff_ffff)
            by (nonlinear_arith)
            requires
                limb <= 0xffff_ffff,
                factor <= 0xffff_ffff,
                carry <= 0xffff_ffff,
                BASE == 0x1_0000_0000,
        ;
        let total: u64 = limb as u64 * factor as u64 + carry as u64;
        let low: u32 = (total % BASE) as u32;
        let high: u32 = (total / BASE) as u32;
        proof {
            let before = limbs@.take(i as int);
            let p = pow2(32 * i as nat) as int;
            a_limb_on_top(before, limb);
            assert(limbs@.take(i + 1) =~= before.push(limb));
            a_limb_on_top(out@, low);
            lemma2_to64();
            lemma_pow2_adds(32, 32 * i as nat);
            assert(pow2(32 * (i + 1) as nat) == BASE * p);
            assert((value(before) + p * limb) * factor + more == (value(out@) + p * low) + (BASE * p)
                * high) by (nonlinear_arith)
                requires
                    value(before) * factor + more == value(out@) + p * carry,
                    limb * factor + carry == BASE * high + low,
            ;
        }
        out.push(low);
        carry = high;
    }
    assert(limbs@.take(limbs@.len() as int) =~= limbs@);
    proof {
        a_limb_on_top(out@, carry);
    }
    if carry != 0 {
        out.push(carry);
    } else {
        assert(pow2(32 * limbs@.len()) * carry as nat == 0) by (nonlinear_arith)
            requires
                carry == 0,
        ;
    }
    out
}

/// The limb at a place, which is zero above the last.
pub open spec fn limb(limbs: Seq<u32>, at: int) -> u32 {
    if at < limbs.len() {
        limbs[at]
    } else {
        0
    }
}

/// The limb at a place.
fn limb_at(limbs: &Vec<u32>, at: usize) -> (out: u32)
    ensures
        out == limb(limbs@, at as int),
{
    if at < limbs.len() {
        limbs[at]
    } else {
        0
    }
}

/// What the limbs from a place on count for.
spec fn upper(limbs: Seq<u32>, from: int) -> nat {
    if from < limbs.len() {
        value(limbs.skip(from))
    } else {
        0
    }
}

/// What the limbs up to a place count for.
spec fn lower(limbs: Seq<u32>, to: int) -> nat {
    if to < limbs.len() {
        value(limbs.take(to))
    } else {
        value(limbs)
    }
}

proof fn upper_unfolds(limbs: Seq<u32>, from: int)
    requires
        0 <= from,
    ensures
        upper(limbs, from) == limb(limbs, from) + BASE * upper(limbs, from + 1),
{
    if from < limbs.len() {
        assert(limbs.skip(from).drop_first() =~= limbs.skip(from + 1));
        if from + 1 == limbs.len() {
            assert(value(limbs.skip(from + 1)) == 0);
        }
    }
}

proof fn lower_unfolds(limbs: Seq<u32>, to: int)
    requires
        0 <= to,
    ensures
        lower(limbs, to + 1) == lower(limbs, to) + pow2(32 * to as nat) * limb(limbs, to),
{
    if to < limbs.len() {
        assert(limbs.take(to + 1) =~= limbs.take(to).push(limbs[to]));
        a_limb_on_top(limbs.take(to), limbs[to]);
        if to + 1 == limbs.len() {
            assert(limbs.take(to + 1) =~= limbs);
        }
    } else {
        assert(pow2(32 * to as nat) * limb(limbs, to) == 0) by (nonlinear_arith)
            requires
                limb(limbs, to) == 0,
        ;
    }
}

/// How one number stands to another.
#[derive(Debug, Clone, Copy, PartialEq, Eq, Structural)]
pub enum Standing {
    Below,
    Level,
    Above,
}

/// How one number stands to another.
pub open spec fn standing(a: nat, b: nat) -> Standing {
    if a < b {
        Standing::Below
    } else if a == b {
        Standing::Level
    } else {
        Standing::Above
    }
}

/// How one number stands to another.
pub fn weigh(a: &Vec<u32>, b: &Vec<u32>) -> (out: Standing)
    ensures
        out == standing(value(a@), value(b@)),
{
    let mut at: usize = if a.len() < b.len() {
        b.len()
    } else {
        a.len()
    };
    let mut out = Standing::Level;
    while at > 0
        invariant
            out == standing(upper(a@, at as int), upper(b@, at as int)),
        decreases at,
    {
        at -= 1;
        proof {
            upper_unfolds(a@, at as int);
            upper_unfolds(b@, at as int);
        }
        if out == Standing::Level {
            let left: u32 = limb_at(a, at);
            let right: u32 = limb_at(b, at);
            if left < right {
                out = Standing::Below;
            } else if left > right {
                out = Standing::Above;
            }
        }
    }
    assert(a@.skip(0) =~= a@ && b@.skip(0) =~= b@);
    out
}

/// One number less another.
pub fn minus(a: &Vec<u32>, b: &Vec<u32>) -> (out: Vec<u32>)
    requires
        value(b@) <= value(a@),
    ensures
        value(out@) == value(a@) - value(b@),
{
    let most: usize = if a.len() < b.len() {
        b.len()
    } else {
        a.len()
    };
    let mut out: Vec<u32> = Vec::new();
    let mut borrow: u64 = 0;
    proof {
        assert(value(a@.take(0)) == 0 && value(b@.take(0)) == 0);
        assert(pow2(0) * borrow == 0) by (nonlinear_arith)
            requires
                borrow == 0,
        ;
    }
    for i in 0..most
        invariant
            out@.len() == i,
            borrow <= 1,
            lower(a@, i as int) + pow2(32 * i as nat) * borrow == value(out@) + lower(b@, i as int),
    {
        let left: u64 = limb_at(a, i) as u64;
        let right: u64 = limb_at(b, i) as u64 + borrow;
        let (low, owed): (u64, u64) = if left >= right {
            (left - right, 0)
        } else {
            (left + BASE - right, 1)
        };
        proof {
            let p = pow2(32 * i as nat) as int;
            lower_unfolds(a@, i as int);
            lower_unfolds(b@, i as int);
            a_limb_on_top(out@, low as u32);
            lemma2_to64();
            lemma_pow2_adds(32, 32 * i as nat);
            assert(pow2(32 * (i + 1) as nat) == BASE * p);
            let x = limb(a@, i as int) as int;
            let y = limb(b@, i as int) as int;
            assert((lower(a@, i as int) + p * x) + (BASE * p) * owed == (value(out@) + p * low) + (
            lower(b@, i as int) + p * y)) by (nonlinear_arith)
                requires
                    lower(a@, i as int) + p * borrow == value(out@) + lower(b@, i as int),
                    x + BASE * owed == low + y + borrow,
            ;
        }
        out.push(low as u32);
        borrow = owed;
    }
    proof {
        limbs_hold(out@);
        assert(lower(a@, most as int) == value(a@)) by {
            assert(a@.take(a@.len() as int) =~= a@);
        }
        assert(lower(b@, most as int) == value(b@)) by {
            assert(b@.take(b@.len() as int) =~= b@);
        }
        lemma_pow2_pos(32 * most as nat);
        assert(borrow == 0) by {
            if borrow == 1 {
                assert(pow2(32 * most as nat) * borrow == pow2(32 * most as nat))
                    by (nonlinear_arith)
                    requires
                        borrow == 1,
                ;
            }
        }
        assert(pow2(32 * most as nat) * borrow == 0) by (nonlinear_arith)
            requires
                borrow == 0,
        ;
    }
    out
}

} // verus!
