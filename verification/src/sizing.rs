//! Proportional position sizing and per-instrument risk clamps.
//!
//! The client's target is `round(master_net × client_balance / master_balance ×
//! multiplier)`, computed exactly on fixed-point integers (rounding half away from zero),
//! then clamped by the configured risk limits.

use vstd::prelude::*;

use crate::model::{MAX_QTY, PRICE_SCALE};

verus! {

/// Inputs that scale a master net quantity into a client target net quantity.
#[derive(Debug, Clone, Copy)]
pub struct SizingParams {
    /// User multiplier, fixed-point (`PRICE_SCALE` is 1.0x).
    pub multiplier: i64,
    /// Master NetLiquidation (fixed-point).
    pub master_balance: i64,
    /// Client NetLiquidation (fixed-point).
    pub client_balance: i64,
    /// Cap on absolute notional per instrument (fixed-point). `0` disables.
    pub max_position_notional: i64,
    /// Hard cap on absolute share count per instrument. `0` disables.
    pub max_position_qty: i64,
    /// When the master holds a non-zero position that scales below one share,
    /// still take a one-share position in the master's direction.
    pub force_min_one: bool,
}

impl Default for SizingParams {
    fn default() -> (r: SizingParams)
        ensures
            r.multiplier == PRICE_SCALE,
            r.master_balance == 0,
            r.client_balance == 0,
            r.max_position_notional == 0,
            r.max_position_qty == 0,
            r.force_min_one,
    {
        SizingParams {
            multiplier: PRICE_SCALE,
            master_balance: 0,
            client_balance: 0,
            max_position_notional: 0,
            max_position_qty: 0,
            force_min_one: true,
        }
    }
}

/// Balances are known (both positive), so proportional sizing is defined.
pub open spec fn balances_known(p: SizingParams) -> bool {
    p.master_balance > 0 && p.client_balance > 0
}

impl SizingParams {
    /// Proportional ratio `client_balance / master_balance` as a (numerator, denominator)
    /// pair, or `None` if balances are not yet known (in which case the caller must not
    /// trade).
    pub fn ratio(&self) -> (r: Option<(i64, i64)>)
        ensures
            r == (if balances_known(*self) {
                Some((self.client_balance, self.master_balance))
            } else {
                None
            }),
    {
        if self.master_balance <= 0 || self.client_balance <= 0 {
            None
        } else {
            Some((self.client_balance, self.master_balance))
        }
    }
}

/// `num / den` rounded to the nearest integer, halves away from zero.
pub open spec fn round_half_away(num: int, den: int) -> int {
    if num >= 0 {
        (2 * num + den) / (2 * den)
    } else {
        -((2 * (-num) + den) / (2 * den))
    }
}

/// Largest absolute numerator the exact scaling accepts.
pub open spec fn scaling_limit() -> int {
    0x1_0000_0000_0000_0000_0000_0000_0000_00 // 2^120
}

/// The sign of `x` as -1, 0 or 1.
pub open spec fn sgn(x: int) -> int {
    if x > 0 {
        1
    } else if x < 0 {
        -1
    } else {
        0
    }
}

pub open spec fn abs(x: int) -> int {
    if x < 0 {
        -x
    } else {
        x
    }
}

/// The exact proportional target before clamping: `master_net × client_balance ×
/// multiplier / (master_balance × PRICE_SCALE)`, rounded half away from zero.
pub open spec fn scaled_target(master_net: int, p: SizingParams) -> int {
    round_half_away(
        master_net * p.client_balance * p.multiplier,
        p.master_balance * PRICE_SCALE,
    )
}

/// The risk clamps applied to a rounded target `t`.
pub open spec fn clamp_target(t: int, master_net: int, price: int, p: SizingParams) -> int {
    // Keep participation when the master is in the market but scaling rounds to zero.
    let t1 = if t == 0 && master_net != 0 && p.force_min_one {
        sgn(master_net)
    } else {
        t
    };
    // Absolute share cap.
    let t2 = if p.max_position_qty > 0 && abs(t1) > p.max_position_qty {
        p.max_position_qty * sgn(t1)
    } else {
        t1
    };
    // Notional cap.
    if p.max_position_notional > 0 && price > 0 {
        let max_by_notional = (p.max_position_notional as int) / price;
        if abs(t2) > max_by_notional {
            max_by_notional * sgn(t2)
        } else {
            t2
        }
    } else {
        t2
    }
}

/// The client's target signed net quantity for one instrument: `None` when balances are
/// unknown, or when the exact scaling leaves the range the engine deals in.
pub open spec fn target_spec(master_net: int, price: int, p: SizingParams) -> Option<int> {
    if !balances_known(p) {
        None
    } else if abs(master_net * p.client_balance * p.multiplier) > scaling_limit() {
        None
    } else {
        let t = clamp_target(scaled_target(master_net, p), master_net, price, p);
        if abs(t) > MAX_QTY {
            None
        } else {
            Some(t)
        }
    }
}

/// The widened value of an optional share count.
pub open spec fn opt_int(o: Option<i64>) -> Option<int> {
    match o {
        Some(v) => Some(v as int),
        None => None,
    }
}

/// Round `num / den` to a whole number, half away from zero, preserving sign.
pub fn round_qty(num: i128, den: i128) -> (r: i128)
    requires
        den > 0,
        -scaling_limit() <= num <= scaling_limit(),
        den <= scaling_limit(),
    ensures
        r == round_half_away(num as int, den as int),
{
    if num >= 0 {
        (2 * num + den) / (2 * den)
    } else {
        -((2 * (-num) + den) / (2 * den))
    }
}

/// Rounding is within half a unit of the exact quotient: `|num/den - r| <= 1/2`.
pub proof fn law_round_within_half(num: int, den: int)
    requires
        den > 0,
    ensures
        -den <= 2 * num - 2 * den * round_half_away(num, den) <= den,
{
    if num >= 0 {
        let q = (2 * num + den) / (2 * den);
        let rem = (2 * num + den) % (2 * den);
        assert(2 * num + den == 2 * den * q + rem && 0 <= rem < 2 * den) by (nonlinear_arith)
            requires
                den > 0,
                q == (2 * num + den) / (2 * den),
                rem == (2 * num + den) % (2 * den),
        ;
        assert(round_half_away(num, den) == q);
        assert(2 * num - 2 * den * q == rem - den);
    } else {
        let m = -num;
        let q = (2 * m + den) / (2 * den);
        let rem = (2 * m + den) % (2 * den);
        assert(2 * m + den == 2 * den * q + rem && 0 <= rem < 2 * den) by (nonlinear_arith)
            requires
                den > 0,
                q == (2 * m + den) / (2 * den),
                rem == (2 * m + den) % (2 * den),
        ;
        assert(round_half_away(num, den) == -q);
        assert(2 * den * (-q) == -(2 * den * q)) by (nonlinear_arith);
        assert(2 * num - 2 * den * (-q) == den - rem);
    }
}

/// Rounding is odd: `round(-x) == -round(x)`.
pub proof fn law_round_is_odd(num: int, den: int)
    requires
        den > 0,
    ensures
        round_half_away(-num, den) == -round_half_away(num, den),
{
    if num == 0 {
        assert((2 * 0 + den) / (2 * den) == 0) by (nonlinear_arith)
            requires
                den > 0,
        ;
    }
}

/// Compute the client's **target signed net quantity** for one instrument.
///
/// Returns `None` if balances are unknown (caller must skip trading). The result is
/// rounded to whole shares and clamped by the configured risk limits. `price` (the
/// master avg cost or a reference price) is used for the notional clamp; pass `0`
/// to disable notional-based clamping for this call.
pub fn target_net_qty(master_net: i64, price: i64, p: &SizingParams) -> (r: Option<i64>)
    ensures
        opt_int(r) == target_spec(master_net as int, price as int, *p),
{
    if p.ratio().is_none() {
        return None;
    }
    let ghost exact = (master_net as int) * (p.client_balance as int) * (p.multiplier as int);
    proof {
        lemma_i64_product_fits(master_net as int, p.client_balance as int);
    }
    let prod = (master_net as i128) * (p.client_balance as i128);
    let big: i128 = 0x1_0000_0000_0000_0000_0000_0000_0000_00;
    let num = match prod.checked_mul(p.multiplier as i128) {
        Some(v) => v,
        None => {
            return None;
        },
    };
    assert(num == exact);
    if num > big || num < -big {
        return None;
    }
    proof {
        lemma_i64_product_fits(p.master_balance as int, PRICE_SCALE as int);
    }
    let den = (p.master_balance as i128) * (PRICE_SCALE as i128);
    let mut target = round_qty(num, den);
    proof {
        lemma_round_bounded(num as int, den as int);
    }
    let ghost t0 = target as int;
    assert(t0 == scaled_target(master_net as int, *p));
    // Keep participation when the master is in the market but scaling rounds to zero.
    if target == 0 && master_net != 0 && p.force_min_one {
        target = if master_net > 0 {
            1
        } else {
            -1
        };
    }
    let ghost t1 = target as int;
    assert(t1 == (if t0 == 0 && master_net != 0 && p.force_min_one {
        sgn(master_net as int)
    } else {
        t0
    }));
    // Absolute share cap.
    if p.max_position_qty > 0 {
        let cap = p.max_position_qty as i128;
        if target > cap {
            target = cap;
        } else if target < -cap {
            target = -cap;
        }
    }
    let ghost t2 = target as int;
    assert(t2 == (if p.max_position_qty > 0 && abs(t1) > p.max_position_qty {
        p.max_position_qty * sgn(t1)
    } else {
        t1
    }));
    // Notional cap.
    if p.max_position_notional > 0 && price > 0 {
        let max_by_notional = (p.max_position_notional / price) as i128;
        if target > max_by_notional {
            target = max_by_notional;
        } else if target < -max_by_notional {
            target = -max_by_notional;
        }
    }
    assert(target as int == clamp_target(t0, master_net as int, price as int, *p));
    if target > MAX_QTY as i128 || target < -(MAX_QTY as i128) {
        return None;
    }
    Some(target as i64)
}

/// The product of two 64-bit values fits in 128 bits.
proof fn lemma_i64_product_fits(a: int, b: int)
    requires
        -0x8000_0000_0000_0000 <= a <= 0x7fff_ffff_ffff_ffff,
        -0x8000_0000_0000_0000 <= b <= 0x7fff_ffff_ffff_ffff,
    ensures
        -0x4000_0000_0000_0000_0000_0000_0000_0000 <= a * b <= 0x4000_0000_0000_0000_0000_0000_0000_0000,
{
    assert(-0x4000_0000_0000_0000_0000_0000_0000_0000 <= a * b <= 0x4000_0000_0000_0000_0000_0000_0000_0000) by (nonlinear_arith)
        requires
            -0x8000_0000_0000_0000 <= a <= 0x7fff_ffff_ffff_ffff,
            -0x8000_0000_0000_0000 <= b <= 0x7fff_ffff_ffff_ffff,
    ;
}

/// The rounded quotient of an in-range numerator stays in range.
proof fn lemma_round_bounded(num: int, den: int)
    requires
        den >= 1,
        -scaling_limit() <= num <= scaling_limit(),
    ensures
        -scaling_limit() <= round_half_away(num, den) <= scaling_limit(),
{
    if num >= 0 {
        assert(0 <= (2 * num + den) / (2 * den) <= num) by (nonlinear_arith)
            requires
                den >= 1,
                num >= 0,
        ;
    } else {
        let m = -num;
        assert(0 <= (2 * m + den) / (2 * den) <= m) by (nonlinear_arith)
            requires
                den >= 1,
                m >= 1,
        ;
    }
}

/// The rounded quotient has the sign of the numerator, or is zero.
proof fn lemma_round_sign(num: int, den: int)
    requires
        den >= 1,
    ensures
        num >= 0 ==> round_half_away(num, den) >= 0,
        num <= 0 ==> round_half_away(num, den) <= 0,
        num == 0 ==> round_half_away(num, den) == 0,
{
    if num >= 0 {
        assert((2 * num + den) / (2 * den) >= 0) by (nonlinear_arith)
            requires
                den >= 1,
                num >= 0,
        ;
        if num == 0 {
            assert(den / (2 * den) == 0) by (nonlinear_arith)
                requires
                    den >= 1,
            ;
        }
    } else {
        let m = -num;
        assert((2 * m + den) / (2 * den) >= 0) by (nonlinear_arith)
            requires
                den >= 1,
                m >= 1,
        ;
    }
}

/// The sizing promises: the target never points against the master (and is flat when
/// the master is flat); it respects the share cap and the notional cap; and with no cap
/// set, a master in the market gives at least one share under `force_min_one`.
pub proof fn law_target_sign_and_caps(master_net: int, price: int, p: SizingParams)
    requires
        p.multiplier >= 0,
        p.max_position_qty >= 0,
        p.max_position_notional >= 0,
        price >= 0,
    ensures
        target_spec(master_net, price, p) matches Some(t) ==> {
            &&& t * master_net >= 0
            &&& (master_net > 0 ==> t >= 0)
            &&& (master_net < 0 ==> t <= 0)
            &&& (master_net == 0 ==> t == 0)
            &&& (p.max_position_qty > 0 ==> abs(t) <= p.max_position_qty)
            &&& (p.max_position_notional > 0 && price > 0 ==> abs(t) * price <= p.max_position_notional)
            &&& (master_net != 0 && p.force_min_one && p.max_position_qty == 0
                && (p.max_position_notional == 0 || price == 0) ==> t != 0)
        },
{
    if target_spec(master_net, price, p) is Some {
        let num = master_net * p.client_balance * p.multiplier;
        let den = p.master_balance * PRICE_SCALE;
        assert(den >= 1) by (nonlinear_arith)
            requires
                p.master_balance > 0,
                den == p.master_balance * 10000,
        ;
        assert(master_net >= 0 ==> num >= 0) by (nonlinear_arith)
            requires
                num == master_net * p.client_balance * p.multiplier,
                p.client_balance > 0,
                p.multiplier >= 0,
        ;
        assert(master_net <= 0 ==> num <= 0) by (nonlinear_arith)
            requires
                num == master_net * p.client_balance * p.multiplier,
                p.client_balance > 0,
                p.multiplier >= 0,
        ;
        lemma_round_sign(num, den);
        let t = scaled_target(master_net, p);
        let t1 = if t == 0 && master_net != 0 && p.force_min_one {
            sgn(master_net)
        } else {
            t
        };
        let t2 = if p.max_position_qty > 0 && abs(t1) > p.max_position_qty {
            p.max_position_qty * sgn(t1)
        } else {
            t1
        };
        let r = clamp_target(t, master_net, price, p);
        if p.max_position_qty > 0 && abs(t1) > p.max_position_qty {
            if t1 > 0 {
                assert(sgn(t1) == 1);
                assert(t2 == p.max_position_qty) by (nonlinear_arith)
                    requires
                        t2 == p.max_position_qty * sgn(t1),
                        sgn(t1) == 1,
                ;
            } else {
                assert(sgn(t1) == -1);
                assert(t2 == -p.max_position_qty) by (nonlinear_arith)
                    requires
                        t2 == p.max_position_qty * sgn(t1),
                        sgn(t1) == -1,
                ;
            }
        }
        assert(master_net > 0 ==> t1 >= 0 && t2 >= 0);
        assert(master_net < 0 ==> t1 <= 0 && t2 <= 0);
        assert(master_net == 0 ==> t1 == 0 && t2 == 0);
        if p.max_position_notional > 0 && price > 0 {
            let mbn0 = (p.max_position_notional as int) / price;
            assert(mbn0 >= 0) by (nonlinear_arith)
                requires
                    mbn0 == (p.max_position_notional as int) / price,
                    price > 0,
                    p.max_position_notional > 0,
            ;
            if abs(t2) > mbn0 {
                assert(r == mbn0 * sgn(t2));
                if t2 > 0 {
                    assert(sgn(t2) == 1);
                    assert(r == mbn0) by (nonlinear_arith)
                        requires
                            r == mbn0 * sgn(t2),
                            sgn(t2) == 1,
                    ;
                } else {
                    assert(sgn(t2) == -1);
                    assert(r == -mbn0) by (nonlinear_arith)
                        requires
                            r == mbn0 * sgn(t2),
                            sgn(t2) == -1,
                    ;
                }
            }
        }
        assert(master_net > 0 ==> r >= 0);
        assert(master_net < 0 ==> r <= 0);
        assert(p.max_position_qty > 0 ==> abs(t2) <= p.max_position_qty);
        assert(abs(r) <= abs(t2));
        assert(master_net == 0 ==> r == 0);
        if p.max_position_notional > 0 && price > 0 {
            let mbn = (p.max_position_notional as int) / price;
            assert(mbn >= 0 && mbn * price <= p.max_position_notional) by (nonlinear_arith)
                requires
                    mbn == (p.max_position_notional as int) / price,
                    price > 0,
                    p.max_position_notional > 0,
            ;
            if abs(t2) > mbn {
                assert(r == mbn * sgn(t2));
                if t2 > 0 {
                    assert(sgn(t2) == 1);
                    assert(r == mbn) by (nonlinear_arith)
                        requires
                            r == mbn * sgn(t2),
                            sgn(t2) == 1,
                    ;
                } else {
                    assert(sgn(t2) == -1);
                    assert(r == -mbn) by (nonlinear_arith)
                        requires
                            r == mbn * sgn(t2),
                            sgn(t2) == -1,
                    ;
                }
            } else {
                assert(abs(r) * price <= mbn * price) by (nonlinear_arith)
                    requires
                        abs(r) <= mbn,
                        price > 0,
                ;
            }
        }
        assert(r * master_net >= 0) by (nonlinear_arith)
            requires
                master_net > 0 ==> r >= 0,
                master_net < 0 ==> r <= 0,
        ;
    }
}

} // verus!
