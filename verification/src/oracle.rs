//! Dual-oracle mark-price reconciliation, computed from plain readings.
//! The host deserializes the two feed accounts and hands their fields in;
//! the staleness gates, scaling, deviation band and fallback are decided
//! here.
use crate::errors::ErrorCode;
use crate::math::clamp_i128;
use crate::math::div_trunc;
use crate::math::div_trunc_or_zero;
use crate::math::sat_mul_i128;
use crate::math::sat_sub_i128;
use vstd::prelude::*;

verus! {

/// Width of the band, in basis points, within which the two feeds are
/// averaged; beyond it the primary feed wins.
pub const MAX_DEVIATION_BPS: i128 = 50;

/// Ten to the `n`-th.
pub open spec fn pow10(n: nat) -> int
    decreases n,
{
    if n == 0 {
        1
    } else {
        10 * pow10((n - 1) as nat)
    }
}

/// Powers of ten grow monotonically.
proof fn lemma_pow10_mono(i: nat, j: nat)
    requires
        i <= j,
    ensures
        1 <= pow10(i) <= pow10(j),
    decreases j,
{
    if j == 0 {
    } else if i == j {
        lemma_pow10_mono(0, (j - 1) as nat);
        assert(pow10(j) == 10 * pow10((j - 1) as nat));
        assert(pow10(j) >= pow10((j - 1) as nat)) by (nonlinear_arith)
            requires
                pow10(j) == 10 * pow10((j - 1) as nat) && pow10((j - 1) as nat) >= 1,
        ;
    } else {
        lemma_pow10_mono(i, (j - 1) as nat);
        assert(pow10(j) == 10 * pow10((j - 1) as nat));
        assert(pow10(j) >= pow10((j - 1) as nat)) by (nonlinear_arith)
            requires
                pow10(j) == 10 * pow10((j - 1) as nat) && pow10((j - 1) as nat) >= 1,
        ;
    }
}

/// The scaled value of a secondary-feed reading: its mantissa times ten to
/// its scale.
pub open spec fn secondary_scaled(mantissa: i128, scale: u32) -> int {
    mantissa * pow10(scale as nat)
}

/// Whether that value exists: the power and the product both fit `i128`.
pub open spec fn secondary_in_range(mantissa: i128, scale: u32) -> bool {
    &&& pow10(scale as nat) <= i128::MAX
    &&& i128::MIN <= secondary_scaled(mantissa, scale) <= i128::MAX
}

/// One reading of the secondary (pull-based) oracle feed, as plain values:
/// the decimal `mantissa * 10^-scale` is reported here as mantissa and
/// scale, with the feed's staleness and sample count beside it.
#[derive(Clone, Copy, Debug)]
pub struct SecondaryReading {
    pub mantissa: i128,
    pub scale: u32,
    /// Slots elapsed since the feed last updated.
    pub slots_stale: u64,
    /// Number of samples behind the reported value.
    pub num_samples: u32,
}

/// Gate and scale a secondary-feed reading: the feed must be at most
/// `max_stale_slots` old and carry at least `min_samples` samples, and
/// `mantissa * 10^scale` must fit `i128`; any failure is
/// `InvalidPriceFeed`.
pub fn get_switchboard_price(
    reading: SecondaryReading,
    max_stale_slots: u64,
    min_samples: u32,
) -> (r: Result<i128, ErrorCode>)
    ensures
        match r {
            Ok(v) => {
                &&& reading.slots_stale <= max_stale_slots
                &&& reading.num_samples >= min_samples
                &&& secondary_in_range(reading.mantissa, reading.scale)
                &&& v as int == secondary_scaled(reading.mantissa, reading.scale)
            },
            Err(e) => {
                &&& e == ErrorCode::InvalidPriceFeed
                &&& (reading.slots_stale > max_stale_slots || reading.num_samples < min_samples
                    || !secondary_in_range(reading.mantissa, reading.scale))
            },
        },
{
    if reading.slots_stale > max_stale_slots || reading.num_samples < min_samples {
        return Err(ErrorCode::InvalidPriceFeed);
    }
    let mut power: i128 = 1;
    let mut i: u32 = 0;
    while i < reading.scale
        invariant
            0 <= i <= reading.scale,
            power as int == pow10(i as nat),
            power >= 1,
        decreases reading.scale - i,
    {
        power = match power.checked_mul(10) {
            Some(p) => p,
            None => {
                proof {
                    lemma_pow10_mono((i + 1) as nat, reading.scale as nat);
                }
                return Err(ErrorCode::InvalidPriceFeed);
            },
        };
        i = i + 1;
    }
    match reading.mantissa.checked_mul(power) {
        Some(v) => Ok(v),
        None => Err(ErrorCode::InvalidPriceFeed),
    }
}

/// Absolute value over mathematical integers.
pub open spec fn abs_int(x: int) -> int {
    if x >= 0 {
        x
    } else {
        -x
    }
}

/// The absolute gap between the two prices, clamped as the saturating
/// subtraction computes it.
pub open spec fn price_gap(p: int, s: int) -> int {
    if p >= s {
        clamp_i128(p - s)
    } else {
        clamp_i128(s - p)
    }
}

/// The gap expressed in basis points of the primary price, or a full
/// 10,000 when the primary is zero.
pub open spec fn deviation_bps(p: int, s: int) -> int {
    if p == 0 {
        10_000
    } else {
        div_trunc(clamp_i128(price_gap(p, s) * 10_000), abs_int(p))
    }
}

/// The reconciled mark price: the average of the two feeds when they agree
/// to within [`MAX_DEVIATION_BPS`], else the primary alone.
pub open spec fn reconciled_price(p: int, s: int) -> int {
    if deviation_bps(p, s) <= MAX_DEVIATION_BPS {
        div_trunc(p + s, 2)
    } else {
        p
    }
}

/// Reconcile the two oracle feeds into one mark price.
///
/// The primary reading must be no older than `max_age` seconds (a reading
/// exactly `max_age` old is accepted); otherwise `StalePrice`. The
/// secondary reading is gated as [`get_switchboard_price`] does. When the
/// two disagree by at most [`MAX_DEVIATION_BPS`] basis points of the
/// primary, the result is their average, rounded toward zero; otherwise it
/// is the primary alone. Averaging that would overflow `i128` is
/// `Overflow`.
pub fn get_mark_price(
    primary_price: i64,
    primary_publish_time: i64,
    now: i64,
    max_age: i64,
    secondary: SecondaryReading,
    max_stale_slots: u64,
    min_samples: u32,
) -> (r: Result<i128, ErrorCode>)
    ensures
        ({
            let fresh = now - primary_publish_time <= max_age;
            let gated = secondary.slots_stale <= max_stale_slots && secondary.num_samples
                >= min_samples && secondary_in_range(secondary.mantissa, secondary.scale);
            let s = secondary_scaled(secondary.mantissa, secondary.scale);
            match r {
                Ok(v) => {
                    &&& fresh
                    &&& gated
                    &&& i128::MIN <= primary_price + s <= i128::MAX || deviation_bps(
                        primary_price as int,
                        s,
                    ) > MAX_DEVIATION_BPS
                    &&& v as int == reconciled_price(primary_price as int, s)
                },
                Err(e) => {
                    &&& (e == ErrorCode::StalePrice <==> !fresh)
                    &&& (e == ErrorCode::InvalidPriceFeed <==> fresh && !gated)
                    &&& (e == ErrorCode::Overflow <==> fresh && gated && deviation_bps(
                        primary_price as int,
                        s,
                    ) <= MAX_DEVIATION_BPS && !(i128::MIN <= primary_price + s <= i128::MAX))
                    &&& (e == ErrorCode::StalePrice || e == ErrorCode::InvalidPriceFeed || e
                        == ErrorCode::Overflow)
                },
            }
        }),
{
    let age: i128 = (now as i128) - (primary_publish_time as i128);
    if age > max_age as i128 {
        return Err(ErrorCode::StalePrice);
    }
    let sb_price = match get_switchboard_price(secondary, max_stale_slots, min_samples) {
        Ok(v) => v,
        Err(e) => {
            return Err(e);
        },
    };
    let p: i128 = primary_price as i128;
    let diff: i128 = if p >= sb_price {
        sat_sub_i128(p, sb_price)
    } else {
        sat_sub_i128(sb_price, p)
    };
    let deviation: i128 = if p != 0 {
        let scaled = sat_mul_i128(diff, 10_000);
        let p_abs: i128 = if p >= 0 {
            p
        } else {
            -p
        };
        div_trunc_or_zero(scaled, p_abs)
    } else {
        10_000
    };
    if deviation <= MAX_DEVIATION_BPS {
        let sum = match p.checked_add(sb_price) {
            Some(v) => v,
            None => {
                return Err(ErrorCode::Overflow);
            },
        };
        let half = div_trunc_or_zero(sum, 2);
        Ok(half)
    } else {
        Ok(p)
    }
}

} // verus!
