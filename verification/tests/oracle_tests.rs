//! Mark-price reconciliation: staleness gates, the deviation band, and the
//! primary fallback.
use perps_dex::errors::ErrorCode;
use perps_dex::oracle::get_mark_price;
use perps_dex::oracle::get_switchboard_price;
use perps_dex::oracle::SecondaryReading;

fn fresh_secondary(mantissa: i128) -> SecondaryReading {
    SecondaryReading {
        mantissa,
        scale: 0,
        slots_stale: 0,
        num_samples: 5,
    }
}

#[test]
fn primary_exactly_at_max_age_is_accepted() {
    let r = get_mark_price(100, 100, 200, 100, fresh_secondary(100), 5, 3);
    assert_eq!(r.unwrap(), 100);
}

#[test]
fn primary_strictly_beyond_max_age_is_stale() {
    let r = get_mark_price(100, 99, 200, 100, fresh_secondary(100), 5, 3);
    assert_eq!(r.unwrap_err(), ErrorCode::StalePrice);
}

#[test]
fn feeds_within_band_are_averaged() {
    // Gap 30 of 10000 is 30 bps, inside the 50 bps band: average.
    let r = get_mark_price(10_000, 100, 100, 100, fresh_secondary(10_030), 5, 3);
    assert_eq!(r.unwrap(), 10_015);
}

#[test]
fn feeds_beyond_band_fall_back_to_primary() {
    // Gap 200 of 10000 is 200 bps: the primary wins.
    let r = get_mark_price(10_000, 100, 100, 100, fresh_secondary(10_200), 5, 3);
    assert_eq!(r.unwrap(), 10_000);
}

#[test]
fn zero_primary_counts_as_full_deviation() {
    let r = get_mark_price(0, 100, 100, 100, fresh_secondary(10_000), 5, 3);
    assert_eq!(r.unwrap(), 0);
}

#[test]
fn stale_secondary_is_invalid() {
    let reading = SecondaryReading {
        mantissa: 100,
        scale: 0,
        slots_stale: 6,
        num_samples: 5,
    };
    let r = get_mark_price(100, 100, 100, 100, reading, 5, 3);
    assert_eq!(r.unwrap_err(), ErrorCode::InvalidPriceFeed);
}

#[test]
fn thin_secondary_is_invalid() {
    let reading = SecondaryReading {
        mantissa: 100,
        scale: 0,
        slots_stale: 0,
        num_samples: 2,
    };
    let r = get_mark_price(100, 100, 100, 100, reading, 5, 3);
    assert_eq!(r.unwrap_err(), ErrorCode::InvalidPriceFeed);
}

#[test]
fn secondary_scaling_multiplies_by_powers_of_ten() {
    let reading = SecondaryReading {
        mantissa: 123,
        scale: 3,
        slots_stale: 0,
        num_samples: 5,
    };
    assert_eq!(get_switchboard_price(reading, 5, 3).unwrap(), 123_000);
}

#[test]
fn secondary_scaling_overflow_is_invalid() {
    let reading = SecondaryReading {
        mantissa: i128::MAX / 2,
        scale: 2,
        slots_stale: 0,
        num_samples: 5,
    };
    assert_eq!(
        get_switchboard_price(reading, 5, 3).unwrap_err(),
        ErrorCode::InvalidPriceFeed
    );
}

#[test]
fn average_truncates_toward_zero() {
    // Negative feeds inside the band: (-3 + -3) / 2 = -3.
    let r = get_mark_price(-3, 100, 100, 100, fresh_secondary(-3), 5, 3);
    assert_eq!(r.unwrap(), -3);
}
