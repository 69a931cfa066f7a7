use vstd::prelude::*;

verus! {

// A datetime cell carries milliseconds since the epoch.  The civil
// (proleptic Gregorian) parts are integer formulas over whole days and
// the time of day; the spec-level `/` and `%` on `int` are Euclidean, so
// with positive divisors they round toward negative infinity, which is
// what calendar arithmetic needs.

pub open spec fn days_of_ms(ms: int) -> int {
    ms / 86_400_000
}

pub open spec fn time_of_day_ms(ms: int) -> int {
    ms % 86_400_000
}

pub open spec fn hour_of_ms(ms: int) -> int {
    time_of_day_ms(ms) / 3_600_000
}

pub open spec fn minute_of_ms(ms: int) -> int {
    (time_of_day_ms(ms) / 60_000) % 60
}

pub open spec fn second_of_ms(ms: int) -> int {
    (time_of_day_ms(ms) / 1_000) % 60
}

/// Days since the epoch, shifted so that day 0 is 0000-03-01.
pub open spec fn era_of_ms(ms: int) -> int {
    (days_of_ms(ms) + 719_468) / 146_097
}

/// Day within the 400-year era, in `[0, 146097)`.
pub open spec fn doe_of_ms(ms: int) -> int {
    (days_of_ms(ms) + 719_468) % 146_097
}

/// Year within the era, in `[0, 400)`.
pub open spec fn yoe_of_ms(ms: int) -> int {
    (doe_of_ms(ms) - doe_of_ms(ms) / 1_460 + doe_of_ms(ms) / 36_524 - doe_of_ms(ms) / 146_096)
        / 365
}

/// Day of the shifted year, in `[0, 366)`.
pub open spec fn doy_of_ms(ms: int) -> int {
    doe_of_ms(ms) - (365 * yoe_of_ms(ms) + yoe_of_ms(ms) / 4 - yoe_of_ms(ms) / 100)
}

/// Shifted month index, `0` for March through `11` for February.
pub open spec fn mp_of_ms(ms: int) -> int {
    (5 * doy_of_ms(ms) + 2) / 153
}

/// Day of month, starting at 1.
pub open spec fn day_of_ms(ms: int) -> int {
    doy_of_ms(ms) - (153 * mp_of_ms(ms) + 2) / 5 + 1
}

/// Month of year, 1 through 12.
pub open spec fn month_of_ms(ms: int) -> int {
    if mp_of_ms(ms) < 10 {
        mp_of_ms(ms) + 3
    } else {
        mp_of_ms(ms) - 9
    }
}

/// Civil year.
pub open spec fn year_of_ms(ms: int) -> int {
    yoe_of_ms(ms) + era_of_ms(ms) * 400 + (if month_of_ms(ms) <= 2 {
        1int
    } else {
        0int
    })
}

/// Floor division by a positive divisor.
pub fn fdiv128(a: i128, d: i128) -> (q: i128)
    requires
        0 < d,
        -0x4000_0000_0000_0000_0000_0000_0000_0000 <= a
            <= 0x4000_0000_0000_0000_0000_0000_0000_0000 - 1,
    ensures
        q == a as int / d as int,
        a as int - d < (q as int) * (d as int) <= a as int,
        -0x4000_0000_0000_0000_0000_0000_0000_0001 <= q
            <= 0x3fff_ffff_ffff_ffff_ffff_ffff_ffff_ffff,
{
    let q: i128 = if a >= 0 {
        (a as u128 / d as u128) as i128
    } else {
        let m: u128 = (-a) as u128;
        let qm: u128 = m / d as u128;
        let rm: u128 = m % d as u128;
        if rm == 0 {
            -(qm as i128)
        } else {
            -(qm as i128) - 1
        }
    };
    proof {
        if a >= 0 {
            vstd::arithmetic::div_mod::lemma_fundamental_div_mod(a as int, d as int);
        } else {
            let m = -(a as int);
            vstd::arithmetic::div_mod::lemma_fundamental_div_mod(m, d as int);
            vstd::arithmetic::div_mod::lemma_mod_bound(m, d as int);
            let qm = m / d as int;
            let rm = m % d as int;
            if rm == 0 {
                assert(a as int == (-qm) * (d as int) + 0) by (nonlinear_arith)
                    requires
                        a as int == -m,
                        m == (d as int) * qm + rm,
                        rm == 0,
                ;
                vstd::arithmetic::div_mod::lemma_fundamental_div_mod_converse(
                    a as int,
                    d as int,
                    -qm,
                    0,
                );
            } else {
                assert(a as int == (-qm - 1) * (d as int) + ((d as int) - rm)) by (nonlinear_arith)
                    requires
                        a as int == -m,
                        m == (d as int) * qm + rm,
                ;
                vstd::arithmetic::div_mod::lemma_fundamental_div_mod_converse(
                    a as int,
                    d as int,
                    -qm - 1,
                    (d as int) - rm,
                );
            }
        }
        vstd::arithmetic::div_mod::lemma_fundamental_div_mod(a as int, d as int);
        vstd::arithmetic::div_mod::lemma_mod_bound(a as int, d as int);
        assert((a as int / d as int) * (d as int) == a as int - (a as int % d as int))
            by (nonlinear_arith)
            requires
                a as int == (d as int) * (a as int / d as int) + (a as int % d as int),
        ;
        assert(-0x4000_0000_0000_0000_0000_0000_0000_0001 <= q as int
            <= 0x3fff_ffff_ffff_ffff_ffff_ffff_ffff_ffff) by (nonlinear_arith)
            requires
                d as int >= 1,
                (a as int) - (d as int) < (q as int) * (d as int) <= a as int,
                -0x4000_0000_0000_0000_0000_0000_0000_0000 <= a as int
                    <= 0x4000_0000_0000_0000_0000_0000_0000_0000 - 1,
        ;
    }
    q
}

/// Floor remainder by a positive divisor.
pub fn fmod128(a: i128, d: i128) -> (r: i128)
    requires
        0 < d <= 0x8000_0000_0000_0000,
        -0x4000_0000_0000_0000_0000_0000_0000_0000 <= a
            <= 0x4000_0000_0000_0000_0000_0000_0000_0000 - 1,
    ensures
        r == a as int % d as int,
        0 <= r < d,
{
    if a >= 0 {
        let r = (a as u128 % d as u128) as i128;
        proof {
            vstd::arithmetic::div_mod::lemma_fundamental_div_mod(a as int, d as int);
            vstd::arithmetic::div_mod::lemma_mod_bound(a as int, d as int);
        }
        r
    } else {
        let m: u128 = (-a) as u128;
        let qm: u128 = m / (d as u128);
        let rm: u128 = m % (d as u128);
        proof {
            let mi = m as int;
            vstd::arithmetic::div_mod::lemma_fundamental_div_mod(mi, d as int);
            vstd::arithmetic::div_mod::lemma_mod_bound(mi, d as int);
            if rm == 0 {
                assert(a as int == (-(qm as int)) * (d as int) + 0) by (nonlinear_arith)
                    requires
                        a as int == -(m as int),
                        m as int == (d as int) * (qm as int) + (rm as int),
                        rm as int == 0,
                ;
                vstd::arithmetic::div_mod::lemma_fundamental_div_mod_converse(
                    a as int,
                    d as int,
                    -(qm as int),
                    0,
                );
            } else {
                assert(a as int == (-(qm as int) - 1) * (d as int) + ((d as int) - (rm as int)))
                    by (nonlinear_arith)
                    requires
                        a as int == -(m as int),
                        m as int == (d as int) * (qm as int) + (rm as int),
                ;
                vstd::arithmetic::div_mod::lemma_fundamental_div_mod_converse(
                    a as int,
                    d as int,
                    -(qm as int) - 1,
                    (d as int) - (rm as int),
                );
            }
        }
        if rm == 0 {
            0
        } else {
            d - (rm as i128)
        }
    }
}

/// Computes the civil year of an epoch instant.
pub fn year_of_ms_exec(ms: i64) -> (y: i128)
    ensures
        y == year_of_ms(ms as int),
{
    let days: i128 = fdiv128(ms as i128, 86_400_000);
    let shifted: i128 = days + 719_468;
    let era: i128 = fdiv128(shifted, 146_097);
    let doe: i128 = fmod128(shifted, 146_097);
    let yoe: i128 = fdiv128(
        doe - fdiv128(doe, 1_460) + fdiv128(doe, 36_524) - fdiv128(doe, 146_096),
        365,
    );
    let doy: i128 = doe - (365 * yoe + fdiv128(yoe, 4) - fdiv128(yoe, 100));
    let mp: i128 = fdiv128(5 * doy + 2, 153);
    let month: i128 = if mp < 10 {
        mp + 3
    } else {
        mp - 9
    };
    proof {
        assert(days == days_of_ms(ms as int));
        assert(doe == doe_of_ms(ms as int));
        assert(era == era_of_ms(ms as int));
        assert(yoe == yoe_of_ms(ms as int));
        assert(0 <= yoe < 146_097);
        assert(doy == doy_of_ms(ms as int));
        assert(mp == mp_of_ms(ms as int));
        assert(month == month_of_ms(ms as int));
        assert(-0x8000_0000_0000_0000_0000 <= era * 400 <= 0x8000_0000_0000_0000_0000)
            by (nonlinear_arith)
            requires
                -0x20_0000_0000_0000_0000 <= era <= 0x20_0000_0000_0000_0000,
        ;
    }
    yoe + era * 400 + (if month <= 2 {
        1
    } else {
        0
    })
}

/// Computes the civil month of an epoch instant.
pub fn month_of_ms_exec(ms: i64) -> (m: i128)
    ensures
        m == month_of_ms(ms as int),
{
    let days: i128 = fdiv128(ms as i128, 86_400_000);
    let shifted: i128 = days + 719_468;
    let doe: i128 = fmod128(shifted, 146_097);
    let yoe: i128 = fdiv128(
        doe - fdiv128(doe, 1_460) + fdiv128(doe, 36_524) - fdiv128(doe, 146_096),
        365,
    );
    let doy: i128 = doe - (365 * yoe + fdiv128(yoe, 4) - fdiv128(yoe, 100));
    let mp: i128 = fdiv128(5 * doy + 2, 153);
    if mp < 10 {
        mp + 3
    } else {
        mp - 9
    }
}

/// Computes the day of month of an epoch instant.
pub fn day_of_ms_exec(ms: i64) -> (d: i128)
    ensures
        d == day_of_ms(ms as int),
{
    let days: i128 = fdiv128(ms as i128, 86_400_000);
    let shifted: i128 = days + 719_468;
    let doe: i128 = fmod128(shifted, 146_097);
    let yoe: i128 = fdiv128(
        doe - fdiv128(doe, 1_460) + fdiv128(doe, 36_524) - fdiv128(doe, 146_096),
        365,
    );
    let doy: i128 = doe - (365 * yoe + fdiv128(yoe, 4) - fdiv128(yoe, 100));
    let mp: i128 = fdiv128(5 * doy + 2, 153);
    doy - fdiv128(153 * mp + 2, 5) + 1
}

/// Computes the hour of an epoch instant.
pub fn hour_of_ms_exec(ms: i64) -> (h: i128)
    ensures
        h == hour_of_ms(ms as int),
{
    let tod: i128 = fmod128(ms as i128, 86_400_000);
    fdiv128(tod, 3_600_000)
}

/// Computes the minute of an epoch instant.
pub fn minute_of_ms_exec(ms: i64) -> (m: i128)
    ensures
        m == minute_of_ms(ms as int),
{
    let tod: i128 = fmod128(ms as i128, 86_400_000);
    fmod128(fdiv128(tod, 60_000), 60)
}

/// Computes the second of an epoch instant.
pub fn second_of_ms_exec(ms: i64) -> (s: i128)
    ensures
        s == second_of_ms(ms as int),
{
    let tod: i128 = fmod128(ms as i128, 86_400_000);
    fmod128(fdiv128(tod, 1_000), 60)
}

} // verus!
