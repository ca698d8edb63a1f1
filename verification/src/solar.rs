//! Light categories and the integer side of sun-hour integration.

use vstd::prelude::*;

verus! {

/// Standard horticultural light categories.
#[derive(Debug, Clone, Copy, PartialEq, Eq, Hash, Structural)]
pub enum LightCategory {
    /// 6+ hours of direct sun.
    FullSun,
    /// 4-6 hours of direct sun.
    PartSun,
    /// 2-4 hours of direct sun.
    PartShade,
    /// Less than 2 hours of direct sun.
    FullShade,
}

/// The display label of a light category.
pub open spec fn spec_label(c: LightCategory) -> Seq<char> {
    match c {
        LightCategory::FullSun => "Full Sun"@,
        LightCategory::PartSun => "Part Sun"@,
        LightCategory::PartShade => "Part Shade"@,
        LightCategory::FullShade => "Full Shade"@,
    }
}

/// The sun-hours range description of a light category.
pub open spec fn spec_sun_hours_range(c: LightCategory) -> Seq<char> {
    match c {
        LightCategory::FullSun => "6+ hours"@,
        LightCategory::PartSun => "4-6 hours"@,
        LightCategory::PartShade => "2-4 hours"@,
        LightCategory::FullShade => "<2 hours"@,
    }
}

impl LightCategory {
    /// Human-readable label.
    pub fn label(self) -> (s: &'static str)
        ensures
            s@ == spec_label(self),
    {
        match self {
            LightCategory::FullSun => "Full Sun",
            LightCategory::PartSun => "Part Sun",
            LightCategory::PartShade => "Part Shade",
            LightCategory::FullShade => "Full Shade",
        }
    }

    /// Sun hours range description.
    pub fn sun_hours_range(self) -> (s: &'static str)
        ensures
            s@ == spec_sun_hours_range(self),
    {
        match self {
            LightCategory::FullSun => "6+ hours",
            LightCategory::PartSun => "4-6 hours",
            LightCategory::PartShade => "2-4 hours",
            LightCategory::FullShade => "<2 hours",
        }
    }
}

/// Sampling interval in minutes for sun-hour integration.
pub const SAMPLING_INTERVAL_MINUTES: u32 = 5;

/// Number of samples per 24-hour day at 5-minute intervals.
pub const SAMPLES_PER_DAY: u32 = 24 * 60 / SAMPLING_INTERVAL_MINUTES;

/// Whether a day has normal sunrise/sunset or a polar extreme.
#[derive(Debug, Clone, Copy, PartialEq, Eq, Structural)]
pub enum PolarCondition {
    /// Normal day with sunrise and sunset.
    Normal,
    /// Sun never sets (Arctic/Antarctic summer).
    MidnightSun,
    /// Sun never rises (Arctic/Antarctic winter).
    PolarNight,
}

/// Polar condition of a day on which `above` of the day's samples saw the
/// sun above the horizon.
pub open spec fn spec_polar_condition(above: int) -> PolarCondition {
    if above == SAMPLES_PER_DAY {
        PolarCondition::MidnightSun
    } else if above == 0 {
        PolarCondition::PolarNight
    } else {
        PolarCondition::Normal
    }
}

/// Polar condition of a day from the number of its samples with the sun
/// above the horizon: every sample is midnight sun, none is polar night.
pub fn polar_condition(above: u32) -> (c: PolarCondition)
    ensures
        c == spec_polar_condition(above as int),
{
    if above == SAMPLES_PER_DAY {
        PolarCondition::MidnightSun
    } else if above == 0 {
        PolarCondition::PolarNight
    } else {
        PolarCondition::Normal
    }
}

/// Number of `true` entries among the first `n` of `flags`.
pub open spec fn count_true(flags: Seq<bool>, n: int) -> int
    decreases n,
{
    if n <= 0 {
        0
    } else {
        count_true(flags, n - 1) + if flags[n - 1] { 1int } else { 0int }
    }
}

proof fn lemma_count_true_bounds(flags: Seq<bool>, n: int)
    requires
        0 <= n,
    ensures
        0 <= count_true(flags, n) <= n,
    decreases n,
{
    if n > 0 {
        lemma_count_true_bounds(flags, n - 1);
    }
}

/// Per-day sample tally: how many of a day's samples (one per
/// `SAMPLING_INTERVAL_MINUTES`, from midnight) had the sun above the
/// horizon, and the day's polar condition.
#[derive(Debug, Clone, Copy, PartialEq, Eq, Structural)]
pub struct DayTally {
    /// Samples with the sun above the horizon.
    pub above: u32,
    /// Minutes of sun: `above * SAMPLING_INTERVAL_MINUTES`.
    pub sun_minutes: u32,
    pub polar_condition: PolarCondition,
}

/// Tally one day's samples, `sun_up[i]` telling whether the sun was above
/// the horizon at sample `i`.
pub fn tally_day(sun_up: &[bool]) -> (t: DayTally)
    requires
        sun_up@.len() == SAMPLES_PER_DAY,
    ensures
        t.above == count_true(sun_up@, sun_up@.len() as int),
        t.sun_minutes == t.above * SAMPLING_INTERVAL_MINUTES,
        t.polar_condition == spec_polar_condition(t.above as int),
{
    let mut above: u32 = 0;
    let mut i: usize = 0;
    while i < sun_up.len()
        invariant
            i <= sun_up@.len() == SAMPLES_PER_DAY,
            above == count_true(sun_up@, i as int),
        decreases sun_up@.len() - i,
    {
        proof {
            lemma_count_true_bounds(sun_up@, i as int);
        }
        if sun_up[i] {
            above = above + 1;
        }
        i = i + 1;
    }
    proof {
        lemma_count_true_bounds(sun_up@, i as int);
    }
    DayTally { above, sun_minutes: above * SAMPLING_INTERVAL_MINUTES, polar_condition: polar_condition(above) }
}

/// Number of days among the first `n` with polar condition `c`.
pub open spec fn count_condition(days: Seq<DayTally>, n: int, c: PolarCondition) -> int
    decreases n,
{
    if n <= 0 {
        0
    } else {
        count_condition(days, n - 1, c) + if days[n - 1].polar_condition == c { 1int } else { 0int }
    }
}

/// Total sampled sun over the first `n` days, in samples.
pub open spec fn sum_above(days: Seq<DayTally>, n: int) -> int
    decreases n,
{
    if n <= 0 {
        0
    } else {
        sum_above(days, n - 1) + days[n - 1].above
    }
}

/// Fewest samples of sun on one of the first `n` days (`n >= 1`).
pub open spec fn min_above(days: Seq<DayTally>, n: int) -> int
    decreases n,
{
    if n <= 1 {
        days[0].above as int
    } else {
        let m = min_above(days, n - 1);
        if (days[n - 1].above as int) < m { days[n - 1].above as int } else { m }
    }
}

/// Most samples of sun on one of the first `n` days (`n >= 1`).
pub open spec fn max_above(days: Seq<DayTally>, n: int) -> int
    decreases n,
{
    if n <= 1 {
        days[0].above as int
    } else {
        let m = max_above(days, n - 1);
        if (days[n - 1].above as int) > m { days[n - 1].above as int } else { m }
    }
}

/// Aggregate statistics of a date range, in whole samples: the number of
/// days, the days of midnight sun and of polar night, the fewest and the
/// most samples of sun on one day (0 for an empty range) and their total.
#[derive(Debug, Clone, Copy, PartialEq, Eq, Structural)]
pub struct SeasonTotals {
    pub total_days: u32,
    pub days_of_midnight_sun: u32,
    pub days_of_polar_night: u32,
    pub min_above: u32,
    pub max_above: u32,
    pub sum_above: u64,
}

proof fn lemma_count_condition_bounds(days: Seq<DayTally>, n: int, c: PolarCondition)
    requires
        0 <= n,
    ensures
        0 <= count_condition(days, n, c) <= n,
    decreases n,
{
    if n > 0 {
        lemma_count_condition_bounds(days, n - 1, c);
    }
}

proof fn lemma_sum_above_bound(days: Seq<DayTally>, n: int)
    requires
        0 <= n <= days.len(),
    ensures
        0 <= sum_above(days, n) <= n * 0xffff_ffff,
    decreases n,
{
    if n > 0 {
        lemma_sum_above_bound(days, n - 1);
    }
}

/// Summarise the tallies of consecutive days.
pub fn season_totals(days: &[DayTally]) -> (t: SeasonTotals)
    requires
        days@.len() <= u32::MAX,
    ensures
        t.total_days == days@.len(),
        t.days_of_midnight_sun == count_condition(days@, days@.len() as int, PolarCondition::MidnightSun),
        t.days_of_polar_night == count_condition(days@, days@.len() as int, PolarCondition::PolarNight),
        t.sum_above == sum_above(days@, days@.len() as int),
        days@.len() == 0 ==> t.min_above == 0 && t.max_above == 0,
        days@.len() > 0 ==> t.min_above == min_above(days@, days@.len() as int)
            && t.max_above == max_above(days@, days@.len() as int),
{
    let n = days.len();
    if n == 0 {
        return SeasonTotals {
            total_days: 0,
            days_of_midnight_sun: 0,
            days_of_polar_night: 0,
            min_above: 0,
            max_above: 0,
            sum_above: 0,
        };
    }
    let mut midnight: u32 = 0;
    let mut polar: u32 = 0;
    let mut sum: u64 = 0;
    let mut lo: u32 = days[0].above;
    let mut hi: u32 = days[0].above;
    let mut i: usize = 0;
    while i < n
        invariant
            n == days@.len() <= u32::MAX,
            n > 0,
            i <= n,
            midnight == count_condition(days@, i as int, PolarCondition::MidnightSun),
            polar == count_condition(days@, i as int, PolarCondition::PolarNight),
            sum == sum_above(days@, i as int),
            i == 0 ==> lo == days@[0].above && hi == days@[0].above,
            i > 0 ==> lo == min_above(days@, i as int) && hi == max_above(days@, i as int),
        decreases n - i,
    {
        proof {
            lemma_count_condition_bounds(days@, i as int, PolarCondition::MidnightSun);
            lemma_count_condition_bounds(days@, i as int, PolarCondition::PolarNight);
            lemma_sum_above_bound(days@, i as int + 1);
            assert(sum_above(days@, i as int + 1) <= (u32::MAX as int) * 0xffff_ffff) by (nonlinear_arith)
                requires
                    sum_above(days@, i as int + 1) <= (i as int + 1) * 0xffff_ffff,
                    i as int + 1 <= u32::MAX,
            ;
        }
        let d = days[i];
        sum = sum + d.above as u64;
        if d.above < lo {
            lo = d.above;
        }
        if d.above > hi {
            hi = d.above;
        }
        if d.polar_condition == PolarCondition::MidnightSun {
            midnight = midnight + 1;
        }
        if d.polar_condition == PolarCondition::PolarNight {
            polar = polar + 1;
        }
        i = i + 1;
    }
    SeasonTotals {
        total_days: n as u32,
        days_of_midnight_sun: midnight,
        days_of_polar_night: polar,
        min_above: lo,
        max_above: hi,
        sum_above: sum,
    }
}

/// On a non-empty range the fewest samples of sun on a day is at most the
/// average, which is at most the most: `min * days <= total <= max * days`.
pub proof fn lemma_season_min_le_max(days: Seq<DayTally>, n: int)
    requires
        1 <= n <= days.len(),
    ensures
        min_above(days, n) <= max_above(days, n),
        min_above(days, n) * n <= sum_above(days, n) <= max_above(days, n) * n,
    decreases n,
{
    if n > 1 {
        lemma_season_min_le_max(days, n - 1);
        let lo = min_above(days, n - 1);
        let hi = max_above(days, n - 1);
        let v = days[n - 1].above as int;
        assert(min_above(days, n) * n == min_above(days, n) * (n - 1) + min_above(days, n)) by (nonlinear_arith);
        assert(max_above(days, n) * n == max_above(days, n) * (n - 1) + max_above(days, n)) by (nonlinear_arith);
        assert(min_above(days, n) * (n - 1) <= lo * (n - 1)) by (nonlinear_arith)
            requires
                min_above(days, n) <= lo,
                n - 1 >= 0,
        ;
        assert(hi * (n - 1) <= max_above(days, n) * (n - 1)) by (nonlinear_arith)
            requires
                hi <= max_above(days, n),
                n - 1 >= 0,
        ;
        assert(min_above(days, n) <= v && v <= max_above(days, n));
        assert(sum_above(days, n) == sum_above(days, n - 1) + v);
    } else {
        assert(n == 1);
        assert(sum_above(days, 0) == 0);
        assert(sum_above(days, 1) == days[0].above);
        let lo = min_above(days, n);
        let hi = max_above(days, n);
        assert(lo * n == lo && hi * n == hi) by (nonlinear_arith)
            requires
                n == 1,
        ;
    }
}

} // verus!
