use plantastic::solar::{
    polar_condition, season_totals, tally_day, DayTally, LightCategory, PolarCondition, SAMPLES_PER_DAY,
    SAMPLING_INTERVAL_MINUTES,
};

#[test]
fn labels_and_ranges() {
    assert_eq!(LightCategory::FullSun.label(), "Full Sun");
    assert_eq!(LightCategory::FullShade.sun_hours_range(), "<2 hours");
}

#[test]
fn all_labels_and_ranges() {
    assert_eq!(LightCategory::PartSun.label(), "Part Sun");
    assert_eq!(LightCategory::PartShade.label(), "Part Shade");
    assert_eq!(LightCategory::FullShade.label(), "Full Shade");
    assert_eq!(LightCategory::FullSun.sun_hours_range(), "6+ hours");
    assert_eq!(LightCategory::PartSun.sun_hours_range(), "4-6 hours");
    assert_eq!(LightCategory::PartShade.sun_hours_range(), "2-4 hours");
}

#[test]
fn sampling_constants() {
    assert_eq!(SAMPLING_INTERVAL_MINUTES, 5);
    assert_eq!(SAMPLES_PER_DAY, 288);
}

#[test]
fn polar_conditions_from_counts() {
    assert_eq!(polar_condition(288), PolarCondition::MidnightSun);
    assert_eq!(polar_condition(0), PolarCondition::PolarNight);
    assert_eq!(polar_condition(1), PolarCondition::Normal);
    assert_eq!(polar_condition(287), PolarCondition::Normal);
}

#[test]
fn tally_of_a_day() {
    let mut up = vec![false; 288];
    for s in up.iter_mut().skip(72).take(144) {
        *s = true;
    }
    let t = tally_day(&up);
    assert_eq!(t.above, 144);
    assert_eq!(t.sun_minutes, 720);
    assert_eq!(t.polar_condition, PolarCondition::Normal);
    let t = tally_day(&vec![true; 288]);
    assert_eq!(t.sun_minutes, 24 * 60);
    assert_eq!(t.polar_condition, PolarCondition::MidnightSun);
    let t = tally_day(&vec![false; 288]);
    assert_eq!(t.sun_minutes, 0);
    assert_eq!(t.polar_condition, PolarCondition::PolarNight);
}

fn day(above: u32) -> DayTally {
    DayTally { above, sun_minutes: above * 5, polar_condition: polar_condition(above) }
}

#[test]
fn season_totals_counts_extremes() {
    let days = vec![day(100), day(288), day(0), day(150), day(288)];
    let t = season_totals(&days);
    assert_eq!(t.total_days, 5);
    assert_eq!(t.days_of_midnight_sun, 2);
    assert_eq!(t.days_of_polar_night, 1);
    assert_eq!(t.min_above, 0);
    assert_eq!(t.max_above, 288);
    assert_eq!(t.sum_above, 826);
}

#[test]
fn season_totals_empty_range() {
    let t = season_totals(&[]);
    assert_eq!(t.total_days, 0);
    assert_eq!((t.min_above, t.max_above, t.sum_above), (0, 0, 0));
}

#[test]
fn season_single_day_min_equals_max() {
    let t = season_totals(&[day(190)]);
    assert_eq!(t.total_days, 1);
    assert_eq!(t.min_above, t.max_above);
    assert_eq!(t.sum_above, 190);
}
