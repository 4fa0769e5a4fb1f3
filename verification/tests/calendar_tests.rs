use malevich::calendar::{
    DAY, TimeUnit, calendar_buckets, civil_from_days, days_from_civil, supported_seconds,
};

#[test]
fn dates_count_days_from_the_epoch() {
    assert_eq!(days_from_civil(1970, 1, 1), 0);
    assert_eq!(days_from_civil(2000, 1, 1), 10957);
    assert_eq!(days_from_civil(2024, 2, 29), 19782);
    assert_eq!(days_from_civil(1969, 12, 31), -1);
    assert_eq!(civil_from_days(0), (1970, 1, 1));
    assert_eq!(civil_from_days(-1), (1969, 12, 31));
    assert_eq!(civil_from_days(19782), (2024, 2, 29));
    assert_eq!(civil_from_days(10957), (2000, 1, 1));
}

#[test]
fn leap_years_follow_the_gregorian_rule() {
    // 1900 is not a leap year, 2000 is.
    assert_eq!(days_from_civil(1900, 3, 1) - days_from_civil(1900, 2, 28), 1);
    assert_eq!(days_from_civil(2000, 3, 1) - days_from_civil(2000, 2, 28), 2);
    assert_eq!(days_from_civil(2001, 1, 1) - days_from_civil(2000, 1, 1), 366);
    assert_eq!(days_from_civil(1901, 1, 1) - days_from_civil(1900, 1, 1), 365);
}

#[test]
fn dates_round_trip_across_the_supported_range() {
    for days in [-365961662i64, -719468, -1, 0, 59, 60, 11016, 364522971] {
        let (year, month, day) = civil_from_days(days);
        assert_eq!(days_from_civil(year, month, day), days);
    }
    assert_eq!(civil_from_days(-365961662), (-999999, 1, 1));
    assert_eq!(civil_from_days(364522971), (999999, 12, 31));
}

#[test]
fn buckets_align_to_their_unit() {
    let t = 1710498600; // 2024-03-15 10:30 UTC, a Friday
    assert_eq!(TimeUnit::Hour.floor(t), Some(1710496800));
    assert_eq!(TimeUnit::Day.floor(t), Some(1710460800));
    assert_eq!(TimeUnit::Week.floor(t), Some(1710115200));
    assert_eq!(TimeUnit::Month.floor(t), Some(1709251200));
    assert_eq!(TimeUnit::Year.floor(t), Some(1704067200));
    // Before the epoch, too.
    assert_eq!(TimeUnit::Hour.floor(-1), Some(-3600));
    assert_eq!(TimeUnit::Week.floor(-1), Some(-259200));
}

#[test]
fn months_and_years_have_their_true_length() {
    assert_eq!(TimeUnit::Month.next(1706745600), Some(1709251200)); // February 2024: 29 days
    assert_eq!(1709251200 - 1706745600, 29 * DAY);
    assert_eq!(TimeUnit::Month.next(1709251200), Some(1711929600));
    assert_eq!(TimeUnit::Year.next(1704067200), Some(1735689600));
    assert_eq!(TimeUnit::Week.next(1710115200), Some(1710115200 + 7 * DAY));
    assert_eq!(TimeUnit::Hour.next(0), Some(3600));
}

#[test]
fn calendar_buckets_count_every_month_empties_included() {
    // One time in January, none in February, two in March.
    let times = vec![1706745599, 1710498600, 1711926000];
    let buckets = calendar_buckets(&times, TimeUnit::Month).unwrap();
    assert_eq!(buckets.starts, [1704067200, 1706745600, 1709251200]);
    assert_eq!(buckets.ends, [1706745600, 1709251200, 1711929600]);
    assert_eq!(buckets.counts, [1, 0, 2]);
}

#[test]
fn too_many_buckets_are_refused() {
    let (first, last) = supported_seconds();
    assert!(calendar_buckets(&vec![first, last], TimeUnit::Hour).is_none());
    assert!(calendar_buckets(&vec![first, last], TimeUnit::Year).is_none());
    let buckets = calendar_buckets(&vec![0, 1710498600], TimeUnit::Year).unwrap();
    assert_eq!(buckets.counts.len(), 55);
    assert_eq!(buckets.counts[0], 1);
    assert_eq!(buckets.counts[54], 1);
    assert_eq!(buckets.counts.iter().sum::<u64>(), 2);
}
