use chrono::TimeZone;
use repo_activity::report::{ChangeStats, RepoSummary};
use repo_activity::time::{NormalizedTime, DEFAULT_CUTOFF_SECONDS};
use repo_activity::walk::{walk, Step, Walker};

const JUNE_2020: i64 = 1590969600;
const MARCH_2021: i64 = 1614556800;
const JUNE_2021: i64 = 1622505600;

fn times(secs: &[i64]) -> Vec<NormalizedTime> {
    secs.iter().map(|s| NormalizedTime::from_utc_seconds(*s)).collect()
}

#[test]
fn default_cutoff_is_start_of_2021() {
    let expected = chrono::Utc.with_ymd_and_hms(2021, 1, 1, 0, 0, 0).unwrap().timestamp();
    assert_eq!(DEFAULT_CUTOFF_SECONDS, expected);
    assert_eq!(NormalizedTime::default_cutoff().utc_seconds, expected);
}

#[test]
fn normalize_keeps_the_utc_instant() {
    let east = NormalizedTime::normalize(MARCH_2021, 120).unwrap();
    let west = NormalizedTime::normalize(MARCH_2021, -300).unwrap();
    assert_eq!(east.utc_seconds, MARCH_2021);
    assert_eq!(west.utc_seconds, MARCH_2021);
    assert_eq!(NormalizedTime::normalize(0, 0).unwrap().utc_seconds, 0);
}

#[test]
fn normalize_rejects_offset_of_a_day() {
    assert!(NormalizedTime::normalize(MARCH_2021, 1440).is_none());
    assert!(NormalizedTime::normalize(MARCH_2021, -1440).is_none());
    assert!(NormalizedTime::normalize(MARCH_2021, 1439).is_some());
    assert!(NormalizedTime::normalize(MARCH_2021, i32::MAX).is_none());
}

#[test]
fn normalize_rejects_dates_beyond_the_calendar() {
    assert!(NormalizedTime::normalize(i64::MAX, 0).is_none());
    assert!(NormalizedTime::normalize(i64::MIN, 0).is_none());
}

#[test]
fn cutoff_instant_itself_qualifies() {
    let cutoff = NormalizedTime::default_cutoff();
    assert!(NormalizedTime::from_utc_seconds(DEFAULT_CUTOFF_SECONDS).is_at_or_after(&cutoff));
    assert!(!NormalizedTime::from_utc_seconds(DEFAULT_CUTOFF_SECONDS - 1).is_at_or_after(&cutoff));
}

#[test]
fn scenario_three_commits_two_qualify() {
    let r = walk(&times(&[JUNE_2021, MARCH_2021, JUNE_2020]), NormalizedTime::default_cutoff());
    assert_eq!(r.count(), 2);
    assert_eq!(r.oldest(), Some(1));
}

#[test]
fn walk_stops_at_first_older_commit() {
    let r = walk(
        &times(&[JUNE_2021, JUNE_2020, MARCH_2021, JUNE_2021]),
        NormalizedTime::default_cutoff(),
    );
    assert_eq!(r.count(), 1);
    assert_eq!(r.oldest(), Some(0));
}

#[test]
fn walk_with_no_recent_commit_is_empty() {
    let r = walk(&times(&[JUNE_2020, JUNE_2020 - 10]), NormalizedTime::default_cutoff());
    assert_eq!(r.count(), 0);
    assert!(r.is_empty());
    assert_eq!(r.oldest(), None);
    let stats = ChangeStats::new(3, 4, 5);
    assert!(RepoSummary::from_walk("quiet".to_string(), &r, stats).is_none());
}

#[test]
fn walk_of_empty_history_is_empty() {
    let r = walk(&Vec::new(), NormalizedTime::default_cutoff());
    assert_eq!(r.count(), 0);
    assert_eq!(r.oldest(), None);
}

#[test]
fn walk_of_recent_history_counts_everything() {
    let r = walk(
        &times(&[JUNE_2021 + 50, JUNE_2021, MARCH_2021, DEFAULT_CUTOFF_SECONDS]),
        NormalizedTime::default_cutoff(),
    );
    assert_eq!(r.count(), 4);
    assert_eq!(r.oldest(), Some(3));
}

#[test]
fn walk_with_custom_cutoff() {
    let cutoff = NormalizedTime::from_utc_seconds(JUNE_2020);
    let r = walk(&times(&[JUNE_2021, MARCH_2021, JUNE_2020, JUNE_2020 - 1]), cutoff);
    assert_eq!(r.count(), 3);
    assert_eq!(r.oldest(), Some(2));
}

#[test]
fn walker_never_resumes_after_stopping() {
    let mut w = Walker::new(NormalizedTime::default_cutoff());
    assert_eq!(w.step(NormalizedTime::from_utc_seconds(JUNE_2021)), Step::Qualifies);
    assert_eq!(w.step(NormalizedTime::from_utc_seconds(JUNE_2020)), Step::Stop);
    assert!(w.stopped());
    assert_eq!(w.step(NormalizedTime::from_utc_seconds(JUNE_2021)), Step::Stop);
    assert_eq!(w.count(), 1);
    assert_eq!(w.result().count(), 1);
    assert_eq!(w.result().oldest(), Some(0));
}

#[test]
fn summary_from_walk_keeps_count_and_stats() {
    let r = walk(&times(&[JUNE_2021, MARCH_2021, JUNE_2020]), NormalizedTime::default_cutoff());
    let s = RepoSummary::from_walk("svd2rust".to_string(), &r, ChangeStats::new(7, 120, 30)).unwrap();
    assert_eq!(s.name, "svd2rust");
    assert_eq!(s.commits, 2);
    assert_eq!(s.stats, ChangeStats::new(7, 120, 30));
}
