use worklog::aggregate::{aggregate, changes, WorkLog};
use worklog::date::{date_of_timestamp, Date, DateWindow, LogError, TIMESTAMP_LIMIT};
use worklog::revision::{Identity, Revision};
use worklog::totals::{DailyTotal, DailyTotals};

const JAN_1_2024: i64 = 1_704_067_200;
const DAY: i64 = 86_400;
const JAN_1_2024_DAY: i32 = 738_886;

fn identity(email: &str) -> Identity {
    Identity { id: 7, display_name: format!("User {}", email), email: email.to_string() }
}

fn rev(n: u32, secs: i64, email: &str, work: Option<u32>) -> Revision {
    Revision {
        rev: n,
        changed_at: Some(secs),
        changed_by: Some(identity(email)),
        completed_work: work,
        title: Some(format!("Title at {}", n)),
    }
}

fn week() -> DateWindow {
    DateWindow::new(Date { day: JAN_1_2024_DAY }, Date { day: JAN_1_2024_DAY + 6 }).unwrap()
}

fn me() -> String {
    "me@example.com".to_string()
}

fn run(revs: &Vec<Revision>) -> WorkLog {
    match aggregate(42, revs, &me(), &week()) {
        Ok(log) => log,
        Err(e) => panic!("unexpected error {:?}", e),
    }
}

fn totals_of(log: &WorkLog) -> Vec<(i32, i128)> {
    log.totals.entries().iter().map(|e| (e.date.day, e.total)).collect()
}

#[test]
fn scenario_a_different_days() {
    let revs = vec![
        rev(1, JAN_1_2024 + 3600, "me@example.com", Some(0)),
        rev(2, JAN_1_2024 + 7200, "me@example.com", Some(2)),
        rev(3, JAN_1_2024 + DAY, "me@example.com", Some(2)),
        rev(4, JAN_1_2024 + 2 * DAY, "me@example.com", Some(5)),
    ];
    let log = run(&revs);
    let deltas: Vec<i64> = log.details.iter().map(|d| d.delta).collect();
    assert_eq!(deltas, vec![2, 3]);
    let works: Vec<u32> = log.details.iter().map(|d| d.work).collect();
    assert_eq!(works, vec![2, 5]);
    assert_eq!(totals_of(&log), vec![(JAN_1_2024_DAY, 2), (JAN_1_2024_DAY + 2, 3)]);
    let header = log.header.unwrap();
    assert_eq!(header.item, 42);
    assert_eq!(header.title, Some("Title at 2".to_string()));
    assert_eq!(log.details[0].author.email, "me@example.com");
    assert_eq!(log.details[1].date, Date { day: JAN_1_2024_DAY + 2 });
}

#[test]
fn scenario_a_same_day() {
    let revs = vec![
        rev(1, JAN_1_2024 + 3600, "me@example.com", Some(0)),
        rev(2, JAN_1_2024 + 7200, "me@example.com", Some(2)),
        rev(3, JAN_1_2024 + 9000, "me@example.com", Some(2)),
        rev(4, JAN_1_2024 + 10800, "me@example.com", Some(5)),
    ];
    let log = run(&revs);
    assert_eq!(log.details.len(), 2);
    assert_eq!(totals_of(&log), vec![(JAN_1_2024_DAY, 5)]);
}

#[test]
fn scenario_b_other_author_advances_baseline() {
    let revs = vec![
        rev(1, JAN_1_2024 + 3600, "me@example.com", Some(0)),
        rev(2, JAN_1_2024 + 7200, "other@example.com", Some(2)),
        rev(3, JAN_1_2024 + DAY, "me@example.com", Some(2)),
        rev(4, JAN_1_2024 + 2 * DAY, "me@example.com", Some(5)),
    ];
    let log = run(&revs);
    assert_eq!(log.details.len(), 1);
    assert_eq!(log.details[0].rev, 4);
    assert_eq!(log.details[0].delta, 3);
    assert_eq!(totals_of(&log), vec![(JAN_1_2024_DAY + 2, 3)]);
    assert_eq!(log.header.unwrap().title, Some("Title at 4".to_string()));
}

#[test]
fn scenario_c_day_after_window() {
    let revs = vec![
        rev(1, JAN_1_2024 + 7 * DAY + 60, "me@example.com", Some(4)),
        rev(2, JAN_1_2024 + 3 * DAY, "me@example.com", Some(6)),
    ];
    let log = run(&revs);
    assert_eq!(log.details.len(), 1);
    assert_eq!(log.details[0].delta, 2);
    assert_eq!(totals_of(&log), vec![(JAN_1_2024_DAY + 3, 2)]);
}

#[test]
fn scenario_d_no_completed_work() {
    let revs = vec![
        rev(1, JAN_1_2024, "me@example.com", None),
        rev(2, JAN_1_2024 + DAY, "me@example.com", None),
    ];
    let log = run(&revs);
    assert!(log.header.is_none());
    assert!(log.details.is_empty());
    assert!(log.totals.entries().is_empty());
    let empty: Vec<Revision> = Vec::new();
    let log = run(&empty);
    assert!(log.header.is_none());
    assert!(log.details.is_empty());
}

#[test]
fn unfiltered_deltas_telescope() {
    let revs = vec![
        rev(1, JAN_1_2024, "a@example.com", Some(3)),
        rev(2, JAN_1_2024, "b@example.com", None),
        rev(3, JAN_1_2024, "a@example.com", Some(3)),
        rev(4, JAN_1_2024, "c@example.com", Some(1)),
        rev(5, JAN_1_2024, "a@example.com", Some(8)),
    ];
    let cs = changes(&revs);
    let deltas: Vec<i64> = cs.iter().map(|c| c.delta).collect();
    assert_eq!(deltas, vec![3, -2, 7]);
    let indices: Vec<usize> = cs.iter().map(|c| c.index).collect();
    assert_eq!(indices, vec![0, 3, 4]);
    assert_eq!(deltas.iter().sum::<i64>(), 8);
}

#[test]
fn negative_delta_is_attributed() {
    let revs = vec![
        rev(1, JAN_1_2024, "me@example.com", Some(5)),
        rev(2, JAN_1_2024 + DAY, "me@example.com", Some(1)),
    ];
    let log = run(&revs);
    assert_eq!(totals_of(&log), vec![(JAN_1_2024_DAY, 5), (JAN_1_2024_DAY + 1, -4)]);
}

#[test]
fn filtering_keeps_baseline() {
    let mixed = vec![
        rev(1, JAN_1_2024 - 10 * DAY, "me@example.com", Some(10)),
        rev(2, JAN_1_2024, "other@example.com", Some(12)),
        rev(3, JAN_1_2024 + DAY, "me@example.com", Some(15)),
    ];
    let log = run(&mixed);
    assert_eq!(log.details.len(), 1);
    assert_eq!(log.details[0].delta, 3);
    let all = changes(&mixed);
    assert_eq!(all[2].delta, log.details[0].delta);
}

#[test]
fn absent_value_has_no_effect() {
    let with_gap = vec![
        rev(1, JAN_1_2024, "me@example.com", Some(1)),
        rev(2, JAN_1_2024 + DAY, "other@example.com", None),
        rev(3, JAN_1_2024 + DAY, "me@example.com", Some(4)),
    ];
    let without = vec![with_gap[0].clone(), with_gap[2].clone()];
    let a = run(&with_gap);
    let b = run(&without);
    assert_eq!(totals_of(&a), totals_of(&b));
    let da: Vec<(u32, i64)> = a.details.iter().map(|d| (d.rev, d.delta)).collect();
    let db: Vec<(u32, i64)> = b.details.iter().map(|d| (d.rev, d.delta)).collect();
    assert_eq!(da, db);
    assert_eq!(da, vec![(1, 1), (3, 3)]);
}

#[test]
fn running_twice_gives_same_output() {
    let revs = vec![
        rev(1, JAN_1_2024, "me@example.com", Some(2)),
        rev(2, JAN_1_2024 + DAY, "me@example.com", Some(7)),
    ];
    let a = run(&revs);
    let b = run(&revs);
    assert_eq!(totals_of(&a), totals_of(&b));
    assert_eq!(a.details.len(), b.details.len());
    assert_eq!(a.header.unwrap().title, b.header.unwrap().title);
}

fn totals(pairs: &[(i32, i128)]) -> DailyTotals {
    let mut t = DailyTotals::new();
    for (d, v) in pairs {
        t.add(Date { day: *d }, *v);
    }
    t
}

fn pairs(t: &DailyTotals) -> Vec<(i32, i128)> {
    t.entries().iter().map(|e| (e.date.day, e.total)).collect()
}

#[test]
fn merge_order_does_not_matter() {
    let a = totals(&[(5, 1), (2, 3)]);
    let b = totals(&[(2, 4), (9, 1)]);
    let c = totals(&[(5, -1), (1, 6)]);
    let mut ab_c = DailyTotals::new();
    ab_c.merge(&a);
    ab_c.merge(&b);
    ab_c.merge(&c);
    let mut c_b_a = DailyTotals::new();
    c_b_a.merge(&c);
    c_b_a.merge(&b);
    c_b_a.merge(&a);
    assert_eq!(pairs(&ab_c), pairs(&c_b_a));
    assert_eq!(pairs(&ab_c), vec![(1, 6), (2, 7), (5, 0), (9, 1)]);
}

#[test]
fn totals_add_and_get() {
    let mut t = totals(&[(3, 2), (1, 1)]);
    t.add(Date { day: 3 }, 5);
    assert_eq!(t.get(Date { day: 3 }), Some(7));
    assert_eq!(t.get(Date { day: 2 }), None);
    assert_eq!(
        t.entries().clone(),
        vec![DailyTotal { date: Date { day: 1 }, total: 1 }, DailyTotal { date: Date { day: 3 }, total: 7 }]
    );
}

#[test]
fn try_merge_refuses_overflow() {
    let mut a = totals(&[(1, i128::MAX)]);
    let b = totals(&[(1, 1), (2, 2)]);
    assert!(!a.try_merge(&b));
    assert_eq!(pairs(&a), vec![(1, i128::MAX)]);
    let mut c = totals(&[(1, 5)]);
    assert!(c.try_merge(&b));
    assert_eq!(pairs(&c), vec![(1, 6), (2, 2)]);
}

#[test]
fn invalid_window_is_refused() {
    let r = DateWindow::new(Date { day: 10 }, Date { day: 9 });
    assert_eq!(r, Err(LogError::InvalidWindow));
    let ok = DateWindow::new(Date { day: 9 }, Date { day: 9 }).unwrap();
    assert!(ok.contains(Date { day: 9 }));
    assert!(!ok.contains(Date { day: 10 }));
}

#[test]
fn malformed_revision_is_reported() {
    let mut bad = rev(2, JAN_1_2024, "me@example.com", Some(1));
    bad.changed_by = None;
    let revs = vec![rev(1, JAN_1_2024, "me@example.com", None), bad];
    assert!(matches!(
        aggregate(1, &revs, &me(), &week()),
        Err(LogError::MalformedRevision { index: 1 })
    ));
    let mut no_time = rev(1, JAN_1_2024, "me@example.com", Some(2));
    no_time.changed_at = None;
    assert!(matches!(
        aggregate(1, &vec![no_time], &me(), &week()),
        Err(LogError::MalformedRevision { index: 0 })
    ));
    let far = rev(1, TIMESTAMP_LIMIT + 1, "me@example.com", Some(1));
    assert!(matches!(
        aggregate(1, &vec![far], &me(), &week()),
        Err(LogError::MalformedRevision { index: 0 })
    ));
}

#[test]
fn revisions_without_value_are_not_checked() {
    let bare = Revision { rev: 1, changed_at: None, changed_by: None, completed_work: None, title: None };
    let titled = Revision {
        rev: 2,
        changed_at: None,
        changed_by: None,
        completed_work: None,
        title: Some("T".to_string()),
    };
    let log = run(&vec![bare.clone(), titled]);
    assert!(log.header.is_none());
    assert!(log.details.is_empty());
    assert!(log.totals.entries().is_empty());

    let revs = vec![
        rev(1, JAN_1_2024, "me@example.com", Some(2)),
        bare,
        rev(3, JAN_1_2024 + DAY, "me@example.com", Some(5)),
    ];
    let log = run(&revs);
    let da: Vec<(u32, i64)> = log.details.iter().map(|d| (d.rev, d.delta)).collect();
    assert_eq!(da, vec![(1, 2), (3, 3)]);
}

#[test]
fn unchanged_value_is_not_checked() {
    let mut same = rev(2, JAN_1_2024, "me@example.com", Some(4));
    same.changed_by = None;
    same.changed_at = None;
    let revs = vec![rev(1, JAN_1_2024, "me@example.com", Some(4)), same];
    let log = run(&revs);
    assert_eq!(totals_of(&log), vec![(JAN_1_2024_DAY, 4)]);
}

#[test]
fn inverted_window_is_refused_by_aggregate() {
    let window = DateWindow { from: Date { day: JAN_1_2024_DAY + 1 }, to: Date { day: JAN_1_2024_DAY } };
    let revs = vec![rev(1, JAN_1_2024, "me@example.com", Some(1))];
    assert!(matches!(aggregate(1, &revs, &me(), &window), Err(LogError::InvalidWindow)));
}

#[test]
fn dates_of_timestamps() {
    assert_eq!(date_of_timestamp(0), Some(Date { day: 719_163 }));
    assert_eq!(date_of_timestamp(86_399), Some(Date { day: 719_163 }));
    assert_eq!(date_of_timestamp(-1), Some(Date { day: 719_162 }));
    assert_eq!(date_of_timestamp(JAN_1_2024 + 3 * DAY + 5), Some(Date { day: JAN_1_2024_DAY + 3 }));
    assert_eq!(date_of_timestamp(TIMESTAMP_LIMIT), Some(Date { day: 719_163 + 12_725_829 }));
    assert_eq!(date_of_timestamp(-TIMESTAMP_LIMIT - 1), None);
}

#[test]
fn author_match_is_exact() {
    let revs = vec![rev(1, JAN_1_2024, "Me@example.com", Some(3))];
    let log = run(&revs);
    assert!(log.details.is_empty());
    assert!(log.header.is_none());
}
