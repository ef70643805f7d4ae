use kokomi::table::{UsageTable, NANOS_PER_SECOND};
use kokomi::tracker::{Action, Event, Tracker};

const S: u64 = NANOS_PER_SECOND;

fn name(s: &str) -> String {
    String::from(s)
}

fn seconds_of(t: &Tracker, app: &str) -> Option<u64> {
    t.table().get(app).map(|n| n / S)
}

#[test]
fn finder_then_notes_then_shutdown() {
    let mut t = Tracker::new(0);
    assert!(t.tick(name("Finder"), 0));
    assert!(!t.tick(name("Finder"), S));
    assert!(!t.tick(name("Finder"), 2 * S));
    assert!(t.tick(name("Notes"), 3 * S));
    assert!(!t.tick(name("Notes"), 4 * S));
    let text = t.shutdown(5 * S);
    assert_eq!(text, "\napp usage summary:\nFinder: 3 seconds\nNotes: 2 seconds\n");
    assert_eq!(seconds_of(&t, "Finder"), Some(3));
    assert_eq!(seconds_of(&t, "Notes"), Some(2));
    assert_eq!(t.table().len(), 2);
}

#[test]
fn single_application_until_shutdown() {
    let mut t = Tracker::new(0);
    for k in 0..10u64 {
        t.tick(name("Safari"), k * S);
    }
    let text = t.shutdown(10 * S);
    assert_eq!(text, "\napp usage summary:\nSafari: 10 seconds\n");
    assert_eq!(t.table().get("Safari"), Some(10 * S));
}

#[test]
fn immediate_shutdown_reports_nothing() {
    let mut t = Tracker::new(0);
    let text = t.shutdown(0);
    assert_eq!(text, "\napp usage summary:\n");
    assert_eq!(t.table().len(), 0);
    assert_eq!(t.table().total_nanos(), Some(0));
}

#[test]
fn first_tick_commits_nothing() {
    let mut t = Tracker::new(7 * S);
    assert_eq!(t.current_application(), "");
    assert!(t.tick(name("Finder"), 9 * S));
    assert_eq!(t.table().len(), 0);
    assert_eq!(t.current_application(), "Finder");
    assert_eq!(t.interval_start(), 9 * S);
}

#[test]
fn unchanged_name_keeps_the_interval_open() {
    let mut t = Tracker::new(0);
    t.tick(name("Finder"), S);
    assert!(!t.tick(name("Finder"), 4 * S));
    assert_eq!(t.interval_start(), S);
    assert_eq!(t.table().len(), 0);
    assert!(t.tick(name("Notes"), 6 * S));
    assert_eq!(t.table().get("Finder"), Some(5 * S));
    assert_eq!(t.interval_start(), 6 * S);
}

#[test]
fn return_visit_adds_to_the_same_record() {
    let mut t = Tracker::new(0);
    t.tick(name("A"), 0);
    t.tick(name("B"), 2 * S);
    t.tick(name("A"), 5 * S);
    t.flush(9 * S);
    assert_eq!(t.table().len(), 2);
    assert_eq!(t.table().get("A"), Some(6 * S));
    assert_eq!(t.table().get("B"), Some(3 * S));
    assert_eq!(t.table().record(0).name, "A");
    assert_eq!(t.table().record(1).name, "B");
    assert_eq!(t.report(), "\napp usage summary:\nA: 6 seconds\nB: 3 seconds\n");
}

#[test]
fn unobserved_application_has_no_record() {
    let mut t = Tracker::new(0);
    t.tick(name("Finder"), 0);
    t.tick(name("Notes"), S);
    t.flush(2 * S);
    assert_eq!(t.table().get("Safari"), None);
    assert_eq!(t.table().position(&name("Safari")), None);
    assert!(!t.report().contains("Safari"));
}

#[test]
fn flush_credits_the_open_interval() {
    let mut t = Tracker::new(0);
    t.tick(name("Mail"), S);
    t.tick(name("Notes"), 2 * S);
    assert_eq!(t.table().get("Notes"), None);
    t.flush(7 * S);
    assert_eq!(t.table().get("Notes"), Some(5 * S));
    assert_eq!(t.table().get("Mail"), Some(S));
    assert_eq!(t.interval_start(), 7 * S);
    assert_eq!(t.current_application(), "Notes");
}

#[test]
fn durations_add_up_to_the_time_since_the_first_tick() {
    let mut t = Tracker::new(3);
    let ticks: [(&str, u64); 7] =
        [("A", 10), ("A", 25), ("B", 40), ("C", 41), ("A", 77), ("B", 90), ("B", 120)];
    for (app, at) in ticks {
        t.tick(name(app), at);
    }
    assert_eq!(t.table().total_nanos(), Some(90 - 10));
    t.flush(120);
    assert_eq!(t.table().total_nanos(), Some(120 - 10));
    assert_eq!(t.table().get("A"), Some(30 + 13));
    assert_eq!(t.table().get("B"), Some(1 + 30));
    assert_eq!(t.table().get("C"), Some(36));
}

#[test]
fn report_does_not_change_with_repetition() {
    let mut t = Tracker::new(0);
    t.tick(name("Finder"), 0);
    t.tick(name("Notes"), 3 * S);
    let first = t.shutdown(5 * S);
    let second = t.report();
    let third = t.shutdown(5 * S);
    assert_eq!(first, second);
    assert_eq!(first, third);
    assert_eq!(t.table().get("Notes"), Some(2 * S));
}

#[test]
fn whole_seconds_are_taken_of_the_sum() {
    let mut t = Tracker::new(0);
    t.tick(name("A"), 0);
    t.tick(name("B"), 1_500_000_000);
    t.tick(name("A"), 2_499_999_999);
    t.flush(3_999_999_999);
    assert_eq!(t.table().get("A"), Some(3_000_000_000));
    assert_eq!(t.table().get("B"), Some(999_999_999));
    assert_eq!(t.report(), "\napp usage summary:\nA: 3 seconds\nB: 0 seconds\n");
}

#[test]
fn empty_name_is_compared_like_any_other() {
    let mut t = Tracker::new(0);
    assert!(!t.tick(name(""), S));
    assert_eq!(t.interval_start(), 0);
    assert!(t.tick(name("A"), 2 * S));
    assert!(t.tick(name(""), 5 * S));
    assert_eq!(t.table().get("A"), Some(3 * S));
    assert!(t.tick(name("B"), 9 * S));
    assert_eq!(t.table().len(), 1);
    assert_eq!(t.table().get(""), None);
    t.flush(10 * S);
    assert_eq!(t.table().total_nanos(), Some(4 * S));
}

#[test]
fn tick_without_a_name_is_skipped() {
    let mut t = Tracker::new(0);
    t.tick(name("A"), S);
    assert!(!t.observe(None, 4 * S));
    assert_eq!(t.current_application(), "A");
    assert_eq!(t.interval_start(), S);
    assert_eq!(t.table().len(), 0);
    assert!(t.observe(Some(name("B")), 5 * S));
    assert_eq!(t.table().get("A"), Some(4 * S));
}

#[test]
fn update_ticks_then_exits_with_the_summary() {
    let mut t = Tracker::new(0);
    let a = t.update(Event::Tick { foreground: Some(name("Finder")) }, 0);
    assert!(matches!(a, Action::Continue));
    let a = t.update(Event::Tick { foreground: None }, S);
    assert!(matches!(a, Action::Continue));
    let a = t.update(Event::Tick { foreground: Some(name("Notes")) }, 3 * S);
    assert!(matches!(a, Action::Continue));
    match t.update(Event::Exit, 5 * S) {
        Action::Report(text) => {
            assert_eq!(text, "\napp usage summary:\nFinder: 3 seconds\nNotes: 2 seconds\n")
        }
        Action::Continue => panic!("an exit must hand back the summary"),
    }
}

#[test]
fn status_label_names_the_foreground_application() {
    let mut t = Tracker::new(0);
    assert_eq!(t.status_label(), "current app: ");
    t.tick(name("Terminal"), S);
    assert_eq!(t.status_label(), "current app: Terminal");
}

#[test]
fn table_commit_inserts_then_adds() {
    let mut table = UsageTable::new();
    assert_eq!(table.len(), 0);
    table.commit(name("A"), 5);
    table.commit(name("B"), 7);
    table.commit(name("A"), 11);
    assert_eq!(table.len(), 2);
    assert_eq!(table.get("A"), Some(16));
    assert_eq!(table.get("B"), Some(7));
    assert_eq!(table.get("C"), None);
    assert_eq!(table.position(&name("B")), Some(1));
    assert_eq!(table.record(0).nanos, 16);
    assert_eq!(table.record(0).seconds(), 0);
    assert_eq!(table.record(1).name, "B");
    assert_eq!(table.total_nanos(), Some(23));
}

#[test]
fn table_total_that_does_not_fit() {
    let mut table = UsageTable::new();
    table.commit(name("A"), u64::MAX);
    table.commit(name("B"), 1);
    assert_eq!(table.total_nanos(), None);
    assert_eq!(table.get("A"), Some(u64::MAX));
}

#[test]
fn table_commit_of_nothing_still_makes_a_record() {
    let mut table = UsageTable::new();
    table.commit(name("A"), 0);
    assert_eq!(table.len(), 1);
    assert_eq!(table.get("A"), Some(0));
}

#[test]
fn record_seconds_drop_the_fraction() {
    let mut table = UsageTable::new();
    table.commit(name("A"), 1_999_999_999);
    assert_eq!(table.record(0).seconds(), 1);
    table.commit(name("A"), 1);
    assert_eq!(table.record(0).seconds(), 2);
    table.commit(name("B"), u64::MAX);
    assert_eq!(table.record(1).seconds(), 18_446_744_073);
}

#[test]
fn position_is_in_order_of_first_credit() {
    let mut t = Tracker::new(0);
    t.tick(name("C"), 0);
    t.tick(name("A"), 1);
    t.tick(name("B"), 2);
    t.tick(name("C"), 3);
    t.tick(name("A"), 4);
    t.flush(5);
    assert_eq!(t.table().position(&name("C")), Some(0));
    assert_eq!(t.table().position(&name("A")), Some(1));
    assert_eq!(t.table().position(&name("B")), Some(2));
    assert_eq!(t.table().get("C"), Some(2));
    assert_eq!(t.table().get("A"), Some(2));
    assert_eq!(t.table().get("B"), Some(1));
}
