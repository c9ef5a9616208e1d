use rsy::pipeline::{FileRecord, ProgressEvent, Stats};
use rsy::tui::{eta_str, literal_percent, time_of_day, trim_path, TuiState, MAX_RECENT};

fn record(path: &str, size: u64, skipped: bool) -> FileRecord {
    FileRecord { path: path.to_string(), size, literal: size, matched: 1, skipped }
}

#[test]
fn tui_counts_files() {
    let mut s = TuiState::new("a".to_string(), "b".to_string());
    s.apply(ProgressEvent::Start { total_files: 3, total_bytes: 100 }, 0);
    s.apply(ProgressEvent::File(record("x", 30, false)), 1);
    s.apply(ProgressEvent::File(record("y", 20, true)), 2);
    assert_eq!((s.total_files, s.total_bytes), (3, 100));
    assert_eq!((s.done_files, s.skipped, s.done_bytes), (1, 1, 50));
    assert_eq!((s.literal, s.matched), (30, 1));
    assert_eq!(s.remaining(), 50);
    assert_eq!(s.recent.len(), 2);
    assert_eq!(s.speed_window.len(), 2);
    assert!(!s.finished);
}

#[test]
fn tui_forgets_old_files_and_samples() {
    let mut s = TuiState::new("a".to_string(), "b".to_string());
    for i in 0..(MAX_RECENT as u64 + 5) {
        s.apply(ProgressEvent::File(record(&format!("{i}"), 1, false)), i * 1_000_000_000);
    }
    assert_eq!(s.recent.len(), MAX_RECENT);
    assert_eq!(s.recent[0].path, "5");
    // A second apart: the newest and the four before it are within the span.
    assert_eq!(s.speed_window.len(), 5);
    assert_eq!(s.speed_sample(), Some((4, 4_000_000_000)));
}

#[test]
fn tui_speed_needs_time() {
    let mut s = TuiState::new("a".to_string(), "b".to_string());
    assert_eq!(s.speed_sample(), None);
    s.apply(ProgressEvent::File(record("x", 10, false)), 0);
    assert_eq!(s.speed_sample(), None);
    s.apply(ProgressEvent::File(record("y", 10, false)), 9_999_999);
    assert_eq!(s.speed_sample(), None);
    s.apply(ProgressEvent::File(record("z", 10, false)), 10_000_000);
    assert_eq!(s.speed_sample(), Some((20, 10_000_000)));
}

#[test]
fn tui_ends_with_the_stats() {
    let mut s = TuiState::new("a".to_string(), "b".to_string());
    let stats = Stats {
        files_total: 9,
        files_xferred: 4,
        files_skipped: 5,
        files_errored: 0,
        literal_bytes: 6,
        matched_bytes: 7,
        total_size: 8,
    };
    s.apply(ProgressEvent::Done(stats), 0);
    assert_eq!((s.done_files, s.skipped, s.literal, s.matched), (4, 5, 6, 7));
    assert_eq!(s.done_bytes, 8);
    assert!(s.finished && s.error.is_none());
    assert_eq!(s.remaining(), 0);
}

#[test]
fn tui_ends_with_an_error() {
    let mut s = TuiState::new("a".to_string(), "b".to_string());
    s.apply(ProgressEvent::Error("boom".to_string()), 0);
    assert_eq!(s.error.as_deref(), Some("boom"));
    assert!(s.finished);
    s.disconnect(false);
    assert_eq!(s.error.as_deref(), Some("boom"));
    let mut t = TuiState::new("a".to_string(), "b".to_string());
    t.disconnect(true);
    assert!(t.finished && t.error.is_none());
    let mut u = TuiState::new("a".to_string(), "b".to_string());
    u.disconnect(false);
    assert_eq!(u.error.as_deref(), Some("progress channel disconnected"));
}

#[test]
fn eta_is_written_as_a_clock() {
    assert_eq!(eta_str(None), "--:--:--");
    assert_eq!(eta_str(Some(0)), "00:00:00");
    assert_eq!(eta_str(Some(3_661)), "01:01:01");
    assert_eq!(eta_str(Some(360_000 + 59)), "100:00:59");
}

#[test]
fn time_of_day_wraps_at_midnight() {
    assert_eq!(time_of_day(0), "00:00:00");
    assert_eq!(time_of_day(86_399), "23:59:59");
    assert_eq!(time_of_day(86_400 + 60), "00:01:00");
}

#[test]
fn paths_fit_their_column() {
    assert_eq!(trim_path("abc", 5), "abc  ");
    assert_eq!(trim_path("abcde", 5), "abcde");
    assert_eq!(trim_path("abcdefg", 5), ">defg");
    assert_eq!(trim_path("abcdefg", 1), ">");
    assert_eq!(trim_path("é", 3), "é  ");
    assert_eq!(trim_path("xéyz", 3), ">yz");
}

#[test]
fn percent_of_literal_bytes() {
    assert_eq!(literal_percent(0, 0), 0);
    assert_eq!(literal_percent(1, 2), 33);
    assert_eq!(literal_percent(5, 0), 100);
    assert_eq!(literal_percent(u64::MAX, 0), 1);
}
