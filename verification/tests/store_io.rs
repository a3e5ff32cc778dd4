use rtk_tracking::store::{Tracker, track, track_tokens};
use rtk_tracking::calendar::format_rfc3339;

/// A fresh shared in-memory store; the raw connection below reaches the
/// same database while the tracker holds it open.
fn fresh_tracker(name: &str) -> Tracker {
    let path = format!("file:{}?mode=memory&cache=shared", name);
    let tracker = Tracker::open(path.as_str()).expect("open store");
    let conn = rusqlite::Connection::open(path.as_str()).expect("open raw");
    conn.execute("DELETE FROM commands", []).expect("clear");
    tracker
}

fn raw_conn(name: &str) -> rusqlite::Connection {
    let path = format!("file:{}?mode=memory&cache=shared", name);
    rusqlite::Connection::open(path.as_str()).expect("open raw")
}

fn now_secs() -> u64 {
    chrono::Utc::now().timestamp() as u64
}

#[test]
fn record_and_summarize() {
    let t = fresh_tracker("store_record");
    t.record("ls -la", "rtk ls", 100, 40).expect("record");
    let s = t.get_summary().expect("summary");
    assert_eq!(s.total_commands, 1);
    assert_eq!(s.total_input, 100);
    assert_eq!(s.total_output, 40);
    assert_eq!(s.total_saved, 60);
    assert_eq!(s.avg_savings_pct_hundredths, 6000);
    assert_eq!(s.by_command.len(), 1);
    assert_eq!(s.by_command[0].rtk_cmd, "rtk ls");
    assert_eq!(s.by_day.len(), 1);
    assert_eq!(s.by_day[0].saved_tokens, 60);
}

#[test]
fn record_zero_input_no_underflow() {
    let t = fresh_tracker("store_zero");
    t.record("x", "rtk x", 0, 10).expect("record");
    let s = t.get_summary().expect("summary");
    assert_eq!(s.total_saved, 0);
    assert_eq!(s.avg_savings_pct_hundredths, 0);
}

#[test]
fn empty_store_summary() {
    let t = fresh_tracker("store_empty");
    let s = t.get_summary().expect("summary");
    assert_eq!(s.total_commands, 0);
    assert_eq!(s.avg_savings_pct_hundredths, 0);
    assert!(s.by_command.is_empty());
    assert!(s.by_day.is_empty());
}

#[test]
fn retention_prunes_old_rows() {
    let t = fresh_tracker("store_retention");
    // Plant a row stamped 91 days ago, bypassing the write path.
    let old_ts = format_rfc3339(now_secs() - 91 * 86400);
    let conn = raw_conn("store_retention");
    conn.execute(
        "INSERT INTO commands (timestamp, original_cmd, rtk_cmd, input_tokens, output_tokens, saved_tokens, savings_pct) VALUES (?1, ?2, ?3, ?4, ?5, ?6, ?7)",
        (old_ts.as_str(), "old", "rtk old", 10i64, 5i64, 5i64, 50i64),
    )
    .expect("insert old row");
    // Appending a fresh record prunes everything past the horizon.
    t.record("new", "rtk new", 100, 40).expect("record");
    let count: i64 = conn
        .query_row("SELECT COUNT(*) FROM commands", [], |r| r.get(0))
        .expect("count");
    assert_eq!(count, 1);
    let recent = t.get_recent(10).expect("recent");
    assert_eq!(recent.len(), 1);
    assert_eq!(recent[0].rtk_cmd, "rtk new");
}

#[test]
fn recent_rows_within_horizon_survive() {
    let t = fresh_tracker("store_keep");
    let kept_ts = format_rfc3339(now_secs() - 10 * 86400);
    let conn = raw_conn("store_keep");
    conn.execute(
        "INSERT INTO commands (timestamp, original_cmd, rtk_cmd, input_tokens, output_tokens, saved_tokens, savings_pct) VALUES (?1, ?2, ?3, ?4, ?5, ?6, ?7)",
        (kept_ts.as_str(), "kept", "rtk kept", 10i64, 5i64, 5i64, 50i64),
    )
    .expect("insert kept row");
    t.record("new", "rtk new", 100, 40).expect("record");
    let s = t.get_summary().expect("summary");
    assert_eq!(s.total_commands, 2);
}

#[test]
fn malformed_timestamp_recovers_as_now() {
    let t = fresh_tracker("store_malformed");
    let conn = raw_conn("store_malformed");
    conn.execute(
        "INSERT INTO commands (timestamp, original_cmd, rtk_cmd, input_tokens, output_tokens, saved_tokens, savings_pct) VALUES (?1, ?2, ?3, ?4, ?5, ?6, ?7)",
        ("garbage", "x", "rtk x", 40i64, 10i64, 30i64, 75i64),
    )
    .expect("insert malformed row");
    // The row still counts; its timestamp is taken as the current time.
    let s = t.get_summary().expect("summary");
    assert_eq!(s.total_commands, 1);
    assert_eq!(s.total_saved, 30);
    let today = now_secs() / 86400;
    let days = t.get_all_days().expect("days");
    assert_eq!(days.len(), 1);
    assert_eq!(days[0].day as u64, today);
}

#[test]
fn corrupt_saved_count_is_capped() {
    let t = fresh_tracker("store_corrupt");
    let ts = format_rfc3339(now_secs());
    let conn = raw_conn("store_corrupt");
    conn.execute(
        "INSERT INTO commands (timestamp, original_cmd, rtk_cmd, input_tokens, output_tokens, saved_tokens, savings_pct) VALUES (?1, ?2, ?3, ?4, ?5, ?6, ?7)",
        (ts.as_str(), "x", "rtk x", 10i64, 0i64, 99i64, 990i64),
    )
    .expect("insert corrupt row");
    let s = t.get_summary().expect("summary");
    // The stored saved count exceeds the input count; reads restore the
    // record invariant by capping it.
    assert_eq!(s.total_saved, 10);
}

#[test]
fn stored_percentage_column_matches_counts() {
    let t = fresh_tracker("store_pct");
    t.record("ls", "rtk ls", 100, 40).expect("record");
    let conn = raw_conn("store_pct");
    let pct: f64 = conn
        .query_row("SELECT savings_pct FROM commands", [], |r| r.get(0))
        .expect("pct");
    assert_eq!(pct, 60.0);
}

#[test]
fn best_effort_tracking_never_panics() {
    let t = fresh_tracker("store_track");
    track(&t, "cat big.txt", "rtk cat big.txt", "0123456789", "0123");
    track_tokens(&t, "du -sh", "rtk du", 500, 125);
    let s = t.get_summary().expect("summary");
    assert_eq!(s.total_commands, 2);
    // track estimated ceil(10/4)=3 input and ceil(4/4)=1 output tokens.
    assert_eq!(s.total_input, 503);
    assert_eq!(s.total_output, 126);
    assert_eq!(s.total_saved, 377);
}

#[test]
fn weekly_and_monthly_through_store() {
    let t = fresh_tracker("store_buckets");
    t.record("a", "rtk a", 80, 20).expect("record");
    let weeks = t.get_by_week().expect("weeks");
    assert_eq!(weeks.len(), 1);
    assert_eq!(weeks[0].commands, 1);
    assert_eq!(weeks[0].saved_tokens, 60);
    let months = t.get_by_month().expect("months");
    assert_eq!(months.len(), 1);
    assert_eq!(months[0].commands, 1);
    assert_eq!(months[0].saved_tokens, 60);
}
