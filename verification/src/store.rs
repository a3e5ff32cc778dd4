//! The durable record store and its public API.
//!
//! Records live in one SQLite table, reached through rusqlite behind the
//! trusted wrappers below. Every timestamp is written and read as RFC 3339
//! text by the verified calendar code; every rollup is computed by the
//! verified aggregation code from the rows a query returned. What the
//! wrappers promise is deliberately nothing: the disk may hold anything, so
//! each read path sanitizes what came back (a malformed timestamp becomes
//! the current time, out-of-range counts are clamped, and a stored
//! saved-token count above the stored input count is cut down to it,
//! restoring the record invariant) and the rollup contracts hold of every
//! outcome.

use vstd::prelude::*;
use crate::aggregate::{
    all_wf, daily_breakdown, weekly_breakdown, monthly_breakdown, most_recent, summarize,
    DayStats, WeekStats, MonthStats, GainSummary, recent_day_series_of, recent_selection_of,
};
use crate::calendar::{TS_MAX, format_rfc3339, parse_rfc3339, parse_ts_bytes, ascii_chars,
    day_label_bytes, month_label_bytes};
use crate::record::{
    CommandRecord, estimate_tokens, saved_tokens, savings_pct_hundredths, spec_pct_hundredths,
};
use crate::rank::rank_le;

verus! {

/// Records older than this many seconds (ninety days) are pruned after
/// every append.
pub const RETENTION_SECONDS: u64 = 90 * 86400;

#[verifier::external_type_specification]
#[verifier::external_body]
pub struct ExConnection(rusqlite::Connection);

#[verifier::external_type_specification]
#[verifier::external_body]
pub struct ExSqlError(rusqlite::Error);

/// Why a store operation failed: the medium could not be opened or
/// written, or a query could not be run against the existing file.
#[derive(Debug)]
pub enum TrackError {
    Persistence(String),
    Query(String),
}

impl TrackError {
    /// The underlying storage engine's message.
    pub fn message(&self) -> (r: &String)
        ensures
            r == match self {
                TrackError::Persistence(m) => m,
                TrackError::Query(m) => m,
            },
    {
        match self {
            TrackError::Persistence(m) => m,
            TrackError::Query(m) => m,
        }
    }
}

/// Relies on rusqlite::Connection::open: opens the database file at
/// `path`, creating it if absent.
#[verifier::external_body]
fn open_connection(path: &str) -> Result<rusqlite::Connection, rusqlite::Error> {
    rusqlite::Connection::open(path)
}

/// Relies on rusqlite::Connection::execute with no SQL parameters.
#[verifier::external_body]
fn exec_sql(conn: &rusqlite::Connection, sql: &str) -> Result<usize, rusqlite::Error> {
    conn.execute(sql, [])
}

/// Relies on rusqlite::Connection::execute with one text parameter.
#[verifier::external_body]
fn exec_sql_text(conn: &rusqlite::Connection, sql: &str, arg: &str) -> Result<
    usize,
    rusqlite::Error,
> {
    conn.execute(sql, (arg,))
}

/// Relies on rusqlite::Connection::execute, binding the row's three texts
/// and three counts.
#[verifier::external_body]
fn exec_insert(
    conn: &rusqlite::Connection,
    sql: &str,
    ts: &str,
    orig: &str,
    rtk: &str,
    input: i64,
    output: i64,
    saved: i64,
) -> Result<usize, rusqlite::Error> {
    conn.execute(sql, (ts, orig, rtk, input, output, saved))
}

/// Relies on rusqlite::Connection::prepare and Statement::query_map: runs
/// the six-column query and converts each row to a tuple of plain values.
#[verifier::external_body]
fn query_rows(conn: &rusqlite::Connection, sql: &str) -> Result<
    Vec<(String, String, String, i64, i64, i64)>,
    rusqlite::Error,
> {
    let mut stmt = conn.prepare(sql)?;
    let rows = stmt.query_map(
        [],
        |r| Ok((r.get(0)?, r.get(1)?, r.get(2)?, r.get(3)?, r.get(4)?, r.get(5)?)),
    )?;
    rows.collect()
}

/// Relies on rusqlite::Error::sqlite_error_code: whether the engine
/// reported transient contention (the database busy or locked).
#[verifier::external_body]
fn is_busy_error(e: &rusqlite::Error) -> bool {
    matches!(
        e.sqlite_error_code(),
        Some(rusqlite::ErrorCode::DatabaseBusy) | Some(rusqlite::ErrorCode::DatabaseLocked)
    )
}

/// Relies on the Display impl of rusqlite::Error for a readable message.
#[verifier::external_body]
fn sql_error_text(e: &rusqlite::Error) -> String {
    format!("{}", e)
}

/// Relies on chrono::Utc::now; `timestamp` converts the instant to seconds
/// since the Unix epoch. Nothing is promised of a clock.
#[verifier::external_body]
fn now_unix_seconds() -> i64 {
    chrono::Utc::now().timestamp()
}

/// The current instant, clamped into the supported range.
fn clamped_now() -> (r: u64)
    ensures
        r <= TS_MAX,
{
    let t = now_unix_seconds();
    if t < 0 {
        0
    } else if t as u64 > TS_MAX {
        TS_MAX
    } else {
        t as u64
    }
}

/// An `i64` column value read as a count: negative values become zero.
pub open spec fn spec_clamp_count(v: i64) -> u64 {
    if v < 0 {
        0u64
    } else {
        v as u64
    }
}

/// The record a stored row denotes after sanitizing: malformed timestamps
/// become `now`, negative counts zero, and the saved count is capped at the
/// input count.
pub open spec fn spec_row_record(row: (String, String, String, i64, i64, i64), now: u64) -> CommandRecord {
    let ts = match parse_ts_bytes(vstd::utf8::encode_utf8(row.0@)) {
        Some(t) => t as u64,
        None => now,
    };
    let input = spec_clamp_count(row.3);
    let saved_raw = spec_clamp_count(row.5);
    let saved = if saved_raw > input {
        input
    } else {
        saved_raw
    };
    CommandRecord {
        timestamp: ts,
        original_cmd: row.1,
        rtk_cmd: row.2,
        input_tokens: input,
        output_tokens: spec_clamp_count(row.4),
        saved_tokens: saved,
        savings_pct_hundredths: spec_pct_hundredths(saved, input) as u64,
    }
}

/// Sanitizes the rows a query returned into well-formed records.
fn rows_to_records(rows: &Vec<(String, String, String, i64, i64, i64)>, now: u64) -> (r: Vec<
    CommandRecord,
>)
    requires
        now <= TS_MAX,
    ensures
        r@.len() == rows@.len(),
        forall|i: int| 0 <= i < rows@.len() ==> #[trigger] r@[i] == spec_row_record(rows@[i], now),
        all_wf(r@),
{
    let n = rows.len();
    let mut r: Vec<CommandRecord> = Vec::new();
    let mut i: usize = 0;
    while i < n
        invariant
            now <= TS_MAX,
            n == rows@.len(),
            i <= n,
            r@.len() == i,
            forall|t: int| 0 <= t < i ==> #[trigger] r@[t] == spec_row_record(rows@[t], now),
            forall|t: int| 0 <= t < i ==> (#[trigger] r@[t]).wf(),
        decreases n - i,
    {
        let row = &rows[i];
        let ts = match parse_rfc3339(row.0.as_str()) {
            Some(t) => t,
            None => now,
        };
        let input: u64 = if row.3 < 0 {
            0
        } else {
            row.3 as u64
        };
        let output: u64 = if row.4 < 0 {
            0
        } else {
            row.4 as u64
        };
        let saved_raw: u64 = if row.5 < 0 {
            0
        } else {
            row.5 as u64
        };
        let saved = if saved_raw > input {
            input
        } else {
            saved_raw
        };
        let pct = savings_pct_hundredths(saved, input);
        let rec = CommandRecord {
            timestamp: ts,
            original_cmd: row.1.clone(),
            rtk_cmd: row.2.clone(),
            input_tokens: input,
            output_tokens: output,
            saved_tokens: saved,
            savings_pct_hundredths: pct,
        };
        assert(rec == spec_row_record(rows@[i as int], now));
        r.push(rec);
        i = i + 1;
    }
    r
}

/// The durable store of command-usage records.
pub struct Tracker {
    conn: rusqlite::Connection,
}

impl Tracker {
    /// Opens the store at `path`, creating the file, the table and the
    /// timestamp index if absent; safe to call on every open.
    pub fn open(path: &str) -> Result<Tracker, TrackError> {
        let conn = match open_connection(path) {
            Ok(c) => c,
            Err(e) => {
                return Err(TrackError::Persistence(sql_error_text(&e)));
            },
        };
        match exec_sql(
            &conn,
            "CREATE TABLE IF NOT EXISTS commands (id INTEGER PRIMARY KEY, timestamp TEXT NOT NULL, original_cmd TEXT NOT NULL, rtk_cmd TEXT NOT NULL, input_tokens INTEGER NOT NULL, output_tokens INTEGER NOT NULL, saved_tokens INTEGER NOT NULL, savings_pct REAL NOT NULL)",
        ) {
            Ok(_) => {
            },
            Err(e) => {
                return Err(TrackError::Query(sql_error_text(&e)));
            },
        }
        match exec_sql(&conn, "CREATE INDEX IF NOT EXISTS idx_timestamp ON commands(timestamp)") {
            Ok(_) => {
            },
            Err(e) => {
                return Err(TrackError::Query(sql_error_text(&e)));
            },
        }
        Ok(Tracker { conn })
    }

    /// Takes the write lock, retrying a bounded number of times when other
    /// writers hold it; the tool is invoked concurrently from shells.
    fn begin_write(&self) -> Result<usize, rusqlite::Error> {
        let mut tries: u8 = 0;
        loop
            invariant
                tries <= 2,
            decreases 3 - tries,
        {
            let r = exec_sql(&self.conn, "BEGIN IMMEDIATE");
            match &r {
                Ok(_) => {
                    return r;
                },
                Err(e) => {
                    if tries >= 2 || !is_busy_error(e) {
                        return r;
                    }
                },
            }
            tries = tries + 1;
        }
    }

    /// Appends one record with its derived fields computed here (the stored
    /// percentage column is derived in SQL from the same counts), then
    /// prunes rows older than the retention horizon. The append and the
    /// prune commit as one unit relative to other writers.
    pub fn record(
        &self,
        original_cmd: &str,
        rtk_cmd: &str,
        input_tokens: usize,
        output_tokens: usize,
    ) -> Result<(), TrackError>
        requires
            input_tokens as u64 <= i64::MAX as u64,
            output_tokens as u64 <= i64::MAX as u64,
    {
        let saved = saved_tokens(input_tokens as u64, output_tokens as u64);
        let now = clamped_now();
        let ts = format_rfc3339(now);
        if let Err(e) = self.begin_write() {
            return Err(TrackError::Persistence(sql_error_text(&e)));
        }
        match exec_insert(
            &self.conn,
            "INSERT INTO commands (timestamp, original_cmd, rtk_cmd, input_tokens, output_tokens, saved_tokens, savings_pct) VALUES (?1, ?2, ?3, ?4, ?5, ?6, CASE WHEN ?4 > 0 THEN CAST(?6 * 100 AS REAL) / ?4 ELSE 0 END)",
            ts.as_str(),
            original_cmd,
            rtk_cmd,
            input_tokens as i64,
            output_tokens as i64,
            saved as i64,
        ) {
            Ok(_) => {
            },
            Err(e) => {
                let _ = exec_sql(&self.conn, "ROLLBACK");
                return Err(TrackError::Persistence(sql_error_text(&e)));
            },
        }
        if let Err(e) = self.cleanup_old(now) {
            let _ = exec_sql(&self.conn, "ROLLBACK");
            return Err(e);
        }
        match exec_sql(&self.conn, "COMMIT") {
            Ok(_) => Ok(()),
            Err(e) => Err(TrackError::Persistence(sql_error_text(&e))),
        }
    }

    /// Deletes rows whose timestamp text orders before the cutoff's; the
    /// store's fixed-width timestamps order chronologically.
    fn cleanup_old(&self, now: u64) -> Result<(), TrackError>
        requires
            now <= TS_MAX,
    {
        let cutoff = if now >= RETENTION_SECONDS {
            now - RETENTION_SECONDS
        } else {
            0
        };
        let cs = format_rfc3339(cutoff);
        match exec_sql_text(&self.conn, "DELETE FROM commands WHERE timestamp < ?1", cs.as_str()) {
            Ok(_) => Ok(()),
            Err(e) => Err(TrackError::Persistence(sql_error_text(&e))),
        }
    }

    /// All rows, sanitized into records. What the disk holds cannot be
    /// promised; what is, is that every returned record is well-formed.
    fn load_records(&self) -> (r: Result<Vec<CommandRecord>, TrackError>)
        ensures
            r matches Ok(v) ==> all_wf(v@),
    {
        let rows = match query_rows(
            &self.conn,
            "SELECT timestamp, original_cmd, rtk_cmd, input_tokens, output_tokens, saved_tokens FROM commands",
        ) {
            Ok(v) => v,
            Err(e) => {
                return Err(TrackError::Query(sql_error_text(&e)));
            },
        };
        let now = clamped_now();
        Ok(rows_to_records(&rows, now))
    }

    /// The overall summary. Whatever the disk held, the summary is
    /// internally consistent: the average is derived from the pooled
    /// totals, the ranking is ordered and at most ten long, and the daily
    /// series is at most thirty points in ascending date order.
    pub fn get_summary(&self) -> (r: Result<GainSummary, TrackError>)
        ensures
            r matches Ok(s) ==> {
                &&& s.avg_savings_pct_hundredths == spec_pct_hundredths(
                    s.total_saved,
                    s.total_input,
                )
                &&& s.by_command@.len() <= 10
                &&& forall|a: int, b: int|
                    0 <= a < b < s.by_command@.len() ==> rank_le(
                        s.by_command@[a],
                        s.by_command@[b],
                    )
                &&& s.by_day@.len() <= 30
                &&& forall|a: int, b: int|
                    0 <= a < b < s.by_day@.len() ==> s.by_day@[a].day < s.by_day@[b].day
                &&& exists|rs: Seq<CommandRecord>|
                    #[trigger] all_wf(rs) && recent_day_series_of(rs, s.by_day@)
            },
    {
        let recs = match self.load_records() {
            Ok(v) => v,
            Err(e) => {
                return Err(e);
            },
        };
        let s = summarize(&recs);
        proof {
            assert(all_wf(recs@) && recent_day_series_of(recs@, s.by_day@));
        }
        Ok(s)
    }

    /// The full daily breakdown, oldest date first.
    pub fn get_all_days(&self) -> (r: Result<Vec<DayStats>, TrackError>)
        ensures
            r matches Ok(v) ==> {
                &&& forall|a: int, b: int| 0 <= a < b < v@.len() ==> v@[a].day < v@[b].day
                &&& forall|j: int|
                    0 <= j < v@.len() ==> (#[trigger] v@[j]).date@ == ascii_chars(
                        day_label_bytes(v@[j].day as int),
                    ) && v@[j].savings_pct_hundredths == spec_pct_hundredths(
                        v@[j].saved_tokens,
                        v@[j].input_tokens,
                    )
            },
    {
        let recs = match self.load_records() {
            Ok(v) => v,
            Err(e) => {
                return Err(e);
            },
        };
        Ok(daily_breakdown(&recs))
    }

    /// The trailing-week breakdown, oldest window first.
    pub fn get_by_week(&self) -> (r: Result<Vec<WeekStats>, TrackError>)
        ensures
            r matches Ok(v) ==> {
                &&& forall|a: int, b: int|
                    0 <= a < b < v@.len() ==> v@[a].week_start_day < v@[b].week_start_day
                &&& forall|j: int|
                    0 <= j < v@.len() ==> (#[trigger] v@[j]).week_start@ == ascii_chars(
                        day_label_bytes(v@[j].week_start_day as int),
                    ) && v@[j].week_end@ == ascii_chars(
                        day_label_bytes(v@[j].week_start_day + 6),
                    ) && v@[j].savings_pct_hundredths == spec_pct_hundredths(
                        v@[j].saved_tokens,
                        v@[j].input_tokens,
                    )
            },
    {
        let recs = match self.load_records() {
            Ok(v) => v,
            Err(e) => {
                return Err(e);
            },
        };
        Ok(weekly_breakdown(&recs))
    }

    /// The calendar-month breakdown, oldest month first.
    pub fn get_by_month(&self) -> (r: Result<Vec<MonthStats>, TrackError>)
        ensures
            r matches Ok(v) ==> {
                &&& forall|a: int, b: int|
                    0 <= a < b < v@.len() ==> v@[a].month_key < v@[b].month_key
                &&& forall|j: int|
                    0 <= j < v@.len() ==> (#[trigger] v@[j]).month@ == ascii_chars(
                        month_label_bytes(v@[j].month_key as int),
                    ) && v@[j].savings_pct_hundredths == spec_pct_hundredths(
                        v@[j].saved_tokens,
                        v@[j].input_tokens,
                    )
            },
    {
        let recs = match self.load_records() {
            Ok(v) => v,
            Err(e) => {
                return Err(e);
            },
        };
        Ok(monthly_breakdown(&recs))
    }

    /// At most `limit` records, newest first.
    pub fn get_recent(&self, limit: usize) -> (r: Result<Vec<CommandRecord>, TrackError>)
        ensures
            r matches Ok(v) ==> {
                &&& v@.len() <= limit
                &&& forall|a: int, b: int|
                    0 <= a < b < v@.len() ==> v@[a].timestamp >= v@[b].timestamp
                &&& all_wf(v@)
                &&& exists|rs: Seq<CommandRecord>|
                    #[trigger] all_wf(rs) && recent_selection_of(rs, v@, limit as int)
            },
    {
        let recs = match self.load_records() {
            Ok(v) => v,
            Err(e) => {
                return Err(e);
            },
        };
        proof {
            assert(forall|j: int|
                0 <= j < recs@.len() ==> (#[trigger] recs@[j]).wf());
        }
        let ghost grecs = recs@;
        let picked = most_recent(recs, limit);
        proof {
            assert forall|j: int| 0 <= j < picked@.len() implies (#[trigger] picked@[j]).wf() by {
            }
            assert(all_wf(grecs) && recent_selection_of(grecs, picked@, limit as int));
        }
        Ok(picked)
    }
}

/// Best-effort tracking from raw texts: token counts are estimated from
/// byte length, and every storage failure is discarded — telemetry must
/// never disturb the command it measures.
pub fn track(tracker: &Tracker, original_cmd: &str, rtk_cmd: &str, input: &str, output: &str) {
    let input_tokens = estimate_tokens(input);
    let output_tokens = estimate_tokens(output);
    track_tokens(tracker, original_cmd, rtk_cmd, input_tokens, output_tokens);
}

/// Best-effort tracking with pre-computed token counts; every storage
/// failure is discarded.
pub fn track_tokens(
    tracker: &Tracker,
    original_cmd: &str,
    rtk_cmd: &str,
    input_tokens: usize,
    output_tokens: usize,
) {
    let cap = i64::MAX as u64;
    let i = if input_tokens as u64 > cap {
        cap as usize
    } else {
        input_tokens
    };
    let o = if output_tokens as u64 > cap {
        cap as usize
    } else {
        output_tokens
    };
    let _ = tracker.record(original_cmd, rtk_cmd, i, o);
}

} // verus!
