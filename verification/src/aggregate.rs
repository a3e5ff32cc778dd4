//! Time-bucketed rollups over a set of records.
//!
//! Every rollup is a read-only computation over a vector of records. A
//! bucket is keyed by an integer: the epoch day, the epoch day of the
//! trailing week's start (the record's day rolled forward to the nearest
//! Sunday, minus six — deliberately not an ISO week), or the consecutive
//! month number. Per-bucket token sums saturate at `u64::MAX`; counts are
//! exact. The contracts tie every bucket to `bucket_*` spec sums over the
//! record sequence, say that buckets come in strictly ascending key order,
//! and say that per-bucket counts and sums re-add to the grand totals.

use vstd::prelude::*;
use vstd::multiset::Multiset;
use crate::calendar::{
    TS_MAX, DAY_END, spec_week_start_of_ts, spec_month_key_of_ts, day_of_ts,
    week_start_of_ts, month_key_of_ts, day_label, month_label, day_label_bytes, month_label_bytes,
    ascii_chars,
};
use crate::record::{CommandRecord, spec_pct_hundredths, savings_pct_hundredths};
use crate::sums::{
    total_where, total_of, sum, sat64, fold_sat, group_sums, lemma_partition, lemma_sat_add,
    lemma_sat_fold,
};

verus! {

// ---------------------------------------------------------------------------
// Bucket keys and summed weights
// ---------------------------------------------------------------------------

pub open spec fn day_key(r: CommandRecord) -> i64 {
    (r.timestamp / 86400) as i64
}

pub open spec fn week_key(r: CommandRecord) -> i64 {
    spec_week_start_of_ts(r.timestamp as int) as i64
}

pub open spec fn month_key(r: CommandRecord) -> i64 {
    spec_month_key_of_ts(r.timestamp as int) as i64
}

pub open spec fn dkeys(s: Seq<CommandRecord>) -> Seq<i64> {
    Seq::new(s.len(), |i: int| day_key(s[i]))
}

pub open spec fn wkeys(s: Seq<CommandRecord>) -> Seq<i64> {
    Seq::new(s.len(), |i: int| week_key(s[i]))
}

pub open spec fn mkeys(s: Seq<CommandRecord>) -> Seq<i64> {
    Seq::new(s.len(), |i: int| month_key(s[i]))
}

pub open spec fn w_one() -> spec_fn(CommandRecord) -> nat {
    |r: CommandRecord| 1nat
}

pub open spec fn w_input() -> spec_fn(CommandRecord) -> nat {
    |r: CommandRecord| r.input_tokens as nat
}

pub open spec fn w_output() -> spec_fn(CommandRecord) -> nat {
    |r: CommandRecord| r.output_tokens as nat
}

pub open spec fn w_saved() -> spec_fn(CommandRecord) -> nat {
    |r: CommandRecord| r.saved_tokens as nat
}

pub open spec fn w_pct() -> spec_fn(CommandRecord) -> nat {
    |r: CommandRecord| r.savings_pct_hundredths as nat
}

/// Count of records among `s` whose key in `keys` is `k`.
pub open spec fn bucket_count(s: Seq<CommandRecord>, keys: Seq<i64>, k: i64) -> nat {
    total_where(s, keys, k, w_one(), s.len() as int)
}

pub open spec fn bucket_sum(
    s: Seq<CommandRecord>,
    keys: Seq<i64>,
    k: i64,
    f: spec_fn(CommandRecord) -> nat,
) -> nat {
    total_where(s, keys, k, f, s.len() as int)
}

pub open spec fn grand_total(s: Seq<CommandRecord>, f: spec_fn(CommandRecord) -> nat) -> nat {
    total_of(s, f, s.len() as int)
}

// ---------------------------------------------------------------------------
// Small facts about the sums
// ---------------------------------------------------------------------------

/// Pointwise-smaller weights give a smaller per-key sum.
proof fn lemma_total_where_le(
    s: Seq<CommandRecord>,
    keys: Seq<i64>,
    k: i64,
    f: spec_fn(CommandRecord) -> nat,
    g: spec_fn(CommandRecord) -> nat,
    n: int,
)
    requires
        forall|i: int| 0 <= i < n ==> f(s[i]) <= g(s[i]),
    ensures
        total_where(s, keys, k, f, n) <= total_where(s, keys, k, g, n),
    decreases n,
{
    if n > 0 {
        lemma_total_where_le(s, keys, k, f, g, n - 1);
    }
}

/// Pointwise-smaller weights give a smaller grand total.
proof fn lemma_total_of_le(
    s: Seq<CommandRecord>,
    f: spec_fn(CommandRecord) -> nat,
    g: spec_fn(CommandRecord) -> nat,
    n: int,
)
    requires
        forall|i: int| 0 <= i < n ==> f(s[i]) <= g(s[i]),
    ensures
        total_of(s, f, n) <= total_of(s, g, n),
    decreases n,
{
    if n > 0 {
        lemma_total_of_le(s, f, g, n - 1);
    }
}

/// Counting one per entry counts the entries.
proof fn lemma_total_one(s: Seq<CommandRecord>, n: int)
    requires
        0 <= n,
    ensures
        total_of(s, w_one(), n) == n,
    decreases n,
{
    if n > 0 {
        lemma_total_one(s, n - 1);
    }
}

// ---------------------------------------------------------------------------
// Distinct sorted keys
// ---------------------------------------------------------------------------

/// The strictly ascending list of the distinct values in `keys`.
fn sorted_distinct(keys: &Vec<i64>) -> (r: Vec<i64>)
    ensures
        forall|a: int, b: int| 0 <= a < b < r@.len() ==> r@[a] < r@[b],
        forall|i: int| 0 <= i < keys@.len() ==> r@.contains(keys@[i]),
        forall|j: int| 0 <= j < r@.len() ==> keys@.contains(r@[j]),
{
    let mut out: Vec<i64> = Vec::new();
    let mut i: usize = 0;
    while i < keys.len()
        invariant
            i <= keys@.len(),
            forall|a: int, b: int| 0 <= a < b < out@.len() ==> out@[a] < out@[b],
            forall|t: int| 0 <= t < i ==> out@.contains(keys@[t]),
            forall|j: int| 0 <= j < out@.len() ==> keys@.contains(out@[j]),
        decreases keys@.len() - i,
    {
        let k = keys[i];
        let mut p: usize = 0;
        while p < out.len() && out[p] < k
            invariant
                p <= out@.len(),
                forall|q: int| 0 <= q < p ==> out@[q] < k,
            decreases out@.len() - p,
        {
            p = p + 1;
        }
        if p == out.len() || out[p] != k {
            let ghost old_out = out@;
            out.insert(p, k);
            assert(out@ == old_out.insert(p as int, k));
            assert forall|a: int, b: int| 0 <= a < b < out@.len() implies out@[a] < out@[b] by {
                if b < p {
                    assert(out@[a] == old_out[a] && out@[b] == old_out[b]);
                } else if a > p {
                    assert(out@[a] == old_out[a - 1] && out@[b] == old_out[b - 1]);
                } else if a == p {
                    assert(out@[a] == k && out@[b] == old_out[b - 1]);
                    assert(!(old_out[p as int] < k) && old_out[p as int] != k);
                } else if b == p {
                    assert(out@[a] == old_out[a] && out@[b] == k);
                } else {
                    assert(out@[a] == old_out[a] && out@[b] == old_out[b - 1]);
                    assert(!(old_out[p as int] < k) && old_out[p as int] != k);
                }
            }
            assert forall|t: int| 0 <= t < i + 1 implies out@.contains(keys@[t]) by {
                if t < i {
                    let w = choose|w: int| 0 <= w < old_out.len() && old_out[w] == keys@[t];
                    if w < p {
                        assert(out@[w] == keys@[t]);
                    } else {
                        assert(out@[w + 1] == keys@[t]);
                    }
                } else {
                    assert(out@[p as int] == k);
                }
            }
            assert forall|j: int| 0 <= j < out@.len() implies keys@.contains(out@[j]) by {
                if j < p {
                    assert(out@[j] == old_out[j]);
                } else if j == p {
                    assert(out@[j] == k && keys@[i as int] == k);
                } else {
                    assert(out@[j] == old_out[j - 1]);
                }
            }
        } else {
            assert(out@[p as int] == k);
        }
        i = i + 1;
    }
    out
}

// ---------------------------------------------------------------------------
// Accumulating one bucket
// ---------------------------------------------------------------------------

/// Count and saturating token sums of the records whose key is `k`.
fn accumulate(recs: &Vec<CommandRecord>, keys: &Vec<i64>, k: i64) -> (r: (u64, u64, u64, u64))
    requires
        keys@.len() == recs@.len(),
        recs@.len() <= u64::MAX,
    ensures
        r.0 == bucket_count(recs@, keys@, k),
        r.1 == sat64(bucket_sum(recs@, keys@, k, w_input())),
        r.2 == sat64(bucket_sum(recs@, keys@, k, w_output())),
        r.3 == sat64(bucket_sum(recs@, keys@, k, w_saved())),
{
    let n = recs.len();
    let mut i: usize = 0;
    let mut cnt: u64 = 0;
    let mut inp: u64 = 0;
    let mut outp: u64 = 0;
    let mut sav: u64 = 0;
    while i < n
        invariant
            keys@.len() == recs@.len(),
            n == recs@.len(),
            n <= u64::MAX,
            i <= n,
            cnt == total_where(recs@, keys@, k, w_one(), i as int),
            cnt <= i,
            inp == sat64(total_where(recs@, keys@, k, w_input(), i as int)),
            outp == sat64(total_where(recs@, keys@, k, w_output(), i as int)),
            sav == sat64(total_where(recs@, keys@, k, w_saved(), i as int)),
        decreases n - i,
    {
        if keys[i] == k {
            proof {
                lemma_sat_add(total_where(recs@, keys@, k, w_input(), i as int), recs@[i as int].input_tokens as nat);
                lemma_sat_add(total_where(recs@, keys@, k, w_output(), i as int), recs@[i as int].output_tokens as nat);
                lemma_sat_add(total_where(recs@, keys@, k, w_saved(), i as int), recs@[i as int].saved_tokens as nat);
            }
            cnt = cnt + 1;
            inp = inp.saturating_add(recs[i].input_tokens);
            outp = outp.saturating_add(recs[i].output_tokens);
            sav = sav.saturating_add(recs[i].saved_tokens);
        }
        i = i + 1;
    }
    (cnt, inp, outp, sav)
}

// ---------------------------------------------------------------------------
// Breakdown shapes
// ---------------------------------------------------------------------------

/// One calendar day's rollup. `day` is the epoch day; `date` its
/// `YYYY-MM-DD` label.
pub struct DayStats {
    pub date: String,
    pub day: i64,
    pub commands: u64,
    pub input_tokens: u64,
    pub output_tokens: u64,
    pub saved_tokens: u64,
    pub savings_pct_hundredths: u64,
}

/// One trailing week's rollup. `week_start_day` is the epoch day the window
/// starts on; the labels name its first and last day.
pub struct WeekStats {
    pub week_start: String,
    pub week_end: String,
    pub week_start_day: i64,
    pub commands: u64,
    pub input_tokens: u64,
    pub output_tokens: u64,
    pub saved_tokens: u64,
    pub savings_pct_hundredths: u64,
}

/// One calendar month's rollup. `month_key` counts months consecutively;
/// `month` is the `YYYY-MM` label.
pub struct MonthStats {
    pub month: String,
    pub month_key: i64,
    pub commands: u64,
    pub input_tokens: u64,
    pub output_tokens: u64,
    pub saved_tokens: u64,
    pub savings_pct_hundredths: u64,
}

/// The day bucket keyed `b.day` holds exactly the sums of the records of
/// that day, with the derived percentage and label.
pub open spec fn day_bucket_ok(s: Seq<CommandRecord>, b: DayStats) -> bool {
    &&& b.commands == bucket_count(s, dkeys(s), b.day)
    &&& b.input_tokens == sat64(bucket_sum(s, dkeys(s), b.day, w_input()))
    &&& b.output_tokens == sat64(bucket_sum(s, dkeys(s), b.day, w_output()))
    &&& b.saved_tokens == sat64(bucket_sum(s, dkeys(s), b.day, w_saved()))
    &&& b.savings_pct_hundredths == spec_pct_hundredths(b.saved_tokens, b.input_tokens)
    &&& b.date@ == ascii_chars(day_label_bytes(b.day as int))
}

pub open spec fn week_bucket_ok(s: Seq<CommandRecord>, b: WeekStats) -> bool {
    &&& b.commands == bucket_count(s, wkeys(s), b.week_start_day)
    &&& b.input_tokens == sat64(bucket_sum(s, wkeys(s), b.week_start_day, w_input()))
    &&& b.output_tokens == sat64(bucket_sum(s, wkeys(s), b.week_start_day, w_output()))
    &&& b.saved_tokens == sat64(bucket_sum(s, wkeys(s), b.week_start_day, w_saved()))
    &&& b.savings_pct_hundredths == spec_pct_hundredths(b.saved_tokens, b.input_tokens)
    &&& b.week_start@ == ascii_chars(day_label_bytes(b.week_start_day as int))
    &&& b.week_end@ == ascii_chars(day_label_bytes(b.week_start_day + 6))
}

pub open spec fn month_bucket_ok(s: Seq<CommandRecord>, b: MonthStats) -> bool {
    &&& b.commands == bucket_count(s, mkeys(s), b.month_key)
    &&& b.input_tokens == sat64(bucket_sum(s, mkeys(s), b.month_key, w_input()))
    &&& b.output_tokens == sat64(bucket_sum(s, mkeys(s), b.month_key, w_output()))
    &&& b.saved_tokens == sat64(bucket_sum(s, mkeys(s), b.month_key, w_saved()))
    &&& b.savings_pct_hundredths == spec_pct_hundredths(b.saved_tokens, b.input_tokens)
    &&& b.month@ == ascii_chars(month_label_bytes(b.month_key as int))
}

/// All records are well-formed.
pub open spec fn all_wf(s: Seq<CommandRecord>) -> bool {
    forall|i: int| 0 <= i < s.len() ==> (#[trigger] s[i]).wf()
}

// ---------------------------------------------------------------------------
// Daily breakdown
// ---------------------------------------------------------------------------

/// The per-day rollup of `recs`, one bucket per calendar date present,
/// oldest first.
pub fn daily_breakdown(recs: &Vec<CommandRecord>) -> (res: Vec<DayStats>)
    requires
        all_wf(recs@),
    ensures
        forall|a: int, b: int| 0 <= a < b < res@.len() ==> res@[a].day < res@[b].day,
        forall|j: int| 0 <= j < res@.len() ==> day_bucket_ok(recs@, #[trigger] res@[j]),
        forall|j: int|
            0 <= j < res@.len() ==> exists|i: int|
                0 <= i < recs@.len() && day_key(recs@[i]) == (#[trigger] res@[j]).day,
        forall|i: int|
            0 <= i < recs@.len() ==> exists|j: int|
                0 <= j < res@.len() && res@[j].day == day_key(#[trigger] recs@[i]),
        sum(res@.map_values(|b: DayStats| b.commands as nat)) == recs@.len(),
        fold_sat(res@.map_values(|b: DayStats| b.input_tokens)) == sat64(
            grand_total(recs@, w_input()),
        ),
        fold_sat(res@.map_values(|b: DayStats| b.output_tokens)) == sat64(
            grand_total(recs@, w_output()),
        ),
        fold_sat(res@.map_values(|b: DayStats| b.saved_tokens)) == sat64(
            grand_total(recs@, w_saved()),
        ),
{
    let keys = day_keys_of(recs);
    let klist = sorted_distinct(&keys);
    let n = recs.len();
    let mut res: Vec<DayStats> = Vec::new();
    let mut j: usize = 0;
    while j < klist.len()
        invariant
            all_wf(recs@),
            keys@ == dkeys(recs@),
            n == recs@.len(),
            forall|a: int, b: int| 0 <= a < b < klist@.len() ==> klist@[a] < klist@[b],
            forall|i: int| 0 <= i < keys@.len() ==> klist@.contains(keys@[i]),
            forall|t: int| 0 <= t < klist@.len() ==> keys@.contains(klist@[t]),
            j <= klist@.len(),
            res@.len() == j,
            forall|t: int| 0 <= t < j ==> (#[trigger] res@[t]).day == klist@[t],
            forall|t: int| 0 <= t < j ==> day_bucket_ok(recs@, #[trigger] res@[t]),
        decreases klist@.len() - j,
    {
        let k = klist[j];
        proof {
            day_key_in_range(recs@, keys@, k);
            lemma_total_where_le(recs@, keys@, k, w_saved(), w_input(), n as int);
        }
        let sums = accumulate(recs, &keys, k);
        let pct = savings_pct_hundredths(sums.3, sums.1);
        let label = day_label(k);
        res.push(
            DayStats {
                date: label,
                day: k,
                commands: sums.0,
                input_tokens: sums.1,
                output_tokens: sums.2,
                saved_tokens: sums.3,
                savings_pct_hundredths: pct,
            },
        );
        j = j + 1;
    }
    proof {
        lemma_partition(recs@, keys@, klist@, w_one(), n as int);
        lemma_partition(recs@, keys@, klist@, w_input(), n as int);
        lemma_partition(recs@, keys@, klist@, w_output(), n as int);
        lemma_partition(recs@, keys@, klist@, w_saved(), n as int);
        lemma_total_one(recs@, n as int);
        assert(res@.map_values(|b: DayStats| b.commands as nat) =~= group_sums(
            recs@,
            keys@,
            klist@,
            w_one(),
            n as int,
        ));
        lemma_sat_fold(group_sums(recs@, keys@, klist@, w_input(), n as int));
        assert(res@.map_values(|b: DayStats| b.input_tokens) =~= group_sums(
            recs@,
            keys@,
            klist@,
            w_input(),
            n as int,
        ).map_values(|p: nat| sat64(p)));
        lemma_sat_fold(group_sums(recs@, keys@, klist@, w_output(), n as int));
        assert(res@.map_values(|b: DayStats| b.output_tokens) =~= group_sums(
            recs@,
            keys@,
            klist@,
            w_output(),
            n as int,
        ).map_values(|p: nat| sat64(p)));
        lemma_sat_fold(group_sums(recs@, keys@, klist@, w_saved(), n as int));
        assert(res@.map_values(|b: DayStats| b.saved_tokens) =~= group_sums(
            recs@,
            keys@,
            klist@,
            w_saved(),
            n as int,
        ).map_values(|p: nat| sat64(p)));
        assert forall|i: int| 0 <= i < recs@.len() implies exists|t: int|
            0 <= t < res@.len() && res@[t].day == day_key(#[trigger] recs@[i]) by {
            assert(klist@.contains(keys@[i]));
            let t = choose|t: int| 0 <= t < klist@.len() && klist@[t] == keys@[i];
            assert(res@[t].day == day_key(recs@[i]));
        }
    }
    res
}

/// Computes each record's day key.
fn day_keys_of(recs: &Vec<CommandRecord>) -> (keys: Vec<i64>)
    requires
        all_wf(recs@),
    ensures
        keys@ == dkeys(recs@),
{
    let mut keys: Vec<i64> = Vec::new();
    let mut i: usize = 0;
    while i < recs.len()
        invariant
            all_wf(recs@),
            i <= recs@.len(),
            keys@.len() == i,
            forall|t: int| 0 <= t < i ==> keys@[t] == day_key(recs@[t]),
        decreases recs@.len() - i,
    {
        assert(recs@[i as int].wf());
        keys.push(day_of_ts(recs[i].timestamp));
        i = i + 1;
    }
    assert(keys@ =~= dkeys(recs@));
    keys
}

// ---------------------------------------------------------------------------
// Weekly breakdown
// ---------------------------------------------------------------------------

/// The per-trailing-week rollup of `recs`, one bucket per week window
/// present, oldest first.
pub fn weekly_breakdown(recs: &Vec<CommandRecord>) -> (res: Vec<WeekStats>)
    requires
        all_wf(recs@),
    ensures
        forall|a: int, b: int|
            0 <= a < b < res@.len() ==> res@[a].week_start_day < res@[b].week_start_day,
        forall|j: int| 0 <= j < res@.len() ==> week_bucket_ok(recs@, #[trigger] res@[j]),
        forall|j: int|
            0 <= j < res@.len() ==> exists|i: int|
                0 <= i < recs@.len() && week_key(recs@[i]) == (#[trigger] res@[j]).week_start_day,
        forall|i: int|
            0 <= i < recs@.len() ==> exists|j: int|
                0 <= j < res@.len() && res@[j].week_start_day == week_key(#[trigger] recs@[i]),
        sum(res@.map_values(|b: WeekStats| b.commands as nat)) == recs@.len(),
        fold_sat(res@.map_values(|b: WeekStats| b.input_tokens)) == sat64(
            grand_total(recs@, w_input()),
        ),
        fold_sat(res@.map_values(|b: WeekStats| b.output_tokens)) == sat64(
            grand_total(recs@, w_output()),
        ),
        fold_sat(res@.map_values(|b: WeekStats| b.saved_tokens)) == sat64(
            grand_total(recs@, w_saved()),
        ),
{
    let keys = week_keys_of(recs);
    let klist = sorted_distinct(&keys);
    let n = recs.len();
    let mut res: Vec<WeekStats> = Vec::new();
    let mut j: usize = 0;
    while j < klist.len()
        invariant
            all_wf(recs@),
            keys@ == wkeys(recs@),
            n == recs@.len(),
            forall|a: int, b: int| 0 <= a < b < klist@.len() ==> klist@[a] < klist@[b],
            forall|i: int| 0 <= i < keys@.len() ==> klist@.contains(keys@[i]),
            forall|t: int| 0 <= t < klist@.len() ==> keys@.contains(klist@[t]),
            j <= klist@.len(),
            res@.len() == j,
            forall|t: int| 0 <= t < j ==> (#[trigger] res@[t]).week_start_day == klist@[t],
            forall|t: int| 0 <= t < j ==> week_bucket_ok(recs@, #[trigger] res@[t]),
        decreases klist@.len() - j,
    {
        let k = klist[j];
        proof {
            week_key_in_range(recs@, keys@, k);
            lemma_total_where_le(recs@, keys@, k, w_saved(), w_input(), n as int);
        }
        let sums = accumulate(recs, &keys, k);
        let pct = savings_pct_hundredths(sums.3, sums.1);
        let start_label = day_label(k);
        let end_label = day_label(k + 6);
        res.push(
            WeekStats {
                week_start: start_label,
                week_end: end_label,
                week_start_day: k,
                commands: sums.0,
                input_tokens: sums.1,
                output_tokens: sums.2,
                saved_tokens: sums.3,
                savings_pct_hundredths: pct,
            },
        );
        j = j + 1;
    }
    proof {
        lemma_partition(recs@, keys@, klist@, w_one(), n as int);
        lemma_partition(recs@, keys@, klist@, w_input(), n as int);
        lemma_partition(recs@, keys@, klist@, w_output(), n as int);
        lemma_partition(recs@, keys@, klist@, w_saved(), n as int);
        lemma_total_one(recs@, n as int);
        assert(res@.map_values(|b: WeekStats| b.commands as nat) =~= group_sums(
            recs@,
            keys@,
            klist@,
            w_one(),
            n as int,
        ));
        lemma_sat_fold(group_sums(recs@, keys@, klist@, w_input(), n as int));
        assert(res@.map_values(|b: WeekStats| b.input_tokens) =~= group_sums(
            recs@,
            keys@,
            klist@,
            w_input(),
            n as int,
        ).map_values(|p: nat| sat64(p)));
        lemma_sat_fold(group_sums(recs@, keys@, klist@, w_output(), n as int));
        assert(res@.map_values(|b: WeekStats| b.output_tokens) =~= group_sums(
            recs@,
            keys@,
            klist@,
            w_output(),
            n as int,
        ).map_values(|p: nat| sat64(p)));
        lemma_sat_fold(group_sums(recs@, keys@, klist@, w_saved(), n as int));
        assert(res@.map_values(|b: WeekStats| b.saved_tokens) =~= group_sums(
            recs@,
            keys@,
            klist@,
            w_saved(),
            n as int,
        ).map_values(|p: nat| sat64(p)));
        assert forall|i: int| 0 <= i < recs@.len() implies exists|t: int|
            0 <= t < res@.len() && res@[t].week_start_day == week_key(#[trigger] recs@[i]) by {
            assert(klist@.contains(keys@[i]));
            let t = choose|t: int| 0 <= t < klist@.len() && klist@[t] == keys@[i];
            assert(res@[t].week_start_day == week_key(recs@[i]));
        }
    }
    res
}

/// Computes each record's trailing-week key.
fn week_keys_of(recs: &Vec<CommandRecord>) -> (keys: Vec<i64>)
    requires
        all_wf(recs@),
    ensures
        keys@ == wkeys(recs@),
{
    let mut keys: Vec<i64> = Vec::new();
    let mut i: usize = 0;
    while i < recs.len()
        invariant
            all_wf(recs@),
            i <= recs@.len(),
            keys@.len() == i,
            forall|t: int| 0 <= t < i ==> keys@[t] == week_key(recs@[t]),
        decreases recs@.len() - i,
    {
        assert(recs@[i as int].wf());
        keys.push(week_start_of_ts(recs[i].timestamp));
        i = i + 1;
    }
    assert(keys@ =~= wkeys(recs@));
    keys
}

/// A week key present among well-formed records labels a supported window.
proof fn week_key_in_range(s: Seq<CommandRecord>, keys: Seq<i64>, k: i64)
    requires
        all_wf(s),
        keys == wkeys(s),
        keys.contains(k),
    ensures
        -365 <= k && k + 6 < DAY_END,
{
    let i = choose|i: int| 0 <= i < keys.len() && keys[i] == k;
    assert(s[i].wf());
    assert(s[i].timestamp / 86400 < (DAY_END - 7) as u64) by {
        assert(s[i].timestamp <= TS_MAX);
        vstd::arithmetic::div_mod::lemma_div_is_ordered(
            s[i].timestamp as int,
            TS_MAX as int,
            86400,
        );
    }
}

// ---------------------------------------------------------------------------
// Monthly breakdown
// ---------------------------------------------------------------------------

/// The per-calendar-month rollup of `recs`, one bucket per month present,
/// oldest first.
pub fn monthly_breakdown(recs: &Vec<CommandRecord>) -> (res: Vec<MonthStats>)
    requires
        all_wf(recs@),
    ensures
        forall|a: int, b: int|
            0 <= a < b < res@.len() ==> res@[a].month_key < res@[b].month_key,
        forall|j: int| 0 <= j < res@.len() ==> month_bucket_ok(recs@, #[trigger] res@[j]),
        forall|j: int|
            0 <= j < res@.len() ==> exists|i: int|
                0 <= i < recs@.len() && month_key(recs@[i]) == (#[trigger] res@[j]).month_key,
        forall|i: int|
            0 <= i < recs@.len() ==> exists|j: int|
                0 <= j < res@.len() && res@[j].month_key == month_key(#[trigger] recs@[i]),
        sum(res@.map_values(|b: MonthStats| b.commands as nat)) == recs@.len(),
        fold_sat(res@.map_values(|b: MonthStats| b.input_tokens)) == sat64(
            grand_total(recs@, w_input()),
        ),
        fold_sat(res@.map_values(|b: MonthStats| b.output_tokens)) == sat64(
            grand_total(recs@, w_output()),
        ),
        fold_sat(res@.map_values(|b: MonthStats| b.saved_tokens)) == sat64(
            grand_total(recs@, w_saved()),
        ),
{
    let keys = month_keys_of(recs);
    let klist = sorted_distinct(&keys);
    let n = recs.len();
    let mut res: Vec<MonthStats> = Vec::new();
    let mut j: usize = 0;
    while j < klist.len()
        invariant
            all_wf(recs@),
            keys@ == mkeys(recs@),
            n == recs@.len(),
            forall|a: int, b: int| 0 <= a < b < klist@.len() ==> klist@[a] < klist@[b],
            forall|i: int| 0 <= i < keys@.len() ==> klist@.contains(keys@[i]),
            forall|t: int| 0 <= t < klist@.len() ==> keys@.contains(klist@[t]),
            j <= klist@.len(),
            res@.len() == j,
            forall|t: int| 0 <= t < j ==> (#[trigger] res@[t]).month_key == klist@[t],
            forall|t: int| 0 <= t < j ==> month_bucket_ok(recs@, #[trigger] res@[t]),
        decreases klist@.len() - j,
    {
        let k = klist[j];
        proof {
            month_key_in_range(recs@, keys@, k);
            lemma_total_where_le(recs@, keys@, k, w_saved(), w_input(), n as int);
        }
        let sums = accumulate(recs, &keys, k);
        let pct = savings_pct_hundredths(sums.3, sums.1);
        let label = month_label(k);
        res.push(
            MonthStats {
                month: label,
                month_key: k,
                commands: sums.0,
                input_tokens: sums.1,
                output_tokens: sums.2,
                saved_tokens: sums.3,
                savings_pct_hundredths: pct,
            },
        );
        j = j + 1;
    }
    proof {
        lemma_partition(recs@, keys@, klist@, w_one(), n as int);
        lemma_partition(recs@, keys@, klist@, w_input(), n as int);
        lemma_partition(recs@, keys@, klist@, w_output(), n as int);
        lemma_partition(recs@, keys@, klist@, w_saved(), n as int);
        lemma_total_one(recs@, n as int);
        assert(res@.map_values(|b: MonthStats| b.commands as nat) =~= group_sums(
            recs@,
            keys@,
            klist@,
            w_one(),
            n as int,
        ));
        lemma_sat_fold(group_sums(recs@, keys@, klist@, w_input(), n as int));
        assert(res@.map_values(|b: MonthStats| b.input_tokens) =~= group_sums(
            recs@,
            keys@,
            klist@,
            w_input(),
            n as int,
        ).map_values(|p: nat| sat64(p)));
        lemma_sat_fold(group_sums(recs@, keys@, klist@, w_output(), n as int));
        assert(res@.map_values(|b: MonthStats| b.output_tokens) =~= group_sums(
            recs@,
            keys@,
            klist@,
            w_output(),
            n as int,
        ).map_values(|p: nat| sat64(p)));
        lemma_sat_fold(group_sums(recs@, keys@, klist@, w_saved(), n as int));
        assert(res@.map_values(|b: MonthStats| b.saved_tokens) =~= group_sums(
            recs@,
            keys@,
            klist@,
            w_saved(),
            n as int,
        ).map_values(|p: nat| sat64(p)));
        assert forall|i: int| 0 <= i < recs@.len() implies exists|t: int|
            0 <= t < res@.len() && res@[t].month_key == month_key(#[trigger] recs@[i]) by {
            assert(klist@.contains(keys@[i]));
            let t = choose|t: int| 0 <= t < klist@.len() && klist@[t] == keys@[i];
            assert(res@[t].month_key == month_key(recs@[i]));
        }
    }
    res
}

/// Computes each record's month key.
fn month_keys_of(recs: &Vec<CommandRecord>) -> (keys: Vec<i64>)
    requires
        all_wf(recs@),
    ensures
        keys@ == mkeys(recs@),
{
    let mut keys: Vec<i64> = Vec::new();
    let mut i: usize = 0;
    while i < recs.len()
        invariant
            all_wf(recs@),
            i <= recs@.len(),
            keys@.len() == i,
            forall|t: int| 0 <= t < i ==> keys@[t] == month_key(recs@[t]),
        decreases recs@.len() - i,
    {
        assert(recs@[i as int].wf());
        keys.push(month_key_of_ts(recs[i].timestamp));
        i = i + 1;
    }
    assert(keys@ =~= mkeys(recs@));
    keys
}

/// A month key present among well-formed records labels a supported month.
proof fn month_key_in_range(s: Seq<CommandRecord>, keys: Seq<i64>, k: i64)
    requires
        all_wf(s),
        keys == mkeys(s),
        keys.contains(k),
    ensures
        0 <= k < 120000,
{
    let i = choose|i: int| 0 <= i < keys.len() && keys[i] == k;
    assert(s[i].wf());
    crate::calendar::lemma_civil_of_day(s[i].timestamp as int / 86400);
}

// ---------------------------------------------------------------------------
// Overall summary
// ---------------------------------------------------------------------------

/// One point of the recent daily savings series.
pub struct DaySaving {
    pub date: String,
    pub day: i64,
    pub saved_tokens: u64,
}

/// The series point holds its day's saved sum and label.
pub open spec fn day_saving_ok(s: Seq<CommandRecord>, e: DaySaving) -> bool {
    &&& e.saved_tokens == sat64(bucket_sum(s, dkeys(s), e.day, w_saved()))
    &&& e.date@ == ascii_chars(day_label_bytes(e.day as int))
}

/// The series is the daily savings view of `s`: ascending, at most thirty
/// points, each point carrying its own date's saved sum and label, each
/// point's date carried by some record, and every record's date in the
/// series unless the series is full and the date is older than its first
/// point — that is, exactly the most recent dates present.
pub open spec fn recent_day_series_of(s: Seq<CommandRecord>, series: Seq<DaySaving>) -> bool {
    &&& series.len() <= 30
    &&& forall|a: int, b: int| 0 <= a < b < series.len() ==> series[a].day < series[b].day
    &&& forall|j: int| 0 <= j < series.len() ==> day_saving_ok(s, #[trigger] series[j])
    &&& forall|j: int| 0 <= j < series.len() ==> dkeys(s).contains((#[trigger] series[j]).day)
    &&& forall|i: int|
        0 <= i < s.len() ==> series.map_values(|e: DaySaving| e.day).contains(
            day_key(#[trigger] s[i]),
        ) || (series.len() == 30 && day_key(s[i]) < series[0].day)
    &&& (s.len() == 0 ==> series.len() == 0)
    &&& (s.len() > 0 ==> series.len() > 0)
}

/// `v` is the `limit` most recent of `s`: as many as `limit` allows, drawn
/// from `s` without duplication, and any occurrence left out is no newer
/// than the last one kept.
pub open spec fn recent_selection_of(s: Seq<CommandRecord>, v: Seq<CommandRecord>, limit: int) -> bool {
    &&& v.len() == if limit < s.len() {
        limit
    } else {
        s.len() as int
    }
    &&& forall|a: int, b: int| 0 <= a < b < v.len() ==> v[a].timestamp >= v[b].timestamp
    &&& v.to_multiset().subset_of(s.to_multiset())
    &&& forall|x: CommandRecord|
        #![trigger s.to_multiset().count(x)]
        s.to_multiset().count(x) > v.to_multiset().count(x) ==> v.len() == limit && (v.len() > 0
            ==> x.timestamp <= v[v.len() - 1].timestamp)
}

/// The overall rollup: pooled totals, the pooled average percentage, the
/// by-command ranking and the daily savings series of the most recent
/// thirty dates present.
pub struct GainSummary {
    pub total_commands: u64,
    pub total_input: u64,
    pub total_output: u64,
    pub total_saved: u64,
    pub avg_savings_pct_hundredths: u64,
    pub by_command: Vec<crate::rank::CommandStats>,
    pub by_day: Vec<DaySaving>,
}

/// Saturating totals of every record.
fn grand_sums(recs: &Vec<CommandRecord>) -> (r: (u64, u64, u64))
    ensures
        r.0 == sat64(grand_total(recs@, w_input())),
        r.1 == sat64(grand_total(recs@, w_output())),
        r.2 == sat64(grand_total(recs@, w_saved())),
{
    let n = recs.len();
    let mut i: usize = 0;
    let mut inp: u64 = 0;
    let mut outp: u64 = 0;
    let mut sav: u64 = 0;
    while i < n
        invariant
            n == recs@.len(),
            i <= n,
            inp == sat64(total_of(recs@, w_input(), i as int)),
            outp == sat64(total_of(recs@, w_output(), i as int)),
            sav == sat64(total_of(recs@, w_saved(), i as int)),
        decreases n - i,
    {
        proof {
            lemma_sat_add(total_of(recs@, w_input(), i as int), recs@[i as int].input_tokens as nat);
            lemma_sat_add(total_of(recs@, w_output(), i as int), recs@[i as int].output_tokens as nat);
            lemma_sat_add(total_of(recs@, w_saved(), i as int), recs@[i as int].saved_tokens as nat);
        }
        inp = inp.saturating_add(recs[i].input_tokens);
        outp = outp.saturating_add(recs[i].output_tokens);
        sav = sav.saturating_add(recs[i].saved_tokens);
        i = i + 1;
    }
    (inp, outp, sav)
}

/// The last thirty (or fewer) points of the daily breakdown, as the savings
/// series: exactly the most recent dates present among the records the
/// breakdown was computed from. `wit` sends each breakdown index to a
/// record on that date; `cov` sends each record to its date's breakdown
/// index.
fn last_days(
    days: &Vec<DayStats>,
    Ghost(recs): Ghost<Seq<CommandRecord>>,
    Ghost(wit): Ghost<Seq<int>>,
    Ghost(cov): Ghost<Seq<int>>,
) -> (r: Vec<DaySaving>)
    requires
        forall|a: int, b: int| 0 <= a < b < days@.len() ==> days@[a].day < days@[b].day,
        wit.len() == days@.len(),
        forall|j: int|
            0 <= j < days@.len() ==> 0 <= #[trigger] wit[j] < recs.len() && day_key(
                recs[wit[j]],
            ) == days@[j].day,
        cov.len() == recs.len(),
        forall|i: int|
            0 <= i < recs.len() ==> 0 <= #[trigger] cov[i] < days@.len() && days@[cov[i]].day
                == day_key(recs[i]),
    ensures
        r@.len() == if days@.len() < 30 {
            days@.len() as int
        } else {
            30int
        },
        forall|j: int|
            0 <= j < r@.len() ==> {
                let src = days@[days@.len() - r@.len() + j];
                (#[trigger] r@[j]).day == src.day && r@[j].saved_tokens == src.saved_tokens
                    && r@[j].date@ == src.date@
            },
        forall|j: int| 0 <= j < r@.len() ==> dkeys(recs).contains((#[trigger] r@[j]).day),
        forall|i: int|
            0 <= i < recs.len() ==> r@.map_values(|e: DaySaving| e.day).contains(
                day_key(#[trigger] recs[i]),
            ) || (r@.len() == 30 && day_key(recs[i]) < r@[0].day),
{
    let n = days.len();
    let start = if n > 30 {
        n - 30
    } else {
        0
    };
    let mut r: Vec<DaySaving> = Vec::new();
    let mut j: usize = start;
    while j < n
        invariant
            n == days@.len(),
            start <= j <= n,
            start == if n > 30 {
                n - 30
            } else {
                0
            },
            r@.len() == j - start,
            forall|t: int|
                0 <= t < r@.len() ==> {
                    let src = days@[start + t];
                    (#[trigger] r@[t]).day == src.day && r@[t].saved_tokens == src.saved_tokens
                        && r@[t].date@ == src.date@
                },
        decreases n - j,
    {
        let d = &days[j];
        r.push(DaySaving { date: d.date.clone(), day: d.day, saved_tokens: d.saved_tokens });
        j = j + 1;
    }
    proof {
        assert forall|t: int| 0 <= t < r@.len() implies dkeys(recs).contains(
            (#[trigger] r@[t]).day,
        ) by {
            let w = wit[start + t];
            assert(day_key(recs[w]) == days@[start as int + t].day);
            assert(dkeys(recs)[w] == r@[t].day);
            assert(dkeys(recs).contains(r@[t].day));
        }
        assert forall|i: int| 0 <= i < recs.len() implies (r@.map_values(
            |e: DaySaving| e.day,
        ).contains(day_key(#[trigger] recs[i])) || (r@.len() == 30 && day_key(recs[i])
            < r@[0].day)) by {
            let t = cov[i];
            assert(days@[t].day == day_key(recs[i]));
            if t >= start {
                assert(r@[t - start].day == days@[t].day);
                assert(r@.map_values(|e: DaySaving| e.day)[t - start] == day_key(recs[i]));
                assert(r@.map_values(|e: DaySaving| e.day).contains(day_key(recs[i])));
            } else {
                assert(r@.len() == 30);
                assert(days@[t].day < days@[start as int].day);
                assert(r@[0].day == days@[start as int].day);
            }
        }
    }
    r
}

/// The daily savings series: one point per calendar date among the most
/// recent thirty dates present in `recs`, oldest first.
#[verifier::rlimit(100)]
fn build_day_series(recs: &Vec<CommandRecord>) -> (r: Vec<DaySaving>)
    requires
        all_wf(recs@),
    ensures
        r@.len() <= 30,
        forall|a: int, b: int| 0 <= a < b < r@.len() ==> r@[a].day < r@[b].day,
        forall|j: int| 0 <= j < r@.len() ==> day_saving_ok(recs@, #[trigger] r@[j]),
        forall|j: int| 0 <= j < r@.len() ==> dkeys(recs@).contains((#[trigger] r@[j]).day),
        forall|i: int|
            0 <= i < recs@.len() ==> r@.map_values(|e: DaySaving| e.day).contains(
                day_key(#[trigger] recs@[i]),
            ) || (r@.len() == 30 && day_key(recs@[i]) < r@[0].day),
        recs@.len() == 0 ==> r@.len() == 0,
        recs@.len() > 0 ==> r@.len() > 0,
{
    let days = daily_breakdown(recs);
    let ghost wit = Seq::new(
        days@.len(),
        |j: int| choose|w: int| 0 <= w < recs@.len() && day_key(recs@[w]) == days@[j].day,
    );
    let ghost cov = Seq::new(
        recs@.len(),
        |i: int| choose|t: int| 0 <= t < days@.len() && days@[t].day == day_key(recs@[i]),
    );
    proof {
        assert forall|j: int| 0 <= j < days@.len() implies 0 <= #[trigger] wit[j] < recs@.len()
            && day_key(recs@[wit[j]]) == days@[j].day by {
            assert(exists|w: int|
                0 <= w < recs@.len() && day_key(recs@[w]) == (#[trigger] days@[j]).day);
        }
        assert forall|i: int| 0 <= i < recs@.len() implies 0 <= #[trigger] cov[i] < days@.len()
            && days@[cov[i]].day == day_key(recs@[i]) by {
            assert(exists|t: int|
                0 <= t < days@.len() && days@[t].day == day_key(#[trigger] recs@[i]));
        }
        if recs@.len() == 0 && days@.len() > 0 {
            assert(exists|i: int|
                0 <= i < recs@.len() && day_key(recs@[i]) == (#[trigger] days@[0]).day);
        }
        if recs@.len() > 0 {
            assert(exists|j: int|
                0 <= j < days@.len() && days@[j].day == day_key(#[trigger] recs@[0]));
        }
    }
    let by_day = last_days(&days, Ghost(recs@), Ghost(wit), Ghost(cov));
    by_day
}

/// The overall summary of `recs`: pooled totals, the pooled average
/// percentage (not the mean of per-record percentages), the by-command
/// ranking and the most recent thirty daily savings points, oldest first.
#[verifier::rlimit(60)]
pub fn summarize(recs: &Vec<CommandRecord>) -> (r: GainSummary)
    requires
        all_wf(recs@),
    ensures
        r.total_commands == recs@.len(),
        r.total_input == sat64(grand_total(recs@, w_input())),
        r.total_output == sat64(grand_total(recs@, w_output())),
        r.total_saved == sat64(grand_total(recs@, w_saved())),
        r.avg_savings_pct_hundredths == crate::record::spec_pct_hundredths(
            r.total_saved,
            r.total_input,
        ),
        r.by_command@.len() <= 10,
        forall|a: int, b: int|
            0 <= a < b < r.by_command@.len() ==> crate::rank::rank_le(
                r.by_command@[a],
                r.by_command@[b],
            ),
        forall|j: int|
            0 <= j < r.by_command@.len() ==> crate::rank::cmd_bucket_ok(
                recs@,
                #[trigger] r.by_command@[j],
            ),
        recs@.len() == 0 ==> r.by_command@.len() == 0,
        recs@.len() > 0 ==> r.by_command@.len() > 0,
        r.by_day@.len() <= 30,
        forall|a: int, b: int|
            0 <= a < b < r.by_day@.len() ==> r.by_day@[a].day < r.by_day@[b].day,
        forall|j: int| 0 <= j < r.by_day@.len() ==> day_saving_ok(recs@, #[trigger] r.by_day@[j]),
        forall|j: int|
            0 <= j < r.by_day@.len() ==> dkeys(recs@).contains((#[trigger] r.by_day@[j]).day),
        forall|i: int|
            0 <= i < recs@.len() ==> r.by_day@.map_values(|e: DaySaving| e.day).contains(
                day_key(#[trigger] recs@[i]),
            ) || (r.by_day@.len() == 30 && day_key(recs@[i]) < r.by_day@[0].day),
        recs@.len() == 0 ==> r.by_day@.len() == 0,
        recs@.len() > 0 ==> r.by_day@.len() > 0,
        recent_day_series_of(recs@, r.by_day@),
{
    let n = recs.len();
    let sums = grand_sums(recs);
    proof {
        lemma_total_of_le(recs@, w_saved(), w_input(), n as int);
    }
    let avg = savings_pct_hundredths(sums.2, sums.0);
    let by_day = build_day_series(recs);
    proof {
        assert(recent_day_series_of(recs@, by_day@));
    }
    let by_command = crate::rank::by_command(recs);
    proof {
        if recs@.len() > 0 && by_command@.len() == 0 {
            assert(exists|j: int|
                0 <= j < by_command@.len() && crate::rank::stats_key(#[trigger] by_command@[j])
                    == crate::rank::cmd_key(recs@[0]));
        }
    }
    GainSummary {
        total_commands: n as u64,
        total_input: sums.0,
        total_output: sums.1,
        total_saved: sums.2,
        avg_savings_pct_hundredths: avg,
        by_command,
        by_day,
    }
}

// ---------------------------------------------------------------------------
// Most recent records
// ---------------------------------------------------------------------------

/// At most `limit` records, newest first (non-increasing timestamps), each
/// one of the given records.
pub fn most_recent(recs: Vec<CommandRecord>, limit: usize) -> (r: Vec<CommandRecord>)
    ensures
        r@.len() == if limit < recs@.len() {
            limit as int
        } else {
            recs@.len() as int
        },
        forall|a: int, b: int|
            0 <= a < b < r@.len() ==> r@[a].timestamp >= r@[b].timestamp,
        forall|j: int| 0 <= j < r@.len() ==> recs@.contains(#[trigger] r@[j]),
        r@.to_multiset().subset_of(recs@.to_multiset()),
        forall|x: CommandRecord|
            #![trigger recs@.to_multiset().count(x)]
            recs@.to_multiset().count(x) > r@.to_multiset().count(x) ==> r@.len() == limit && (
            r@.len() > 0 ==> x.timestamp <= r@[r@.len() - 1].timestamp),
        recent_selection_of(recs@, r@, limit as int),
{
    let ghost orig = recs@;
    let mut pool = recs;
    let ghost mut pmap: Seq<int> = Seq::new(orig.len(), |t: int| t);
    let ghost mut rmap: Seq<int> = Seq::empty();
    let mut r: Vec<CommandRecord> = Vec::new();
    proof {
        broadcast use vstd::multiset::group_multiset_axioms;

        r@.to_multiset_ensures();
        vstd::multiset::lemma_multiset_empty_len(r@.to_multiset());
        assert(r@.to_multiset() =~= Multiset::<CommandRecord>::empty());
        assert(r@.to_multiset().add(pool@.to_multiset()) =~= orig.to_multiset());
    }
    while r.len() < limit && pool.len() > 0
        invariant
            pmap.len() == pool@.len(),
            rmap.len() == r@.len(),
            r@.len() + pool@.len() == orig.len(),
            r@.len() <= limit,
            forall|p: int|
                0 <= p < pool@.len() ==> 0 <= #[trigger] pmap[p] < orig.len() && pool@[p]
                    == orig[pmap[p]],
            forall|j: int|
                0 <= j < r@.len() ==> 0 <= #[trigger] rmap[j] < orig.len() && r@[j]
                    == orig[rmap[j]],
            forall|a: int, b: int| 0 <= a < b < r@.len() ==> r@[a].timestamp >= r@[b].timestamp,
            forall|a: int, b: int|
                0 <= a < r@.len() && 0 <= b < pool@.len() ==> r@[a].timestamp
                    >= pool@[b].timestamp,
            r@.to_multiset().add(pool@.to_multiset()) == orig.to_multiset(),
        decreases pool@.len(),
    {
        let mut m: usize = 0;
        let mut q: usize = 1;
        while q < pool.len()
            invariant
                q <= pool@.len(),
                m < pool@.len(),
                forall|u: int|
                    0 <= u < q ==> pool@[m as int].timestamp >= (#[trigger] pool@[u]).timestamp,
            decreases pool@.len() - q,
        {
            if pool[q].timestamp > pool[m].timestamp {
                m = q;
            }
            q = q + 1;
        }
        let ghost old_pool = pool@;
        let ghost old_pmap = pmap;
        let ghost old_r = r@;
        let g = pool.remove(m);
        r.push(g);
        proof {
            broadcast use vstd::multiset::group_multiset_axioms;

            rmap = rmap.push(old_pmap[m as int]);
            pmap = Seq::new(
                pool@.len(),
                |p: int| if p < m as int {
                    old_pmap[p]
                } else {
                    old_pmap[p + 1]
                },
            );
            old_pool.to_multiset_ensures();
            old_r.to_multiset_ensures();
            assert(old_pool.contains(g));
            assert(old_pool.to_multiset().count(g) > 0);
            assert(pool@.to_multiset() =~= old_pool.to_multiset().remove(g));
            assert(r@.to_multiset() =~= old_r.to_multiset().insert(g));
            assert(r@.to_multiset().add(pool@.to_multiset()) =~= orig.to_multiset());
        }
    }
    proof {
        broadcast use vstd::multiset::group_multiset_axioms;

        assert forall|j: int| 0 <= j < r@.len() implies recs@.contains(#[trigger] r@[j]) by {
            assert(0 <= rmap[j] < recs@.len() && recs@[rmap[j]] == r@[j]);
        }
        pool@.to_multiset_ensures();
        assert forall|x: CommandRecord|
            recs@.to_multiset().count(x) > r@.to_multiset().count(
                x,
            ) implies r@.len() == limit && (r@.len() > 0 ==> x.timestamp <= r@[r@.len()
            - 1].timestamp) by {
            assert(pool@.to_multiset().count(x) > 0);
            assert(pool@.contains(x));
            let b = choose|b: int| 0 <= b < pool@.len() && pool@[b] == x;
            assert(pool@.len() > 0);
            if r@.len() > 0 {
                assert(r@[r@.len() - 1].timestamp >= pool@[b].timestamp);
            }
        }
        assert(recent_selection_of(recs@, r@, limit as int));
    }
    r
}

/// A day key present among well-formed records is a supported epoch day.
proof fn day_key_in_range(s: Seq<CommandRecord>, keys: Seq<i64>, k: i64)
    requires
        all_wf(s),
        keys == dkeys(s),
        keys.contains(k),
    ensures
        0 <= k && k + 7 < DAY_END,
{
    let i = choose|i: int| 0 <= i < keys.len() && keys[i] == k;
    assert(s[i].wf());
    assert(s[i].timestamp / 86400 < (DAY_END - 7) as u64) by {
        assert(s[i].timestamp <= TS_MAX);
        vstd::arithmetic::div_mod::lemma_div_is_ordered(
            s[i].timestamp as int,
            TS_MAX as int,
            86400,
        );
    }
}

} // verus!