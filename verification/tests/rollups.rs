use rtk_tracking::record::CommandRecord;
use rtk_tracking::aggregate::{daily_breakdown, weekly_breakdown, monthly_breakdown, summarize, most_recent};
use rtk_tracking::rank::by_command;

fn rec(ts: u64, cmd: &str, input: u64, output: u64) -> CommandRecord {
    CommandRecord::new(ts, String::from(cmd), String::from(cmd), input, output)
}

const DAY: u64 = 86400;

#[test]
fn empty_summary() {
    let summary = summarize(&Vec::new());
    assert_eq!(summary.total_commands, 0);
    assert_eq!(summary.total_input, 0);
    assert_eq!(summary.total_output, 0);
    assert_eq!(summary.total_saved, 0);
    assert_eq!(summary.avg_savings_pct_hundredths, 0);
    assert!(summary.by_command.is_empty());
    assert!(summary.by_day.is_empty());
}

#[test]
fn pooled_totals_and_average() {
    // The average comes from pooled totals, not from per-record averages:
    // (60 + 0) / (100 + 100) = 30%, though the per-record mean is 30% too;
    // with a third record the two diverge.
    let recs = vec![
        rec(0, "a", 100, 40),    // saved 60, 60%
        rec(DAY, "b", 100, 100), // saved 0, 0%
        rec(2 * DAY, "c", 50, 25), // saved 25, 50%
    ];
    let s = summarize(&recs);
    assert_eq!(s.total_commands, 3);
    assert_eq!(s.total_input, 250);
    assert_eq!(s.total_output, 165);
    assert_eq!(s.total_saved, 85);
    // 85 / 250 = 34% pooled; the mean of 60%, 0%, 50% would be ~36.7%.
    assert_eq!(s.avg_savings_pct_hundredths, 3400);
}

#[test]
fn day_commands_re_add_to_total() {
    let recs = vec![
        rec(10, "a", 10, 5),
        rec(20, "a", 10, 5),
        rec(DAY + 10, "b", 10, 5),
        rec(3 * DAY, "c", 10, 5),
        rec(3 * DAY + 99, "a", 10, 5),
    ];
    let days = daily_breakdown(&recs);
    let total: u64 = days.iter().map(|d| d.commands).sum();
    let s = summarize(&recs);
    assert_eq!(total, s.total_commands);
    assert_eq!(days.len(), 3);
}

#[test]
fn days_re_summed_reproduce_totals() {
    let recs = vec![
        rec(10, "a", 120, 20),
        rec(DAY, "b", 340, 140),
        rec(5 * DAY, "c", 5, 5),
        rec(5 * DAY + 7, "d", 88, 11),
    ];
    let days = daily_breakdown(&recs);
    let s = summarize(&recs);
    let input: u64 = days.iter().map(|d| d.input_tokens).sum();
    let output: u64 = days.iter().map(|d| d.output_tokens).sum();
    let saved: u64 = days.iter().map(|d| d.saved_tokens).sum();
    assert_eq!(input, s.total_input);
    assert_eq!(output, s.total_output);
    assert_eq!(saved, s.total_saved);
}

#[test]
fn breakdowns_ascend_chronologically() {
    // Deliberately unordered input.
    let recs = vec![
        rec(40 * DAY, "a", 10, 1),
        rec(2 * DAY, "b", 10, 2),
        rec(400 * DAY, "c", 10, 3),
        rec(41 * DAY, "d", 10, 4),
        rec(0, "e", 10, 5),
    ];
    let days = daily_breakdown(&recs);
    assert!(days.windows(2).all(|w| w[0].day < w[1].day));
    let weeks = weekly_breakdown(&recs);
    assert!(weeks.windows(2).all(|w| w[0].week_start_day < w[1].week_start_day));
    let months = monthly_breakdown(&recs);
    assert!(months.windows(2).all(|w| w[0].month_key < w[1].month_key));
}

#[test]
fn daily_bucket_values() {
    let recs = vec![
        rec(10, "a", 100, 40),
        rec(20, "b", 50, 30),
        rec(DAY + 1, "c", 10, 0),
    ];
    let days = daily_breakdown(&recs);
    assert_eq!(days.len(), 2);
    assert_eq!(days[0].date, "1970-01-01");
    assert_eq!(days[0].commands, 2);
    assert_eq!(days[0].input_tokens, 150);
    assert_eq!(days[0].output_tokens, 70);
    assert_eq!(days[0].saved_tokens, 80);
    // 80 / 150 = 53.33%
    assert_eq!(days[0].savings_pct_hundredths, 5333);
    assert_eq!(days[1].date, "1970-01-02");
    assert_eq!(days[1].commands, 1);
    assert_eq!(days[1].saved_tokens, 10);
    assert_eq!(days[1].savings_pct_hundredths, 10000);
}

#[test]
fn weekly_window_labels() {
    // The epoch (a Thursday) belongs to the window 1969-12-29 .. 1970-01-04.
    let recs = vec![rec(0, "a", 10, 5)];
    let weeks = weekly_breakdown(&recs);
    assert_eq!(weeks.len(), 1);
    assert_eq!(weeks[0].week_start, "1969-12-29");
    assert_eq!(weeks[0].week_end, "1970-01-04");
    assert_eq!(weeks[0].commands, 1);
}

#[test]
fn monthly_labels() {
    let recs = vec![rec(0, "a", 10, 5), rec(40 * DAY, "b", 10, 5)];
    let months = monthly_breakdown(&recs);
    assert_eq!(months.len(), 2);
    assert_eq!(months[0].month, "1970-01");
    assert_eq!(months[1].month, "1970-02");
}

#[test]
fn ranking_caps_at_ten_sorted_descending() {
    let mut recs = Vec::new();
    for i in 0..12u64 {
        let name = format!("cmd{:02}", i);
        let r = CommandRecord::new(i, name.clone(), name, 1000, 1000 - (i + 1) * 10);
        recs.push(r);
    }
    let ranking = by_command(&recs);
    assert_eq!(ranking.len(), 10);
    assert!(ranking.windows(2).all(|w| w[0].saved_tokens >= w[1].saved_tokens));
    // The two smallest savers (cmd00 saved 10, cmd01 saved 20) fell out.
    assert_eq!(ranking[0].rtk_cmd, "cmd11");
    assert_eq!(ranking[0].saved_tokens, 120);
    assert_eq!(ranking[9].rtk_cmd, "cmd02");
    assert_eq!(ranking[9].saved_tokens, 30);
}

#[test]
fn ranking_ties_break_by_name() {
    let recs = vec![
        rec(0, "zeta", 100, 50),
        rec(1, "alpha", 100, 50),
        rec(2, "mid", 100, 20),
    ];
    let ranking = by_command(&recs);
    assert_eq!(ranking.len(), 3);
    assert_eq!(ranking[0].rtk_cmd, "mid");
    assert_eq!(ranking[1].rtk_cmd, "alpha");
    assert_eq!(ranking[2].rtk_cmd, "zeta");
}

#[test]
fn ranking_groups_and_means() {
    let recs = vec![
        rec(0, "a", 100, 40),  // 60%, saved 60
        rec(1, "a", 100, 90),  // 10%, saved 10
        rec(2, "b", 10, 0),    // 100%, saved 10
    ];
    let ranking = by_command(&recs);
    assert_eq!(ranking.len(), 2);
    assert_eq!(ranking[0].rtk_cmd, "a");
    assert_eq!(ranking[0].commands, 2);
    assert_eq!(ranking[0].saved_tokens, 70);
    // Mean of the per-record percentages: (6000 + 1000) / 2 = 3500.
    assert_eq!(ranking[0].mean_savings_pct_hundredths, 3500);
    assert_eq!(ranking[1].rtk_cmd, "b");
    assert_eq!(ranking[1].mean_savings_pct_hundredths, 10000);
}

#[test]
fn day_series_keeps_most_recent_thirty() {
    let mut recs = Vec::new();
    for d in 0..35u64 {
        recs.push(rec(d * DAY, "a", 10, 5));
    }
    let s = summarize(&recs);
    assert_eq!(s.by_day.len(), 30);
    // Oldest five dates dropped; series runs day 5 .. day 34, oldest first.
    assert_eq!(s.by_day[0].day, 5);
    assert_eq!(s.by_day[29].day, 34);
    assert_eq!(s.by_day[0].date, "1970-01-06");
    assert!(s.by_day.windows(2).all(|w| w[0].day < w[1].day));
}

#[test]
fn most_recent_orders_and_limits() {
    let recs = vec![
        rec(500, "a", 10, 5),
        rec(100, "b", 10, 5),
        rec(900, "c", 10, 5),
        rec(700, "d", 10, 5),
    ];
    let top = most_recent(recs, 3);
    assert_eq!(top.len(), 3);
    assert_eq!(top[0].timestamp, 900);
    assert_eq!(top[1].timestamp, 700);
    assert_eq!(top[2].timestamp, 500);
}
