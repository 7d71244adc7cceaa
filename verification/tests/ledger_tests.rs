use activity_ledger::LedgerError;
use activity_ledger::format::{Data, PrettyPrint, render_plain, u64_to_dec};
use activity_ledger::ledger::Ledger;

fn filled_group_42() -> Ledger {
    let mut l = Ledger::new();
    for _ in 0..10 {
        l.record_message(42, "alice").unwrap();
    }
    for _ in 0..3 {
        l.record_message(42, "bob").unwrap();
    }
    for _ in 0..7 {
        l.record_message(42, "carol").unwrap();
    }
    l.record_message(42, "dave").unwrap();
    l
}

#[test]
fn ledger_scenario_group_42() {
    let l = filled_group_42();
    assert_eq!(l.group_total(42).unwrap(), 21);

    let ranked = l.ranked(42).unwrap();
    let got: Vec<(String, String)> = ranked
        .iter()
        .map(|d| (d.username.clone(), d.percent_str()))
        .collect();
    assert_eq!(
        got,
        vec![
            ("alice".to_string(), "47.62".to_string()),
            ("carol".to_string(), "33.33".to_string()),
            ("bob".to_string(), "14.29".to_string()),
            ("dave".to_string(), "4.76".to_string()),
        ]
    );

    assert_eq!(l.participant_share_text(42, "bob").unwrap(), "14.29%");
}

#[test]
fn ledger_unknown_group_is_not_found() {
    let mut l = Ledger::new();
    l.record_message(1, "alice").unwrap();

    assert_eq!(l.group_total(99).unwrap_err(), LedgerError::NotFound);
    assert_eq!(l.percent_distribution(99).unwrap_err(), LedgerError::NotFound);
    assert_eq!(l.ranked(99).unwrap_err(), LedgerError::NotFound);
    assert_eq!(l.percent_for(99, "alice").unwrap_err(), LedgerError::NotFound);
    assert_eq!(l.group_distribution_text(99).unwrap_err(), LedgerError::NotFound);
    assert_eq!(l.participant_share_text(99, "alice").unwrap_err(), LedgerError::NotFound);
    assert_eq!(l.export_rows(99).unwrap_err(), LedgerError::NotFound);
}

#[test]
fn ledger_totals_count_calls_per_group() {
    let mut l = Ledger::new();
    for i in 0..25 {
        l.record_message(1, if i % 2 == 0 { "a" } else { "b" }).unwrap();
    }
    for _ in 0..4 {
        l.record_message(2, "c").unwrap();
    }
    assert_eq!(l.group_total(1).unwrap(), 25);
    assert_eq!(l.group_total(2).unwrap(), 4);

    l.record_message(1, "a").unwrap();
    assert_eq!(l.group_total(1).unwrap(), 26);
    assert_eq!(l.group_total(2).unwrap(), 4);
}

#[test]
fn ledger_rejects_empty_participant() {
    let mut l = Ledger::new();
    assert_eq!(l.record_message(7, "").unwrap_err(), LedgerError::InvalidInput);
    assert_eq!(l.group_total(7).unwrap_err(), LedgerError::NotFound);
}

#[test]
fn ledger_percentages_sum_to_100() {
    let mut l = Ledger::new();
    let names = ["a", "b", "c", "d", "e", "f", "g"];
    for (i, n) in names.iter().enumerate() {
        for _ in 0..(i + 1) {
            l.record_message(9, n).unwrap();
        }
    }
    let dist = l.percent_distribution(9).unwrap();
    let total: u64 = dist.iter().map(|d| d.count).sum();
    assert_eq!(total, l.group_total(9).unwrap());

    let sum: f64 = dist
        .iter()
        .map(|d| d.percent_hundredths() as f64 / 100.0)
        .sum();
    assert!((sum - 100.0).abs() <= 0.05);

    let exact: f64 = dist
        .iter()
        .map(|d| 100.0 * d.count as f64 / d.total as f64)
        .sum();
    assert!((exact - 100.0).abs() <= 0.01);
}

#[test]
fn ledger_ranked_ties_break_by_name() {
    let mut l = Ledger::new();
    for n in ["bob", "alice", "carol", "bob", "alice", "dave"] {
        l.record_message(3, n).unwrap();
    }
    // alice and bob both have 2; carol and dave both have 1.
    let ranked = l.ranked(3).unwrap();
    let names: Vec<String> = ranked.iter().map(|d| d.username.clone()).collect();
    assert_eq!(names, vec!["alice", "bob", "carol", "dave"]);
}

#[test]
fn ledger_reads_are_idempotent() {
    let l = filled_group_42();
    assert_eq!(l.percent_distribution(42).unwrap(), l.percent_distribution(42).unwrap());
    assert_eq!(l.ranked(42).unwrap(), l.ranked(42).unwrap());
    assert_eq!(
        l.group_distribution_text(42).unwrap(),
        l.group_distribution_text(42).unwrap()
    );
}

#[test]
fn ledger_decorated_and_plain_text() {
    let l = filled_group_42();
    assert_eq!(
        l.group_distribution_text(42).unwrap(),
        "\u{1F947} alice 47.62%\n\u{1F948} carol 33.33%\n\u{1F949} bob 14.29%\ndave 4.76%\n\n#stats"
    );

    let ranked = l.ranked(42).unwrap();
    assert_eq!(
        render_plain(&ranked),
        "alice 47.62\ncarol 33.33\nbob 14.29\ndave 4.76\n"
    );
    assert_eq!(ranked.pretty_print(), l.group_distribution_text(42).unwrap());
}

#[test]
fn ledger_export_rows_snapshot() {
    let mut l = Ledger::new();
    l.record_message(6, "alice").unwrap();
    l.record_message(6, "bob").unwrap();
    l.record_message(6, "alice").unwrap();

    let rows = l.export_rows(6).unwrap();
    assert_eq!(
        rows,
        vec![("alice".to_string(), 2u64), ("bob".to_string(), 1u64)]
    );

    // The snapshot is stable: later records do not change it.
    l.record_message(6, "carol").unwrap();
    assert_eq!(rows.len(), 2);
    assert_eq!(l.export_rows(6).unwrap().len(), 3);
}

#[test]
fn ledger_percent_for_single_participant() {
    let mut l = Ledger::new();
    l.record_message(8, "solo").unwrap();
    let d = l.percent_for(8, "solo").unwrap();
    assert_eq!((d.count, d.total), (1, 1));
    assert_eq!(d.percent_str(), "100.00");
    assert_eq!(l.percent_for(8, "ghost").unwrap_err(), LedgerError::NotFound);
}

#[test]
fn empty_distribution_renders_empty() {
    let empty: Vec<Data> = Vec::new();
    assert_eq!(empty.pretty_print(), "");
    assert_eq!(render_plain(&empty), "");
}

#[test]
fn decimal_rendering_is_exact() {
    assert_eq!(u64_to_dec(0), "0");
    assert_eq!(u64_to_dec(7), "7");
    assert_eq!(u64_to_dec(10), "10");
    assert_eq!(u64_to_dec(100), "100");
    assert_eq!(u64_to_dec(90210), "90210");
    assert_eq!(u64_to_dec(u64::MAX), "18446744073709551615");

    let half = Data { username: "x".to_string(), count: 1, total: 2 };
    assert_eq!(half.percent_str(), "50.00");
    let third = Data { username: "x".to_string(), count: 1, total: 3 };
    assert_eq!(third.percent_str(), "33.33");
    let two_thirds = Data { username: "x".to_string(), count: 2, total: 3 };
    assert_eq!(two_thirds.percent_str(), "66.67");
    let eighth = Data { username: "x".to_string(), count: 1, total: 8 };
    assert_eq!(eighth.percent_str(), "12.50");
}

#[test]
fn concurrent_records_are_all_counted() {
    let rt = tokio::runtime::Runtime::new().unwrap();
    let ledger = std::sync::Arc::new(std::sync::Mutex::new(Ledger::new()));
    rt.block_on(async {
        let mut handles = Vec::new();
        for i in 0..8 {
            let l = ledger.clone();
            handles.push(tokio::spawn(async move {
                for _ in 0..50 {
                    l.lock()
                        .unwrap()
                        .record_message(77, &format!("user{}", i % 4))
                        .unwrap();
                }
            }));
        }
        for h in handles {
            h.await.unwrap();
        }
    });
    assert_eq!(ledger.lock().unwrap().group_total(77).unwrap(), 400);
}

#[test]
fn group_stats_reply_formats_total_and_stats() {
    let l = filled_group_42();
    let text = l.group_distribution_text(42).unwrap();
    let reply = activity_ledger::format::group_stats_reply(21, &text);
    assert!(reply.starts_with("Total: 21\n\u{1F947} alice 47.62%\n"));
    assert!(reply.ends_with("\n#stats"));
}
