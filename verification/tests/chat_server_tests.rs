use activity_ledger::chat_server::ChatServer;
use activity_ledger::LedgerError;

#[test]
fn test_insertion() {
    let mut cs = ChatServer::in_memory().unwrap();

    for _ in 0..10 {
        cs.store_msg(0, &format!("{}", 0)).unwrap();
    }

    for _ in 0..3 {
        cs.store_msg(0, &format!("{}", 1)).unwrap();
    }

    for _ in 0..7 {
        cs.store_msg(0, &format!("{}", 2)).unwrap();
    }

    cs.store_msg(0, &format!("{}", 3)).unwrap();

    let tot: f32 = 10.0 + 3.0 + 7.0 + 1.0;
    let data = cs.get_group_percent(0).unwrap();

    assert_eq!(data[0].percent_str(), format!("{:.2}", 10.0 / tot * 100.0));
    assert_eq!(data[1].percent_str(), format!("{:.2}", 7.0 / tot * 100.0));
    assert_eq!(data[2].percent_str(), format!("{:.2}", 3.0 / tot * 100.0));
    assert_eq!(data[3].percent_str(), format!("{:.2}", 1.0 / tot * 100.0));
}

#[test]
fn test_get_user_percent() {
    let mut cs = ChatServer::in_memory().unwrap();

    for _ in 0..10 {
        cs.store_msg(0, &"0".to_string()).unwrap();
    }

    for _ in 0..3 {
        cs.store_msg(0, &"1".to_string()).unwrap();
    }

    for _ in 0..7 {
        cs.store_msg(0, &"2".to_string()).unwrap();
    }

    cs.store_msg(0, &"3".to_string()).unwrap();

    let tot: f32 = 10.0 + 3.0 + 7.0 + 1.0;
    let percent = cs.get_user_percent_str(0, &String::from("1")).unwrap();

    assert_eq!(percent, format!("{:.2}", 3.0 / tot * 100.0) + "%");
}

#[test]
fn chat_server_scenario_group_42() {
    let mut cs = ChatServer::in_memory().unwrap();
    for _ in 0..10 {
        cs.store_msg(42, &"alice".to_string()).unwrap();
    }
    for _ in 0..3 {
        cs.store_msg(42, &"bob".to_string()).unwrap();
    }
    for _ in 0..7 {
        cs.store_msg(42, &"carol".to_string()).unwrap();
    }
    cs.store_msg(42, &"dave".to_string()).unwrap();

    assert_eq!(cs.get_tot_msg(42).unwrap(), 21);

    let ranked = cs.get_group_percent(42).unwrap();
    let got: Vec<(String, String)> = ranked
        .iter()
        .map(|d| (d.username.clone(), d.percent_str()))
        .collect();
    assert_eq!(
        got,
        vec![
            ("alice".to_string(), "47.62".to_string()),
            ("carol".to_string(), "33.33".to_string()),
            ("bob".to_string(), "14.29".to_string()),
            ("dave".to_string(), "4.76".to_string()),
        ]
    );

    assert_eq!(cs.get_user_percent_str(42, &"bob".to_string()).unwrap(), "14.29%");
}

#[test]
fn chat_server_unknown_group_is_not_found() {
    let mut cs = ChatServer::in_memory().unwrap();
    cs.store_msg(1, &"alice".to_string()).unwrap();

    assert_eq!(cs.get_tot_msg(99).unwrap_err(), LedgerError::NotFound);
    assert_eq!(cs.get_group_percent(99).unwrap_err(), LedgerError::NotFound);
    assert_eq!(cs.get_group_percent_str(99).unwrap_err(), LedgerError::NotFound);
    assert_eq!(
        cs.get_user_percent_str(99, &"alice".to_string()).unwrap_err(),
        LedgerError::NotFound
    );
}

#[test]
fn chat_server_rejects_empty_username() {
    let mut cs = ChatServer::in_memory().unwrap();
    assert_eq!(
        cs.store_msg(1, &String::new()).unwrap_err(),
        LedgerError::InvalidInput
    );
    assert_eq!(cs.get_tot_msg(1).unwrap_err(), LedgerError::NotFound);
}

#[test]
fn chat_server_reads_are_idempotent() {
    let mut cs = ChatServer::in_memory().unwrap();
    cs.store_msg(5, &"bob".to_string()).unwrap();
    cs.store_msg(5, &"alice".to_string()).unwrap();
    cs.store_msg(5, &"alice".to_string()).unwrap();

    let first = cs.get_group_percent(5).unwrap();
    let second = cs.get_group_percent(5).unwrap();
    assert_eq!(first, second);
    assert_eq!(
        cs.get_group_percent_str(5).unwrap(),
        cs.get_group_percent_str(5).unwrap()
    );
}

#[test]
fn chat_server_decorated_text() {
    let mut cs = ChatServer::in_memory().unwrap();
    for _ in 0..10 {
        cs.store_msg(7, &"alice".to_string()).unwrap();
    }
    for _ in 0..3 {
        cs.store_msg(7, &"bob".to_string()).unwrap();
    }
    for _ in 0..7 {
        cs.store_msg(7, &"carol".to_string()).unwrap();
    }
    cs.store_msg(7, &"dave".to_string()).unwrap();

    let text = cs.get_group_percent_str(7).unwrap();
    assert_eq!(
        text,
        "\u{1F947} alice 47.62%\n\u{1F948} carol 33.33%\n\u{1F949} bob 14.29%\ndave 4.76%\n\n#stats"
    );
}

#[test]
fn chat_server_counts_survive_in_log() {
    // If the insert wrapper dropped its row, or the select wrapper handed
    // back anything but the stored usernames, these counts would be wrong.
    let mut cs = ChatServer::in_memory().unwrap();
    cs.store_msg(3, &"zoe".to_string()).unwrap();
    cs.store_msg(3, &"zoe".to_string()).unwrap();
    cs.store_msg(4, &"zoe".to_string()).unwrap();

    assert_eq!(cs.get_tot_msg(3).unwrap(), 2);
    assert_eq!(cs.get_tot_msg(4).unwrap(), 1);
    let data = cs.get_group_percent(3).unwrap();
    assert_eq!(data.len(), 1);
    assert_eq!(data[0].username, "zoe");
    assert_eq!(data[0].count, 2);
    assert_eq!(data[0].total, 2);
    assert_eq!(data[0].percent_str(), "100.00");
}

#[test]
fn concurrent_store_msgs_are_all_counted() {
    let rt = tokio::runtime::Runtime::new().unwrap();
    let cs = std::sync::Arc::new(std::sync::Mutex::new(ChatServer::in_memory().unwrap()));
    rt.block_on(async {
        let mut handles = Vec::new();
        for i in 0..4 {
            let c = cs.clone();
            handles.push(tokio::spawn(async move {
                for _ in 0..25 {
                    c.lock()
                        .unwrap()
                        .store_msg(8, &format!("user{}", i))
                        .unwrap();
                }
            }));
        }
        for h in handles {
            h.await.unwrap();
        }
    });
    assert_eq!(cs.lock().unwrap().get_tot_msg(8).unwrap(), 100);
}

#[test]
fn chat_server_export_rows() {
    let mut cs = ChatServer::in_memory().unwrap();
    cs.store_msg(6, &"alice".to_string()).unwrap();
    cs.store_msg(6, &"bob".to_string()).unwrap();
    cs.store_msg(6, &"alice".to_string()).unwrap();

    let mut rows = cs.export_rows(6).unwrap();
    rows.sort();
    assert_eq!(
        rows,
        vec![("alice".to_string(), 2u64), ("bob".to_string(), 1u64)]
    );
    assert_eq!(cs.export_rows(66).unwrap_err(), LedgerError::NotFound);
}

#[test]
fn chat_server_storage_failure_on_bad_path() {
    match ChatServer::new("/definitely/not/a/real/directory/activity.db".to_string()) {
        Err(e) => assert_eq!(e, LedgerError::StorageFailure),
        Ok(_) => panic!("opening under a missing directory must fail"),
    }
}
