use kvstore::persistence::{replay_at, replay_line_at, LogRecord, Persistence};
use kvstore::store::KVStore;

/// The lines a sequence of records leaves in the log.
fn log_of(records: &[LogRecord]) -> Vec<String> {
    records.iter().map(|r| r.to_line()).collect()
}

fn lines(text: &[&str]) -> Vec<String> {
    text.iter().map(|s| s.to_string()).collect()
}

#[test]
fn to_line_formats_set_and_del() {
    assert_eq!(
        LogRecord::Put {
            key: "k".into(),
            value: "v".into()
        }
        .to_line(),
        "SET k v"
    );
    assert_eq!(LogRecord::Del { key: "k".into() }.to_line(), "DEL k");
}

#[test]
fn from_line_parses_set_with_spaces_in_value() {
    assert_eq!(
        LogRecord::from_line("SET k hello world !"),
        Some(LogRecord::Put {
            key: "k".into(),
            value: "hello world !".into()
        })
    );
}

#[test]
fn from_line_parses_del() {
    assert_eq!(
        LogRecord::from_line("DEL k"),
        Some(LogRecord::Del { key: "k".into() })
    );
}

#[test]
fn from_line_is_case_insensitive() {
    assert_eq!(
        LogRecord::from_line("set k v"),
        Some(LogRecord::Put {
            key: "k".into(),
            value: "v".into()
        })
    );
    assert_eq!(
        LogRecord::from_line("del k"),
        Some(LogRecord::Del { key: "k".into() })
    );
}

#[test]
fn from_line_rejects_bad_lines() {
    assert_eq!(LogRecord::from_line("FOO k"), None);
    assert_eq!(LogRecord::from_line("SET"), None);
    assert_eq!(LogRecord::from_line("SET k"), None);
    assert_eq!(LogRecord::from_line("SET  v"), None);
    assert_eq!(LogRecord::from_line("DEL"), None);
    assert_eq!(LogRecord::from_line("DEL a b"), None);
    assert_eq!(LogRecord::from_line(""), None);
}

#[test]
fn to_line_and_from_line_roundtrip() {
    let recs = vec![
        LogRecord::Put {
            key: "a".into(),
            value: "1".into(),
        },
        LogRecord::Put {
            key: "b".into(),
            value: "with space".into(),
        },
        LogRecord::Del { key: "a".into() },
    ];
    for rec in recs {
        let line = rec.to_line();
        assert_eq!(LogRecord::from_line(&line), Some(rec));
    }
}

// --- recovery from the log's lines ---

#[test]
fn recover_single_set() {
    let p = Persistence::new("data/single_set.log");
    let log = log_of(&[LogRecord::Put {
        key: "name".into(),
        value: "Alice".into(),
    }]);
    {
        let mut store = KVStore::new();
        store.set("name", "Alice", None).unwrap();
        assert_eq!(store.get("name"), Ok(Some("Alice")));
    }
    {
        let mut store = KVStore::new();
        p.recover(&mut store, &log).unwrap();
        assert_eq!(store.get("name"), Ok(Some("Alice")));
        assert_eq!(store.len(), 1);
    }
}

#[test]
fn recover_multiple_sets() {
    let p = Persistence::new("data/multi_set.log");
    let log = log_of(&[
        LogRecord::Put {
            key: "a".into(),
            value: "1".into(),
        },
        LogRecord::Put {
            key: "b".into(),
            value: "2".into(),
        },
        LogRecord::Put {
            key: "c".into(),
            value: "3".into(),
        },
    ]);

    let mut store = KVStore::new();
    p.recover(&mut store, &log).unwrap();

    assert_eq!(store.len(), 3);
    assert_eq!(store.get("a"), Ok(Some("1")));
    assert_eq!(store.get("b"), Ok(Some("2")));
    assert_eq!(store.get("c"), Ok(Some("3")));

    let keys = store.list();
    assert_eq!(
        keys,
        vec!["a".to_string(), "b".to_string(), "c".to_string()]
    );
}

#[test]
fn recover_overwrite() {
    let p = Persistence::new("data/overwrite.log");
    let log = log_of(&[
        LogRecord::Put {
            key: "k".into(),
            value: "v1".into(),
        },
        LogRecord::Put {
            key: "k".into(),
            value: "v2".into(),
        },
    ]);

    let mut store = KVStore::new();
    p.recover(&mut store, &log).unwrap();

    assert_eq!(store.get("k"), Ok(Some("v2")));
    assert_eq!(store.len(), 1);
}

#[test]
fn recover_delete() {
    let p = Persistence::new("data/delete.log");
    let log = log_of(&[
        LogRecord::Put {
            key: "k".into(),
            value: "v".into(),
        },
        LogRecord::Del { key: "k".into() },
    ]);

    let mut store = KVStore::new();
    p.recover(&mut store, &log).unwrap();

    assert_eq!(store.get("k"), Ok(None));
    assert!(store.is_empty());
}

#[test]
fn recover_delete_then_set_again() {
    let p = Persistence::new("data/del_then_set.log");
    let log = log_of(&[
        LogRecord::Put {
            key: "k".into(),
            value: "v1".into(),
        },
        LogRecord::Del { key: "k".into() },
        LogRecord::Put {
            key: "k".into(),
            value: "v2".into(),
        },
    ]);

    let mut store = KVStore::new();
    p.recover(&mut store, &log).unwrap();

    assert_eq!(store.get("k"), Ok(Some("v2")));
    assert_eq!(store.len(), 1);
}

#[test]
fn recover_no_file_starts_empty() {
    let p = Persistence::new("data/no_file.log");
    let mut store = KVStore::new();
    p.recover(&mut store, &Vec::new()).unwrap();

    assert!(store.is_empty());
    assert_eq!(store.len(), 0);
}

#[test]
fn recover_value_with_spaces() {
    let p = Persistence::new("data/value_spaces.log");
    let log = log_of(&[LogRecord::Put {
        key: "msg".into(),
        value: "hello world from kvstore".into(),
    }]);

    let mut store = KVStore::new();
    p.recover(&mut store, &log).unwrap();

    assert_eq!(store.get("msg"), Ok(Some("hello world from kvstore")));
}

#[test]
fn recover_value_with_chinese() {
    let p = Persistence::new("data/value_chinese.log");
    let log = log_of(&[LogRecord::Put {
        key: "greeting".into(),
        value: "你好，世界".into(),
    }]);

    let mut store = KVStore::new();
    p.recover(&mut store, &log).unwrap();

    assert_eq!(store.get("greeting"), Ok(Some("你好，世界")));
}

#[test]
fn recover_many_records() {
    let p = Persistence::new("data/many_records.log");
    let n = 100;
    let mut records = Vec::new();
    for i in 0..n {
        records.push(LogRecord::Put {
            key: format!("key{}", i),
            value: format!("value{}", i),
        });
    }
    let log = log_of(&records);

    let mut store = KVStore::new();
    p.recover(&mut store, &log).unwrap();

    assert_eq!(store.len(), n);
    for i in 0..n {
        let key = format!("key{}", i);
        let expected = format!("value{}", i);
        assert_eq!(store.get(&key), Ok(Some(expected.as_str())));
    }
}

#[test]
fn full_lifecycle_two_restarts() {
    let p = Persistence::new("data/full_lifecycle.log");
    let mut log: Vec<String> = Vec::new();

    {
        let mut store = KVStore::new();
        p.recover(&mut store, &log).unwrap();
        assert!(store.is_empty());

        log.push(LogRecord::Put { key: "a".into(), value: "1".into() }.to_line());
        store.set("a", "1", None).unwrap();
        log.push(LogRecord::Put { key: "b".into(), value: "2".into() }.to_line());
        store.set("b", "2", None).unwrap();
    }

    {
        let mut store = KVStore::new();
        p.recover(&mut store, &log).unwrap();
        assert_eq!(store.len(), 2);
        assert_eq!(store.get("a"), Ok(Some("1")));
        assert_eq!(store.get("b"), Ok(Some("2")));

        log.push(LogRecord::Put { key: "a".into(), value: "999".into() }.to_line());
        store.set("a", "999", None).unwrap();
        log.push(LogRecord::Del { key: "b".into() }.to_line());
        store.delete("b").unwrap();
        log.push(LogRecord::Put { key: "c".into(), value: "3".into() }.to_line());
        store.set("c", "3", None).unwrap();
    }

    {
        let mut store = KVStore::new();
        p.recover(&mut store, &log).unwrap();

        assert_eq!(store.len(), 2);
        assert_eq!(store.get("a"), Ok(Some("999")));
        assert_eq!(store.get("b"), Ok(None));
        assert_eq!(store.get("c"), Ok(Some("3")));
        assert_eq!(store.list(), vec!["a".to_string(), "c".to_string()]);
    }
}

#[test]
fn recover_corrupt_line_returns_error() {
    let p = Persistence::new("data/corrupt_line.log");
    let mut store = KVStore::new();
    let result = p.recover(&mut store, &lines(&["SET a 1", "GARBAGE DATA", "SET b 2"]));

    assert!(result.is_err());
    let err_msg = result.unwrap_err();
    assert!(err_msg.contains("格式错误") || err_msg.contains("第 2 行"));
    assert_eq!(err_msg, "日志文件第 2 行格式错误: \"GARBAGE DATA\"");
}

#[test]
fn recover_truncated_set_returns_error() {
    let p = Persistence::new("data/truncated_set.log");
    let mut store = KVStore::new();
    assert!(p.recover(&mut store, &lines(&["SET k"])).is_err());
}

#[test]
fn recover_truncated_del_returns_error() {
    let p = Persistence::new("data/truncated_del.log");
    let mut store = KVStore::new();
    assert!(p.recover(&mut store, &lines(&["DEL"])).is_err());
}

#[test]
fn recover_unknown_command_returns_error() {
    let p = Persistence::new("data/unknown_cmd.log");
    let mut store = KVStore::new();
    assert!(p.recover(&mut store, &lines(&["FOOBAR k v"])).is_err());
}

#[test]
fn recover_case_insensitive() {
    let p = Persistence::new("data/case_insensitive.log");
    let mut store = KVStore::new();
    p.recover(&mut store, &lines(&["set a 1", "DEL b", "Set c 3"])).unwrap();

    assert_eq!(store.get("a"), Ok(Some("1")));
    assert_eq!(store.get("b"), Ok(None));
    assert_eq!(store.get("c"), Ok(Some("3")));
}

#[test]
fn recover_blank_line_is_an_error() {
    let p = Persistence::new("data/blank.log");
    let mut store = KVStore::new();
    assert_eq!(
        p.recover(&mut store, &lines(&["SET a 1", "  "])),
        Err("日志文件第 2 行为空（文件可能损坏）".to_string())
    );
}

#[test]
fn recover_stops_at_first_bad_line() {
    let mut store = KVStore::new();
    let result = replay_at(&mut store, &lines(&["SET a 1", "BAD", "SET b 2"]), 0);
    assert!(result.is_err());
    assert_eq!(store.get_at("a", 0), Ok(Some("1")));
    assert_eq!(store.get_at("b", 0), Ok(None));
}

#[test]
fn replay_line_reports_invalid_key() {
    let mut store = KVStore::new();
    assert_eq!(
        replay_line_at(&mut store, 7, "SET 键 值", 0),
        Ok(())
    );
    assert_eq!(store.get_at("键", 0), Ok(Some("值")));
    assert_eq!(replay_line_at(&mut store, 3, "DEL 键", 0), Ok(()));
    assert!(store.is_empty_at(0));
}

#[test]
fn persistence_keeps_its_path() {
    let p = Persistence::new("data/kv.log");
    assert_eq!(p.log_path(), "data/kv.log");
}

#[test]
fn replay_keeps_values_with_inner_spaces() {
    let mut store = KVStore::new();
    replay_at(&mut store, &lines(&["SET k  two  spaces "]), 0).unwrap();
    assert_eq!(store.get_at("k", 0), Ok(Some(" two  spaces ")));
}

#[test]
fn records_with_tabs_and_inner_breaks_read_back() {
    for rec in [
        LogRecord::Put { key: "a\tb".into(), value: "x\ny".into() },
        LogRecord::Put { key: "k".into(), value: "".into() },
        LogRecord::Del { key: "a\tb".into() },
    ] {
        assert_eq!(LogRecord::from_line(&rec.to_line()), Some(rec));
    }
    assert_eq!(
        LogRecord::from_line(&LogRecord::Put { key: "k".into(), value: "v\r".into() }.to_line()),
        Some(LogRecord::Put { key: "k".into(), value: "v".into() })
    );
}
