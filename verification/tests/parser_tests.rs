use kvstore::parser::{parse_command, MAX_TTL_SECONDS};
use kvstore::protocol::Command;
use kvstore::store::KVStore;

#[test]
fn can_parse_set() {
    let result = parse_command("SET name Alice").unwrap();

    assert_eq!(result.command, Command::Put);
    assert_eq!(result.key, Some("name".to_string()));
    assert_eq!(result.value, Some("Alice".to_string()));
}

#[test]
fn set_value_can_contain_spaces() {
    let result = parse_command("SET sentence Rust is easy").unwrap();

    assert_eq!(result.command, Command::Put);
    assert_eq!(result.key, Some("sentence".to_string()));
    assert_eq!(result.value, Some("Rust is easy".to_string()));
}

#[test]
fn can_parse_get() {
    let result = parse_command("GET name").unwrap();

    assert_eq!(result.command, Command::Get);
    assert_eq!(result.key, Some("name".to_string()));
    assert_eq!(result.value, None);
}

#[test]
fn can_parse_command_in_lowercase() {
    let result = parse_command("get name").unwrap();

    assert_eq!(result.command, Command::Get);
}

#[test]
fn missing_key_returns_error() {
    let error = parse_command("GET").unwrap_err();

    assert!(error.message.contains("缺少参数"));
}

#[test]
fn set_without_value_returns_error() {
    let error = parse_command("SET name").unwrap_err();

    assert!(error.message.contains("缺少参数"));
}

#[test]
fn extra_argument_returns_error() {
    let error = parse_command("GET name extra").unwrap_err();

    assert!(error.message.contains("多余参数"));
}

#[test]
fn unknown_command_returns_error() {
    let error = parse_command("HELLO").unwrap_err();

    assert!(error.message.contains("未知命令"));
}

#[test]
fn set_with_ttl() {
    let result = parse_command("SET course Rust 5").unwrap();

    assert_eq!(result.command, Command::Put);
    assert_eq!(result.key, Some("course".to_string()));
    assert_eq!(result.value, Some("Rust".to_string()));
    assert_eq!(result.ttl, Some(5));
}

#[test]
fn set_without_ttl_is_permanent() {
    let result = parse_command("SET course Rust").unwrap();

    assert_eq!(result.value, Some("Rust".to_string()));
    assert_eq!(result.ttl, None);
}

#[test]
fn set_value_can_contain_spaces_without_ttl() {
    let result = parse_command("SET sentence Rust is easy").unwrap();

    assert_eq!(result.value, Some("Rust is easy".to_string()));
    assert_eq!(result.ttl, None);
}

#[test]
fn ttl_zero_is_rejected() {
    let error = parse_command("SET key value 0").unwrap_err();

    assert!(error.message.contains("TTL"));
}

#[test]
fn ttl_negative_is_rejected() {
    let error = parse_command("SET key value -1").unwrap_err();

    assert!(error.message.contains("TTL"));
}

#[test]
fn ttl_too_large_is_rejected() {
    let error = parse_command("SET key value 999999999999").unwrap_err();

    assert!(error.message.contains("TTL"));
}

#[test]
fn non_set_commands_have_no_ttl() {
    let result = parse_command("GET key").unwrap();

    assert_eq!(result.ttl, None);
}

// --- integration view of the parser ---

#[test]
fn parse_set_basic() {
    let result = parse_command("SET name Alice").unwrap();
    assert_eq!(result.command, Command::Put);
    assert_eq!(result.key, Some("name".to_string()));
    assert_eq!(result.value, Some("Alice".to_string()));
}

#[test]
fn parse_get_basic() {
    let result = parse_command("GET name").unwrap();
    assert_eq!(result.command, Command::Get);
    assert_eq!(result.key, Some("name".to_string()));
    assert_eq!(result.value, None);
}

#[test]
fn parse_del_basic() {
    let result = parse_command("DEL name").unwrap();
    assert_eq!(result.command, Command::Del);
    assert_eq!(result.key, Some("name".to_string()));
    assert_eq!(result.value, None);
}

#[test]
fn parse_list() {
    let result = parse_command("LIST").unwrap();
    assert_eq!(result.command, Command::List);
    assert_eq!(result.key, None);
    assert_eq!(result.value, None);
}

#[test]
fn parse_status() {
    let result = parse_command("STATUS").unwrap();
    assert_eq!(result.command, Command::Status);
}

#[test]
fn parse_ping() {
    let result = parse_command("PING").unwrap();
    assert_eq!(result.command, Command::Ping);
}

#[test]
fn parse_exit() {
    let result = parse_command("EXIT").unwrap();
    assert_eq!(result.command, Command::Exit);
}

#[test]
fn parse_case_insensitive_lower() {
    assert_eq!(parse_command("set k v").unwrap().command, Command::Put);
    assert_eq!(parse_command("get k").unwrap().command, Command::Get);
    assert_eq!(parse_command("del k").unwrap().command, Command::Del);
    assert_eq!(parse_command("list").unwrap().command, Command::List);
}

#[test]
fn parse_case_insensitive_mixed() {
    assert_eq!(parse_command("SeT k v").unwrap().command, Command::Put);
    assert_eq!(parse_command("Get k").unwrap().command, Command::Get);
    assert_eq!(parse_command("PiNg").unwrap().command, Command::Ping);
}

#[test]
fn parse_set_value_with_spaces() {
    let result = parse_command("SET sentence Rust is easy").unwrap();
    assert_eq!(result.command, Command::Put);
    assert_eq!(result.key, Some("sentence".to_string()));
    assert_eq!(result.value, Some("Rust is easy".to_string()));
}

#[test]
fn parse_set_value_with_special_chars() {
    let result = parse_command("SET special !@#$%^&*()").unwrap();
    assert_eq!(result.value, Some("!@#$%^&*()".to_string()));
}

#[test]
fn parse_unknown_command() {
    let err = parse_command("FOOBAR").unwrap_err();
    assert!(err.message.contains("未知命令"));
}

#[test]
fn parse_empty_line() {
    let err = parse_command("").unwrap_err();
    assert!(err.message.contains("未知命令"));
}

#[test]
fn parse_missing_arg_set() {
    let err = parse_command("SET").unwrap_err();
    assert!(err.message.contains("缺少参数"));
}

#[test]
fn parse_set_missing_value() {
    let err = parse_command("SET name").unwrap_err();
    assert!(err.message.contains("缺少参数"));
}

#[test]
fn parse_missing_arg_get() {
    let err = parse_command("GET").unwrap_err();
    assert!(err.message.contains("缺少参数"));
}

#[test]
fn parse_missing_arg_del() {
    let err = parse_command("DEL").unwrap_err();
    assert!(err.message.contains("缺少参数"));
}

#[test]
fn parse_extra_arg_list() {
    let err = parse_command("LIST extra").unwrap_err();
    assert!(err.message.contains("多余参数"));
}

#[test]
fn parse_extra_arg_get() {
    let err = parse_command("GET name extra").unwrap_err();
    assert!(err.message.contains("多余参数"));
}

#[test]
fn parse_invalid_key_empty() {
    let err = parse_command("SET  value").unwrap_err();
    assert!(err.message.contains("缺少参数") || err.message.contains("非法键"));
}

#[test]
fn parse_message_too_long() {
    let long_cmd = "SET k ".to_string() + &"a".repeat(2000);
    let err = parse_command(&long_cmd).unwrap_err();
    assert!(err.message.contains("消息超长") || err.message.contains("不能超过"));
}

#[test]
fn parse_trims_leading_spaces() {
    let result = parse_command("   SET k v").unwrap();
    assert_eq!(result.command, Command::Put);
}

#[test]
fn parse_trims_trailing_spaces() {
    let result = parse_command("SET k v   ").unwrap();
    assert_eq!(result.command, Command::Put);
    assert_eq!(result.value, Some("v".to_string()));
}

#[test]
fn e2e_parse_and_execute_set_get() {
    let mut store = KVStore::new();

    let cmd = parse_command("SET name Alice").unwrap();
    assert_eq!(cmd.command, Command::Put);

    let key = cmd.key.as_deref().unwrap();
    let value = cmd.value.as_deref().unwrap();
    store.set(key, value, None).unwrap();

    let cmd = parse_command("GET name").unwrap();
    assert_eq!(cmd.command, Command::Get);

    let result = store.get(cmd.key.as_deref().unwrap()).unwrap();
    assert_eq!(result, Some("Alice"));
}

#[test]
fn e2e_parse_and_execute_full_flow() {
    let mut store = KVStore::new();

    let cmd = parse_command("SET a 1").unwrap();
    store
        .set(cmd.key.as_deref().unwrap(), cmd.value.as_deref().unwrap(), None)
        .unwrap();

    let cmd = parse_command("SET b 2").unwrap();
    store
        .set(cmd.key.as_deref().unwrap(), cmd.value.as_deref().unwrap(), None)
        .unwrap();

    assert_eq!(store.len(), 2);

    let cmd = parse_command("SET a 999").unwrap();
    store
        .set(cmd.key.as_deref().unwrap(), cmd.value.as_deref().unwrap(), None)
        .unwrap();
    assert_eq!(store.len(), 2);
    assert_eq!(store.get("a"), Ok(Some("999")));

    let cmd = parse_command("DEL b").unwrap();
    let removed = store.delete(cmd.key.as_deref().unwrap()).unwrap();
    assert!(removed);
    assert_eq!(store.len(), 1);

    let cmd = parse_command("LIST").unwrap();
    assert_eq!(cmd.command, Command::List);
    let keys = store.list();
    assert_eq!(keys, vec!["a".to_string()]);

    let cmd = parse_command("STATUS").unwrap();
    assert_eq!(cmd.command, Command::Status);
    assert_eq!(store.len(), 1);
}

#[test]
fn e2e_parse_error_does_not_affect_store() {
    let mut store = KVStore::new();
    store.set("good", "value", None).unwrap();

    let _ = parse_command("");
    let _ = parse_command("FOOBAR");
    let _ = parse_command("SET");
    let _ = parse_command("GET");

    assert_eq!(store.len(), 1);
    assert_eq!(store.get("good"), Ok(Some("value")));
}

#[test]
fn e2e_ping_exit_no_side_effects() {
    let store = KVStore::new();

    let ping = parse_command("PING").unwrap();
    assert_eq!(ping.command, Command::Ping);

    let exit = parse_command("EXIT").unwrap();
    assert_eq!(exit.command, Command::Exit);

    assert!(store.is_empty());
}

// --- exact messages and edge cases ---

#[test]
fn parse_error_messages_are_exact() {
    assert_eq!(parse_command("GET").unwrap_err().message, "缺少参数：GET 需要 key");
    assert_eq!(parse_command("DEL a b").unwrap_err().message, "多余参数：DEL 只能有一个 key");
    assert_eq!(parse_command("PING now").unwrap_err().message, "多余参数：PING 不需要参数");
    assert_eq!(parse_command("SET").unwrap_err().message, "缺少参数：SET 需要 key 和 value");
    assert_eq!(parse_command("SET k").unwrap_err().message, "缺少参数：SET 需要 value");
    assert_eq!(parse_command("HELLO x").unwrap_err().message, "未知命令：HELLO");
    assert_eq!(parse_command("   ").unwrap_err().message, "未知命令：命令不能为空");
    assert_eq!(parse_command("SET k v 0").unwrap_err().message, "TTL 必须大于 0");
    assert_eq!(parse_command("SET k v -3").unwrap_err().message, "非法键：TTL 必须是正整数");
    assert_eq!(
        parse_command("SET k v 31536001").unwrap_err().message,
        "TTL 不能超过 31536000 秒"
    );
}

#[test]
fn parse_error_to_string_adds_error_prefix() {
    let e = parse_command("HELLO").unwrap_err();
    assert_eq!(e.to_string(), "ERROR 未知命令：HELLO");
}

#[test]
fn parse_ttl_edges() {
    assert_eq!(MAX_TTL_SECONDS, 31_536_000);
    assert_eq!(parse_command("SET k v 31536000").unwrap().ttl, Some(31_536_000));
    assert_eq!(parse_command("SET k v 1").unwrap().ttl, Some(1));
    let r = parse_command("SET k a b +7").unwrap();
    assert_eq!(r.value, Some("a b +7".to_string()));
    assert_eq!(r.ttl, None);
    let r = parse_command("SET k 5").unwrap();
    assert_eq!(r.value, Some("5".to_string()));
    assert_eq!(r.ttl, None);
    assert!(parse_command("SET k  7").is_ok());
}

#[test]
fn parse_message_length_limit_counts_bytes() {
    let ok = "SET k ".to_string() + &"a".repeat(1018);
    assert_eq!(ok.len(), 1024);
    assert!(parse_command(&ok).is_ok());
    let long = "SET k ".to_string() + &"a".repeat(1019);
    assert_eq!(
        parse_command(&long).unwrap_err().message,
        "消息超长：单条命令不能超过 1024 字节"
    );
    let chinese = "SET k ".to_string() + &"你".repeat(340);
    assert_eq!(chinese.len(), 1026);
    assert!(parse_command(&chinese).is_err());
}

#[test]
fn parsed_keys_are_accepted_by_the_store() {
    let mut store = KVStore::new();
    for line in ["SET a\u{3000}b 1", "SET 键 值", "get x", "DEL y"] {
        if let Ok(p) = parse_command(line) {
            let key = p.key.unwrap();
            assert!(store.get(&key).is_ok());
        }
    }
    let p = parse_command("SET 键 值 10").unwrap();
    assert_eq!(p.key, Some("键".to_string()));
    assert!(store.set("键", "值", p.ttl).is_ok());
}

#[test]
fn values_with_line_breaks_are_rejected() {
    assert_eq!(
        parse_command("SET k a\nb").unwrap_err().message,
        "非法值：value 不能包含换行"
    );
    assert!(parse_command("SET k a\rb c").is_err());
    let r = parse_command("SET k a\n").unwrap();
    assert_eq!(r.value, Some("a".to_string()));
    let r = parse_command("SET k a\n5").unwrap();
    assert_eq!((r.value, r.ttl), (Some("a".to_string()), Some(5)));
}
