use kvstore::parser::{parse_command, ParsedCommand};
use kvstore::protocol::Command;
use kvstore::server::{run, PendingWrite, Server, ServerMode, Step};
use kvstore::persistence::LogRecord;

/// Runs one line the way the network loop does: writes go to `log` first.
fn run_line(server: &mut Server, log: &mut Vec<String>, line: &str) -> Option<String> {
    let parsed = parse_command(line).unwrap();
    match server.execute(&parsed) {
        Step::Reply(s) => Some(s),
        Step::Exit => None,
        Step::Write(w) => {
            log.push(w.record().to_line());
            Some(server.complete(w, Ok(())))
        }
    }
}

fn status_of(server: &mut Server) -> String {
    let mut log = Vec::new();
    run_line(server, &mut log, "STATUS").unwrap()
}

#[test]
fn server_ping_returns_pong() {
    let mut server = Server::new("data/unused.log");
    let mut log = Vec::new();
    assert_eq!(run_line(&mut server, &mut log, "PING"), Some("PONG".to_string()));
    assert!(log.is_empty());
}

#[test]
fn server_status_reports_count_and_counters() {
    let mut server = Server::new("data/unused.log");
    let status = status_of(&mut server);
    assert!(status.starts_with("STATUS count=0 connections=0 uptime="), "{}", status);
    assert!(status.ends_with("s commands=1"), "{}", status);
    let mut log = Vec::new();
    run_line(&mut server, &mut log, "SET a 1");
    run_line(&mut server, &mut log, "SET b 2");
    server.connection_opened();
    server.connection_opened();
    server.connection_closed();
    let status = status_of(&mut server);
    assert!(status.starts_with("STATUS count=2 connections=1 uptime="), "{}", status);
    assert!(status.ends_with("s commands=4"), "{}", status);
}

#[test]
fn server_list_empty_store_returns_keys_token() {
    let mut server = Server::new("data/unused.log");
    let mut log = Vec::new();
    assert_eq!(run_line(&mut server, &mut log, "LIST"), Some("KEYS".to_string()));
    run_line(&mut server, &mut log, "SET b 2");
    run_line(&mut server, &mut log, "SET a 1");
    assert_eq!(run_line(&mut server, &mut log, "LIST"), Some("KEYS a b".to_string()));
}

#[test]
fn server_set_returns_ok_and_is_logged() {
    let mut server = Server::new("data/unused.log");
    let mut log = Vec::new();
    assert_eq!(run_line(&mut server, &mut log, "SET k hello world"), Some("OK".to_string()));
    assert_eq!(log, vec!["SET k hello world".to_string()]);
    assert_eq!(
        run_line(&mut server, &mut log, "GET k"),
        Some("VALUE k hello world".to_string())
    );
}

#[test]
fn server_get_missing_key_reports_error() {
    let mut server = Server::new("data/unused.log");
    let mut log = Vec::new();
    assert_eq!(run_line(&mut server, &mut log, "GET nope"), Some("ERROR 键不存在".to_string()));
}

#[test]
fn server_del_missing_key_is_not_logged() {
    let mut server = Server::new("data/unused.log");
    let mut log = Vec::new();
    assert_eq!(run_line(&mut server, &mut log, "DEL nope"), Some("ERROR 键不存在".to_string()));
    assert!(log.is_empty());
    run_line(&mut server, &mut log, "SET k v");
    assert_eq!(run_line(&mut server, &mut log, "DEL k"), Some("OK".to_string()));
    assert_eq!(log, vec!["SET k v".to_string(), "DEL k".to_string()]);
    assert_eq!(run_line(&mut server, &mut log, "GET k"), Some("ERROR 键不存在".to_string()));
}

#[test]
fn server_missing_arguments_do_not_panic() {
    let mut server = Server::new("data/unused.log");
    for command in [Command::Put, Command::Get, Command::Del] {
        let parsed = ParsedCommand { command, key: None, value: None, ttl: None };
        match server.execute(&parsed) {
            Step::Reply(s) => assert_eq!(s, "ERROR 缺少参数"),
            _ => panic!("expected a reply"),
        }
    }
    let parsed = ParsedCommand {
        command: Command::Get,
        key: Some("a b".to_string()),
        value: None,
        ttl: None,
    };
    match server.execute(&parsed) {
        Step::Reply(s) => assert_eq!(s, "ERROR 非法键: 键不能包含空白字符"),
        _ => panic!("expected a reply"),
    }
}

#[test]
fn server_exit_closes_the_connection() {
    let mut server = Server::new("data/unused.log");
    let mut log = Vec::new();
    assert_eq!(run_line(&mut server, &mut log, "EXIT"), None);
}

#[test]
fn server_recover_restores_written_data() {
    let mut log = Vec::new();
    {
        let mut server = Server::new("data/unused.log");
        run_line(&mut server, &mut log, "SET name Alice");
        run_line(&mut server, &mut log, "SET greeting 你好 世界");
        run_line(&mut server, &mut log, "SET tmp x");
        run_line(&mut server, &mut log, "DEL tmp");
    }
    let mut server = Server::new("data/unused.log");
    assert_eq!(server.recover(&log), Ok(()));
    let mut none = Vec::new();
    assert_eq!(
        run_line(&mut server, &mut none, "GET name"),
        Some("VALUE name Alice".to_string())
    );
    assert_eq!(
        run_line(&mut server, &mut none, "GET greeting"),
        Some("VALUE greeting 你好 世界".to_string())
    );
    assert_eq!(run_line(&mut server, &mut none, "GET tmp"), Some("ERROR 键不存在".to_string()));
    assert_eq!(run_line(&mut server, &mut none, "LIST"), Some("KEYS greeting name".to_string()));
}

#[test]
fn server_recover_reports_bad_lines() {
    let mut server = Server::new("data/unused.log");
    let lines = vec!["SET a 1".to_string(), "SET k".to_string()];
    assert_eq!(
        server.recover(&lines),
        Err("日志文件第 2 行格式错误: \"SET k\"".to_string())
    );
}

#[test]
fn refused_write_changes_nothing() {
    let mut server = Server::new("data/unused.log");
    let parsed = parse_command("SET k v").unwrap();
    let w = match server.execute(&parsed) {
        Step::Write(w) => w,
        _ => panic!("expected a write"),
    };
    assert_eq!(server.complete(w, Err("磁盘已满".to_string())), "ERROR 写日志失败: 磁盘已满");
    let mut log = Vec::new();
    assert_eq!(run_line(&mut server, &mut log, "GET k"), Some("ERROR 键不存在".to_string()));
}

#[test]
fn pending_write_records() {
    let put = PendingWrite::Put { key: "k".to_string(), value: "v w".to_string(), ttl: Some(5) };
    assert_eq!(put.record(), LogRecord::Put { key: "k".to_string(), value: "v w".to_string() });
    let del = PendingWrite::Del { key: "k".to_string() };
    assert_eq!(del.record().to_line(), "DEL k");
}

#[test]
fn ttl_set_through_the_server_expires() {
    let mut server = Server::new("data/unused.log");
    let parsed = parse_command("SET course Rust 3").unwrap();
    let w = match server.execute_at(&parsed, 10_000) {
        Step::Write(w) => w,
        _ => panic!("expected a write"),
    };
    assert_eq!(w.record().to_line(), "SET course Rust");
    assert_eq!(server.complete_at(w, Ok(()), 10_000), "OK");
    let get = parse_command("GET course").unwrap();
    match server.respond_at(&get, 12_999) {
        Step::Reply(s) => assert_eq!(s, "VALUE course Rust"),
        _ => panic!("expected a reply"),
    }
    match server.respond_at(&get, 13_000) {
        Step::Reply(s) => assert_eq!(s, "ERROR 键不存在"),
        _ => panic!("expected a reply"),
    }
    let del = parse_command("DEL course").unwrap();
    match server.respond_at(&del, 13_000) {
        Step::Reply(s) => assert_eq!(s, "ERROR 键不存在"),
        _ => panic!("expected a reply"),
    }
}

#[test]
fn handle_line_skips_blank_lines_and_reports_parse_errors() {
    let mut server = Server::new("data/unused.log");
    assert!(server.handle_line("   \r\n").is_none());
    match server.handle_line("FOO bar\r\n") {
        Some(Step::Reply(s)) => assert_eq!(s, "ERROR 未知命令：FOO"),
        _ => panic!("expected a reply"),
    }
    match server.handle_line("ping\n") {
        Some(Step::Reply(s)) => assert_eq!(s, "PONG"),
        _ => panic!("expected a reply"),
    }
    assert!(matches!(server.handle_line("EXIT\n"), Some(Step::Exit)));
    let status = status_of(&mut server);
    assert!(status.ends_with("s commands=3"), "{}", status);
}

#[test]
fn execute_without_count_only_answers_reads() {
    let mut server = Server::new("data/unused.log");
    let ping = parse_command("PING").unwrap();
    assert_eq!(server.execute_without_count(&ping), Some("PONG".to_string()));
    let set = parse_command("SET a 1").unwrap();
    assert_eq!(server.execute_without_count(&set), None);
    let exit = parse_command("EXIT").unwrap();
    assert_eq!(server.execute_without_count(&exit), None);
    let status = status_of(&mut server);
    assert!(status.ends_with("s commands=1"), "{}", status);
}

#[test]
fn server_mode_from_arguments() {
    assert_eq!(run(&vec![]), ServerMode::Network);
    assert_eq!(run(&vec!["--local".to_string()]), ServerMode::Local);
    assert_eq!(run(&vec!["x".to_string(), "--local".to_string()]), ServerMode::Local);
    assert_eq!(run(&vec!["--LOCAL".to_string()]), ServerMode::Network);
}

#[test]
fn server_keeps_its_log_path() {
    let server = Server::new("data/kv.log");
    assert_eq!(server.persistence().log_path(), "data/kv.log");
}

#[test]
fn refused_set_asks_for_no_write() {
    let mut server = Server::new("data/unused.log");
    let bad_key = ParsedCommand {
        command: Command::Put,
        key: Some("a b".to_string()),
        value: Some("v".to_string()),
        ttl: None,
    };
    match server.execute(&bad_key) {
        Step::Reply(s) => assert_eq!(s, "ERROR 非法键: 键不能包含空白字符"),
        _ => panic!("expected a reply"),
    }
    let bad_value = ParsedCommand {
        command: Command::Put,
        key: Some("k".to_string()),
        value: Some("a\nb".to_string()),
        ttl: None,
    };
    match server.execute(&bad_value) {
        Step::Reply(s) => assert_eq!(s, "ERROR 非法值：value 不能包含换行"),
        _ => panic!("expected a reply"),
    }
    let mut log = Vec::new();
    assert_eq!(run_line(&mut server, &mut log, "LIST"), Some("KEYS".to_string()));
    assert!(log.is_empty());
}
