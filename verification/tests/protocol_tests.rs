use kvstore::protocol::error::{KEY_NOT_FOUND, MISSING_ARG, UNKNOWN_COMMAND};
use kvstore::protocol::{Command, DEFAULT_ADDR, DEFAULT_DATA_FILE, DEFAULT_PORT, MAX_MSG_LEN};

#[test]
fn command_from_str_is_case_insensitive() {
    assert_eq!(Command::from_str("set"), Some(Command::Put));
    assert_eq!(Command::from_str("GET"), Some(Command::Get));
    assert_eq!(Command::from_str("List"), Some(Command::List));
    assert_eq!(Command::from_str("FOO"), None);
}

#[test]
fn command_required_args() {
    assert_eq!(Command::Put.required_args(), 2);
    assert_eq!(Command::Get.required_args(), 1);
    assert_eq!(Command::Ping.required_args(), 0);
}

#[test]
fn command_names_round_trip() {
    for c in [
        Command::Put,
        Command::Get,
        Command::Del,
        Command::List,
        Command::Status,
        Command::Ping,
        Command::Exit,
    ] {
        assert_eq!(Command::from_str(c.name()), Some(c));
        assert_eq!(Command::from_str(&c.name().to_lowercase()), Some(c));
    }
    assert_eq!(Command::Put.name(), "SET");
    assert_eq!(Command::Status.name(), "STATUS");
    assert_eq!(Command::Exit.required_args(), 0);
    assert_eq!(Command::Del.required_args(), 1);
    assert_eq!(Command::from_str("ＳＥＴ"), None);
    assert_eq!(Command::from_str(""), None);
}

#[test]
fn protocol_constants() {
    assert_eq!(DEFAULT_ADDR, "127.0.0.1:7878");
    assert_eq!(DEFAULT_PORT, 7878);
    assert_eq!(MAX_MSG_LEN, 1024);
    assert_eq!(DEFAULT_DATA_FILE, "data/kv.log");
    assert_eq!(KEY_NOT_FOUND, "键不存在");
    assert_eq!(MISSING_ARG, "缺少参数");
    assert_eq!(UNKNOWN_COMMAND, "未知命令");
}
