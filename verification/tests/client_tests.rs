use kvstore::client::{ends_session, launch, next_step, server_config, ClientStep, Launch};
use kvstore::protocol::Command;
use kvstore::server::ServerMode;

fn args(list: &[&str]) -> Vec<String> {
    list.iter().map(|s| s.to_string()).collect()
}

#[test]
fn typed_lines_are_sent_without_their_line_end() {
    match next_step("SET a hello world\r\n") {
        ClientStep::Send { request, command } => {
            assert_eq!(request, "SET a hello world");
            assert_eq!(command.command, Command::Put);
            assert!(!ends_session(&command));
        }
        ClientStep::Show(_) => panic!("expected a request"),
    }
    match next_step("  exit  \n") {
        ClientStep::Send { request, command } => {
            assert_eq!(request, "  exit  ");
            assert!(ends_session(&command));
        }
        ClientStep::Show(_) => panic!("expected a request"),
    }
}

#[test]
fn lines_that_do_not_parse_are_shown_not_sent() {
    match next_step("FOO\n") {
        ClientStep::Show(text) => assert_eq!(text, "ERROR 未知命令：FOO"),
        ClientStep::Send { .. } => panic!("expected an error"),
    }
    match next_step("\n") {
        ClientStep::Show(text) => assert_eq!(text, "ERROR 未知命令：命令不能为空"),
        ClientStep::Send { .. } => panic!("expected an error"),
    }
}

#[test]
fn program_arguments_select_what_runs() {
    assert_eq!(launch(&args(&["kvstore", "server"])), Launch::Server(ServerMode::Network));
    assert_eq!(
        launch(&args(&["kvstore", "server", "--local"])),
        Launch::Server(ServerMode::Local)
    );
    assert_eq!(launch(&args(&["kvstore", "client"])), Launch::Client { local: false });
    assert_eq!(
        launch(&args(&["kvstore", "client", "--local"])),
        Launch::Client { local: true }
    );
    assert_eq!(launch(&args(&["kvstore", "--version"])), Launch::Version);
    assert_eq!(launch(&args(&["kvstore", "-V"])), Launch::Version);
    assert_eq!(launch(&args(&["kvstore"])), Launch::Help);
    assert_eq!(launch(&args(&["kvstore", "--help"])), Launch::Help);
}

#[test]
fn server_options_from_arguments() {
    let c = server_config(&args(&["kvstore", "server"]), 2).unwrap();
    assert_eq!((c.port, c.web_port, c.data_file.as_str()), (7878, 8080, "data/kv.log"));
    let c = server_config(
        &args(&["kvstore", "server", "--port", "9000", "--local", "--web-port", "0", "--data", "my.log"]),
        2,
    )
    .unwrap();
    assert_eq!((c.port, c.web_port, c.data_file.as_str()), (9000, 0, "my.log"));
    let c = server_config(&args(&["kvstore", "server", "--port", "+1", "--port", "2"]), 2).unwrap();
    assert_eq!(c.port, 2);
    assert_eq!(
        server_config(&args(&["kvstore", "server", "--port"]), 2).err(),
        Some("参数 --port 缺少取值".to_string())
    );
    assert_eq!(
        server_config(&args(&["kvstore", "server", "--web-port", "65536"]), 2).err(),
        Some("参数 --web-port 的取值不是端口号: 65536".to_string())
    );
}
