use kvstore::server::Server;
use kvstore::web::{parse_request, HttpRequest};
use kvstore::webpage::{finish_page, handle, AfterWrite, Page, NOT_ALLOWED};

fn request(method: &str, target: &str, body: &str) -> HttpRequest {
    parse_request(method, target, body)
}

/// Serves a request, logging a write first when the page asks for one.
fn serve(server: &mut Server, log: &mut Vec<String>, req: &HttpRequest) -> String {
    match handle(req, server) {
        Page::Done(html) => html,
        Page::Write(w, after) => {
            log.push(w.record().to_line());
            finish_page(server, w, after, Ok(()))
        }
    }
}

#[test]
fn homepage_shows_status_table_and_form() {
    let mut server = Server::new("data/unused.log");
    let mut log = Vec::new();
    let html = serve(&mut server, &mut log, &request("GET", "/", ""));
    assert!(html.starts_with("HTTP/1.1 200 OK\r\nContent-Type: text/html; charset=utf-8\r\n"));
    assert!(html.contains("<p>STATUS count=0 connections=0 uptime="));
    assert!(html.contains("<tbody id=\"data-table\"><tr><td colspan=2>（空）</td></tr></tbody>"));
    assert!(html.contains("<form method=\"post\" action=\"/cmd\">"));
    assert!(html.contains("onclick=\"refreshDataTable()\""));
    assert!(!html.contains("http-equiv=\"refresh\""));
}

#[test]
fn post_command_writes_through_the_log() {
    let mut server = Server::new("data/unused.log");
    let mut log = Vec::new();
    let html = serve(
        &mut server,
        &mut log,
        &request("POST", "/cmd", "command=SET+course+Rust%E8%AF%BE"),
    );
    assert_eq!(log, vec!["SET course Rust课".to_string()]);
    assert!(html.contains("<div style='color:green;margin:10px 0;'>OK</div>"));
    assert!(html.contains("<tr><td>course</td><td>Rust课</td></tr>"));
}

#[test]
fn data_route_shows_latest_value() {
    let mut server = Server::new("data/unused.log");
    let mut log = Vec::new();
    serve(&mut server, &mut log, &request("POST", "/cmd", "command=SET k v1"));
    let before = serve(&mut server, &mut log, &request("GET", "/data", ""));
    assert!(before.ends_with("\r\n\r\n<tr><td>k</td><td>v1</td></tr>"));
    serve(&mut server, &mut log, &request("POST", "/cmd", "command=SET k <b>v2</b>"));
    let after = serve(&mut server, &mut log, &request("GET", "/data", ""));
    assert!(after.ends_with("\r\n\r\n<tr><td>k</td><td>&lt;b&gt;v2&lt;/b&gt;</td></tr>"));
}

#[test]
fn display_pages_do_not_count_commands() {
    let mut server = Server::new("data/unused.log");
    let mut log = Vec::new();
    serve(&mut server, &mut log, &request("GET", "/", ""));
    serve(&mut server, &mut log, &request("GET", "/data", ""));
    let html = serve(&mut server, &mut log, &request("GET", "/", ""));
    assert!(html.contains("s commands=0</p>"));
    serve(&mut server, &mut log, &request("POST", "/cmd", "command=PING"));
    let html = serve(&mut server, &mut log, &request("GET", "/", ""));
    assert!(html.contains("s commands=1</p>"));
}

#[test]
fn exit_is_refused_on_the_page() {
    let mut server = Server::new("data/unused.log");
    let mut log = Vec::new();
    let html = serve(&mut server, &mut log, &request("POST", "/cmd", "command=EXIT"));
    assert_eq!(NOT_ALLOWED, "ERROR 该命令不允许在网页上执行");
    assert!(html.contains("<div style='color:red;margin:10px 0;'>ERROR 该命令不允许在网页上执行</div>"));
    let html = serve(&mut server, &mut log, &request("POST", "/cmd", "command=PING"));
    assert!(html.contains(">PONG</div>"));
}

#[test]
fn empty_command_and_parse_errors_show_red_notices() {
    let mut server = Server::new("data/unused.log");
    let mut log = Vec::new();
    let html = serve(&mut server, &mut log, &request("POST", "/cmd", "command=+++"));
    assert!(html.contains("color:red;margin:10px 0;'>ERROR 命令为空</div>"));
    let html = serve(&mut server, &mut log, &request("POST", "/cmd", "other=1"));
    assert!(html.contains(">ERROR 命令为空</div>"));
    let html = serve(&mut server, &mut log, &request("POST", "/cmd", "command=FOO"));
    assert!(html.contains(">ERROR 未知命令：FOO</div>"));
    assert!(log.is_empty());
}

#[test]
fn get_route_looks_a_key_up() {
    let mut server = Server::new("data/unused.log");
    let mut log = Vec::new();
    serve(&mut server, &mut log, &request("POST", "/cmd", "command=SET 课程 Rust %26 Go"));
    let html = serve(&mut server, &mut log, &request("GET", "/get?key=%E8%AF%BE%E7%A8%8B", ""));
    assert!(html.ends_with("<h1>查询结果</h1><pre>VALUE 课程 Rust &amp; Go</pre><p><a href='/'>返回主页</a></p>"));
    let html = serve(&mut server, &mut log, &request("GET", "/get?key=nope", ""));
    assert!(html.contains("<pre>ERROR 键不存在</pre>"));
    let html = serve(&mut server, &mut log, &request("GET", "/get", ""));
    assert!(html.starts_with("HTTP/1.1 400 Bad Request\r\n"));
    assert!(html.ends_with("<h1>400 缺少 key 参数</h1><p><a href='/'>返回主页</a></p>"));
}

#[test]
fn unknown_routes_are_not_found() {
    let mut server = Server::new("data/unused.log");
    let mut log = Vec::new();
    let html = serve(&mut server, &mut log, &request("GET", "/nope", ""));
    assert!(html.starts_with("HTTP/1.1 404 Not Found\r\n"));
    let html = serve(&mut server, &mut log, &request("POST", "/", ""));
    assert!(html.starts_with("HTTP/1.1 404 Not Found\r\n"));
}

#[test]
fn refused_log_write_shows_error_and_changes_nothing() {
    let mut server = Server::new("data/unused.log");
    let req = request("POST", "/cmd", "command=SET k v");
    let (w, after) = match handle(&req, &mut server) {
        Page::Write(w, after) => (w, after),
        Page::Done(_) => panic!("expected a write"),
    };
    assert!(after == AfterWrite::Index);
    let html = finish_page(&mut server, w, after, Err("只读文件系统".to_string()));
    assert!(html.contains("color:red;margin:10px 0;'>ERROR 写日志失败: 只读文件系统</div>"));
    assert!(html.contains("<tr><td colspan=2>（空）</td></tr>"));
}

#[test]
fn deleting_from_the_page_empties_the_table() {
    let mut server = Server::new("data/unused.log");
    let mut log = Vec::new();
    serve(&mut server, &mut log, &request("POST", "/cmd", "command=SET a 1"));
    let html = serve(&mut server, &mut log, &request("POST", "/cmd", "command=del a"));
    assert!(html.contains(">OK</div>"));
    assert!(html.contains("<tr><td colspan=2>（空）</td></tr>"));
    assert_eq!(log, vec!["SET a 1".to_string(), "DEL a".to_string()]);
}

#[test]
fn page_refuses_values_with_line_breaks() {
    let mut server = Server::new("data/unused.log");
    let mut log = Vec::new();
    let html = serve(&mut server, &mut log, &request("POST", "/cmd", "command=SET k a%0Ab"));
    assert!(html.contains(">ERROR 非法值：value 不能包含换行</div>"));
    assert!(log.is_empty());
}
