//! The web page and its routes.
//!
//! `GET /` shows the status line, the table of keys and values and a command
//! form; `GET /data` gives the table rows alone; `GET /get?key=…` looks up one
//! key; `POST /cmd` runs the `command` field and shows the home page with its
//! result. Commands go through the same parser and `Server` as the line
//! protocol, so writes are logged first; `EXIT` is refused. The display reads
//! (`STATUS`, `LIST`, `GET` for each row) are not counted as commands.

use vstd::prelude::*;

use crate::parser::{parse, parse_command};
use crate::server::{
    counted, error_reply, finish, logged_view, respond, PendingWrite, Server, ServerView, Step,
    StepView, WriteView,
};
use crate::server::get_request;
use crate::store::{key_problem, later_of, lookup};
use crate::text::{
    is_ws, lemma_trim_start_fixed, trim_end, chars_of, find_char, find_char_index, lemma_find_char_found, push_str, string_from_range, trim,
    trim_end_index, trim_start_index,
};
use crate::web::{html_escape, html_escaped, http_response, response_text, HttpRequest, RequestView};

verus! {

/// Shown when a command cannot run from the page.
pub const NOT_ALLOWED: &'static str = "ERROR 该命令不允许在网页上执行";

/// Content type of every page.
pub const HTML: &'static str = "text/html; charset=utf-8";

/// The table body when there is nothing to show.
pub const EMPTY_ROWS: &'static str = "<tr><td colspan=2>（空）</td></tr>";

/// The home page up to the status line.
pub const PAGE_HEAD: &'static str = "<!DOCTYPE html>\n<html lang=\"zh\">\n<head><meta charset=\"utf-8\"><title>kvstore Web 管理</title>\n<style>\nbody { font-family: \"Microsoft YaHei\", sans-serif; margin: 30px; }\ntable { border-collapse: collapse; margin: 15px 0; }\ntd, th { border: 1px solid #ccc; padding: 6px 14px; }\nth { background: #f0f0f0; }\ninput[type=text] { width: 55%; padding: 6px; }\nbutton { padding: 6px 18px; }\n</style></head>\n<body>\n<h1>kvstore Web 管理</h1>\n<p>";

/// Between the status line and the notice.
pub const PAGE_AFTER_STATUS: &'static str = "</p>\n";

/// Between the notice and the table rows.
pub const PAGE_TABLE: &'static str = "\n<h2>数据表 <button type=\"button\" id=\"refresh-data\" onclick=\"refreshDataTable()\">刷新数据表</button></h2>\n<table><tr><th>Key</th><th>Value</th></tr><tbody id=\"data-table\">";

/// After the table rows.
pub const PAGE_TAIL: &'static str = "</tbody></table>\n<h2>执行命令</h2>\n<form method=\"post\" action=\"/cmd\">\n  <input type=\"text\" name=\"command\" placeholder=\"例如: SET course Rust 5\" autofocus>\n  <button type=\"submit\">执行</button>\n</form>\n<script>\nasync function refreshDataTable() {\n  try {\n    const response = await fetch(`/data?ts=${Date.now()}`, { cache: \"no-store\" });\n    if (!response.ok) return;\n    document.getElementById(\"data-table\").innerHTML = await response.text();\n  } catch (_) {\n    // 保留上一次成功显示的数据；用户可以再次点击按钮重试。\n  }\n}\n</script>\n<p style=\"color:#888;\">支持: SET key value [ttl] / GET key / DEL key / LIST / STATUS / PING（EXIT 不可用）</p>\n</body></html>";

} // verus!

verus! {

// ---------------------------------------------------------------------------
// What the page shows, stated over the server's state
// ---------------------------------------------------------------------------

pub open spec fn starts_with(s: Seq<char>, p: Seq<char>) -> bool {
    s.len() >= p.len() && s.take(p.len() as int) == p
}

/// The non-empty pieces of `s` between single spaces.
pub open spec fn space_words(s: Seq<char>) -> Seq<Seq<char>>
    decreases s.len(),
{
    match find_char(s, ' ') {
        None => if s.len() > 0 {
            seq![s]
        } else {
            Seq::empty()
        },
        Some(p) => {
            proof {
                lemma_find_char_found(s, ' ');
            }
            (if p > 0 {
                seq![s.take(p as int)]
            } else {
                Seq::empty()
            }) + space_words(s.skip(p + 1int))
        },
    }
}

/// The outcome of a command line typed on the page.
pub enum LineView {
    Text(Seq<char>),
    Write(WriteView),
}

/// A typed command line: parse errors and refusals become `ERROR` texts;
/// a parsed command is counted.
pub open spec fn line_outcome(v: ServerView, line: Seq<char>, now: u64) -> (LineView, ServerView) {
    match parse(line) {
        Err(m) => (LineView::Text(error_reply(m)), v),
        Ok(p) => {
            let v2 = counted(v);
            match respond(v2, p, now) {
                StepView::Reply(t) => (LineView::Text(t), v2),
                StepView::Exit => (LineView::Text(NOT_ALLOWED@), v2),
                StepView::Write(w) => (LineView::Write(w), v2),
            }
        },
    }
}

/// A command line run only to display its answer (not counted, never writing).
pub open spec fn display_line(v: ServerView, line: Seq<char>, now: u64) -> Seq<char> {
    match parse(line) {
        Err(m) => error_reply(m),
        Ok(p) => match respond(v, p, now) {
            StepView::Reply(t) => t,
            _ => NOT_ALLOWED@,
        },
    }
}

/// The keys named by a `KEYS …` reply.
pub open spec fn listed_keys(reply: Seq<char>) -> Seq<Seq<char>> {
    if starts_with(reply, "KEYS"@) {
        space_words(trim(reply.skip(4)))
    } else {
        Seq::empty()
    }
}

/// The value shown for a `GET` reply: what follows `VALUE <key> `, or the whole reply.
pub open spec fn shown_value(reply: Seq<char>) -> Seq<char> {
    if starts_with(reply, "VALUE"@) {
        let r = trim(reply.skip(5));
        match find_char(r, ' ') {
            Some(p) => r.skip(p + 1int),
            None => reply,
        }
    } else {
        reply
    }
}

pub open spec fn table_row(key: Seq<char>, value: Seq<char>) -> Seq<char> {
    "<tr><td>"@ + html_escaped(key) + "</td><td>"@ + html_escaped(value) + "</td></tr>"@
}

/// One row per key, each showing the value a `GET` gives.
pub open spec fn rows_of(v: ServerView, keys: Seq<Seq<char>>, now: u64) -> Seq<char>
    decreases keys.len(),
{
    if keys.len() == 0 {
        Seq::empty()
    } else {
        rows_of(v, keys.drop_last(), now) + table_row(
            keys.last(),
            shown_value(display_line(v, "GET "@ + keys.last(), now)),
        )
    }
}

/// The table body: the rows of the keys `LIST` gives, or the empty marker.
pub open spec fn data_rows_text(v: ServerView, now: u64) -> Seq<char> {
    let rows = rows_of(v, listed_keys(display_line(v, "LIST"@, now)), now);
    if rows.len() == 0 {
        EMPTY_ROWS@
    } else {
        rows
    }
}

/// The notice shown above the table after a command: red for errors, green otherwise.
pub open spec fn flash_html(flash: Option<Seq<char>>) -> Seq<char> {
    match flash {
        Some(f) => "<div style='color:"@ + (if starts_with(f, "ERROR"@) {
            "red"@
        } else {
            "green"@
        }) + ";margin:10px 0;'>"@ + html_escaped(f) + "</div>"@,
        None => Seq::empty(),
    }
}

/// The home page.
pub open spec fn index_text(v: ServerView, flash: Option<Seq<char>>, now: u64) -> Seq<char> {
    let rows = data_rows_text(v, now);
    response_text(
        200,
        HTML@,
        PAGE_HEAD@ + html_escaped(display_line(v, "STATUS"@, now)) + PAGE_AFTER_STATUS@
            + flash_html(flash) + PAGE_TABLE@ + (if rows.len() == 0 {
            EMPTY_ROWS@
        } else {
            rows
        }) + PAGE_TAIL@,
    )
}

pub open spec fn query_page(reply: Seq<char>) -> Seq<char> {
    response_text(
        200,
        HTML@,
        "<h1>查询结果</h1><pre>"@ + html_escaped(reply) + "</pre><p><a href='/'>返回主页</a></p>"@,
    )
}

pub open spec fn missing_key_page() -> Seq<char> {
    response_text(400, HTML@, "<h1>400 缺少 key 参数</h1><p><a href='/'>返回主页</a></p>"@)
}

pub open spec fn not_found_page() -> Seq<char> {
    response_text(404, HTML@, "<h1>404 Not Found</h1><p><a href='/'>返回主页</a></p>"@)
}

/// The value of the first field named `name`.
pub open spec fn find_field(fields: Seq<(Seq<char>, Seq<char>)>, name: Seq<char>) -> Option<
    Seq<char>,
>
    decreases fields.len(),
{
    if fields.len() == 0 {
        None
    } else if fields[0].0 == name {
        Some(fields[0].1)
    } else {
        find_field(fields.drop_first(), name)
    }
}

/// Which page to show once a logged write completes.
#[derive(Clone, Copy, PartialEq, Eq, Structural)]
pub enum AfterWrite {
    /// The home page, with the reply as its notice (`POST /cmd`).
    Index,
    /// The lookup page (`GET /get`).
    Query,
}

/// A page, or a write to log before the page can be made.
pub enum Page {
    Done(String),
    Write(PendingWrite, AfterWrite),
}

pub enum PageView {
    Done(Seq<char>),
    Write(WriteView, AfterWrite),
}

impl View for Page {
    type V = PageView;

    open spec fn view(&self) -> PageView {
        match self {
            Page::Done(s) => PageView::Done(s@),
            Page::Write(w, a) => PageView::Write(w@, *a),
        }
    }
}

/// The page for a request at time `now`, and the server state after it.
pub open spec fn page(v: ServerView, req: RequestView, now: u64) -> (PageView, ServerView) {
    if req.method == "GET"@ && req.path == "/"@ {
        (PageView::Done(index_text(v, None, now)), v)
    } else if req.method == "GET"@ && req.path == "/data"@ {
        (PageView::Done(response_text(200, HTML@, data_rows_text(v, now))), v)
    } else if req.method == "GET"@ && req.path == "/get"@ {
        match find_field(req.query, "key"@) {
            Some(k) => match line_outcome(v, "GET "@ + k, now) {
                (LineView::Text(t), v2) => (PageView::Done(query_page(t)), v2),
                (LineView::Write(w), v2) => (PageView::Write(w, AfterWrite::Query), v2),
            },
            None => (PageView::Done(missing_key_page()), v),
        }
    } else if req.method == "POST"@ && req.path == "/cmd"@ {
        match find_field(req.body, "command"@) {
            Some(c) if trim(c).len() > 0 => match line_outcome(v, trim(c), now) {
                (LineView::Text(t), v2) => (PageView::Done(index_text(v2, Some(t), now)), v2),
                (LineView::Write(w), v2) => (PageView::Write(w, AfterWrite::Index), v2),
            },
            _ => (PageView::Done(index_text(v, Some("ERROR 命令为空"@), now)), v),
        }
    } else {
        (PageView::Done(not_found_page()), v)
    }
}

/// The page shown once a write has been logged (or refused by the log).
pub open spec fn page_after(v: ServerView, after: AfterWrite, reply: Seq<char>, now: u64) -> Seq<
    char,
> {
    match after {
        AfterWrite::Index => index_text(v, Some(reply), now),
        AfterWrite::Query => query_page(reply),
    }
}

} // verus!

verus! {

// ---------------------------------------------------------------------------
// Implementation
// ---------------------------------------------------------------------------

fn starts_with_text(v: &Vec<char>, p: &str) -> (r: bool)
    ensures
        r == starts_with(v@, p@),
{
    let pv = chars_of(p);
    if v.len() < pv.len() {
        return false;
    }
    let mut i: usize = 0;
    while i < pv.len()
        invariant
            pv@ == p@,
            pv.len() <= v.len(),
            i <= pv.len(),
            forall|j: int| 0 <= j < i ==> v@[j] == pv@[j],
        decreases pv.len() - i,
    {
        if v[i] != pv[i] {
            return false;
        }
        i = i + 1;
    }
    assert(v@.take(pv.len() as int) == pv@);
    true
}

/// The non-empty pieces of `v[lo..hi]` between single spaces.
fn split_spaces(v: &Vec<char>, lo: usize, hi: usize) -> (r: Vec<String>)
    requires
        lo <= hi <= v.len(),
    ensures
        crate::store::string_views(r@) == space_words(v@.subrange(lo as int, hi as int)),
{
    let mut out: Vec<String> = Vec::new();
    let mut pos = lo;
    loop
        invariant
            lo <= pos <= hi <= v.len(),
            space_words(v@.subrange(lo as int, hi as int)) == crate::store::string_views(out@)
                + space_words(v@.subrange(pos as int, hi as int)),
        decreases hi - pos,
    {
        let ghost rest = v@.subrange(pos as int, hi as int);
        let ghost before = crate::store::string_views(out@);
        match find_char_index(v, pos, hi, ' ') {
            None => {
                if pos < hi {
                    out.push(string_from_range(v, pos, hi));
                }
                assert(crate::store::string_views(out@) == before + space_words(rest));
                return out;
            },
            Some(e) => {
                assert(rest.take(e - pos) == v@.subrange(pos as int, e as int));
                assert(rest.skip(e - pos + 1) == v@.subrange(e + 1, hi as int));
                if pos < e {
                    out.push(string_from_range(v, pos, e));
                }
                assert(crate::store::string_views(out@) + space_words(
                    v@.subrange(e + 1, hi as int),
                ) == before + space_words(rest));
                pos = e + 1;
            },
        }
    }
}

/// The keys named by a `KEYS …` reply.
fn keys_in_reply(reply: &str) -> (r: Vec<String>)
    ensures
        crate::store::string_views(r@) == listed_keys(reply@),
{
    let v = chars_of(reply);
    if !starts_with_text(&v, "KEYS") {
        let empty: Vec<String> = Vec::new();
        assert(crate::store::string_views(empty@) =~= Seq::<Seq<char>>::empty());
        return empty;
    }
    proof {
        reveal_strlit("KEYS");
    }
    assert(v@.skip(4) == v@.subrange(4, v@.len() as int));
    let a = trim_start_index(&v, 4, v.len());
    let b = trim_end_index(&v, a, v.len());
    split_spaces(&v, a, b)
}

/// The value shown for a `GET` reply.
fn value_in_reply(reply: &str) -> (r: String)
    ensures
        r@ == shown_value(reply@),
{
    let v = chars_of(reply);
    if !starts_with_text(&v, "VALUE") {
        return String::from_str(reply);
    }
    proof {
        reveal_strlit("VALUE");
    }
    assert(v@.skip(5) == v@.subrange(5, v@.len() as int));
    let a = trim_start_index(&v, 5, v.len());
    let b = trim_end_index(&v, a, v.len());
    let ghost r = v@.subrange(a as int, b as int);
    match find_char_index(&v, a, b, ' ') {
        Some(p) => {
            assert(r.skip(p - a + 1) == v@.subrange(p + 1, b as int));
            string_from_range(&v, p + 1, b)
        },
        None => String::from_str(reply),
    }
}

/// The value of the first field named `name`.
fn field(fields: &Vec<(String, String)>, name: &str) -> (r: Option<String>)
    ensures
        opt_view_of(r) == find_field(crate::web::pairs_view(fields@), name@),
{
    let ghost all = crate::web::pairs_view(fields@);
    let mut i: usize = 0;
    assert(all.skip(0) == all);
    while i < fields.len()
        invariant
            i <= fields.len(),
            all == crate::web::pairs_view(fields@),
            find_field(all, name@) == find_field(all.skip(i as int), name@),
        decreases fields.len() - i,
    {
        assert(all.skip(i as int)[0] == (fields@[i as int].0@, fields@[i as int].1@));
        assert(all.skip(i as int).drop_first() == all.skip(i + 1));
        if crate::text::str_eq(fields[i].0.as_str(), name) {
            return Some(String::from_str(fields[i].1.as_str()));
        }
        i = i + 1;
    }
    None
}

pub open spec fn opt_view_of(o: Option<String>) -> Option<Seq<char>> {
    match o {
        Some(s) => Some(s@),
        None => None,
    }
}

/// What running a typed line gives.
enum LineOutcome {
    Text(String),
    Write(PendingWrite),
}

spec fn outcome_of(o: LineOutcome) -> LineView {
    match o {
        LineOutcome::Text(s) => LineView::Text(s@),
        LineOutcome::Write(w) => LineView::Write(w@),
    }
}

fn error_line(message: &str) -> (r: String)
    ensures
        r@ == error_reply(message@),
{
    let mut s = String::from_str("ERROR ");
    push_str(&mut s, message);
    s
}

/// Parses and runs a typed line; `EXIT` is refused.
fn run_line(server: &mut Server, line: &str, now: u64) -> (r: LineOutcome)
    requires
        old(server).wf(),
    ensures
        final(server).wf(),
        final(server).time() == old(server).time(),
        (outcome_of(r), final(server)@) == line_outcome(old(server)@, line@, now),
{
    match parse_command(line) {
        Ok(p) => match server.execute_at(&p, now) {
            Step::Reply(s) => LineOutcome::Text(s),
            Step::Exit => LineOutcome::Text(String::from_str(NOT_ALLOWED)),
            Step::Write(w) => LineOutcome::Write(w),
        },
        Err(e) => LineOutcome::Text(error_line(e.message.as_str())),
    }
}

/// Runs a display-only line without counting it.
fn run_line_without_count(server: &Server, line: &str, now: u64) -> (r: String)
    requires
        server.wf(),
    ensures
        r@ == display_line(server@, line@, now),
{
    match parse_command(line) {
        Ok(p) => match server.execute_without_count_at(&p, now) {
            Some(reply) => reply,
            None => String::from_str(NOT_ALLOWED),
        },
        Err(e) => error_line(e.message.as_str()),
    }
}

/// The table rows: one per listed key, with the value `GET` shows.
fn data_rows(server: &Server, now: u64) -> (r: String)
    requires
        server.wf(),
    ensures
        r@ == data_rows_text(server@, now),
{
    let list_reply = run_line_without_count(server, "LIST", now);
    let keys = keys_in_reply(list_reply.as_str());
    let ghost ks = crate::store::string_views(keys@);
    let mut rows = String::new();
    let mut i: usize = 0;
    while i < keys.len()
        invariant
            server.wf(),
            i <= keys.len(),
            ks == crate::store::string_views(keys@),
            rows@ == rows_of(server@, ks.take(i as int), now),
        decreases keys.len() - i,
    {
        let mut get_line = String::from_str("GET ");
        push_str(&mut get_line, keys[i].as_str());
        let reply = run_line_without_count(server, get_line.as_str(), now);
        let value = value_in_reply(reply.as_str());
        push_str(&mut rows, "<tr><td>");
        let k = html_escape(keys[i].as_str());
        push_str(&mut rows, k.as_str());
        push_str(&mut rows, "</td><td>");
        let e = html_escape(value.as_str());
        push_str(&mut rows, e.as_str());
        push_str(&mut rows, "</td></tr>");
        proof {
            assert(ks.take(i + 1).drop_last() == ks.take(i as int));
            assert(ks.take(i + 1).last() == keys@[i as int]@);
        }
        i = i + 1;
    }
    assert(ks.take(keys.len() as int) == ks);
    if rows.as_str().is_empty() {
        String::from_str(EMPTY_ROWS)
    } else {
        rows
    }
}

/// `GET /data`: the table rows alone.
fn data_rows_response(server: &Server, now: u64) -> (r: String)
    requires
        server.wf(),
    ensures
        r@ == response_text(200, HTML@, data_rows_text(server@, now)),
{
    let rows = data_rows(server, now);
    http_response(200, HTML, rows.as_str())
}

/// The home page with an optional notice.
fn index_page(server: &Server, flash: Option<&str>, now: u64) -> (r: String)
    requires
        server.wf(),
    ensures
        r@ == index_text(server@, crate::store::opt_str_view(flash), now),
{
    let status = run_line_without_count(server, "STATUS", now);
    let rows = data_rows(server, now);
    let mut body = String::from_str(PAGE_HEAD);
    let escaped_status = html_escape(status.as_str());
    push_str(&mut body, escaped_status.as_str());
    push_str(&mut body, PAGE_AFTER_STATUS);
    match flash {
        Some(f) => {
            let fv = chars_of(f);
            push_str(&mut body, "<div style='color:");
            if starts_with_text(&fv, "ERROR") {
                push_str(&mut body, "red");
            } else {
                push_str(&mut body, "green");
            }
            push_str(&mut body, ";margin:10px 0;'>");
            let ef = html_escape(f);
            push_str(&mut body, ef.as_str());
            push_str(&mut body, "</div>");
        },
        None => {},
    }
    assert(body@ =~= PAGE_HEAD@ + html_escaped(status@) + PAGE_AFTER_STATUS@ + flash_html(
        crate::store::opt_str_view(flash),
    ));
    push_str(&mut body, PAGE_TABLE);
    if rows.as_str().is_empty() {
        push_str(&mut body, EMPTY_ROWS);
    } else {
        push_str(&mut body, rows.as_str());
    }
    push_str(&mut body, PAGE_TAIL);
    http_response(200, HTML, body.as_str())
}

fn query_result_page(reply: &str) -> (r: String)
    ensures
        r@ == query_page(reply@),
{
    let mut body = String::from_str("<h1>查询结果</h1><pre>");
    let e = html_escape(reply);
    push_str(&mut body, e.as_str());
    push_str(&mut body, "</pre><p><a href='/'>返回主页</a></p>");
    http_response(200, HTML, body.as_str())
}

/// `GET /get?key=…`: looks one key up.
fn query_key(req: &HttpRequest, server: &mut Server, now: u64) -> (r: Page)
    requires
        old(server).wf(),
    ensures
        final(server).wf(),
        final(server).time() == old(server).time(),
        match find_field(req@.query, "key"@) {
            Some(k) => match line_outcome(old(server)@, "GET "@ + k, now) {
                (LineView::Text(t), v2) => r@ == PageView::Done(query_page(t)) && final(server)@
                    == v2,
                (LineView::Write(w), v2) => r@ == PageView::Write(w, AfterWrite::Query)
                    && final(server)@ == v2,
            },
            None => r@ == PageView::Done(missing_key_page()) && final(server)@ == old(server)@,
        },
{
    match field(&req.query, "key") {
        Some(k) => {
            let mut line = String::from_str("GET ");
            push_str(&mut line, k.as_str());
            match run_line(server, line.as_str(), now) {
                LineOutcome::Text(reply) => Page::Done(query_result_page(reply.as_str())),
                LineOutcome::Write(w) => Page::Write(w, AfterWrite::Query),
            }
        },
        None => Page::Done(
            http_response(400, HTML, "<h1>400 缺少 key 参数</h1><p><a href='/'>返回主页</a></p>"),
        ),
    }
}

/// `POST /cmd`: runs the `command` field and shows the home page with its result.
fn run_command(req: &HttpRequest, server: &mut Server, now: u64) -> (r: Page)
    requires
        old(server).wf(),
    ensures
        final(server).wf(),
        final(server).time() == old(server).time(),
        match find_field(req@.body, "command"@) {
            Some(c) if trim(c).len() > 0 => match line_outcome(old(server)@, trim(c), now) {
                (LineView::Text(t), v2) => r@ == PageView::Done(index_text(v2, Some(t), now))
                    && final(server)@ == v2,
                (LineView::Write(w), v2) => r@ == PageView::Write(w, AfterWrite::Index)
                    && final(server)@ == v2,
            },
            _ => r@ == PageView::Done(index_text(old(server)@, Some("ERROR 命令为空"@), now))
                && final(server)@ == old(server)@,
        },
{
    let command = field(&req.body, "command");
    let line = match command {
        Some(c) => {
            let v = chars_of(c.as_str());
            assert(v@.subrange(0, v@.len() as int) == v@);
            let a = trim_start_index(&v, 0, v.len());
            let b = trim_end_index(&v, a, v.len());
            if a < b {
                Some(string_from_range(&v, a, b))
            } else {
                None
            }
        },
        None => None,
    };
    match line {
        Some(l) => match run_line(server, l.as_str(), now) {
            LineOutcome::Text(result) => Page::Done(index_page(server, Some(result.as_str()), now)),
            LineOutcome::Write(w) => Page::Write(w, AfterWrite::Index),
        },
        None => Page::Done(index_page(server, Some("ERROR 命令为空"), now)),
    }
}

/// Routes a request at time `now`.
pub fn handle_at(req: &HttpRequest, server: &mut Server, now: u64) -> (r: Page)
    requires
        old(server).wf(),
    ensures
        final(server).wf(),
        final(server).time() == old(server).time(),
        (r@, final(server)@) == page(old(server)@, req@, now),
{
    let get = crate::text::str_eq(req.method.as_str(), "GET");
    let post = crate::text::str_eq(req.method.as_str(), "POST");
    if get && crate::text::str_eq(req.path.as_str(), "/") {
        Page::Done(index_page(server, None, now))
    } else if get && crate::text::str_eq(req.path.as_str(), "/data") {
        Page::Done(data_rows_response(server, now))
    } else if get && crate::text::str_eq(req.path.as_str(), "/get") {
        query_key(req, server, now)
    } else if post && crate::text::str_eq(req.path.as_str(), "/cmd") {
        run_command(req, server, now)
    } else {
        Page::Done(
            http_response(404, HTML, "<h1>404 Not Found</h1><p><a href='/'>返回主页</a></p>"),
        )
    }
}

/// Routes a request at the current time. A `Page::Write` asks the caller to
/// append the write's record to the log and then call `finish_page`.
pub fn handle(req: &HttpRequest, server: &mut Server) -> (r: Page)
    requires
        old(server).wf(),
    ensures
        final(server).wf(),
        final(server).time() == old(server).time(),
        exists|now: u64|
            now >= old(server).time() && (r@, final(server)@) == #[trigger] page(
                old(server)@,
                req@,
                now,
            ),
{
    let now = server.now();
    handle_at(req, server, now)
}

/// Completes a write once the log has answered, and makes the page that follows.
pub fn finish_page_at(
    server: &mut Server,
    write: PendingWrite,
    after: AfterWrite,
    logged: Result<(), String>,
    now: u64,
) -> (r: String)
    requires
        old(server).wf(),
    ensures
        final(server).wf(),
        final(server)@ == (ServerView {
            store: finish(old(server)@.store, write@, logged_view(logged), now).1,
            ..old(server)@
        }),
        r@ == page_after(
            final(server)@,
            after,
            finish(old(server)@.store, write@, logged_view(logged), now).0,
            now,
        ),
        final(server).time() == later_of(old(server).time(), now),
{
    let reply = server.complete_at(write, logged, now);
    match after {
        AfterWrite::Index => index_page(server, Some(reply.as_str()), now),
        AfterWrite::Query => query_result_page(reply.as_str()),
    }
}

/// `finish_page_at` at the current time.
pub fn finish_page(
    server: &mut Server,
    write: PendingWrite,
    after: AfterWrite,
    logged: Result<(), String>,
) -> (r: String)
    requires
        old(server).wf(),
    ensures
        final(server).wf(),
        exists|now: u64|
            now >= old(server).time() && final(server).time() == #[trigger] later_of(
                old(server).time(),
                now,
            ) && final(server)@ == (ServerView {
                store: finish(old(server)@.store, write@, logged_view(logged), now).1,
                ..old(server)@
            }) && r@ == page_after(
                final(server)@,
                after,
                finish(old(server)@.store, write@, logged_view(logged), now).0,
                now,
            ),
{
    let now = server.now();
    finish_page_at(server, write, after, logged, now)
}

} // verus!

verus! {

/// `EXIT` typed on the page is refused with `NOT_ALLOWED`; the page never
/// closes anything and leaves the store as it is.
pub proof fn law_page_refuses_exit(v: ServerView, line: Seq<char>, now: u64)
    requires
        parse(line) matches Ok(p) && p.command == crate::protocol::Command::Exit,
    ensures
        line_outcome(v, line, now) == (LineView::Text(NOT_ALLOWED@), counted(v)),
{
}

/// Showing the home page or the table rows changes nothing, not even the
/// command counter.
pub proof fn law_display_pages_change_nothing(v: ServerView, req: RequestView, now: u64)
    requires
        req.method == "GET"@,
        req.path == "/"@ || req.path == "/data"@,
    ensures
        page(v, req, now).1 == v,
{
}

/// No request changes the store by itself: a write is only handed out, to be
/// logged first; at most the command counter moves on.
pub proof fn law_page_leaves_store_to_the_log(v: ServerView, req: RequestView, now: u64)
    ensures
        page(v, req, now).1 == v || page(v, req, now).1 == counted(v),
        page(v, req, now).1.store == v.store,
{
}

} // verus!

verus! {

/// The value part of a `VALUE <key> <value>` reply, for a key without white
/// space and a value not ending in white space, is the value.
proof fn lemma_shown_value_of_reply(k: Seq<char>, val: Seq<char>)
    requires
        k.len() > 0,
        !k.contains(' '),
        forall|i: int| 0 <= i < k.len() ==> !is_ws(#[trigger] k[i]),
        val.len() > 0,
        !is_ws(val.last()),
    ensures
        shown_value("VALUE "@ + k + " "@ + val) == val,
{
    reveal_strlit("VALUE ");
    reveal_strlit("VALUE");
    reveal_strlit(" ");
    let t = "VALUE "@ + k + " "@ + val;
    let w = k + seq![' '] + val;
    let u = seq![' '] + w;
    assert(t =~= "VALUE"@ + u);
    assert(t.take(5) =~= "VALUE"@);
    assert(t.skip(5) =~= u);
    assert(u.skip(1) =~= w);
    crate::text::lemma_trim_start_skip(u, 1);
    assert(w[0] == k[0]);
    lemma_trim_start_fixed(w);
    assert(w.last() == val.last());
    assert(trim_end(w) == w);
    crate::persistence::lemma_find_after(k, ' ', val);
    assert(w.skip(k.len() + 1int) =~= val);
}

/// The data table shows a value whole: for a key without white space whose
/// value does not end in white space, the `GET` reply is `VALUE <key> <value>`
/// and the row made from it shows the key and the entire value, spaces
/// included.
pub proof fn law_data_row_shows_whole_value(
    v: ServerView,
    k: Seq<char>,
    val: Seq<char>,
    now: u64,
)
    requires
        key_problem(k) is None,
        forall|i: int| 0 <= i < k.len() ==> !is_ws(#[trigger] k[i]),
        lookup(v.store, k, now) == Some(val),
        val.len() > 0,
        !is_ws(val.last()),
    ensures
        respond(v, get_request(k), now) == StepView::Reply("VALUE "@ + k + " "@ + val),
        shown_value("VALUE "@ + k + " "@ + val) == val,
        table_row(k, shown_value("VALUE "@ + k + " "@ + val)) == "<tr><td>"@ + html_escaped(k)
            + "</td><td>"@ + html_escaped(val) + "</td></tr>"@,
{
    lemma_shown_value_of_reply(k, val);
}

} // verus!
