//! The server's command logic: one `Server` holds the store and the log
//! location, and answers parsed commands.
//!
//! A write must reach the log before the store changes, and the log lives
//! outside this library. So `execute` either answers at once (`Step::Reply`),
//! asks to close the connection (`Step::Exit`), or hands back the write to log
//! (`Step::Write`); whoever runs the server appends `PendingWrite::record` to the
//! log and reports the outcome to `complete`, which applies the write only when
//! the log accepted it.

use vstd::prelude::*;

use crate::parser::{
    bare, detail, line_break_free, parse, parse_command, value_line_break_free, ParsedCommand, ParsedView,
};
use crate::persistence::{
    apply_record, apply_records, law_replay_applies_records, permanent, record_line, record_ok,
    replay_all, replay_at, replay_line_at, replay_reached, replay_step, LogRecord, Persistence, RecordView,
};
use crate::protocol::{error, Command};
use crate::store::order::{
    key_less, lemma_key_less_asymmetric, lemma_key_less_irreflexive, lemma_key_less_total,
    lemma_key_less_transitive,
};
use crate::store::{
    expiry, is_live, key_problem, later_of, lemma_sorted_keys_count, live_part, lookup, store_error_text,
    string_views, strictly_sorted, KVStore, StoreError,
};
use crate::text::{
    chars_of, decimal, push_decimal, push_str, str_eq, string_from_range, trim_end, trim_end_index,
};

verus! {

/// How the server is run: reading commands from standard input, or serving
/// clients over TCP.
#[derive(Debug, Clone, Copy, PartialEq, Eq, Structural)]
pub enum ServerMode {
    Local,
    Network,
}

/// Whether `--local` is among the arguments from position `from` on.
pub open spec fn local_flag(args: Seq<String>, from: int) -> bool {
    exists|i: int| from <= i < args.len() && args[i]@ == "--local"@
}

/// Whether `--local` is among `args[from..]`.
pub fn has_local_flag(args: &Vec<String>, from: usize) -> (r: bool)
    ensures
        r == local_flag(args@, from as int),
{
    let mut i: usize = from;
    while i < args.len()
        invariant
            from <= i,
            forall|j: int| from <= j < i && j < args.len() ==> args@[j]@ != "--local"@,
        decreases args.len() - i,
    {
        if str_eq(args[i].as_str(), "--local") {
            return true;
        }
        i = i + 1;
    }
    false
}

/// The mode asked for on the command line: `--local` anywhere among the
/// arguments selects the local mode; the network mode is the default.
pub fn run(args: &Vec<String>) -> (m: ServerMode)
    ensures
        m == ServerMode::Local <==> local_flag(args@, 0),
{
    if has_local_flag(args, 0) {
        ServerMode::Local
    } else {
        ServerMode::Network
    }
}

/// A write waiting for the log.
pub enum PendingWrite {
    Put { key: String, value: String, ttl: Option<u64> },
    Del { key: String },
}

pub enum WriteView {
    Put { key: Seq<char>, value: Seq<char>, ttl: Option<u64> },
    Del { key: Seq<char> },
}

impl View for PendingWrite {
    type V = WriteView;

    open spec fn view(&self) -> WriteView {
        match self {
            PendingWrite::Put { key, value, ttl } => WriteView::Put {
                key: key@,
                value: value@,
                ttl: *ttl,
            },
            PendingWrite::Del { key } => WriteView::Del { key: key@ },
        }
    }
}

/// The log record of a write (TTLs are not logged).
pub open spec fn write_record(w: WriteView) -> RecordView {
    match w {
        WriteView::Put { key, value, .. } => RecordView::Put { key, value },
        WriteView::Del { key } => RecordView::Del { key },
    }
}

impl PendingWrite {
    /// The record to append to the log before the write is applied.
    pub fn record(&self) -> (r: LogRecord)
        ensures
            r@ == write_record(self@),
    {
        match self {
            PendingWrite::Put { key, value, .. } => LogRecord::Put {
                key: String::from_str(key.as_str()),
                value: String::from_str(value.as_str()),
            },
            PendingWrite::Del { key } => LogRecord::Del { key: String::from_str(key.as_str()) },
        }
    }
}

/// What the server does with a command.
pub enum Step {
    /// Answer with this line.
    Reply(String),
    /// Close the connection (`EXIT`).
    Exit,
    /// Log this write, then call `complete`.
    Write(PendingWrite),
}

pub enum StepView {
    Reply(Seq<char>),
    Exit,
    Write(WriteView),
}

impl View for Step {
    type V = StepView;

    open spec fn view(&self) -> StepView {
        match self {
            Step::Reply(s) => StepView::Reply(s@),
            Step::Exit => StepView::Exit,
            Step::Write(w) => StepView::Write(w@),
        }
    }
}

/// The state a server's answers depend on.
pub struct ServerView {
    pub store: Map<Seq<char>, (Seq<char>, Option<u64>)>,
    pub commands: u64,
    pub connections: u64,
    pub started: u64,
    pub log_path: Seq<char>,
}

/// The server: the store, the log location and the counters shown by `STATUS`.
pub struct Server {
    store: KVStore,
    persistence: Persistence,
    commands: u64,
    connections: u64,
    started: u64,
}

impl View for Server {
    type V = ServerView;

    closed spec fn view(&self) -> ServerView {
        ServerView {
            store: self.store@,
            commands: self.commands,
            connections: self.connections,
            started: self.started,
            log_path: self.persistence@,
        }
    }
}

// ---------------------------------------------------------------------------
// Replies, stated over the server's state
// ---------------------------------------------------------------------------

pub open spec fn error_reply(msg: Seq<char>) -> Seq<char> {
    "ERROR "@ + msg
}

/// Why a value with a line break is refused.
pub open spec fn value_break_message() -> Seq<char> {
    detail(error::INVALID_VALUE@, "value 不能包含换行"@)
}

pub open spec fn invalid_key_reply(problem: Seq<char>) -> Seq<char> {
    error_reply("非法键: "@ + problem)
}

/// The keys visible at `now`, in increasing order.
pub open spec fn sorted_live_keys(m: Map<Seq<char>, (Seq<char>, Option<u64>)>, now: u64) -> Seq<
    Seq<char>,
> {
    choose|ks: Seq<Seq<char>>| strictly_sorted(ks) && ks.to_set() == live_part(m, now).dom()
}

/// `KEYS` followed by each key, separated by single spaces.
pub open spec fn keys_reply(ks: Seq<Seq<char>>) -> Seq<char>
    decreases ks.len(),
{
    if ks.len() == 0 {
        "KEYS"@
    } else {
        keys_reply(ks.drop_last()) + " "@ + ks.last()
    }
}

/// Whole seconds since the server started.
pub open spec fn uptime(v: ServerView, now: u64) -> nat {
    if now >= v.started {
        ((now - v.started) / 1000) as nat
    } else {
        0
    }
}

/// `STATUS count=<n> connections=<m> uptime=<s>s commands=<c>`.
pub open spec fn status_reply(v: ServerView, now: u64) -> Seq<char> {
    "STATUS count="@ + decimal(live_part(v.store, now).dom().len()) + " connections="@ + decimal(
        v.connections as nat,
    ) + " uptime="@ + decimal(uptime(v, now)) + "s commands="@ + decimal(v.commands as nat)
}

/// What the server does with a parsed command at time `now`.
pub open spec fn respond(v: ServerView, p: ParsedView, now: u64) -> StepView {
    match p.command {
        Command::Put => match (p.key, p.value) {
            (Some(key), Some(value)) => match key_problem(key) {
                Some(problem) => StepView::Reply(invalid_key_reply(problem)),
                None => if !line_break_free(value) {
                    StepView::Reply(error_reply(value_break_message()))
                } else {
                    StepView::Write(WriteView::Put { key, value, ttl: p.ttl })
                },
            },
            _ => StepView::Reply(error_reply(error::MISSING_ARG@)),
        },
        Command::Get => match p.key {
            None => StepView::Reply(error_reply(error::MISSING_ARG@)),
            Some(key) => match key_problem(key) {
                Some(problem) => StepView::Reply(invalid_key_reply(problem)),
                None => match lookup(v.store, key, now) {
                    Some(value) => StepView::Reply("VALUE "@ + key + " "@ + value),
                    None => StepView::Reply(error_reply(error::KEY_NOT_FOUND@)),
                },
            },
        },
        Command::Del => match p.key {
            None => StepView::Reply(error_reply(error::MISSING_ARG@)),
            Some(key) => match key_problem(key) {
                Some(problem) => StepView::Reply(invalid_key_reply(problem)),
                None => match lookup(v.store, key, now) {
                    Some(_) => StepView::Write(WriteView::Del { key }),
                    None => StepView::Reply(error_reply(error::KEY_NOT_FOUND@)),
                },
            },
        },
        Command::List => StepView::Reply(keys_reply(sorted_live_keys(v.store, now))),
        Command::Status => StepView::Reply(status_reply(v, now)),
        Command::Ping => StepView::Reply("PONG"@),
        Command::Exit => StepView::Exit,
    }
}

/// The state after one more command has been counted.
pub open spec fn counted(v: ServerView) -> ServerView {
    ServerView {
        commands: if v.commands < u64::MAX {
            (v.commands + 1) as u64
        } else {
            u64::MAX
        },
        ..v
    }
}

/// The reply to a logged write and the store after it, given whether the log
/// accepted the record (and if not, why).
pub open spec fn finish(
    m: Map<Seq<char>, (Seq<char>, Option<u64>)>,
    w: WriteView,
    logged: Result<(), Seq<char>>,
    now: u64,
) -> (Seq<char>, Map<Seq<char>, (Seq<char>, Option<u64>)>) {
    match logged {
        Err(e) => (error_reply("写日志失败: "@ + e), m),
        Ok(_) => match w {
            WriteView::Put { key, value, ttl } => match key_problem(key) {
                Some(problem) => (invalid_key_reply(problem), m),
                None => ("OK"@, live_part(m, now).insert(key, (value, expiry(now, ttl)))),
            },
            WriteView::Del { key } => match key_problem(key) {
                Some(problem) => (invalid_key_reply(problem), m),
                None => if lookup(m, key, now) is Some {
                    ("OK"@, m.remove(key))
                } else {
                    (error_reply(error::KEY_NOT_FOUND@), m.remove(key))
                },
            },
        },
    }
}

pub open spec fn logged_view(r: Result<(), String>) -> Result<(), Seq<char>> {
    match r {
        Ok(_) => Ok(()),
        Err(e) => Err(e@),
    }
}

/// Two strictly sorted key lists with the same keys are the same list.
pub proof fn lemma_sorted_keys_unique(a: Seq<Seq<char>>, b: Seq<Seq<char>>)
    requires
        strictly_sorted(a),
        strictly_sorted(b),
        a.to_set() == b.to_set(),
    ensures
        a == b,
    decreases a.len(),
{
    if a.len() == 0 {
        if b.len() > 0 {
            assert(b.to_set().contains(b[0]));
        }
        assert(a =~= b);
    } else {
        assert(a.to_set().contains(a[0]));
        assert(b.len() > 0);
        assert(b.to_set().contains(b[0]));
        let i = choose|i: int| 0 <= i < a.len() && a[i] == b[0];
        let j = choose|j: int| 0 <= j < b.len() && b[j] == a[0];
        if i > 0 && j > 0 {
            assert(key_less(a[0], a[i]));
            assert(key_less(b[0], b[j]));
            lemma_key_less_asymmetric(a[0], b[0]);
        } else if i > 0 {
            assert(j == 0);
            lemma_key_less_irreflexive(a[0]);
            assert(key_less(a[0], a[i]));
        } else if j > 0 {
            lemma_key_less_irreflexive(b[0]);
            assert(key_less(b[0], b[j]));
        }
        assert(a[0] == b[0]);
        let a1 = a.drop_first();
        let b1 = b.drop_first();
        assert forall|x: Seq<char>| a1.to_set().contains(x) implies b1.to_set().contains(x) by {
            let k = choose|k: int| 0 <= k < a1.len() && a1[k] == x;
            assert(a.to_set().contains(x));
            let l = choose|l: int| 0 <= l < b.len() && b[l] == x;
            lemma_key_less_irreflexive(a[0]);
            assert(key_less(a[0], a[k + 1]));
            if l == 0 {
                assert(false);
            }
            assert(b1[l - 1] == x);
        }
        assert forall|x: Seq<char>| b1.to_set().contains(x) implies a1.to_set().contains(x) by {
            let k = choose|k: int| 0 <= k < b1.len() && b1[k] == x;
            assert(b.to_set().contains(x));
            let l = choose|l: int| 0 <= l < a.len() && a[l] == x;
            lemma_key_less_irreflexive(b[0]);
            assert(key_less(b[0], b[k + 1]));
            if l == 0 {
                assert(false);
            }
            assert(a1[l - 1] == x);
        }
        assert(a1.to_set() =~= b1.to_set());
        lemma_sorted_keys_unique(a1, b1);
        assert(a =~= b) by {
            assert(a == seq![a[0]] + a1);
            assert(b == seq![b[0]] + b1);
        }
    }
}

fn error_text(msg: &str) -> (r: String)
    ensures
        r@ == error_reply(msg@),
{
    let mut s = String::from_str("ERROR ");
    push_str(&mut s, msg);
    s
}

fn store_error_reply(e: &StoreError) -> (r: String)
    ensures
        r@ == error_reply(store_error_text(*e)),
{
    let m = e.message();
    error_text(m.as_str())
}

/// `KEYS` followed by the keys, separated by single spaces.
fn keys_text(keys: &Vec<String>) -> (r: String)
    ensures
        r@ == keys_reply(string_views(keys@)),
{
    let mut s = String::from_str("KEYS");
    let mut i: usize = 0;
    while i < keys.len()
        invariant
            i <= keys.len(),
            s@ == keys_reply(string_views(keys@).take(i as int)),
        decreases keys.len() - i,
    {
        push_str(&mut s, " ");
        push_str(&mut s, keys[i].as_str());
        proof {
            let ks = string_views(keys@);
            assert(ks.take(i + 1).drop_last() == ks.take(i as int));
        }
        i = i + 1;
    }
    assert(string_views(keys@).take(keys.len() as int) == string_views(keys@));
    s
}

impl Server {
    /// The server's invariant.
    pub closed spec fn wf(&self) -> bool {
        self.store.wf()
    }

    /// The latest time the server's store has worked at.
    pub closed spec fn time(&self) -> u64 {
        self.store.time()
    }

    /// A server with an empty store, logging to `data_file`; nothing is read
    /// from the log until lines are replayed with `recover_line`.
    pub fn new(data_file: &str) -> (s: Server)
        ensures
            s.wf(),
            s@.store == Map::<Seq<char>, (Seq<char>, Option<u64>)>::empty(),
            s@.commands == 0,
            s@.connections == 0,
            s@.log_path == data_file@,
            s.time() == 0,
    {
        let store = KVStore::new();
        let started = store.now();
        Server {
            store,
            persistence: Persistence::new(data_file),
            commands: 0,
            connections: 0,
            started,
        }
    }

    /// A server's store holds finitely many entries.
    pub proof fn lemma_store_finite(&self)
        requires
            self.wf(),
        ensures
            self@.store.dom().finite(),
    {
        self.store.lemma_view_finite();
    }

    /// Where the log is kept.
    pub fn persistence(&self) -> (r: &Persistence)
        ensures
            r@ == self@.log_path,
    {
        &self.persistence
    }

    /// The current time on the store's clock, never before the store's latest time.
    pub fn now(&self) -> (r: u64)
        ensures
            r >= self.time(),
    {
        self.store.now()
    }

    /// Replays log line number `n` into the store (start-up recovery).
    pub fn recover_line(&mut self, n: u64, line: &str) -> (r: Result<(), String>)
        requires
            old(self).wf(),
        ensures
            final(self).wf(),
            final(self)@.commands == old(self)@.commands,
            final(self)@.connections == old(self)@.connections,
            final(self)@.started == old(self)@.started,
            final(self)@.log_path == old(self)@.log_path,
            exists|now: u64|
                now >= old(self).time() && final(self).time() == #[trigger] later_of(
                    old(self).time(),
                    now,
                ) && match replay_step(old(self)@.store, n as nat, line@, now) {
                    Ok(m) => r is Ok && final(self)@.store == m,
                    Err(msg) => r matches Err(e) && e@ == msg && final(self)@.store == old(
                        self,
                    )@.store,
                },
    {
        let now = self.store.now();
        let r = replay_line_at(&mut self.store, n, line, now);
        assert(old(self)@.store == old(self).store@);
        assert(self@.store == self.store@);
        assert(self.time() == later_of(old(self).time(), now));
        assert(match replay_step(old(self)@.store, n as nat, line@, now) {
            Ok(m) => r is Ok && self@.store == m,
            Err(msg) => r matches Err(e) && e@ == msg && self@.store == old(self)@.store,
        });
        r
    }

    /// Start-up recovery: replays the log's lines, in order and numbered from 1,
    /// into the store, stopping at the first line that cannot be replayed; the
    /// message of that line is returned. An absent log is an empty one.
    pub fn recover(&mut self, lines: &Vec<String>) -> (r: Result<(), String>)
        requires
            old(self).wf(),
            lines.len() < u64::MAX,
        ensures
            final(self).wf(),
            final(self)@.commands == old(self)@.commands,
            final(self)@.connections == old(self)@.connections,
            final(self)@.started == old(self)@.started,
            final(self)@.log_path == old(self)@.log_path,
            exists|now: u64|
                now >= old(self).time() && final(self).time() == #[trigger] later_of(
                    old(self).time(),
                    now,
                ) && final(self)@.store == replay_reached(
                    old(self)@.store,
                    1,
                    string_views(lines@),
                    now,
                ) && match replay_all(old(self)@.store, 1, string_views(lines@), now) {
                    Ok(m) => r is Ok && final(self)@.store == m,
                    Err(msg) => r matches Err(e) && e@ == msg,
                },
    {
        let now = self.store.now();
        let r = replay_at(&mut self.store, lines, now);
        assert(old(self)@.store == old(self).store@);
        assert(self@.store == self.store@);
        assert(self.time() == later_of(old(self).time(), now));
        r
    }

    /// Counts a newly opened client connection.
    pub fn connection_opened(&mut self)
        ensures
            final(self)@ == (ServerView {
                connections: if old(self)@.connections < u64::MAX {
                    (old(self)@.connections + 1) as u64
                } else {
                    u64::MAX
                },
                ..old(self)@
            }),
            final(self).wf() == old(self).wf(),
            final(self).time() == old(self).time(),
    {
        self.connections = self.connections.saturating_add(1);
    }

    /// Counts a closed client connection.
    pub fn connection_closed(&mut self)
        ensures
            final(self)@ == (ServerView {
                connections: if old(self)@.connections > 0 {
                    (old(self)@.connections - 1) as u64
                } else {
                    0
                },
                ..old(self)@
            }),
            final(self).wf() == old(self).wf(),
            final(self).time() == old(self).time(),
    {
        self.connections = self.connections.saturating_sub(1);
    }

    /// The `STATUS` line at time `now`.
    fn status_text(&self, now: u64) -> (r: String)
        requires
            self.wf(),
        ensures
            r@ == status_reply(self@, now),
    {
        let count = self.store.len_at(now);
        let up = if now >= self.started {
            (now - self.started) / 1000
        } else {
            0
        };
        let mut s = String::from_str("STATUS count=");
        push_decimal(&mut s, count as u64);
        push_str(&mut s, " connections=");
        push_decimal(&mut s, self.connections);
        push_str(&mut s, " uptime=");
        push_decimal(&mut s, up);
        push_str(&mut s, "s commands=");
        push_decimal(&mut s, self.commands);
        s
    }

    /// What the server does with `parsed` at time `now`; the store is not changed.
    pub fn respond_at(&self, parsed: &ParsedCommand, now: u64) -> (r: Step)
        requires
            self.wf(),
        ensures
            r@ == respond(self@, parsed@, now),
    {
        match parsed.command {
            Command::Put => match (&parsed.key, &parsed.value) {
                (Some(k), Some(v)) => match KVStore::check_key(k.as_str()) {
                    Err(e) => Step::Reply(store_error_reply(&e)),
                    Ok(()) => if !value_line_break_free(v.as_str()) {
                        let mut m = String::from_str(error::INVALID_VALUE);
                        push_str(&mut m, "：");
                        push_str(&mut m, "value 不能包含换行");
                        Step::Reply(error_text(m.as_str()))
                    } else {
                        Step::Write(
                            PendingWrite::Put {
                                key: String::from_str(k.as_str()),
                                value: String::from_str(v.as_str()),
                                ttl: parsed.ttl,
                            },
                        )
                    },
                },
                _ => Step::Reply(error_text(error::MISSING_ARG)),
            },
            Command::Get => {
                let key = match &parsed.key {
                    Some(k) => k.as_str(),
                    None => {
                        return Step::Reply(error_text(error::MISSING_ARG));
                    },
                };
                match self.store.get_at(key, now) {
                    Ok(Some(v)) => {
                        let mut s = String::from_str("VALUE ");
                        push_str(&mut s, key);
                        push_str(&mut s, " ");
                        push_str(&mut s, v);
                        Step::Reply(s)
                    },
                    Ok(None) => Step::Reply(error_text(error::KEY_NOT_FOUND)),
                    Err(e) => Step::Reply(store_error_reply(&e)),
                }
            },
            Command::Del => {
                let key = match &parsed.key {
                    Some(k) => k.as_str(),
                    None => {
                        return Step::Reply(error_text(error::MISSING_ARG));
                    },
                };
                match self.store.get_at(key, now) {
                    Ok(None) => Step::Reply(error_text(error::KEY_NOT_FOUND)),
                    Err(e) => Step::Reply(store_error_reply(&e)),
                    Ok(Some(_)) => Step::Write(PendingWrite::Del { key: String::from_str(key) }),
                }
            },
            Command::List => {
                let keys = self.store.list_at(now);
                proof {
                    let ks = string_views(keys@);
                    let chosen = sorted_live_keys(self@.store, now);
                    assert(strictly_sorted(chosen) && chosen.to_set() == live_part(
                        self@.store,
                        now,
                    ).dom());
                    lemma_sorted_keys_unique(ks, chosen);
                }
                Step::Reply(keys_text(&keys))
            },
            Command::Status => Step::Reply(self.status_text(now)),
            Command::Ping => Step::Reply(String::from_str("PONG")),
            Command::Exit => Step::Exit,
        }
    }

    /// Counts the command, then answers it at time `now`.
    pub fn execute_at(&mut self, parsed: &ParsedCommand, now: u64) -> (r: Step)
        requires
            old(self).wf(),
        ensures
            final(self).wf(),
            final(self)@ == counted(old(self)@),
            final(self).time() == old(self).time(),
            r@ == respond(final(self)@, parsed@, now),
    {
        self.commands = self.commands.saturating_add(1);
        self.respond_at(parsed, now)
    }

    /// Counts the command, then answers it at the current time.
    pub fn execute(&mut self, parsed: &ParsedCommand) -> (r: Step)
        requires
            old(self).wf(),
        ensures
            final(self).wf(),
            final(self)@ == counted(old(self)@),
            final(self).time() == old(self).time(),
            exists|now: u64| now >= old(self).time() && r@ == #[trigger] respond(final(self)@, parsed@, now),
    {
        let now = self.store.now();
        self.execute_at(parsed, now)
    }

    /// One request line of a connection: trailing white space (the line end)
    /// is dropped, a blank line is skipped (`None`), a line that does not parse
    /// is answered with `ERROR <why>`, and a parsed command is executed.
    pub fn handle_line(&mut self, line: &str) -> (r: Option<Step>)
        requires
            old(self).wf(),
        ensures
            final(self).wf(),
            final(self).time() == old(self).time(),
            trim_end(line@).len() == 0 ==> r is None && final(self)@ == old(self)@,
            trim_end(line@).len() > 0 ==> match parse(trim_end(line@)) {
                Err(m) => final(self)@ == old(self)@ && r is Some && r.unwrap()@ == StepView::Reply(
                    error_reply(m),
                ),
                Ok(p) => final(self)@ == counted(old(self)@) && r is Some && (exists|now: u64|
                    now >= old(self).time() && r.unwrap()@ == #[trigger] respond(
                        final(self)@,
                        p,
                        now,
                    )),
            },
    {
        let v = chars_of(line);
        assert(v@.subrange(0, v@.len() as int) == v@);
        let e = trim_end_index(&v, 0, v.len());
        if e == 0 {
            return None;
        }
        let text = string_from_range(&v, 0, e);
        match parse_command(text.as_str()) {
            Err(err) => Some(Step::Reply(error_text(err.message.as_str()))),
            Ok(parsed) => Some(self.execute(&parsed)),
        }
    }

    /// Answers a command without counting it (for pages that only display the
    /// store). Only direct replies are given; `None` for writes and `EXIT`.
    pub fn execute_without_count(&self, parsed: &ParsedCommand) -> (r: Option<String>)
        requires
            self.wf(),
        ensures
            exists|now: u64|
                now >= self.time() && match #[trigger] respond(self@, parsed@, now) {
                    StepView::Reply(t) => r matches Some(s) && s@ == t,
                    _ => r is None,
                },
    {
        let now = self.store.now();
        self.execute_without_count_at(parsed, now)
    }

    /// `execute_without_count` at time `now`.
    pub fn execute_without_count_at(&self, parsed: &ParsedCommand, now: u64) -> (r: Option<String>)
        requires
            self.wf(),
        ensures
            match respond(self@, parsed@, now) {
                StepView::Reply(t) => r matches Some(s) && s@ == t,
                _ => r is None,
            },
    {
        match self.respond_at(parsed, now) {
            Step::Reply(s) => Some(s),
            _ => None,
        }
    }

    /// Applies a write once the log has answered: the store changes only when
    /// `logged` is `Ok`.
    pub fn complete_at(&mut self, write: PendingWrite, logged: Result<(), String>, now: u64) -> (r: String)
        requires
            old(self).wf(),
        ensures
            final(self).wf(),
            final(self)@ == (ServerView {
                store: finish(old(self)@.store, write@, logged_view(logged), now).1,
                ..old(self)@
            }),
            r@ == finish(old(self)@.store, write@, logged_view(logged), now).0,
            final(self).time() == later_of(old(self).time(), now),
    {
        self.store.note_time(now);
        if let Err(e) = logged {
            let mut s = String::from_str("写日志失败: ");
            push_str(&mut s, e.as_str());
            return error_text(s.as_str());
        }
        match write {
            PendingWrite::Put { key, value, ttl } => {
                match self.store.set_at(key.as_str(), value.as_str(), ttl, now) {
                    Ok(()) => String::from_str("OK"),
                    Err(e) => store_error_reply(&e),
                }
            },
            PendingWrite::Del { key } => {
                match self.store.delete_at(key.as_str(), now) {
                    Ok(true) => String::from_str("OK"),
                    Ok(false) => error_text(error::KEY_NOT_FOUND),
                    Err(e) => store_error_reply(&e),
                }
            },
        }
    }

    /// `complete_at` at the current time.
    pub fn complete(&mut self, write: PendingWrite, logged: Result<(), String>) -> (r: String)
        requires
            old(self).wf(),
        ensures
            final(self).wf(),
            exists|now: u64|
                now >= old(self).time() && final(self).time() == #[trigger] later_of(
                    old(self).time(),
                    now,
                ) && final(self)@ == (ServerView {
                    store: finish(old(self)@.store, write@, logged_view(logged), now).1,
                    ..old(self)@
                }) && r@ == finish(old(self)@.store, write@, logged_view(logged), now).0,
    {
        let now = self.store.now();
        self.complete_at(write, logged, now)
    }
}

} // verus!

verus! {

pub open spec fn get_request(key: Seq<char>) -> ParsedView {
    ParsedView { command: Command::Get, key: Some(key), value: None, ttl: None }
}

pub open spec fn del_request(key: Seq<char>) -> ParsedView {
    ParsedView { command: Command::Del, key: Some(key), value: None, ttl: None }
}

pub open spec fn set_request(key: Seq<char>, value: Seq<char>, ttl: Option<u64>) -> ParsedView {
    ParsedView { command: Command::Put, key: Some(key), value: Some(value), ttl }
}

/// A `SET` of a key the store accepts and a value without line breaks asks
/// for its write to be logged; once the log accepts it the reply
/// is `OK`, and a `GET` of the key answers the value written for as long as
/// the value has not expired.
pub proof fn law_get_after_logged_set(
    v: ServerView,
    key: Seq<char>,
    value: Seq<char>,
    ttl: Option<u64>,
    now: u64,
    later: u64,
)
    requires
        key_problem(key) is None,
        line_break_free(value),
        is_live((value, expiry(now, ttl)), later),
    ensures
        respond(v, set_request(key, value, ttl), now) == StepView::Write(
            WriteView::Put { key, value, ttl },
        ),
        finish(v.store, WriteView::Put { key, value, ttl }, Ok(()), now).0 == "OK"@,
        respond(
            ServerView { store: finish(v.store, WriteView::Put { key, value, ttl }, Ok(()), now).1, ..v },
            get_request(key),
            later,
        ) == StepView::Reply("VALUE "@ + key + " "@ + value),
{
}

/// A `SET` the store would refuse (a bad key, or a value with a line break)
/// is answered at once with the error and asks for no write: nothing refused
/// reaches the log.
pub proof fn law_refused_set_is_not_logged(
    v: ServerView,
    key: Seq<char>,
    value: Seq<char>,
    ttl: Option<u64>,
    now: u64,
)
    requires
        key_problem(key) is Some || !line_break_free(value),
    ensures
        respond(v, set_request(key, value, ttl), now) == StepView::Reply(
            match key_problem(key) {
                Some(problem) => invalid_key_reply(problem),
                None => error_reply(value_break_message()),
            },
        ),
{
}

/// A `DEL` of a visible key asks for its write to be logged; once the log
/// accepts it the reply is `OK` and a `GET` of the key finds nothing.
pub proof fn law_get_after_logged_delete(v: ServerView, key: Seq<char>, now: u64, later: u64)
    requires
        key_problem(key) is None,
        lookup(v.store, key, now) is Some,
    ensures
        respond(v, del_request(key), now) == StepView::Write(WriteView::Del { key }),
        finish(v.store, WriteView::Del { key }, Ok(()), now).0 == "OK"@,
        respond(
            ServerView { store: finish(v.store, WriteView::Del { key }, Ok(()), now).1, ..v },
            get_request(key),
            later,
        ) == StepView::Reply(error_reply(error::KEY_NOT_FOUND@)),
{
}

/// A write the log refused is answered with the log's error and leaves the
/// store as it was.
pub proof fn law_refused_write_changes_nothing(
    m: Map<Seq<char>, (Seq<char>, Option<u64>)>,
    w: WriteView,
    e: Seq<char>,
    now: u64,
)
    ensures
        finish(m, w, Err(e), now) == (error_reply("写日志失败: "@ + e), m),
{
}

/// Deleting a key that shows nothing changes nothing, so nothing is logged:
/// the answer is `键不存在` at once.
pub proof fn law_delete_missing_is_not_logged(v: ServerView, key: Seq<char>, now: u64)
    requires
        lookup(v.store, key, now) is None,
    ensures
        respond(v, del_request(key), now) == StepView::Reply(
            match key_problem(key) {
                Some(problem) => invalid_key_reply(problem),
                None => error_reply(error::KEY_NOT_FOUND@),
            },
        ),
{
}

/// Only `SET` and `DEL` ask for a write; every other command is answered
/// directly (or closes the connection) without touching the store.
pub proof fn law_only_writes_are_logged(v: ServerView, p: ParsedView, now: u64)
    ensures
        respond(v, p, now) is Write ==> (p.command == Command::Put || p.command == Command::Del),
        respond(v, p, now) is Exit <==> p.command == Command::Exit,
{
}

/// What a logged write does to a store without expiry times is exactly what
/// replaying its log record does, so a restart rebuilds the same content.
pub proof fn law_logged_write_matches_replay(
    m: Map<Seq<char>, (Seq<char>, Option<u64>)>,
    w: WriteView,
    now: u64,
)
    requires
        permanent(m),
        match w {
            WriteView::Put { key, ttl, .. } => key_problem(key) is None && ttl is None,
            WriteView::Del { key } => key_problem(key) is None,
        },
    ensures
        finish(m, w, Ok(()), now).1 == apply_record(m, write_record(w)),
        permanent(finish(m, w, Ok(()), now).1),
{
    assert(live_part(m, now) =~= m);
}

/// The store after a sequence of writes, each accepted by the log at its time.
pub open spec fn apply_logged(
    m: Map<Seq<char>, (Seq<char>, Option<u64>)>,
    ws: Seq<(WriteView, u64)>,
) -> Map<Seq<char>, (Seq<char>, Option<u64>)>
    decreases ws.len(),
{
    if ws.len() == 0 {
        m
    } else {
        apply_logged(finish(m, ws[0].0, Ok(()), ws[0].1).1, ws.drop_first())
    }
}

/// A write whose log line brings back exactly what it did: no TTL (the log
/// does not keep TTLs) and a record that its line stores faithfully.
pub open spec fn restorable(w: WriteView) -> bool {
    &&& record_ok(write_record(w))
    &&& w matches WriteView::Put { ttl, .. } ==> ttl is None
}

/// Every write the server asks for is one its log line brings back exactly,
/// once it carries no TTL: its key is one the store accepts and its value
/// holds no line break.
pub proof fn law_requested_writes_are_restorable(v: ServerView, p: ParsedView, w: WriteView, now: u64)
    requires
        p.ttl is None,
        respond(v, p, now) == StepView::Write(w),
    ensures
        restorable(w),
{
}

/// The log lines of a sequence of writes.
pub open spec fn logged_lines(ws: Seq<(WriteView, u64)>) -> Seq<Seq<char>> {
    ws.map_values(|p: (WriteView, u64)| record_line(write_record(p.0)))
}

proof fn lemma_logged_is_applied(m: Map<Seq<char>, (Seq<char>, Option<u64>)>, ws: Seq<(WriteView, u64)>)
    requires
        permanent(m),
        forall|i: int| 0 <= i < ws.len() ==> restorable(#[trigger] ws[i].0),
    ensures
        apply_logged(m, ws) == apply_records(
            m,
            ws.map_values(|p: (WriteView, u64)| write_record(p.0)),
        ),
    decreases ws.len(),
{
    let rs = ws.map_values(|p: (WriteView, u64)| write_record(p.0));
    if ws.len() > 0 {
        let w = ws[0].0;
        assert(restorable(w));
        law_logged_write_matches_replay(m, w, ws[0].1);
        let m2 = finish(m, w, Ok(()), ws[0].1).1;
        let rest = ws.drop_first();
        assert forall|i: int| 0 <= i < rest.len() implies restorable(#[trigger] rest[i].0) by {
            assert(rest[i] == ws[i + 1]);
        }
        lemma_logged_is_applied(m2, rest);
        assert(rs.drop_first() == rest.map_values(|p: (WriteView, u64)| write_record(p.0)));
        assert(rs[0] == write_record(w));
    }
}

/// What the server wrote survives a restart: replaying the log lines of
/// writes the log accepted, starting from the same store, rebuilds the store
/// those writes produced, whenever the replay happens.
pub proof fn law_restart_restores_logged_writes(
    m: Map<Seq<char>, (Seq<char>, Option<u64>)>,
    ws: Seq<(WriteView, u64)>,
    n: nat,
    now: u64,
)
    requires
        permanent(m),
        forall|i: int| 0 <= i < ws.len() ==> restorable(#[trigger] ws[i].0),
    ensures
        replay_all(m, n, logged_lines(ws), now) == Ok::<
            Map<Seq<char>, (Seq<char>, Option<u64>)>,
            Seq<char>,
        >(apply_logged(m, ws)),
{
    let rs = ws.map_values(|p: (WriteView, u64)| write_record(p.0));
    assert forall|i: int| 0 <= i < rs.len() implies record_ok(#[trigger] rs[i]) by {
        assert(restorable(ws[i].0));
    }
    law_replay_applies_records(m, n, rs, now);
    lemma_logged_is_applied(m, ws);
    assert(rs.map_values(|r: RecordView| record_line(r)) == logged_lines(ws));
}

/// `STATUS` counts exactly the keys that `LIST` shows.
pub proof fn law_status_counts_listed_keys(v: ServerView, now: u64)
    requires
        v.store.dom().finite(),
    ensures
        sorted_live_keys(v.store, now).len() == live_part(v.store, now).dom().len(),
        status_reply(v, now) == "STATUS count="@ + decimal(sorted_live_keys(v.store, now).len())
            + " connections="@ + decimal(v.connections as nat) + " uptime="@ + decimal(
            uptime(v, now),
        ) + "s commands="@ + decimal(v.commands as nat),
{
    lemma_sorted_live_keys(v.store, now);
    lemma_sorted_keys_count(sorted_live_keys(v.store, now));
}

/// The chosen key listing exists: the live keys, sorted, each once.
pub proof fn lemma_sorted_live_keys(m: Map<Seq<char>, (Seq<char>, Option<u64>)>, now: u64)
    requires
        m.dom().finite(),
    ensures
        strictly_sorted(sorted_live_keys(m, now)),
        sorted_live_keys(m, now).to_set() == live_part(m, now).dom(),
{
    let d = live_part(m, now).dom();
    assert(d.subset_of(m.dom()));
    vstd::set_lib::lemma_set_subset_finite(m.dom(), d);
    let leq = |a: Seq<char>, b: Seq<char>| key_less(a, b) || a == b;
    assert(vstd::relations::total_ordering(leq)) by {
        assert forall|a: Seq<char>, b: Seq<char>| #[trigger] leq(a, b) && #[trigger] leq(b, a)
            implies a == b by {
            if a != b {
                lemma_key_less_asymmetric(a, b);
            }
        }
        assert forall|a: Seq<char>, b: Seq<char>, c: Seq<char>| #[trigger] leq(a, b)
            && #[trigger] leq(b, c) implies leq(a, c) by {
            if a != b && b != c {
                lemma_key_less_transitive(a, b, c);
            }
        }
        assert forall|a: Seq<char>, b: Seq<char>| #[trigger] leq(a, b) || #[trigger] leq(b, a) by {
            lemma_key_less_total(a, b);
        }
    }
    let s = d.to_seq();
    lemma_to_seq_unique(d);
    d.lemma_to_seq_to_set_id();
    s.lemma_sort_by_ensures(leq);
    let t = s.sort_by(leq);
    broadcast use vstd::seq_lib::group_to_multiset_ensures;
    s.lemma_multiset_has_no_duplicates();
    t.lemma_multiset_has_no_duplicates_conv();
    assert forall|x: Seq<char>| t.to_set().contains(x) <==> d.contains(x) by {
        assert(t.contains(x) <==> t.to_multiset().count(x) > 0);
        assert(s.contains(x) <==> s.to_multiset().count(x) > 0);
        assert(s.to_set().contains(x) <==> s.contains(x));
    }
    assert(t.to_set() =~= d);
    assert forall|i: int, j: int| 0 <= i < j < t.len() implies key_less(
        #[trigger] t[i],
        #[trigger] t[j],
    ) by {
        assert(leq(t[i], t[j]));
    }
    assert(strictly_sorted(t) && t.to_set() == d);
}

/// Listing a finite set of keys repeats none of them.
proof fn lemma_to_seq_unique(d: Set<Seq<char>>)
    requires
        d.finite(),
    ensures
        d.to_seq().no_duplicates(),
    decreases d.len(),
{
    if d.len() > 0 {
        let x = d.choose();
        let r = d.remove(x);
        lemma_to_seq_unique(r);
        r.lemma_to_seq_to_set_id();
        let rest = r.to_seq();
        assert(!rest.contains(x)) by {
            if rest.contains(x) {
                assert(rest.to_set().contains(x));
            }
        }
        let whole = Seq::<Seq<char>>::empty().push(x) + rest;
        assert(d.to_seq() == whole);
        assert forall|i: int, j: int| 0 <= i < whole.len() && 0 <= j < whole.len() && i != j
            implies whole[i] != whole[j] by {
            if i == 0 {
                assert(whole[j] == rest[j - 1]);
            } else if j == 0 {
                assert(whole[i] == rest[i - 1]);
            } else {
                assert(whole[i] == rest[i - 1] && whole[j] == rest[j - 1]);
            }
        }
    }
}

/// `LIST` at time `now` names exactly the keys that `GET` finds at `now`,
/// each once, in increasing order.
pub proof fn law_list_names_what_get_finds(v: ServerView, now: u64)
    requires
        v.store.dom().finite(),
    ensures
        exists|ks: Seq<Seq<char>>|
            {
                &&& respond(v, bare(Command::List), now) == StepView::Reply(keys_reply(ks))
                &&& strictly_sorted(ks)
                &&& forall|k: Seq<char>| #[trigger] ks.contains(k) <==> lookup(v.store, k, now) is Some
            },
{
    let ks = sorted_live_keys(v.store, now);
    lemma_sorted_live_keys(v.store, now);
    assert forall|k: Seq<char>| #[trigger] ks.contains(k) <==> lookup(v.store, k, now) is Some by {
        assert(ks.contains(k) <==> ks.to_set().contains(k));
    }
}

} // verus!
