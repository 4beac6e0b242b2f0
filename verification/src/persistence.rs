//! The append-only log that makes writes durable, and its replay at start-up.
//!
//! One record per line: `SET <key> <value>` writes or overwrites, `DEL <key>`
//! deletes. Command names are matched without regard to ASCII case; the value
//! of `SET` is everything after the second space, so it may hold spaces. A line
//! that cannot be read is an error, never silently skipped. TTLs are not logged:
//! replayed values never expire. Reading and writing the file happen outside
//! this library; replay works on the lines read.

use vstd::prelude::*;

use crate::store::{key_problem, later_of, live_part, string_views, KVStore};
use crate::text::{
    chars_of, decimal, eq_ignore_ascii_case, find_char, find_char_index, push_decimal, push_str,
    range_eq_ignore_ascii_case, range_lacks,
    string_from_range, trim, trim_end, trim_end_index, trim_line_end, trim_line_end_index,
    trim_start_index,
};

verus! {

/// One log record.
#[derive(Debug, Clone, PartialEq, Eq)]
pub enum LogRecord {
    /// Write or overwrite (`SET key value`).
    Put { key: String, value: String },
    /// Delete (`DEL key`).
    Del { key: String },
}

/// A log record with texts taken by their characters.
pub enum RecordView {
    Put { key: Seq<char>, value: Seq<char> },
    Del { key: Seq<char> },
}

impl View for LogRecord {
    type V = RecordView;

    open spec fn view(&self) -> RecordView {
        match self {
            LogRecord::Put { key, value } => RecordView::Put { key: key@, value: value@ },
            LogRecord::Del { key } => RecordView::Del { key: key@ },
        }
    }
}

pub open spec fn opt_record_view(r: Option<LogRecord>) -> Option<RecordView> {
    match r {
        Some(rec) => Some(rec@),
        None => None,
    }
}

/// The line that stores a record.
pub open spec fn record_line(r: RecordView) -> Seq<char> {
    match r {
        RecordView::Put { key, value } => "SET "@ + key + " "@ + value,
        RecordView::Del { key } => "DEL "@ + key,
    }
}

/// The record a line stores, if it is well formed.
pub open spec fn line_record(line: Seq<char>) -> Option<RecordView> {
    let l = trim_line_end(line);
    match find_char(l, ' ') {
        None => None,
        Some(p) => {
            let cmd = l.take(p as int);
            let rest = l.skip(p + 1int);
            if eq_ignore_ascii_case(cmd, "SET"@) {
                match find_char(rest, ' ') {
                    None => None,
                    Some(q) => {
                        let key = rest.take(q as int);
                        if key.len() == 0 {
                            None
                        } else {
                            Some(RecordView::Put { key, value: rest.skip(q + 1int) })
                        }
                    },
                }
            } else if eq_ignore_ascii_case(cmd, "DEL"@) {
                if rest.len() == 0 || rest.contains(' ') {
                    None
                } else {
                    Some(RecordView::Del { key: rest })
                }
            } else {
                None
            }
        },
    }
}

impl LogRecord {
    /// The line that stores this record.
    pub fn to_line(&self) -> (r: String)
        ensures
            r@ == record_line(self@),
    {
        match self {
            LogRecord::Put { key, value } => {
                let mut s = String::from_str("SET ");
                push_str(&mut s, key.as_str());
                push_str(&mut s, " ");
                push_str(&mut s, value.as_str());
                s
            },
            LogRecord::Del { key } => {
                let mut s = String::from_str("DEL ");
                push_str(&mut s, key.as_str());
                s
            },
        }
    }

    /// The record stored in a line, or `None` when the line is not a record.
    pub fn from_line(line: &str) -> (r: Option<LogRecord>)
        ensures
            opt_record_view(r) == line_record(line@),
    {
        let v = chars_of(line);
        assert(v@.subrange(0, v@.len() as int) == v@);
        let end = trim_line_end_index(&v, 0, v.len());
        let ghost l = v@.subrange(0, end as int);
        let p = match find_char_index(&v, 0, end, ' ') {
            Some(p) => p,
            None => {
                return None;
            },
        };
        proof {
            assert(l.take(p as int) == v@.subrange(0, p as int));
            assert(l.skip(p + 1) == v@.subrange(p + 1, end as int));
        }
        if range_eq_ignore_ascii_case(&v, 0, p, "SET") {
            let q = match find_char_index(&v, p + 1, end, ' ') {
                Some(q) => q,
                None => {
                    return None;
                },
            };
            proof {
                let rest = v@.subrange(p + 1, end as int);
                assert(rest.take(q - (p + 1)) == v@.subrange(p + 1, q as int));
                assert(rest.skip(q - (p + 1) + 1) == v@.subrange(q + 1, end as int));
            }
            if q == p + 1 {
                return None;
            }
            Some(
                LogRecord::Put {
                    key: string_from_range(&v, p + 1, q),
                    value: string_from_range(&v, q + 1, end),
                },
            )
        } else if range_eq_ignore_ascii_case(&v, 0, p, "DEL") {
            if p + 1 == end || !range_lacks(&v, p + 1, end, ' ') {
                return None;
            }
            Some(LogRecord::Del { key: string_from_range(&v, p + 1, end) })
        } else {
            None
        }
    }
}

/// Where the log is kept.
pub struct Persistence {
    log_path: String,
}

impl View for Persistence {
    type V = Seq<char>;

    /// The path of the log file.
    closed spec fn view(&self) -> Seq<char> {
        self.log_path@
    }
}

impl Persistence {
    /// A log kept at `log_path`.
    pub fn new(log_path: &str) -> (p: Persistence)
        ensures
            p@ == log_path@,
    {
        Persistence { log_path: String::from_str(log_path) }
    }

    /// The path of the log file.
    pub fn log_path(&self) -> (r: &str)
        ensures
            r@ == self@,
    {
        self.log_path.as_str()
    }
}

/// What `{:?}` prints for a string: the text quoted, with escapes. Not written
/// out here.
pub uninterp spec fn debug_text(s: Seq<char>) -> Seq<char>;

/// Formats a text with `{:?}`. The contract names the result and says nothing more.
#[verifier::external_body]
fn debug_quote(s: &str) -> (r: String)
    ensures
        r@ == debug_text(s@),
{
    format!("{:?}", s)
}

/// `"日志文件第 <n> 行<what>"`.
pub open spec fn line_message(n: nat, what: Seq<char>) -> Seq<char> {
    "日志文件第 "@ + decimal(n) + " 行"@ + what
}

/// The store after replaying one log line (numbered `n`, from 1) at time `now`,
/// or the message that stops the replay.
pub open spec fn replay_step(
    m: Map<Seq<char>, (Seq<char>, Option<u64>)>,
    n: nat,
    line: Seq<char>,
    now: u64,
) -> Result<Map<Seq<char>, (Seq<char>, Option<u64>)>, Seq<char>> {
    if trim(line).len() == 0 {
        Err(line_message(n, "为空（文件可能损坏）"@))
    } else {
        match line_record(line) {
            Some(RecordView::Put { key, value }) => match key_problem(key) {
                Some(p) => Err(line_message(n, "非法: "@ + "非法键: "@ + p)),
                None => Ok(live_part(m, now).insert(key, (value, None))),
            },
            Some(RecordView::Del { key }) => match key_problem(key) {
                Some(p) => Err(line_message(n, "非法: "@ + "非法键: "@ + p)),
                None => Ok(m.remove(key)),
            },
            None => Err(line_message(n, "格式错误: "@ + debug_text(trim_end(line)))),
        }
    }
}

/// Replays lines numbered from `n` onward, stopping at the first error.
pub open spec fn replay_all(
    m: Map<Seq<char>, (Seq<char>, Option<u64>)>,
    n: nat,
    lines: Seq<Seq<char>>,
    now: u64,
) -> Result<Map<Seq<char>, (Seq<char>, Option<u64>)>, Seq<char>>
    decreases lines.len(),
{
    if lines.len() == 0 {
        Ok(m)
    } else {
        match replay_step(m, n, lines[0], now) {
            Err(e) => Err(e),
            Ok(m2) => replay_all(m2, n + 1, lines.drop_first(), now),
        }
    }
}

/// The store reached by replaying lines numbered from `n` onward: every line
/// up to the first that cannot be replayed is applied, and none after it.
pub open spec fn replay_reached(
    m: Map<Seq<char>, (Seq<char>, Option<u64>)>,
    n: nat,
    lines: Seq<Seq<char>>,
    now: u64,
) -> Map<Seq<char>, (Seq<char>, Option<u64>)>
    decreases lines.len(),
{
    if lines.len() == 0 {
        m
    } else {
        match replay_step(m, n, lines[0], now) {
            Err(_) => m,
            Ok(m2) => replay_reached(m2, n + 1, lines.drop_first(), now),
        }
    }
}

fn line_error(n: u64, what: &str) -> (r: String)
    ensures
        r@ == line_message(n as nat, what@),
{
    let mut s = String::from_str("日志文件第 ");
    push_decimal(&mut s, n);
    push_str(&mut s, " 行");
    push_str(&mut s, what);
    s
}

/// Replays log line number `n` into `store` at time `now`.
pub fn replay_line_at(store: &mut KVStore, n: u64, line: &str, now: u64) -> (r: Result<(), String>)
    requires
        old(store).wf(),
    ensures
        final(store).wf(),
        final(store).time() == later_of(old(store).time(), now),
        match replay_step(old(store)@, n as nat, line@, now) {
            Ok(m) => r is Ok && final(store)@ == m,
            Err(msg) => r matches Err(e) && e@ == msg && final(store)@ == old(store)@,
        },
{
    store.note_time(now);
    let v = chars_of(line);
    assert(v@.subrange(0, v@.len() as int) == v@);
    let a = trim_start_index(&v, 0, v.len());
    let b = trim_end_index(&v, a, v.len());
    if a == b {
        return Err(line_error(n, "为空（文件可能损坏）"));
    }
    match LogRecord::from_line(line) {
        Some(LogRecord::Put { key, value }) => match store.set_at(key.as_str(), value.as_str(), None, now) {
            Ok(()) => Ok(()),
            Err(e) => {
                let mut what = String::from_str("非法: ");
                let msg = e.message();
                push_str(&mut what, msg.as_str());
                Err(line_error(n, what.as_str()))
            },
        },
        Some(LogRecord::Del { key }) => match store.delete_at(key.as_str(), now) {
            Ok(_) => Ok(()),
            Err(e) => {
                let mut what = String::from_str("非法: ");
                let msg = e.message();
                push_str(&mut what, msg.as_str());
                Err(line_error(n, what.as_str()))
            },
        },
        None => {
            let end = trim_end_index(&v, 0, v.len());
            let trimmed = string_from_range(&v, 0, end);
            let mut what = String::from_str("格式错误: ");
            let quoted = debug_quote(trimmed.as_str());
            push_str(&mut what, quoted.as_str());
            Err(line_error(n, what.as_str()))
        },
    }
}

impl Persistence {
    /// Start-up recovery from the log's content: its lines, in order, are
    /// replayed into `store` (see `replay_at`) at the current time of the
    /// store's clock. An absent log is an empty one.
    pub fn recover(&self, store: &mut KVStore, lines: &Vec<String>) -> (r: Result<(), String>)
        requires
            old(store).wf(),
            lines.len() < u64::MAX,
        ensures
            final(store).wf(),
            exists|now: u64|
                now >= old(store).time() && final(store).time() == #[trigger] later_of(
                    old(store).time(),
                    now,
                ) && final(store)@ == replay_reached(old(store)@, 1, string_views(lines@), now)
                    && match replay_all(old(store)@, 1, string_views(lines@), now) {
                    Ok(m) => r is Ok && final(store)@ == m,
                    Err(msg) => r matches Err(e) && e@ == msg,
                },
    {
        let now = store.now();
        replay_at(store, lines, now)
    }
}

/// Replays a whole log (its lines in order, numbered from 1) into `store` at time
/// `now`, stopping at the first line that cannot be replayed.
pub fn replay_at(store: &mut KVStore, lines: &Vec<String>, now: u64) -> (r: Result<(), String>)
    requires
        old(store).wf(),
        lines.len() < u64::MAX,
    ensures
        final(store).wf(),
        final(store).time() == later_of(old(store).time(), now),
        final(store)@ == replay_reached(old(store)@, 1, string_views(lines@), now),
        match replay_all(old(store)@, 1, string_views(lines@), now) {
            Ok(m) => r is Ok && final(store)@ == m,
            Err(msg) => r matches Err(e) && e@ == msg,
        },
{
    store.note_time(now);
    let ghost all = string_views(lines@);
    assert(all.skip(0) == all);
    let mut i: usize = 0;
    while i < lines.len()
        invariant
            store.wf(),
            i <= lines.len(),
            lines.len() < u64::MAX,
            all == string_views(lines@),
            replay_all(old(store)@, 1, all, now) == replay_all(store@, (i + 1) as nat, all.skip(i as int), now),
            replay_reached(old(store)@, 1, all, now) == replay_reached(
                store@,
                (i + 1) as nat,
                all.skip(i as int),
                now,
            ),
            store.time() == later_of(old(store).time(), now),
        decreases lines.len() - i,
    {
        let ghost before = store@;
        assert(all.skip(i as int)[0] == lines@[i as int]@);
        assert(all.skip(i as int).drop_first() == all.skip(i + 1));
        match replay_line_at(store, (i + 1) as u64, lines[i].as_str(), now) {
            Ok(()) => {},
            Err(e) => {
                return Err(e);
            },
        }
        i = i + 1;
    }
    Ok(())
}

} // verus!

verus! {

/// A record that one log line stores faithfully: the key is acceptable to the
/// store, and the value holds no line break (a break would split the line).
pub open spec fn record_ok(r: RecordView) -> bool {
    match r {
        RecordView::Put { key, value } => key_problem(key) is None && !value.contains('\n')
            && !value.contains('\r'),
        RecordView::Del { key } => key_problem(key) is None,
    }
}

/// The effect of a record on the store's content.
pub open spec fn apply_record(m: Map<Seq<char>, (Seq<char>, Option<u64>)>, r: RecordView) -> Map<
    Seq<char>,
    (Seq<char>, Option<u64>),
> {
    match r {
        RecordView::Put { key, value } => m.insert(key, (value, None)),
        RecordView::Del { key } => m.remove(key),
    }
}

/// The effect of records applied in order.
pub open spec fn apply_records(
    m: Map<Seq<char>, (Seq<char>, Option<u64>)>,
    rs: Seq<RecordView>,
) -> Map<Seq<char>, (Seq<char>, Option<u64>)>
    decreases rs.len(),
{
    if rs.len() == 0 {
        m
    } else {
        apply_records(apply_record(m, rs[0]), rs.drop_first())
    }
}

/// No entry of `m` has an expiry time.
pub open spec fn permanent(m: Map<Seq<char>, (Seq<char>, Option<u64>)>) -> bool {
    forall|k: Seq<char>| #[trigger] m.contains_key(k) ==> m[k].1 is None
}

pub(crate) proof fn lemma_find_after(a: Seq<char>, c: char, b: Seq<char>)
    requires
        !a.contains(c),
    ensures
        find_char(a + seq![c] + b, c) == Some(a.len()),
{
    let s = a + seq![c] + b;
    assert forall|j: int| 0 <= j < a.len() implies #[trigger] s[j] != c by {
        assert(s[j] == a[j]);
    }
    crate::text::lemma_find_char_skip(s, c, a.len() as int);
    assert(s.skip(a.len() as int)[0] == c);
}

proof fn lemma_no_line_end(s: Seq<char>)
    requires
        s.len() > 0,
        s.last() != '\n',
        s.last() != '\r',
    ensures
        trim_line_end(s) == s,
{
}

/// A record whose line reads back as itself: a non-empty key without a blank,
/// and no line break at the very end of the line (the end of a value, or of a
/// deleted key), which reading would strip.
pub open spec fn record_round_trips(r: RecordView) -> bool {
    match r {
        RecordView::Put { key, value } => key.len() > 0 && !key.contains(' ') && (value.len() == 0
            || (value.last() != '\n' && value.last() != '\r')),
        RecordView::Del { key } => key.len() > 0 && !key.contains(' ') && key.last() != '\n'
            && key.last() != '\r',
    }
}

/// A record that one log line stores faithfully reads back as itself.
pub proof fn lemma_record_ok_round_trips(r: RecordView)
    requires
        record_ok(r),
    ensures
        record_round_trips(r),
{
    match r {
        RecordView::Put { key, value } => {
            if value.len() > 0 {
                assert(value.contains(value.last()));
            }
        },
        RecordView::Del { key } => {
            assert(key.contains(key.last()));
        },
    }
}

/// Reading back the line of a record gives the record again.
pub proof fn law_record_round_trip(r: RecordView)
    requires
        record_round_trips(r),
    ensures
        line_record(record_line(r)) == Some(r),
{
    reveal_strlit("SET ");
    reveal_strlit("DEL ");
    reveal_strlit("SET");
    reveal_strlit("DEL");
    reveal_strlit(" ");
    match r {
        RecordView::Put { key, value } => {
            let line = record_line(r);
            assert(line == seq!['S', 'E', 'T'] + seq![' '] + (key + seq![' '] + value));
            if value.len() > 0 {
                assert(line.last() == value.last());
            } else {
                assert(line.last() == ' ');
            }
            lemma_no_line_end(line);
            assert(!seq!['S', 'E', 'T'].contains(' '));
            lemma_find_after(seq!['S', 'E', 'T'], ' ', key + seq![' '] + value);
            let rest = line.skip(4);
            assert(rest == key + seq![' '] + value);
            assert(line.take(3) == "SET"@);
            lemma_find_after(key, ' ', value);
            assert(rest.take(key.len() as int) == key);
            assert(rest.skip(key.len() + 1int) == value);
        },
        RecordView::Del { key } => {
            let line = record_line(r);
            assert(line == seq!['D', 'E', 'L'] + seq![' '] + key);
            assert(line.last() == key.last());
            lemma_no_line_end(line);
            assert(!seq!['D', 'E', 'L'].contains(' '));
            lemma_find_after(seq!['D', 'E', 'L'], ' ', key);
            assert(line.take(3) == "DEL"@);
            assert(line.skip(4) == key);
            lemma_del_is_not_set();
        },
    }
}

proof fn lemma_del_is_not_set()
    ensures
        !eq_ignore_ascii_case("DEL"@, "SET"@),
{
    reveal_strlit("SET");
    reveal_strlit("DEL");
    assert(crate::text::ascii_lower("DEL"@[0]) != crate::text::ascii_lower("SET"@[0]));
}

/// Replaying the lines of records into a store whose entries never expire gives
/// the records' effect, whatever the time of replay.
pub proof fn law_replay_applies_records(
    m: Map<Seq<char>, (Seq<char>, Option<u64>)>,
    n: nat,
    rs: Seq<RecordView>,
    now: u64,
)
    requires
        permanent(m),
        forall|i: int| 0 <= i < rs.len() ==> record_ok(#[trigger] rs[i]),
    ensures
        replay_all(m, n, rs.map_values(|r: RecordView| record_line(r)), now) == Ok::<
            Map<Seq<char>, (Seq<char>, Option<u64>)>,
            Seq<char>,
        >(apply_records(m, rs)),
    decreases rs.len(),
{
    let lines = rs.map_values(|r: RecordView| record_line(r));
    if rs.len() > 0 {
        let r = rs[0];
        assert(record_ok(r));
        lemma_record_ok_round_trips(r);
        law_record_round_trip(r);
        let line = lines[0];
        assert(line == record_line(r));
        reveal_strlit("SET ");
        reveal_strlit("DEL ");
        assert(line[0] == 'S' || line[0] == 'D');
        assert(!crate::text::is_ws(line[0]));
        crate::text::lemma_trim_start_fixed(line);
        assert(trim(line).len() > 0) by {
            lemma_trim_end_nonempty(line);
        }
        assert(live_part(m, now) =~= m);
        let m2 = apply_record(m, r);
        assert(permanent(m2));
        assert(lines.drop_first() == rs.drop_first().map_values(|r: RecordView| record_line(r)));
        law_replay_applies_records(m2, n + 1, rs.drop_first(), now);
    }
}

proof fn lemma_trim_end_nonempty(s: Seq<char>)
    requires
        s.len() > 0,
        !crate::text::is_ws(s[0]),
    ensures
        crate::text::trim_end(s).len() > 0,
    decreases s.len(),
{
    if crate::text::is_ws(s.last()) {
        assert(s.len() > 1);
        assert(s.drop_last()[0] == s[0]);
        lemma_trim_end_nonempty(s.drop_last());
    }
}

/// The key a record names.
pub open spec fn record_key(r: RecordView) -> Seq<char> {
    match r {
        RecordView::Put { key, .. } => key,
        RecordView::Del { key } => key,
    }
}

/// The effect of a record replayed at time `now`, as the store's own writes
/// have it: `SET` drops what has expired and writes a value that never
/// expires, `DEL` removes the key.
pub open spec fn apply_record_at(
    m: Map<Seq<char>, (Seq<char>, Option<u64>)>,
    r: RecordView,
    now: u64,
) -> Map<Seq<char>, (Seq<char>, Option<u64>)> {
    match r {
        RecordView::Put { key, value } => live_part(m, now).insert(key, (value, None)),
        RecordView::Del { key } => m.remove(key),
    }
}

/// The effect of records replayed in order at time `now`.
pub open spec fn apply_records_at(
    m: Map<Seq<char>, (Seq<char>, Option<u64>)>,
    rs: Seq<RecordView>,
    now: u64,
) -> Map<Seq<char>, (Seq<char>, Option<u64>)>
    decreases rs.len(),
{
    if rs.len() == 0 {
        m
    } else {
        apply_records_at(apply_record_at(m, rs[0], now), rs.drop_first(), now)
    }
}

/// The records that lines read as.
pub open spec fn line_records(lines: Seq<Seq<char>>) -> Seq<RecordView> {
    lines.map_values(|l: Seq<char>| line_record(l).unwrap())
}

proof fn lemma_trim_line_end_prefix(s: Seq<char>)
    ensures
        trim_line_end(s).len() <= s.len(),
        trim_line_end(s) == s.take(trim_line_end(s).len() as int),
    decreases s.len(),
{
    if s.len() > 0 && (s.last() == '\n' || s.last() == '\r') {
        lemma_trim_line_end_prefix(s.drop_last());
        let t = trim_line_end(s.drop_last());
        assert(s.drop_last().take(t.len() as int) == s.take(t.len() as int));
    } else {
        assert(s.take(s.len() as int) == s);
    }
}

/// A line that reads as a record is not blank.
proof fn lemma_record_line_not_blank(line: Seq<char>)
    requires
        line_record(line) is Some,
    ensures
        trim(line).len() > 0,
{
    reveal_strlit("SET");
    reveal_strlit("DEL");
    let l = trim_line_end(line);
    lemma_trim_line_end_prefix(line);
    let p = find_char(l, ' ').unwrap();
    crate::text::lemma_find_char_found(l, ' ');
    let cmd = l.take(p as int);
    assert(cmd.len() == 3);
    assert(cmd[0] == line[0]);
    let c = line[0];
    assert(crate::text::ascii_lower(cmd[0]) == 's' || crate::text::ascii_lower(cmd[0]) == 'd');
    assert(!crate::text::is_ws(c));
    crate::text::lemma_trim_start_fixed(line);
    lemma_trim_end_nonempty(line);
}

/// Replaying lines that read as records whose keys the store accepts applies
/// those records in order, whatever the store held before (entries that
/// expire included), whatever the case of the command words and whatever
/// line ends the lines carry.
pub proof fn law_replay_applies_lines(
    m: Map<Seq<char>, (Seq<char>, Option<u64>)>,
    n: nat,
    lines: Seq<Seq<char>>,
    now: u64,
)
    requires
        forall|i: int| 0 <= i < lines.len() ==> (#[trigger] line_record(lines[i])) is Some
            && key_problem(record_key(line_record(lines[i]).unwrap())) is None,
    ensures
        replay_all(m, n, lines, now) == Ok::<
            Map<Seq<char>, (Seq<char>, Option<u64>)>,
            Seq<char>,
        >(apply_records_at(m, line_records(lines), now)),
        replay_reached(m, n, lines, now) == apply_records_at(m, line_records(lines), now),
    decreases lines.len(),
{
    if lines.len() > 0 {
        let l = lines[0];
        assert(line_record(lines[0]) is Some);
        lemma_record_line_not_blank(l);
        let m2 = apply_record_at(m, line_record(l).unwrap(), now);
        let rest = lines.drop_first();
        assert forall|i: int| 0 <= i < rest.len() implies (#[trigger] line_record(rest[i])) is Some
            && key_problem(record_key(line_record(rest[i]).unwrap())) is None by {
            assert(rest[i] == lines[i + 1]);
            assert(line_record(lines[i + 1]) is Some);
        }
        law_replay_applies_lines(m2, n + 1, rest, now);
        assert(line_records(lines).drop_first() == line_records(rest));
        assert(line_records(lines)[0] == line_record(l).unwrap());
    }
}

} // verus!
