//! Turns one request line into a `ParsedCommand`, or explains in an
//! `ERROR`-ready message why it cannot.
//!
//! `SET key value [ttl]`, `GET key`, `DEL key`, `LIST`, `STATUS`, `PING`, `EXIT`;
//! command names are compared after upper-casing; the value of `SET` may hold
//! spaces but no line break, and only a trailing word that looks like a number
//! is taken as a TTL.

use vstd::prelude::*;

use crate::protocol::error;
use crate::protocol::{
    ascii_uppercase, command_name, command_named, is_ascii_text, upper_case, Command, MAX_MSG_LEN,
};
use crate::text::{
    all_digits, chars_of, decimal, first_ws, first_ws_index, is_digit, is_ws, last_ws, last_ws_index,
    lemma_first_ws_bound, lemma_first_ws_hit, lemma_first_ws_prefix, lemma_trim_start_fixed, lemma_trim_start_head,
    parse_unsigned, parse_unsigned_range, push_decimal, push_str, range_lacks, string_from_range, trim,
    trim_end, trim_end_index, trim_start, trim_start_index,
};
use crate::persistence::{record_ok, RecordView};
use crate::store::key_problem;
use crate::text::{digits_value, trim_line_end};
use vstd::utf8::encode_utf8;

verus! {

/// Longest accepted TTL, in seconds (one year).
pub const MAX_TTL_SECONDS: u64 = 86_400 * 365;

/// Why a line could not be parsed; `message` follows the `ERROR ` prefix.
#[derive(Debug, Clone, PartialEq, Eq)]
pub struct ParseError {
    pub message: String,
}

impl ParseError {
    /// The error as it is shown to users: `ERROR ` followed by the message.
    pub fn to_string(&self) -> (r: String)
        ensures
            r@ == "ERROR "@ + self.message@,
    {
        let mut s = String::from_str("ERROR ");
        push_str(&mut s, self.message.as_str());
        s
    }
}

/// A parsed request: the command and the arguments the user gave.
#[derive(Debug, Clone, PartialEq, Eq)]
pub struct ParsedCommand {
    pub command: Command,
    pub key: Option<String>,
    pub value: Option<String>,
    pub ttl: Option<u64>,
}

/// The mathematical content of a `ParsedCommand`.
pub struct ParsedView {
    pub command: Command,
    pub key: Option<Seq<char>>,
    pub value: Option<Seq<char>>,
    pub ttl: Option<u64>,
}

pub open spec fn opt_view(o: Option<String>) -> Option<Seq<char>> {
    match o {
        Some(s) => Some(s@),
        None => None,
    }
}

impl View for ParsedCommand {
    type V = ParsedView;

    open spec fn view(&self) -> ParsedView {
        ParsedView {
            command: self.command,
            key: opt_view(self.key),
            value: opt_view(self.value),
            ttl: self.ttl,
        }
    }
}

/// A parse outcome with texts taken by their characters.
pub open spec fn outcome_view(r: Result<ParsedCommand, ParseError>) -> Result<ParsedView, Seq<char>> {
    match r {
        Ok(p) => Ok(p@),
        Err(e) => Err(e.message@),
    }
}

// ---------------------------------------------------------------------------
// The grammar, stated over characters
// ---------------------------------------------------------------------------

/// `"<a>：<b>"`, the shape of every detailed error message.
pub open spec fn detail(a: Seq<char>, b: Seq<char>) -> Seq<char> {
    a + "："@ + b
}

/// The first word of `s` (after leading white space) and what follows it.
pub open spec fn first_word(s: Seq<char>) -> Option<(Seq<char>, Seq<char>)> {
    let t = trim_start(s);
    if t.len() == 0 {
        None
    } else {
        let e = first_ws(t) as int;
        Some((t.take(e), t.skip(e)))
    }
}

pub open spec fn has_ws(s: Seq<char>) -> bool {
    exists|i: int| 0 <= i < s.len() && is_ws(#[trigger] s[i])
}

/// Keys must be non-empty and hold no white space or line breaks.
pub open spec fn key_check(key: Seq<char>) -> Result<(), Seq<char>> {
    if key.len() == 0 {
        Err(detail(error::INVALID_KEY@, "key 不能为空"@))
    } else if has_ws(key) {
        Err(detail(error::INVALID_KEY@, "key 不能包含空格或换行"@))
    } else {
        Ok(())
    }
}

/// Whether the last word of a `SET` value is meant as a TTL.
pub open spec fn looks_like_ttl(c: Seq<char>) -> bool {
    (c.len() > 0 && c[0] == '-') || all_digits(c)
}

/// The value and optional TTL of `SET key <value_part>`.
pub open spec fn value_and_ttl(value_part: Seq<char>) -> Result<(Seq<char>, Option<u64>), Seq<char>> {
    let vp = trim(value_part);
    if vp.len() == 0 {
        Err(detail(error::MISSING_ARG@, "SET 需要 value"@))
    } else {
        match last_ws(vp) {
            None => Ok((vp, None)),
            Some(p) => {
                let value = trim_end(vp.take(p as int));
                let candidate = trim(vp.skip(p as int));
                if !looks_like_ttl(candidate) {
                    Ok((vp, None))
                } else if value.len() == 0 {
                    Err(detail(error::MISSING_ARG@, "SET 需要 value"@))
                } else {
                    match parse_unsigned(candidate, u64::MAX as nat) {
                        None => Err(detail(error::INVALID_KEY@, "TTL 必须是正整数"@)),
                        Some(t) => if t == 0 {
                            Err("TTL 必须大于 0"@)
                        } else if t > MAX_TTL_SECONDS {
                            Err("TTL 不能超过 "@ + decimal(MAX_TTL_SECONDS as nat) + " 秒"@)
                        } else {
                            Ok((value, Some(t as u64)))
                        },
                    }
                }
            },
        }
    }
}

/// Values, like keys, hold no line break: one record is one line.
pub open spec fn line_break_free(s: Seq<char>) -> bool {
    !s.contains('\n') && !s.contains('\r')
}

/// The single key of `GET`/`DEL`.
pub open spec fn one_key(rest: Seq<char>, name: Seq<char>) -> Result<Seq<char>, Seq<char>> {
    match first_word(rest) {
        None => Err(detail(error::MISSING_ARG@, name + " 需要 key"@)),
        Some((key, remain)) => if trim(remain).len() > 0 {
            Err(detail(error::EXTRA_ARG@, name + " 只能有一个 key"@))
        } else {
            match key_check(key) {
                Err(e) => Err(e),
                Ok(_) => Ok(key),
            }
        },
    }
}

/// Commands without arguments accept nothing but white space after their name.
pub open spec fn no_argument(rest: Seq<char>, name: Seq<char>) -> Result<(), Seq<char>> {
    if trim(rest).len() > 0 {
        Err(detail(error::EXTRA_ARG@, name + " 不需要参数"@))
    } else {
        Ok(())
    }
}

pub open spec fn bare(c: Command) -> ParsedView {
    ParsedView { command: c, key: None, value: None, ttl: None }
}

/// The arguments of `command`, given the text after the command word.
pub open spec fn arguments(command: Command, rest: Seq<char>) -> Result<ParsedView, Seq<char>> {
    match command {
        Command::Put => match first_word(rest) {
            None => Err(detail(error::MISSING_ARG@, "SET 需要 key 和 value"@)),
            Some((key, value_part)) => match key_check(key) {
                Err(e) => Err(e),
                Ok(_) => match value_and_ttl(value_part) {
                    Err(e) => Err(e),
                    Ok((value, ttl)) => if !line_break_free(value) {
                        Err(detail(error::INVALID_VALUE@, "value 不能包含换行"@))
                    } else {
                        Ok(
                            ParsedView {
                                command: Command::Put,
                                key: Some(key),
                                value: Some(value),
                                ttl,
                            },
                        )
                    },
                },
            },
        },
        Command::Get | Command::Del => match one_key(rest, command_name(command)) {
            Err(e) => Err(e),
            Ok(key) => Ok(ParsedView { command, key: Some(key), value: None, ttl: None }),
        },
        _ => match no_argument(rest, command_name(command)) {
            Err(e) => Err(e),
            Ok(_) => Ok(bare(command)),
        },
    }
}

/// The outcome of parsing one request line.
pub open spec fn parse(line: Seq<char>) -> Result<ParsedView, Seq<char>> {
    parse_by(line, |w: Seq<char>| upper_case(w))
}

/// The command word of a line: its first word once trimmed (empty if none).
pub open spec fn command_word(line: Seq<char>) -> Seq<char> {
    match first_word(trim(line)) {
        Some((w, _)) => w,
        None => Seq::empty(),
    }
}

/// The outcome of parsing a line whose command word is ASCII text, where
/// upper-casing is plain ASCII upper-casing.
pub open spec fn parse_ascii(line: Seq<char>) -> Result<ParsedView, Seq<char>> {
    parse_by(line, |w: Seq<char>| ascii_uppercase(w))
}

/// The outcome of parsing one request line, with `up` as the upper-casing
/// that command words are compared under.
pub open spec fn parse_by(line: Seq<char>, up: spec_fn(Seq<char>) -> Seq<char>) -> Result<
    ParsedView,
    Seq<char>,
> {
    if encode_utf8(line).len() > MAX_MSG_LEN {
        Err(detail(error::MSG_TOO_LONG@, "单条命令不能超过 "@ + decimal(MAX_MSG_LEN as nat) + " 字节"@))
    } else {
        let l = trim(line);
        if l.len() == 0 {
            Err(detail(error::UNKNOWN_COMMAND@, "命令不能为空"@))
        } else {
            let word = first_word(l).unwrap().0;
            let rest = first_word(l).unwrap().1;
            match command_named(up(word)) {
                None => Err(detail(error::UNKNOWN_COMMAND@, word)),
                Some(c) => arguments(c, rest),
            }
        }
    }
}

// ---------------------------------------------------------------------------
// Implementation
// ---------------------------------------------------------------------------

fn error_with(head: &str, tail: &str) -> (e: ParseError)
    ensures
        e.message@ == detail(head@, tail@),
{
    let mut m = String::from_str(head);
    push_str(&mut m, "：");
    push_str(&mut m, tail);
    ParseError { message: m }
}

fn error_about(head: &str, name: &str, tail: &str) -> (e: ParseError)
    ensures
        e.message@ == detail(head@, name@ + tail@),
{
    let mut m = String::from_str(head);
    push_str(&mut m, "：");
    push_str(&mut m, name);
    push_str(&mut m, tail);
    assert(m@ == detail(head@, name@ + tail@));
    ParseError { message: m }
}

/// The first word of `v[lo..hi]`, as `(start, end)`; what follows it is `v[end..hi]`.
pub(crate) fn take_word(v: &Vec<char>, lo: usize, hi: usize) -> (r: Option<(usize, usize)>)
    requires
        lo <= hi <= v.len(),
    ensures
        match first_word(v@.subrange(lo as int, hi as int)) {
            None => r is None,
            Some((w, rest)) => r matches Some((s, e)) && lo <= s <= e <= hi && v@.subrange(
                s as int,
                e as int,
            ) == w && v@.subrange(e as int, hi as int) == rest,
        },
{
    let s = trim_start_index(v, lo, hi);
    if s == hi {
        return None;
    }
    let e = first_ws_index(v, s, hi);
    proof {
        let t = v@.subrange(s as int, hi as int);
        assert(t.take(e - s) == v@.subrange(s as int, e as int));
        assert(t.skip(e - s) == v@.subrange(e as int, hi as int));
    }
    Some((s, e))
}

/// Checks that `v[lo..hi]` is an acceptable key.
fn validate_key(v: &Vec<char>, lo: usize, hi: usize) -> (r: Result<(), ParseError>)
    requires
        lo <= hi <= v.len(),
    ensures
        match key_check(v@.subrange(lo as int, hi as int)) {
            Ok(_) => r is Ok,
            Err(m) => r matches Err(e) && e.message@ == m,
        },
{
    if lo == hi {
        return Err(error_with(error::INVALID_KEY, "key 不能为空"));
    }
    let w = first_ws_index(v, lo, hi);
    proof {
        let k = v@.subrange(lo as int, hi as int);
        lemma_first_ws_bound(k);
        if w == hi {
            assert forall|i: int| 0 <= i < k.len() implies !is_ws(#[trigger] k[i]) by {
                lemma_first_ws_prefix(k, i);
            }
        } else {
            lemma_first_ws_hit(k);
            assert(is_ws(k[w - lo]));
        }
    }
    if w < hi {
        return Err(error_with(error::INVALID_KEY, "key 不能包含空格或换行"));
    }
    Ok(())
}

/// The key of `GET`/`DEL`, taken from `v[lo..hi]`.
fn parse_one_key(v: &Vec<char>, lo: usize, hi: usize, command_name: &str) -> (r: Result<
    String,
    ParseError,
>)
    requires
        lo <= hi <= v.len(),
    ensures
        match one_key(v@.subrange(lo as int, hi as int), command_name@) {
            Ok(k) => r matches Ok(key) && key@ == k,
            Err(m) => r matches Err(e) && e.message@ == m,
        },
{
    let (s, e) = match take_word(v, lo, hi) {
        Some(p) => p,
        None => {
            return Err(error_about(error::MISSING_ARG, command_name, " 需要 key"));
        },
    };
    let a = trim_start_index(v, e, hi);
    let b = trim_end_index(v, a, hi);
    if a < b {
        return Err(error_about(error::EXTRA_ARG, command_name, " 只能有一个 key"));
    }
    validate_key(v, s, e)?;
    Ok(string_from_range(v, s, e))
}

/// Rejects anything but white space in `v[lo..hi]`.
fn check_no_argument(v: &Vec<char>, lo: usize, hi: usize, command_name: &str) -> (r: Result<
    (),
    ParseError,
>)
    requires
        lo <= hi <= v.len(),
    ensures
        match no_argument(v@.subrange(lo as int, hi as int), command_name@) {
            Ok(_) => r is Ok,
            Err(m) => r matches Err(e) && e.message@ == m,
        },
{
    let a = trim_start_index(v, lo, hi);
    let b = trim_end_index(v, a, hi);
    if a < b {
        return Err(error_about(error::EXTRA_ARG, command_name, " 不需要参数"));
    }
    Ok(())
}

/// Whether `v[lo..hi]` is all ASCII digits.
fn all_digits_range(v: &Vec<char>, lo: usize, hi: usize) -> (r: bool)
    requires
        lo <= hi <= v.len(),
    ensures
        r == all_digits(v@.subrange(lo as int, hi as int)),
{
    let mut i = lo;
    while i < hi
        invariant
            lo <= i <= hi <= v.len(),
            forall|j: int| lo <= j < i ==> is_digit(#[trigger] v@[j]),
        decreases hi - i,
    {
        if v[i] < '0' || v[i] > '9' {
            assert(v@.subrange(lo as int, hi as int)[i - lo] == v@[i as int]);
            return false;
        }
        i = i + 1;
    }
    assert forall|j: int| 0 <= j < hi - lo implies is_digit(
        #[trigger] v@.subrange(lo as int, hi as int)[j],
    ) by {
        assert(v@.subrange(lo as int, hi as int)[j] == v@[lo + j]);
    }
    true
}

/// The value and optional TTL of `SET key <v[lo..hi]>`.
fn parse_value_and_ttl(v: &Vec<char>, lo: usize, hi: usize) -> (r: Result<
    (String, Option<u64>),
    ParseError,
>)
    requires
        lo <= hi <= v.len(),
    ensures
        match value_and_ttl(v@.subrange(lo as int, hi as int)) {
            Ok((value, ttl)) => r matches Ok((val, t)) && val@ == value && t == ttl,
            Err(m) => r matches Err(e) && e.message@ == m,
        },
{
    let a = trim_start_index(v, lo, hi);
    let b = trim_end_index(v, a, hi);
    if a == b {
        return Err(error_with(error::MISSING_ARG, "SET 需要 value"));
    }
    let position = match last_ws_index(v, a, b) {
        Some(p) => p,
        None => {
            return Ok((string_from_range(v, a, b), None));
        },
    };
    let value_end = trim_end_index(v, a, position);
    let c0 = trim_start_index(v, position, b);
    let c1 = trim_end_index(v, c0, b);
    proof {
        let vp = v@.subrange(a as int, b as int);
        let p = position - a;
        assert(vp.take(p) == v@.subrange(a as int, position as int));
        assert(vp.skip(p) == v@.subrange(position as int, b as int));
    }
    let looks = (c0 < c1 && v[c0] == '-') || all_digits_range(v, c0, c1);
    if !looks {
        return Ok((string_from_range(v, a, b), None));
    }
    if value_end == a {
        return Err(error_with(error::MISSING_ARG, "SET 需要 value"));
    }
    let ttl = match parse_unsigned_range(v, c0, c1, u64::MAX) {
        Some(t) => t,
        None => {
            return Err(error_with(error::INVALID_KEY, "TTL 必须是正整数"));
        },
    };
    if ttl == 0 {
        return Err(ParseError { message: String::from_str("TTL 必须大于 0") });
    }
    if ttl > MAX_TTL_SECONDS {
        let mut m = String::from_str("TTL 不能超过 ");
        push_decimal(&mut m, MAX_TTL_SECONDS);
        push_str(&mut m, " 秒");
        return Err(ParseError { message: m });
    }
    Ok((string_from_range(v, a, value_end), Some(ttl)))
}

/// Parses the arguments of `command` found in `v[lo..hi]`.
fn parse_arguments_range(command: Command, v: &Vec<char>, lo: usize, hi: usize) -> (r: Result<
    ParsedCommand,
    ParseError,
>)
    requires
        lo <= hi <= v.len(),
    ensures
        outcome_view(r) == arguments(command, v@.subrange(lo as int, hi as int)),
{
    match command {
        Command::Put => {
            let (s, e) = match take_word(v, lo, hi) {
                Some(p) => p,
                None => {
                    return Err(error_with(error::MISSING_ARG, "SET 需要 key 和 value"));
                },
            };
            validate_key(v, s, e)?;
            let (value, ttl) = parse_value_and_ttl(v, e, hi)?;
            if !value_line_break_free(value.as_str()) {
                return Err(error_with(error::INVALID_VALUE, "value 不能包含换行"));
            }
            Ok(
                ParsedCommand {
                    command: Command::Put,
                    key: Some(string_from_range(v, s, e)),
                    value: Some(value),
                    ttl,
                },
            )
        },
        Command::Get | Command::Del => {
            let key = parse_one_key(v, lo, hi, command.name())?;
            Ok(ParsedCommand { command, key: Some(key), value: None, ttl: None })
        },
        _ => {
            check_no_argument(v, lo, hi, command.name())?;
            Ok(ParsedCommand { command, key: None, value: None, ttl: None })
        },
    }
}

/// Whether `value` holds no line break.
pub fn value_line_break_free(value: &str) -> (r: bool)
    ensures
        r == line_break_free(value@),
{
    let chars = chars_of(value);
    assert(chars@.subrange(0, chars@.len() as int) == chars@);
    range_lacks(&chars, 0, chars.len(), '\n') && range_lacks(&chars, 0, chars.len(), '\r')
}

/// Parses one request line.
pub fn parse_command(line: &str) -> (r: Result<ParsedCommand, ParseError>)
    ensures
        outcome_view(r) == parse(line@),
        is_ascii_text(command_word(line@)) ==> outcome_view(r) == parse_ascii(line@),
        is_ascii_text(line@) ==> outcome_view(r) == parse_ascii(line@),
{
    if line.as_bytes().len() > MAX_MSG_LEN {
        let mut m = String::from_str(error::MSG_TOO_LONG);
        push_str(&mut m, "：");
        push_str(&mut m, "单条命令不能超过 ");
        push_decimal(&mut m, MAX_MSG_LEN as u64);
        push_str(&mut m, " 字节");
        assert(m@ == detail(error::MSG_TOO_LONG@, "单条命令不能超过 "@ + decimal(MAX_MSG_LEN as nat) + " 字节"@));
        return Err(ParseError { message: m });
    }
    let v = chars_of(line);
    assert(v@.subrange(0, v@.len() as int) == v@);
    let a = trim_start_index(&v, 0, v.len());
    let b = trim_end_index(&v, a, v.len());
    assert(trim(line@) == v@.subrange(a as int, b as int));
    if a == b {
        return Err(error_with(error::UNKNOWN_COMMAND, "命令不能为空"));
    }
    let (s, e) = match take_word(&v, a, b) {
        Some(p) => p,
        None => {
            proof {
                let t = v@.subrange(a as int, b as int);
                lemma_trim_start_head(v@.subrange(0, v@.len() as int));
                assert(v@.subrange(a as int, v@.len() as int)[0] == v@[a as int]);
                assert(t[0] == v@[a as int]);
                assert(t.len() > 0);
                lemma_trim_start_fixed(t);
            }
            return Err(error_with(error::UNKNOWN_COMMAND, "命令不能为空"));
        },
    };
    let word = string_from_range(&v, s, e);
    proof {
        assert(command_word(line@) == word@);
        if is_ascii_text(line@) {
            assert forall|i: int| 0 <= i < word@.len() implies (#[trigger] word@[i] as u32) < 128 by {
                assert(word@[i] == line@[s + i]);
            }
        }
    }
    let command = match Command::from_str(word.as_str()) {
        Some(c) => c,
        None => {
            return Err(error_with(error::UNKNOWN_COMMAND, word.as_str()));
        },
    };
    parse_arguments_range(command, &v, e, b)
}

} // verus!

verus! {

/// What `trim_end` leaves does not end with white space.
proof fn lemma_trim_end_tail(s: Seq<char>)
    ensures
        trim_end(s).len() > 0 ==> !is_ws(trim_end(s).last()),
    decreases s.len(),
{
    if s.len() > 0 && is_ws(s.last()) {
        lemma_trim_end_tail(s.drop_last());
    }
}

/// A key that passes the parser's check is one the store accepts.
proof fn lemma_checked_key_is_valid(key: Seq<char>)
    requires
        key_check(key) is Ok,
    ensures
        key_problem(key) is None,
{
    assert forall|c: char| (c == ' ' || c == '\t' || c == '\n' || c == '\r') implies !key.contains(c) by {
        if key.contains(c) {
            let i = choose|i: int| 0 <= i < key.len() && key[i] == c;
            assert(is_ws(key[i]));
            assert(has_ws(key));
        }
    }
}

/// A value that the parser gives `SET` is non-empty and does not end in white
/// space, so in particular not in a line break.
proof fn lemma_parsed_value(value_part: Seq<char>)
    ensures
        value_and_ttl(value_part) matches Ok((value, ttl)) ==> {
            &&& value.len() > 0
            &&& !is_ws(value.last())
            &&& trim_line_end(value) == value
            &&& (ttl matches Some(t) ==> 1 <= t <= MAX_TTL_SECONDS)
        },
{
    let vp = trim(value_part);
    lemma_trim_end_tail(trim_start(value_part));
    if let Some(p) = last_ws(vp) {
        lemma_trim_end_tail(vp.take(p as int));
    }
}

/// Whatever line the parser accepts, the key it gives is one the store
/// accepts, a TTL lies between 1 and `MAX_TTL_SECONDS`, and `SET` carries a
/// key and a non-empty value that its log line stores faithfully; `GET` and
/// `DEL` carry a key and nothing else, and the other commands nothing at all.
pub proof fn law_parsed_arguments_are_valid(line: Seq<char>)
    ensures
        parse(line) matches Ok(p) ==> {
            &&& (p.key matches Some(k) ==> key_problem(k) is None)
            &&& (p.ttl matches Some(t) ==> 1 <= t <= MAX_TTL_SECONDS)
            &&& (p.command == Command::Put ==> p.key is Some && p.value is Some)
            &&& (p.command == Command::Put ==> p.value.unwrap().len() > 0 && record_ok(
                RecordView::Put { key: p.key.unwrap(), value: p.value.unwrap() },
            ))
            &&& (p.command == Command::Get || p.command == Command::Del ==> p.key is Some
                && p.value is None && p.ttl is None)
            &&& (p.command != Command::Put && p.command != Command::Get && p.command
                != Command::Del ==> p.key is None && p.value is None && p.ttl is None)
        },
{
    if let Ok(p) = parse(line) {
        let l = trim(line);
        let word = first_word(l).unwrap().0;
        let rest = first_word(l).unwrap().1;
        let c = command_named(upper_case(word)).unwrap();
        assert(arguments(c, rest) == Ok::<ParsedView, Seq<char>>(p));
        match c {
            Command::Put => {
                let (key, value_part) = first_word(rest).unwrap();
                lemma_checked_key_is_valid(key);
                lemma_parsed_value(value_part);
            },
            Command::Get | Command::Del => {
                let name = command_name(c);
                let (key, remain) = first_word(rest).unwrap();
                assert(one_key(rest, name) == Ok::<Seq<char>, Seq<char>>(key));
                lemma_checked_key_is_valid(key);
            },
            _ => {},
        }
    }
}

/// The first word of a word followed by nothing or by white space is that word.
proof fn lemma_first_word_split(w: Seq<char>, rest: Seq<char>)
    requires
        w.len() > 0,
        !has_ws(w),
        rest.len() == 0 || is_ws(rest[0]),
    ensures
        first_word(w + rest) == Some((w, rest)),
{
    let t = w + rest;
    assert(!is_ws(t[0])) by {
        assert(t[0] == w[0]);
        if is_ws(w[0]) {
            assert(has_ws(w));
        }
    }
    lemma_trim_start_fixed(t);
    assert forall|j: int| 0 <= j < w.len() implies !is_ws(#[trigger] t[j]) by {
        assert(t[j] == w[j]);
        if is_ws(w[j]) {
            assert(has_ws(w));
        }
    }
    crate::text::lemma_first_ws_skip(t, w.len() as int);
    assert(t.skip(w.len() as int) == rest);
    assert(first_ws(rest) == 0);
    assert(t.take(w.len() as int) == w);
}

/// Command words ignore ASCII case: two lines that differ only in the case of
/// their command word parse alike, both accepted with the same outcome or both
/// refused. When the command words are ASCII, `parse_command` gives exactly
/// `parse_ascii` for both lines, whatever the rest of the line holds.
pub proof fn law_parse_ignores_command_case(
    l1: Seq<char>,
    l2: Seq<char>,
    w1: Seq<char>,
    w2: Seq<char>,
    rest: Seq<char>,
)
    requires
        trim(l1) == w1 + rest,
        trim(l2) == w2 + rest,
        w1.len() > 0,
        w2.len() > 0,
        !has_ws(w1),
        !has_ws(w2),
        rest.len() == 0 || is_ws(rest[0]),
        ascii_uppercase(w1) == ascii_uppercase(w2),
        encode_utf8(l1).len() == encode_utf8(l2).len(),
    ensures
        command_word(l1) == w1,
        command_word(l2) == w2,
        parse_ascii(l1) is Ok <==> parse_ascii(l2) is Ok,
        parse_ascii(l1) is Ok ==> parse_ascii(l1) == parse_ascii(l2),
{
    lemma_first_word_split(w1, rest);
    lemma_first_word_split(w2, rest);
}

} // verus!

verus! {

proof fn lemma_last_ws_before_word(a: Seq<char>, d: Seq<char>)
    requires
        forall|i: int| 0 <= i < d.len() ==> !is_ws(#[trigger] d[i]),
    ensures
        last_ws(a + seq![' '] + d) == Some(a.len()),
    decreases d.len(),
{
    let s = a + seq![' '] + d;
    if d.len() == 0 {
        assert(s.last() == ' ');
    } else {
        assert(s.last() == d.last());
        assert(!is_ws(d[d.len() - 1]));
        assert(s.drop_last() =~= a + seq![' '] + d.drop_last());
        assert forall|i: int| 0 <= i < d.drop_last().len() implies !is_ws(
            #[trigger] d.drop_last()[i],
        ) by {
            assert(d.drop_last()[i] == d[i]);
        }
        lemma_last_ws_before_word(a, d.drop_last());
    }
}

/// Dropping one leading blank before a text that does not start with white
/// space is all that `trim_start` does.
proof fn lemma_trim_start_one_blank(w: Seq<char>)
    requires
        w.len() > 0,
        !is_ws(w[0]),
    ensures
        trim_start(seq![' '] + w) == w,
{
    let u = seq![' '] + w;
    assert(is_ws(u[0]));
    crate::text::lemma_trim_start_skip(u, 1);
    assert(u.skip(1) =~= w);
    lemma_trim_start_fixed(w);
}

/// A `SET` whose value part ends in a number of seconds between 1 and
/// `MAX_TTL_SECONDS` takes that number as the TTL and everything before it,
/// spaces included, as the value: `SET k a b 5` sets `k` to `a b` for five
/// seconds.
pub proof fn law_set_takes_trailing_number_as_ttl(k: Seq<char>, val: Seq<char>, d: Seq<char>)
    requires
        k.len() > 0,
        forall|i: int| 0 <= i < k.len() ==> !is_ws(#[trigger] k[i]),
        val.len() > 0,
        !is_ws(val[0]),
        !is_ws(val.last()),
        line_break_free(val),
        d.len() > 0,
        all_digits(d),
        1 <= digits_value(d) <= MAX_TTL_SECONDS,
        encode_utf8("SET "@ + k + " "@ + val + " "@ + d).len() <= MAX_MSG_LEN,
    ensures
        command_word("SET "@ + k + " "@ + val + " "@ + d) == "SET"@,
        parse_ascii("SET "@ + k + " "@ + val + " "@ + d) == Ok::<ParsedView, Seq<char>>(
            ParsedView {
                command: Command::Put,
                key: Some(k),
                value: Some(val),
                ttl: Some(digits_value(d) as u64),
            },
        ),
{
    reveal_strlit("SET ");
    reveal_strlit("SET");
    reveal_strlit(" ");
    let line = "SET "@ + k + " "@ + val + " "@ + d;
    let r4 = val + seq![' '] + d;
    let r3 = seq![' '] + r4;
    let r2 = k + r3;
    let r1 = seq![' '] + r2;
    assert(line =~= "SET"@ + r1);
    assert(!is_ws(d[0]));
    assert(!is_ws(d.last())) by {
        assert(is_digit(d[d.len() - 1]));
    }
    assert forall|i: int| 0 <= i < d.len() implies !is_ws(#[trigger] d[i]) by {
        assert(is_digit(d[i]));
    }
    // The line is already trimmed, and its first word is `SET`.
    assert(!has_ws("SET"@)) by {
        if has_ws("SET"@) {
            let i = choose|i: int| 0 <= i < "SET"@.len() && is_ws(#[trigger] "SET"@[i]);
        }
    }
    lemma_trim_start_fixed(line);
    assert(line.last() == d.last());
    assert(trim(line) == line);
    lemma_first_word_split("SET"@, r1);
    assert(ascii_uppercase("SET"@) =~= "SET"@);
    crate::protocol::lemma_name_round_trip(Command::Put);
    // The key.
    assert(r2[0] == k[0]);
    lemma_trim_start_one_blank(r2);
    assert(!has_ws(k)) by {
        if has_ws(k) {
            let i = choose|i: int| 0 <= i < k.len() && is_ws(#[trigger] k[i]);
        }
    }
    lemma_first_word_split(k, r3);
    lemma_trim_start_fixed(r2);
    assert(first_word(r1) == first_word(r2));
    // The value and the TTL.
    assert(r4[0] == val[0]);
    lemma_trim_start_one_blank(r4);
    assert(r4.last() == d.last());
    assert(trim(r3) == r4);
    lemma_last_ws_before_word(val, d);
    assert(r4.take(val.len() as int) =~= val);
    assert(r4.skip(val.len() as int) =~= seq![' '] + d);
    lemma_trim_start_one_blank(d);
    assert(trim(seq![' '] + d) == d);
    assert(looks_like_ttl(d));
    assert(parse_unsigned(d, u64::MAX as nat) == Some(digits_value(d)));
}

} // verus!
