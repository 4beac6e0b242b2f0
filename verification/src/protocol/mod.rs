//! The line protocol shared by the server, the client and the web page.
//!
//! One request or reply per line, fields separated by spaces. Keys hold no
//! spaces or line breaks; values may hold spaces but no line breaks. A failing
//! command never ends the connection.

pub mod error;

use vstd::prelude::*;

use crate::text::str_eq;

verus! {

/// The commands of the protocol.
#[derive(Debug, Clone, Copy, PartialEq, Eq, Structural)]
pub enum Command {
    /// SET key value [ttl] —— 写入或覆盖键值
    Put,
    /// GET key —— 查询键值
    Get,
    /// DEL key —— 删除键值
    Del,
    /// LIST —— 列出全部键
    List,
    /// STATUS —— 查看数据数量与运行状态
    Status,
    /// PING —— 检查连接
    Ping,
    /// EXIT —— 客户端退出并关闭连接
    Exit,
}

/// Default listening address of the command port.
pub const DEFAULT_ADDR: &'static str = "127.0.0.1:7878";

/// Default command port.
pub const DEFAULT_PORT: u16 = 7878;

/// Default port of the web page.
pub const DEFAULT_WEB_PORT: u16 = 8080;

/// Longest accepted request line, in bytes.
pub const MAX_MSG_LEN: usize = 1024;

/// Default log file.
pub const DEFAULT_DATA_FILE: &'static str = "data/kv.log";

/// What `str::to_uppercase` returns for a text. The full Unicode case mapping
/// is not written out here; on ASCII text it is `ascii_uppercase`.
pub uninterp spec fn upper_case(s: Seq<char>) -> Seq<char>;

/// Every character of `s` is ASCII.
pub open spec fn is_ascii_text(s: Seq<char>) -> bool {
    forall|i: int| 0 <= i < s.len() ==> (#[trigger] s[i] as u32) < 128
}

/// ASCII upper-casing of one character; other characters are unchanged.
pub open spec fn ascii_upper(c: char) -> char {
    if 'a' <= c <= 'z' {
        ((c as u32) - 32) as char
    } else {
        c
    }
}

/// ASCII upper-casing of a text.
pub open spec fn ascii_uppercase(s: Seq<char>) -> Seq<char> {
    s.map_values(|c: char| ascii_upper(c))
}

/// Upper-cases a text with `str::to_uppercase`. The result is named; for
/// ASCII text it is the text with `a`-`z` mapped to `A`-`Z`, as the Unicode
/// case mapping gives for these characters.
#[verifier::external_body]
fn to_uppercase(s: &str) -> (r: String)
    ensures
        r@ == upper_case(s@),
        is_ascii_text(s@) ==> r@ == ascii_uppercase(s@),
{
    s.to_uppercase()
}

/// The canonical (upper-case) name of each command.
pub open spec fn command_name(c: Command) -> Seq<char> {
    match c {
        Command::Put => "SET"@,
        Command::Get => "GET"@,
        Command::Del => "DEL"@,
        Command::List => "LIST"@,
        Command::Status => "STATUS"@,
        Command::Ping => "PING"@,
        Command::Exit => "EXIT"@,
    }
}

/// The command whose canonical name is exactly `s`.
pub open spec fn command_named(s: Seq<char>) -> Option<Command> {
    if s == "SET"@ {
        Some(Command::Put)
    } else if s == "GET"@ {
        Some(Command::Get)
    } else if s == "DEL"@ {
        Some(Command::Del)
    } else if s == "LIST"@ {
        Some(Command::List)
    } else if s == "STATUS"@ {
        Some(Command::Status)
    } else if s == "PING"@ {
        Some(Command::Ping)
    } else if s == "EXIT"@ {
        Some(Command::Exit)
    } else {
        None
    }
}

/// How many arguments each command takes.
pub open spec fn arg_count(c: Command) -> nat {
    match c {
        Command::Put => 2,
        Command::Get | Command::Del => 1,
        _ => 0,
    }
}

impl Command {
    /// The command named by `name`, compared after upper-casing, so that
    /// `set`, `SET` and `Set` all name `SET`.
    pub fn from_str(name: &str) -> (r: Option<Command>)
        ensures
            r == command_named(upper_case(name@)),
            is_ascii_text(name@) ==> r == command_named(ascii_uppercase(name@)),
    {
        let upper = to_uppercase(name);
        Command::from_upper(upper.as_str())
    }

    /// The command whose canonical name is exactly `upper`.
    pub fn from_upper(upper: &str) -> (r: Option<Command>)
        ensures
            r == command_named(upper@),
    {
        if str_eq(upper, "SET") {
            Some(Command::Put)
        } else if str_eq(upper, "GET") {
            Some(Command::Get)
        } else if str_eq(upper, "DEL") {
            Some(Command::Del)
        } else if str_eq(upper, "LIST") {
            Some(Command::List)
        } else if str_eq(upper, "STATUS") {
            Some(Command::Status)
        } else if str_eq(upper, "PING") {
            Some(Command::Ping)
        } else if str_eq(upper, "EXIT") {
            Some(Command::Exit)
        } else {
            None
        }
    }

    /// The canonical (upper-case) name.
    pub fn name(&self) -> (r: &'static str)
        ensures
            r@ == command_name(*self),
    {
        match self {
            Command::Put => "SET",
            Command::Get => "GET",
            Command::Del => "DEL",
            Command::List => "LIST",
            Command::Status => "STATUS",
            Command::Ping => "PING",
            Command::Exit => "EXIT",
        }
    }

    /// How many arguments the command takes.
    pub fn required_args(&self) -> (r: usize)
        ensures
            r == arg_count(*self),
    {
        match self {
            Command::Put => 2,
            Command::Get | Command::Del => 1,
            Command::List | Command::Status | Command::Ping | Command::Exit => 0,
        }
    }
}

/// Every command is found again from its canonical name.
pub proof fn lemma_name_round_trip(c: Command)
    ensures
        command_named(command_name(c)) == Some(c),
{
    reveal_strlit("SET");
    reveal_strlit("GET");
    reveal_strlit("DEL");
    reveal_strlit("LIST");
    reveal_strlit("STATUS");
    reveal_strlit("PING");
    reveal_strlit("EXIT");
    assert("GET"@ != "SET"@) by { assert("GET"@[0] != "SET"@[0]); }
    assert("DEL"@ != "SET"@) by { assert("DEL"@[0] != "SET"@[0]); }
    assert("DEL"@ != "GET"@) by { assert("DEL"@[0] != "GET"@[0]); }
    assert("PING"@ != "LIST"@) by { assert("PING"@[0] != "LIST"@[0]); }
    assert("EXIT"@ != "LIST"@) by { assert("EXIT"@[0] != "LIST"@[0]); }
    assert("EXIT"@ != "PING"@) by { assert("EXIT"@[0] != "PING"@[0]); }
    assert("SET"@.len() == 3 && "GET"@.len() == 3 && "DEL"@.len() == 3);
    assert("LIST"@.len() == 4 && "PING"@.len() == 4 && "EXIT"@.len() == 4);
    assert("STATUS"@.len() == 6);
}

/// A command is named by exactly one text: an ASCII text names `c`, in any
/// mix of cases, exactly when its upper-case form is `c`'s name.
pub proof fn law_command_names_ignore_case(c: Command, s: Seq<char>)
    ensures
        (command_named(ascii_uppercase(s)) == Some(c)) <==> ascii_uppercase(s) == command_name(c),
{
    lemma_name_round_trip(c);
}

} // verus!
