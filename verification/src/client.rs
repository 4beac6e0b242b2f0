//! The command-line front end: what the program does with its arguments, and
//! what the interactive client does with each line typed. Reading, printing
//! and the socket stay outside this library.

use vstd::prelude::*;

use crate::parser::{parse, parse_command, ParsedCommand};
use crate::protocol::{Command, DEFAULT_DATA_FILE, DEFAULT_PORT, DEFAULT_WEB_PORT};
use crate::server::{has_local_flag, local_flag, ServerMode};
use crate::text::{chars_of, parse_unsigned, parse_unsigned_range, push_str, str_eq, string_from_range};

verus! {

/// `s` without any trailing `c` (`str::trim_end_matches` with one character).
pub open spec fn strip_trailing(s: Seq<char>, c: char) -> Seq<char>
    decreases s.len(),
{
    if s.len() > 0 && s.last() == c {
        strip_trailing(s.drop_last(), c)
    } else {
        s
    }
}

/// The request sent for a typed line: trailing `\n`, then trailing `\r`, removed.
pub open spec fn request_text(input: Seq<char>) -> Seq<char> {
    strip_trailing(strip_trailing(input, '\n'), '\r')
}

/// What the client does with a typed line.
pub enum ClientStep {
    /// Print this line; nothing is sent.
    Show(String),
    /// Send `request` (then a line end) and print the reply; after an `EXIT`
    /// the client stops. `command` is the parsed line.
    Send { request: String, command: ParsedCommand },
}

/// End of `v[0..hi]` once trailing `c` characters are removed.
fn strip_index(v: &Vec<char>, hi: usize, c: char) -> (r: usize)
    requires
        hi <= v.len(),
    ensures
        r <= hi,
        v@.subrange(0, r as int) == strip_trailing(v@.subrange(0, hi as int), c),
{
    let mut i = hi;
    while i > 0 && v[i - 1] == c
        invariant
            i <= hi <= v.len(),
            strip_trailing(v@.subrange(0, hi as int), c) == strip_trailing(
                v@.subrange(0, i as int),
                c,
            ),
        decreases i,
    {
        assert(v@.subrange(0, i as int).drop_last() == v@.subrange(0, i - 1));
        i = i - 1;
    }
    i
}

/// Decides what to do with a typed line: a line that does not parse is shown
/// as `ERROR <why>`; any other is sent as typed, without its line end.
pub fn next_step(input: &str) -> (r: ClientStep)
    ensures
        match parse(input@) {
            Err(m) => r matches ClientStep::Show(t) && t@ == "ERROR "@ + m,
            Ok(p) => r matches ClientStep::Send { request, command } && request@ == request_text(
                input@,
            ) && command@ == p,
        },
{
    match parse_command(input) {
        Err(e) => ClientStep::Show(e.to_string()),
        Ok(command) => {
            let v = chars_of(input);
            assert(v@.subrange(0, v@.len() as int) == v@);
            let a = strip_index(&v, v.len(), '\n');
            let b = strip_index(&v, a, '\r');
            ClientStep::Send { request: string_from_range(&v, 0, b), command }
        },
    }
}

/// Whether the client stops after this command's reply.
pub fn ends_session(command: &ParsedCommand) -> (r: bool)
    ensures
        r == (command.command == Command::Exit),
{
    command.command == Command::Exit
}

/// What the program was asked to do.
#[derive(Debug, Clone, Copy, PartialEq, Eq, Structural)]
pub enum Launch {
    /// `server [--local]`.
    Server(ServerMode),
    /// `client [--local]`.
    Client { local: bool },
    /// `--version` or `-V`.
    Version,
    /// Anything else.
    Help,
}

/// What the program does for its arguments (`args[0]` is the program's name):
/// `server` runs the server, locally when `--local` follows; `client` runs the
/// client, locally when `--local` is given anywhere; `--version` and `-V` show
/// the version; anything else shows the help.
pub open spec fn launch_for(args: Seq<String>) -> Launch {
    if args.len() <= 1 {
        Launch::Help
    } else if args[1]@ == "server"@ {
        Launch::Server(
            if local_flag(args, 2) {
                ServerMode::Local
            } else {
                ServerMode::Network
            },
        )
    } else if args[1]@ == "client"@ {
        Launch::Client { local: local_flag(args, 0) }
    } else if args[1]@ == "--version"@ || args[1]@ == "-V"@ {
        Launch::Version
    } else {
        Launch::Help
    }
}

/// Decides what the program does for its arguments.
pub fn launch(args: &Vec<String>) -> (r: Launch)
    ensures
        r == launch_for(args@),
{
    if args.len() <= 1 {
        return Launch::Help;
    }
    let first = args[1].as_str();
    if str_eq(first, "server") {
        if has_local_flag(args, 2) {
            Launch::Server(ServerMode::Local)
        } else {
            Launch::Server(ServerMode::Network)
        }
    } else if str_eq(first, "client") {
        Launch::Client { local: has_local_flag(args, 0) }
    } else if str_eq(first, "--version") || str_eq(first, "-V") {
        Launch::Version
    } else {
        Launch::Help
    }
}

/// Where the server listens and keeps its log.
pub struct ServerConfig {
    /// Port of the command protocol.
    pub port: u16,
    /// Port of the web page; 0 turns the page off.
    pub web_port: u16,
    /// The log file.
    pub data_file: String,
}

pub struct ConfigView {
    pub port: u16,
    pub web_port: u16,
    pub data_file: Seq<char>,
}

impl View for ServerConfig {
    type V = ConfigView;

    open spec fn view(&self) -> ConfigView {
        ConfigView { port: self.port, web_port: self.web_port, data_file: self.data_file@ }
    }
}

pub open spec fn default_config() -> ConfigView {
    ConfigView { port: DEFAULT_PORT, web_port: DEFAULT_WEB_PORT, data_file: DEFAULT_DATA_FILE@ }
}

/// A port number written in decimal.
pub open spec fn port_value(s: Seq<char>) -> Option<u16> {
    match parse_unsigned(s, u16::MAX as nat) {
        Some(n) => Some(n as u16),
        None => None,
    }
}

/// An option that takes a value.
pub open spec fn takes_value(a: Seq<char>) -> bool {
    a == "--port"@ || a == "--web-port"@ || a == "--data"@
}

/// The configuration given by `args[i..]` on top of `c`: `--port <n>`,
/// `--web-port <n>` (0 turns the page off) and `--data <file>` set their value,
/// the last one given winning; other arguments, `--local` among them, are
/// passed over. An option without a value, or a port that is not a number up
/// to 65535, is an error.
pub open spec fn options_from(args: Seq<String>, i: int, c: ConfigView) -> Result<ConfigView, Seq<char>>
    decreases args.len() - i,
{
    if i < 0 || i >= args.len() {
        Ok(c)
    } else if !takes_value(args[i]@) {
        options_from(args, i + 1, c)
    } else if i + 1 >= args.len() {
        Err("参数 "@ + args[i]@ + " 缺少取值"@)
    } else if args[i]@ == "--data"@ {
        options_from(args, i + 2, ConfigView { data_file: args[i + 1]@, ..c })
    } else {
        match port_value(args[i + 1]@) {
            None => Err("参数 "@ + args[i]@ + " 的取值不是端口号: "@ + args[i + 1]@),
            Some(p) => if args[i]@ == "--port"@ {
                options_from(args, i + 2, ConfigView { port: p, ..c })
            } else {
                options_from(args, i + 2, ConfigView { web_port: p, ..c })
            },
        }
    }
}

fn option_error(name: &str, tail: &str, value: Option<&str>) -> (r: String)
    ensures
        r@ == "参数 "@ + name@ + tail@ + match value {
            Some(v) => v@,
            None => Seq::empty(),
        },
{
    let mut s = String::from_str("参数 ");
    push_str(&mut s, name);
    push_str(&mut s, tail);
    match value {
        Some(v) => push_str(&mut s, v),
        None => {},
    }
    s
}

/// The server's configuration from the arguments at positions `from` on,
/// starting from the defaults (port 7878, web page on 8080, `data/kv.log`).
pub fn server_config(args: &Vec<String>, from: usize) -> (r: Result<ServerConfig, String>)
    ensures
        match options_from(args@, from as int, default_config()) {
            Ok(c) => r matches Ok(got) && got@ == c,
            Err(m) => r matches Err(e) && e@ == m,
        },
{
    let mut config = ServerConfig {
        port: DEFAULT_PORT,
        web_port: DEFAULT_WEB_PORT,
        data_file: String::from_str(DEFAULT_DATA_FILE),
    };
    let mut i = from;
    while i < args.len()
        invariant
            from <= i,
            options_from(args@, from as int, default_config()) == options_from(
                args@,
                i as int,
                config@,
            ),
        decreases args.len() - i,
    {
        let a = args[i].as_str();
        let wants = str_eq(a, "--port") || str_eq(a, "--web-port") || str_eq(a, "--data");
        if !wants {
            i = i + 1;
        } else if i + 1 >= args.len() {
            return Err(option_error(a, " 缺少取值", None));
        } else if str_eq(a, "--data") {
            config.data_file = String::from_str(args[i + 1].as_str());
            i = i + 2;
        } else {
            let v = chars_of(args[i + 1].as_str());
            assert(v@.subrange(0, v@.len() as int) == v@);
            match parse_unsigned_range(&v, 0, v.len(), 65535) {
                None => {
                    return Err(option_error(a, " 的取值不是端口号: ", Some(args[i + 1].as_str())));
                },
                Some(n) => {
                    if str_eq(a, "--port") {
                        config.port = n as u16;
                    } else {
                        config.web_port = n as u16;
                    }
                    i = i + 2;
                },
            }
        }
    }
    Ok(config)
}

} // verus!

verus! {

/// `name` does not appear among `args[i..]`.
pub open spec fn absent_from(args: Seq<String>, i: int, name: Seq<char>) -> bool {
    forall|j: int| i <= j < args.len() ==> #[trigger] args[j]@ != name
}

/// Each option sets only its own setting: a setting whose option is not given
/// keeps the value it had (the defaults, for `server_config`).
pub proof fn law_options_set_only_their_own_setting(args: Seq<String>, i: int, c: ConfigView)
    requires
        i >= 0,
        options_from(args, i, c) is Ok,
    ensures
        absent_from(args, i, "--port"@) ==> options_from(args, i, c)->Ok_0.port == c.port,
        absent_from(args, i, "--web-port"@) ==> options_from(args, i, c)->Ok_0.web_port
            == c.web_port,
        absent_from(args, i, "--data"@) ==> options_from(args, i, c)->Ok_0.data_file
            == c.data_file,
    decreases args.len() - i,
{
    if i < args.len() {
        if !takes_value(args[i]@) {
            law_options_set_only_their_own_setting(args, i + 1, c);
        } else if i + 1 < args.len() {
            let a = args[i]@;
            let next = if a == "--data"@ {
                ConfigView { data_file: args[i + 1]@, ..c }
            } else if a == "--port"@ {
                ConfigView { port: port_value(args[i + 1]@).unwrap(), ..c }
            } else {
                ConfigView { web_port: port_value(args[i + 1]@).unwrap(), ..c }
            };
            assert(options_from(args, i, c) == options_from(args, i + 2, next));
            law_options_set_only_their_own_setting(args, i + 2, next);
        }
    }
}

} // verus!
