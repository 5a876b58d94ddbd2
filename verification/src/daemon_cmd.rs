//! Decisions of the `daemon` subcommands: which action a command stands for,
//! and the texts that `status`, `stop` and `logs` show.
use vstd::prelude::*;
use vstd::string::StringExecFns;

use crate::text::{decimal, decimal_string, lines, strings_view, text_lines, trim, trim_ws};

verus! {

/// The subcommands of `wx daemon`.
pub enum DaemonCommands {
    Status,
    Stop,
    Logs { follow: bool, lines: usize },
    Start { tcp: Option<String> },
}

/// What a `wx daemon` subcommand does, with the TCP address it acts on.
pub enum DaemonAction {
    /// Report whether the daemon runs.
    Status { tcp_addr: Option<String> },
    /// Stop the daemon.
    Stop { tcp_addr: Option<String> },
    /// Show (and with `follow`, keep showing) the last `lines` lines of the log.
    Logs { follow: bool, lines: usize },
    /// Start the daemon, on TCP at `tcp` when given.
    Start { tcp: Option<String> },
}

pub open spec fn opt_string_view(o: Option<String>) -> Option<Seq<char>> {
    match o {
        Some(s) => Some(s@),
        None => None,
    }
}

pub open spec fn opt_str_view(o: Option<&str>) -> Option<Seq<char>> {
    match o {
        Some(s) => Some(s@),
        None => None,
    }
}

fn to_owned_opt(o: Option<&str>) -> (r: Option<String>)
    ensures
        opt_string_view(r) == opt_str_view(o),
{
    match o {
        Some(s) => Some(String::from_str(s)),
        None => None,
    }
}

/// The action of a `wx daemon` subcommand, given the global `--tcp` address:
/// `start` uses its own `--tcp` when given, else the global one.
pub fn cmd_daemon(cmd: DaemonCommands, tcp_addr: Option<&str>) -> (r: DaemonAction)
    ensures
        match cmd {
            DaemonCommands::Status => r matches DaemonAction::Status { tcp_addr: t }
                && opt_string_view(t) == opt_str_view(tcp_addr),
            DaemonCommands::Stop => r matches DaemonAction::Stop { tcp_addr: t } && opt_string_view(
                t,
            ) == opt_str_view(tcp_addr),
            DaemonCommands::Logs { follow, lines } => r matches DaemonAction::Logs {
                follow: f,
                lines: n,
            } && f == follow && n == lines,
            DaemonCommands::Start { tcp } => r matches DaemonAction::Start { tcp: t }
                && opt_string_view(t) == (match tcp {
                Some(own) => Some(own@),
                None => opt_str_view(tcp_addr),
            }),
        },
{
    match cmd {
        DaemonCommands::Status => DaemonAction::Status { tcp_addr: to_owned_opt(tcp_addr) },
        DaemonCommands::Stop => DaemonAction::Stop { tcp_addr: to_owned_opt(tcp_addr) },
        DaemonCommands::Logs { follow, lines } => DaemonAction::Logs { follow, lines },
        DaemonCommands::Start { tcp } => {
            let t = match tcp {
                Some(own) => Some(own),
                None => to_owned_opt(tcp_addr),
            };
            DaemonAction::Start { tcp: t }
        },
    }
}

// ---------------------------------------------------------------------
// status
// ---------------------------------------------------------------------

/// What serde_json reads as field `key` of a text: the field's value when
/// the text is a JSON object whose field `key` is an integer that fits in a
/// `u64`.
pub uninterp spec fn json_u64_field(text: Seq<char>, key: Seq<char>) -> Option<u64>;

/// Reads field `key` of a JSON text as a `u64`.
/// Trusted: parses `text` with `serde_json::from_str::<serde_json::Value>`,
/// picks the field with `Value::get(key)` and converts it with
/// `Value::as_u64`. The contract only names the result: it depends on the
/// text and the key alone (serde_json holds no state between calls); what
/// the parse accepts is left to serde_json.
#[verifier::external_body]
fn json_field_u64(text: &str, key: &str) -> (r: Option<u64>)
    ensures
        r == json_u64_field(text@, key@),
{
    match serde_json::from_str::<serde_json::Value>(text) {
        Ok(v) => match v.get(key) {
            Some(f) => f.as_u64(),
            None => None,
        },
        Err(_) => None,
    }
}

/// The pid shown for the contents of the pid file, given what the JSON read
/// of them gave: that number, or else the contents trimmed.
pub open spec fn pid_text(contents: Seq<char>, parsed: Option<u64>) -> Seq<char> {
    match parsed {
        Some(p) => decimal(p as nat),
        None => trim_ws(contents),
    }
}

/// The pid shown for the contents of the pid file, given what the JSON read
/// of them gave.
pub fn pid_label_from(contents: &str, parsed: Option<u64>) -> (r: String)
    ensures
        r@ == pid_text(contents@, parsed),
{
    match parsed {
        Some(p) => decimal_string(p),
        None => trim(contents),
    }
}

/// The pid shown by `status`: `?` when the pid file could not be read
/// (`contents` is `None`), else the file's `pid` JSON field, or else its
/// trimmed contents.
pub fn pid_label(contents: Option<&str>) -> (r: String)
    ensures
        r@ == match contents {
            None => "?"@,
            Some(c) => pid_text(c@, json_u64_field(c@, "pid"@)),
        },
{
    match contents {
        None => String::from_str("?"),
        Some(c) => {
            let parsed = json_field_u64(c, "pid");
            pid_label_from(c, parsed)
        },
    }
}

/// The line `status` prints: `running_pid` is the pid shown when the daemon
/// runs, `None` when it does not.
pub fn status_line(tcp_addr: Option<&str>, running_pid: Option<&str>) -> (r: String)
    ensures
        r@ == match running_pid {
            None => "wx-daemon 未运行"@,
            Some(pid) => match tcp_addr {
                Some(addr) => "wx-daemon 运行中 (TCP "@ + addr@ + ")"@,
                None => "wx-daemon 运行中 (PID "@ + pid@ + ")"@,
            },
        },
{
    match running_pid {
        None => String::from_str("wx-daemon 未运行"),
        Some(pid) => match tcp_addr {
            Some(addr) => {
                let mut r = String::from_str("wx-daemon 运行中 (TCP ");
                r.append(addr);
                r.append(")");
                r
            },
            None => {
                let mut r = String::from_str("wx-daemon 运行中 (PID ");
                r.append(pid);
                r.append(")");
                r
            },
        },
    }
}

// ---------------------------------------------------------------------
// stop
// ---------------------------------------------------------------------

/// `stop` with a TCP address does not stop anything: the TCP daemon is a
/// process of its own. Gives the warning printed then, `None` without one.
pub fn stop_tcp_warning(tcp_addr: Option<&str>) -> (r: Option<String>)
    ensures
        match tcp_addr {
            None => r is None,
            Some(addr) => r matches Some(w) && w@ == "⚠ TCP daemon ("@ + addr@
                + ") 是一个独立进程，无法通过 `wx daemon stop` 停止。\n请手动关闭该进程（例如 kill / taskkill PID）。"@,
        },
{
    match tcp_addr {
        None => None,
        Some(addr) => {
            let mut w = String::from_str("⚠ TCP daemon (");
            w.append(addr);
            w.append(") 是一个独立进程，无法通过 `wx daemon stop` 停止。\n请手动关闭该进程（例如 kill / taskkill PID）。");
            Some(w)
        },
    }
}

// ---------------------------------------------------------------------
// logs
// ---------------------------------------------------------------------

/// The last `n` lines of a text (all of them when it has fewer).
pub open spec fn last_n<T>(s: Seq<T>, n: int) -> Seq<T> {
    if s.len() > n {
        s.skip(s.len() - n)
    } else {
        s
    }
}

/// The last `n` lines of the log's contents, as `logs` shows them.
pub fn last_lines(content: &str, n: usize) -> (r: Vec<String>)
    ensures
        strings_view(r@) == last_n(text_lines(content@), n as int),
        ({
            let ls = text_lines(content@);
            let m = if ls.len() < n {
                ls.len() as int
            } else {
                n as int
            };
            &&& r@.len() == m
            &&& forall|j: int| 0 <= j < m ==> (#[trigger] r@[j])@ == ls[ls.len() - m + j]
        }),
{
    let all = lines(content);
    let len = all.len();
    let start = if len > n {
        len - n
    } else {
        0
    };
    let mut r: Vec<String> = Vec::new();
    let mut k = start;
    let ghost view = strings_view(all@);
    while k < len
        invariant
            start <= k <= len,
            len == all@.len(),
            view == strings_view(all@),
            strings_view(r@) == view.subrange(start as int, k as int),
        decreases len - k,
    {
        let ghost before = strings_view(r@);
        let line = all[k].clone();
        r.push(line);
        assert(strings_view(r@) =~= before.push(line@));
        assert(view.subrange(start as int, k + 1) =~= view.subrange(start as int, k as int).push(
            view[k as int],
        ));
        k = k + 1;
    }
    assert(view.subrange(start as int, len as int) =~= last_n(view, n as int));
    proof {
        law_last_n(view, n as int);
        assert forall|j: int| 0 <= j < r@.len() implies (#[trigger] r@[j])@ == strings_view(r@)[j] by {}
    }
    r
}

/// The last `n` lines are `min(n, L)` lines of the `L` given, the final ones
/// in order: never more than `n`, and all of them when there are fewer.
pub proof fn law_last_n<T>(s: Seq<T>, n: int)
    requires
        n >= 0,
    ensures
        ({
            let m = if s.len() < n {
                s.len() as int
            } else {
                n
            };
            &&& last_n(s, n).len() == m
            &&& forall|j: int| 0 <= j < m ==> #[trigger] last_n(s, n)[j] == s[s.len() - m + j]
        }),
{
}

/// Arguments of `tail` for following the log: `-<n>`, `-f`, the path.
pub fn tail_args(n: usize, path: &str) -> (r: Vec<String>)
    ensures
        strings_view(r@) == seq!["-"@ + decimal(n as nat), "-f"@, path@],
{
    let mut count = String::from_str("-");
    count.append(decimal_string(n as u64).as_str());
    let mut r: Vec<String> = Vec::new();
    r.push(count);
    r.push(String::from_str("-f"));
    r.push(String::from_str(path));
    assert(strings_view(r@) =~= seq!["-"@ + decimal(n as nat), "-f"@, path@]);
    r
}

/// Where following the log starts reading when `tail` is not at hand: about
/// 200 bytes per wanted line before the end of a log of `len` bytes.
pub fn follow_start(len: u64, n: usize) -> (r: u64)
    requires
        n * 200 <= u64::MAX,
    ensures
        r == if len >= n * 200 {
            len - n * 200
        } else {
            0
        },
{
    let back: u64 = (n as u64) * 200;
    if len >= back {
        len - back
    } else {
        0
    }
}

} // verus!
