//! Decisions and messages of the command-line commands that do not belong
//! to one of the other modules: what the bare arguments ask for, the help
//! and status texts, how a new session is laid out, and what `capture` and
//! `context` show by default.
use vstd::prelude::*;
use crate::error::{ErrorKind, HitchError};
use crate::paths::{join, path_join};
use crate::session::SessionRecord;
use crate::style::{painted, Style, DIM, GREEN};
use crate::text::{chars_of, decimal, push_decimal, push_str, str_is, str_views, string_of};

verus! {

// ---------------------------------------------------------------------------
// Bare top-level flags
// ---------------------------------------------------------------------------

/// The only argument (after the program name), when there is exactly one
/// and it is valid Unicode.
pub open spec fn only_arg(args: Seq<Option<String>>) -> Option<Seq<char>> {
    if args.len() == 1 {
        match args[0] {
            Some(a) => Some(a@),
            None => None,
        }
    } else {
        None
    }
}

fn only_arg_exec(args: &[Option<String>]) -> (r: Option<&String>)
    ensures
        r matches Some(a) ==> only_arg(args@) == Some(a@),
        r is None ==> only_arg(args@) is None,
{
    if args.len() != 1 {
        return None;
    }
    match &args[0] {
        Some(a) => Some(a),
        None => None,
    }
}

/// `hitch --skill` alone.
pub fn top_level_skill_requested(args: &[Option<String>]) -> (r: bool)
    ensures
        r == (only_arg(args@) == Some("--skill"@)),
{
    match only_arg_exec(args) {
        Some(a) => str_is(a.as_str(), "--skill"),
        None => false,
    }
}

/// `hitch -h`, `hitch --help` or `hitch help` alone.
pub fn top_level_help_requested(args: &[Option<String>]) -> (r: bool)
    ensures
        r == (only_arg(args@) == Some("-h"@) || only_arg(args@) == Some("--help"@) || only_arg(args@)
            == Some("help"@)),
{
    match only_arg_exec(args) {
        Some(a) => str_is(a.as_str(), "-h") || str_is(a.as_str(), "--help") || str_is(
            a.as_str(),
            "help",
        ),
        None => false,
    }
}

/// `hitch -v`, `hitch -V` or `hitch --version` alone.
pub fn top_level_version_requested(args: &[Option<String>]) -> (r: bool)
    ensures
        r == (only_arg(args@) == Some("-v"@) || only_arg(args@) == Some("-V"@) || only_arg(args@)
            == Some("--version"@)),
{
    match only_arg_exec(args) {
        Some(a) => str_is(a.as_str(), "-v") || str_is(a.as_str(), "-V") || str_is(
            a.as_str(),
            "--version",
        ),
        None => false,
    }
}

/// `hitch <version>`.
pub fn version_line(version: &str) -> (r: String)
    ensures
        r@ == "hitch "@ + version@,
{
    let mut v: Vec<char> = Vec::new();
    push_str(&mut v, "hitch ");
    push_str(&mut v, version);
    string_of(v.as_slice())
}

/// The top-level help.
pub const TOP_LEVEL_HELP: &'static str = "Usage: hitch [COMMAND]

User commands:
  on           Share this terminal with agents
  off          Stop sharing this terminal
  status       Show whether this terminal is being shared
  setup        Run setup wizard or install shell integration / agent skill

Agent commands:
  context      Show shared terminals and compact context
  capture      Print a faithful terminal transcript
  send-keys    Send input to a shared terminal
  kill         Kill a shared terminal

Other commands:
  help         Print help for a command

Options:
      --skill    Print agent instructions
  -h, --help     Print help
  -v, --version  Print version

For agent: run `hitch context` before starting dev servers, watchers, tunnels, REPLs, or log tails. Use `hitch --skill` to learn how to use hitch.
";

pub fn top_level_help() -> (r: &'static str)
    ensures
        r@ == TOP_LEVEL_HELP@,
{
    TOP_LEVEL_HELP
}

// ---------------------------------------------------------------------------
// Status and stopping
// ---------------------------------------------------------------------------

/// `not sharing this terminal, run `hitch``.
pub fn not_sharing_line(style: Style) -> (r: String)
    ensures
        r@ == "not sharing this terminal, run `"@ + painted(style.enabled, "hitch"@, GREEN@) + "`"@,
{
    let mut v: Vec<char> = Vec::new();
    push_str(&mut v, "not sharing this terminal, run `");
    push_str(&mut v, style.brand().as_str());
    push_str(&mut v, "`");
    string_of(v.as_slice())
}

/// What `hitch status` prints for the terminal's session (the value of
/// `HITCH_SESSION`) and, with `--debug`, its socket.
pub open spec fn status_text(e: bool, session: Option<Seq<char>>, socket: Option<Seq<char>>, debug: bool) -> Seq<
    Seq<char>,
> {
    match session {
        None => seq!["not sharing this terminal, run `"@ + painted(e, "hitch"@, GREEN@) + "`"@],
        Some(id) => {
            let first = seq!["sharing this terminal as "@ + painted(e, id, GREEN@)];
            if debug && socket is Some {
                first.push("socket "@ + socket->0)
            } else {
                first
            }
        },
    }
}

pub fn status_lines(style: Style, session: Option<&str>, socket: Option<&str>, debug: bool) -> (r: Vec<
    String,
>)
    ensures
        str_views(r@) == status_text(style.enabled, match session {
            Some(s) => Some(s@),
            None => None,
        }, match socket {
            Some(s) => Some(s@),
            None => None,
        }, debug),
{
    let mut out: Vec<String> = Vec::new();
    match session {
        None => {
            out.push(not_sharing_line(style));
        },
        Some(id) => {
            let mut v: Vec<char> = Vec::new();
            push_str(&mut v, "sharing this terminal as ");
            push_str(&mut v, style.id(id).as_str());
            out.push(string_of(v.as_slice()));
            if debug {
                if let Some(sock) = socket {
                    let mut w: Vec<char> = Vec::new();
                    push_str(&mut w, "socket ");
                    push_str(&mut w, sock);
                    out.push(string_of(w.as_slice()));
                }
            }
        },
    }
    proof {
        assert(str_views(out@) =~= status_text(style.enabled, match session {
            Some(s) => Some(s@),
            None => None,
        }, match socket {
            Some(s) => Some(s@),
            None => None,
        }, debug));
    }
    out
}

// ---------------------------------------------------------------------------
// Starting a session
// ---------------------------------------------------------------------------

/// A terminal that is already shared cannot share again: `AlreadyExists`.
pub fn check_not_sharing(session_env: Option<&str>) -> (r: Result<(), HitchError>)
    ensures
        r is Ok <==> session_env is None,
        r matches Err(e) ==> session_env matches Some(s) && e.kind == ErrorKind::AlreadyExists
            && e.message@ == "already sharing terminal "@ + s@,
{
    match session_env {
        None => Ok(()),
        Some(s) => {
            let mut v: Vec<char> = Vec::new();
            push_str(&mut v, "already sharing terminal ");
            push_str(&mut v, s);
            Err(HitchError::with_message(ErrorKind::AlreadyExists, string_of(v.as_slice())))
        },
    }
}

/// The shell a session runs: `SHELL`, else `/bin/zsh`.
pub fn session_shell(shell_env: Option<&str>) -> (r: String)
    ensures
        r@ == (match shell_env {
            Some(s) => s@,
            None => "/bin/zsh"@,
        }),
{
    match shell_env {
        Some(s) => string_of(chars_of(s).as_slice()),
        None => string_of(chars_of("/bin/zsh").as_slice()),
    }
}

/// The record of a new session whose files live in `dir`.
pub fn new_session_record(id: &str, cwd: &str, dir: &str, created_at: u64, shell: &str) -> (r:
    SessionRecord)
    ensures
        r.id@ == id@,
        r.cwd@ == cwd@,
        r.socket@ == join(dir@, "session.sock"@),
        r.log@ == join(dir@, "output.log"@),
        r.pid_file@ == join(dir@, "child.pid"@),
        r.master_pid_file@ == join(dir@, "master.pid"@),
        r.created_at@ == decimal(created_at as nat),
        r.shell@ == shell@,
{
    let mut t: Vec<char> = Vec::new();
    push_decimal(&mut t, created_at as u128);
    SessionRecord {
        id: string_of(chars_of(id).as_slice()),
        cwd: string_of(chars_of(cwd).as_slice()),
        socket: path_join(dir, "session.sock"),
        log: path_join(dir, "output.log"),
        pid_file: path_join(dir, "child.pid"),
        master_pid_file: path_join(dir, "master.pid"),
        created_at: string_of(t.as_slice()),
        shell: string_of(chars_of(shell).as_slice()),
    }
}

/// `hitch sharing terminal <id> (Ctrl-\ to stop)`.
pub open spec fn sharing_text(e: bool, id: Seq<char>) -> Seq<char> {
    painted(e, "hitch"@, GREEN@) + " sharing terminal "@ + painted(e, id, GREEN@) + " "@ + painted(
        e,
        "(Ctrl-\\ to stop)"@,
        DIM@,
    )
}

pub fn sharing_banner(style: Style, id: &str) -> (r: String)
    ensures
        r@ == sharing_text(style.enabled, id@),
{
    let mut v: Vec<char> = Vec::new();
    push_str(&mut v, style.brand().as_str());
    push_str(&mut v, " sharing terminal ");
    push_str(&mut v, style.id(id).as_str());
    push_str(&mut v, " ");
    push_str(&mut v, style.muted("(Ctrl-\\ to stop)").as_str());
    string_of(v.as_slice())
}

/// `[hitch stopped sharing <id>]`, dimmed.
pub fn stopped_message(style: Style, id: &str) -> (r: String)
    ensures
        r@ == painted(style.enabled, "[hitch stopped sharing "@ + id@ + "]"@, DIM@),
{
    let mut v: Vec<char> = Vec::new();
    push_str(&mut v, "[hitch stopped sharing ");
    push_str(&mut v, id);
    push_str(&mut v, "]");
    let m = string_of(v.as_slice());
    style.muted(m.as_str())
}

// ---------------------------------------------------------------------------
// Reading the end of a log
// ---------------------------------------------------------------------------

/// Where reading the last `limit` bytes of a `len`-byte file starts.
pub fn tail_start(len: u64, limit: u64) -> (r: u64)
    ensures
        r == (if len > limit {
            len - limit
        } else {
            0
        }),
{
    if len > limit {
        len - limit
    } else {
        0
    }
}

/// Bytes read from the middle of a log start with the rest of a line: it is
/// dropped, up to and including the first newline.
pub open spec fn without_partial_line(bytes: Seq<u8>, from_middle: bool) -> Seq<u8> {
    if from_middle && exists|i: int| 0 <= i < bytes.len() && bytes[i] == 10u8 {
        let k = choose|i: int| 0 <= i < bytes.len() && bytes[i] == 10u8 && forall|j: int| 0 <= j < i ==> bytes[j] != 10u8;
        bytes.subrange(k + 1, bytes.len() as int)
    } else {
        bytes
    }
}

pub fn drop_partial_line(bytes: Vec<u8>, from_middle: bool) -> (r: Vec<u8>)
    ensures
        r@ == without_partial_line(bytes@, from_middle),
{
    if !from_middle {
        return bytes;
    }
    let n = bytes.len();
    let mut i: usize = 0;
    while i < n && bytes[i] != 10u8
        invariant
            n == bytes@.len(),
            i <= n,
            forall|j: int| 0 <= j < i ==> bytes@[j] != 10u8,
        decreases n - i,
    {
        i = i + 1;
    }
    if i == n {
        return bytes;
    }
    proof {
        let k = choose|k: int| 0 <= k < bytes@.len() && bytes@[k] == 10u8 && forall|j: int| 0 <= j < k ==> bytes@[j] != 10u8;
        if k < i {
            assert(bytes@[k] != 10u8);
        }
        if k > i {
            assert(bytes@[i as int] == 10u8);
        }
        assert(k == i);
    }
    let mut out: Vec<u8> = Vec::new();
    let mut j = i + 1;
    while j < n
        invariant
            n == bytes@.len(),
            i < n,
            i + 1 <= j <= n,
            out@ == bytes@.subrange(i + 1, j as int),
        decreases n - j,
    {
        out.push(bytes[j]);
        j = j + 1;
        assert(out@ =~= bytes@.subrange(i + 1, j as int));
    }
    out
}

/// What is written to the terminal before the live output when joining a
/// session: the recent history, ending with a line break.
pub fn attach_history(history: &[u8]) -> (r: Vec<u8>)
    ensures
        r@ == (if history@.len() > 0 && history@.last() != 10u8 {
            history@ + seq![13u8, 10u8]
        } else {
            history@
        }),
{
    let mut out: Vec<u8> = Vec::new();
    crate::filters::extend(&mut out, history);
    assert(out@ =~= history@);
    if history.len() > 0 && history[history.len() - 1] != 10u8 {
        out.push(13u8);
        out.push(10u8);
        assert(out@ =~= history@ + seq![13u8, 10u8]);
    }
    out
}

/// A window size is passed on only when it has rows and columns.
pub fn usable_winsize(rows: u16, cols: u16) -> (r: bool)
    ensures
        r == (rows > 0 && cols > 0),
{
    rows > 0 && cols > 0
}

// ---------------------------------------------------------------------------
// `context` and `capture`
// ---------------------------------------------------------------------------

/// Lines of the running command's output shown by `context` (all sessions).
pub const ACTIVE_COMMAND_HEAD_LINES: usize = 5;

/// Recent lines shown by `context` (all sessions).
pub const CONTEXT_TAIL_LINES: usize = 20;

/// Lines of the running command's output shown by `context <terminal>`.
pub const CONTEXT_SINGLE_HEAD_LINES: usize = 10;

/// Recent lines shown by `context <terminal>`.
pub const CONTEXT_SINGLE_TAIL_LINES: usize = 80;

/// The head and tail line counts of `context`: the options, else the
/// defaults for one session or for all.
pub fn context_limits(single: bool, head: Option<usize>, tail: Option<usize>) -> (r: (usize, usize))
    ensures
        r.0 == (match head {
            Some(h) => h,
            None => if single {
                CONTEXT_SINGLE_HEAD_LINES
            } else {
                ACTIVE_COMMAND_HEAD_LINES
            },
        }),
        r.1 == (match tail {
            Some(t) => t,
            None => if single {
                CONTEXT_SINGLE_TAIL_LINES
            } else {
                CONTEXT_TAIL_LINES
            },
        }),
{
    let h = match head {
        Some(h) => h,
        None => if single {
            CONTEXT_SINGLE_HEAD_LINES
        } else {
            ACTIVE_COMMAND_HEAD_LINES
        },
    };
    let t = match tail {
        Some(t) => t,
        None => if single {
            CONTEXT_SINGLE_TAIL_LINES
        } else {
            CONTEXT_TAIL_LINES
        },
    };
    (h, t)
}

/// Which sessions `context` shows: those of a given directory, of the
/// working directory, or all.
#[derive(Debug, Clone, Copy, PartialEq, Eq, Structural)]
pub enum DirFilter {
    Given,
    WorkingDir,
    All,
}

pub fn context_dir_filter(dir_given: bool, all: bool) -> (r: DirFilter)
    ensures
        r == (if dir_given {
            DirFilter::Given
        } else if all {
            DirFilter::All
        } else {
            DirFilter::WorkingDir
        }),
{
    if dir_given {
        DirFilter::Given
    } else if all {
        DirFilter::All
    } else {
        DirFilter::WorkingDir
    }
}

/// What `capture` prints: a range of lines, the last lines, or the whole
/// transcript; raw or rendered.
#[derive(Debug, Clone, Copy, PartialEq, Eq, Structural)]
pub enum CaptureMode {
    Range { start: isize, end: Option<isize> },
    Tail(usize),
    Whole,
}

pub fn capture_mode(start: Option<isize>, end: Option<isize>, tail: Option<usize>) -> (r: CaptureMode)
    ensures
        r == (match start {
            Some(s) => CaptureMode::Range { start: s, end },
            None => match tail {
                Some(t) => CaptureMode::Tail(t),
                None => CaptureMode::Whole,
            },
        }),
{
    match start {
        Some(s) => CaptureMode::Range { start: s, end },
        None => match tail {
            Some(t) => CaptureMode::Tail(t),
            None => CaptureMode::Whole,
        },
    }
}

/// `capture` shows the raw log with `--raw` or `-e`.
pub fn capture_raw(raw: bool, escapes: bool) -> (r: bool)
    ensures
        r == (raw || escapes),
{
    raw || escapes
}

/// The process ids signalled by `kill`: the master's, then the shell's,
/// each when its pid file could be read.
pub fn kill_targets(master: Option<i32>, child: Option<i32>) -> (r: Vec<i32>)
    ensures
        r@ == (match master {
            Some(m) => seq![m],
            None => seq![],
        }) + (match child {
            Some(c) => seq![c],
            None => seq![],
        }),
{
    let mut out: Vec<i32> = Vec::new();
    if let Some(m) = master {
        out.push(m);
    }
    if let Some(c) = child {
        out.push(c);
    }
    assert(out@ =~= (match master {
        Some(m) => seq![m],
        None => seq![],
    }) + (match child {
        Some(c) => seq![c],
        None => seq![],
    }));
    out
}

/// A process exit: a refused `send-keys` (`WouldBlock`) exits quietly; any
/// other error is printed.
pub fn error_is_quiet(kind: ErrorKind) -> (r: bool)
    ensures
        r == (kind == ErrorKind::WouldBlock),
{
    match kind {
        ErrorKind::WouldBlock => true,
        _ => false,
    }
}

} // verus!
