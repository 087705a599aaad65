//! Sessions: where their files live, their ids, how one is found from a
//! prefix, and how their state is described to users.
use vstd::prelude::*;
use crate::error::{ErrorKind, HitchError};
use crate::paths::{join, path_join, path_starts_with, stripped_path};
use crate::text::{
    chars_of, decimal, is_space, lines, lines_of, parse_u64, parse_unsigned, push_all,
    push_decimal, push_str, slice_chars, starts_with, str_starts_with, string_of, trim, trimmed,
};
use crate::utf8::{read_text, utf8_lossy};

verus! {

// ---------------------------------------------------------------------------
// Records
// ---------------------------------------------------------------------------

/// What is stored about a session when it starts.
pub struct SessionRecord {
    pub id: String,
    pub cwd: String,
    pub socket: String,
    pub log: String,
    pub pid_file: String,
    pub master_pid_file: String,
    pub created_at: String,
    pub shell: String,
}

/// What the session's master process keeps up to date while it runs.
pub struct SessionState {
    pub active_command: Option<String>,
    pub command_running: bool,
    pub command_started_at: Option<u64>,
    pub command_finished_at: Option<u64>,
    pub last_activity_at: Option<u64>,
    pub foreground_pgrp: Option<i32>,
    pub current_dir: Option<String>,
}

impl Default for SessionState {
    fn default() -> (r: Self)
        ensures
            r.active_command is None,
            !r.command_running,
            r.command_started_at is None,
            r.command_finished_at is None,
            r.last_activity_at is None,
            r.foreground_pgrp is None,
            r.current_dir is None,
    {
        SessionState {
            active_command: None,
            command_running: false,
            command_started_at: None,
            command_finished_at: None,
            last_activity_at: None,
            foreground_pgrp: None,
            current_dir: None,
        }
    }
}

// ---------------------------------------------------------------------------
// Where things live
// ---------------------------------------------------------------------------

pub open spec fn opt_str(s: Option<&str>) -> Option<Seq<char>> {
    match s {
        Some(v) => Some(v@),
        None => None,
    }
}

/// `$XDG_STATE_HOME/hitch`, else `$HOME/.local/state/hitch` (`.` for a
/// missing `HOME`).
pub open spec fn state_dir_of(xdg: Option<Seq<char>>, home: Option<Seq<char>>) -> Seq<char> {
    match xdg {
        Some(x) => join(x, "hitch"@),
        None => match home {
            Some(h) => join(h, ".local/state/hitch"@),
            None => join(seq!['.'], ".local/state/hitch"@),
        },
    }
}

pub fn state_dir(xdg_state_home: Option<&str>, home: Option<&str>) -> (r: String)
    ensures
        r@ == state_dir_of(opt_str(xdg_state_home), opt_str(home)),
{
    proof {
        reveal_strlit(".");
    }
    match xdg_state_home {
        Some(x) => path_join(x, "hitch"),
        None => match home {
            Some(h) => path_join(h, ".local/state/hitch"),
            None => path_join(".", ".local/state/hitch"),
        },
    }
}

/// `$XDG_CACHE_HOME/hitch`, else `$HOME/.cache/hitch` (`.` for a missing
/// `HOME`).
pub open spec fn cache_dir_of(xdg: Option<Seq<char>>, home: Option<Seq<char>>) -> Seq<char> {
    match xdg {
        Some(x) => join(x, "hitch"@),
        None => match home {
            Some(h) => join(h, ".cache/hitch"@),
            None => join(seq!['.'], ".cache/hitch"@),
        },
    }
}

pub fn cache_dir(xdg_cache_home: Option<&str>, home: Option<&str>) -> (r: String)
    ensures
        r@ == cache_dir_of(opt_str(xdg_cache_home), opt_str(home)),
{
    proof {
        reveal_strlit(".");
    }
    match xdg_cache_home {
        Some(x) => path_join(x, "hitch"),
        None => match home {
            Some(h) => path_join(h, ".cache/hitch"),
            None => path_join(".", ".cache/hitch"),
        },
    }
}

/// The update cache file under the cache directory.
pub fn update_cache_path(cache_dir: &str) -> (r: String)
    ensures
        r@ == join(cache_dir@, "update.json"@),
{
    path_join(cache_dir, "update.json")
}

pub fn sessions_dir(state_dir: &str) -> (r: String)
    ensures
        r@ == join(state_dir@, "sessions"@),
{
    path_join(state_dir, "sessions")
}

/// The directory of session `id`.
pub fn session_path(state_dir: &str, id: &str) -> (r: String)
    ensures
        r@ == join(join(state_dir@, "sessions"@), id@),
{
    let s = sessions_dir(state_dir);
    path_join(s.as_str(), id)
}

/// A file inside the directory of session `id`.
pub fn session_file(state_dir: &str, id: &str, name: &str) -> (r: String)
    ensures
        r@ == join(join(join(state_dir@, "sessions"@), id@), name@),
{
    let p = session_path(state_dir, id);
    path_join(p.as_str(), name)
}

pub const SESSION_FILE: &'static str = "session.json";

pub const STATE_FILE: &'static str = "state.json";

pub const ACTIVE_OUTPUT_FILE: &'static str = "active-output.log";

pub const STOP_MARKER_FILE: &'static str = "stopped";

// ---------------------------------------------------------------------------
// Session ids
// ---------------------------------------------------------------------------

/// `s.parse::<u32>()`.
pub fn parse_u32(s: &str) -> (r: Option<u32>)
    ensures
        r matches Some(v) ==> parse_unsigned(s@, u32::MAX as nat) == Some(v as nat),
        r is None ==> parse_unsigned(s@, u32::MAX as nat) is None,
{
    let c = chars_of(s);
    match parse_u64(c.as_slice()) {
        Some(v) => if v <= u32::MAX as u64 {
            Some(v as u32)
        } else {
            None
        },
        None => None,
    }
}

/// Some session's id reads as the number `k`.
pub open spec fn id_used(ids: Seq<String>, k: nat) -> bool {
    exists|i: int| 0 <= i < ids.len() && parse_unsigned(#[trigger] ids[i]@, u32::MAX as nat) == Some(k)
}

/// The id for a new session: the smallest positive number that no existing
/// session uses. Some number up to `u32::MAX` must be free.
pub fn next_session_id(ids: &[String]) -> (r: String)
    requires
        exists|k: nat| 1 <= k <= u32::MAX && !id_used(ids@, k),
    ensures
        exists|n: nat| #![trigger decimal(n)]
            1 <= n <= u32::MAX && r@ == decimal(n) && !id_used(ids@, n) && forall|k: nat|
                1 <= k < n ==> id_used(ids@, k),
{
    let mut used: Vec<u32> = Vec::new();
    let mut i: usize = 0;
    while i < ids.len()
        invariant
            i <= ids@.len(),
            forall|j: int| 0 <= j < used@.len() ==> id_used(ids@, #[trigger] used@[j] as nat),
            forall|m: int| 0 <= m < i ==> (parse_unsigned(#[trigger] ids@[m]@, u32::MAX as nat) matches Some(v) ==> used@.contains(v as u32)),
        decreases ids@.len() - i,
    {
        let ghost old_used = used@;
        if let Some(v) = parse_u32(ids[i].as_str()) {
            used.push(v);
            proof {
                assert(used@[used@.len() - 1] == v);
                assert(parse_unsigned(ids@[i as int]@, u32::MAX as nat) == Some(v as nat));
                assert forall|m: int| 0 <= m < i + 1 implies (parse_unsigned(#[trigger] ids@[m]@, u32::MAX as nat) matches Some(w) ==> used@.contains(w as u32)) by {
                    if m < i {
                        if let Some(w) = parse_unsigned(ids@[m]@, u32::MAX as nat) {
                            assert(old_used.contains(w as u32));
                            let k = choose|k: int| 0 <= k < old_used.len() && old_used[k] == w as u32;
                            assert(used@[k] == old_used[k]);
                        }
                    }
                }
                assert forall|j: int| 0 <= j < used@.len() implies id_used(ids@, #[trigger] used@[j] as nat) by {
                    if j < old_used.len() {
                        assert(used@[j] == old_used[j]);
                    }
                }
            }
        }
        i = i + 1;
    }
    let ghost witness = choose|k: nat| 1 <= k <= u32::MAX && !id_used(ids@, k);
    let mut next: u32 = 1;
    loop
        invariant
            1 <= next <= witness <= u32::MAX,
            !id_used(ids@, witness),
            forall|k: nat| 1 <= k < next ==> id_used(ids@, k),
            forall|j: int| 0 <= j < used@.len() ==> id_used(ids@, #[trigger] used@[j] as nat),
            forall|m: int| 0 <= m < ids@.len() ==> (parse_unsigned(#[trigger] ids@[m]@, u32::MAX as nat) matches Some(v) ==> used@.contains(v as u32)),
        decreases witness - next,
    {
        let mut found = false;
        let mut j: usize = 0;
        while j < used.len()
            invariant
                j <= used@.len(),
                found == (exists|t: int| 0 <= t < j && used@[t] == next),
            decreases used@.len() - j,
        {
            if used[j] == next {
                found = true;
            }
            j = j + 1;
        }
        if !found {
            proof {
                if id_used(ids@, next as nat) {
                    let m = choose|m: int| 0 <= m < ids@.len() && parse_unsigned(#[trigger] ids@[m]@, u32::MAX as nat) == Some(next as nat);
                    assert(used@.contains(next));
                    let t = choose|t: int| 0 <= t < used@.len() && used@[t] == next;
                    assert(false);
                }
            }
            let mut out: Vec<char> = Vec::new();
            push_decimal(&mut out, next as u128);
            let r = string_of(out.as_slice());
            proof {
                assert(r@ == decimal(next as nat));
            }
            return r;
        }
        proof {
            let t = choose|t: int| 0 <= t < used@.len() && used@[t] == next;
            assert(used@[t] == next);
            assert(id_used(ids@, next as nat));
            assert(next != witness);
            assert forall|k: nat| 1 <= k < next + 1 implies id_used(ids@, k) by {
                if k == next {
                } else {
                    assert(1 <= k < next);
                }
            }
        }
        next = next + 1;
    }
}

/// Count of ids in `ids[..k]` that start with `p`.
pub open spec fn count_prefixed(ids: Seq<String>, p: Seq<char>, k: int) -> nat
    decreases k,
{
    if k <= 0 {
        0
    } else if starts_with(ids[k - 1]@, p) {
        count_prefixed(ids, p, k - 1) + 1
    } else {
        count_prefixed(ids, p, k - 1)
    }
}

/// The session an id prefix names among the live sessions: the index of the
/// only one whose id starts with it; `NotFound` when none does, and
/// `InvalidInput` when several do or no id was given.
pub fn select_session(id: Option<&str>, ids: &[String]) -> (r: Result<usize, HitchError>)
    ensures
        id is None ==> (r matches Err(e) && e.kind == ErrorKind::InvalidInput && e.message@
            == "missing terminal"@),
        id matches Some(p) ==> (r is Ok <==> count_prefixed(ids@, p@, ids@.len() as int) == 1),
        id matches Some(p) ==> (r matches Ok(i) ==> i < ids@.len() && starts_with(
            ids@[i as int]@,
            p@,
        )),
        id matches Some(p) ==> (count_prefixed(ids@, p@, ids@.len() as int) == 0 <==> (r matches Err(
            e,
        ) && e.kind == ErrorKind::NotFound && e.message@ == "terminal "@ + p@ + " does not exist"@)),
        id matches Some(p) ==> (count_prefixed(ids@, p@, ids@.len() as int) > 1 <==> (r matches Err(
            e,
        ) && e.kind == ErrorKind::InvalidInput && e.message@ == "ambiguous hitch terminal: "@ + p@)),
{
    let p = match id {
        None => {
            return Err(HitchError::new(ErrorKind::InvalidInput, "missing terminal"));
        },
        Some(p) => p,
    };
    let mut count: usize = 0;
    let mut found: usize = 0;
    let mut i: usize = 0;
    while i < ids.len()
        invariant
            i <= ids@.len(),
            count == count_prefixed(ids@, p@, i as int),
            count <= i,
            count >= 1 ==> found < i && starts_with(ids@[found as int]@, p@),
        decreases ids@.len() - i,
    {
        if str_starts_with(ids[i].as_str(), p) {
            if count == 0 {
                found = i;
            }
            count = count + 1;
        }
        i = i + 1;
    }
    if count == 1 {
        Ok(found)
    } else if count == 0 {
        let mut m: Vec<char> = Vec::new();
        push_str(&mut m, "terminal ");
        push_str(&mut m, p);
        push_str(&mut m, " does not exist");
        Err(HitchError::with_message(ErrorKind::NotFound, string_of(m.as_slice())))
    } else {
        let mut m: Vec<char> = Vec::new();
        push_str(&mut m, "ambiguous hitch terminal: ");
        push_str(&mut m, p);
        Err(HitchError::with_message(ErrorKind::InvalidInput, string_of(m.as_slice())))
    }
}

// ---------------------------------------------------------------------------
// Ordering sessions for display
// ---------------------------------------------------------------------------

/// The key sessions are listed by: the id as a number, non-numeric ids last.
pub open spec fn id_key(id: Seq<char>) -> nat {
    match parse_unsigned(id, u32::MAX as nat) {
        Some(v) => v,
        None => u32::MAX as nat,
    }
}

/// Session `a` comes before session `b`: a smaller key, or the same key and
/// an earlier position (the sort is stable).
pub open spec fn listed_before(ids: Seq<String>, a: int, b: int) -> bool {
    id_key(ids[a]@) < id_key(ids[b]@) || (id_key(ids[a]@) == id_key(ids[b]@) && a < b)
}

/// The order in which sessions are listed: positions into `ids`, sorted by
/// numeric id, stable for equal keys.
pub fn session_order(ids: &[String]) -> (r: Vec<usize>)
    ensures
        r@.len() == ids@.len(),
        forall|k: int| 0 <= k < r@.len() ==> r@[k] < ids@.len(),
        forall|a: int, b: int| 0 <= a < b < r@.len() ==> listed_before(ids@, r@[a] as int, r@[b] as int),
{
    let n = ids.len();
    let mut keys: Vec<u32> = Vec::new();
    let mut i: usize = 0;
    while i < n
        invariant
            n == ids@.len(),
            i <= n,
            keys@.len() == i,
            forall|k: int| 0 <= k < i ==> keys@[k] as nat == id_key(#[trigger] ids@[k]@),
        decreases n - i,
    {
        let k = match parse_u32(ids[i].as_str()) {
            Some(v) => v,
            None => u32::MAX,
        };
        keys.push(k);
        i = i + 1;
    }
    let mut order: Vec<usize> = Vec::new();
    let mut i: usize = 0;
    while i < n
        invariant
            n == ids@.len(),
            i <= n,
            order@.len() == i,
            forall|k: int| 0 <= k < i ==> order@[k] == k,
        decreases n - i,
    {
        order.push(i);
        i = i + 1;
    }
    let mut i: usize = 1;
    while i < n
        invariant
            n == ids@.len(),
            keys@.len() == n,
            forall|k: int| 0 <= k < n ==> keys@[k] as nat == id_key(#[trigger] ids@[k]@),
            order@.len() == n,
            1 <= i || n == 0,
            forall|k: int| 0 <= k < n ==> order@[k] < n,
            forall|a: int, b: int| 0 <= a < b < n ==> order@[a] != order@[b],
            forall|a: int, b: int| 0 <= a < b < i && b < n ==> listed_before(ids@, order@[a] as int, order@[b] as int),
        decreases n - i,
    {
        let mut j: usize = i;
        let mut moving = true;
        while moving && j > 0
            invariant
                n == ids@.len(),
                keys@.len() == n,
                forall|k: int| 0 <= k < n ==> keys@[k] as nat == id_key(#[trigger] ids@[k]@),
                order@.len() == n,
                0 <= j <= i < n,
                forall|k: int| 0 <= k < n ==> order@[k] < n,
                forall|a: int, b: int| 0 <= a < b < n ==> order@[a] != order@[b],
                forall|a: int, b: int| 0 <= a < b <= i && a != j && b != j ==> listed_before(ids@, order@[a] as int, order@[b] as int),
                forall|b: int| j < b <= i ==> listed_before(ids@, order@[j as int] as int, order@[b] as int),
                !moving ==> j > 0 && listed_before(ids@, order@[j - 1] as int, order@[j as int] as int),
            decreases (if moving { j + 1 } else { 0 }),
        {
            let x = order[j - 1];
            let y = order[j];
            if keys[x] > keys[y] || (keys[x] == keys[y] && x > y) {
                order.set(j - 1, y);
                order.set(j, x);
                j = j - 1;
            } else {
                moving = false;
            }
        }
        proof {
            assert forall|a: int, b: int| 0 <= a < b <= i implies listed_before(ids@, order@[a] as int, order@[b] as int) by {
                if b == j && a < j - 1 {
                    assert(listed_before(ids@, order@[a] as int, order@[j - 1] as int));
                }
            }
        }
        i = i + 1;
    }
    order
}

// ---------------------------------------------------------------------------
// Describing a session
// ---------------------------------------------------------------------------

/// The directory shown for a session: the foreground process's working
/// directory when known, else the last one the shell reported, else where
/// the session started.
pub fn current_dir_for_session(session_cwd: &str, state_dir: Option<&str>, pgrp_cwd: Option<&str>) -> (r:
    String)
    ensures
        r@ == (match pgrp_cwd {
            Some(p) => p@,
            None => match state_dir {
                Some(d) => d@,
                None => session_cwd@,
            },
        }),
{
    let chosen: &str = match pgrp_cwd {
        Some(p) => p,
        None => match state_dir {
            Some(d) => d,
            None => session_cwd,
        },
    };
    string_of(chars_of(chosen).as_slice())
}

/// `{n}s ago`, `{n}m ago`, `{n}h ago` or `{n}d ago` for the time since
/// `timestamp` (a timestamp in the future counts as now).
pub open spec fn ago_text(timestamp: u64, now: u64) -> Seq<char> {
    let e: nat = if now >= timestamp {
        (now - timestamp) as nat
    } else {
        0
    };
    if e < 60 {
        decimal(e) + "s ago"@
    } else if e < 3600 {
        decimal(e / 60) + "m ago"@
    } else if e < 86400 {
        decimal(e / 60 / 60) + "h ago"@
    } else {
        decimal(e / 60 / 60 / 24) + "d ago"@
    }
}

pub fn time_ago(timestamp: u64, now: u64) -> (r: String)
    ensures
        r@ == ago_text(timestamp, now),
{
    let e: u64 = if now >= timestamp {
        now - timestamp
    } else {
        0
    };
    let mut out: Vec<char> = Vec::new();
    if e < 60 {
        push_decimal(&mut out, e as u128);
        push_str(&mut out, "s ago");
    } else if e < 3600 {
        push_decimal(&mut out, (e / 60) as u128);
        push_str(&mut out, "m ago");
    } else if e < 86400 {
        push_decimal(&mut out, (e / 60 / 60) as u128);
        push_str(&mut out, "h ago");
    } else {
        push_decimal(&mut out, (e / 60 / 60 / 24) as u128);
        push_str(&mut out, "d ago");
    }
    string_of(out.as_slice())
}

/// Two digits, zero-padded (`{:02}`).
pub open spec fn two_digits(n: nat) -> Seq<char> {
    if n < 10 {
        seq!['0'] + decimal(n)
    } else {
        decimal(n)
    }
}

/// How long a command has run: `{s}s`, `{m}m {s}s`, `{h}h {mm}m` or
/// `{d}d {h}h`.
pub open spec fn running_text(started_at: u64, now: u64) -> Seq<char> {
    let e: nat = if now >= started_at {
        (now - started_at) as nat
    } else {
        0
    };
    if e < 60 {
        decimal(e) + "s"@
    } else if e < 3600 {
        decimal(e / 60) + "m "@ + decimal(e % 60) + "s"@
    } else if e < 86400 {
        decimal(e / 60 / 60) + "h "@ + two_digits((e / 60) % 60) + "m"@
    } else {
        decimal(e / 60 / 60 / 24) + "d "@ + decimal((e / 60 / 60) % 24) + "h"@
    }
}

pub fn running_for(started_at: u64, now: u64) -> (r: String)
    ensures
        r@ == running_text(started_at, now),
{
    let e: u64 = if now >= started_at {
        now - started_at
    } else {
        0
    };
    let mut out: Vec<char> = Vec::new();
    if e < 60 {
        push_decimal(&mut out, e as u128);
        push_str(&mut out, "s");
    } else if e < 3600 {
        push_decimal(&mut out, (e / 60) as u128);
        push_str(&mut out, "m ");
        push_decimal(&mut out, (e % 60) as u128);
        push_str(&mut out, "s");
    } else if e < 86400 {
        push_decimal(&mut out, (e / 60 / 60) as u128);
        push_str(&mut out, "h ");
        let m = (e / 60) % 60;
        if m < 10 {
            out.push('0');
        }
        push_decimal(&mut out, m as u128);
        push_str(&mut out, "m");
    } else {
        push_decimal(&mut out, (e / 60 / 60 / 24) as u128);
        push_str(&mut out, "d ");
        push_decimal(&mut out, ((e / 60 / 60) % 24) as u128);
        push_str(&mut out, "h");
    }
    string_of(out.as_slice())
}

// ---------------------------------------------------------------------------
// Process information
// ---------------------------------------------------------------------------

/// `s.parse::<i32>()`: an optional sign and decimal digits in range.
pub open spec fn parse_signed32(s: Seq<char>) -> Option<int> {
    if s.len() > 0 && s[0] == '-' {
        let d = s.drop_first();
        if d.len() > 0 && crate::text::all_digits(d) && crate::text::digits_value(d) <= 0x8000_0000 {
            Some(-(crate::text::digits_value(d) as int))
        } else {
            None
        }
    } else {
        match parse_unsigned(s, 0x7fff_ffff) {
            Some(v) => Some(v as int),
            None => None,
        }
    }
}

/// A process id read from a pid file: the trimmed text as an `i32`.
pub fn parse_pid(text: &str) -> (r: Option<i32>)
    ensures
        r matches Some(v) ==> parse_signed32(trim(text@)) == Some(v as int),
        r is None ==> parse_signed32(trim(text@)) is None,
{
    let c = chars_of(text);
    let t = trimmed(c.as_slice());
    if t.len() > 0 && t[0] == '-' {
        let d = slice_chars(t.as_slice(), 1, t.len());
        proof {
            assert(d@ == t@.drop_first());
            assert(crate::text::unsigned_body(d@) == d@ || (d@.len() > 0 && d@[0] == '+'));
        }
        if d.len() > 0 && d[0] == '+' {
            proof {
                assert(!crate::text::is_digit(d@[0]));
            }
            return None;
        }
        proof {
            assert(crate::text::unsigned_body(d@) == d@);
        }
        match parse_u64(d.as_slice()) {
            Some(v) => if v <= 0x8000_0000u64 {
                Some((0 - (v as i64)) as i32)
            } else {
                None
            },
            None => None,
        }
    } else {
        match parse_u64(t.as_slice()) {
            Some(v) => if v <= 0x7fff_ffffu64 {
                Some(v as i32)
            } else {
                None
            },
            None => None,
        }
    }
}

/// The working directory in `lsof -Fn` output: the first line that starts
/// with `n`, without it, when that is not empty.
pub open spec fn lsof_cwd_of(ls: Seq<Seq<char>>) -> Option<Seq<char>>
    decreases ls.len(),
{
    if ls.len() == 0 {
        None
    } else if ls[0].len() > 0 && ls[0][0] == 'n' {
        if ls[0].len() > 1 {
            Some(ls[0].drop_first())
        } else {
            None
        }
    } else {
        lsof_cwd_of(ls.drop_first())
    }
}

/// The working directory reported by `lsof`, from its raw output.
pub fn lsof_cwd(output: &[u8]) -> (r: Option<String>)
    ensures
        r matches Some(s) ==> lsof_cwd_of(lines(read_text(output@))) == Some(s@),
        r is None ==> lsof_cwd_of(lines(read_text(output@))) is None,
{
    let text = utf8_lossy(output);
    let tc = chars_of(text.as_str());
    let ls = lines_of(tc.as_slice());
    let ghost lv = lines(tc@);
    let mut i: usize = 0;
    proof {
        assert(lv.subrange(0, lv.len() as int) == lv);
    }
    while i < ls.len()
        invariant
            i <= ls@.len(),
            ls@.len() == lv.len(),
            lv == lines(read_text(output@)),
            forall|j: int| 0 <= j < ls@.len() ==> #[trigger] ls@[j]@ == lv[j],
            lsof_cwd_of(lv) == lsof_cwd_of(lv.subrange(i as int, lv.len() as int)),
        decreases ls@.len() - i,
    {
        let ghost rest = lv.subrange(i as int, lv.len() as int);
        proof {
            assert(rest[0] == lv[i as int]);
            assert(rest.drop_first() == lv.subrange(i + 1, lv.len() as int));
        }
        let l = &ls[i];
        if l.len() > 0 && l[0] == 'n' {
            if l.len() > 1 {
                let rest_line = slice_chars(l.as_slice(), 1, l.len());
                proof {
                    assert(rest_line@ == l@.drop_first());
                }
                return Some(string_of(rest_line.as_slice()));
            }
            return None;
        }
        i = i + 1;
    }
    None
}

/// The command line `ps -o command=` printed: trimmed, `None` when empty.
pub fn ps_command(output: &[u8]) -> (r: Option<String>)
    ensures
        r matches Some(s) ==> s@ == trim(read_text(output@)) && s@.len() > 0,
        r is None ==> trim(read_text(output@)).len() == 0,
{
    let text = utf8_lossy(output);
    let tc = chars_of(text.as_str());
    let t = trimmed(tc.as_slice());
    if t.len() == 0 {
        None
    } else {
        Some(string_of(t.as_slice()))
    }
}

// ---------------------------------------------------------------------------
// Picking the sessions of a directory
// ---------------------------------------------------------------------------

/// A session belongs to a directory when it started there or is there now
/// (both paths canonical).
pub fn session_in_dir(origin: &str, current: &str, filter: &str) -> (r: bool)
    ensures
        r == (stripped_path(origin@, filter@) is Some || stripped_path(current@, filter@) is Some),
{
    path_starts_with(origin, filter) || path_starts_with(current, filter)
}

/// The first line of `hitch context`: how many sessions are shown.
pub open spec fn context_header_text(all: bool, shown: nat, total: nat) -> Seq<char> {
    if all {
        "terminals: "@ + decimal(total) + " total"@
    } else {
        "terminals: "@ + decimal(shown) + " project, "@ + decimal(total) + " total"@
    }
}

pub fn context_header(all: bool, shown: usize, total: usize) -> (r: String)
    ensures
        r@ == context_header_text(all, shown as nat, total as nat),
{
    let mut out: Vec<char> = Vec::new();
    push_str(&mut out, "terminals: ");
    if all {
        push_decimal(&mut out, total as u128);
        push_str(&mut out, " total");
    } else {
        push_decimal(&mut out, shown as u128);
        push_str(&mut out, " project, ");
        push_decimal(&mut out, total as u128);
        push_str(&mut out, " total");
    }
    string_of(out.as_slice())
}

} // verus!
