//! `send-keys`: turning key names into bytes, the wait modes and durations,
//! the guard against typing into a running process, and the decisions of
//! the wait loop.
use vstd::prelude::*;
use vstd::utf8::encode_utf8;
use crate::error::{ErrorKind, HitchError};
use crate::text::{
    chars_of, decimal, ends_with, parse_u64, parse_unsigned, push_decimal, push_str, slice_chars,
    starts_with, str_ends_with, str_is, str_starts_with, str_views, string_of,
};
use crate::utf8::str_bytes;

verus! {

// ---------------------------------------------------------------------------
// Durations
// ---------------------------------------------------------------------------

/// A span of time in whole milliseconds.
#[derive(Debug, Clone, Copy, PartialEq, Eq, Structural)]
pub struct Duration {
    pub millis: u128,
}

impl Duration {
    pub fn from_millis(millis: u64) -> (r: Self)
        ensures
            r.millis == millis,
    {
        Duration { millis: millis as u128 }
    }

    pub fn from_secs(secs: u64) -> (r: Self)
        ensures
            r.millis == secs * 1000,
    {
        Duration { millis: secs as u128 * 1000 }
    }

    pub fn as_millis(&self) -> (r: u128)
        ensures
            r == self.millis,
    {
        self.millis
    }
}

/// How `send-keys --wait` decides that it has waited enough.
#[derive(Debug, Clone, Copy, PartialEq, Eq, Structural)]
pub enum WaitMode {
    Output,
    Quiet(Duration),
    Time(Duration),
    Finish,
}

/// The options and keys of `send-keys`.
pub struct SendKeysArgs {
    pub target: String,
    pub wait: Option<String>,
    pub timeout: Option<String>,
    pub tail: Option<usize>,
    pub force: bool,
    pub keys: Vec<String>,
}

pub const LATE_OPTION_MESSAGE: &'static str = "send-keys options must come before key arguments";

pub const WAIT_MODE_MESSAGE: &'static str = "wait must be output, finish, quiet:<duration>, or time:<duration>";

pub const DURATION_UNIT_MESSAGE: &'static str = "duration must end with ms, s, or m";

pub const DURATION_NUMBER_MESSAGE: &'static str = "duration must start with a positive integer";

pub const REFUSED_MESSAGE: &'static str = "send-keys refused while process is running";

/// The timeout used when `--timeout` is not given.
pub const DEFAULT_TIMEOUT: &'static str = "30s";

/// How many new lines are shown after a wait when `--tail` is not given.
pub const WAIT_OUTPUT_LINES: usize = 40;

// ---------------------------------------------------------------------------
// Options after the keys
// ---------------------------------------------------------------------------

/// A key argument that is really one of the options, given too late.
pub open spec fn late_option(key: Seq<char>) -> bool {
    ||| key == "--wait"@
    ||| key == "--timeout"@
    ||| key == "--tail"@
    ||| key == "--force"@
    ||| starts_with(key, "--wait="@)
    ||| starts_with(key, "--timeout="@)
    ||| starts_with(key, "--tail="@)
}

fn is_late_option(key: &str) -> (r: bool)
    ensures
        r == late_option(key@),
{
    str_is(key, "--wait") || str_is(key, "--timeout") || str_is(key, "--tail") || str_is(
        key,
        "--force",
    ) || str_starts_with(key, "--wait=") || str_starts_with(key, "--timeout=") || str_starts_with(
        key,
        "--tail=",
    )
}

/// Options must come before the keys: a key that looks like one of them is
/// refused with `InvalidInput`.
pub fn validate_send_keys_args(args: &SendKeysArgs) -> (r: Result<(), HitchError>)
    ensures
        r is Ok <==> (forall|i: int| 0 <= i < args.keys@.len() ==> !late_option(#[trigger] args.keys@[i]@)),
        r matches Err(e) ==> e.kind == ErrorKind::InvalidInput && e.message@ == LATE_OPTION_MESSAGE@,
{
    let mut i: usize = 0;
    while i < args.keys.len()
        invariant
            i <= args.keys@.len(),
            forall|j: int| 0 <= j < i ==> !late_option(#[trigger] args.keys@[j]@),
        decreases args.keys@.len() - i,
    {
        if is_late_option(args.keys[i].as_str()) {
            return Err(HitchError::new(ErrorKind::InvalidInput, LATE_OPTION_MESSAGE));
        }
        i = i + 1;
    }
    Ok(())
}

// ---------------------------------------------------------------------------
// Keys
// ---------------------------------------------------------------------------

/// A control key such as `C-c`: `C-` and one more byte.
pub open spec fn control_key(key: Seq<char>) -> bool {
    starts_with(key, "C-"@) && encode_utf8(key).len() == 3
}

fn is_control_key(key: &str) -> (r: bool)
    ensures
        r == control_key(key@),
{
    str_starts_with(key, "C-") && str_bytes(key).len() == 3
}

/// Every key is a control key (and there is at least one).
pub fn control_only_keys(keys: &[String]) -> (r: bool)
    ensures
        r == (keys@.len() > 0 && forall|i: int| 0 <= i < keys@.len() ==> control_key(#[trigger] keys@[i]@)),
{
    if keys.len() == 0 {
        return false;
    }
    let mut i: usize = 0;
    while i < keys.len()
        invariant
            i <= keys@.len(),
            forall|j: int| 0 <= j < i ==> control_key(#[trigger] keys@[j]@),
        decreases keys@.len() - i,
    {
        if !is_control_key(keys[i].as_str()) {
            return false;
        }
        i = i + 1;
    }
    true
}

/// The first key is `C-c`.
pub fn starts_with_interrupt(keys: &[String]) -> (r: bool)
    ensures
        r == (keys@.len() > 0 && keys@[0]@ == "C-c"@),
{
    keys.len() > 0 && str_is(keys[0].as_str(), "C-c")
}

/// `u8::to_ascii_uppercase`.
pub open spec fn ascii_upper(b: u8) -> u8 {
    if 97 <= b <= 122 {
        (b - 32) as u8
    } else {
        b
    }
}

/// The bytes a key argument stands for: named keys, control keys (the
/// letter's control code), or the argument's own UTF-8 bytes.
pub open spec fn key_bytes(key: Seq<char>) -> Seq<u8> {
    if key == "Enter"@ || key == "C-m"@ {
        seq![10u8]
    } else if key == "Tab"@ {
        seq![9u8]
    } else if key == "Escape"@ || key == "Esc"@ {
        seq![0x1bu8]
    } else if key == "Space"@ {
        seq![32u8]
    } else if key == "Backspace"@ || key == "BSpace"@ {
        seq![0x7fu8]
    } else if control_key(key) {
        seq![ascii_upper(encode_utf8(key)[2]) & 0x1fu8]
    } else {
        encode_utf8(key)
    }
}

/// The bytes sent for one key argument.
pub fn key_to_bytes(key: &str) -> (r: Vec<u8>)
    ensures
        r@ == key_bytes(key@),
{
    if str_is(key, "Enter") || str_is(key, "C-m") {
        return vec![10u8];
    }
    if str_is(key, "Tab") {
        return vec![9u8];
    }
    if str_is(key, "Escape") || str_is(key, "Esc") {
        return vec![0x1bu8];
    }
    if str_is(key, "Space") {
        return vec![32u8];
    }
    if str_is(key, "Backspace") || str_is(key, "BSpace") {
        return vec![0x7fu8];
    }
    let bytes = str_bytes(key);
    if is_control_key(key) {
        let b = bytes[2];
        let upper: u8 = if 97 <= b && b <= 122 {
            b - 32
        } else {
            b
        };
        return vec![upper & 0x1fu8];
    }
    bytes
}

/// All keys' bytes, one after the other.
pub open spec fn payload_of(keys: Seq<String>) -> Seq<u8>
    decreases keys.len(),
{
    if keys.len() == 0 {
        seq![]
    } else {
        payload_of(keys.drop_last()) + key_bytes(keys.last()@)
    }
}

/// The bytes that `send-keys` pushes to the terminal.
pub fn send_keys_payload(keys: &[String]) -> (r: Vec<u8>)
    ensures
        r@ == payload_of(keys@),
{
    let mut out: Vec<u8> = Vec::new();
    let mut i: usize = 0;
    while i < keys.len()
        invariant
            i <= keys@.len(),
            out@ == payload_of(keys@.subrange(0, i as int)),
        decreases keys@.len() - i,
    {
        let b = key_to_bytes(keys[i].as_str());
        let mut j: usize = 0;
        let ghost before = out@;
        while j < b.len()
            invariant
                j <= b@.len(),
                out@ == before + b@.subrange(0, j as int),
            decreases b@.len() - j,
        {
            out.push(b[j]);
            j = j + 1;
            assert(b@.subrange(0, j as int) == b@.subrange(0, j - 1) + seq![b@[j - 1]]);
        }
        proof {
            let next = keys@.subrange(0, i + 1);
            assert(next.drop_last() == keys@.subrange(0, i as int));
            assert(next.last() == keys@[i as int]);
            assert(b@.subrange(0, b@.len() as int) == b@);
        }
        i = i + 1;
    }
    assert(keys@.subrange(0, keys@.len() as int) == keys@);
    out
}

// ---------------------------------------------------------------------------
// Wait modes and durations
// ---------------------------------------------------------------------------

/// The number and unit of a duration: the unit is the first of `ms`, `s`,
/// `m` that ends the text with something before it.
pub open spec fn duration_parts(v: Seq<char>) -> Option<(Seq<char>, Seq<char>)> {
    if ends_with(v, "ms"@) && v.len() > 2 {
        Some((v.subrange(0, v.len() - 2), "ms"@))
    } else if ends_with(v, "s"@) && v.len() > 1 {
        Some((v.subrange(0, v.len() - 1), "s"@))
    } else if ends_with(v, "m"@) && v.len() > 1 {
        Some((v.subrange(0, v.len() - 1), "m"@))
    } else {
        None
    }
}

/// Splits a duration into its number and unit.
pub fn split_duration(value: &str) -> (r: Option<(String, String)>)
    ensures
        r matches Some((n, u)) ==> duration_parts(value@) == Some((n@, u@)),
        r is None ==> duration_parts(value@) is None,
{
    proof {
        reveal_strlit("ms");
        reveal_strlit("s");
        reveal_strlit("m");
    }
    let v = chars_of(value);
    let n = v.len();
    if str_ends_with(value, "ms") && n > 2 {
        let num = slice_chars(v.as_slice(), 0, n - 2);
        return Some((string_of(num.as_slice()), string_of(chars_of("ms").as_slice())));
    }
    if str_ends_with(value, "s") && n > 1 {
        let num = slice_chars(v.as_slice(), 0, n - 1);
        return Some((string_of(num.as_slice()), string_of(chars_of("s").as_slice())));
    }
    if str_ends_with(value, "m") && n > 1 {
        let num = slice_chars(v.as_slice(), 0, n - 1);
        return Some((string_of(num.as_slice()), string_of(chars_of("m").as_slice())));
    }
    None
}

/// The parse does not overflow: a count of minutes fits in `u64` seconds.
pub open spec fn duration_in_range(v: Seq<char>) -> bool {
    match duration_parts(v) {
        Some((number, unit)) => match parse_unsigned(number, u64::MAX as nat) {
            Some(a) => unit == "m"@ ==> a * 60 <= u64::MAX,
            None => true,
        },
        None => true,
    }
}

/// What a duration text means, or the message of the error it gives.
pub open spec fn parsed_duration(v: Seq<char>) -> Result<Duration, Seq<char>> {
    match duration_parts(v) {
        None => Err(DURATION_UNIT_MESSAGE@),
        Some((number, unit)) => match parse_unsigned(number, u64::MAX as nat) {
            None => Err(DURATION_NUMBER_MESSAGE@),
            Some(a) => if unit == "ms"@ {
                Ok(Duration { millis: a as u128 })
            } else if unit == "s"@ {
                Ok(Duration { millis: (a * 1000) as u128 })
            } else {
                Ok(Duration { millis: (a * 60 * 1000) as u128 })
            },
        },
    }
}

/// Parses `<number>ms`, `<number>s` or `<number>m`.
pub fn parse_duration(value: &str) -> (r: Result<Duration, HitchError>)
    requires
        duration_in_range(value@),
    ensures
        r matches Ok(d) ==> parsed_duration(value@) == Ok::<Duration, Seq<char>>(d),
        r matches Err(e) ==> e.kind == ErrorKind::InvalidInput && parsed_duration(value@)
            == Err::<Duration, Seq<char>>(e.message@),
{
    proof {
        reveal_strlit("ms");
        reveal_strlit("s");
        reveal_strlit("m");
    }
    let (number, unit) = match split_duration(value) {
        Some(p) => p,
        None => {
            return Err(HitchError::new(ErrorKind::InvalidInput, DURATION_UNIT_MESSAGE));
        },
    };
    let nc = chars_of(number.as_str());
    let amount = match parse_u64(nc.as_slice()) {
        Some(a) => a,
        None => {
            return Err(HitchError::new(ErrorKind::InvalidInput, DURATION_NUMBER_MESSAGE));
        },
    };
    if str_is(unit.as_str(), "ms") {
        Ok(Duration::from_millis(amount))
    } else if str_is(unit.as_str(), "s") {
        Ok(Duration::from_secs(amount))
    } else {
        Ok(Duration::from_secs(amount * 60))
    }
}

/// The wait-mode text is in range when any duration in it is.
pub open spec fn wait_mode_in_range(v: Seq<char>) -> bool {
    &&& starts_with(v, "quiet:"@) ==> duration_in_range(v.subrange(6, v.len() as int))
    &&& starts_with(v, "time:"@) ==> duration_in_range(v.subrange(5, v.len() as int))
}

/// What a wait-mode text means, or the message of the error it gives.
pub open spec fn parsed_wait_mode(v: Seq<char>) -> Result<WaitMode, Seq<char>> {
    if v == "output"@ {
        Ok(WaitMode::Output)
    } else if v == "finish"@ {
        Ok(WaitMode::Finish)
    } else if starts_with(v, "quiet:"@) {
        match parsed_duration(v.subrange(6, v.len() as int)) {
            Ok(d) => Ok(WaitMode::Quiet(d)),
            Err(m) => Err(m),
        }
    } else if starts_with(v, "time:"@) {
        match parsed_duration(v.subrange(5, v.len() as int)) {
            Ok(d) => Ok(WaitMode::Time(d)),
            Err(m) => Err(m),
        }
    } else {
        Err(WAIT_MODE_MESSAGE@)
    }
}

/// Parses `output`, `finish`, `quiet:<duration>` or `time:<duration>`.
pub fn parse_wait_mode(value: &str) -> (r: Result<WaitMode, HitchError>)
    requires
        wait_mode_in_range(value@),
    ensures
        r matches Ok(m) ==> parsed_wait_mode(value@) == Ok::<WaitMode, Seq<char>>(m),
        r matches Err(e) ==> e.kind == ErrorKind::InvalidInput && parsed_wait_mode(value@)
            == Err::<WaitMode, Seq<char>>(e.message@),
{
    proof {
        reveal_strlit("quiet:");
        reveal_strlit("time:");
    }
    if str_is(value, "output") {
        return Ok(WaitMode::Output);
    }
    if str_is(value, "finish") {
        return Ok(WaitMode::Finish);
    }
    let v = chars_of(value);
    if str_starts_with(value, "quiet:") {
        let rest = string_of(slice_chars(v.as_slice(), 6, v.len()).as_slice());
        let d = parse_duration(rest.as_str())?;
        return Ok(WaitMode::Quiet(d));
    }
    if str_starts_with(value, "time:") {
        let rest = string_of(slice_chars(v.as_slice(), 5, v.len()).as_slice());
        let d = parse_duration(rest.as_str())?;
        return Ok(WaitMode::Time(d));
    }
    Err(HitchError::new(ErrorKind::InvalidInput, WAIT_MODE_MESSAGE))
}

/// A duration as users write it: whole minutes as `m`, whole seconds as
/// `s`, anything else (and anything under a second) as `ms`.
pub open spec fn duration_text(millis: nat) -> Seq<char> {
    if millis < 1000 {
        decimal(millis) + "ms"@
    } else if millis % 60000 == 0 {
        decimal(millis / 60000) + "m"@
    } else if millis % 1000 == 0 {
        decimal(millis / 1000) + "s"@
    } else {
        decimal(millis) + "ms"@
    }
}

pub fn format_duration(duration: Duration) -> (r: String)
    ensures
        r@ == duration_text(duration.millis as nat),
{
    let millis = duration.as_millis();
    let mut out: Vec<char> = Vec::new();
    if millis < 1000 {
        push_decimal(&mut out, millis);
        push_str(&mut out, "ms");
    } else if millis % 60000 == 0 {
        push_decimal(&mut out, millis / 60000);
        push_str(&mut out, "m");
    } else if millis % 1000 == 0 {
        push_decimal(&mut out, millis / 1000);
        push_str(&mut out, "s");
    } else {
        push_decimal(&mut out, millis);
        push_str(&mut out, "ms");
    }
    string_of(out.as_slice())
}

/// Law: a formatted duration parses back to itself, and is never out of
/// the parser's range.
pub proof fn lemma_duration_roundtrip(d: Duration)
    requires
        d.millis <= u64::MAX,
    ensures
        duration_in_range(duration_text(d.millis as nat)),
        parsed_duration(duration_text(d.millis as nat)) == Ok::<Duration, Seq<char>>(d),
{
    reveal_strlit("ms");
    reveal_strlit("s");
    reveal_strlit("m");
    let m = d.millis as nat;
    let q: nat = if m < 1000 {
        m
    } else if m % 60000 == 0 {
        m / 60000
    } else if m % 1000 == 0 {
        m / 1000
    } else {
        m
    };
    let unit = if m < 1000 {
        "ms"@
    } else if m % 60000 == 0 {
        "m"@
    } else if m % 1000 == 0 {
        "s"@
    } else {
        "ms"@
    };
    crate::text::lemma_decimal_parses(q, u64::MAX as nat);
    let num = decimal(q);
    let t = num + unit;
    assert(duration_text(m) == t);
    assert(t.subrange(0, num.len() as int) == num);
    let last = num.last();
    assert(t[num.len() - 1] == last);
    assert(last != 'm' && last != 's');
    if m < 1000 || (m % 60000 != 0 && m % 1000 != 0) {
        assert(unit == "ms"@);
        assert(t.subrange(t.len() - 2, t.len() as int) == "ms"@);
        assert(duration_parts(t) == Some((num, "ms"@)));
    } else if m % 60000 != 0 {
        assert(unit == "s"@);
        assert(t.subrange(t.len() - 2, t.len() as int) != "ms"@) by {
            assert(t.subrange(t.len() - 2, t.len() as int)[0] == last);
        }
        assert(t.subrange(t.len() - 1, t.len() as int) == "s"@);
        assert(duration_parts(t) == Some((num, "s"@)));
        assert(q * 1000 == m) by (nonlinear_arith)
            requires
                q == m / 1000,
                m % 1000 == 0,
        ;
    } else {
        assert(unit == "m"@);
        assert(t.subrange(t.len() - 2, t.len() as int) != "ms"@) by {
            assert(t.subrange(t.len() - 2, t.len() as int)[0] == last);
        }
        assert(t.subrange(t.len() - 1, t.len() as int) != "s"@) by {
            assert(t.subrange(t.len() - 1, t.len() as int)[0] == 'm');
        }
        assert(t.subrange(t.len() - 1, t.len() as int) == "m"@);
        assert(duration_parts(t) == Some((num, "m"@)));
        assert(q * 60 * 1000 == m && q * 60 <= m) by (nonlinear_arith)
            requires
                q == m / 60000,
                m % 60000 == 0,
        ;
    }
}

/// The note shown when a wait ran out of time.
pub open spec fn timeout_text(mode: WaitMode, timeout: Duration) -> Seq<char> {
    let t = duration_text(timeout.millis as nat);
    match mode {
        WaitMode::Output => "timed out after "@ + t + " waiting for output"@,
        WaitMode::Quiet(_) => "timed out after "@ + t + " waiting for output to become quiet"@,
        WaitMode::Time(d) => "timed out after "@ + t + " waiting for "@ + duration_text(
            d.millis as nat,
        ),
        WaitMode::Finish => "timed out after "@ + t + " waiting for command to finish"@,
    }
}

pub fn wait_timeout_message(mode: &WaitMode, timeout: Duration) -> (r: String)
    ensures
        r@ == timeout_text(*mode, timeout),
{
    let t = format_duration(timeout);
    let mut out: Vec<char> = Vec::new();
    push_str(&mut out, "timed out after ");
    push_str(&mut out, t.as_str());
    match mode {
        WaitMode::Output => push_str(&mut out, " waiting for output"),
        WaitMode::Quiet(_) => push_str(&mut out, " waiting for output to become quiet"),
        WaitMode::Time(d) => {
            push_str(&mut out, " waiting for ");
            let dt = format_duration(*d);
            push_str(&mut out, dt.as_str());
        },
        WaitMode::Finish => push_str(&mut out, " waiting for command to finish"),
    }
    string_of(out.as_slice())
}

// ---------------------------------------------------------------------------
// Before sending
// ---------------------------------------------------------------------------

/// Input may be sent: forced, nothing is running, or the keys only signal
/// the running process.
pub open spec fn send_allowed(args: &SendKeysArgs, command_running: bool) -> bool {
    args.force || !command_running || (args.keys@.len() > 0 && forall|i: int|
        0 <= i < args.keys@.len() ==> control_key(#[trigger] args.keys@[i]@)) || (args.keys@.len()
        > 0 && args.keys@[0]@ == "C-c"@)
}

/// Refuses to type into a running process unless forced, or unless the keys
/// are control keys or start with an interrupt; the refusal is `WouldBlock`.
pub fn guard_send_keys(args: &SendKeysArgs, command_running: bool) -> (r: Result<(), HitchError>)
    ensures
        r is Ok <==> send_allowed(args, command_running),
        r matches Err(e) ==> e.kind == ErrorKind::WouldBlock && e.message@ == REFUSED_MESSAGE@,
{
    if args.force {
        return Ok(());
    }
    if !command_running || control_only_keys(args.keys.as_slice()) || starts_with_interrupt(
        args.keys.as_slice(),
    ) {
        return Ok(());
    }
    Err(HitchError::new(ErrorKind::WouldBlock, REFUSED_MESSAGE))
}

/// The note shown when a lone `C-c` has nothing to interrupt. It is given
/// only with `--wait` or `--tail`: without them send-keys prints nothing.
pub open spec fn idle_note(args: &SendKeysArgs, command_running: bool) -> Option<Seq<char>> {
    if args.keys@.len() == 1 && args.keys@[0]@ == "C-c"@ && !command_running && (args.wait is Some
        || args.tail is Some) {
        Some("note: no running process to interrupt"@)
    } else {
        None
    }
}

pub fn idle_interrupt_note(args: &SendKeysArgs, command_running: bool) -> (r: Option<String>)
    ensures
        r matches Some(s) ==> idle_note(args, command_running) == Some(s@),
        r is None ==> idle_note(args, command_running) is None,
{
    if args.keys.len() == 1 && starts_with_interrupt(args.keys.as_slice()) && !command_running && (
    args.wait.is_some() || args.tail.is_some()) {
        Some(string_of(chars_of("note: no running process to interrupt").as_slice()))
    } else {
        None
    }
}

/// How many new lines to show afterwards: `--tail`, else 40 when waiting.
pub fn output_limit(tail: Option<usize>, waiting: bool) -> (r: Option<usize>)
    ensures
        r == (match tail {
            Some(t) => Some(t),
            None => if waiting {
                Some(WAIT_OUTPUT_LINES)
            } else {
                None
            },
        }),
{
    match tail {
        Some(t) => Some(t),
        None => if waiting {
            Some(WAIT_OUTPUT_LINES)
        } else {
            None
        },
    }
}

/// The lines printed after sending: the terminal, the timeout note if any,
/// then the new output or `no new output`.
pub open spec fn report_text(session_id: Seq<char>, note: Option<Seq<char>>, lines: Seq<Seq<char>>) -> Seq<
    Seq<char>,
> {
    let head = seq!["terminal: "@ + session_id];
    let with_note = match note {
        Some(n) => head.push("note: "@ + n),
        None => head,
    };
    if lines.len() == 0 {
        with_note.push("no new output"@)
    } else {
        with_note + seq![seq![], "--- new output ("@ + decimal(lines.len()) + " lines) ---"@] + lines
    }
}

pub fn send_keys_report(session_id: &str, note: Option<&str>, lines: &Vec<String>) -> (r: Vec<
    String,
>)
    ensures
        str_views(r@) == report_text(session_id@, match note {
            Some(n) => Some(n@),
            None => None,
        }, str_views(lines@)),
{
    let mut out: Vec<String> = Vec::new();
    let mut first: Vec<char> = Vec::new();
    push_str(&mut first, "terminal: ");
    push_str(&mut first, session_id);
    out.push(string_of(first.as_slice()));
    if let Some(n) = note {
        let mut l: Vec<char> = Vec::new();
        push_str(&mut l, "note: ");
        push_str(&mut l, n);
        out.push(string_of(l.as_slice()));
    }
    if lines.len() == 0 {
        out.push(string_of(chars_of("no new output").as_slice()));
        proof {
            assert(str_views(out@) =~= report_text(session_id@, match note {
                Some(n) => Some(n@),
                None => None,
            }, str_views(lines@)));
        }
        return out;
    }
    out.push(String::new());
    let mut h: Vec<char> = Vec::new();
    push_str(&mut h, "--- new output (");
    push_decimal(&mut h, lines.len() as u128);
    push_str(&mut h, " lines) ---");
    out.push(string_of(h.as_slice()));
    let ghost base = out@;
    let mut i: usize = 0;
    while i < lines.len()
        invariant
            i <= lines@.len(),
            out@ == base + lines@.subrange(0, i as int),
        decreases lines@.len() - i,
    {
        out.push(lines[i].clone());
        i = i + 1;
        assert(lines@.subrange(0, i as int) == lines@.subrange(0, i - 1) + seq![lines@[i - 1]]);
    }
    proof {
        assert(lines@.subrange(0, lines@.len() as int) == lines@);
        assert(str_views(out@) =~= report_text(session_id@, match note {
            Some(n) => Some(n@),
            None => None,
        }, str_views(lines@)));
    }
    out
}

// ---------------------------------------------------------------------------
// The wait loop
// ---------------------------------------------------------------------------

/// How a wait ended.
#[derive(Debug, Clone, Copy, PartialEq, Eq, Structural)]
pub enum WaitOutcome {
    Satisfied,
    TimedOut,
}

/// What the wait loop remembers between polls; times are milliseconds since
/// the keys were sent.
#[derive(Debug, Clone, Copy, PartialEq, Eq, Structural)]
pub struct WaitState {
    pub start_offset: u64,
    pub last_len: u64,
    pub last_change_ms: u64,
    pub saw_output: bool,
    pub saw_running: bool,
    pub idle_since_ms: Option<u64>,
    pub output_baseline: Option<u64>,
}

/// One look at the session: the time, the log's length, whether a command
/// is running, and how many new visible lines there are (of at most three
/// looked at).
#[derive(Debug, Clone, Copy, PartialEq, Eq, Structural)]
pub struct WaitPoll {
    pub now_ms: u64,
    pub len: u64,
    pub command_running: bool,
    pub new_lines: usize,
}

/// Echoed input and prompt redraws come within this many milliseconds.
pub const ECHO_WINDOW_MS: u64 = 250;

pub const FINISH_IDLE_MS: u64 = 200;

pub const OUTPUT_SETTLE_START_MS: u64 = 1500;

pub const OUTPUT_SETTLE_QUIET_MS: u64 = 500;

/// The state before the first poll.
pub open spec fn wait_start(start_offset: u64, len: u64, now_ms: u64) -> WaitState {
    WaitState {
        start_offset,
        last_len: len,
        last_change_ms: now_ms,
        saw_output: len > start_offset,
        saw_running: false,
        idle_since_ms: None,
        output_baseline: None,
    }
}

/// One poll of the wait loop: the new state and, when the loop ends, how.
pub open spec fn wait_step(mode: WaitMode, timeout: Duration, s: WaitState, p: WaitPoll) -> (
    WaitState,
    Option<WaitOutcome>,
) {
    if p.now_ms >= timeout.millis {
        (s, Some(WaitOutcome::TimedOut))
    } else {
        let changed = p.len != s.last_len;
        let s1 = WaitState {
            last_len: p.len,
            last_change_ms: if changed {
                p.now_ms
            } else {
                s.last_change_ms
            },
            saw_output: s.saw_output || p.len > s.start_offset,
            ..s
        };
        let quiet_for = p.now_ms - s1.last_change_ms;
        match mode {
            WaitMode::Output => if p.now_ms >= ECHO_WINDOW_MS && p.new_lines >= 2 {
                (s1, Some(WaitOutcome::Satisfied))
            } else {
                let baseline: u64 = match s1.output_baseline {
                    Some(b) => b,
                    None => if p.command_running || p.now_ms >= ECHO_WINDOW_MS {
                        p.len
                    } else {
                        u64::MAX
                    },
                };
                if baseline != u64::MAX && p.len > baseline {
                    (WaitState { output_baseline: Some(baseline), ..s1 }, Some(WaitOutcome::Satisfied))
                } else if baseline == u64::MAX && p.now_ms >= ECHO_WINDOW_MS {
                    (WaitState { output_baseline: Some(p.len), ..s1 }, None)
                } else {
                    (WaitState { output_baseline: Some(baseline), ..s1 }, None)
                }
            },
            WaitMode::Quiet(q) => if quiet_for >= q.millis {
                (s1, Some(WaitOutcome::Satisfied))
            } else {
                (s1, None)
            },
            WaitMode::Time(d) => if p.now_ms >= d.millis {
                (s1, Some(WaitOutcome::Satisfied))
            } else {
                (s1, None)
            },
            WaitMode::Finish => if p.command_running {
                (WaitState { saw_running: true, idle_since_ms: None, ..s1 }, None)
            } else if s1.saw_running {
                let idle: u64 = match s1.idle_since_ms {
                    Some(t) => t,
                    None => p.now_ms,
                };
                let s2 = WaitState { idle_since_ms: Some(idle), ..s1 };
                if p.now_ms - idle >= FINISH_IDLE_MS && quiet_for >= FINISH_IDLE_MS {
                    (s2, Some(WaitOutcome::Satisfied))
                } else {
                    (s2, None)
                }
            } else if s1.saw_output && p.now_ms >= OUTPUT_SETTLE_START_MS && quiet_for
                >= OUTPUT_SETTLE_QUIET_MS {
                (s1, Some(WaitOutcome::Satisfied))
            } else {
                (s1, None)
            },
        }
    }
}

fn elapsed_at_least(now: u64, since: u64, span: u128) -> (r: bool)
    ensures
        r == (now - since >= span),
{
    now >= since && (now - since) as u128 >= span
}

impl WaitState {
    pub fn new(start_offset: u64, len: u64, now_ms: u64) -> (r: Self)
        ensures
            r == wait_start(start_offset, len, now_ms),
    {
        WaitState {
            start_offset,
            last_len: len,
            last_change_ms: now_ms,
            saw_output: len > start_offset,
            saw_running: false,
            idle_since_ms: None,
            output_baseline: None,
        }
    }

    /// Takes one poll; `Some` ends the wait.
    pub fn step(&mut self, mode: &WaitMode, timeout: Duration, poll: &WaitPoll) -> (r: Option<
        WaitOutcome,
    >)
        ensures
            (*final(self), r) == wait_step(*mode, timeout, *old(self), *poll),
    {
        if poll.now_ms as u128 >= timeout.millis {
            return Some(WaitOutcome::TimedOut);
        }
        if poll.len != self.last_len {
            self.last_len = poll.len;
            self.last_change_ms = poll.now_ms;
        }
        if poll.len > self.start_offset {
            self.saw_output = true;
        }
        let now = poll.now_ms;
        match mode {
            WaitMode::Output => {
                if now >= ECHO_WINDOW_MS && poll.new_lines >= 2 {
                    return Some(WaitOutcome::Satisfied);
                }
                let baseline: u64 = match self.output_baseline {
                    Some(b) => b,
                    None => if poll.command_running || now >= ECHO_WINDOW_MS {
                        poll.len
                    } else {
                        u64::MAX
                    },
                };
                if baseline != u64::MAX && poll.len > baseline {
                    self.output_baseline = Some(baseline);
                    return Some(WaitOutcome::Satisfied);
                }
                if baseline == u64::MAX && now >= ECHO_WINDOW_MS {
                    self.output_baseline = Some(poll.len);
                } else {
                    self.output_baseline = Some(baseline);
                }
                None
            },
            WaitMode::Quiet(q) => {
                if elapsed_at_least(now, self.last_change_ms, q.millis) {
                    Some(WaitOutcome::Satisfied)
                } else {
                    None
                }
            },
            WaitMode::Time(d) => {
                if now as u128 >= d.millis {
                    Some(WaitOutcome::Satisfied)
                } else {
                    None
                }
            },
            WaitMode::Finish => {
                if poll.command_running {
                    self.saw_running = true;
                    self.idle_since_ms = None;
                    None
                } else if self.saw_running {
                    let idle: u64 = match self.idle_since_ms {
                        Some(t) => t,
                        None => now,
                    };
                    self.idle_since_ms = Some(idle);
                    if elapsed_at_least(now, idle, FINISH_IDLE_MS as u128) && elapsed_at_least(
                        now,
                        self.last_change_ms,
                        FINISH_IDLE_MS as u128,
                    ) {
                        Some(WaitOutcome::Satisfied)
                    } else {
                        None
                    }
                } else if self.saw_output && now >= OUTPUT_SETTLE_START_MS && elapsed_at_least(
                    now,
                    self.last_change_ms,
                    OUTPUT_SETTLE_QUIET_MS as u128,
                ) {
                    Some(WaitOutcome::Satisfied)
                } else {
                    None
                }
            },
        }
    }
}

/// Law: a wait ends no later than its timeout: once the time has come, the
/// step says `TimedOut` and leaves the state as it was.
pub proof fn lemma_wait_times_out(mode: WaitMode, timeout: Duration, s: WaitState, p: WaitPoll)
    requires
        p.now_ms >= timeout.millis,
    ensures
        wait_step(mode, timeout, s, p) == (s, Some(WaitOutcome::TimedOut)),
{
}

/// Law: a fixed-time wait shorter than its timeout is satisfied at the
/// first poll once its time has passed.
pub proof fn lemma_time_wait_satisfied(d: Duration, timeout: Duration, s: WaitState, p: WaitPoll)
    requires
        d.millis <= p.now_ms < timeout.millis,
    ensures
        wait_step(WaitMode::Time(d), timeout, s, p).1 == Some(WaitOutcome::Satisfied),
{
}

/// Law: a finish-wait that has seen output but never a running command ends
/// as satisfied once 1.5 s have passed and the log has been quiet for 0.5 s
/// (counting this poll's change, if any), before its timeout.
pub proof fn lemma_finish_wait_settles(timeout: Duration, s: WaitState, p: WaitPoll)
    requires
        !s.saw_running,
        !p.command_running,
        s.saw_output || p.len > s.start_offset,
        p.now_ms < timeout.millis,
        p.now_ms >= 1500,
        p.now_ms - (if p.len != s.last_len {
            p.now_ms
        } else {
            s.last_change_ms
        }) >= 500,
    ensures
        wait_step(WaitMode::Finish, timeout, s, p).1 == Some(WaitOutcome::Satisfied),
{
}

/// Law: a finish-wait that has seen a command run ends as satisfied once no
/// command has run for 0.2 s and the log has been quiet as long, before its
/// timeout.
pub proof fn lemma_finish_wait_after_command(timeout: Duration, s: WaitState, p: WaitPoll)
    requires
        s.saw_running,
        !p.command_running,
        p.now_ms < timeout.millis,
        s.idle_since_ms matches Some(t) && p.now_ms - t >= 200,
        p.now_ms - (if p.len != s.last_len {
            p.now_ms
        } else {
            s.last_change_ms
        }) >= 200,
    ensures
        wait_step(WaitMode::Finish, timeout, s, p).1 == Some(WaitOutcome::Satisfied),
{
}

/// Law: while a command runs, a finish-wait does not end before its
/// timeout.
pub proof fn lemma_finish_wait_while_running(timeout: Duration, s: WaitState, p: WaitPoll)
    requires
        p.command_running,
        p.now_ms < timeout.millis,
    ensures
        wait_step(WaitMode::Finish, timeout, s, p).1 is None,
        wait_step(WaitMode::Finish, timeout, s, p).0.saw_running,
{
}

/// Law: a quiet-wait ends, before its timeout, exactly when the log has not
/// grown or shrunk for the wanted span (counting this poll's change).
pub proof fn lemma_quiet_wait(q: Duration, timeout: Duration, s: WaitState, p: WaitPoll)
    requires
        p.now_ms < timeout.millis,
    ensures
        wait_step(WaitMode::Quiet(q), timeout, s, p).1 == (if p.now_ms - (if p.len != s.last_len {
            p.now_ms
        } else {
            s.last_change_ms
        }) >= q.millis {
            Some(WaitOutcome::Satisfied)
        } else {
            None
        }),
{
}

} // verus!
